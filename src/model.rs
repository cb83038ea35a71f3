//! The data model: objects, correlations and the records a search derives.
//! Every quantity is a fixed-point value (see `crate::fixed`).
use vstd::prelude::*;

verus! {

/// Kind of system an object is.
#[derive(Debug, Clone, Copy, PartialEq, Eq, Structural)]
pub enum SystemClass {
    AutonomousSystem,
    HeteronomousSystem,
    Environment,
    Tool,
}

/// Kind of control system that drives an object.
#[derive(Debug, Clone, Copy, PartialEq, Eq, Structural)]
pub enum ControlSystemType {
    Cognitive,
    Ideological,
    Ethical,
    Economic,
}

/// Kind of a control relation.
#[derive(Debug, Clone, Copy, PartialEq, Eq, Structural)]
pub enum RelationType {
    DirectControl,
    PositiveFeedback,
    NegativeFeedback,
    Supply,
}

/// Energy profile of an object.
#[derive(Debug, Clone, Copy, PartialEq, Eq, Structural)]
pub struct EnergyParams {
    pub working_power: i64,
    pub idle_power: i64,
    pub available_power: i64,
}

/// A node of the graph.
#[derive(Debug)]
pub struct CyberneticObject {
    pub id: String,
    pub name: String,
    pub description: Option<String>,
    pub system_class: SystemClass,
    pub control_system_type: ControlSystemType,
    pub energy_params: EnergyParams,
    /// Unit power `v`.
    pub power_v: i64,
    /// Quality or efficiency `a`, between 0 and 1.
    pub quality_a: i64,
    /// Mass or quantity `c`.
    pub mass_c: i64,
    pub created_at: String,
}

/// A directed edge: `source_id` exerts control over `target_id`.
#[derive(Debug)]
pub struct Correlation {
    pub id: String,
    pub source_id: String,
    pub target_id: String,
    pub relation_type: RelationType,
    pub certainty_score: i64,
    /// Signed multiplier applied to the strength carried along this edge.
    pub impact_factor: i64,
    pub source_name: Option<String>,
    pub created_at: String,
}

/// Direction in which the target should be steered. It does not change the search.
#[derive(Debug, Clone, Copy, PartialEq, Eq, Structural)]
pub enum SteeringGoal {
    Strengthen,
    Weaken,
}

/// One chain of influence, from the influencer (first) to the target (last).
#[derive(Debug)]
pub struct InfluencePath {
    pub path: Vec<String>,
    pub path_names: Vec<String>,
    pub total_strength: i64,
    /// Relation types of the edges, in path order.
    pub feedback_types: Vec<RelationType>,
    /// Mean certainty of the edges.
    pub certainty_score: i64,
    pub depth: usize,
    pub is_feedback_loop: bool,
}

/// The paths sharing one influencer, with their aggregate scores.
#[derive(Debug)]
pub struct InfluentialNode {
    pub object_id: String,
    pub object_name: String,
    pub influence_strength: i64,
    pub path_count: usize,
    pub feedback_multiplier: i64,
    pub available_power: i64,
    pub certainty_score: i64,
    pub control_leverage: i64,
    pub paths: Vec<InfluencePath>,
}

/// Parses a steering goal token: `strengthen` or `weaken`.
pub fn parse_goal(token: &str) -> (r: Option<SteeringGoal>)
    ensures
        token@ == "strengthen"@ ==> r == Some(SteeringGoal::Strengthen),
        token@ == "weaken"@ ==> r == Some(SteeringGoal::Weaken),
        token@ != "strengthen"@ && token@ != "weaken"@ ==> r.is_none(),
{
    proof {
        reveal_strlit("strengthen");
        reveal_strlit("weaken");
        assert("weaken"@.len() != "strengthen"@.len());
    }
    let s = token.to_owned();
    let strengthen = "strengthen".to_owned();
    let weaken = "weaken".to_owned();
    if s == strengthen {
        Some(SteeringGoal::Strengthen)
    } else if s == weaken {
        Some(SteeringGoal::Weaken)
    } else {
        None
    }
}

/// A copy of a sequence of strings.
pub fn copy_strings(v: &Vec<String>) -> (r: Vec<String>)
    ensures
        r@ == v@,
{
    let mut r: Vec<String> = Vec::new();
    let mut i: usize = 0;
    while i < v.len()
        invariant
            i <= v.len(),
            r@ == v@.subrange(0, i as int),
        decreases v.len() - i,
    {
        r.push(v[i].clone());
        i = i + 1;
    }
    assert(r@ =~= v@);
    r
}

/// A copy of a sequence of relation types.
pub fn copy_relations(v: &Vec<RelationType>) -> (r: Vec<RelationType>)
    ensures
        r@ == v@,
{
    let mut r: Vec<RelationType> = Vec::new();
    let mut i: usize = 0;
    while i < v.len()
        invariant
            i <= v.len(),
            r@ == v@.subrange(0, i as int),
        decreases v.len() - i,
    {
        r.push(v[i]);
        i = i + 1;
    }
    assert(r@ =~= v@);
    r
}

impl InfluencePath {
    /// A copy of this path, equal to it field for field.
    pub fn duplicate(&self) -> (r: InfluencePath)
        ensures
            r.path@ == self.path@,
            r.path_names@ == self.path_names@,
            r.total_strength == self.total_strength,
            r.feedback_types@ == self.feedback_types@,
            r.certainty_score == self.certainty_score,
            r.depth == self.depth,
            r.is_feedback_loop == self.is_feedback_loop,
    {
        InfluencePath {
            path: copy_strings(&self.path),
            path_names: copy_strings(&self.path_names),
            total_strength: self.total_strength,
            feedback_types: copy_relations(&self.feedback_types),
            certainty_score: self.certainty_score,
            depth: self.depth,
            is_feedback_loop: self.is_feedback_loop,
        }
    }
}

} // verus!
