//! What an aggregate over the paths of one influencer holds.
use vstd::prelude::*;

use crate::fixed::{div_trunc, mul_spec};
use crate::formulas::{feedback_from, feedback_multiplier_spec, leverage_spec};
use crate::model::{CyberneticObject, InfluencePath, InfluentialNode, RelationType};

verus! {

/// `p` counts toward the influencer `id`: it has an edge and starts at `id`.
pub open spec fn starts_at(p: InfluencePath, id: Seq<char>) -> bool {
    p.path@.len() >= 2 && p.path@[0]@ == id
}

/// The paths among the first `n` of `ps` that count toward `id`, in order.
pub open spec fn group_of(ps: Seq<InfluencePath>, id: Seq<char>, n: int) -> Seq<InfluencePath>
    decreases n,
{
    if n <= 0 {
        seq![]
    } else if starts_at(ps[n - 1], id) {
        group_of(ps, id, n - 1).push(ps[n - 1])
    } else {
        group_of(ps, id, n - 1)
    }
}

/// `a` and `b` hold the same values.
pub open spec fn same_path(a: InfluencePath, b: InfluencePath) -> bool {
    &&& a.path@ == b.path@
    &&& a.path_names@ == b.path_names@
    &&& a.total_strength == b.total_strength
    &&& a.feedback_types@ == b.feedback_types@
    &&& a.certainty_score == b.certainty_score
    &&& a.depth == b.depth
    &&& a.is_feedback_loop == b.is_feedback_loop
}

/// Sum of the strengths of `g`.
pub open spec fn strength_sum(g: Seq<InfluencePath>) -> int
    decreases g.len(),
{
    if g.len() == 0 {
        0
    } else {
        strength_sum(g.drop_last()) + g.last().total_strength
    }
}

/// Sum of the certainties of `g`.
pub open spec fn certainty_total(g: Seq<InfluencePath>) -> int
    decreases g.len(),
{
    if g.len() == 0 {
        0
    } else {
        certainty_total(g.drop_last()) + g.last().certainty_score
    }
}

/// Every relation type of every path of `g`, in order.
pub open spec fn all_types(g: Seq<InfluencePath>) -> Seq<RelationType>
    decreases g.len(),
{
    if g.len() == 0 {
        seq![]
    } else {
        all_types(g.drop_last()) + g.last().feedback_types@
    }
}

/// `nd` aggregates, over the objects `objs`, the paths of `ps` that start at its id.
pub open spec fn aggregates(
    objs: Seq<CyberneticObject>,
    ps: Seq<InfluencePath>,
    nd: InfluentialNode,
) -> bool {
    let g = group_of(ps, nd.object_id@, ps.len() as int);
    &&& exists|i: int|
        #![trigger objs[i]]
        0 <= i < objs.len() && objs[i].id@ == nd.object_id@ && objs[i].name@ == nd.object_name@
            && objs[i].energy_params.available_power == nd.available_power
    &&& g.len() >= 1
    &&& nd.paths@.len() == g.len()
    &&& forall|j: int| 0 <= j < g.len() ==> same_path(#[trigger] nd.paths@[j], g[j])
    &&& nd.path_count == nd.paths@.len()
    &&& nd.influence_strength == div_trunc(strength_sum(nd.paths@), nd.path_count as int)
    &&& nd.certainty_score == div_trunc(certainty_total(nd.paths@), nd.path_count as int)
    &&& nd.feedback_multiplier == feedback_multiplier_spec(all_types(nd.paths@))
    &&& nd.control_leverage == leverage_spec(
        nd.available_power as int,
        mul_spec(nd.influence_strength as int, nd.feedback_multiplier as int),
        nd.certainty_score as int,
    )
}

/// A path at position `w < n` that counts toward `id` puts something in its group.
pub proof fn lemma_group_nonempty(ps: Seq<InfluencePath>, id: Seq<char>, w: int, n: int)
    requires
        0 <= w < n <= ps.len(),
        starts_at(ps[w], id),
    ensures
        group_of(ps, id, n).len() >= 1,
    decreases n,
{
    if w < n - 1 {
        lemma_group_nonempty(ps, id, w, n - 1);
    }
}

/// Each member of a group counts toward its id and is one of the paths.
pub proof fn lemma_group_members(ps: Seq<InfluencePath>, id: Seq<char>, n: int)
    requires
        0 <= n <= ps.len(),
    ensures
        forall|j: int|
            0 <= j < group_of(ps, id, n).len() ==> {
                &&& starts_at(#[trigger] group_of(ps, id, n)[j], id)
                &&& exists|k: int| 0 <= k < n && ps[k] == group_of(ps, id, n)[j]
            },
    decreases n,
{
    if n > 0 {
        lemma_group_members(ps, id, n - 1);
        let prev = group_of(ps, id, n - 1);
        assert forall|j: int| 0 <= j < group_of(ps, id, n).len() implies {
            &&& starts_at(#[trigger] group_of(ps, id, n)[j], id)
            &&& exists|k: int| 0 <= k < n && ps[k] == group_of(ps, id, n)[j]
        } by {
            if j < prev.len() {
                assert(group_of(ps, id, n)[j] == prev[j]);
            } else {
                assert(group_of(ps, id, n)[j] == ps[n - 1]);
            }
        }
    }
}

/// Folding over two sequences one after the other is folding over their concatenation.
pub proof fn lemma_feedback_concat(m: int, a: Seq<RelationType>, b: Seq<RelationType>)
    ensures
        feedback_from(m, a + b) == feedback_from(feedback_from(m, a), b),
    decreases b.len(),
{
    if b.len() == 0 {
        assert(a + b =~= a);
    } else {
        assert((a + b).drop_last() =~= a + b.drop_last());
        lemma_feedback_concat(m, a, b.drop_last());
    }
}

} // verus!
