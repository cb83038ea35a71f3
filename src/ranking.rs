//! Ranking influencers, and the whole query from objects to ranked influencers.
use vstd::prelude::*;

use crate::graph::{has_id, keeps_last_from, Graph};
use crate::influence::{aggregates, group_of, lemma_group_members, same_path};
use crate::model::{parse_goal, Correlation, CyberneticObject, InfluencePath, InfluentialNode};
use crate::influence::starts_at;
use crate::fixed::SCALE;
use crate::paths::{expanded, ids_of, is_recorded_path, repeats_only_target, MAX_DEPTH, MAX_PATHS, MIN_INFLUENCE_THRESHOLD};

verus! {

broadcast use vstd::seq_lib::group_seq_properties;

/// `nodes` is ordered by descending control leverage.
pub open spec fn sorted_by_leverage(nodes: Seq<InfluentialNode>) -> bool {
    forall|a: int, b: int|
        0 <= a < b < nodes.len() ==> #[trigger] nodes[a].control_leverage >= #[trigger] nodes[b].control_leverage
}

/// `ps` is what a search for `target` over `objs` and `cs` returns: recorded
/// paths only, at most `MAX_PATHS` of them, and, unless that many were found,
/// every qualifying extension of the target and of each path short of `MAX_DEPTH`.
pub open spec fn found_paths(
    objs: Seq<CyberneticObject>,
    cs: Seq<Correlation>,
    target: Seq<char>,
    ps: Seq<InfluencePath>,
) -> bool {
    &&& ps.len() <= MAX_PATHS
    &&& forall|i: int| 0 <= i < ps.len() ==> is_recorded_path(objs, cs, #[trigger] ps[i], target)
    &&& forall|a: int, b: int| 0 <= a < b < ps.len() ==> (#[trigger] ps[a]).depth <= (#[trigger] ps[b]).depth
    &&& ps.len() < MAX_PATHS ==> expanded(objs, cs, ps, seq![target], SCALE as int, target)
    &&& ps.len() < MAX_PATHS ==> forall|i: int|
        0 <= i < ps.len() && (#[trigger] ps[i]).depth < MAX_DEPTH ==> expanded(
            objs,
            cs,
            ps,
            ids_of(ps[i].path@),
            ps[i].total_strength as int,
            target,
        )
}

/// Each node of `nodes` aggregates the paths of `ps` that start at its id.
pub open spec fn aggregated(
    objs: Seq<CyberneticObject>,
    ps: Seq<InfluencePath>,
    nodes: Seq<InfluentialNode>,
) -> bool {
    forall|a: int| 0 <= a < nodes.len() ==> aggregates(objs, ps, #[trigger] nodes[a])
}

/// `nodes` answers a query for `target` over the given objects and
/// correlations: the objects are registered (the last of each id kept), the
/// search finds paths, and each node aggregates those of one influencer.
pub open spec fn answers_query(
    objects: Seq<CyberneticObject>,
    cs: Seq<Correlation>,
    target: Seq<char>,
    nodes: Seq<InfluentialNode>,
) -> bool {
    exists|objs: Seq<CyberneticObject>, ps: Seq<InfluencePath>|
        #![trigger keeps_last_from(objs, objects, 0), found_paths(objs, cs, target, ps)]
        keeps_last_from(objs, objects, 0) && found_paths(objs, cs, target, ps) && aggregated(
            objs,
            ps,
            nodes,
        ) && distinct_ids(nodes) && covers(objs, ps, nodes)
}

/// No two nodes of `nodes` share an id.
pub open spec fn distinct_ids(nodes: Seq<InfluentialNode>) -> bool {
    forall|a: int, b: int|
        0 <= a < b < nodes.len() ==> #[trigger] nodes[a].object_id@ != #[trigger] nodes[b].object_id@
}

/// Every path of `ps` with an edge whose first id is a registered object has
/// a node of `nodes` with that id.
pub open spec fn covers(
    objs: Seq<CyberneticObject>,
    ps: Seq<InfluencePath>,
    nodes: Seq<InfluentialNode>,
) -> bool {
    forall|k: int|
        0 <= k < ps.len() && (#[trigger] ps[k]).path@.len() >= 2 && has_id(objs, ps[k].path@[0]@)
            ==> exists|a: int| 0 <= a < nodes.len() && #[trigger] nodes[a].object_id@ == ps[k].path@[0]@
}

/// Sum of the path counts of `nodes`.
pub open spec fn total_path_count(nodes: Seq<InfluentialNode>) -> int
    decreases nodes.len(),
{
    if nodes.len() == 0 {
        0
    } else {
        total_path_count(nodes.drop_last()) + nodes.last().path_count
    }
}

/// Sum of the sizes of the groups of the first `n` paths of `ps` for each id of `ids`.
pub open spec fn group_total(ps: Seq<InfluencePath>, ids: Seq<Seq<char>>, n: int) -> int
    decreases ids.len(),
{
    if ids.len() == 0 {
        0
    } else {
        group_total(ps, ids.drop_last(), n) + group_of(ps, ids.last(), n).len()
    }
}

proof fn lemma_group_total_empty(ps: Seq<InfluencePath>, ids: Seq<Seq<char>>)
    ensures
        group_total(ps, ids, 0) == 0,
    decreases ids.len(),
{
    if ids.len() > 0 {
        lemma_group_total_empty(ps, ids.drop_last());
    }
}

proof fn lemma_group_total_step(ps: Seq<InfluencePath>, ids: Seq<Seq<char>>, n: int)
    requires
        1 <= n <= ps.len(),
        forall|a: int, b: int| 0 <= a < b < ids.len() ==> #[trigger] ids[a] != #[trigger] ids[b],
    ensures
        group_total(ps, ids, n) <= group_total(ps, ids, n - 1) + (if exists|a: int|
            0 <= a < ids.len() && starts_at(ps[n - 1], #[trigger] ids[a]) {
            1int
        } else {
            0int
        }),
    decreases ids.len(),
{
    if ids.len() > 0 {
        let rest = ids.drop_last();
        assert forall|a: int, b: int| 0 <= a < b < rest.len() implies #[trigger] rest[a] != #[trigger] rest[b] by {
            assert(rest[a] == ids[a] && rest[b] == ids[b]);
        }
        lemma_group_total_step(ps, rest, n);
        if starts_at(ps[n - 1], ids.last()) {
            assert(starts_at(ps[n - 1], ids[ids.len() - 1]));
            if exists|a: int| 0 <= a < rest.len() && starts_at(ps[n - 1], #[trigger] rest[a]) {
                let a = choose|a: int| 0 <= a < rest.len() && starts_at(ps[n - 1], #[trigger] rest[a]);
                assert(ids[a] == ids[ids.len() - 1]);
            }
        } else if exists|a: int| 0 <= a < rest.len() && starts_at(ps[n - 1], #[trigger] rest[a]) {
            let a = choose|a: int| 0 <= a < rest.len() && starts_at(ps[n - 1], #[trigger] rest[a]);
            assert(starts_at(ps[n - 1], ids[a]));
        }
    }
}

proof fn lemma_group_total_bound(ps: Seq<InfluencePath>, ids: Seq<Seq<char>>, n: int)
    requires
        0 <= n <= ps.len(),
        forall|a: int, b: int| 0 <= a < b < ids.len() ==> #[trigger] ids[a] != #[trigger] ids[b],
    ensures
        group_total(ps, ids, n) <= n,
    decreases n,
{
    if n == 0 {
        lemma_group_total_empty(ps, ids);
    } else {
        lemma_group_total_bound(ps, ids, n - 1);
        lemma_group_total_step(ps, ids, n);
    }
}

proof fn lemma_total_matches_groups(objs: Seq<CyberneticObject>, ps: Seq<InfluencePath>, nodes: Seq<InfluentialNode>)
    requires
        aggregated(objs, ps, nodes),
    ensures
        total_path_count(nodes) == group_total(ps, nodes.map_values(|nd: InfluentialNode| nd.object_id@), ps.len() as int),
    decreases nodes.len(),
{
    let ids = nodes.map_values(|nd: InfluentialNode| nd.object_id@);
    if nodes.len() > 0 {
        let rest = nodes.drop_last();
        assert forall|a: int| 0 <= a < rest.len() implies aggregates(objs, ps, #[trigger] rest[a]) by {
            assert(rest[a] == nodes[a]);
        }
        lemma_total_matches_groups(objs, ps, rest);
        assert(ids.drop_last() =~= rest.map_values(|nd: InfluentialNode| nd.object_id@));
        assert(aggregates(objs, ps, nodes[nodes.len() - 1]));
    }
}

/// The nodes of a query hold together at most `MAX_PATHS` paths.
pub proof fn lemma_query_path_total_bounded(
    objects: Seq<CyberneticObject>,
    cs: Seq<Correlation>,
    target: Seq<char>,
    nodes: Seq<InfluentialNode>,
)
    requires
        answers_query(objects, cs, target, nodes),
    ensures
        total_path_count(nodes) <= MAX_PATHS,
{
    let (objs, ps) = choose|objs: Seq<CyberneticObject>, ps: Seq<InfluencePath>|
        #![trigger keeps_last_from(objs, objects, 0), found_paths(objs, cs, target, ps)]
        keeps_last_from(objs, objects, 0) && found_paths(objs, cs, target, ps) && aggregated(
            objs,
            ps,
            nodes,
        ) && distinct_ids(nodes) && covers(objs, ps, nodes);
    let ids = nodes.map_values(|nd: InfluentialNode| nd.object_id@);
    assert forall|a: int, b: int| 0 <= a < b < ids.len() implies #[trigger] ids[a] != #[trigger] ids[b] by {
        assert(nodes[a].object_id@ != nodes[b].object_id@);
    }
    lemma_total_matches_groups(objs, ps, nodes);
    lemma_group_total_bound(ps, ids, ps.len() as int);
}

/// Why a query was refused.
#[derive(Debug, Clone, Copy, PartialEq, Eq, Structural)]
pub enum InfluenceError {
    /// The goal token is neither `strengthen` nor `weaken`.
    InvalidGoal,
}

/// Orders nodes by descending control leverage; nodes of equal leverage keep
/// their order.
pub fn rank_by_leverage(nodes: Vec<InfluentialNode>) -> (r: Vec<InfluentialNode>)
    ensures
        sorted_by_leverage(r@),
        r@.to_multiset() == nodes@.to_multiset(),
        distinct_ids(nodes@) ==> distinct_ids(r@),
{
    let ghost orig = nodes@;
    let mut rest = nodes;
    let mut result: Vec<InfluentialNode> = Vec::new();
    while rest.len() > 0
        invariant
            sorted_by_leverage(result@),
            result@.to_multiset().add(rest@.to_multiset()) == orig.to_multiset(),
            rest@.len() <= orig.len(),
            rest@ == orig.subrange(orig.len() - rest@.len(), orig.len() as int),
            distinct_ids(orig) ==> distinct_ids(result@),
            distinct_ids(orig) ==> forall|a: int, b: int|
                0 <= a < result@.len() && 0 <= b < rest@.len() ==> #[trigger] result@[a].object_id@
                    != #[trigger] rest@[b].object_id@,
        decreases rest@.len(),
    {
        let ghost before_rest = rest@;
        let ghost before = result@;
        let x = rest.remove(0);
        let mut pos: usize = 0;
        while pos < result.len() && result[pos].control_leverage >= x.control_leverage
            invariant
                pos <= result@.len(),
                forall|a: int| 0 <= a < pos ==> (#[trigger] result@[a]).control_leverage >= x.control_leverage,
            decreases result@.len() - pos,
        {
            pos = pos + 1;
        }
        let ghost lev = x.control_leverage;
        result.insert(pos, x);
        proof {
            assert(before_rest.remove(0).to_multiset() == before_rest.to_multiset().remove(before_rest[0]));
            assert(before.insert(pos as int, before_rest[0]).to_multiset() == before.to_multiset().insert(before_rest[0]));
            assert(result@.to_multiset().add(rest@.to_multiset()) =~= orig.to_multiset());
            assert(rest@ =~= orig.subrange(orig.len() - rest@.len(), orig.len() as int));
            if distinct_ids(orig) {
                let off = orig.len() - before_rest.len();
                assert(before_rest[0] == orig[off]);
                assert forall|a: int, b: int|
                    0 <= a < result@.len() && 0 <= b < rest@.len() implies #[trigger] result@[a].object_id@
                        != #[trigger] rest@[b].object_id@ by {
                    assert(rest@[b] == before_rest[b + 1]);
                    assert(before_rest[b + 1] == orig[off + b + 1]);
                    if a < pos {
                        assert(result@[a] == before[a]);
                    } else if a > pos {
                        assert(result@[a] == before[a - 1]);
                    }
                }
                assert forall|a: int, b: int|
                    0 <= a < b < result@.len() implies #[trigger] result@[a].object_id@
                        != #[trigger] result@[b].object_id@ by {
                    if a < pos {
                        assert(result@[a] == before[a]);
                    } else if a > pos {
                        assert(result@[a] == before[a - 1]);
                    }
                    if b < pos {
                        assert(result@[b] == before[b]);
                    } else if b > pos {
                        assert(result@[b] == before[b - 1]);
                    }
                    if a == pos {
                        assert(before_rest[0] == x);
                    }
                }
            }
            assert forall|a: int, b: int|
                0 <= a < b < result@.len() implies #[trigger] result@[a].control_leverage >= #[trigger] result@[b].control_leverage by {
                if a < pos && b < pos {
                    assert(result@[a] == before[a] && result@[b] == before[b]);
                } else if a < pos && b == pos {
                    assert(result@[a] == before[a]);
                } else if a < pos {
                    assert(result@[a] == before[a] && result@[b] == before[b - 1]);
                    if pos < before.len() {
                        assert(before[pos as int].control_leverage < lev);
                    }
                    assert(before[a].control_leverage >= before[b - 1].control_leverage);
                } else if a == pos {
                    assert(result@[b] == before[b - 1]);
                    assert(before[pos as int].control_leverage < lev);
                    assert(before[pos as int].control_leverage >= before[b - 1].control_leverage);
                } else {
                    assert(result@[a] == before[a - 1] && result@[b] == before[b - 1]);
                }
            }
        }
    }
    result
}

/// Builds the graph, searches backward from `target_id`, aggregates the paths
/// per influencer and ranks the influencers by descending control leverage.
/// Fails only on a goal token other than `strengthen` or `weaken`.
pub fn find_ranked_influences(
    objects: Vec<CyberneticObject>,
    correlations: Vec<Correlation>,
    target_id: &str,
    goal: &str,
) -> (r: Result<Vec<InfluentialNode>, InfluenceError>)
    ensures
        r is Err <==> (goal@ != "strengthen"@ && goal@ != "weaken"@),
        r matches Err(e) ==> e == InfluenceError::InvalidGoal,
        r matches Ok(nodes) ==> answers_query(objects@, correlations@, target_id@, nodes@)
            && sorted_by_leverage(nodes@),
{
    let ghost objects_in = objects@;
    let ghost cs = correlations@;
    let steering_goal = match parse_goal(goal) {
        Some(g) => g,
        None => {
            return Err(InfluenceError::InvalidGoal);
        },
    };
    let graph = Graph::new(objects, correlations);
    let paths = graph.find_influence_paths(target_id, &steering_goal);
    let nodes = graph.calculate_node_influences(paths.as_slice());
    let ranked = rank_by_leverage(nodes);
    proof {
        let objs = graph.object_seq();
        let ps = paths@;
        assert(found_paths(objs, cs, target_id@, ps));
        assert forall|a: int| 0 <= a < ranked@.len() implies aggregates(objs, ps, #[trigger] ranked@[a]) by {
            assert(ranked@.contains(ranked@[a]));
            assert(nodes@.to_multiset().count(ranked@[a]) > 0);
            assert(nodes@.contains(ranked@[a]));
        }
        assert(aggregated(objs, ps, ranked@));
        assert(distinct_ids(nodes@));
        assert forall|k: int|
            0 <= k < ps.len() && (#[trigger] ps[k]).path@.len() >= 2 && has_id(objs, ps[k].path@[0]@)
                implies exists|a: int| 0 <= a < ranked@.len() && #[trigger] ranked@[a].object_id@ == ps[k].path@[0]@ by {
            let b = choose|b: int| 0 <= b < nodes@.len() && #[trigger] nodes@[b].object_id@ == ps[k].path@[0]@;
            assert(nodes@.contains(nodes@[b]));
            assert(ranked@.to_multiset().count(nodes@[b]) > 0);
            assert(ranked@.contains(nodes@[b]));
        }
        assert(covers(objs, ps, ranked@));
        assert(keeps_last_from(objs, objects_in, 0));
    }
    Ok(ranked)
}

/// A recorded path in which the target occurs only as the last id holds no
/// id twice.
pub proof fn lemma_path_without_loop_has_no_repeats(
    objs: Seq<CyberneticObject>,
    cs: Seq<Correlation>,
    p: InfluencePath,
    target: Seq<char>,
)
    requires
        is_recorded_path(objs, cs, p, target),
        forall|i: int| 0 <= i < p.path@.len() - 1 ==> (#[trigger] p.path@[i])@ != target,
    ensures
        forall|i: int, j: int|
            0 <= i < j < p.path@.len() ==> (#[trigger] p.path@[i])@ != (#[trigger] p.path@[j])@,
{
    assert forall|i: int, j: int| 0 <= i < j < p.path@.len() implies (#[trigger] p.path@[i])@ != (#[trigger] p.path@[j])@ by {
        if p.path@[i]@ == p.path@[j]@ {
            assert(p.path@[i]@ == target);
        }
    }
}

/// Every path carried by an influencer found for a target starts at that
/// influencer, ends at the target, has as many edges as its depth (at most
/// `MAX_DEPTH`), has a strength of at least `MIN_INFLUENCE_THRESHOLD`, and
/// passes through no node but the target twice.
pub proof fn lemma_influencer_paths_well_formed(
    objects: Seq<CyberneticObject>,
    cs: Seq<Correlation>,
    target: Seq<char>,
    nodes: Seq<InfluentialNode>,
)
    requires
        answers_query(objects, cs, target, nodes),
    ensures
        forall|a: int, j: int|
            0 <= a < nodes.len() && 0 <= j < nodes[a].paths@.len() ==> {
                let p = #[trigger] nodes[a].paths@[j];
                &&& p.path@[0]@ == nodes[a].object_id@
                &&& p.path@.last()@ == target
                &&& p.depth == p.path@.len() - 1
                &&& p.depth <= MAX_DEPTH
                &&& p.total_strength >= MIN_INFLUENCE_THRESHOLD
                &&& repeats_only_target(p.path@, target)
            },
{
    let (objs, ps) = choose|objs: Seq<CyberneticObject>, ps: Seq<InfluencePath>|
        #![trigger keeps_last_from(objs, objects, 0), found_paths(objs, cs, target, ps)]
        keeps_last_from(objs, objects, 0) && found_paths(objs, cs, target, ps) && aggregated(
            objs,
            ps,
            nodes,
        );
    assert forall|a: int, j: int|
        0 <= a < nodes.len() && 0 <= j < nodes[a].paths@.len() implies {
            let p = #[trigger] nodes[a].paths@[j];
            &&& p.path@[0]@ == nodes[a].object_id@
            &&& p.path@.last()@ == target
            &&& p.depth == p.path@.len() - 1
            &&& p.depth <= MAX_DEPTH
            &&& p.total_strength >= MIN_INFLUENCE_THRESHOLD
            &&& repeats_only_target(p.path@, target)
        } by {
        let nd = nodes[a];
        assert(aggregates(objs, ps, nd));
        let id = nd.object_id@;
        let g = group_of(ps, id, ps.len() as int);
        lemma_group_members(ps, id, ps.len() as int);
        assert(same_path(nd.paths@[j], g[j]));
        assert(starts_at(g[j], id));
        let k = choose|k: int| 0 <= k < ps.len() && ps[k] == g[j];
        assert(is_recorded_path(objs, cs, ps[k], target));
    }
}

} // verus!
