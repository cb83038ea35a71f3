//! The graph index: objects addressed by position, correlations by position,
//! and for each object the correlations leaving it and those entering it.
use vstd::prelude::*;

use std::collections::VecDeque;

use crate::fixed::{fx_mul, i128_div_trunc, lemma_mean_fits, saturate, SCALE};
use crate::model::{Correlation, CyberneticObject, InfluencePath, SteeringGoal, copy_relations, copy_strings};
use crate::formulas::{calculate_control_leverage, continue_feedback, feedback_from};
use crate::influence::{
    aggregates, all_types, certainty_total, group_of, lemma_feedback_concat, lemma_group_nonempty, same_path,
    starts_at, strength_sum,
};
use crate::model::{InfluentialNode, RelationType};
use crate::paths::{
    chain_certainty, chain_strength, contains_id, display_name, expanded, ids_of, is_recorded_path,
    lemma_expanded_push, lemma_records_extension_push, links, qualifies, records_extension,
    names_resolved, prepend_id, prepend_relation, repeats_only_target, MAX_DEPTH, MAX_PATHS,
    MIN_INFLUENCE_THRESHOLD,
};

verus! {

/// No two objects share an id.
pub open spec fn unique_ids(objs: Seq<CyberneticObject>) -> bool {
    forall|i: int, j: int|
        0 <= i < j < objs.len() ==> #[trigger] objs[i].id@ != #[trigger] objs[j].id@
}

/// Some object of `objs` has this id.
pub open spec fn has_id(objs: Seq<CyberneticObject>, id: Seq<char>) -> bool {
    exists|i: int| 0 <= i < objs.len() && #[trigger] objs[i].id@ == id
}

/// `objs` holds, for each id among `input[from..]`, the last object of `input`
/// with that id, and nothing else.
pub open spec fn keeps_last_from(
    objs: Seq<CyberneticObject>,
    input: Seq<CyberneticObject>,
    from: int,
) -> bool {
    &&& unique_ids(objs)
    &&& forall|k: int| from <= k < input.len() ==> has_id(objs, #[trigger] input[k].id@)
    &&& forall|i: int|
        #![trigger objs[i]]
        0 <= i < objs.len() ==> exists|k: int|
            from <= k < input.len() && objs[i] == #[trigger] input[k] && forall|k2: int|
                k < k2 < input.len() ==> (#[trigger] input[k2]).id@ != input[k].id@
}

/// Positions, in order, of the correlations among the first `n` of `cs` that
/// enter the node `id`.
pub open spec fn edges_into(cs: Seq<Correlation>, id: Seq<char>, n: int) -> Seq<usize>
    decreases n,
{
    if n <= 0 {
        seq![]
    } else if cs[n - 1].target_id@ == id {
        edges_into(cs, id, n - 1).push((n - 1) as usize)
    } else {
        edges_into(cs, id, n - 1)
    }
}

/// Positions, in order, of the correlations among the first `n` of `cs` that
/// leave the node `id`.
pub open spec fn edges_from(cs: Seq<Correlation>, id: Seq<char>, n: int) -> Seq<usize>
    decreases n,
{
    if n <= 0 {
        seq![]
    } else if cs[n - 1].source_id@ == id {
        edges_from(cs, id, n - 1).push((n - 1) as usize)
    } else {
        edges_from(cs, id, n - 1)
    }
}

/// Every position listed by `edges_into` is a correlation entering `id`.
pub proof fn lemma_edges_into_sound(cs: Seq<Correlation>, id: Seq<char>, n: int)
    requires
        0 <= n <= cs.len(),
        cs.len() <= usize::MAX,
    ensures
        forall|j: int|
            0 <= j < edges_into(cs, id, n).len() ==> {
                let e = #[trigger] edges_into(cs, id, n)[j];
                &&& e < n
                &&& cs[e as int].target_id@ == id
            },
    decreases n,
{
    if n > 0 {
        lemma_edges_into_sound(cs, id, n - 1);
        let prev = edges_into(cs, id, n - 1);
        assert forall|j: int| 0 <= j < edges_into(cs, id, n).len() implies {
            let e = #[trigger] edges_into(cs, id, n)[j];
            &&& e < n
            &&& cs[e as int].target_id@ == id
        } by {
            if j < prev.len() {
                assert(edges_into(cs, id, n)[j] == prev[j]);
            }
        }
    }
}

/// Finds the position of the object with the given id.
pub fn find_object(objs: &Vec<CyberneticObject>, id: &String) -> (r: Option<usize>)
    ensures
        match r {
            Some(i) => i < objs@.len() && objs@[i as int].id@ == id@,
            None => !has_id(objs@, id@),
        },
{
    let mut i: usize = 0;
    while i < objs.len()
        invariant
            i <= objs@.len(),
            forall|j: int| 0 <= j < i ==> objs@[j].id@ != id@,
        decreases objs@.len() - i,
    {
        if objs[i].id == *id {
            return Some(i);
        }
        i = i + 1;
    }
    None
}

/// Positions of the correlations of `cs` entering `id`.
fn collect_incoming(cs: &Vec<Correlation>, id: &String) -> (r: Vec<usize>)
    ensures
        r@ == edges_into(cs@, id@, cs@.len() as int),
{
    let mut r: Vec<usize> = Vec::new();
    let mut k: usize = 0;
    while k < cs.len()
        invariant
            k <= cs@.len(),
            r@ == edges_into(cs@, id@, k as int),
        decreases cs@.len() - k,
    {
        if cs[k].target_id == *id {
            r.push(k);
        }
        k = k + 1;
    }
    r
}

/// Positions of the correlations of `cs` leaving `id`.
fn collect_outgoing(cs: &Vec<Correlation>, id: &String) -> (r: Vec<usize>)
    ensures
        r@ == edges_from(cs@, id@, cs@.len() as int),
{
    let mut r: Vec<usize> = Vec::new();
    let mut k: usize = 0;
    while k < cs.len()
        invariant
            k <= cs@.len(),
            r@ == edges_from(cs@, id@, k as int),
        decreases cs@.len() - k,
    {
        if cs[k].source_id == *id {
            r.push(k);
        }
        k = k + 1;
    }
    r
}

/// Whether some node of `nodes` has the id `id`.
fn node_listed(nodes: &Vec<InfluentialNode>, id: &String) -> (r: bool)
    ensures
        r == exists|a: int| 0 <= a < nodes@.len() && #[trigger] nodes@[a].object_id@ == id@,
{
    let mut a: usize = 0;
    while a < nodes.len()
        invariant
            a <= nodes@.len(),
            forall|b: int| 0 <= b < a ==> nodes@[b].object_id@ != id@,
        decreases nodes@.len() - a,
    {
        if nodes[a].object_id == *id {
            return true;
        }
        a = a + 1;
    }
    false
}

/// A path waiting in the search frontier; its first id is the node to expand.
struct QueueItem {
    path: Vec<String>,
    total_strength: i64,
    feedback_types: Vec<RelationType>,
    certainty_sum: i128,
    depth: usize,
    edges: Ghost<Seq<usize>>,
}

/// A frontier item over `cs` toward `target` that may still be extended.
spec fn item_ok(objs: Seq<CyberneticObject>, cs: Seq<Correlation>, q: QueueItem, target: Seq<char>) -> bool {
    &&& q.depth < MAX_DEPTH
    &&& forall|j: int| 1 <= j < q.path@.len() ==> has_id(objs, #[trigger] q.path@[j]@)
    &&& q.path@.len() == q.depth + 1
    &&& q.path@.last()@ == target
    &&& repeats_only_target(q.path@, target)
    &&& links(cs, q.path@, q.feedback_types@, q.edges@)
    &&& q.total_strength == chain_strength(cs, q.edges@)
    &&& q.certainty_sum == chain_certainty(cs, q.edges@)
    &&& -(q.depth * 0x8000_0000_0000_0000) <= q.certainty_sum <= q.depth * 0x7fff_ffff_ffff_ffff
}

/// Objects and correlations, indexed in both directions.
pub struct Graph {
    objects: Vec<CyberneticObject>,
    correlations: Vec<Correlation>,
    adjacency_list: Vec<Vec<usize>>,
    reverse_adjacency_list: Vec<Vec<usize>>,
}

impl Graph {
    /// The registered objects, one per id.
    pub closed spec fn object_seq(&self) -> Seq<CyberneticObject> {
        self.objects@
    }

    /// All correlations, in the order given.
    pub closed spec fn correlation_seq(&self) -> Seq<Correlation> {
        self.correlations@
    }

    /// Positions of the correlations entering the `i`-th object.
    pub closed spec fn incoming(&self, i: int) -> Seq<usize> {
        self.reverse_adjacency_list@[i]@
    }

    /// Positions of the correlations leaving the `i`-th object.
    pub closed spec fn outgoing(&self, i: int) -> Seq<usize> {
        self.adjacency_list@[i]@
    }

    /// There is one adjacency list of each direction per object.
    pub closed spec fn lists_sized(&self) -> bool {
        &&& self.adjacency_list@.len() == self.objects@.len()
        &&& self.reverse_adjacency_list@.len() == self.objects@.len()
    }

    /// Ids are unique and each adjacency list holds exactly the correlations
    /// of its object, in the order given.
    pub open spec fn wf(&self) -> bool {
        &&& self.lists_sized()
        &&& unique_ids(self.object_seq())
        &&& forall|i: int|
            0 <= i < self.object_seq().len() ==> #[trigger] self.incoming(i) == edges_into(
                self.correlation_seq(),
                self.object_seq()[i].id@,
                self.correlation_seq().len() as int,
            )
        &&& forall|i: int|
            0 <= i < self.object_seq().len() ==> #[trigger] self.outgoing(i) == edges_from(
                self.correlation_seq(),
                self.object_seq()[i].id@,
                self.correlation_seq().len() as int,
            )
    }

    /// Builds the index. Of objects sharing an id the last one is kept; a
    /// correlation whose endpoint is no object is left out of that endpoint's list.
    pub fn new(objects: Vec<CyberneticObject>, correlations: Vec<Correlation>) -> (r: Graph)
        ensures
            r.wf(),
            keeps_last_from(r.object_seq(), objects@, 0),
            r.correlation_seq() == correlations@,
    {
        let ghost input = objects@;
        let mut rest = objects;
        let mut objs: Vec<CyberneticObject> = Vec::new();
        while rest.len() > 0
            invariant
                rest@ == input.subrange(0, rest@.len() as int),
                rest@.len() <= input.len(),
                keeps_last_from(objs@, input, rest@.len() as int),
            decreases rest@.len(),
        {
            let ghost m = rest@.len() - 1;
            let obj = rest.pop().unwrap();
            assert(obj == input[m]);
            match find_object(&objs, &obj.id) {
                Some(_) => {},
                None => {
                    let ghost before = objs@;
                    objs.push(obj);
                    assert forall|i: int, j: int|
                        0 <= i < j < objs@.len() implies #[trigger] objs@[i].id@
                        != #[trigger] objs@[j].id@ by {
                        if j == objs@.len() - 1 {
                            assert(before[i].id@ == objs@[i].id@);
                        }
                    }
                    assert forall|k: int| m <= k < input.len() implies has_id(
                        objs@,
                        #[trigger] input[k].id@,
                    ) by {
                        if k == m {
                            assert(objs@[objs@.len() - 1].id@ == input[k].id@);
                        } else {
                            assert(has_id(before, input[k].id@));
                            let i = choose|i: int| 0 <= i < before.len() && #[trigger] before[i].id@ == input[k].id@;
                            assert(objs@[i].id@ == input[k].id@);
                        }
                    }
                    assert forall|i: int| #![trigger objs@[i]] 0 <= i < objs@.len() implies exists|k: int|
                        m <= k < input.len() && objs@[i] == #[trigger] input[k] && forall|k2: int|
                            k < k2 < input.len() ==> (#[trigger] input[k2]).id@ != input[k].id@ by {
                        if i == objs@.len() - 1 {
                            assert forall|k2: int| m < k2 < input.len() implies (#[trigger] input[k2]).id@ != input[m].id@ by {
                                if input[k2].id@ == input[m].id@ {
                                    assert(has_id(before, input[k2].id@));
                                }
                            }
                            assert(objs@[i] == input[m]);
                        } else {
                            assert(objs@[i] == before[i]);
                        }
                    }
                },
            }
        }
        let mut forward: Vec<Vec<usize>> = Vec::new();
        let mut reverse: Vec<Vec<usize>> = Vec::new();
        let mut i: usize = 0;
        while i < objs.len()
            invariant
                i <= objs@.len(),
                forward@.len() == i,
                reverse@.len() == i,
                forall|j: int|
                    0 <= j < i ==> #[trigger] reverse@[j]@ == edges_into(
                        correlations@,
                        objs@[j].id@,
                        correlations@.len() as int,
                    ),
                forall|j: int|
                    0 <= j < i ==> #[trigger] forward@[j]@ == edges_from(
                        correlations@,
                        objs@[j].id@,
                        correlations@.len() as int,
                    ),
            decreases objs@.len() - i,
        {
            forward.push(collect_outgoing(&correlations, &objs[i].id));
            reverse.push(collect_incoming(&correlations, &objs[i].id));
            i = i + 1;
        }
        Graph {
            objects: objs,
            correlations,
            adjacency_list: forward,
            reverse_adjacency_list: reverse,
        }
    }

    /// Names of the ids of `ids`: an object's name, or the id itself.
    fn resolve_names(&self, ids: &Vec<String>) -> (r: Vec<String>)
        ensures
            names_resolved(self.objects@, ids@, r@),
    {
        let mut r: Vec<String> = Vec::new();
        let mut i: usize = 0;
        while i < ids.len()
            invariant
                i <= ids@.len(),
                r@.len() == i,
                forall|j: int| 0 <= j < i ==> display_name(self.objects@, #[trigger] ids@[j]@, r@[j]@),
            decreases ids@.len() - i,
        {
            match find_object(&self.objects, &ids[i]) {
                Some(k) => {
                    r.push(self.objects[k].name.clone());
                    assert(has_id(self.objects@, ids@[i as int]@));
                    assert(self.objects@[k as int].id@ == ids@[i as int]@);
                },
                None => {
                    r.push(ids[i].clone());
                },
            }
            i = i + 1;
        }
        r
    }

    /// Searches backward from `target_id` for chains of correlations leading to
    /// it, breadth first, within the depth, count and strength limits. A chain
    /// may pass through the target again (a feedback loop) but through no other
    /// node twice, and every node after the first is a registered object.
    /// Paths come out in order of depth. The goal does not change the search.
    pub fn find_influence_paths(&self, target_id: &str, _goal: &SteeringGoal) -> (paths: Vec<InfluencePath>)
        requires
            self.wf(),
        ensures
            paths@.len() <= MAX_PATHS,
            forall|i: int|
                0 <= i < paths@.len() ==> is_recorded_path(
                    self.object_seq(),
                    self.correlation_seq(),
                    #[trigger] paths@[i],
                    target_id@,
                ),
            forall|a: int, b: int|
                0 <= a < b < paths@.len() ==> (#[trigger] paths@[a]).depth <= (#[trigger] paths@[b]).depth,
            paths@.len() < MAX_PATHS ==> expanded(
                self.object_seq(),
                self.correlation_seq(),
                paths@,
                seq![target_id@],
                SCALE as int,
                target_id@,
            ),
            paths@.len() < MAX_PATHS ==> forall|i: int|
                0 <= i < paths@.len() && (#[trigger] paths@[i]).depth < MAX_DEPTH ==> expanded(
                    self.object_seq(),
                    self.correlation_seq(),
                    paths@,
                    ids_of(paths@[i].path@),
                    paths@[i].total_strength as int,
                    target_id@,
                ),
    {
        let ghost cs = self.correlations@;
        let ghost objs = self.objects@;
        let target: String = target_id.to_owned();
        let mut paths: Vec<InfluencePath> = Vec::new();
        let mut queue: VecDeque<QueueItem> = VecDeque::new();
        let mut start: Vec<String> = Vec::new();
        start.push(target.clone());
        let ghost no_edges: Seq<usize> = Seq::empty();
        let first = QueueItem {
            path: start,
            total_strength: SCALE,
            feedback_types: Vec::new(),
            certainty_sum: 0,
            depth: 0,
            edges: Ghost(no_edges),
        };
        proof {
            assert(ids_of(first.path@) =~= seq![target_id@]);
        }
        queue.push_back(first);
        let ghost mut popped: int = 0;
        let ghost mut history: Seq<(Seq<Seq<char>>, int)> = seq![(seq![target_id@], SCALE as int)];
        while queue.len() > 0 && paths.len() < MAX_PATHS
            invariant
                self.wf(),
                cs == self.correlations@,
                objs == self.objects@,
                target@ == target_id@,
                paths@.len() <= MAX_PATHS,
                0 <= popped <= history.len(),
                history.len() >= 1,
                history.len() <= 1 + paths@.len(),
                queue@.len() == history.len() - popped,
                history[0] == (seq![target_id@], SCALE as int),
                forall|h: int|
                    popped <= h < history.len() ==> #[trigger] history[h] == (
                        ids_of(queue@[h - popped].path@),
                        queue@[h - popped].total_strength as int,
                    ),
                forall|k: int|
                    0 <= k < paths@.len() && (#[trigger] paths@[k]).depth < MAX_DEPTH ==> exists|h: int|
                        0 <= h < history.len() && #[trigger] history[h] == (
                            ids_of(paths@[k].path@),
                            paths@[k].total_strength as int,
                        ),
                paths@.len() < MAX_PATHS ==> forall|h: int|
                    0 <= h < popped ==> expanded(objs, cs, paths@, (#[trigger] history[h]).0, history[h].1, target_id@),
                forall|i: int| 0 <= i < queue@.len() ==> item_ok(objs, cs, #[trigger] queue@[i], target@),
                forall|i: int|
                    0 <= i < paths@.len() ==> is_recorded_path(objs, cs, #[trigger] paths@[i], target@),
                forall|a: int, b: int|
                    0 <= a < b < paths@.len() ==> (#[trigger] paths@[a]).depth <= (#[trigger] paths@[b]).depth,
                forall|a: int, b: int|
                    0 <= a < b < queue@.len() ==> (#[trigger] queue@[a]).depth <= (#[trigger] queue@[b]).depth,
                queue@.len() > 0 ==> queue@.last().depth <= queue@[0].depth + 1,
                queue@.len() > 0 && paths@.len() > 0 ==> paths@.last().depth <= queue@[0].depth + 1,
            decreases 1 + MAX_PATHS - popped,
        {
            let ghost queue_before = queue@;
            let current = queue.pop_front().unwrap();
            let ghost cur_h = popped;
            let ghost base = ids_of(current.path@);
            let ghost strength = current.total_strength as int;
            proof {
                assert(history[cur_h] == (ids_of(queue_before[0].path@), queue_before[0].total_strength as int));
                popped = popped + 1;
                assert(item_ok(objs, cs, current, target@));
                assert forall|h: int|
                    popped <= h < history.len() implies #[trigger] history[h] == (
                        ids_of(queue@[h - popped].path@),
                        queue@[h - popped].total_strength as int,
                    ) by {
                    assert(queue@[h - popped] == queue_before[h - popped + 1]);
                }
                assert forall|i: int| 0 <= i < queue@.len() implies item_ok(objs, cs, #[trigger] queue@[i], target@) by {
                    assert(queue@[i] == queue_before[i + 1]);
                }
                assert(base[0] == current.path@[0]@);
                assert forall|a: int, b: int|
                    0 <= a < b < queue@.len() implies (#[trigger] queue@[a]).depth <= (#[trigger] queue@[b]).depth by {
                    assert(queue@[a] == queue_before[a + 1] && queue@[b] == queue_before[b + 1]);
                }
                assert forall|i: int| 0 <= i < queue@.len() implies current.depth <= (#[trigger] queue@[i]).depth <= current.depth + 1 by {
                    assert(queue@[i] == queue_before[i + 1]);
                    assert(queue_before[0].depth <= queue_before[i + 1].depth);
                    assert(queue_before[i + 1].depth <= queue_before.last().depth);
                }
            }
            match find_object(&self.objects, &current.path[0]) {
                None => {
                    proof {
                        assert(expanded(objs, cs, paths@, base, strength, target_id@));
                    }
                },
                Some(j) => {
                    let correlation_count = self.correlations.len();
                    let row = &self.reverse_adjacency_list[j];
                    proof {
                        assert(self.incoming(j as int) == row@);
                        assert(cs.len() == correlation_count);
                        lemma_edges_into_sound(cs, objs[j as int].id@, cs.len() as int);
                    }
                    let mut t: usize = 0;
                    while t < row.len() && paths.len() < MAX_PATHS
                        invariant
                            self.wf(),
                            cs == self.correlations@,
                            objs == self.objects@,
                            target@ == target_id@,
                            j < objs.len(),
                            objs[j as int].id@ == current.path@[0]@,
                            base == ids_of(current.path@),
                            strength == current.total_strength as int,
                            row@ == edges_into(cs, objs[j as int].id@, cs.len() as int),
                            forall|u: int|
                                0 <= u < row@.len() ==> {
                                    let e = #[trigger] row@[u];
                                    &&& e < cs.len()
                                    &&& cs[e as int].target_id@ == objs[j as int].id@
                                },
                            item_ok(objs, cs, current, target@),
                            t <= row@.len(),
                            paths@.len() <= MAX_PATHS,
                            1 <= popped <= history.len(),
                            cur_h == popped - 1,
                            history[cur_h] == (base, strength),
                            history.len() <= 1 + paths@.len(),
                            queue@.len() == history.len() - popped,
                            history[0] == (seq![target_id@], SCALE as int),
                            forall|h: int|
                                popped <= h < history.len() ==> #[trigger] history[h] == (
                                    ids_of(queue@[h - popped].path@),
                                    queue@[h - popped].total_strength as int,
                                ),
                            forall|k: int|
                                0 <= k < paths@.len() && (#[trigger] paths@[k]).depth < MAX_DEPTH ==> exists|h: int|
                                    0 <= h < history.len() && #[trigger] history[h] == (
                                        ids_of(paths@[k].path@),
                                        paths@[k].total_strength as int,
                                    ),
                            paths@.len() < MAX_PATHS ==> forall|h: int|
                                0 <= h < cur_h ==> expanded(objs, cs, paths@, (#[trigger] history[h]).0, history[h].1, target_id@),
                            paths@.len() < MAX_PATHS ==> forall|u: int|
                                0 <= u < t && qualifies(cs[#[trigger] row@[u] as int], base, strength, target_id@)
                                    ==> records_extension(paths@, cs[row@[u] as int], base, strength),
                            forall|i: int| 0 <= i < queue@.len() ==> item_ok(objs, cs, #[trigger] queue@[i], target@),
                            forall|i: int|
                                0 <= i < paths@.len() ==> is_recorded_path(objs, cs, #[trigger] paths@[i], target@),
                            forall|a: int, b: int|
                                0 <= a < b < paths@.len() ==> (#[trigger] paths@[a]).depth <= (#[trigger] paths@[b]).depth,
                            forall|a: int, b: int|
                                0 <= a < b < queue@.len() ==> (#[trigger] queue@[a]).depth <= (#[trigger] queue@[b]).depth,
                            forall|i: int| 0 <= i < queue@.len() ==> current.depth <= (#[trigger] queue@[i]).depth <= current.depth + 1,
                            paths@.len() > 0 ==> paths@.last().depth <= current.depth + 1,
                        decreases row@.len() - t,
                    {
                        let e = row[t];
                        assert(e < cs.len() && cs[e as int].target_id@ == objs[j as int].id@);
                        let relation = &self.correlations[e];
                        let source = &relation.source_id;
                        let seen = contains_id(&current.path, source);
                        let is_target = *source == target;
                        proof {
                            if seen {
                                let w = choose|w: int| 0 <= w < current.path@.len() && #[trigger] current.path@[w]@ == source@;
                                assert(base[w] == source@);
                            }
                            if base.contains(source@) {
                                let w = choose|w: int| 0 <= w < base.len() && base[w] == source@;
                                assert(current.path@[w]@ == source@);
                            }
                        }
                        if !seen || is_target {
                            let new_strength = fx_mul(current.total_strength, relation.impact_factor);
                            if new_strength >= MIN_INFLUENCE_THRESHOLD {
                                let new_path = prepend_id(source.clone(), &current.path);
                                let new_types = prepend_relation(relation.relation_type, &current.feedback_types);
                                let new_sum: i128 = current.certainty_sum + relation.certainty_score as i128;
                                let depth: usize = current.depth + 1;
                                let names = self.resolve_names(&new_path);
                                proof {
                                    lemma_mean_fits(new_sum as int, depth as int);
                                }
                                let avg = saturate(i128_div_trunc(new_sum, depth as i128));
                                let ghost new_edges = seq![e] + current.edges@;
                                proof {
                                    let old_path = current.path@;
                                    assert(new_edges.drop_first() =~= current.edges@);
                                    assert(links(cs, new_path@, new_types@, new_edges)) by {
                                        assert forall|u: int| 0 <= u < new_edges.len() implies {
                                            let c = cs[#[trigger] new_edges[u] as int];
                                            &&& new_edges[u] < cs.len()
                                            &&& c.source_id@ == new_path@[u]@
                                            &&& c.target_id@ == new_path@[u + 1]@
                                            &&& c.relation_type == new_types@[u]
                                        } by {
                                            if u > 0 {
                                                assert(new_edges[u] == current.edges@[u - 1]);
                                            }
                                        }
                                    }
                                    assert(repeats_only_target(new_path@, target@)) by {
                                        assert forall|a: int, b: int|
                                            0 <= a < b < new_path@.len() && #[trigger] new_path@[a]@ == #[trigger] new_path@[b]@
                                            implies new_path@[a]@ == target@ by {
                                            if a == 0 {
                                                assert(new_path@[b] == old_path[b - 1]);
                                            } else {
                                                assert(new_path@[a] == old_path[a - 1]);
                                                assert(new_path@[b] == old_path[b - 1]);
                                            }
                                        }
                                    }
                                    assert(new_path@.last() == old_path.last());
                                    assert forall|idx: int| 1 <= idx < new_path@.len() implies has_id(objs, #[trigger] new_path@[idx]@) by {
                                        assert(new_path@[idx] == old_path[idx - 1]);
                                        if idx == 1 {
                                            assert(objs[j as int].id@ == new_path@[idx]@);
                                        }
                                    }
                                    assert(ids_of(new_path@) =~= seq![source@] + base);
                                }
                                let record = InfluencePath {
                                    path: copy_strings(&new_path),
                                    path_names: names,
                                    total_strength: new_strength,
                                    feedback_types: copy_relations(&new_types),
                                    certainty_score: avg,
                                    depth,
                                    is_feedback_loop: is_target,
                                };
                                let ghost paths_before = paths@;
                                proof {
                                    assert(links(cs, record.path@, record.feedback_types@, new_edges));
                                }
                                paths.push(record);
                                proof {
                                    let n = paths@.len() - 1;
                                    assert(paths@[n] == record);
                                    assert forall|a: int, b: int|
                                        0 <= a < b < paths@.len() implies (#[trigger] paths@[a]).depth <= (#[trigger] paths@[b]).depth by {
                                        assert(paths@[a] == paths_before[a]);
                                        if b < n {
                                            assert(paths@[b] == paths_before[b]);
                                        } else if n > 0 {
                                            assert(paths_before[a].depth <= paths_before.last().depth);
                                        }
                                    }
                                    assert(records_extension(paths@, cs[e as int], base, strength));
                                    if paths@.len() < MAX_PATHS {
                                        assert forall|h: int| 0 <= h < cur_h implies expanded(objs, cs, paths@, (#[trigger] history[h]).0, history[h].1, target_id@) by {
                                            lemma_expanded_push(objs, cs, paths_before, record, history[h].0, history[h].1, target_id@);
                                        }
                                        assert forall|u: int|
                                            0 <= u < t + 1 && qualifies(cs[#[trigger] row@[u] as int], base, strength, target_id@)
                                                implies records_extension(paths@, cs[row@[u] as int], base, strength) by {
                                            if u < t {
                                                lemma_records_extension_push(paths_before, record, cs[row@[u] as int], base, strength);
                                            }
                                        }
                                    }
                                    assert forall|k: int|
                                        0 <= k < paths_before.len() && (#[trigger] paths@[k]).depth < MAX_DEPTH implies exists|h: int|
                                            0 <= h < history.len() && #[trigger] history[h] == (
                                                ids_of(paths@[k].path@),
                                                paths@[k].total_strength as int,
                                            ) by {
                                        assert(paths@[k] == paths_before[k]);
                                    }
                                }
                                if depth < MAX_DEPTH {
                                    let next = QueueItem {
                                        path: new_path,
                                        total_strength: new_strength,
                                        feedback_types: new_types,
                                        certainty_sum: new_sum,
                                        depth,
                                        edges: Ghost(new_edges),
                                    };
                                    let ghost queue_mid = queue@;
                                    queue.push_back(next);
                                    proof {
                                        let entry = (ids_of(next.path@), next.total_strength as int);
                                        let hist_before = history;
                                        history = history.push(entry);
                                        assert(history[history.len() - 1] == entry);
                                        assert forall|h: int|
                                            popped <= h < history.len() implies #[trigger] history[h] == (
                                                ids_of(queue@[h - popped].path@),
                                                queue@[h - popped].total_strength as int,
                                            ) by {
                                            if h < history.len() - 1 {
                                                assert(history[h] == hist_before[h]);
                                                assert(queue@[h - popped] == queue_mid[h - popped]);
                                            }
                                        }
                                        assert forall|k: int|
                                            0 <= k < paths@.len() && (#[trigger] paths@[k]).depth < MAX_DEPTH implies exists|h: int|
                                                0 <= h < history.len() && #[trigger] history[h] == (
                                                    ids_of(paths@[k].path@),
                                                    paths@[k].total_strength as int,
                                                ) by {
                                            if k < paths@.len() - 1 {
                                                let h0 = choose|h: int| 0 <= h < hist_before.len() && #[trigger] hist_before[h] == (
                                                    ids_of(paths@[k].path@),
                                                    paths@[k].total_strength as int,
                                                );
                                                assert(history[h0] == hist_before[h0]);
                                            } else {
                                                assert(history[history.len() - 1] == entry);
                                            }
                                        }
                                        assert forall|h: int| 0 <= h < cur_h implies #[trigger] history[h] == hist_before[h] by {}
                                        assert forall|a: int, b: int|
                                            0 <= a < b < queue@.len() implies (#[trigger] queue@[a]).depth <= (#[trigger] queue@[b]).depth by {
                                            assert(queue@[a] == queue_mid[a]);
                                            if b < queue_mid.len() {
                                                assert(queue@[b] == queue_mid[b]);
                                            }
                                        }
                                        assert forall|i: int| 0 <= i < queue@.len() implies current.depth <= (#[trigger] queue@[i]).depth <= current.depth + 1 by {
                                            if i < queue_mid.len() {
                                                assert(queue@[i] == queue_mid[i]);
                                            }
                                        }
                                        assert(history[cur_h] == hist_before[cur_h]);
                                        assert(history[0] == hist_before[0]);
                                    }
                                }
                            }
                        }
                        t = t + 1;
                    }
                    proof {
                        if paths@.len() < MAX_PATHS {
                            assert(expanded(objs, cs, paths@, base, strength, target_id@)) by {
                                assert forall|i: int, u: int|
                                    0 <= i < objs.len() && objs[i].id@ == base[0] && 0 <= u < edges_into(
                                        cs,
                                        objs[i].id@,
                                        cs.len() as int,
                                    ).len() && qualifies(
                                        cs[#[trigger] edges_into(cs, objs[i].id@, cs.len() as int)[u] as int],
                                        base,
                                        strength,
                                        target_id@,
                                    ) implies records_extension(
                                        paths@,
                                        cs[edges_into(cs, objs[i].id@, cs.len() as int)[u] as int],
                                        base,
                                        strength,
                                    ) by {
                                    if i != j {
                                        assert(objs[i].id@ != objs[j as int].id@);
                                    }
                                    assert(row@[u] == edges_into(cs, objs[i].id@, cs.len() as int)[u]);
                                }
                            }
                        }
                    }
                },
            }
            proof {
                if queue@.len() > 0 {
                    assert(current.depth <= queue@[0].depth);
                    assert(queue@.last().depth <= current.depth + 1);
                }
                if paths@.len() < MAX_PATHS {
                    assert forall|h: int| 0 <= h < popped implies expanded(objs, cs, paths@, (#[trigger] history[h]).0, history[h].1, target_id@) by {
                        if h == cur_h {
                            assert(history[h] == (base, strength));
                        }
                    }
                }
            }
        }
        proof {
            if paths@.len() < MAX_PATHS {
                assert(popped == history.len());
                assert(expanded(objs, cs, paths@, history[0].0, history[0].1, target_id@));
                assert forall|i: int|
                    0 <= i < paths@.len() && (#[trigger] paths@[i]).depth < MAX_DEPTH implies expanded(
                        objs,
                        cs,
                        paths@,
                        ids_of(paths@[i].path@),
                        paths@[i].total_strength as int,
                        target_id@,
                    ) by {
                    let h = choose|h: int| 0 <= h < history.len() && #[trigger] history[h] == (
                        ids_of(paths@[i].path@),
                        paths@[i].total_strength as int,
                    );
                    assert(expanded(objs, cs, paths@, history[h].0, history[h].1, target_id@));
                }
            }
        }
        paths
    }

    /// Aggregates the paths of `paths` that start at the `i`-th object.
    fn build_node(&self, paths: &[InfluencePath], i: usize) -> (nd: InfluentialNode)
        requires
            i < self.objects@.len(),
            exists|k: int| 0 <= k < paths@.len() && starts_at(#[trigger] paths@[k], self.objects@[i as int].id@),
        ensures
            aggregates(self.objects@, paths@, nd),
            nd.object_id@ == self.objects@[i as int].id@,
    {
        let obj = &self.objects[i];
        let ghost id = obj.id@;
        let ghost ps = paths@;
        let mut collected: Vec<InfluencePath> = Vec::new();
        let mut strength_total: i128 = 0;
        let mut certainty_sum: i128 = 0;
        let mut multiplier: i64 = SCALE;
        let mut k: usize = 0;
        while k < paths.len()
            invariant
                k <= ps.len(),
                ps == paths@,
                obj == self.objects@[i as int],
                id == obj.id@,
                collected@.len() == group_of(ps, id, k as int).len(),
                collected@.len() <= k,
                forall|j: int| 0 <= j < collected@.len() ==> same_path(#[trigger] collected@[j], group_of(ps, id, k as int)[j]),
                strength_total == strength_sum(collected@),
                certainty_sum == certainty_total(collected@),
                multiplier == feedback_from(SCALE as int, all_types(collected@)),
                -(collected@.len() * 0x8000_0000_0000_0000) <= strength_total <= collected@.len() * 0x7fff_ffff_ffff_ffff,
                -(collected@.len() * 0x8000_0000_0000_0000) <= certainty_sum <= collected@.len() * 0x7fff_ffff_ffff_ffff,
            decreases ps.len() - k,
        {
            let p = &paths[k];
            if p.path.len() >= 2 && p.path[0] == obj.id {
                let copy = p.duplicate();
                let ghost before = collected@;
                proof {
                    lemma_feedback_concat(SCALE as int, all_types(before), copy.feedback_types@);
                }
                multiplier = continue_feedback(multiplier, copy.feedback_types.as_slice());
                strength_total = strength_total + copy.total_strength as i128;
                certainty_sum = certainty_sum + copy.certainty_score as i128;
                collected.push(copy);
                proof {
                    assert(collected@.drop_last() =~= before);
                    assert forall|j: int| 0 <= j < collected@.len() implies same_path(#[trigger] collected@[j], group_of(ps, id, k + 1)[j]) by {
                        if j < before.len() {
                            assert(collected@[j] == before[j]);
                        }
                    }
                }
            }
            k = k + 1;
        }
        proof {
            assert(collected@.len() >= 1) by {
                let w = choose|w: int| 0 <= w < ps.len() && starts_at(#[trigger] ps[w], id);
                lemma_group_nonempty(ps, id, w, ps.len() as int);
            }
        }
        let count: usize = collected.len();
        proof {
            lemma_mean_fits(strength_total as int, count as int);
            lemma_mean_fits(certainty_sum as int, count as int);
        }
        let influence = saturate(i128_div_trunc(strength_total, count as i128));
        let certainty = saturate(i128_div_trunc(certainty_sum, count as i128));
        let power = obj.energy_params.available_power;
        let leverage = calculate_control_leverage(power, fx_mul(influence, multiplier), certainty);
        let nd = InfluentialNode {
            object_id: obj.id.clone(),
            object_name: obj.name.clone(),
            influence_strength: influence,
            path_count: count,
            feedback_multiplier: multiplier,
            available_power: power,
            certainty_score: certainty,
            control_leverage: leverage,
            paths: collected,
        };
        assert(self.objects@[i as int].id@ == nd.object_id@);
        nd
    }

    /// Groups the paths with an edge by their first id and scores each group
    /// whose first id is a registered object, one node per such id.
    pub fn calculate_node_influences(&self, paths: &[InfluencePath]) -> (r: Vec<InfluentialNode>)
        requires
            self.wf(),
        ensures
            forall|a: int| 0 <= a < r@.len() ==> aggregates(self.object_seq(), paths@, #[trigger] r@[a]),
            forall|a: int, b: int|
                0 <= a < b < r@.len() ==> #[trigger] r@[a].object_id@ != #[trigger] r@[b].object_id@,
            forall|k: int|
                0 <= k < paths@.len() && (#[trigger] paths@[k]).path@.len() >= 2 && has_id(
                    self.object_seq(),
                    paths@[k].path@[0]@,
                ) ==> exists|a: int| 0 <= a < r@.len() && #[trigger] r@[a].object_id@ == paths@[k].path@[0]@,
    {
        let ghost ps = paths@;
        let mut result: Vec<InfluentialNode> = Vec::new();
        let mut k: usize = 0;
        while k < paths.len()
            invariant
                self.wf(),
                k <= ps.len(),
                ps == paths@,
                forall|a: int| 0 <= a < result@.len() ==> aggregates(self.objects@, ps, #[trigger] result@[a]),
                forall|a: int, b: int|
                    0 <= a < b < result@.len() ==> #[trigger] result@[a].object_id@ != #[trigger] result@[b].object_id@,
                forall|k2: int|
                    0 <= k2 < k && (#[trigger] ps[k2]).path@.len() >= 2 && has_id(self.objects@, ps[k2].path@[0]@)
                        ==> exists|a: int| 0 <= a < result@.len() && #[trigger] result@[a].object_id@ == ps[k2].path@[0]@,
            decreases ps.len() - k,
        {
            let p = &paths[k];
            if p.path.len() >= 2 {
                let key = &p.path[0];
                if !node_listed(&result, key) {
                    match find_object(&self.objects, key) {
                        Some(i) => {
                            proof {
                                assert(starts_at(ps[k as int], self.objects@[i as int].id@));
                            }
                            let nd = self.build_node(paths, i);
                            let ghost before = result@;
                            result.push(nd);
                            proof {
                                assert forall|a: int, b: int|
                                    0 <= a < b < result@.len() implies #[trigger] result@[a].object_id@ != #[trigger] result@[b].object_id@ by {
                                    if b == result@.len() - 1 {
                                        assert(result@[a] == before[a]);
                                    }
                                }
                                assert forall|k2: int|
                                    0 <= k2 < k + 1 && (#[trigger] ps[k2]).path@.len() >= 2 && has_id(self.objects@, ps[k2].path@[0]@)
                                        implies exists|a: int| 0 <= a < result@.len() && #[trigger] result@[a].object_id@ == ps[k2].path@[0]@ by {
                                    if k2 == k {
                                        assert(result@[result@.len() - 1].object_id@ == ps[k2].path@[0]@);
                                    } else {
                                        let a = choose|a: int| 0 <= a < before.len() && #[trigger] before[a].object_id@ == ps[k2].path@[0]@;
                                        assert(result@[a] == before[a]);
                                    }
                                }
                            }
                        },
                        None => {},
                    }
                }
            }
            k = k + 1;
        }
        result
    }

    /// Number of registered objects.
    pub fn object_count(&self) -> (r: usize)
        ensures
            r == self.object_seq().len(),
    {
        self.objects.len()
    }
}

} // verus!
