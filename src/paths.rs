//! What a recorded influence path is, and helpers that build paths.
use vstd::prelude::*;

use crate::fixed::{div_trunc, mul_spec, SCALE};
use crate::graph::{edges_into, has_id};
use crate::model::{Correlation, CyberneticObject, InfluencePath, RelationType};

verus! {

/// Longest path, in edges, that the search records.
pub const MAX_DEPTH: usize = 5;

/// Number of paths after which the search stops.
pub const MAX_PATHS: usize = 100;

/// Smallest strength (0.1, compared signed) with which an extended path is kept.
pub const MIN_INFLUENCE_THRESHOLD: i64 = 100_000;

/// Strength carried along the correlations `es`: 1.0 times each impact factor,
/// applied from the target's end outwards.
pub open spec fn chain_strength(cs: Seq<Correlation>, es: Seq<usize>) -> int
    decreases es.len(),
{
    if es.len() == 0 {
        SCALE as int
    } else {
        mul_spec(chain_strength(cs, es.drop_first()), cs[es[0] as int].impact_factor as int)
    }
}

/// Sum of the certainties of the correlations `es`.
pub open spec fn chain_certainty(cs: Seq<Correlation>, es: Seq<usize>) -> int
    decreases es.len(),
{
    if es.len() == 0 {
        0
    } else {
        cs[es[0] as int].certainty_score + chain_certainty(cs, es.drop_first())
    }
}

/// Only the target may occur more than once in `path`.
pub open spec fn repeats_only_target(path: Seq<String>, target: Seq<char>) -> bool {
    forall|i: int, j: int|
        0 <= i < j < path.len() && #[trigger] path[i]@ == #[trigger] path[j]@ ==> path[i]@
            == target
}

/// The `j`-th correlation of `es` leads from `path[j]` to `path[j + 1]` and has
/// the `j`-th relation type.
pub open spec fn links(
    cs: Seq<Correlation>,
    path: Seq<String>,
    types: Seq<RelationType>,
    es: Seq<usize>,
) -> bool {
    &&& es.len() == types.len()
    &&& path.len() == es.len() + 1
    &&& forall|j: int|
        0 <= j < es.len() ==> {
            let c = cs[#[trigger] es[j] as int];
            &&& es[j] < cs.len()
            &&& c.source_id@ == path[j]@
            &&& c.target_id@ == path[j + 1]@
            &&& c.relation_type == types[j]
        }
}

/// `name` is the name of the object with id `id`, or `id` itself when no
/// object has it.
pub open spec fn display_name(objs: Seq<CyberneticObject>, id: Seq<char>, name: Seq<char>) -> bool {
    if has_id(objs, id) {
        exists|i: int| #![trigger objs[i]] 0 <= i < objs.len() && objs[i].id@ == id && objs[i].name@ == name
    } else {
        name == id
    }
}

/// Each name of `names` is the display name of the id at the same place.
pub open spec fn names_resolved(
    objs: Seq<CyberneticObject>,
    path: Seq<String>,
    names: Seq<String>,
) -> bool {
    &&& names.len() == path.len()
    &&& forall|j: int| 0 <= j < path.len() ==> display_name(objs, #[trigger] path[j]@, names[j]@)
}

/// `p` is a chain of correlations of `cs` that ends at `target`, as the search
/// records it.
pub open spec fn is_recorded_path(
    objs: Seq<CyberneticObject>,
    cs: Seq<Correlation>,
    p: InfluencePath,
    target: Seq<char>,
) -> bool {
    &&& 1 <= p.depth <= MAX_DEPTH
    &&& p.path@.len() == p.depth + 1
    &&& p.path@.last()@ == target
    &&& repeats_only_target(p.path@, target)
    &&& forall|j: int| 1 <= j < p.path@.len() ==> has_id(objs, #[trigger] p.path@[j]@)
    &&& p.is_feedback_loop == (p.path@[0]@ == target)
    &&& p.total_strength >= MIN_INFLUENCE_THRESHOLD
    &&& names_resolved(objs, p.path@, p.path_names@)
    &&& exists|es: Seq<usize>|
        #[trigger] links(cs, p.path@, p.feedback_types@, es) && p.total_strength == chain_strength(
            cs,
            es,
        ) && p.certainty_score == div_trunc(chain_certainty(cs, es), p.depth as int)
}

/// The ids of a path, as character sequences.
pub open spec fn ids_of(path: Seq<String>) -> Seq<Seq<char>> {
    path.map_values(|s: String| s@)
}

/// The correlation `c` may extend the path `base` of strength `strength`:
/// its source is new to the path or is the target, and the extended strength
/// reaches the threshold.
pub open spec fn qualifies(c: Correlation, base: Seq<Seq<char>>, strength: int, target: Seq<char>) -> bool {
    &&& (!base.contains(c.source_id@) || c.source_id@ == target)
    &&& mul_spec(strength, c.impact_factor as int) >= MIN_INFLUENCE_THRESHOLD
}

/// `paths` holds `base` extended by the source of `c`, with the extended strength.
pub open spec fn records_extension(
    paths: Seq<InfluencePath>,
    c: Correlation,
    base: Seq<Seq<char>>,
    strength: int,
) -> bool {
    exists|k: int|
        0 <= k < paths.len() && #[trigger] ids_of(paths[k].path@) == seq![c.source_id@] + base
            && paths[k].total_strength == mul_spec(strength, c.impact_factor as int)
}

/// Every correlation entering the first node of `base` (a registered object)
/// that qualifies to extend it has its extension in `paths`.
pub open spec fn expanded(
    objs: Seq<CyberneticObject>,
    cs: Seq<Correlation>,
    paths: Seq<InfluencePath>,
    base: Seq<Seq<char>>,
    strength: int,
    target: Seq<char>,
) -> bool {
    forall|i: int, u: int|
        0 <= i < objs.len() && objs[i].id@ == base[0] && 0 <= u < edges_into(
            cs,
            objs[i].id@,
            cs.len() as int,
        ).len() && qualifies(
            cs[#[trigger] edges_into(cs, objs[i].id@, cs.len() as int)[u] as int],
            base,
            strength,
            target,
        ) ==> records_extension(
            paths,
            cs[edges_into(cs, objs[i].id@, cs.len() as int)[u] as int],
            base,
            strength,
        )
}

/// Recording one more path keeps an extension recorded.
pub proof fn lemma_records_extension_push(
    paths: Seq<InfluencePath>,
    x: InfluencePath,
    c: Correlation,
    base: Seq<Seq<char>>,
    strength: int,
)
    requires
        records_extension(paths, c, base, strength),
    ensures
        records_extension(paths.push(x), c, base, strength),
{
    let k = choose|k: int|
        0 <= k < paths.len() && #[trigger] ids_of(paths[k].path@) == seq![c.source_id@] + base
            && paths[k].total_strength == mul_spec(strength, c.impact_factor as int);
    assert(paths.push(x)[k] == paths[k]);
}

/// Recording one more path keeps a path expanded.
pub proof fn lemma_expanded_push(
    objs: Seq<CyberneticObject>,
    cs: Seq<Correlation>,
    paths: Seq<InfluencePath>,
    x: InfluencePath,
    base: Seq<Seq<char>>,
    strength: int,
    target: Seq<char>,
)
    requires
        expanded(objs, cs, paths, base, strength, target),
    ensures
        expanded(objs, cs, paths.push(x), base, strength, target),
{
    assert forall|i: int, u: int|
        0 <= i < objs.len() && objs[i].id@ == base[0] && 0 <= u < edges_into(
            cs,
            objs[i].id@,
            cs.len() as int,
        ).len() && qualifies(
            cs[#[trigger] edges_into(cs, objs[i].id@, cs.len() as int)[u] as int],
            base,
            strength,
            target,
        ) implies records_extension(
            paths.push(x),
            cs[edges_into(cs, objs[i].id@, cs.len() as int)[u] as int],
            base,
            strength,
        ) by {
        lemma_records_extension_push(paths, x, cs[edges_into(cs, objs[i].id@, cs.len() as int)[u] as int], base, strength);
    }
}

/// Whether some id of `v` equals `id`.
pub fn contains_id(v: &Vec<String>, id: &String) -> (r: bool)
    ensures
        r == exists|i: int| 0 <= i < v@.len() && #[trigger] v@[i]@ == id@,
{
    let mut i: usize = 0;
    while i < v.len()
        invariant
            i <= v@.len(),
            forall|j: int| 0 <= j < i ==> v@[j]@ != id@,
        decreases v@.len() - i,
    {
        if v[i] == *id {
            return true;
        }
        i = i + 1;
    }
    false
}

/// `first` followed by a copy of `rest`.
pub fn prepend_id(first: String, rest: &Vec<String>) -> (r: Vec<String>)
    ensures
        r@ == seq![first] + rest@,
{
    let mut r: Vec<String> = Vec::new();
    r.push(first);
    let mut i: usize = 0;
    while i < rest.len()
        invariant
            i <= rest@.len(),
            r@ == seq![first] + rest@.subrange(0, i as int),
        decreases rest@.len() - i,
    {
        r.push(rest[i].clone());
        proof {
            assert(seq![first] + rest@.subrange(0, i + 1) =~= (seq![first] + rest@.subrange(0, i as int)).push(rest@[i as int]));
        }
        i = i + 1;
    }
    assert(rest@.subrange(0, i as int) =~= rest@);
    r
}

/// `first` followed by a copy of `rest`.
pub fn prepend_relation(first: RelationType, rest: &Vec<RelationType>) -> (r: Vec<RelationType>)
    ensures
        r@ == seq![first] + rest@,
{
    let mut r: Vec<RelationType> = Vec::new();
    r.push(first);
    let mut i: usize = 0;
    while i < rest.len()
        invariant
            i <= rest@.len(),
            r@ == seq![first] + rest@.subrange(0, i as int),
        decreases rest@.len() - i,
    {
        r.push(rest[i]);
        proof {
            assert(seq![first] + rest@.subrange(0, i + 1) =~= (seq![first] + rest@.subrange(0, i as int)).push(rest@[i as int]));
        }
        i = i + 1;
    }
    assert(rest@.subrange(0, i as int) =~= rest@);
    r
}

} // verus!
