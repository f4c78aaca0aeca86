//! Reconstruction of the cluster tree from a flat merge history.
use crate::history::{
    acyclic, attaches_to, counted, is_tree_of, leaf_as_parent, lemma_members, members,
    members_upto, ranks, repeated_child, represents, total_counted, unknown_cluster, well_formed,
};
use crate::relation_index::{is_child, is_parent, lemma_place, place_upto, RelationIndex};
use crate::types::{lemma_tree_models, ClusterRelation, Coord, Filepath, NumberOfLeaves, Tree};
use std::collections::HashSet;
use vstd::prelude::*;

verus! {

/// Why a merge history describes no tree.
#[derive(Clone, Copy, Debug, PartialEq, Eq, Structural)]
pub enum BuildError {
    /// A relation names a child that is neither a photograph nor a cluster
    /// that absorbs anything.
    OutOfRange,
    /// A photograph is asked to absorb a child, a child is absorbed twice,
    /// a cluster is absorbed by itself, or the top-level leaf count does not
    /// fit a machine word.
    StructuralViolation,
}

/// Whether some relation names a cluster as child that is nobody's parent.
fn has_unknown_cluster(relations: &Vec<ClusterRelation>, leaves: usize) -> (found: bool)
    ensures
        found == unknown_cluster(relations@, leaves as nat),
{
    let mut parents: HashSet<usize> = HashSet::new();
    let mut k: usize = 0;
    while k < relations.len()
        invariant
            k <= relations.len(),
            forall|id: usize|
                parents@.contains(id) <==> exists|j: int|
                    0 <= j < k && (#[trigger] relations@[j]).parent == id,
        decreases relations.len() - k,
    {
        parents.insert(relations[k].parent);
        k += 1;
    }
    assert forall|id: usize| parents@.contains(id) <==> is_parent(relations@, id) by {}
    let mut k: usize = 0;
    while k < relations.len()
        invariant
            k <= relations.len(),
            forall|id: usize| parents@.contains(id) <==> is_parent(relations@, id),
            forall|j: int|
                0 <= j < k ==> (#[trigger] relations@[j]).child < leaves || is_parent(
                    relations@,
                    relations@[j].child,
                ),
        decreases relations.len() - k,
    {
        let child = relations[k].child;
        if child >= leaves && !parents.contains(&child) {
            return true;
        }
        k += 1;
    }
    false
}

/// Whether no photograph is named as parent and no child is named twice.
fn is_forest_shaped(relations: &Vec<ClusterRelation>, leaves: usize, index: &RelationIndex) -> (ok:
    bool)
    requires
        index.places() == place_upto(relations@, relations@.len() as int),
    ensures
        ok <==> !leaf_as_parent(relations@, leaves as nat) && !repeated_child(relations@),
        ok ==> forall|k: int|
            0 <= k < relations@.len() ==> index.places().contains_key(
                (#[trigger] relations@[k]).child,
            ) && index.places()[relations@[k].child] == k,
{
    let mut k: usize = 0;
    while k < relations.len()
        invariant
            k <= relations.len(),
            index.places() == place_upto(relations@, relations@.len() as int),
            forall|j: int| 0 <= j < k ==> (#[trigger] relations@[j]).parent >= leaves,
            forall|j: int|
                0 <= j < k ==> index.places().contains_key((#[trigger] relations@[j]).child)
                    && index.places()[relations@[j].child] == j,
        decreases relations.len() - k,
    {
        let relation = relations[k];
        if relation.parent < leaves {
            return false;
        }
        proof {
            lemma_place(relations@, relations@.len() as int, k as int);
        }
        let last = index.position(relation.child).unwrap();
        if last != k {
            proof {
                assert(relations@[k as int].child == relations@[last as int].child);
            }
            return false;
        }
        k += 1;
    }
    proof {
        assert forall|i: int, j: int| 0 <= i < j < relations@.len() implies (
        #[trigger] relations@[i]).child != (#[trigger] relations@[j]).child by {
            assert(index.places()[relations@[i].child] == i);
            assert(index.places()[relations@[j].child] == j);
        }
    }
    true
}

/// For every relation the positions of the relations directly below its
/// child, and the positions of the top-level relations.
fn group_by_parent(relations: &Vec<ClusterRelation>, index: &RelationIndex) -> (grouped: (
    Vec<Vec<usize>>,
    Vec<usize>,
))
    requires
        forall|id: usize| index.places().contains_key(id) <==> is_child(relations@, id),
        forall|k: int|
            0 <= k < relations@.len() ==> index.places().contains_key((#[trigger] relations@[k]).child)
                && index.places()[relations@[k].child] == k,
    ensures
        grouped.0@.len() == relations@.len(),
        forall|k: int|
            0 <= k < relations@.len() ==> (#[trigger] grouped.0@[k])@ == members(
                relations@,
                Some(relations@[k].child),
            ),
        grouped.1@ == members(relations@, None),
{
    let n = relations.len();
    let mut below: Vec<Vec<usize>> = Vec::new();
    let mut k: usize = 0;
    while k < n
        invariant
            k <= n,
            below@.len() == k,
            forall|i: int| 0 <= i < k ==> (#[trigger] below@[i])@.len() == 0,
        decreases n - k,
    {
        below.push(Vec::new());
        k += 1;
    }
    let mut top: Vec<usize> = Vec::new();
    let mut j: usize = 0;
    while j < n
        invariant
            j <= n,
            n == relations@.len(),
            below@.len() == n,
            forall|id: usize| index.places().contains_key(id) <==> is_child(relations@, id),
            forall|k: int|
                0 <= k < n ==> index.places().contains_key((#[trigger] relations@[k]).child)
                    && index.places()[relations@[k].child] == k,
            forall|k: int|
                0 <= k < n ==> (#[trigger] below@[k])@ == members_upto(
                    relations@,
                    Some(relations@[k].child),
                    j as int,
                ),
            top@ == members_upto(relations@, None, j as int),
        decreases n - j,
    {
        let parent = relations[j].parent;
        let ghost before = below@;
        match index.position(parent) {
            Some(k) => {
                proof {
                    assert(index.places().contains_key(parent));
                    assert(is_child(relations@, parent));
                    let w = choose|w: int|
                        0 <= w < relations@.len() && (#[trigger] relations@[w]).child == parent;
                    assert(index.places()[relations@[w].child] == w);
                    assert(relations@[k as int].child == parent);
                }
                below[k].push(j);
                proof {
                    assert forall|i: int| 0 <= i < n implies (#[trigger] below@[i])@ == members_upto(
                        relations@,
                        Some(relations@[i].child),
                        j + 1,
                    ) by {
                        assert(before[i]@ == members_upto(relations@, Some(relations@[i].child), j as int));
                        assert(index.places()[relations@[i].child] == i);
                        if i != k {
                            assert(below@[i] == before[i]);
                        }
                    }
                }
            },
            None => {
                proof {
                    assert(!is_child(relations@, parent));
                    assert forall|i: int| 0 <= i < n implies (#[trigger] relations@[i]).child
                        != parent by {}
                    assert forall|i: int| 0 <= i < n implies (#[trigger] below@[i])@ == members_upto(
                        relations@,
                        Some(relations@[i].child),
                        j + 1,
                    ) by {
                        assert(relations@[i].child != parent);
                    }
                }
                top.push(j);
            },
        }
        j += 1;
    }
    (below, top)
}

/// Distinct numbers below `bound` are at most `bound` many.
proof fn lemma_distinct_bounded(s: Seq<usize>, bound: nat)
    requires
        s.no_duplicates(),
        forall|i: int| 0 <= i < s.len() ==> (#[trigger] s[i]) < bound,
    ensures
        s.len() <= bound,
    decreases bound,
{
    if s.len() > 0 {
        if bound == 0 {
            assert(s[0] < bound);
        } else if exists|i: int| 0 <= i < s.len() && #[trigger] s[i] == bound - 1 {
            let i = choose|i: int| 0 <= i < s.len() && #[trigger] s[i] == bound - 1;
            let rest = s.remove(i);
            assert forall|a: int| 0 <= a < rest.len() implies (#[trigger] rest[a]) < bound - 1 by {
                if a < i {
                    assert(rest[a] == s[a]);
                } else {
                    assert(rest[a] == s[a + 1]);
                }
            }
            assert forall|a: int, b: int| 0 <= a < rest.len() && 0 <= b < rest.len() && a != b implies rest[a]
                != rest[b] by {
                let a0 = if a < i { a } else { a + 1 };
                let b0 = if b < i { b } else { b + 1 };
                assert(rest[a] == s[a0] && rest[b] == s[b0]);
            }
            lemma_distinct_bounded(rest, (bound - 1) as nat);
        } else {
            lemma_distinct_bounded(s, (bound - 1) as nat);
        }
    }
}

/// As many distinct numbers below `bound` as `bound` are all of them.
proof fn lemma_distinct_full(s: Seq<usize>, bound: nat, k: usize)
    requires
        s.no_duplicates(),
        forall|i: int| 0 <= i < s.len() ==> (#[trigger] s[i]) < bound,
        s.len() == bound,
        k < bound,
    ensures
        s.contains(k),
{
    if !s.contains(k) {
        let longer = s.push(k);
        assert forall|a: int, b: int| 0 <= a < longer.len() && 0 <= b < longer.len() && a != b implies longer[a]
            != longer[b] by {
            if a < s.len() && b < s.len() {
                assert(s[a] != s[b]);
            } else if a < s.len() {
                assert(s.contains(s[a]));
            } else {
                assert(s.contains(s[b]));
            }
        }
        lemma_distinct_bounded(longer, bound);
    }
}

/// `order` lists relations so that the top-level ones come first and every
/// other one comes after the relation that made its parent, and leaves out
/// none that hangs below a listed one.
spec fn is_search_order(relations: Seq<ClusterRelation>, order: Seq<usize>) -> bool {
    &&& order.no_duplicates()
    &&& forall|g: int| 0 <= g < order.len() ==> (#[trigger] order[g]) < relations.len()
    &&& forall|g: int|
        0 <= g < order.len() ==> attaches_to(relations, None, (#[trigger] order[g]) as int) || exists|h: int|
            0 <= h < g && relations[(#[trigger] order[h]) as int].child == relations[order[g] as int].parent
    &&& forall|k: usize| k < relations.len() && attaches_to(relations, None, k as int) ==> order.contains(k)
    &&& forall|h: int, j: usize|
        0 <= h < order.len() && j < relations.len() && relations[j as int].parent == relations[(
        #[trigger] order[h]) as int].child ==> #[trigger] order.contains(j)
}

/// A search order reaches every relation of an acyclic history.
proof fn lemma_search_reaches(
    relations: Seq<ClusterRelation>,
    order: Seq<usize>,
    rank: Seq<nat>,
    k: usize,
)
    requires
        is_search_order(relations, order),
        ranks(relations, rank),
        k < relations.len() <= usize::MAX,
    ensures
        order.contains(k),
    decreases rank[k as int],
{
    if !attaches_to(relations, None, k as int) {
        let parent = relations[k as int].parent;
        assert(is_child(relations, parent));
        let p = choose|p: int| 0 <= p < relations.len() && (#[trigger] relations[p]).child == parent;
        assert(relations[k as int].parent == relations[p].child);
        assert(rank[p] < rank[k as int]);
        lemma_search_reaches(relations, order, rank, p as usize);
        let h = choose|h: int| 0 <= h < order.len() && order[h] == p as usize;
        assert(order.contains(k));
    }
}

/// A search order that leaves a relation out shows a cycle.
proof fn lemma_short_search(relations: Seq<ClusterRelation>, order: Seq<usize>)
    requires
        is_search_order(relations, order),
        order.len() < relations.len() <= usize::MAX,
    ensures
        !acyclic(relations),
{
    if acyclic(relations) {
        let rank = choose|rank: Seq<nat>| ranks(relations, rank);
        let at = Seq::new(relations.len(), |k: int| order.index_of(k as usize) as usize);
        assert forall|k: usize| k < relations.len() implies #[trigger] order.contains(k) by {
            lemma_search_reaches(relations, order, rank, k);
        }
        assert forall|a: int, b: int| 0 <= a < at.len() && 0 <= b < at.len() && a != b implies at[a]
            != at[b] by {
            assert(order.contains(a as usize) && order.contains(b as usize));
            assert(order[order.index_of(a as usize)] == a as usize);
            assert(order[order.index_of(b as usize)] == b as usize);
        }
        assert forall|a: int| 0 <= a < at.len() implies (#[trigger] at[a]) < order.len() by {
            assert(order.contains(a as usize));
        }
        lemma_distinct_bounded(at, order.len());
    }
}

/// The place of each relation in a search order that lists them all ranks
/// the history.
proof fn lemma_full_search(relations: Seq<ClusterRelation>, order: Seq<usize>) -> (rank: Seq<nat>)
    requires
        is_search_order(relations, order),
        order.len() == relations.len() <= usize::MAX,
        !repeated_child(relations),
    ensures
        ranks(relations, rank),
        forall|k: int| 0 <= k < rank.len() ==> (#[trigger] rank[k]) < relations.len(),
{
    let rank = Seq::new(relations.len(), |k: int| order.index_of(k as usize) as nat);
    assert forall|k: usize| k < relations.len() implies #[trigger] order.contains(k) by {
        lemma_distinct_full(order, relations.len(), k);
    }
    assert forall|j: int, k: int|
        0 <= j < relations.len() && 0 <= k < relations.len() && (#[trigger] relations[j]).parent == (
        #[trigger] relations[k]).child implies rank[k] < rank[j] by {
        let g = order.index_of(j as usize);
        let h = order.index_of(k as usize);
        assert(order.contains(j as usize) && order.contains(k as usize));
        assert(order[g] == j as usize && order[h] == k as usize);
        assert(is_child(relations, relations[j].parent));
        assert(!attaches_to(relations, None, order[g] as int));
        let h2 = choose|h2: int|
            0 <= h2 < g && relations[(#[trigger] order[h2]) as int].child == relations[order[g] as int].parent;
        let k2 = order[h2] as int;
        assert(relations[k2].child == relations[k].child);
        if k2 != k {
            if k2 < k {
                assert(relations[k2].child == relations[k].child);
            } else {
                assert(relations[k].child == relations[k2].child);
            }
        }
        assert(h2 == h);
    }
    assert forall|k: int| 0 <= k < rank.len() implies (#[trigger] rank[k]) < relations.len() by {
        assert(order.contains(k as usize));
    }
    rank
}

/// Lists the relations breadth first: the top-level ones, then for each
/// listed relation in turn the relations directly below it.
fn search_order(relations: &Vec<ClusterRelation>, below: &Vec<Vec<usize>>, top: &Vec<usize>) -> (order:
    Vec<usize>)
    requires
        !repeated_child(relations@),
        below@.len() == relations@.len(),
        forall|k: int|
            0 <= k < relations@.len() ==> (#[trigger] below@[k])@ == members(
                relations@,
                Some(relations@[k].child),
            ),
        top@ == members(relations@, None),
    ensures
        is_search_order(relations@, order@),
        order@.len() <= relations@.len(),
{
    let n = relations.len();
    let ghost r = relations@;
    let mut order: Vec<usize> = Vec::new();
    let ghost mut origin: Seq<int> = Seq::empty();
    proof {
        lemma_members(r, None, n as int);
    }
    let mut i: usize = 0;
    while i < top.len()
        invariant
            i <= top@.len(),
            top@ == members(r, None),
            order@ == top@.take(i as int),
            origin == Seq::new(i as nat, |g: int| -1int),
        decreases top.len() - i,
    {
        order.push(top[i]);
        proof {
            origin = origin.push(-1int);
            assert(order@ == top@.take(i + 1));
            assert(origin == Seq::new((i + 1) as nat, |g: int| -1int));
        }
        i += 1;
    }
    proof {
        assert(top@.take(top@.len() as int) == top@);
        assert forall|k: usize| k < n && attaches_to(r, None, k as int) implies order@.contains(k) by {}
        assert(order@.no_duplicates());
        lemma_distinct_bounded(order@, n as nat);
    }
    let mut h: usize = 0;
    while h < order.len()
        invariant
            r == relations@,
            n == r.len(),
            !repeated_child(r),
            below@.len() == n,
            forall|k: int|
                0 <= k < n ==> (#[trigger] below@[k])@ == members(r, Some(r[k].child)),
            h <= order@.len() <= n,
            origin.len() == order@.len(),
            order@.no_duplicates(),
            forall|g: int| 0 <= g < order@.len() ==> (#[trigger] order@[g]) < n,
            forall|g: int|
                0 <= g < order@.len() ==> if (#[trigger] origin[g]) < 0 {
                    attaches_to(r, None, order@[g] as int)
                } else {
                    origin[g] < h && origin[g] < g && r[order@[origin[g]] as int].child
                        == r[order@[g] as int].parent
                },
            forall|k: usize| k < n && attaches_to(r, None, k as int) ==> order@.contains(k),
            forall|w: int, j: usize|
                0 <= w < h && j < n && r[j as int].parent == r[(#[trigger] order@[w]) as int].child
                    ==> #[trigger] order@.contains(j),
        decreases n - h,
    {
        let k = order[h];
        let kids = &below[k];
        let ghost before = order@;
        let ghost origin_before = origin;
        proof {
            lemma_members(r, Some(r[k as int].child), n as int);
        }
        let mut i: usize = 0;
        while i < kids.len()
            invariant
                r == relations@,
                n == r.len(),
                !repeated_child(r),
                h < before.len(),
                k == before[h as int],
                k < n,
                kids@ == members(r, Some(r[k as int].child)),
                forall|a: int|
                    0 <= a < kids@.len() ==> (#[trigger] kids@[a]) < n && r[kids@[a] as int].parent
                        == r[k as int].child,
                forall|a: int, b: int| 0 <= a < b < kids@.len() ==> kids@[a] < kids@[b],
                i <= kids@.len(),
                order@ == before + kids@.take(i as int),
                origin == origin_before + Seq::new(i as nat, |g: int| h as int),
                origin_before.len() == before.len(),
                order@.len() <= n,
                order@.no_duplicates(),
                forall|g: int| 0 <= g < order@.len() ==> (#[trigger] order@[g]) < n,
                forall|g: int|
                    0 <= g < before.len() ==> if (#[trigger] origin_before[g]) < 0 {
                        attaches_to(r, None, before[g] as int)
                    } else {
                        origin_before[g] < h && origin_before[g] < g && r[before[origin_before[g]] as int].child
                            == r[before[g] as int].parent
                    },
            decreases kids.len() - i,
        {
            let j = kids[i];
            proof {
                assert(kids@[i as int] == j);
                assert(r[j as int].parent == r[k as int].child);
                assert forall|g: int| 0 <= g < order@.len() implies order@[g] != j by {
                    if order@[g] == j {
                        if g < before.len() {
                            assert(order@[g] == before[g]);
                            if origin_before[g] < 0 {
                                assert(r[k as int].child == r[j as int].parent);
                                assert(is_child(r, r[j as int].parent));
                            } else {
                                let o = origin_before[g];
                                let ko = before[o] as int;
                                assert(order@[o] == before[o] && order@[h as int] == before[h as int]);
                                assert(0 <= ko < n);
                                assert(r[ko].child == r[k as int].child);
                                if ko < k {
                                    assert(r[ko].child == r[k as int].child);
                                } else if ko > k {
                                    assert(r[k as int].child == r[ko].child);
                                }
                                assert(before[o] == before[h as int]);
                                assert(order@[o] == before[o] && order@[h as int] == before[h as int]);
                            }
                        } else {
                            assert(order@[g] == kids@[g - before.len()]);
                        }
                    }
                }
            }
            order.push(j);
            proof {
                origin = origin.push(h as int);
                assert(order@ == before + kids@.take(i + 1));
                assert(origin == origin_before + Seq::new((i + 1) as nat, |g: int| h as int));
                lemma_distinct_bounded(order@, n as nat);
            }
            i += 1;
        }
        proof {
            assert(kids@.take(kids@.len() as int) == kids@);
            assert forall|w: int, j: usize|
                0 <= w < h + 1 && j < n && r[j as int].parent == r[(#[trigger] order@[w]) as int].child implies #[trigger] order@.contains(
                j,
            ) by {
                if w < h {
                    assert(order@[w] == before[w]);
                    assert(before.contains(j));
                    let g = choose|g: int| 0 <= g < before.len() && before[g] == j;
                    assert(order@[g] == j);
                } else {
                    assert(order@[w] == k);
                    assert(attaches_to(r, Some(r[k as int].child), j as int));
                    assert(kids@.contains(j));
                    let a = choose|a: int| 0 <= a < kids@.len() && kids@[a] == j;
                    assert(order@[before.len() + a] == j);
                }
            }
            assert forall|k: usize| k < n && attaches_to(r, None, k as int) implies order@.contains(k) by {
                assert(before.contains(k));
                let g = choose|g: int| 0 <= g < before.len() && before[g] == k;
                assert(order@[g] == k);
            }
            assert forall|g: int| 0 <= g < order@.len() implies if (#[trigger] origin[g]) < 0 {
                attaches_to(r, None, order@[g] as int)
            } else {
                origin[g] < h + 1 && origin[g] < g && r[order@[origin[g]] as int].child
                    == r[order@[g] as int].parent
            } by {
                if g < before.len() {
                    assert(origin[g] == origin_before[g]);
                    assert(order@[g] == before[g]);
                    if origin_before[g] >= 0 {
                        assert(order@[origin_before[g]] == before[origin_before[g]]);
                    }
                } else {
                    assert(origin[g] == h);
                    assert(order@[g] == kids@[g - before.len()]);
                    assert(order@[h as int] == k);
                }
            }
        }
        h += 1;
    }
    proof {
        assert forall|g: int|
            0 <= g < order@.len() implies attaches_to(r, None, (#[trigger] order@[g]) as int) || exists|w: int|
            0 <= w < g && r[(#[trigger] order@[w]) as int].child == r[order@[g] as int].parent by {
            if origin[g] >= 0 {
                let w = origin[g];
                assert(r[order@[w] as int].child == r[order@[g] as int].parent);
            }
        }
    }
    order
}

/// A sum over a prefix is at most the sum over the whole.
proof fn lemma_total_grows(
    relations: Seq<ClusterRelation>,
    leaves: nat,
    positions: Seq<usize>,
    end: int,
)
    requires
        0 <= end <= positions.len(),
    ensures
        total_counted(relations, leaves, positions.take(end)) <= total_counted(
            relations,
            leaves,
            positions,
        ),
    decreases positions.len(),
{
    if end < positions.len() {
        assert(positions.drop_last().take(end) == positions.take(end));
        lemma_total_grows(relations, leaves, positions.drop_last(), end);
    } else {
        assert(positions.take(end) == positions);
    }
}

/// The leaf count of the synthetic top node, or `None` where it exceeds a
/// machine word.
fn top_count(relations: &Vec<ClusterRelation>, leaves: usize, top: &Vec<usize>) -> (total: Option<
    usize,
>)
    requires
        forall|i: int| 0 <= i < top@.len() ==> (#[trigger] top@[i]) < relations@.len(),
    ensures
        match total {
            Some(sum) => sum == total_counted(relations@, leaves as nat, top@),
            None => total_counted(relations@, leaves as nat, top@) > usize::MAX,
        },
{
    let mut sum: usize = 0;
    let mut i: usize = 0;
    while i < top.len()
        invariant
            i <= top@.len(),
            forall|i: int| 0 <= i < top@.len() ==> (#[trigger] top@[i]) < relations@.len(),
            sum == total_counted(relations@, leaves as nat, top@.take(i as int)),
        decreases top.len() - i,
    {
        let relation = relations[top[i]];
        let share: usize = if relation.child < leaves {
            1
        } else {
            relation.num_of_leaves.0
        };
        proof {
            assert(top@.take(i + 1).drop_last() == top@.take(i as int));
            assert(top@.take(i + 1).last() == top@[i as int]);
            assert(share == counted(relations@, leaves as nat, top@[i as int] as int));
            lemma_total_grows(relations@, leaves as nat, top@, i + 1);
        }
        match sum.checked_add(share) {
            Some(next) => {
                sum = next;
            },
            None => {
                return None;
            },
        }
        i += 1;
    }
    proof {
        assert(top@.take(top@.len() as int) == top@);
    }
    Some(sum)
}

/// Builds the subtree that relation `k` hangs below its parent.
fn assemble(
    l: &Vec<(Filepath, Coord)>,
    relations: &Vec<ClusterRelation>,
    below: &Vec<Vec<usize>>,
    k: usize,
    Ghost(rank): Ghost<Seq<nat>>,
) -> (tree: Tree)
    requires
        k < relations@.len(),
        below@.len() == relations@.len(),
        forall|k: int|
            0 <= k < relations@.len() ==> (#[trigger] below@[k])@ == members(
                relations@,
                Some(relations@[k].child),
            ),
        ranks(relations@, rank),
        forall|k: int| 0 <= k < rank.len() ==> (#[trigger] rank[k]) < relations@.len(),
    ensures
        represents(tree@, relations@, l@, k as int),
    decreases relations@.len() - rank[k as int],
{
    let relation = relations[k];
    if relation.child < l.len() {
        let record = &l[relation.child];
        Tree::Leaf(record.0.clone(), record.1)
    } else {
        let kids = &below[k];
        let mut children: Vec<Tree> = Vec::new();
        proof {
            assert(relations@.len() == relations.len());
            lemma_members(relations@, Some(relation.child), relations@.len() as int);
        }
        let mut i: usize = 0;
        while i < kids.len()
            invariant
                k < relations@.len(),
                relation == relations@[k as int],
                below@.len() == relations@.len(),
                forall|k: int|
                    0 <= k < relations@.len() ==> (#[trigger] below@[k])@ == members(
                        relations@,
                        Some(relations@[k].child),
                    ),
                ranks(relations@, rank),
                forall|k: int| 0 <= k < rank.len() ==> (#[trigger] rank[k]) < relations@.len(),
                kids@ == members(relations@, Some(relation.child)),
                forall|a: int|
                    0 <= a < kids@.len() ==> (#[trigger] kids@[a]) < relations@.len()
                        && relations@[kids@[a] as int].parent == relation.child,
                i <= kids@.len(),
                children@.len() == i,
                forall|a: int|
                    0 <= a < i ==> represents(
                        (#[trigger] children@[a])@,
                        relations@,
                        l@,
                        kids@[a] as int,
                    ),
            decreases kids.len() - i,
        {
            let j = kids[i];
            proof {
                assert(kids@[i as int] == j);
                assert(relations@[j as int].parent == relations@[k as int].child);
                assert(rank[k as int] < rank[j as int]);
            }
            let child = assemble(l, relations, below, j, Ghost(rank));
            children.push(child);
            i += 1;
        }
        let tree = Tree::Node(relation.num_of_leaves, children);
        proof {
            let models = tree@->Node_1;
            lemma_tree_models(children@, children@.len());
            assert(models.len() == kids@.len());
            assert forall|a: int| 0 <= a < models.len() implies represents(
                #[trigger] models[a],
                relations@,
                l@,
                members(relations@, Some(relation.child))[a] as int,
            ) by {
                assert(models[a] == children@[a]@);
            }
        }
        tree
    }
}

/// Rebuilds the cluster tree that the merge history `condensed_tree`
/// describes over the photographs `l`.
///
/// Every relation hangs its child below its parent, children in the order of
/// the list; the relations whose parent is nobody's child hang below one
/// synthetic top node, whose leaf count is the sum of what they contribute.
/// A history that is no forest over the photographs is refused.
pub fn build_tree(l: &Vec<(Filepath, Coord)>, condensed_tree: &Vec<ClusterRelation>) -> (result:
    Result<Tree, BuildError>)
    ensures
        match result {
            Ok(tree) => well_formed(condensed_tree@, l@.len()) && is_tree_of(
                tree@,
                condensed_tree@,
                l@,
            ),
            Err(BuildError::OutOfRange) => unknown_cluster(condensed_tree@, l@.len()),
            Err(BuildError::StructuralViolation) => !unknown_cluster(condensed_tree@, l@.len())
                && !well_formed(condensed_tree@, l@.len()),
        },
{
    let leaves = l.len();
    if has_unknown_cluster(condensed_tree, leaves) {
        return Err(BuildError::OutOfRange);
    }
    let index = RelationIndex::new(condensed_tree);
    if !is_forest_shaped(condensed_tree, leaves, &index) {
        return Err(BuildError::StructuralViolation);
    }
    let (below, top) = group_by_parent(condensed_tree, &index);
    proof {
        assert(condensed_tree@.len() == condensed_tree.len());
        lemma_members(condensed_tree@, None, condensed_tree@.len() as int);
    }
    let count = match top_count(condensed_tree, leaves, &top) {
        Some(count) => count,
        None => {
            return Err(BuildError::StructuralViolation);
        },
    };
    let order = search_order(condensed_tree, &below, &top);
    if order.len() < condensed_tree.len() {
        proof {
            lemma_short_search(condensed_tree@, order@);
        }
        return Err(BuildError::StructuralViolation);
    }
    let ghost rank = lemma_full_search(condensed_tree@, order@);
    let mut children: Vec<Tree> = Vec::new();
    let mut i: usize = 0;
    while i < top.len()
        invariant
            below@.len() == condensed_tree@.len(),
            forall|k: int|
                0 <= k < condensed_tree@.len() ==> (#[trigger] below@[k])@ == members(
                    condensed_tree@,
                    Some(condensed_tree@[k].child),
                ),
            ranks(condensed_tree@, rank),
            forall|k: int| 0 <= k < rank.len() ==> (#[trigger] rank[k]) < condensed_tree@.len(),
            top@ == members(condensed_tree@, None),
            forall|a: int| 0 <= a < top@.len() ==> (#[trigger] top@[a]) < condensed_tree@.len(),
            i <= top@.len(),
            children@.len() == i,
            forall|a: int|
                0 <= a < i ==> represents(
                    (#[trigger] children@[a])@,
                    condensed_tree@,
                    l@,
                    top@[a] as int,
                ),
        decreases top.len() - i,
    {
        let child = assemble(l, condensed_tree, &below, top[i], Ghost(rank));
        children.push(child);
        i += 1;
    }
    let tree = Tree::Node(NumberOfLeaves(count), children);
    proof {
        let models = tree@->Node_1;
        lemma_tree_models(children@, children@.len());
        assert(models.len() == top@.len());
        assert forall|a: int| 0 <= a < models.len() implies represents(
            #[trigger] models[a],
            condensed_tree@,
            l@,
            members(condensed_tree@, None)[a] as int,
        ) by {
            assert(models[a] == children@[a]@);
        }
    }
    Ok(tree)
}

} // verus!
