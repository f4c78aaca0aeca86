//! The photographs of a reconstructed tree and the leaf records they come
//! from.
use crate::history::{
    acyclic, attaches_to, is_tree_of, leaf_as_parent, leaf_of, lemma_members, members, ranks,
    repeated_child, represents, well_formed,
};
use crate::relation_index::is_child;
use crate::types::{ClusterRelation, Coord, Filepath, TreeModel};
use vstd::prelude::*;

verus! {

/// The leaves of `tree`, from first to last.
pub open spec fn leaf_seq(tree: TreeModel) -> Seq<TreeModel>
    decreases tree, 0nat,
{
    match tree {
        TreeModel::Leaf(_, _) => seq![tree],
        TreeModel::Node(_, children) => leaves_upto(children, children.len()),
    }
}

/// The leaves of the first `end` of `children`.
pub open spec fn leaves_upto(children: Seq<TreeModel>, end: nat) -> Seq<TreeModel>
    decreases children, end,
{
    if end == 0 || end > children.len() {
        Seq::empty()
    } else {
        leaves_upto(children, (end - 1) as nat) + leaf_seq(children[end - 1])
    }
}

/// For each leaf of the subtree `tree` of relation `k`, from first to last,
/// the position of the relation that hangs it into the tree.
pub open spec fn places(tree: TreeModel, relations: Seq<ClusterRelation>, leaves: nat, k: int) -> Seq<
    int,
>
    decreases tree, 0nat,
{
    match tree {
        TreeModel::Leaf(_, _) => seq![k],
        TreeModel::Node(_, children) => places_upto(
            children,
            relations,
            leaves,
            members(relations, Some(relations[k].child)),
            children.len(),
        ),
    }
}

/// The same for the first `end` of `children`, which the relations at
/// `below` hang into the tree.
pub open spec fn places_upto(
    children: Seq<TreeModel>,
    relations: Seq<ClusterRelation>,
    leaves: nat,
    below: Seq<usize>,
    end: nat,
) -> Seq<int>
    decreases children, end,
{
    if end == 0 || end > children.len() {
        Seq::empty()
    } else {
        places_upto(children, relations, leaves, below, (end - 1) as nat) + places(
            children[end - 1],
            relations,
            leaves,
            below[end - 1] as int,
        )
    }
}

/// The position of the relation that made the parent of relation `p`.
pub open spec fn up(relations: Seq<ClusterRelation>, p: int) -> int {
    choose|q: int| 0 <= q < relations.len() && (#[trigger] relations[q]).child == relations[p].parent
}

/// Relation `p` is relation `k` or hangs, through any number of merges,
/// below it.
pub open spec fn under(relations: Seq<ClusterRelation>, rank: Seq<nat>, p: int, k: int) -> bool
    decreases rank[p],
{
    p == k || (0 <= p < relations.len() && is_child(relations, relations[p].parent) && rank[up(
        relations,
        p,
    )] < rank[p] && under(relations, rank, up(relations, p), k))
}

/// What is below a relation ranks at least as high.
proof fn lemma_under_ranks(relations: Seq<ClusterRelation>, rank: Seq<nat>, p: int, k: int)
    requires
        under(relations, rank, p, k),
    ensures
        rank[p] >= rank[k],
    decreases rank[p],
{
    if p != k {
        lemma_under_ranks(relations, rank, up(relations, p), k);
    }
}

/// Relations `a` and `b` hang below the same node.
pub open spec fn siblings(relations: Seq<ClusterRelation>, a: int, b: int) -> bool {
    ||| relations[a].parent == relations[b].parent
    ||| attaches_to(relations, None, a) && attaches_to(relations, None, b)
}

/// Nothing hangs below two different relations of one node.
proof fn lemma_apart(relations: Seq<ClusterRelation>, rank: Seq<nat>, a: int, b: int, p: int)
    requires
        ranks(relations, rank),
        0 <= a < relations.len(),
        0 <= b < relations.len(),
        a != b,
        siblings(relations, a, b),
        under(relations, rank, p, a),
    ensures
        !under(relations, rank, p, b),
    decreases rank[p],
{
    if under(relations, rank, p, b) {
        if p == a {
            let c = up(relations, a);
            assert(relations[c].child == relations[b].parent);
            lemma_under_ranks(relations, rank, c, b);
        } else if p == b {
            let c = up(relations, b);
            assert(relations[c].child == relations[a].parent);
            lemma_under_ranks(relations, rank, c, a);
        } else {
            lemma_apart(relations, rank, a, b, up(relations, p));
        }
    }
}

/// What is known of the leaves `found` and their places `at` below the
/// relations `tops`: every place is a relation that hangs a photograph into
/// the tree, below one of `tops`; the leaf is that photograph's; and no place
/// occurs twice.
pub open spec fn matched(
    found: Seq<TreeModel>,
    at: Seq<int>,
    relations: Seq<ClusterRelation>,
    records: Seq<(Filepath, Coord)>,
    rank: Seq<nat>,
    tops: Seq<int>,
) -> bool {
    &&& found.len() == at.len()
    &&& at.no_duplicates()
    &&& forall|j: int|
        0 <= j < at.len() ==> {
            let p = #[trigger] at[j];
            &&& 0 <= p < relations.len()
            &&& relations[p].child < records.len()
            &&& found[j] == leaf_of(records, relations[p].child as int)
            &&& exists|i: int| 0 <= i < tops.len() && under(relations, rank, p, #[trigger] tops[i])
        }
}

/// The leaves of a subtree are the photographs of the relations below it.
proof fn lemma_places(
    tree: TreeModel,
    relations: Seq<ClusterRelation>,
    records: Seq<(Filepath, Coord)>,
    rank: Seq<nat>,
    k: int,
)
    requires
        relations.len() <= usize::MAX,
        ranks(relations, rank),
        !repeated_child(relations),
        0 <= k < relations.len(),
        represents(tree, relations, records, k),
    ensures
        matched(
            leaf_seq(tree),
            places(tree, relations, records.len(), k),
            relations,
            records,
            rank,
            seq![k],
        ),
    decreases tree, 0nat,
{
    let id = relations[k].child;
    let at = places(tree, relations, records.len(), k);
    if id < records.len() {
        assert(at == seq![k]);
        assert(leaf_seq(tree) == seq![tree]);
        assert(under(relations, rank, k, seq![k][0]));
    } else {
        let children = tree->Node_1;
        let below = members(relations, Some(id));
        lemma_places_upto(children, relations, records, rank, below, children.len(), Some(id));
        assert(leaf_seq(tree) == leaves_upto(children, children.len()));
        assert(at == places_upto(children, relations, records.len(), below, children.len()));
        lemma_members(relations, Some(id), relations.len() as int);
        assert forall|j: int| 0 <= j < at.len() implies exists|i: int|
            0 <= i < seq![k].len() && under(relations, rank, #[trigger] at[j], #[trigger] seq![k][i]) by {
            let p = at[j];
            let tops = below.map_values(|x: usize| x as int);
            let i = choose|i: int| 0 <= i < tops.len() && under(relations, rank, p, #[trigger] tops[i]);
            lemma_hangs(relations, rank, p, below[i] as int, k);
            assert(under(relations, rank, p, seq![k][0]));
        }
    }
}

/// What is below a relation is below the relation that made its parent.
proof fn lemma_hangs(relations: Seq<ClusterRelation>, rank: Seq<nat>, p: int, a: int, k: int)
    requires
        ranks(relations, rank),
        !repeated_child(relations),
        0 <= a < relations.len(),
        0 <= k < relations.len(),
        relations[a].parent == relations[k].child,
        under(relations, rank, p, a),
    ensures
        under(relations, rank, p, k),
    decreases rank[p],
{
    if p == a {
        lemma_up(relations, a, k);
        assert(rank[k] < rank[a]);
        assert(under(relations, rank, k, k));
    } else {
        lemma_hangs(relations, rank, up(relations, p), a, k);
    }
}

/// The relation that made the parent of `a` is the one whose child it is.
proof fn lemma_up(relations: Seq<ClusterRelation>, a: int, k: int)
    requires
        !repeated_child(relations),
        0 <= a < relations.len(),
        0 <= k < relations.len(),
        relations[a].parent == relations[k].child,
    ensures
        is_child(relations, relations[a].parent),
        up(relations, a) == k,
{
    let q = up(relations, a);
    assert(relations[k].child == relations[a].parent);
    if q < k {
        assert(relations[q].child == relations[k].child);
    } else if k < q {
        assert(relations[k].child == relations[q].child);
    }
}

/// The leaves of the first `end` children of a node are the photographs of
/// the relations below them.
proof fn lemma_places_upto(
    children: Seq<TreeModel>,
    relations: Seq<ClusterRelation>,
    records: Seq<(Filepath, Coord)>,
    rank: Seq<nat>,
    below: Seq<usize>,
    end: nat,
    node: Option<usize>,
)
    requires
        relations.len() <= usize::MAX,
        ranks(relations, rank),
        !repeated_child(relations),
        below == members(relations, node),
        children.len() == below.len(),
        end <= children.len(),
        forall|i: int|
            0 <= i < children.len() ==> represents(
                #[trigger] children[i],
                relations,
                records,
                below[i] as int,
            ),
    ensures
        matched(
            leaves_upto(children, end),
            places_upto(children, relations, records.len(), below, end),
            relations,
            records,
            rank,
            below.map_values(|x: usize| x as int).take(end as int),
        ),
    decreases children, end,
{
    let tops = below.map_values(|x: usize| x as int);
    lemma_members(relations, node, relations.len() as int);
    if end == 0 {
        assert(leaves_upto(children, end) == Seq::<TreeModel>::empty());
        assert(places_upto(children, relations, records.len(), below, end) == Seq::<int>::empty());
    } else {
        let k = below[end - 1] as int;
        let before = places_upto(children, relations, records.len(), below, (end - 1) as nat);
        let last = places(children[end - 1], relations, records.len(), k);
        let found_before = leaves_upto(children, (end - 1) as nat);
        let found_last = leaf_seq(children[end - 1]);
        lemma_places_upto(children, relations, records, rank, below, (end - 1) as nat, node);
        lemma_places(children[end - 1], relations, records, rank, k);
        assert(leaves_upto(children, end) == found_before + found_last);
        assert(places_upto(children, relations, records.len(), below, end) == before + last);
        let at = before + last;
        let found = found_before + found_last;
        assert forall|j: int| 0 <= j < at.len() implies {
            let p = #[trigger] at[j];
            &&& 0 <= p < relations.len()
            &&& relations[p].child < records.len()
            &&& found[j] == leaf_of(records, relations[p].child as int)
            &&& exists|i: int|
                0 <= i < tops.take(end as int).len() && under(
                    relations,
                    rank,
                    p,
                    #[trigger] tops.take(end as int)[i],
                )
        } by {
            if j < before.len() {
                assert(at[j] == before[j]);
                let i = choose|i: int|
                    0 <= i < tops.take(end - 1).len() && under(
                        relations,
                        rank,
                        before[j],
                        #[trigger] tops.take(end - 1)[i],
                    );
                assert(tops.take(end as int)[i] == tops.take(end - 1)[i]);
            } else {
                let w = j - before.len();
                assert(at[j] == last[w]);
                assert(found[j] == found_last[w]);
                assert(under(relations, rank, last[w], seq![k][0]));
                assert(tops.take(end as int)[end - 1] == k);
            }
        }
        assert forall|x: int, y: int| 0 <= x < at.len() && 0 <= y < at.len() && x != y implies at[x]
            != at[y] by {
            if x < before.len() && y < before.len() {
                assert(at[x] == before[x] && at[y] == before[y]);
            } else if x >= before.len() && y >= before.len() {
                assert(at[x] == last[x - before.len()] && at[y] == last[y - before.len()]);
            } else {
                let (early, late) = if x < before.len() {
                    (x, y)
                } else {
                    (y, x)
                };
                let p = before[early];
                let q = last[late - before.len()];
                assert(at[early] == p && at[late] == q);
                let i = choose|i: int|
                    0 <= i < tops.take(end - 1).len() && under(
                        relations,
                        rank,
                        p,
                        #[trigger] tops.take(end - 1)[i],
                    );
                let a = below[i] as int;
                assert(tops.take(end - 1)[i] == a);
                assert(under(relations, rank, q, seq![k][0]));
                assert(below[i] < below[end - 1]);
                assert(siblings(relations, a, k));
                if p == q {
                    lemma_apart(relations, rank, a, k, p);
                }
            }
        }
    }
}

/// The places below a child are among the places below all children.
proof fn lemma_part(
    children: Seq<TreeModel>,
    relations: Seq<ClusterRelation>,
    leaves: nat,
    below: Seq<usize>,
    end: nat,
    i: int,
    x: int,
)
    requires
        0 <= i < end <= children.len(),
        places(children[i], relations, leaves, below[i] as int).contains(x),
    ensures
        places_upto(children, relations, leaves, below, end).contains(x),
    decreases end,
{
    let before = places_upto(children, relations, leaves, below, (end - 1) as nat);
    let last = places(children[end - 1], relations, leaves, below[end - 1] as int);
    assert(places_upto(children, relations, leaves, below, end) == before + last);
    if i == end - 1 {
        let w = choose|w: int| 0 <= w < last.len() && last[w] == x;
        assert((before + last)[before.len() + w] == x);
    } else {
        lemma_part(children, relations, leaves, below, (end - 1) as nat, i, x);
        let w = choose|w: int| 0 <= w < before.len() && before[w] == x;
        assert((before + last)[w] == x);
    }
}

/// The subtree of a relation below `k` lies within the subtree of `k`.
proof fn lemma_subtree(
    tree: TreeModel,
    relations: Seq<ClusterRelation>,
    records: Seq<(Filepath, Coord)>,
    rank: Seq<nat>,
    k: int,
    q: int,
) -> (sub: TreeModel)
    requires
        relations.len() <= usize::MAX,
        ranks(relations, rank),
        !repeated_child(relations),
        !leaf_as_parent(relations, records.len()),
        0 <= k < relations.len(),
        0 <= q < relations.len(),
        represents(tree, relations, records, k),
        under(relations, rank, q, k),
    ensures
        represents(sub, relations, records, q),
        forall|x: int|
            places(sub, relations, records.len(), q).contains(x) ==> places(
                tree,
                relations,
                records.len(),
                k,
            ).contains(x),
    decreases rank[q],
{
    if q == k {
        tree
    } else {
        let above = up(relations, q);
        let upper = lemma_subtree(tree, relations, records, rank, k, above);
        let id = relations[above].child;
        assert(relations[q].parent == id);
        assert(id >= records.len());
        let below = members(relations, Some(id));
        lemma_members(relations, Some(id), relations.len() as int);
        assert(attaches_to(relations, Some(id), q));
        assert(below.contains(q as usize));
        let i = choose|i: int| 0 <= i < below.len() && below[i] == q as usize;
        let children = upper->Node_1;
        let sub = children[i];
        assert forall|x: int| places(sub, relations, records.len(), q).contains(x) implies places(
            tree,
            relations,
            records.len(),
            k,
        ).contains(x) by {
            lemma_part(children, relations, records.len(), below, children.len(), i, x);
            assert(places(upper, relations, records.len(), above) == places_upto(
                children,
                relations,
                records.len(),
                below,
                children.len(),
            ));
        }
        sub
    }
}

/// Every relation of an acyclic history hangs below a top-level one.
proof fn lemma_rooted(relations: Seq<ClusterRelation>, rank: Seq<nat>, p: int) -> (top: int)
    requires
        ranks(relations, rank),
        0 <= p < relations.len(),
    ensures
        0 <= top < relations.len(),
        attaches_to(relations, None, top),
        under(relations, rank, p, top),
    decreases rank[p],
{
    if attaches_to(relations, None, p) {
        p
    } else {
        let q = up(relations, p);
        assert(relations[p].parent == relations[q].child);
        lemma_rooted(relations, rank, q)
    }
}

/// `ids` names, leaf for leaf, the record that each leaf of `tree` carries,
/// names no record twice, and names every photograph that the history
/// mentions.
pub open spec fn leaves_match(
    tree: TreeModel,
    relations: Seq<ClusterRelation>,
    records: Seq<(Filepath, Coord)>,
    ids: Seq<int>,
) -> bool {
    &&& ids.len() == leaf_seq(tree).len()
    &&& ids.no_duplicates()
    &&& forall|j: int|
        0 <= j < ids.len() ==> 0 <= (#[trigger] ids[j]) < records.len() && leaf_seq(tree)[j]
            == leaf_of(records, ids[j])
    &&& forall|id: usize| id < records.len() && is_child(relations, id) ==> ids.contains(id as int)
}

/// The leaves of the tree of a well-formed history and the photographs that
/// the history mentions correspond one to one: every leaf carries the record
/// of one of them, no two leaves that of the same, and none is left out.
/// Where the history mentions every photograph, these are all leaf records.
pub proof fn lemma_leaves_are_the_records(
    tree: TreeModel,
    relations: Seq<ClusterRelation>,
    records: Seq<(Filepath, Coord)>,
)
    requires
        relations.len() <= usize::MAX,
        records.len() <= usize::MAX,
        well_formed(relations, records.len()),
        is_tree_of(tree, relations, records),
    ensures
        exists|ids: Seq<int>| leaves_match(tree, relations, records, ids),
        (forall|id: usize| id < records.len() ==> is_child(relations, id)) ==> leaf_seq(tree).len()
            == records.len(),
{
    let rank = choose|rank: Seq<nat>| ranks(relations, rank);
    let children = tree->Node_1;
    let below = members(relations, None);
    let tops = below.map_values(|x: usize| x as int);
    lemma_members(relations, None, relations.len() as int);
    lemma_places_upto(children, relations, records, rank, below, children.len(), None);
    let at = places_upto(children, relations, records.len(), below, children.len());
    let ids = Seq::new(at.len(), |j: int| relations[at[j]].child as int);
    assert(leaf_seq(tree) == leaves_upto(children, children.len()));
    assert forall|x: int, y: int| 0 <= x < ids.len() && 0 <= y < ids.len() && x != y implies ids[x]
        != ids[y] by {
        let p = at[x];
        let q = at[y];
        assert(p != q);
        if relations[p].child == relations[q].child {
            if p < q {
                assert(relations[p].child == relations[q].child);
            } else {
                assert(relations[q].child == relations[p].child);
            }
        }
    }
    assert forall|id: usize| id < records.len() && is_child(relations, id) implies ids.contains(
        id as int,
    ) by {
        let p = choose|p: int| 0 <= p < relations.len() && (#[trigger] relations[p]).child == id;
        let top = lemma_rooted(relations, rank, p);
        assert(below.contains(top as usize));
        let i = choose|i: int| 0 <= i < below.len() && below[i] == top as usize;
        let sub = lemma_subtree(children[i], relations, records, rank, top, p);
        assert(places(sub, relations, records.len(), p) == seq![p]);
        assert(seq![p][0] == p);
        assert(places(sub, relations, records.len(), p).contains(p));
        lemma_part(children, relations, records.len(), below, children.len(), i, p);
        let w = choose|w: int| 0 <= w < at.len() && at[w] == p;
        assert(ids[w] == id as int);
    }
    assert(leaves_match(tree, relations, records, ids));
    if forall|id: usize| id < records.len() ==> is_child(relations, id) {
        lemma_count(ids, records.len());
    }
}

/// Distinct numbers below `bound` that leave none out are `bound` many.
proof fn lemma_count(ids: Seq<int>, bound: nat)
    requires
        bound <= usize::MAX,
        ids.no_duplicates(),
        forall|j: int| 0 <= j < ids.len() ==> 0 <= (#[trigger] ids[j]) < bound,
        forall|id: usize| id < bound ==> ids.contains(id as int),
    ensures
        ids.len() == bound,
    decreases bound,
{
    if bound == 0 {
        if ids.len() > 0 {
            assert(0 <= ids[0] < bound);
        }
    } else {
        let last = (bound - 1) as usize;
        assert(ids.contains(last as int));
        let w = choose|w: int| 0 <= w < ids.len() && ids[w] == last as int;
        let rest = ids.remove(w);
        assert forall|a: int| 0 <= a < rest.len() implies 0 <= (#[trigger] rest[a]) < bound - 1 by {
            let a0 = if a < w { a } else { a + 1 };
            assert(rest[a] == ids[a0]);
            assert(ids[a0] != ids[w]);
        }
        assert forall|a: int, b: int| 0 <= a < rest.len() && 0 <= b < rest.len() && a != b implies rest[a]
            != rest[b] by {
            let a0 = if a < w { a } else { a + 1 };
            let b0 = if b < w { b } else { b + 1 };
            assert(rest[a] == ids[a0] && rest[b] == ids[b0]);
        }
        assert forall|id: usize| id < bound - 1 implies rest.contains(id as int) by {
            assert(ids.contains(id as int));
            let v = choose|v: int| 0 <= v < ids.len() && ids[v] == id as int;
            let v0 = if v < w { v } else { v - 1 };
            assert(rest[v0] == ids[v]);
        }
        lemma_count(rest, (bound - 1) as nat);
    }
}

} // verus!
