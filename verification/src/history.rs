//! What a flat merge history means: which relations hang below which node,
//! when a history is well formed, and which tree it describes.
use crate::relation_index::{is_child, is_parent};
use crate::types::{ClusterRelation, Coord, Filepath, TreeModel};
use vstd::prelude::*;

verus! {

/// Relation `k` hangs directly below `node`: below the cluster with that id,
/// or, for `None`, below the top of the tree, where the relations hang whose
/// parent is nobody's child.
pub open spec fn attaches_to(relations: Seq<ClusterRelation>, node: Option<usize>, k: int) -> bool {
    match node {
        Some(id) => relations[k].parent == id,
        None => !is_child(relations, relations[k].parent),
    }
}

/// The positions below `end` of the relations directly below `node`, in
/// the order of the list.
pub open spec fn members_upto(relations: Seq<ClusterRelation>, node: Option<usize>, end: int) -> Seq<
    usize,
>
    decreases end,
{
    if end <= 0 {
        Seq::empty()
    } else if attaches_to(relations, node, end - 1) {
        members_upto(relations, node, end - 1).push((end - 1) as usize)
    } else {
        members_upto(relations, node, end - 1)
    }
}

/// The positions of all relations directly below `node`, in the order of the
/// list.
pub open spec fn members(relations: Seq<ClusterRelation>, node: Option<usize>) -> Seq<usize> {
    members_upto(relations, node, relations.len() as int)
}

/// `members_upto` lists exactly the positions below `end` that hang below
/// `node`, in rising order.
pub proof fn lemma_members(relations: Seq<ClusterRelation>, node: Option<usize>, end: int)
    requires
        0 <= end <= relations.len() <= usize::MAX,
    ensures
        forall|i: int|
            0 <= i < members_upto(relations, node, end).len() ==> {
                let k = #[trigger] members_upto(relations, node, end)[i];
                k < end && attaches_to(relations, node, k as int)
            },
        forall|i: int, j: int|
            0 <= i < j < members_upto(relations, node, end).len() ==> members_upto(
                relations,
                node,
                end,
            )[i] < members_upto(relations, node, end)[j],
        forall|k: usize|
            k < end && attaches_to(relations, node, k as int) ==> members_upto(
                relations,
                node,
                end,
            ).contains(k),
        members_upto(relations, node, end).len() <= end,
    decreases end,
{
    if end > 0 {
        lemma_members(relations, node, end - 1);
        let shorter = members_upto(relations, node, end - 1);
        let longer = members_upto(relations, node, end);
        assert forall|k: usize| k < end && attaches_to(relations, node, k as int) implies longer.contains(
            k,
        ) by {
            if k < end - 1 {
                assert(shorter.contains(k));
                let i = choose|i: int| 0 <= i < shorter.len() && shorter[i] == k;
                assert(longer[i] == k);
            } else {
                assert(longer[longer.len() - 1] == k);
            }
        }
    }
}

/// A cluster id is named as a child that never absorbs anything: it is
/// neither a photograph nor a cluster that the history knows.
pub open spec fn unknown_cluster(relations: Seq<ClusterRelation>, leaves: nat) -> bool {
    exists|k: int|
        0 <= k < relations.len() && (#[trigger] relations[k]).child >= leaves && !is_parent(
            relations,
            relations[k].child,
        )
}

/// A photograph is asked to absorb a child.
pub open spec fn leaf_as_parent(relations: Seq<ClusterRelation>, leaves: nat) -> bool {
    exists|k: int| 0 <= k < relations.len() && (#[trigger] relations[k]).parent < leaves
}

/// Two relations name the same child.
pub open spec fn repeated_child(relations: Seq<ClusterRelation>) -> bool {
    exists|j: int, k: int|
        0 <= j < k < relations.len() && (#[trigger] relations[j]).child == (
        #[trigger] relations[k]).child
}

/// `rank` numbers the relations so that each one ranks above the relation
/// that made its parent.
pub open spec fn ranks(relations: Seq<ClusterRelation>, rank: Seq<nat>) -> bool {
    &&& rank.len() == relations.len()
    &&& forall|j: int, k: int|
        0 <= j < relations.len() && 0 <= k < relations.len() && (#[trigger] relations[j]).parent == (
        #[trigger] relations[k]).child ==> rank[k] < rank[j]
}

/// No cluster is, through any number of merges, absorbed by itself.
pub open spec fn acyclic(relations: Seq<ClusterRelation>) -> bool {
    exists|rank: Seq<nat>| ranks(relations, rank)
}

/// The leaf count that relation `k` contributes to its parent: one for a
/// photograph, the declared count for a cluster.
pub open spec fn counted(relations: Seq<ClusterRelation>, leaves: nat, k: int) -> nat {
    if relations[k].child < leaves {
        1
    } else {
        relations[k].num_of_leaves.0 as nat
    }
}

/// Sum of the leaf counts that the relations at `positions` contribute.
pub open spec fn total_counted(
    relations: Seq<ClusterRelation>,
    leaves: nat,
    positions: Seq<usize>,
) -> nat
    decreases positions.len(),
{
    if positions.len() == 0 {
        0
    } else {
        total_counted(relations, leaves, positions.drop_last()) + counted(
            relations,
            leaves,
            positions.last() as int,
        )
    }
}

/// The history describes a forest over `leaves` photographs whose top-level
/// leaf count a machine word can hold.
pub open spec fn well_formed(relations: Seq<ClusterRelation>, leaves: nat) -> bool {
    &&& !unknown_cluster(relations, leaves)
    &&& !leaf_as_parent(relations, leaves)
    &&& !repeated_child(relations)
    &&& acyclic(relations)
    &&& total_counted(relations, leaves, members(relations, None)) <= usize::MAX
}

/// The leaf that stands for photograph `id`.
pub open spec fn leaf_of(records: Seq<(Filepath, Coord)>, id: int) -> TreeModel {
    TreeModel::Leaf(records[id].0@, records[id].1)
}

/// `tree` is the subtree that relation `k` hangs below its parent: the leaf
/// of its photograph, or a cluster with the declared leaf count whose
/// children are the subtrees of the relations below it, in list order.
pub open spec fn represents(
    tree: TreeModel,
    relations: Seq<ClusterRelation>,
    records: Seq<(Filepath, Coord)>,
    k: int,
) -> bool
    decreases tree,
{
    let id = relations[k].child;
    if id < records.len() {
        tree == leaf_of(records, id as int)
    } else {
        match tree {
            TreeModel::Node(count, children) => {
                &&& count == relations[k].num_of_leaves.0
                &&& children.len() == members(relations, Some(id)).len()
                &&& forall|i: int|
                    0 <= i < children.len() ==> represents(
                        #[trigger] children[i],
                        relations,
                        records,
                        members(relations, Some(id))[i] as int,
                    )
            },
            TreeModel::Leaf(_, _) => false,
        }
    }
}

/// `tree` is the whole tree of the history: a synthetic top node over the
/// subtrees of the top-level relations, in list order, whose leaf count is
/// the sum of what they contribute.
pub open spec fn is_tree_of(
    tree: TreeModel,
    relations: Seq<ClusterRelation>,
    records: Seq<(Filepath, Coord)>,
) -> bool {
    match tree {
        TreeModel::Node(count, children) => {
            &&& count == total_counted(relations, records.len(), members(relations, None))
            &&& children.len() == members(relations, None).len()
            &&& forall|i: int|
                0 <= i < children.len() ==> represents(
                    #[trigger] children[i],
                    relations,
                    records,
                    members(relations, None)[i] as int,
                )
        },
        TreeModel::Leaf(_, _) => false,
    }
}

/// At most one tree is the subtree of a relation.
pub proof fn lemma_one_subtree(
    first: TreeModel,
    second: TreeModel,
    relations: Seq<ClusterRelation>,
    records: Seq<(Filepath, Coord)>,
    k: int,
)
    requires
        represents(first, relations, records, k),
        represents(second, relations, records, k),
    ensures
        first == second,
    decreases first,
{
    if relations[k].child >= records.len() {
        let below = members(relations, Some(relations[k].child));
        let mine = first->Node_1;
        let other = second->Node_1;
        assert forall|i: int| 0 <= i < mine.len() implies mine[i] == other[i] by {
            lemma_one_subtree(mine[i], other[i], relations, records, below[i] as int);
        }
        assert(mine =~= other);
    }
}

/// At most one tree is the tree of a history.
pub proof fn lemma_one_tree(
    first: TreeModel,
    second: TreeModel,
    relations: Seq<ClusterRelation>,
    records: Seq<(Filepath, Coord)>,
)
    requires
        is_tree_of(first, relations, records),
        is_tree_of(second, relations, records),
    ensures
        first == second,
{
    let top = members(relations, None);
    let mine = first->Node_1;
    let other = second->Node_1;
    assert forall|i: int| 0 <= i < mine.len() implies mine[i] == other[i] by {
        lemma_one_subtree(mine[i], other[i], relations, records, top[i] as int);
    }
    assert(mine =~= other);
}

/// The tree of a history.
pub open spec fn tree_of(relations: Seq<ClusterRelation>, records: Seq<(Filepath, Coord)>) -> TreeModel {
    choose|tree: TreeModel| is_tree_of(tree, relations, records)
}

/// The leaf count that a node of the tree under construction stands for:
/// one for a photograph, the declared count for a cluster.
pub open spec fn declared(tree: TreeModel) -> nat {
    match tree {
        TreeModel::Node(count, _) => count,
        TreeModel::Leaf(_, _) => 1,
    }
}

/// Sum of the leaf counts that `children` stand for.
pub open spec fn declared_total(children: Seq<TreeModel>) -> nat
    decreases children.len(),
{
    if children.len() == 0 {
        0
    } else {
        declared_total(children.drop_last()) + declared(children.last())
    }
}

/// Subtrees stand for the leaf counts that their relations contribute.
proof fn lemma_totals_agree(
    children: Seq<TreeModel>,
    relations: Seq<ClusterRelation>,
    records: Seq<(Filepath, Coord)>,
    positions: Seq<usize>,
)
    requires
        children.len() == positions.len(),
        forall|i: int|
            0 <= i < children.len() ==> represents(
                #[trigger] children[i],
                relations,
                records,
                positions[i] as int,
            ),
    ensures
        declared_total(children) == total_counted(relations, records.len(), positions),
    decreases children.len(),
{
    if children.len() > 0 {
        let fewer = children.drop_last();
        assert forall|i: int| 0 <= i < fewer.len() implies represents(
            #[trigger] fewer[i],
            relations,
            records,
            positions.drop_last()[i] as int,
        ) by {
            assert(fewer[i] == children[i]);
        }
        lemma_totals_agree(fewer, relations, records, positions.drop_last());
        assert(represents(children[children.len() - 1], relations, records, positions.last() as int));
    }
}

/// The top node of the tree of a history carries the sum of the leaf counts
/// of its direct children, a photograph counting as one.
pub proof fn lemma_top_count(
    tree: TreeModel,
    relations: Seq<ClusterRelation>,
    records: Seq<(Filepath, Coord)>,
)
    requires
        is_tree_of(tree, relations, records),
    ensures
        tree is Node,
        tree->Node_0 == declared_total(tree->Node_1),
{
    lemma_totals_agree(tree->Node_1, relations, records, members(relations, None));
}

} // verus!
