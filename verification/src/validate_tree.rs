//! The leaf-count check on the finished tree.
use crate::types::{lemma_tree2_models, Tree2, Tree2Model};
use vstd::prelude::*;

verus! {

/// The stored leaf count does not match the children somewhere in the tree.
#[derive(Clone, Copy, Debug, PartialEq, Eq, Structural)]
pub struct ValidationMismatch;

/// The leaf count that `tree` stands for: one for a photograph, the stored
/// count for a cluster.
pub open spec fn leaf_count(tree: Tree2Model) -> nat {
    match tree {
        Tree2Model::Node(_, count, _) => count,
        Tree2Model::Leaf(_, _) => 1,
    }
}

/// Sum of the leaf counts of `children`.
pub open spec fn sum_of_counts(children: Seq<Tree2Model>) -> nat
    decreases children.len(),
{
    if children.len() == 0 {
        0
    } else {
        sum_of_counts(children.drop_last()) + leaf_count(children.last())
    }
}

/// Every cluster of `tree` stores the sum of the leaf counts of its children.
pub open spec fn consistent(tree: Tree2Model) -> bool
    decreases tree,
{
    match tree {
        Tree2Model::Leaf(_, _) => true,
        Tree2Model::Node(_, count, children) => {
            &&& count == sum_of_counts(children)
            &&& forall|i: int| 0 <= i < children.len() ==> consistent(#[trigger] children[i])
        },
    }
}

/// A sum over a prefix is at most the sum over the whole.
proof fn lemma_sum_grows(children: Seq<Tree2Model>, end: int)
    requires
        0 <= end <= children.len(),
    ensures
        sum_of_counts(children.take(end)) <= sum_of_counts(children),
    decreases children.len(),
{
    if end < children.len() {
        assert(children.drop_last().take(end) == children.take(end));
        lemma_sum_grows(children.drop_last(), end);
    } else {
        assert(children.take(end) == children);
    }
}

/// The number of photographs in `tree`.
pub open spec fn photographs(tree: Tree2Model) -> nat
    decreases tree, 0nat,
{
    match tree {
        Tree2Model::Leaf(_, _) => 1,
        Tree2Model::Node(_, _, children) => photographs_upto(children, children.len()),
    }
}

/// The number of photographs in the first `end` of `children`.
pub open spec fn photographs_upto(children: Seq<Tree2Model>, end: nat) -> nat
    decreases children, end,
{
    if end == 0 || end > children.len() {
        0
    } else {
        photographs_upto(children, (end - 1) as nat) + photographs(children[end - 1])
    }
}

/// In a consistent tree every node stands for as many leaves as there are
/// photographs below it.
pub proof fn lemma_counts_are_photographs(tree: Tree2Model)
    requires
        consistent(tree),
    ensures
        leaf_count(tree) == photographs(tree),
    decreases tree, 0nat,
{
    match tree {
        Tree2Model::Leaf(_, _) => {},
        Tree2Model::Node(_, _, children) => {
            lemma_sums_are_photographs(children, children.len());
            assert(children.take(children.len() as int) == children);
        },
    }
}

/// The same for the first `end` children of a consistent node.
proof fn lemma_sums_are_photographs(children: Seq<Tree2Model>, end: nat)
    requires
        end <= children.len(),
        forall|i: int| 0 <= i < children.len() ==> consistent(#[trigger] children[i]),
    ensures
        sum_of_counts(children.take(end as int)) == photographs_upto(children, end),
    decreases children, end,
{
    if end > 0 {
        lemma_sums_are_photographs(children, (end - 1) as nat);
        lemma_counts_are_photographs(children[end - 1]);
        assert(children.take(end as int).drop_last() == children.take(end - 1));
        assert(children.take(end as int).last() == children[end - 1]);
        assert(photographs_upto(children, end) == photographs_upto(children, (end - 1) as nat)
            + photographs(children[end - 1]));
    } else {
        assert(photographs_upto(children, end) == 0);
    }
}

/// The leaf count that a node stands for.
pub fn get_number_of_leaves(tree: &Tree2) -> (count: usize)
    ensures
        count == leaf_count(tree@),
{
    match tree {
        Tree2::Node(_, n, _) => n.0,
        Tree2::Leaf(_, _) => 1,
    }
}

/// Recomputes the leaf count of every cluster from its children and compares
/// it with the stored one.
pub fn validate_tree(tree: &Tree2) -> (result: Result<(), ValidationMismatch>)
    ensures
        result is Ok <==> consistent(tree@),
    decreases tree,
{
    match tree {
        Tree2::Node(_, n, children) => {
            let ghost models = tree@->Node_2;
            proof {
                lemma_tree2_models(children@, children@.len());
            }
            let mut calculated: usize = 0;
            let mut i: usize = 0;
            while i < children.len()
                invariant
                    i <= children@.len(),
                    decreases_to!(*tree => *children),
                    tree@ is Node,
                    tree@->Node_2 == models,
                    models.len() == children@.len(),
                    forall|a: int| 0 <= a < models.len() ==> (#[trigger] models[a]) == children@[a]@,
                    calculated == sum_of_counts(models.take(i as int)),
                    forall|a: int| 0 <= a < i ==> consistent(#[trigger] models[a]),
                decreases children.len() - i,
            {
                let child = &children[i];
                proof {
                    assert(decreases_to!(*children => children[i as int]));
                    assert(models.take(i + 1).drop_last() == models.take(i as int));
                    assert(models.take(i + 1).last() == models[i as int]);
                    lemma_sum_grows(models, i + 1);
                }
                if validate_tree(child).is_err() {
                    proof {
                        assert(!consistent(models[i as int]));
                    }
                    return Err(ValidationMismatch);
                }
                match calculated.checked_add(get_number_of_leaves(child)) {
                    Some(sum) => {
                        calculated = sum;
                    },
                    None => {
                        proof {
                            assert(sum_of_counts(models.take(i + 1)) > usize::MAX);
                        }
                        return Err(ValidationMismatch);
                    },
                }
                i += 1;
            }
            proof {
                assert(models.take(models.len() as int) == models);
            }
            if n.0 != calculated {
                return Err(ValidationMismatch);
            }
            Ok(())
        },
        Tree2::Leaf(_, _) => Ok(()),
    }
}

} // verus!
