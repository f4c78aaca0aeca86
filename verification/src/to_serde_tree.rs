//! Between the finished tree and its wire form.
use crate::types::{
    lemma_serde_models, lemma_tree2_models, Coord, SerdeLeaf, SerdeLeafModel, SerdeNode,
    SerdeNodeModel, SerdeTree, SerdeTreeModel, Tree2, Tree2Model,
};
use vstd::prelude::*;

verus! {

/// The wire form of `tree`: a cluster fills the `node` arm with its boundary,
/// its leaf count and the wire forms of its children in their order, a
/// photograph fills the `leaf` arm; the other arm stays empty.
pub open spec fn wired(tree: Tree2Model) -> SerdeTreeModel
    decreases tree,
{
    match tree {
        Tree2Model::Node(hull, count, children) => SerdeTreeModel {
            node: Some(
                SerdeNodeModel {
                    convex_hull: hull,
                    number_of_leaves: count,
                    children: Seq::new(
                        children.len(),
                        |i: int|
                            if 0 <= i < children.len() {
                                wired(children[i])
                            } else {
                                SerdeTreeModel { node: None, leaf: None }
                            },
                    ),
                },
            ),
            leaf: None,
        },
        Tree2Model::Leaf(filepath, coord) => SerdeTreeModel {
            node: None,
            leaf: Some(SerdeLeafModel { filepath, coord }),
        },
    }
}

/// The tree that the wire form `wire` stands for, if exactly one arm of
/// every node is populated.
pub open spec fn restored(wire: SerdeTreeModel) -> Option<Tree2Model>
    decreases wire,
{
    match (wire.node, wire.leaf) {
        (Some(node), None) => {
            if forall|i: int|
                0 <= i < node.children.len() ==> restored(#[trigger] node.children[i]) is Some {
                Some(
                    Tree2Model::Node(
                        node.convex_hull,
                        node.number_of_leaves,
                        Seq::new(
                            node.children.len(),
                            |i: int|
                                if 0 <= i < node.children.len() {
                                    restored(node.children[i]).unwrap()
                                } else {
                                    Tree2Model::Leaf(Seq::empty(), Coord { lat: 0, lon: 0 })
                                },
                        ),
                    ),
                )
            } else {
                None
            }
        },
        (None, Some(leaf)) => Some(Tree2Model::Leaf(leaf.filepath, leaf.coord)),
        _ => None,
    }
}

/// Restoring the wire form of a tree gives the tree back: the same
/// hierarchy, the same photographs, the same boundaries vertex by vertex.
pub proof fn lemma_wire_round_trip(tree: Tree2Model)
    ensures
        restored(wired(tree)) == Some(tree),
    decreases tree,
{
    match tree {
        Tree2Model::Node(hull, count, children) => {
            let node = wired(tree).node.unwrap();
            assert(node.children.len() == children.len());
            assert forall|i: int| 0 <= i < children.len() implies restored(
                #[trigger] node.children[i],
            ) == Some(children[i]) by {
                assert(node.children[i] == wired(children[i]));
                lemma_wire_round_trip(children[i]);
            }
            let back = restored(wired(tree)).unwrap();
            assert(back->Node_2 =~= children);
        },
        Tree2Model::Leaf(_, _) => {},
    }
}

/// The elements of `v` in reverse order.
fn reversed<T>(v: Vec<T>) -> (r: Vec<T>)
    ensures
        r@.len() == v@.len(),
        forall|i: int| 0 <= i < r@.len() ==> r@[i] == v@[v@.len() - 1 - i],
{
    let mut rest = v;
    let mut r: Vec<T> = Vec::new();
    while rest.len() > 0
        invariant
            rest@ == v@.take(rest@.len() as int),
            r@.len() + rest@.len() == v@.len(),
            forall|i: int| 0 <= i < r@.len() ==> r@[i] == v@[v@.len() - 1 - i],
        decreases rest@.len(),
    {
        let ghost before = rest@;
        let last = rest.pop().unwrap();
        proof {
            assert(last == v@[before.len() - 1]);
            assert(rest@ == v@.take(rest@.len() as int));
        }
        r.push(last);
    }
    r
}

/// Projects the finished tree into its wire form, shape for shape.
pub fn to_serde_tree(tree: Tree2) -> (wire: SerdeTree)
    ensures
        wire@ == wired(tree@),
    decreases tree,
{
    match tree {
        Tree2::Node(convex_hull, number_of_leaves, children) => {
            let ghost all = children@;
            let mut rest = children;
            let mut backwards: Vec<SerdeTree> = Vec::new();
            while rest.len() > 0
                invariant
                    tree == Tree2::Node(convex_hull, number_of_leaves, children),
                    all == children@,
                    decreases_to!(tree => children),
                    rest@ == all.take(rest@.len() as int),
                    backwards@.len() + rest@.len() == all.len(),
                    forall|i: int|
                        0 <= i < backwards@.len() ==> (#[trigger] backwards@[i])@ == wired(
                            all[all.len() - 1 - i]@,
                        ),
                decreases rest@.len(),
            {
                let ghost before = rest@;
                let n = rest.pop().unwrap();
                proof {
                    assert(n == all[before.len() - 1]);
                    assert(rest@ == all.take(rest@.len() as int));
                    assert(decreases_to!(children => children[before.len() - 1]));
                }
                backwards.push(to_serde_tree(n));
            }
            let serde_children = reversed(backwards);
            let serde_node = SerdeNode { convex_hull, number_of_leaves, children: serde_children };
            let wire = SerdeTree { node: Some(serde_node), leaf: None };
            proof {
                lemma_serde_models(serde_children@, serde_children@.len());
                lemma_tree2_models(all, all.len());
                let got = wire@.node.unwrap().children;
                let expected = wired(tree@).node.unwrap().children;
                let kids = tree@->Node_2;
                assert(kids.len() == all.len());
                assert forall|i: int| 0 <= i < got.len() implies got[i] == expected[i] by {
                    assert(kids[i] == all[i]@);
                    assert(expected[i] == wired(kids[i]));
                    assert(got[i] == serde_children@[i]@);
                }
                assert(got =~= expected);
            }
            wire
        },
        Tree2::Leaf(filepath, coord) => {
            let serde_leaf = SerdeLeaf { filepath, coord };
            SerdeTree { node: None, leaf: Some(serde_leaf) }
        },
    }
}

/// Reads a wire form back into the tree it stands for; `None` where a node
/// has both arms populated or neither.
pub fn from_serde_tree(wire: SerdeTree) -> (tree: Option<Tree2>)
    ensures
        match tree {
            Some(tree) => restored(wire@) == Some(tree@),
            None => restored(wire@) is None,
        },
    decreases wire,
{
    let SerdeTree { node, leaf } = wire;
    match (node, leaf) {
        (Some(node), None) => {
            let SerdeNode { convex_hull, number_of_leaves, children } = node;
            let ghost all = children@;
            let ghost models = wire@.node.unwrap().children;
            proof {
                lemma_serde_models(all, all.len());
                assert(models.len() == all.len());
                assert(decreases_to!(wire => wire.node));
                assert(decreases_to!(wire.node => node));
                assert(decreases_to!(node => children));
            }
            let mut rest = children;
            let mut backwards: Vec<Tree2> = Vec::new();
            while rest.len() > 0
                invariant
                    all == children@,
                    decreases_to!(wire => children),
                    wire@.node is Some,
                    wire@.leaf is None,
                    wire@.node.unwrap().children == models,
                    models.len() == all.len(),
                    forall|i: int| 0 <= i < all.len() ==> (#[trigger] models[i]) == all[i]@,
                    rest@ == all.take(rest@.len() as int),
                    backwards@.len() + rest@.len() == all.len(),
                    forall|i: int|
                        0 <= i < backwards@.len() ==> restored(all[all.len() - 1 - i]@) == Some(
                            (#[trigger] backwards@[i])@,
                        ),
                decreases rest@.len(),
            {
                let ghost before = rest@;
                let n = rest.pop().unwrap();
                proof {
                    assert(n == all[before.len() - 1]);
                    assert(rest@ == all.take(rest@.len() as int));
                    assert(decreases_to!(children => children[before.len() - 1]));
                }
                match from_serde_tree(n) {
                    Some(child) => {
                        backwards.push(child);
                    },
                    None => {
                        proof {
                            assert(restored(models[before.len() - 1]) is None);
                        }
                        return None;
                    },
                }
            }
            let below = reversed(backwards);
            let tree = Tree2::Node(convex_hull, number_of_leaves, below);
            proof {
                lemma_tree2_models(below@, below@.len());
                assert forall|i: int| 0 <= i < models.len() implies restored(
                    #[trigger] models[i],
                ) is Some by {
                    assert(restored(all[i]@) == Some(below@[i]@));
                }
                let expected = restored(wire@).unwrap()->Node_2;
                let got = tree@->Node_2;
                assert forall|i: int| 0 <= i < got.len() implies got[i] == expected[i] by {
                    assert(restored(all[i]@) == Some(below@[i]@));
                    assert(expected[i] == restored(models[i]).unwrap());
                }
                assert(got =~= expected);
            }
            Some(tree)
        },
        (None, Some(leaf)) => Some(Tree2::Leaf(leaf.filepath, leaf.coord)),
        _ => None,
    }
}

} // verus!
