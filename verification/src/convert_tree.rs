//! From the tree under construction to the finished tree: every cluster gets
//! the convex boundary of what lies below it.
use crate::convex_hull::{
    boundary, encloses, hull_of_points, is_boundary, lemma_encloses_nested,
};
use crate::types::{
    lemma_tree2_models, lemma_tree_models, tree2_models, ConvexHull2, Coord, Tree, Tree2, Tree2Model,
    TreeModel,
};
use vstd::prelude::*;

verus! {

/// The points that a converted child hands to its parent: a photograph its
/// coordinate, a cluster the vertices of its boundary.
pub open spec fn contribution(child: Tree2Model) -> Seq<Coord> {
    match child {
        Tree2Model::Node(hull, _, _) => hull,
        Tree2Model::Leaf(_, coord) => seq![coord],
    }
}

/// The points that the children hand to their parent, child after child.
pub open spec fn point_set(children: Seq<Tree2Model>) -> Seq<Coord>
    decreases children.len(),
{
    if children.len() == 0 {
        Seq::empty()
    } else {
        point_set(children.drop_last()) + contribution(children.last())
    }
}

/// The finished tree of `tree`: leaves as they are, every cluster with its
/// leaf count, its converted children in their order, and the boundary of the
/// points that they hand up.
pub open spec fn converted(tree: TreeModel) -> Tree2Model
    decreases tree,
{
    match tree {
        TreeModel::Leaf(filepath, coord) => Tree2Model::Leaf(filepath, coord),
        TreeModel::Node(count, children) => {
            let below = Seq::new(
                children.len(),
                |i: int|
                    if 0 <= i < children.len() {
                        converted(children[i])
                    } else {
                        Tree2Model::Leaf(Seq::empty(), Coord { lat: 0, lon: 0 })
                    },
            );
            Tree2Model::Node(boundary(point_set(below)), count, below)
        },
    }
}

/// A photograph at `coord` lies somewhere in `tree`.
pub open spec fn has_leaf_at(tree: Tree2Model, coord: Coord) -> bool
    decreases tree,
{
    match tree {
        Tree2Model::Leaf(_, at) => at == coord,
        Tree2Model::Node(_, _, children) => exists|i: int|
            0 <= i < children.len() && has_leaf_at(#[trigger] children[i], coord),
    }
}

/// Every cluster of `tree` carries the convex boundary of the points that its
/// children hand up, and every photograph below it lies on or inside that
/// boundary.
pub open spec fn bounded(tree: Tree2Model) -> bool
    decreases tree,
{
    match tree {
        Tree2Model::Leaf(_, _) => true,
        Tree2Model::Node(hull, _, children) => {
            &&& is_boundary(point_set(children), hull)
            &&& forall|coord: Coord| #[trigger] has_leaf_at(tree, coord) ==> encloses(hull, coord)
            &&& forall|i: int| 0 <= i < children.len() ==> bounded(#[trigger] children[i])
        },
    }
}

/// Every point that a child hands up is among the points of all children.
pub proof fn lemma_point_set_holds(children: Seq<Tree2Model>, i: int, j: int)
    requires
        0 <= i < children.len(),
        0 <= j < contribution(children[i]).len(),
    ensures
        point_set(children).contains(contribution(children[i])[j]),
    decreases children.len(),
{
    let rest = point_set(children.drop_last());
    let last = contribution(children.last());
    if i == children.len() - 1 {
        assert((rest + last)[rest.len() + j] == last[j]);
    } else {
        lemma_point_set_holds(children.drop_last(), i, j);
        let at = choose|at: int| 0 <= at < rest.len() && rest[at] == contribution(children[i])[j];
        assert((rest + last)[at] == rest[at]);
    }
}

/// The boundary of the points that bounded children hand up encloses every
/// photograph below them.
pub proof fn lemma_boundary_covers(
    hull: Seq<Coord>,
    count: nat,
    children: Seq<Tree2Model>,
    coord: Coord,
)
    requires
        is_boundary(point_set(children), hull),
        forall|i: int| 0 <= i < children.len() ==> bounded(#[trigger] children[i]),
        has_leaf_at(Tree2Model::Node(hull, count, children), coord),
    ensures
        encloses(hull, coord),
{
    let points = point_set(children);
    let i = choose|i: int| 0 <= i < children.len() && has_leaf_at(#[trigger] children[i], coord);
    assert(bounded(children[i]));
    match children[i] {
        Tree2Model::Leaf(_, at) => {
            lemma_point_set_holds(children, i, 0);
            let w = choose|w: int| 0 <= w < points.len() && points[w] == coord;
            assert(encloses(hull, points[w]));
        },
        Tree2Model::Node(inner, _, _) => {
            assert(encloses(inner, coord));
            assert forall|j: int| 0 <= j < inner.len() implies encloses(hull, #[trigger] inner[j]) by {
                lemma_point_set_holds(children, i, j);
                let w = choose|w: int| 0 <= w < points.len() && points[w] == inner[j];
                assert(encloses(hull, points[w]));
            }
            lemma_encloses_nested(inner, hull, coord);
        },
    }
}

/// The convex boundary of the points that `children` hand up.
pub fn get_convex_hull(children: &Vec<Tree2>) -> (hull: ConvexHull2)
    ensures
        hull@ == boundary(point_set(tree2_models(children@, children@.len()))),
        is_boundary(point_set(tree2_models(children@, children@.len())), hull@),
{
    let mut points: Vec<Coord> = Vec::new();
    let mut i: usize = 0;
    while i < children.len()
        invariant
            i <= children@.len(),
            points@ == point_set(tree2_models(children@, children@.len()).take(i as int)),
        decreases children.len() - i,
    {
        let ghost before = points@;
        let ghost seen = tree2_models(children@, children@.len()).take(i + 1);
        proof {
            lemma_tree2_models(children@, children@.len());
            assert(seen.drop_last() == tree2_models(children@, children@.len()).take(i as int));
            assert(seen.last() == children@[i as int]@);
        }
        match &children[i] {
            Tree2::Node(hull, _, _) => {
                let mut j: usize = 0;
                while j < hull.0.len()
                    invariant
                        j <= hull@.len(),
                        points@ == before + hull@.take(j as int),
                    decreases hull.0.len() - j,
                {
                    points.push(hull.0[j]);
                    proof {
                        assert(hull@.take(j + 1) == hull@.take(j as int).push(hull@[j as int]));
                    }
                    j += 1;
                }
                proof {
                    assert(hull@.take(hull@.len() as int) == hull@);
                    assert(contribution(seen.last()) == hull@);
                }
            },
            Tree2::Leaf(_, coord) => {
                points.push(*coord);
                proof {
                    assert(contribution(seen.last()) == seq![*coord]);
                    assert(points@ == before + seq![*coord]);
                }
            },
        }
        i += 1;
    }
    proof {
        lemma_tree2_models(children@, children@.len());
        assert(tree2_models(children@, children@.len()).take(children@.len() as int)
            == tree2_models(children@, children@.len()));
    }
    hull_of_points(&points)
}

/// Converts the tree under construction into the finished tree, children
/// before their parent.
pub fn convert_tree(tree: &Tree) -> (finished: Tree2)
    ensures
        finished@ == converted(tree@),
        bounded(finished@),
    decreases tree,
{
    match tree {
        Tree::Node(n, l) => {
            let mut children: Vec<Tree2> = Vec::new();
            let mut i: usize = 0;
            while i < l.len()
                invariant
                    i <= l@.len(),
                    *tree == Tree::Node(*n, *l),
                    decreases_to!(*tree => *l),
                    children@.len() == i,
                    forall|a: int|
                        0 <= a < i ==> (#[trigger] children@[a])@ == converted(l@[a]@) && bounded(
                            children@[a]@,
                        ),
                decreases l.len() - i,
            {
                proof {
                    assert(decreases_to!(*l => l[i as int]));
                }
                let child = convert_tree(&l[i]);
                children.push(child);
                i += 1;
            }
            let convex_hull = get_convex_hull(&children);
            let finished = Tree2::Node(convex_hull, *n, children);
            proof {
                let below = finished@->Node_2;
                let kids = tree@->Node_1;
                let expected = converted(tree@)->Node_2;
                lemma_tree2_models(children@, children@.len());
                lemma_tree_models(l@, l@.len());
                assert(kids.len() == l@.len());
                assert(expected.len() == kids.len());
                assert forall|a: int| 0 <= a < below.len() implies below[a] == expected[a] by {
                    assert(kids[a] == l@[a]@);
                    assert(below[a] == children@[a]@);
                    assert(expected[a] == converted(kids[a]));
                }
                assert(below =~= expected);
                assert forall|coord: Coord| #[trigger]
                    has_leaf_at(finished@, coord) implies encloses(convex_hull@, coord) by {
                    lemma_boundary_covers(convex_hull@, n.0 as nat, below, coord);
                }
            }
            finished
        },
        Tree::Leaf(f, c) => Tree2::Leaf(f.clone(), *c),
    }
}

} // verus!
