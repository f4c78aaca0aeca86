//! The shared data model: coordinates, leaf records, the two tree shapes and
//! the wire form, each with the mathematical value that contracts speak of.
use vstd::prelude::*;

verus! {

/// Number of photographs below a node.
#[derive(Clone, Copy, Debug, PartialEq, Eq, Structural)]
pub struct NumberOfLeaves(pub usize);

impl core::ops::Add for NumberOfLeaves {
    type Output = NumberOfLeaves;

    fn add(self, rhs: Self) -> (sum: NumberOfLeaves) {
        NumberOfLeaves(self.0 + rhs.0)
    }
}

impl vstd::std_specs::ops::AddSpecImpl for NumberOfLeaves {
    open spec fn obeys_add_spec() -> bool {
        true
    }

    open spec fn add_req(self, rhs: Self) -> bool {
        self.0 + rhs.0 <= usize::MAX
    }

    open spec fn add_spec(self, rhs: Self) -> NumberOfLeaves {
        NumberOfLeaves((self.0 + rhs.0) as usize)
    }
}

/// A geographic position in fixed point: one unit is 1e-7 degree, so every
/// latitude in [-90, 90] and every longitude in [-180, 180] has a value.
#[derive(Clone, Copy, Debug, PartialEq, Eq, Structural)]
pub struct Coord {
    pub lat: i32,
    pub lon: i32,
}

/// Path of a photograph, as text.
#[derive(Debug, Hash, PartialEq, Eq)]
pub struct Filepath(pub String);

impl View for Filepath {
    type V = Seq<char>;

    open spec fn view(&self) -> Seq<char> {
        self.0@
    }
}

impl Clone for Filepath {
    fn clone(&self) -> (res: Self)
        ensures
            res@ == self@,
    {
        Filepath(self.0.clone())
    }
}

/// A directory, as text.
#[derive(Clone, Debug)]
pub struct Folder(pub String);

/// The middle of a cluster.
#[derive(Clone, Copy, Debug, PartialEq, Eq, Structural)]
pub struct Centroid(pub Coord);

/// The photographs that are filed together.
#[derive(Clone, Debug, Hash)]
pub struct Cluster(pub Vec<Filepath>);

/// The groups that a request asks to file.
#[derive(Clone, Debug)]
pub struct Clusters(pub Vec<Cluster>);

/// A request to file `clusters` below `folder`; with `dryrun` nothing is
/// moved.
#[derive(Clone, Debug)]
pub struct Commit {
    pub clusters: Clusters,
    pub folder: Folder,
    pub dryrun: bool,
}

/// One edge of the flat merge history: the cluster `parent` absorbed `child`,
/// below which `num_of_leaves` photographs lie. Ids below the number of leaf
/// records are photographs, all others are clusters. The distance at which
/// the merge happened plays no part in the reconstruction and is not kept.
#[derive(Clone, Copy, Debug, PartialEq, Eq, Structural)]
pub struct ClusterRelation {
    pub parent: usize,
    pub child: usize,
    pub num_of_leaves: NumberOfLeaves,
}

/// The tree under construction: a leaf, or a cluster with the leaf count that
/// the merge history declares for it.
#[derive(Debug, PartialEq, Eq)]
pub enum Tree {
    Node(NumberOfLeaves, Vec<Tree>),
    Leaf(Filepath, Coord),
}

/// What a [`Tree`] is, as a mathematical value.
pub enum TreeModel {
    Node(nat, Seq<TreeModel>),
    Leaf(Seq<char>, Coord),
}

impl View for Tree {
    type V = TreeModel;

    open spec fn view(&self) -> TreeModel
        decreases self, 0nat,
    {
        match self {
            Tree::Node(n, children) => TreeModel::Node(
                n.0 as nat,
                tree_models(children@, children@.len()),
            ),
            Tree::Leaf(filepath, coord) => TreeModel::Leaf(filepath@, *coord),
        }
    }
}

/// The first `end` of `children`, as mathematical values.
pub open spec fn tree_models(children: Seq<Tree>, end: nat) -> Seq<TreeModel>
    decreases children, end,
{
    if end == 0 || end > children.len() {
        Seq::empty()
    } else {
        tree_models(children, (end - 1) as nat).push(children[end - 1]@)
    }
}

/// `tree_models` maps child by child.
pub proof fn lemma_tree_models(children: Seq<Tree>, end: nat)
    requires
        end <= children.len(),
    ensures
        tree_models(children, end).len() == end,
        forall|i: int| 0 <= i < end ==> (#[trigger] tree_models(children, end)[i]) == children[i]@,
    decreases end,
{
    if end > 0 {
        lemma_tree_models(children, (end - 1) as nat);
        assert(tree_models(children, end) == tree_models(children, (end - 1) as nat).push(
            children[end - 1]@,
        ));
    } else {
        assert(tree_models(children, end) == Seq::<TreeModel>::empty());
    }
}

/// Boundary polygon of a cluster: its vertices in order, none repeated.
#[derive(Debug, PartialEq, Eq)]
pub struct ConvexHull2(pub Vec<Coord>);

impl View for ConvexHull2 {
    type V = Seq<Coord>;

    open spec fn view(&self) -> Seq<Coord> {
        self.0@
    }
}

/// The finished tree: every cluster carries its boundary polygon.
#[derive(Debug, PartialEq, Eq)]
pub enum Tree2 {
    Node(ConvexHull2, NumberOfLeaves, Vec<Tree2>),
    Leaf(Filepath, Coord),
}

/// What a [`Tree2`] is, as a mathematical value.
pub enum Tree2Model {
    Node(Seq<Coord>, nat, Seq<Tree2Model>),
    Leaf(Seq<char>, Coord),
}

impl View for Tree2 {
    type V = Tree2Model;

    open spec fn view(&self) -> Tree2Model
        decreases self, 0nat,
    {
        match self {
            Tree2::Node(hull, n, children) => Tree2Model::Node(
                hull@,
                n.0 as nat,
                tree2_models(children@, children@.len()),
            ),
            Tree2::Leaf(filepath, coord) => Tree2Model::Leaf(filepath@, *coord),
        }
    }
}

/// The first `end` of `children`, as mathematical values.
pub open spec fn tree2_models(children: Seq<Tree2>, end: nat) -> Seq<Tree2Model>
    decreases children, end,
{
    if end == 0 || end > children.len() {
        Seq::empty()
    } else {
        tree2_models(children, (end - 1) as nat).push(children[end - 1]@)
    }
}

/// `tree2_models` maps child by child.
pub proof fn lemma_tree2_models(children: Seq<Tree2>, end: nat)
    requires
        end <= children.len(),
    ensures
        tree2_models(children, end).len() == end,
        forall|i: int|
            0 <= i < end ==> (#[trigger] tree2_models(children, end)[i]) == children[i]@,
    decreases end,
{
    if end > 0 {
        lemma_tree2_models(children, (end - 1) as nat);
        assert(tree2_models(children, end) == tree2_models(children, (end - 1) as nat).push(
            children[end - 1]@,
        ));
    } else {
        assert(tree2_models(children, end) == Seq::<Tree2Model>::empty());
    }
}

/// The cluster arm of the wire form.
#[derive(Debug, PartialEq, Eq)]
pub struct SerdeNode {
    pub convex_hull: ConvexHull2,
    pub number_of_leaves: NumberOfLeaves,
    pub children: Vec<SerdeTree>,
}

/// The photograph arm of the wire form.
#[derive(Debug, PartialEq, Eq)]
pub struct SerdeLeaf {
    pub filepath: Filepath,
    pub coord: Coord,
}

/// A node of the wire form: a tagged union of which exactly one arm is
/// meant to be populated.
#[derive(Debug, PartialEq, Eq)]
pub struct SerdeTree {
    pub node: Option<SerdeNode>,
    pub leaf: Option<SerdeLeaf>,
}

/// What a [`SerdeNode`] is, as a mathematical value.
pub struct SerdeNodeModel {
    pub convex_hull: Seq<Coord>,
    pub number_of_leaves: nat,
    pub children: Seq<SerdeTreeModel>,
}

/// What a [`SerdeLeaf`] is, as a mathematical value.
pub struct SerdeLeafModel {
    pub filepath: Seq<char>,
    pub coord: Coord,
}

/// What a [`SerdeTree`] is, as a mathematical value.
pub struct SerdeTreeModel {
    pub node: Option<SerdeNodeModel>,
    pub leaf: Option<SerdeLeafModel>,
}

impl View for SerdeLeaf {
    type V = SerdeLeafModel;

    open spec fn view(&self) -> SerdeLeafModel {
        SerdeLeafModel { filepath: self.filepath@, coord: self.coord }
    }
}

impl View for SerdeTree {
    type V = SerdeTreeModel;

    open spec fn view(&self) -> SerdeTreeModel
        decreases self, 0nat,
    {
        SerdeTreeModel {
            node: match self.node {
                Some(node) => Some(
                    SerdeNodeModel {
                        convex_hull: node.convex_hull@,
                        number_of_leaves: node.number_of_leaves.0 as nat,
                        children: serde_models(node.children@, node.children@.len()),
                    },
                ),
                None => None,
            },
            leaf: match self.leaf {
                Some(leaf) => Some(leaf@),
                None => None,
            },
        }
    }
}

/// The first `end` of `children`, as mathematical values.
pub open spec fn serde_models(children: Seq<SerdeTree>, end: nat) -> Seq<SerdeTreeModel>
    decreases children, end,
{
    if end == 0 || end > children.len() {
        Seq::empty()
    } else {
        serde_models(children, (end - 1) as nat).push(children[end - 1]@)
    }
}

/// `serde_models` maps child by child.
pub proof fn lemma_serde_models(children: Seq<SerdeTree>, end: nat)
    requires
        end <= children.len(),
    ensures
        serde_models(children, end).len() == end,
        forall|i: int|
            0 <= i < end ==> (#[trigger] serde_models(children, end)[i]) == children[i]@,
    decreases end,
{
    if end > 0 {
        lemma_serde_models(children, (end - 1) as nat);
        assert(serde_models(children, end) == serde_models(children, (end - 1) as nat).push(
            children[end - 1]@,
        ));
    } else {
        assert(serde_models(children, end) == Seq::<SerdeTreeModel>::empty());
    }
}

} // verus!
