use photo_clusters::to_serde_tree::{from_serde_tree, to_serde_tree};
use photo_clusters::types::{
    ConvexHull2, Coord, Filepath, NumberOfLeaves, SerdeLeaf, SerdeNode, SerdeTree, Tree2,
};

fn at(lat: i32, lon: i32) -> Coord {
    Coord { lat, lon }
}

fn leaf(name: &str, lat: i32, lon: i32) -> Tree2 {
    Tree2::Leaf(Filepath(name.to_string()), at(lat, lon))
}

fn wire_leaf(name: &str, lat: i32, lon: i32) -> SerdeTree {
    SerdeTree {
        node: None,
        leaf: Some(SerdeLeaf { filepath: Filepath(name.to_string()), coord: at(lat, lon) }),
    }
}

fn sample() -> Tree2 {
    Tree2::Node(
        ConvexHull2(vec![at(0, 0), at(4, 0), at(4, 4)]),
        NumberOfLeaves(4),
        vec![
            leaf("a.jpg", 0, 0),
            Tree2::Node(
                ConvexHull2(vec![at(4, 0), at(4, 4)]),
                NumberOfLeaves(2),
                vec![leaf("b.jpg", 4, 0), leaf("c.jpg", 4, 4)],
            ),
            leaf("d.jpg", 3, 1),
        ],
    )
}

#[test]
fn leaf_fills_the_leaf_arm_only() {
    assert_eq!(to_serde_tree(leaf("a.jpg", 1, -2)), wire_leaf("a.jpg", 1, -2));
}

#[test]
fn region_fills_the_node_arm_only() {
    let wire = to_serde_tree(sample());
    assert_eq!(
        wire,
        SerdeTree {
            node: Some(SerdeNode {
                convex_hull: ConvexHull2(vec![at(0, 0), at(4, 0), at(4, 4)]),
                number_of_leaves: NumberOfLeaves(4),
                children: vec![
                    wire_leaf("a.jpg", 0, 0),
                    SerdeTree {
                        node: Some(SerdeNode {
                            convex_hull: ConvexHull2(vec![at(4, 0), at(4, 4)]),
                            number_of_leaves: NumberOfLeaves(2),
                            children: vec![wire_leaf("b.jpg", 4, 0), wire_leaf("c.jpg", 4, 4)],
                        }),
                        leaf: None,
                    },
                    wire_leaf("d.jpg", 3, 1),
                ],
            }),
            leaf: None,
        }
    );
}

#[test]
fn projection_does_not_validate() {
    let wrong = Tree2::Node(ConvexHull2(Vec::new()), NumberOfLeaves(99), vec![leaf("a", 0, 0)]);
    let wire = to_serde_tree(wrong);
    assert_eq!(wire.node.unwrap().number_of_leaves, NumberOfLeaves(99));
}

#[test]
fn reading_back_gives_the_tree() {
    assert_eq!(from_serde_tree(to_serde_tree(sample())), Some(sample()));
    assert_eq!(from_serde_tree(to_serde_tree(leaf("x", 7, 8))), Some(leaf("x", 7, 8)));
    let empty = Tree2::Node(ConvexHull2(Vec::new()), NumberOfLeaves(0), Vec::new());
    assert_eq!(
        from_serde_tree(to_serde_tree(empty)),
        Some(Tree2::Node(ConvexHull2(Vec::new()), NumberOfLeaves(0), Vec::new()))
    );
}

#[test]
fn node_with_both_arms_or_none_is_not_read() {
    assert_eq!(from_serde_tree(SerdeTree { node: None, leaf: None }), None);
    let both = SerdeTree {
        node: Some(SerdeNode {
            convex_hull: ConvexHull2(Vec::new()),
            number_of_leaves: NumberOfLeaves(0),
            children: Vec::new(),
        }),
        leaf: Some(SerdeLeaf { filepath: Filepath("a".to_string()), coord: at(0, 0) }),
    };
    assert_eq!(from_serde_tree(both), None);
    // One bad node below spoils the whole.
    let below = SerdeTree {
        node: Some(SerdeNode {
            convex_hull: ConvexHull2(Vec::new()),
            number_of_leaves: NumberOfLeaves(2),
            children: vec![
                wire_leaf("a", 0, 0),
                SerdeTree { node: None, leaf: None },
                wire_leaf("b", 0, 0),
            ],
        }),
        leaf: None,
    };
    assert_eq!(from_serde_tree(below), None);
}
