use photo_clusters::build_tree::{build_tree, BuildError};
use photo_clusters::relation_index::RelationIndex;
use photo_clusters::types::{ClusterRelation, Coord, Filepath, NumberOfLeaves, Tree};

fn records(n: usize) -> Vec<(Filepath, Coord)> {
    (0..n)
        .map(|i| (Filepath(format!("dir/{}.jpg", i)), Coord { lat: i as i32, lon: -(i as i32) }))
        .collect()
}

fn relation(parent: usize, child: usize, leaves: usize) -> ClusterRelation {
    ClusterRelation { parent, child, num_of_leaves: NumberOfLeaves(leaves) }
}

fn leaf(l: &Vec<(Filepath, Coord)>, i: usize) -> Tree {
    Tree::Leaf(l[i].0.clone(), l[i].1)
}

fn leaves_of(tree: &Tree, out: &mut Vec<(Filepath, Coord)>) {
    match tree {
        Tree::Node(_, children) => {
            for child in children {
                leaves_of(child, out);
            }
        }
        Tree::Leaf(f, c) => out.push((f.clone(), *c)),
    }
}

#[test]
fn index_of_nothing_is_empty() {
    let index = RelationIndex::new(&Vec::new());
    assert_eq!(index.get(0), None);
    assert_eq!(index.position(0), None);
    assert!(!index.contains(0));
}

#[test]
fn index_keeps_the_last_record_of_a_child() {
    let relations = vec![relation(7, 1, 1), relation(8, 2, 4), relation(9, 1, 3)];
    let index = RelationIndex::new(&relations);
    assert_eq!(index.get(1), Some((9, NumberOfLeaves(3))));
    assert_eq!(index.position(1), Some(2));
    assert_eq!(index.get(2), Some((8, NumberOfLeaves(4))));
    assert_eq!(index.position(2), Some(1));
    assert_eq!(index.get(7), None);
    assert!(index.contains(1));
    assert!(index.contains(2));
    assert!(!index.contains(9));
}

#[test]
fn empty_history_gives_an_empty_root() {
    let l = records(3);
    assert_eq!(build_tree(&l, &Vec::new()), Ok(Tree::Node(NumberOfLeaves(0), Vec::new())));
}

#[test]
fn children_attach_in_list_order() {
    let l = records(4);
    let relations = vec![
        relation(4, 3, 1),
        relation(5, 1, 1),
        relation(4, 5, 2),
        relation(4, 0, 1),
        relation(5, 2, 1),
    ];
    assert_eq!(
        build_tree(&l, &relations),
        Ok(Tree::Node(
            NumberOfLeaves(4),
            vec![
                leaf(&l, 3),
                Tree::Node(NumberOfLeaves(2), vec![leaf(&l, 1), leaf(&l, 2)]),
                leaf(&l, 0),
            ]
        ))
    );
}

#[test]
fn forward_references_are_resolved() {
    // The children of cluster 6 are listed before cluster 6 itself.
    let l = records(3);
    let relations =
        vec![relation(6, 0, 1), relation(6, 1, 1), relation(5, 2, 1), relation(5, 6, 2)];
    assert_eq!(
        build_tree(&l, &relations),
        Ok(Tree::Node(
            NumberOfLeaves(3),
            vec![leaf(&l, 2), Tree::Node(NumberOfLeaves(2), vec![leaf(&l, 0), leaf(&l, 1)])]
        ))
    );
}

#[test]
fn top_count_is_the_sum_of_declared_counts() {
    // The declared count of cluster 4 is taken as it is, right or wrong.
    let l = records(3);
    let relations =
        vec![relation(3, 4, 10), relation(3, 0, 1), relation(4, 1, 1), relation(4, 2, 1)];
    match build_tree(&l, &relations) {
        Ok(Tree::Node(n, children)) => {
            assert_eq!(n, NumberOfLeaves(11));
            assert_eq!(children.len(), 2);
        }
        other => panic!("unexpected {:?}", other),
    }
}

#[test]
fn every_record_is_one_leaf() {
    let l = records(7);
    let relations = vec![
        relation(7, 8, 4),
        relation(7, 9, 3),
        relation(8, 0, 1),
        relation(8, 6, 1),
        relation(9, 5, 1),
        relation(8, 10, 2),
        relation(10, 3, 1),
        relation(9, 1, 1),
        relation(10, 2, 1),
        relation(9, 4, 1),
    ];
    let tree = build_tree(&l, &relations).unwrap();
    let mut found = Vec::new();
    leaves_of(&tree, &mut found);
    assert_eq!(found.len(), l.len());
    found.sort_by(|a, b| a.0 .0.cmp(&b.0 .0));
    assert_eq!(found, l);
}

#[test]
fn cluster_without_members_is_out_of_range() {
    let l = records(2);
    let relations = vec![relation(2, 0, 1), relation(2, 1, 1), relation(2, 3, 5)];
    assert_eq!(build_tree(&l, &relations), Err(BuildError::OutOfRange));
}

#[test]
fn out_of_range_comes_before_structural_violation() {
    let l = records(2);
    let relations = vec![relation(0, 1, 1), relation(2, 9, 5)];
    assert_eq!(build_tree(&l, &relations), Err(BuildError::OutOfRange));
}

#[test]
fn leaf_as_parent_is_a_structural_violation() {
    let l = records(3);
    let relations = vec![relation(3, 0, 1), relation(3, 1, 1), relation(1, 2, 1)];
    assert_eq!(build_tree(&l, &relations), Err(BuildError::StructuralViolation));
}

#[test]
fn child_of_two_parents_is_a_structural_violation() {
    let l = records(3);
    let relations =
        vec![relation(3, 0, 1), relation(3, 4, 2), relation(4, 1, 1), relation(4, 0, 1)];
    assert_eq!(build_tree(&l, &relations), Err(BuildError::StructuralViolation));
    let twice = vec![relation(3, 0, 1), relation(3, 0, 1)];
    assert_eq!(build_tree(&l, &twice), Err(BuildError::StructuralViolation));
}

#[test]
fn cycle_is_a_structural_violation() {
    let l = records(2);
    let relations =
        vec![relation(2, 0, 1), relation(3, 2, 1), relation(2, 3, 1), relation(4, 1, 1)];
    assert_eq!(build_tree(&l, &relations), Err(BuildError::StructuralViolation));
    let own_parent = vec![relation(5, 5, 1)];
    assert_eq!(build_tree(&l, &own_parent), Err(BuildError::StructuralViolation));
}

#[test]
fn top_count_beyond_a_machine_word_is_a_structural_violation() {
    let l = records(2);
    let relations =
        vec![relation(9, 2, usize::MAX), relation(8, 3, 1), relation(2, 0, 1), relation(3, 1, 1)];
    assert_eq!(build_tree(&l, &relations), Err(BuildError::StructuralViolation));
    let relations = vec![
        relation(9, 2, usize::MAX - 1),
        relation(8, 3, 1),
        relation(2, 0, 1),
        relation(3, 1, 1),
    ];
    match build_tree(&l, &relations) {
        Ok(Tree::Node(n, _)) => assert_eq!(n, NumberOfLeaves(usize::MAX)),
        other => panic!("unexpected {:?}", other),
    }
}

#[test]
fn leaf_counts_add_up() {
    assert_eq!(NumberOfLeaves(2) + NumberOfLeaves(3), NumberOfLeaves(5));
    assert_eq!(NumberOfLeaves(0) + NumberOfLeaves(usize::MAX), NumberOfLeaves(usize::MAX));
}
