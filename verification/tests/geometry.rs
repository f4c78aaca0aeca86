use photo_clusters::convert_tree::{convert_tree, get_convex_hull};
use photo_clusters::convex_hull::{hull_of_points, open_ring};
use photo_clusters::types::{ConvexHull2, Coord, Filepath, NumberOfLeaves, Tree, Tree2};
use photo_clusters::validate_tree::{get_number_of_leaves, validate_tree, ValidationMismatch};

fn at(lat: i32, lon: i32) -> Coord {
    Coord { lat, lon }
}

fn leaf(name: &str, lat: i32, lon: i32) -> Tree {
    Tree::Leaf(Filepath(name.to_string()), at(lat, lon))
}

fn leaf2(name: &str, lat: i32, lon: i32) -> Tree2 {
    Tree2::Leaf(Filepath(name.to_string()), at(lat, lon))
}

fn turn(p: Coord, q: Coord, r: Coord) -> i128 {
    (q.lat as i128 - p.lat as i128) * (r.lon as i128 - p.lon as i128)
        - (q.lon as i128 - p.lon as i128) * (r.lat as i128 - p.lat as i128)
}

/// On or inside a boundary of three or more vertices that runs
/// counter-clockwise.
fn inside(hull: &[Coord], p: Coord) -> bool {
    (0..hull.len()).all(|i| turn(hull[i], hull[(i + 1) % hull.len()], p) >= 0)
}

fn leaf_coords(tree: &Tree2, out: &mut Vec<Coord>) {
    match tree {
        Tree2::Node(_, _, children) => children.iter().for_each(|c| leaf_coords(c, out)),
        Tree2::Leaf(_, c) => out.push(*c),
    }
}

fn every_region_holds_its_leaves(tree: &Tree2) {
    if let Tree2::Node(hull, _, children) = tree {
        let mut coords = Vec::new();
        leaf_coords(tree, &mut coords);
        for c in coords {
            assert!(inside(&hull.0, c), "{:?} outside {:?}", c, hull);
        }
        children.iter().for_each(every_region_holds_its_leaves);
    }
}

#[test]
fn open_ring_drops_the_closing_vertex() {
    assert_eq!(open_ring(vec![at(0, 0), at(1, 0), at(0, 1), at(0, 0)]).0, vec![
        at(0, 0),
        at(1, 0),
        at(0, 1)
    ]);
    assert_eq!(open_ring(vec![at(3, 4), at(3, 4)]).0, vec![at(3, 4)]);
    assert_eq!(open_ring(vec![at(0, 0), at(1, 1), at(0, 0)]).0, vec![at(0, 0), at(1, 1)]);
}

#[test]
fn open_ring_leaves_other_sequences_alone() {
    assert_eq!(open_ring(Vec::new()).0, Vec::new());
    assert_eq!(open_ring(vec![at(1, 2)]).0, vec![at(1, 2)]);
    assert_eq!(open_ring(vec![at(0, 0), at(1, 0), at(0, 1)]).0, vec![at(0, 0), at(1, 0), at(0, 1)]);
}

#[test]
fn hull_of_no_points_is_empty() {
    assert_eq!(hull_of_points(&Vec::new()).0, Vec::new());
}

#[test]
fn hull_of_one_or_two_points_is_the_points() {
    assert_eq!(hull_of_points(&vec![at(5, 6)]).0, vec![at(5, 6)]);
    assert_eq!(hull_of_points(&vec![at(5, 6), at(5, 6)]).0, vec![at(5, 6)]);
    assert_eq!(hull_of_points(&vec![at(5, 6), at(5, 6), at(5, 6)]).0, vec![at(5, 6)]);
    let mut two = hull_of_points(&vec![at(5, 6), at(1, 2)]).0;
    two.sort_by_key(|c| (c.lat, c.lon));
    assert_eq!(two, vec![at(1, 2), at(5, 6)]);
}

#[test]
fn hull_of_collinear_points_is_their_two_ends() {
    let points = vec![at(2, 2), at(0, 0), at(4, 4), at(1, 1), at(3, 3), at(4, 4)];
    let mut hull = hull_of_points(&points).0;
    hull.sort_by_key(|c| (c.lat, c.lon));
    assert_eq!(hull, vec![at(0, 0), at(4, 4)]);
}

#[test]
fn hull_drops_inner_and_repeated_points() {
    let points = vec![
        at(0, 0),
        at(2, 2),
        at(4, 0),
        at(4, 4),
        at(1, 3),
        at(0, 4),
        at(4, 4),
        at(2, 0),
        at(0, 0),
    ];
    let hull = hull_of_points(&points).0;
    assert_eq!(hull.len(), 4);
    let mut sorted = hull.clone();
    sorted.sort_by_key(|c| (c.lat, c.lon));
    assert_eq!(sorted, vec![at(0, 0), at(0, 4), at(4, 0), at(4, 4)]);
    for i in 0..4 {
        assert!(turn(hull[i], hull[(i + 1) % 4], hull[(i + 2) % 4]) > 0);
    }
    for p in points {
        assert!(inside(&hull, p));
    }
}

#[test]
fn hull_holds_at_the_ends_of_the_coordinate_range() {
    let points = vec![
        at(i32::MIN, i32::MIN),
        at(i32::MAX, i32::MIN),
        at(i32::MAX, i32::MAX),
        at(i32::MIN, i32::MAX),
        at(0, 0),
        at(-900_000_000, 1_800_000_000),
    ];
    let hull = hull_of_points(&points).0;
    assert_eq!(hull.len(), 4);
    for p in points {
        assert!(inside(&hull, p));
    }
}

#[test]
fn boundary_of_children_takes_leaf_coordinates_and_region_vertices() {
    let inner = Tree2::Node(
        ConvexHull2(vec![at(10, 0), at(10, 10), at(0, 10)]),
        NumberOfLeaves(3),
        Vec::new(),
    );
    let children = vec![leaf2("a", 0, 0), inner, leaf2("b", 5, 5)];
    let hull = get_convex_hull(&children).0;
    let mut sorted = hull.clone();
    sorted.sort_by_key(|c| (c.lat, c.lon));
    assert_eq!(sorted, vec![at(0, 0), at(0, 10), at(10, 0), at(10, 10)]);
    assert_eq!(get_convex_hull(&Vec::new()).0, Vec::new());
}

#[test]
fn conversion_keeps_leaves_and_counts() {
    let tree = Tree::Node(
        NumberOfLeaves(5),
        vec![
            leaf("a", 0, 0),
            Tree::Node(NumberOfLeaves(3), vec![leaf("b", 4, 0), leaf("c", 4, 4), leaf("d", 3, 1)]),
            leaf("e", 0, 4),
        ],
    );
    match convert_tree(&tree) {
        Tree2::Node(hull, n, children) => {
            assert_eq!(n, NumberOfLeaves(5));
            assert_eq!(hull.0.len(), 4);
            assert_eq!(children.len(), 3);
            assert_eq!(children[0], leaf2("a", 0, 0));
            assert_eq!(children[2], leaf2("e", 0, 4));
            match &children[1] {
                Tree2::Node(inner, n, below) => {
                    assert_eq!(*n, NumberOfLeaves(3));
                    assert_eq!(inner.0.len(), 3);
                    assert_eq!(below, &vec![leaf2("b", 4, 0), leaf2("c", 4, 4), leaf2("d", 3, 1)]);
                }
                other => panic!("unexpected {:?}", other),
            }
        }
        other => panic!("unexpected {:?}", other),
    }
    assert_eq!(convert_tree(&leaf("x", 1, 2)), leaf2("x", 1, 2));
}

#[test]
fn every_leaf_lies_within_every_region_above_it() {
    let tree = Tree::Node(
        NumberOfLeaves(9),
        vec![
            Tree::Node(
                NumberOfLeaves(4),
                vec![
                    leaf("a", 0, 0),
                    leaf("b", 10, 1),
                    leaf("c", 9, 12),
                    Tree::Node(
                        NumberOfLeaves(3),
                        vec![leaf("d", 2, 2), leaf("e", 3, 7), leaf("f", 6, 4), leaf("g", 4, 4)],
                    ),
                ],
            ),
            Tree::Node(
                NumberOfLeaves(3),
                vec![leaf("h", -20, -5), leaf("i", -25, 8), leaf("j", -30, -2), leaf("k", -24, 0)],
            ),
            leaf("l", 40, -40),
        ],
    );
    let finished = convert_tree(&tree);
    every_region_holds_its_leaves(&finished);
}

#[test]
fn region_without_children_has_an_empty_boundary() {
    assert_eq!(
        convert_tree(&Tree::Node(NumberOfLeaves(0), Vec::new())),
        Tree2::Node(ConvexHull2(Vec::new()), NumberOfLeaves(0), Vec::new())
    );
}

#[test]
fn number_of_leaves_is_one_for_a_leaf_and_stored_for_a_region() {
    assert_eq!(get_number_of_leaves(&leaf2("a", 0, 0)), 1);
    let region = Tree2::Node(ConvexHull2(Vec::new()), NumberOfLeaves(17), Vec::new());
    assert_eq!(get_number_of_leaves(&region), 17);
}

#[test]
fn validator_accepts_sums_of_children() {
    let hull = || ConvexHull2(Vec::new());
    assert_eq!(validate_tree(&leaf2("a", 0, 0)), Ok(()));
    assert_eq!(validate_tree(&Tree2::Node(hull(), NumberOfLeaves(0), Vec::new())), Ok(()));
    let tree = Tree2::Node(
        hull(),
        NumberOfLeaves(4),
        vec![
            leaf2("a", 0, 0),
            Tree2::Node(hull(), NumberOfLeaves(3), vec![
                leaf2("b", 0, 0),
                leaf2("c", 0, 0),
                leaf2("d", 0, 0),
            ]),
        ],
    );
    assert_eq!(validate_tree(&tree), Ok(()));
}

#[test]
fn validator_rejects_a_mismatch_anywhere() {
    let hull = || ConvexHull2(Vec::new());
    let at_top = Tree2::Node(hull(), NumberOfLeaves(3), vec![leaf2("a", 0, 0), leaf2("b", 0, 0)]);
    assert_eq!(validate_tree(&at_top), Err(ValidationMismatch));
    assert_eq!(
        validate_tree(&Tree2::Node(hull(), NumberOfLeaves(1), Vec::new())),
        Err(ValidationMismatch)
    );
    // The top adds up, a cluster two levels down does not.
    let deep = Tree2::Node(
        hull(),
        NumberOfLeaves(3),
        vec![
            leaf2("a", 0, 0),
            Tree2::Node(hull(), NumberOfLeaves(2), vec![Tree2::Node(
                hull(),
                NumberOfLeaves(2),
                vec![leaf2("b", 0, 0)],
            )]),
        ],
    );
    assert_eq!(validate_tree(&deep), Err(ValidationMismatch));
}

#[test]
fn validator_rejects_a_sum_beyond_a_machine_word() {
    let hull = || ConvexHull2(Vec::new());
    let big = || Tree2::Node(hull(), NumberOfLeaves(0), Vec::new());
    let inner = |n: usize| Tree2::Node(hull(), NumberOfLeaves(n), vec![big()]);
    // Children that declare more than a word holds; each is itself inconsistent too.
    let tree = Tree2::Node(hull(), NumberOfLeaves(0), vec![inner(usize::MAX), inner(1)]);
    assert_eq!(validate_tree(&tree), Err(ValidationMismatch));
}

fn within(hull: &[Coord], p: Coord) -> bool {
    match hull.len() {
        0 => false,
        1 => hull[0] == p,
        2 => {
            let (a, b) = (hull[0], hull[1]);
            turn(a, b, p) == 0
                && a.lat.min(b.lat) <= p.lat
                && p.lat <= a.lat.max(b.lat)
                && a.lon.min(b.lon) <= p.lon
                && p.lon <= a.lon.max(b.lon)
        }
        _ => inside(hull, p),
    }
}

#[test]
fn boundary_holds_all_points_on_small_grids() {
    let mut state: u64 = 0x2545_f491_4f6c_dd1d;
    let mut next = |bound: u64| {
        state = state.wrapping_mul(6364136223846793005).wrapping_add(1442695040888963407);
        (state >> 33) % bound
    };
    for _ in 0..3000 {
        let count = next(12) as usize;
        let side = 1 + next(5);
        let points: Vec<Coord> =
            (0..count).map(|_| at(next(side) as i32 - 2, next(side) as i32 - 2)).collect();
        let hull = hull_of_points(&points).0;
        assert_eq!(hull.is_empty(), points.is_empty());
        for (i, v) in hull.iter().enumerate() {
            assert!(points.contains(v), "{:?} of {:?} is none of {:?}", v, hull, points);
            assert!(!hull[..i].contains(v), "{:?} twice in {:?}", v, hull);
        }
        for p in points.iter() {
            assert!(within(&hull, *p), "{:?} outside {:?}", p, hull);
        }
        for i in 0..hull.len() {
            for v in hull.iter() {
                assert!(turn(hull[i], hull[(i + 1) % hull.len()], *v) >= 0);
            }
        }
    }
}
