//! Convex boundaries of point sets in the latitude/longitude plane.
use crate::types::{ConvexHull2, Coord};
use geo::ConvexHull;
use vstd::prelude::*;

verus! {

/// The closed half-plane `a * lat + b * lon <= c`.
pub open spec fn in_half_plane(a: int, b: int, c: int, p: Coord) -> bool {
    a * p.lat + b * p.lon <= c
}

/// `p` lies on or inside the convex boundary of `points`: every closed
/// half-plane that holds all of `points` holds `p` too.
pub open spec fn encloses(points: Seq<Coord>, p: Coord) -> bool {
    forall|a: int, b: int, c: int|
        (forall|i: int| 0 <= i < points.len() ==> #[trigger] in_half_plane(a, b, c, points[i]))
            ==> #[trigger] in_half_plane(a, b, c, p)
}

/// Twice the signed area of the triangle `p`, `q`, `r`: positive where `r`
/// lies to the left of the line from `p` to `q`.
pub open spec fn turn(p: Coord, q: Coord, r: Coord) -> int {
    (q.lat - p.lat) * (r.lon - p.lon) - (q.lon - p.lon) * (r.lat - p.lat)
}

/// No vertex lies to the right of an edge of the closed ring `ring`: its
/// vertices run counter-clockwise round a convex region.
pub open spec fn winds_left(ring: Seq<Coord>) -> bool {
    forall|i: int, j: int|
        0 <= i < ring.len() - 1 && 0 <= j < ring.len() ==> turn(ring[i], #[trigger] ring[i + 1], #[trigger] ring[j]) >= 0
}

/// The exterior ring that `geo` computes for `points`.
pub uninterp spec fn hull_ring(points: Seq<Coord>) -> Seq<Coord>;

/// What holds of the closed exterior ring of the convex hull of `points`.
pub open spec fn is_hull_ring(points: Seq<Coord>, ring: Seq<Coord>) -> bool {
    &&& points.len() == 0 ==> ring.len() == 0
    &&& points.len() > 0 ==> ring.len() >= 2 && ring.first() == ring.last()
    &&& forall|i: int| 0 <= i < ring.len() ==> points.contains(#[trigger] ring[i])
    &&& forall|i: int| 0 <= i < points.len() ==> encloses(ring, #[trigger] points[i])
    &&& ring.len() > 0 ==> ring.drop_last().no_duplicates()
    &&& winds_left(ring)
}

/// `geo::ConvexHull::convex_hull` on a `geo::MultiPoint<i128>`, then
/// `exterior()`: the exterior ring of the hull polygon. Trusted: the ring is
/// empty for no points and otherwise closed (its last vertex repeats its
/// first); every vertex is one of `points`; every point lies on or inside the
/// ring; no vertex but the closing one occurs twice; the ring runs
/// counter-clockwise. With 128-bit coordinates no product of two coordinate
/// differences overflows.
#[verifier::external_body]
fn quick_hull_ring(points: &Vec<Coord>) -> (ring: Vec<Coord>)
    ensures
        ring@ == hull_ring(points@),
        is_hull_ring(points@, ring@),
{
    let multi_point: geo::MultiPoint<i128> = points
        .iter()
        .map(|c| geo::Point::new(c.lat as i128, c.lon as i128))
        .collect();
    let hull = multi_point.convex_hull();
    hull.exterior().coords().map(|c| Coord { lat: c.x as i32, lon: c.y as i32 }).collect()
}

/// A closed ring without its closing vertex.
pub open spec fn opened(ring: Seq<Coord>) -> Seq<Coord> {
    if ring.len() >= 2 && ring.first() == ring.last() {
        ring.drop_last()
    } else {
        ring
    }
}

/// Drops the closing vertex of a closed ring; any other sequence is returned
/// as it is.
pub fn open_ring(ring: Vec<Coord>) -> (hull: ConvexHull2)
    ensures
        hull@ == opened(ring@),
{
    let mut ring = ring;
    let n = ring.len();
    if n >= 2 && ring[0] == ring[n - 1] {
        ring.pop();
    }
    ConvexHull2(ring)
}

/// The vertex after `i` on the boundary `hull`, which closes on itself.
pub open spec fn successor(hull: Seq<Coord>, i: int) -> Coord {
    if i + 1 < hull.len() {
        hull[i + 1]
    } else {
        hull[0]
    }
}

/// `hull` is the convex boundary of `points`: its vertices are among the
/// points, every point lies on or inside it, no vertex is repeated, and the
/// vertices run counter-clockwise, so that none lies to the right of an edge.
pub open spec fn is_boundary(points: Seq<Coord>, hull: Seq<Coord>) -> bool {
    &&& forall|i: int| 0 <= i < hull.len() ==> points.contains(#[trigger] hull[i])
    &&& forall|i: int| 0 <= i < points.len() ==> encloses(hull, #[trigger] points[i])
    &&& hull.no_duplicates()
    &&& forall|i: int, j: int|
        0 <= i < hull.len() && 0 <= j < hull.len() ==> turn(
            hull[i],
            #[trigger] successor(hull, i),
            #[trigger] hull[j],
        ) >= 0
}

/// The boundary that is computed for `points`.
pub open spec fn boundary(points: Seq<Coord>) -> Seq<Coord> {
    opened(hull_ring(points))
}

/// A point that a set of points encloses is enclosed by every set that holds
/// them all.
pub proof fn lemma_encloses_more(fewer: Seq<Coord>, more: Seq<Coord>, p: Coord)
    requires
        encloses(fewer, p),
        forall|i: int| 0 <= i < fewer.len() ==> more.contains(#[trigger] fewer[i]),
    ensures
        encloses(more, p),
{
    assert forall|a: int, b: int, c: int|
        (forall|i: int| 0 <= i < more.len() ==> #[trigger] in_half_plane(a, b, c, more[i]))
            implies #[trigger] in_half_plane(a, b, c, p) by {
        assert forall|i: int| 0 <= i < fewer.len() implies #[trigger] in_half_plane(
            a,
            b,
            c,
            fewer[i],
        ) by {
            assert(more.contains(fewer[i]));
            let j = choose|j: int| 0 <= j < more.len() && more[j] == fewer[i];
            assert(in_half_plane(a, b, c, more[j]));
        }
    }
}

/// A point inside a boundary whose vertices all lie inside a second boundary
/// lies inside the second one.
pub proof fn lemma_encloses_nested(inner: Seq<Coord>, outer: Seq<Coord>, p: Coord)
    requires
        encloses(inner, p),
        forall|i: int| 0 <= i < inner.len() ==> encloses(outer, #[trigger] inner[i]),
    ensures
        encloses(outer, p),
{
    assert forall|a: int, b: int, c: int|
        (forall|i: int| 0 <= i < outer.len() ==> #[trigger] in_half_plane(a, b, c, outer[i]))
            implies #[trigger] in_half_plane(a, b, c, p) by {
        assert forall|i: int| 0 <= i < inner.len() implies #[trigger] in_half_plane(
            a,
            b,
            c,
            inner[i],
        ) by {
            assert(encloses(outer, inner[i]));
        }
    }
}

/// Opening the exterior ring of a hull gives the boundary of the points.
pub proof fn lemma_opened_ring(points: Seq<Coord>, ring: Seq<Coord>)
    requires
        is_hull_ring(points, ring),
    ensures
        is_boundary(points, opened(ring)),
{
    let hull = opened(ring);
    if points.len() > 0 {
        assert(hull == ring.drop_last());
        assert forall|i: int| 0 <= i < hull.len() implies points.contains(#[trigger] hull[i]) by {
            assert(hull[i] == ring[i]);
        }
        assert forall|i: int| 0 <= i < ring.len() implies hull.contains(#[trigger] ring[i]) by {
            if i < hull.len() {
                assert(hull[i] == ring[i]);
            } else {
                assert(hull[0] == ring[0]);
            }
        }
        assert forall|i: int| 0 <= i < points.len() implies encloses(hull, #[trigger] points[i]) by {
            lemma_encloses_more(ring, hull, points[i]);
        }
        assert forall|i: int, j: int| 0 <= i < hull.len() && 0 <= j < hull.len() implies turn(
            hull[i],
            #[trigger] successor(hull, i),
            #[trigger] hull[j],
        ) >= 0 by {
            assert(hull[i] == ring[i] && hull[j] == ring[j]);
            assert(successor(hull, i) == ring[i + 1]);
            assert(turn(ring[i], ring[i + 1], ring[j]) >= 0);
        }
    } else {
        assert(hull.len() == 0);
    }
}

/// The boundary of points that all lie at one place is that place alone.
pub proof fn lemma_boundary_of_one_place(points: Seq<Coord>, hull: Seq<Coord>, place: Coord)
    requires
        is_boundary(points, hull),
        points.len() > 0,
        forall|i: int| 0 <= i < points.len() ==> points[i] == place,
    ensures
        hull == seq![place],
{
    assert forall|i: int| 0 <= i < hull.len() implies hull[i] == place by {
        assert(points.contains(hull[i]));
    }
    if hull.len() == 0 {
        assert(encloses(hull, points[0]));
        assert(in_half_plane(0, 0, -1, points[0]));
    }
    if hull.len() > 1 {
        assert(hull[0] == hull[1]);
    }
    assert(hull =~= seq![place]);
}

/// A single place does not enclose another one.
proof fn lemma_apart_places(hull: Seq<Coord>, here: Coord, there: Coord)
    requires
        here != there,
        forall|i: int| 0 <= i < hull.len() ==> hull[i] == here,
    ensures
        !encloses(hull, there),
{
    let a = there.lat - here.lat;
    let b = there.lon - here.lon;
    let c = a * here.lat + b * here.lon;
    assert(a * there.lat + b * there.lon - c == a * a + b * b) by (nonlinear_arith)
        requires
            a == there.lat - here.lat,
            b == there.lon - here.lon,
            c == a * here.lat + b * here.lon,
    ;
    assert(a * a + b * b > 0) by (nonlinear_arith)
        requires
            a != 0 || b != 0,
    ;
    assert(!in_half_plane(a, b, c, there));
    assert forall|i: int| 0 <= i < hull.len() implies #[trigger] in_half_plane(a, b, c, hull[i]) by {}
}

/// The boundary of points that lie at two places is the two places.
pub proof fn lemma_boundary_of_two_places(
    points: Seq<Coord>,
    hull: Seq<Coord>,
    first: Coord,
    second: Coord,
)
    requires
        is_boundary(points, hull),
        first != second,
        points.contains(first),
        points.contains(second),
        forall|i: int| 0 <= i < points.len() ==> points[i] == first || points[i] == second,
    ensures
        hull == seq![first, second] || hull == seq![second, first],
{
    assert forall|i: int| 0 <= i < hull.len() implies hull[i] == first || hull[i] == second by {
        assert(points.contains(hull[i]));
    }
    let at_first = choose|i: int| 0 <= i < points.len() && points[i] == first;
    let at_second = choose|i: int| 0 <= i < points.len() && points[i] == second;
    assert(encloses(hull, points[at_first]) && encloses(hull, points[at_second]));
    if forall|i: int| 0 <= i < hull.len() ==> hull[i] == first {
        lemma_apart_places(hull, first, second);
    }
    if forall|i: int| 0 <= i < hull.len() ==> hull[i] == second {
        lemma_apart_places(hull, second, first);
    }
    if hull.len() > 2 {
        assert(hull[0] == hull[1] || hull[0] == hull[2] || hull[1] == hull[2]);
    }
    if hull[0] == first {
        assert(hull =~= seq![first, second]);
    } else {
        assert(hull =~= seq![second, first]);
    }
}

/// The convex boundary of `points`: the exterior ring of their convex hull
/// without its closing vertex. Fewer than three distinct points give the one
/// or two points themselves.
pub fn hull_of_points(points: &Vec<Coord>) -> (hull: ConvexHull2)
    ensures
        hull@ == boundary(points@),
        is_boundary(points@, hull@),
{
    let ring = quick_hull_ring(points);
    proof {
        lemma_opened_ring(points@, ring@);
    }
    open_ring(ring)
}

} // verus!
