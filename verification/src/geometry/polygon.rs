//! Closed loops in a cutting plane: their area, their winding, and what
//! lies inside them.

use vstd::prelude::*;
use crate::geometry::point::Point2;
use crate::units::magnitude;

verus! {

/// A closed loop of points. The last point is joined to the first; the
/// first is not written again at the end.
#[derive(Debug)]
pub struct Polygon {
    pub points: Vec<Point2>,
}

impl Clone for Polygon {
    fn clone(&self) -> (p: Polygon)
        ensures
            p@ == self@,
    {
        Polygon { points: self.points.clone() }
    }
}

impl View for Polygon {
    type V = Seq<Point2>;

    open spec fn view(&self) -> Seq<Point2> {
        self.points@
    }
}

/// The corner that follows corner `i` on the way round the loop.
pub open spec fn next_corner(points: Seq<Point2>, i: int) -> int {
    if i + 1 == points.len() {
        0
    } else {
        i + 1
    }
}

/// What the edge leaving corner `i` adds to twice the signed area.
pub open spec fn edge_cross(points: Seq<Point2>, i: int) -> int {
    let j = next_corner(points, i);
    points[i].x * points[j].y - points[j].x * points[i].y
}

/// The sum of `edge_cross` over the first `n` edges.
pub open spec fn shoelace_sum(points: Seq<Point2>, n: int) -> int
    decreases n,
{
    if n <= 0 {
        0
    } else {
        shoelace_sum(points, n - 1) + edge_cross(points, n - 1)
    }
}

/// Twice the signed area of the loop: positive where it runs
/// counter-clockwise, negative where it runs clockwise. A loop of fewer
/// than three points has no area.
pub open spec fn signed_area_doubled(points: Seq<Point2>) -> int {
    if points.len() < 3 {
        0
    } else {
        shoelace_sum(points, points.len() as int)
    }
}

/// The area the loop encloses, in square grid units, rounded down.
pub open spec fn enclosed_area(points: Seq<Point2>) -> int {
    magnitude(signed_area_doubled(points)) / 2
}

/// The loop runs clockwise.
pub open spec fn winds_clockwise(points: Seq<Point2>) -> bool {
    signed_area_doubled(points) < 0
}

/// The loop runs counter-clockwise. A loop without area, such as one
/// that crosses itself into two equal halves, runs neither way.
pub open spec fn winds_counter_clockwise(points: Seq<Point2>) -> bool {
    signed_area_doubled(points) > 0
}

/// The ray that leaves `q` towards greater `x` passes through the edge
/// from `a` to `b`. An edge counts its lower end and not its upper one,
/// so a ray through a corner is counted once.
pub open spec fn ray_crosses(a: Point2, b: Point2, q: Point2) -> bool {
    &&& (a.y > q.y) != (b.y > q.y)
    &&& if b.y > a.y {
        (q.x - a.x) * (b.y - a.y) < (q.y - a.y) * (b.x - a.x)
    } else {
        (q.x - a.x) * (b.y - a.y) > (q.y - a.y) * (b.x - a.x)
    }
}

/// How many of the first `n` edges the ray from `q` passes through.
pub open spec fn crossings(points: Seq<Point2>, q: Point2, n: int) -> nat
    decreases n,
{
    if n <= 0 {
        0
    } else {
        let here: nat = if ray_crosses(points[n - 1], points[next_corner(points, n - 1)], q) {
            1
        } else {
            0
        };
        crossings(points, q, n - 1) + here
    }
}

/// `q` lies inside the loop: a ray from it passes through an odd number
/// of edges.
pub open spec fn surrounds(points: Seq<Point2>, q: Point2) -> bool {
    points.len() >= 3 && crossings(points, q, points.len() as int) % 2 == 1
}

/// `lo` and `hi` are the corners of the smallest upright rectangle around
/// `points`; around no points at all, both are the origin.
pub open spec fn is_extent_of(lo: Point2, hi: Point2, points: Seq<Point2>) -> bool {
    if points.len() == 0 {
        lo == (Point2 { x: 0, y: 0 }) && hi == (Point2 { x: 0, y: 0 })
    } else {
        &&& forall|i: int|
            0 <= i < points.len() ==> lo.x <= (#[trigger] points[i]).x <= hi.x && lo.y
                <= points[i].y <= hi.y
        &&& exists|i: int| 0 <= i < points.len() && (#[trigger] points[i]).x == lo.x
        &&& exists|i: int| 0 <= i < points.len() && (#[trigger] points[i]).y == lo.y
        &&& exists|i: int| 0 <= i < points.len() && (#[trigger] points[i]).x == hi.x
        &&& exists|i: int| 0 <= i < points.len() && (#[trigger] points[i]).y == hi.y
    }
}

/// `q` lies in the upright rectangle with corners `lo` and `hi`, its
/// border included.
pub open spec fn in_extent(lo: Point2, hi: Point2, q: Point2) -> bool {
    lo.x <= q.x <= hi.x && lo.y <= q.y <= hi.y
}

/// No edge adds more than `2^63` to the shoelace sum, either way.
pub proof fn lemma_edge_cross_bounded(points: Seq<Point2>, i: int)
    requires
        0 <= i < points.len(),
    ensures
        -0x8000_0000_0000_0000 <= edge_cross(points, i) <= 0x8000_0000_0000_0000,
{
    let j = next_corner(points, i);
    let (a, b, c, d) = (points[i].x as int, points[j].y as int, points[j].x as int, points[i].y as int);
    assert(-0x4000_0000_0000_0000 <= a * b <= 0x4000_0000_0000_0000) by (nonlinear_arith)
        requires
            -0x8000_0000 <= a <= 0x8000_0000,
            -0x8000_0000 <= b <= 0x8000_0000,
    ;
    assert(-0x4000_0000_0000_0000 <= c * d <= 0x4000_0000_0000_0000) by (nonlinear_arith)
        requires
            -0x8000_0000 <= c <= 0x8000_0000,
            -0x8000_0000 <= d <= 0x8000_0000,
    ;
}

/// The shoelace sum over `n` edges stays within `n * 2^63`.
pub proof fn lemma_shoelace_bounded(points: Seq<Point2>, n: int)
    requires
        0 <= n <= points.len(),
    ensures
        -n * 0x8000_0000_0000_0000 <= shoelace_sum(points, n) <= n * 0x8000_0000_0000_0000,
    decreases n,
{
    if n > 0 {
        lemma_shoelace_bounded(points, n - 1);
        lemma_edge_cross_bounded(points, n - 1);
    }
}

/// What the edge leaving corner `i` adds to the trapezoid sum: the run
/// of the edge times the sum of the heights of its ends.
pub open spec fn edge_trapezoid(points: Seq<Point2>, i: int) -> int {
    let j = next_corner(points, i);
    (points[j].x - points[i].x) * (points[j].y + points[i].y)
}

/// The sum of `edge_trapezoid` over the first `n` edges.
pub open spec fn trapezoid_sum(points: Seq<Point2>, n: int) -> int
    decreases n,
{
    if n <= 0 {
        0
    } else {
        trapezoid_sum(points, n - 1) + edge_trapezoid(points, n - 1)
    }
}

/// Before the loop closes, the trapezoid sum and the shoelace sum differ
/// by what the first and the latest corner span with the origin.
proof fn lemma_trapezoid_prefix(points: Seq<Point2>, n: int)
    requires
        0 <= n < points.len(),
    ensures
        trapezoid_sum(points, n) + shoelace_sum(points, n) == points[n].x * points[n].y
            - points[0].x * points[0].y,
    decreases n,
{
    if n > 0 {
        lemma_trapezoid_prefix(points, n - 1);
        let (a, b) = (points[n - 1], points[n]);
        assert((b.x - a.x) * (b.y + a.y) + (a.x * b.y - b.x * a.y) == b.x * b.y - a.x * a.y)
            by (nonlinear_arith);
    }
}

/// Summed round the whole loop, the trapezoids give the shoelace sum
/// with its sign changed: a loop runs clockwise exactly where its
/// trapezoid sum is positive.
pub proof fn lemma_trapezoids_negate_shoelace(points: Seq<Point2>)
    requires
        points.len() >= 1,
    ensures
        trapezoid_sum(points, points.len() as int) == -shoelace_sum(points, points.len() as int),
        points.len() >= 3 ==> (winds_clockwise(points) <==> trapezoid_sum(
            points,
            points.len() as int,
        ) > 0),
{
    let n = points.len() as int;
    lemma_trapezoid_prefix(points, n - 1);
    let (a, b) = (points[n - 1], points[0]);
    assert((b.x - a.x) * (b.y + a.y) + (a.x * b.y - b.x * a.y) == b.x * b.y - a.x * a.y)
        by (nonlinear_arith);
}

/// `back` is `points` walked the other way round.
pub open spec fn is_reverse_of(back: Seq<Point2>, points: Seq<Point2>) -> bool {
    &&& back.len() == points.len()
    &&& forall|i: int| 0 <= i < points.len() ==> back[i] == points[points.len() - 1 - i]
}

/// The first `m` edges of the reversed loop are the last `m` edges of
/// the loop before its closing edge, each taken backwards.
proof fn lemma_reverse_prefix(points: Seq<Point2>, back: Seq<Point2>, m: int)
    requires
        is_reverse_of(back, points),
        0 <= m < points.len(),
    ensures
        shoelace_sum(back, m) == shoelace_sum(points, points.len() - 1 - m) - shoelace_sum(
            points,
            points.len() - 1,
        ),
    decreases m,
{
    if m > 0 {
        lemma_reverse_prefix(points, back, m - 1);
        let n = points.len() as int;
        let t = n - 1 - m;
        assert(back[m - 1] == points[t + 1]);
        assert(back[m] == points[t]);
        assert(next_corner(back, m - 1) == m);
        assert(next_corner(points, t) == t + 1);
        assert(edge_cross(back, m - 1) == -edge_cross(points, t));
        assert(shoelace_sum(points, t + 1) == shoelace_sum(points, t) + edge_cross(points, t));
    }
}

/// Walking a loop the other way round changes the sign of its area and
/// nothing else: what ran counter-clockwise runs clockwise.
pub proof fn lemma_reverse_negates_area(points: Seq<Point2>, back: Seq<Point2>)
    requires
        is_reverse_of(back, points),
    ensures
        signed_area_doubled(back) == -signed_area_doubled(points),
        enclosed_area(back) == enclosed_area(points),
{
    let n = points.len() as int;
    if n >= 3 {
        lemma_reverse_prefix(points, back, n - 1);
        assert(back[n - 1] == points[0]);
        assert(back[0] == points[n - 1]);
        assert(next_corner(back, n - 1) == 0);
        assert(next_corner(points, n - 1) == 0);
        assert(edge_cross(back, n - 1) == -edge_cross(points, n - 1));
        assert(shoelace_sum(points, 0) == 0);
    }
}

impl Polygon {
    pub fn new(points: Vec<Point2>) -> (p: Polygon)
        ensures
            p@ == points@,
    {
        Polygon { points }
    }

    /// The loop has at least three points and its last point is less than
    /// `tolerance` from its first.
    pub open spec fn closed_within(self, tolerance: int) -> bool {
        self@.len() >= 3 && self@[0].closer_than(self@[self@.len() - 1], tolerance)
    }

    /// Whether the point list returns to where it began.
    pub fn is_closed(&self, tolerance: i64) -> (b: bool)
        ensures
            b == self.closed_within(tolerance as int),
    {
        let n: usize = self.points.len();
        if n < 3 {
            return false;
        }
        self.points[0].is_closer_than(&self.points[n - 1], tolerance)
    }

    /// Twice the signed area of the loop, exactly.
    pub fn signed_area_doubled(&self) -> (a: i128)
        ensures
            a == signed_area_doubled(self@),
    {
        let n: usize = self.points.len();
        if n < 3 {
            return 0;
        }
        let mut sum: i128 = 0;
        let mut i: usize = 0;
        while i < n
            invariant
                n == self.points.len(),
                0 <= i <= n,
                sum == shoelace_sum(self@, i as int),
            decreases n - i,
        {
            let j: usize = if i + 1 == n {
                0
            } else {
                i + 1
            };
            let p: Point2 = self.points[i];
            let q: Point2 = self.points[j];
            proof {
                lemma_shoelace_bounded(self@, i as int);
                lemma_shoelace_bounded(self@, i as int + 1);
                lemma_edge_cross_bounded(self@, i as int);
                assert(j == next_corner(self@, i as int));
                let (a, b, c, d) = (p.x as int, q.y as int, q.x as int, p.y as int);
                assert(-0x4000_0000_0000_0000 <= a * b <= 0x4000_0000_0000_0000)
                    by (nonlinear_arith)
                    requires
                        -0x8000_0000 <= a <= 0x8000_0000,
                        -0x8000_0000 <= b <= 0x8000_0000,
                ;
                assert(-0x4000_0000_0000_0000 <= c * d <= 0x4000_0000_0000_0000)
                    by (nonlinear_arith)
                    requires
                        -0x8000_0000 <= c <= 0x8000_0000,
                        -0x8000_0000 <= d <= 0x8000_0000,
                ;
            }
            let forward: i128 = (p.x as i128) * (q.y as i128);
            let backward: i128 = (q.x as i128) * (p.y as i128);
            sum = sum + (forward - backward);
            i = i + 1;
        }
        sum
    }

    /// The area the loop encloses, in square grid units, rounded down.
    pub fn area(&self) -> (a: i128)
        ensures
            a == enclosed_area(self@),
    {
        let n: usize = self.points.len();
        let doubled: i128 = self.signed_area_doubled();
        proof {
            if n >= 3 {
                lemma_shoelace_bounded(self@, n as int);
            }
        }
        if doubled < 0 {
            (-doubled) / 2
        } else {
            doubled / 2
        }
    }

    /// Whether the loop runs clockwise.
    pub fn is_clockwise(&self) -> (b: bool)
        ensures
            b == winds_clockwise(self@),
    {
        self.signed_area_doubled() < 0
    }

    /// Whether the loop runs counter-clockwise.
    pub fn is_counter_clockwise(&self) -> (b: bool)
        ensures
            b == winds_counter_clockwise(self@),
    {
        self.signed_area_doubled() > 0
    }

    /// The corners of the smallest upright rectangle around the loop.
    pub fn bounding_box(&self) -> (r: (Point2, Point2))
        ensures
            is_extent_of(r.0, r.1, self@),
    {
        let n: usize = self.points.len();
        if n == 0 {
            return (Point2::origin(), Point2::origin());
        }
        let mut lo: Point2 = self.points[0];
        let mut hi: Point2 = self.points[0];
        let ghost mut at_lo_x: int = 0;
        let ghost mut at_lo_y: int = 0;
        let ghost mut at_hi_x: int = 0;
        let ghost mut at_hi_y: int = 0;
        let mut i: usize = 1;
        while i < n
            invariant
                n == self.points.len(),
                1 <= i <= n,
                forall|j: int|
                    0 <= j < i ==> lo.x <= (#[trigger] self@[j]).x <= hi.x && lo.y <= self@[j].y
                        <= hi.y,
                0 <= at_lo_x < i && self@[at_lo_x].x == lo.x,
                0 <= at_lo_y < i && self@[at_lo_y].y == lo.y,
                0 <= at_hi_x < i && self@[at_hi_x].x == hi.x,
                0 <= at_hi_y < i && self@[at_hi_y].y == hi.y,
            decreases n - i,
        {
            let p: Point2 = self.points[i];
            if p.x < lo.x {
                lo.x = p.x;
                proof {
                    at_lo_x = i as int;
                }
            }
            if p.y < lo.y {
                lo.y = p.y;
                proof {
                    at_lo_y = i as int;
                }
            }
            if p.x > hi.x {
                hi.x = p.x;
                proof {
                    at_hi_x = i as int;
                }
            }
            if p.y > hi.y {
                hi.y = p.y;
                proof {
                    at_hi_y = i as int;
                }
            }
            i = i + 1;
        }
        (lo, hi)
    }

    /// Whether `q` lies inside the loop.
    pub fn contains_point(&self, q: &Point2) -> (b: bool)
        ensures
            b == surrounds(self@, *q),
    {
        let n: usize = self.points.len();
        if n < 3 {
            return false;
        }
        let mut inside: bool = false;
        let mut i: usize = 0;
        while i < n
            invariant
                n == self.points.len(),
                0 <= i <= n,
                inside == (crossings(self@, *q, i as int) % 2 == 1),
            decreases n - i,
        {
            let j: usize = if i + 1 == n {
                0
            } else {
                i + 1
            };
            let a: Point2 = self.points[i];
            let b: Point2 = self.points[j];
            assert(j == next_corner(self@, i as int));
            if edge_is_crossed(&a, &b, q) {
                inside = !inside;
            }
            i = i + 1;
        }
        inside
    }
}

/// Whether the ray that leaves `q` towards greater `x` passes through the
/// edge from `a` to `b`.
pub fn edge_is_crossed(a: &Point2, b: &Point2, q: &Point2) -> (r: bool)
    ensures
        r == ray_crosses(*a, *b, *q),
{
    if (a.y > q.y) == (b.y > q.y) {
        return false;
    }
    let qx: i128 = q.x as i128 - a.x as i128;
    let qy: i128 = q.y as i128 - a.y as i128;
    let ex: i128 = b.x as i128 - a.x as i128;
    let ey: i128 = b.y as i128 - a.y as i128;
    proof {
        lemma_product_of_differences_bounded(qx as int, ey as int);
        lemma_product_of_differences_bounded(qy as int, ex as int);
    }
    let left: i128 = qx * ey;
    let right: i128 = qy * ex;
    if ey > 0 {
        left < right
    } else {
        left > right
    }
}

/// The product of two coordinate differences fits in 65 bits.
pub proof fn lemma_product_of_differences_bounded(u: int, v: int)
    requires
        -0xffff_ffff <= u <= 0xffff_ffff,
        -0xffff_ffff <= v <= 0xffff_ffff,
    ensures
        -0xffff_ffff * 0xffff_ffff <= u * v <= 0xffff_ffff * 0xffff_ffff,
{
    assert(-0xffff_ffff * 0xffff_ffff <= u * v <= 0xffff_ffff * 0xffff_ffff) by (nonlinear_arith)
        requires
            -0xffff_ffff <= u <= 0xffff_ffff,
            -0xffff_ffff <= v <= 0xffff_ffff,
    ;
}

} // verus!
