//! Sorting the loops of one layer into solid islands and their holes.
//!
//! A loop that runs counter-clockwise bounds solid material; a loop that
//! runs clockwise bounds a hole. A hole belongs to the smallest
//! counter-clockwise loop around its first point. A clockwise loop that
//! no counter-clockwise loop surrounds is kept as the outline of an
//! island of its own, and so is a loop without area, which can hold
//! nothing: geometry is never thrown away here.

use vstd::prelude::*;
use crate::geometry::point::Point2;
use crate::geometry::polygon::{
    in_extent, is_extent_of, signed_area_doubled, surrounds, winds_clockwise,
    winds_counter_clockwise, Polygon,
};
use crate::slicer::contour::loops_of;

verus! {

/// A solid region of one layer: its outer boundary and the holes in it.
#[derive(Debug)]
pub struct Island {
    pub outline: Polygon,
    pub holes: Vec<Polygon>,
}

/// What an island holds, as plain mathematics.
pub struct IslandView {
    pub outline: Seq<Point2>,
    pub holes: Seq<Seq<Point2>>,
}

impl Clone for Island {
    fn clone(&self) -> (island: Island)
        ensures
            island@ == self@,
    {
        let holes: Vec<Polygon> = self.holes.clone();
        assert(loops_of(holes@) =~= loops_of(self.holes@));
        Island { outline: self.outline.clone(), holes }
    }
}

impl View for Island {
    type V = IslandView;

    open spec fn view(&self) -> IslandView {
        IslandView { outline: self.outline@, holes: loops_of(self.holes@) }
    }
}

/// The views of a sequence of islands.
pub open spec fn islands_of(islands: Seq<Island>) -> Seq<IslandView> {
    Seq::new(islands.len(), |i: int| islands[i]@)
}

/// `q` is no further left, right, up or down than some point of
/// `points`: it lies in the smallest upright rectangle around them.
pub open spec fn within_extent(points: Seq<Point2>, q: Point2) -> bool {
    &&& exists|i: int| 0 <= i < points.len() && (#[trigger] points[i]).x <= q.x
    &&& exists|i: int| 0 <= i < points.len() && (#[trigger] points[i]).x >= q.x
    &&& exists|i: int| 0 <= i < points.len() && (#[trigger] points[i]).y <= q.y
    &&& exists|i: int| 0 <= i < points.len() && (#[trigger] points[i]).y >= q.y
}

/// `outer` can be the boundary around `hole`: it runs counter-clockwise,
/// so that its signed area is positive, and the first point of `hole`
/// lies within its extent and inside it.
pub open spec fn can_hold(outer: Seq<Point2>, hole: Seq<Point2>) -> bool {
    &&& winds_counter_clockwise(outer)
    &&& hole.len() > 0
    &&& within_extent(outer, hole[0])
    &&& surrounds(outer, hole[0])
}

/// Among the first `n` loops, the one that holds loop `h` and has the
/// smallest area; of several with the smallest area, the first.
pub open spec fn container_among(loops: Seq<Seq<Point2>>, h: int, n: int) -> Option<int>
    decreases n,
{
    if n <= 0 {
        None
    } else {
        let before = container_among(loops, h, n - 1);
        let c = n - 1;
        if can_hold(loops[c], loops[h]) && (before is None || signed_area_doubled(loops[c])
            < signed_area_doubled(loops[before.unwrap()])) {
            Some(c)
        } else {
            before
        }
    }
}

/// The loop that loop `h` is a hole of, if there is one.
pub open spec fn container_of(loops: Seq<Seq<Point2>>, h: int) -> Option<int> {
    if winds_clockwise(loops[h]) {
        container_among(loops, h, loops.len() as int)
    } else {
        None
    }
}

/// Among the first `n` loops, the holes of loop `i`, in order.
pub open spec fn holes_among(loops: Seq<Seq<Point2>>, i: int, n: int) -> Seq<Seq<Point2>>
    decreases n,
{
    if n <= 0 {
        Seq::empty()
    } else {
        let before = holes_among(loops, i, n - 1);
        if container_of(loops, n - 1) == Some(i) {
            before.push(loops[n - 1])
        } else {
            before
        }
    }
}

/// The islands whose outlines are among the first `n` loops, in order.
pub open spec fn islands_among(loops: Seq<Seq<Point2>>, n: int) -> Seq<IslandView>
    decreases n,
{
    if n <= 0 {
        Seq::empty()
    } else {
        let before = islands_among(loops, n - 1);
        if container_of(loops, n - 1) is Some {
            before
        } else {
            before.push(
                IslandView {
                    outline: loops[n - 1],
                    holes: holes_among(loops, n - 1, loops.len() as int),
                },
            )
        }
    }
}

/// The islands that `loops` form: one for every loop that is not a hole,
/// in the order of the loops, each with its holes in the order of the
/// loops.
pub open spec fn classify_loops(loops: Seq<Seq<Point2>>) -> Seq<IslandView> {
    islands_among(loops, loops.len() as int)
}

/// The container chosen holds the hole, and nothing that holds the hole
/// is smaller, nor equally small and earlier.
pub proof fn lemma_container_is_smallest(loops: Seq<Seq<Point2>>, h: int, n: int)
    requires
        0 <= n <= loops.len(),
    ensures
        match container_among(loops, h, n) {
            Some(c) => {
                &&& 0 <= c < n
                &&& can_hold(loops[c], loops[h])
                &&& forall|d: int|
                    0 <= d < n && can_hold(#[trigger] loops[d], loops[h]) ==> {
                        ||| signed_area_doubled(loops[c]) < signed_area_doubled(loops[d])
                        ||| signed_area_doubled(loops[c]) == signed_area_doubled(loops[d]) && c
                            <= d
                    }
            },
            None => forall|d: int| 0 <= d < n ==> !can_hold(#[trigger] loops[d], loops[h]),
        },
    decreases n,
{
    if n > 0 {
        lemma_container_is_smallest(loops, h, n - 1);
    }
}

/// With the corners of the extent in hand, lying in the extent is a
/// matter of four comparisons.
pub proof fn lemma_within_extent(points: Seq<Point2>, lo: Point2, hi: Point2, q: Point2)
    requires
        points.len() > 0,
        is_extent_of(lo, hi, points),
    ensures
        within_extent(points, q) == in_extent(lo, hi, q),
{
    if in_extent(lo, hi, q) {
        let a = choose|i: int| 0 <= i < points.len() && (#[trigger] points[i]).x == lo.x;
        let b = choose|i: int| 0 <= i < points.len() && (#[trigger] points[i]).y == lo.y;
        let c = choose|i: int| 0 <= i < points.len() && (#[trigger] points[i]).x == hi.x;
        let d = choose|i: int| 0 <= i < points.len() && (#[trigger] points[i]).y == hi.y;
        assert(points[a].x <= q.x);
        assert(points[b].y <= q.y);
        assert(points[c].x >= q.x);
        assert(points[d].y >= q.y);
    }
}

/// Whether `outer` can be the boundary around a hole that begins at `q`.
fn holds_point(outer: &Polygon, q: &Point2) -> (b: bool)
    ensures
        b == (winds_counter_clockwise(outer@) && within_extent(outer@, *q) && surrounds(
            outer@,
            *q,
        )),
{
    if !outer.is_counter_clockwise() {
        return false;
    }
    let (lo, hi): (Point2, Point2) = outer.bounding_box();
    proof {
        lemma_within_extent(outer@, lo, hi, *q);
    }
    if !(lo.x <= q.x && q.x <= hi.x && lo.y <= q.y && q.y <= hi.y) {
        return false;
    }
    outer.contains_point(q)
}

/// The loop that polygon `h` is a hole of, if there is one.
fn find_container(polygons: &Vec<Polygon>, h: usize) -> (c: Option<usize>)
    requires
        h < polygons@.len(),
    ensures
        match c {
            Some(i) => container_of(loops_of(polygons@), h as int) == Some(i as int),
            None => container_of(loops_of(polygons@), h as int) is None,
        },
{
    let ghost loops = loops_of(polygons@);
    let hole: &Polygon = &polygons[h];
    assert(loops[h as int] == hole@);
    if !hole.is_clockwise() {
        return None;
    }
    assert(hole@.len() >= 3);
    let q: Point2 = hole.points[0];
    let mut best: Option<usize> = None;
    let mut best_area: i128 = 0;
    let mut c: usize = 0;
    while c < polygons.len()
        invariant
            0 <= c <= polygons@.len(),
            h < polygons@.len(),
            loops == loops_of(polygons@),
            hole@ == loops[h as int],
            hole@.len() >= 3,
            q == hole@[0],
            match best {
                Some(i) => container_among(loops, h as int, c as int) == Some(i as int) && i < c
                    && best_area == signed_area_doubled(loops[i as int]),
                None => container_among(loops, h as int, c as int) is None,
            },
        decreases polygons@.len() - c,
    {
        let outer: &Polygon = &polygons[c];
        assert(loops[c as int] == outer@);
        if holds_point(outer, &q) {
            let area: i128 = outer.signed_area_doubled();
            if best.is_none() || area < best_area {
                best = Some(c);
                best_area = area;
            }
        }
        c = c + 1;
    }
    best
}

/// Gathers the holes of polygon `i`.
fn gather_holes(polygons: &Vec<Polygon>, containers: &Vec<Option<usize>>, i: usize) -> (holes: Vec<
    Polygon,
>)
    requires
        containers@.len() == polygons@.len(),
        forall|j: int|
            0 <= j < polygons@.len() ==> match #[trigger] containers@[j] {
                Some(c) => container_of(loops_of(polygons@), j) == Some(c as int),
                None => container_of(loops_of(polygons@), j) is None,
            },
    ensures
        loops_of(holes@) == holes_among(loops_of(polygons@), i as int, polygons@.len() as int),
{
    let ghost loops = loops_of(polygons@);
    let mut holes: Vec<Polygon> = Vec::new();
    assert(loops_of(holes@) =~= Seq::<Seq<Point2>>::empty());
    let mut j: usize = 0;
    while j < polygons.len()
        invariant
            0 <= j <= polygons@.len(),
            containers@.len() == polygons@.len(),
            loops == loops_of(polygons@),
            forall|j: int|
                0 <= j < polygons@.len() ==> match #[trigger] containers@[j] {
                    Some(c) => container_of(loops, j) == Some(c as int),
                    None => container_of(loops, j) is None,
                },
            loops_of(holes@) == holes_among(loops, i as int, j as int),
        decreases polygons@.len() - j,
    {
        let ghost before = loops_of(holes@);
        match containers[j] {
            Some(c) => {
                if c == i {
                    let hole: Polygon = polygons[j].clone();
                    holes.push(hole);
                    assert(loops_of(holes@) =~= before.push(loops[j as int]));
                }
            },
            None => {},
        }
        j = j + 1;
    }
    holes
}

/// Sorts the closed loops of one layer into islands.
pub fn classify(polygons: &Vec<Polygon>) -> (islands: Vec<Island>)
    ensures
        islands_of(islands@) == classify_loops(loops_of(polygons@)),
        islands@.len() == classify_loops(loops_of(polygons@)).len(),
        forall|k: int|
            0 <= k < islands@.len() ==> (#[trigger] islands@[k])@ == classify_loops(
                loops_of(polygons@),
            )[k],
{
    let ghost loops = loops_of(polygons@);
    let n: usize = polygons.len();
    let mut containers: Vec<Option<usize>> = Vec::new();
    let mut h: usize = 0;
    while h < n
        invariant
            n == polygons@.len(),
            0 <= h <= n,
            loops == loops_of(polygons@),
            containers@.len() == h,
            forall|j: int|
                0 <= j < h ==> match #[trigger] containers@[j] {
                    Some(c) => container_of(loops, j) == Some(c as int),
                    None => container_of(loops, j) is None,
                },
        decreases n - h,
    {
        let c: Option<usize> = find_container(polygons, h);
        containers.push(c);
        h = h + 1;
    }
    let mut islands: Vec<Island> = Vec::new();
    assert(islands_of(islands@) =~= Seq::<IslandView>::empty());
    let mut i: usize = 0;
    while i < n
        invariant
            n == polygons@.len(),
            0 <= i <= n,
            loops == loops_of(polygons@),
            containers@.len() == n,
            forall|j: int|
                0 <= j < n ==> match #[trigger] containers@[j] {
                    Some(c) => container_of(loops, j) == Some(c as int),
                    None => container_of(loops, j) is None,
                },
            islands_of(islands@) == islands_among(loops, i as int),
        decreases n - i,
    {
        let ghost before = islands_of(islands@);
        if containers[i].is_none() {
            let holes: Vec<Polygon> = gather_holes(polygons, &containers, i);
            let outline: Polygon = polygons[i].clone();
            let island: Island = Island { outline, holes };
            islands.push(island);
            assert(islands_of(islands@) =~= before.push(
                IslandView {
                    outline: loops[i as int],
                    holes: holes_among(loops, i as int, loops.len() as int),
                },
            ));
        }
        i = i + 1;
    }
    assert forall|k: int| 0 <= k < islands@.len() implies (#[trigger] islands@[k])@
        == classify_loops(loops_of(polygons@))[k] by {
        assert(islands_of(islands@)[k] == islands@[k]@);
    }
    islands
}

} // verus!
