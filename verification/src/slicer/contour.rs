//! Chaining the cuts of one plane into closed loops.
//!
//! The segments arrive in no useful order. A chain is started from the
//! first segment not yet used and grown at its open end by the first
//! unused segment that touches that end, until the open end comes back to
//! where the chain began. A chain that finds no continuation before it
//! closes is dropped, and so is a closed one of fewer than three points.

use vstd::prelude::*;
use crate::geometry::point::Point2;
use crate::geometry::polygon::Polygon;
use crate::geometry::segment::LineSegment2D;
use crate::units::EPSILON;

verus! {

/// The point lists of a sequence of polygons.
pub open spec fn loops_of(polygons: Seq<Polygon>) -> Seq<Seq<Point2>> {
    Seq::new(polygons.len(), |i: int| polygons[i]@)
}

/// How many entries of `used` are still unset.
pub open spec fn free_count(used: Seq<bool>) -> nat
    decreases used.len(),
{
    if used.len() == 0 {
        0
    } else {
        free_count(used.drop_last()) + if used.last() {
            0nat
        } else {
            1nat
        }
    }
}

/// Segment `j` is unused and has an end at `open`.
pub open spec fn links(segments: Seq<LineSegment2D>, used: Seq<bool>, open: Point2, j: int) -> bool {
    &&& 0 <= j < segments.len()
    &&& j < used.len()
    &&& !used[j]
    &&& (open.closer_than(segments[j].start, EPSILON as int) || open.closer_than(
        segments[j].end,
        EPSILON as int,
    ))
}

/// The first segment at or after `from` that links to `open`, or the
/// number of segments where there is none.
pub open spec fn first_link(
    segments: Seq<LineSegment2D>,
    used: Seq<bool>,
    open: Point2,
    from: int,
) -> int
    decreases segments.len() - from,
{
    if from >= segments.len() {
        segments.len() as int
    } else if links(segments, used, open, from) {
        from
    } else {
        first_link(segments, used, open, from + 1)
    }
}

/// The end of `segment` away from `open`. Where both ends touch `open`,
/// the start is taken to be the touching one.
pub open spec fn far_end(segment: LineSegment2D, open: Point2) -> Point2 {
    if open.closer_than(segment.start, EPSILON as int) {
        segment.end
    } else {
        segment.start
    }
}

/// Using up an unused segment leaves one fewer.
pub proof fn lemma_use_one(used: Seq<bool>, j: int)
    requires
        0 <= j < used.len(),
        !used[j],
    ensures
        free_count(used.update(j, true)) + 1 == free_count(used),
    decreases used.len(),
{
    let after = used.update(j, true);
    if j == used.len() - 1 {
        assert(after.drop_last() =~= used.drop_last());
    } else {
        assert(after.drop_last() =~= used.drop_last().update(j, true));
        lemma_use_one(used.drop_last(), j);
    }
}

/// A link found is a link: within range, unused, and touching.
pub proof fn lemma_first_link_links(
    segments: Seq<LineSegment2D>,
    used: Seq<bool>,
    open: Point2,
    from: int,
)
    requires
        0 <= from,
    ensures
        from <= first_link(segments, used, open, from) <= segments.len() || from > segments.len(),
        first_link(segments, used, open, from) < segments.len() ==> links(
            segments,
            used,
            open,
            first_link(segments, used, open, from),
        ),
        forall|j: int|
            from <= j < first_link(segments, used, open, from) ==> !links(segments, used, open, j),
    decreases segments.len() - from,
{
    if from < segments.len() && !links(segments, used, open, from) {
        lemma_first_link_links(segments, used, open, from + 1);
    }
}

/// Grows `chain` until it closes or can grow no further. Gives the
/// segments used up by then and, where the chain closed, its points
/// without the closing one.
pub open spec fn chase(segments: Seq<LineSegment2D>, used: Seq<bool>, chain: Seq<Point2>) -> (
    Seq<bool>,
    Option<Seq<Point2>>,
)
    decreases free_count(used),
    via chase_terminates
{
    if chain.len() == 0 {
        (used, None)
    } else if chain.last().closer_than(chain[0], EPSILON as int) {
        (used, Some(chain.drop_last()))
    } else {
        let j = first_link(segments, used, chain.last(), 0);
        if j >= segments.len() {
            (used, None)
        } else {
            chase(segments, used.update(j, true), chain.push(far_end(segments[j], chain.last())))
        }
    }
}

#[via_fn]
proof fn chase_terminates(segments: Seq<LineSegment2D>, used: Seq<bool>, chain: Seq<Point2>) {
    if chain.len() > 0 {
        let j = first_link(segments, used, chain.last(), 0);
        lemma_first_link_links(segments, used, chain.last(), 0);
        if j < segments.len() {
            lemma_use_one(used, j);
        }
    }
}

/// The closed loops found when chains are started from segment `seed`
/// onwards, with `used` telling which segments are already spent.
pub open spec fn assemble_from(segments: Seq<LineSegment2D>, used: Seq<bool>, seed: int) -> Seq<
    Seq<Point2>,
>
    decreases segments.len() - seed,
{
    if seed < 0 || seed >= segments.len() {
        Seq::empty()
    } else if seed >= used.len() || used[seed] {
        assemble_from(segments, used, seed + 1)
    } else {
        let start = seq![segments[seed].start, segments[seed].end];
        let (after, found) = chase(segments, used.update(seed, true), start);
        let rest = assemble_from(segments, after, seed + 1);
        match found {
            Some(points) => if points.len() >= 3 {
                seq![points] + rest
            } else {
                rest
            },
            None => rest,
        }
    }
}

/// The closed loops that `segments` trace, in the order of the segments
/// that start them.
pub open spec fn assemble(segments: Seq<LineSegment2D>) -> Seq<Seq<Point2>> {
    assemble_from(segments, Seq::new(segments.len(), |i: int| false), 0)
}

/// The first unused segment that has an end at `open`, or the number of
/// segments where there is none.
fn find_link(segments: &Vec<LineSegment2D>, used: &Vec<bool>, open: &Point2) -> (j: usize)
    requires
        used@.len() == segments@.len(),
    ensures
        j == first_link(segments@, used@, *open, 0),
        j <= segments@.len(),
{
    let mut j: usize = 0;
    while j < segments.len()
        invariant
            0 <= j <= segments@.len(),
            used@.len() == segments@.len(),
            first_link(segments@, used@, *open, 0) == first_link(segments@, used@, *open, j as int),
        decreases segments@.len() - j,
    {
        if !used[j] && (open.is_closer_than(&segments[j].start, EPSILON) || open.is_closer_than(
            &segments[j].end,
            EPSILON,
        )) {
            return j;
        }
        j = j + 1;
    }
    j
}

/// Grows `chain` until it closes or can grow no further, marking in
/// `used` the segments it takes.
fn follow_chain(segments: &Vec<LineSegment2D>, used: &mut Vec<bool>, start: Vec<Point2>) -> (found:
    Option<Vec<Point2>>)
    requires
        old(used)@.len() == segments@.len(),
        start@.len() > 0,
    ensures
        final(used)@ == chase(segments@, old(used)@, start@).0,
        final(used)@.len() == segments@.len(),
        match found {
            Some(points) => chase(segments@, old(used)@, start@).1 == Some(points@),
            None => chase(segments@, old(used)@, start@).1 is None,
        },
{
    let ghost goal = chase(segments@, old(used)@, start@);
    let mut chain: Vec<Point2> = start;
    loop
        invariant
            used@.len() == segments@.len(),
            chain@.len() > 0,
            chase(segments@, used@, chain@) == goal,
            goal == chase(segments@, old(used)@, start@),
        decreases free_count(used@),
    {
        let open: Point2 = chain[chain.len() - 1];
        if open.is_closer_than(&chain[0], EPSILON) {
            chain.pop();
            return Some(chain);
        }
        let j: usize = find_link(segments, used, &open);
        if j >= segments.len() {
            return None;
        }
        proof {
            lemma_first_link_links(segments@, used@, open, 0);
            lemma_use_one(used@, j as int);
        }
        let segment: LineSegment2D = segments[j];
        let far: Point2 = if open.is_closer_than(&segment.start, EPSILON) {
            segment.end
        } else {
            segment.start
        };
        used.set(j, true);
        chain.push(far);
    }
}

/// Chains `segments` into closed loops.
pub fn build_contours(segments: &Vec<LineSegment2D>) -> (polygons: Vec<Polygon>)
    ensures
        loops_of(polygons@) == assemble(segments@),
        polygons@.len() == assemble(segments@).len(),
        forall|k: int| 0 <= k < polygons@.len() ==> (#[trigger] polygons@[k])@ == assemble(segments@)[k],
{
    let n: usize = segments.len();
    let mut used: Vec<bool> = Vec::new();
    let mut k: usize = 0;
    while k < n
        invariant
            0 <= k <= n,
            used@.len() == k,
            forall|i: int| 0 <= i < k ==> !used@[i],
        decreases n - k,
    {
        used.push(false);
        k = k + 1;
    }
    assert(used@ =~= Seq::new(segments@.len(), |i: int| false));
    let mut polygons: Vec<Polygon> = Vec::new();
    assert(loops_of(polygons@) + assemble(segments@) =~= assemble(segments@));
    let mut seed: usize = 0;
    while seed < n
        invariant
            n == segments@.len(),
            0 <= seed <= n,
            used@.len() == n,
            loops_of(polygons@) + assemble_from(segments@, used@, seed as int) == assemble(
                segments@,
            ),
        decreases n - seed,
    {
        if !used[seed] {
            let ghost before = loops_of(polygons@);
            let ghost marked = used@.update(seed as int, true);
            used.set(seed, true);
            let segment: LineSegment2D = segments[seed];
            let mut chain: Vec<Point2> = Vec::new();
            chain.push(segment.start);
            chain.push(segment.end);
            assert(chain@ =~= seq![segment.start, segment.end]);
            let found: Option<Vec<Point2>> = follow_chain(segments, &mut used, chain);
            let ghost rest = assemble_from(segments@, used@, seed as int + 1);
            match found {
                Some(points) => {
                    if points.len() >= 3 {
                        let polygon: Polygon = Polygon::new(points);
                        polygons.push(polygon);
                        assert(loops_of(polygons@) =~= before.push(points@));
                        assert(before.push(points@) + rest =~= before + (seq![points@] + rest));
                    }
                },
                None => {},
            }
        }
        seed = seed + 1;
    }
    assert(loops_of(polygons@) + Seq::<Seq<Point2>>::empty() =~= loops_of(polygons@));
    assert forall|k: int| 0 <= k < polygons@.len() implies (#[trigger] polygons@[k])@ == assemble(
        segments@,
    )[k] by {
        assert(loops_of(polygons@)[k] == polygons@[k]@);
    }
    polygons
}

} // verus!
