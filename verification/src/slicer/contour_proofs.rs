//! What is true of every set of loops that chaining gives.
//!
//! The chaining is greedy, and which loops it finds depends on the order
//! of the segments. Whatever the order, each loop it gives is a real
//! closed walk along segments, and no segment is walked twice.

use vstd::prelude::*;
use crate::geometry::point::Point2;
use crate::geometry::polygon::next_corner;
use crate::geometry::segment::LineSegment2D;
use crate::slicer::contour::{
    assemble, assemble_from, chase, far_end, first_link, free_count, lemma_first_link_links,
    lemma_use_one, links,
};
use crate::units::EPSILON;

verus! {

/// `segment` has an end at `p`, and its other end is `q`.
pub open spec fn leads(segment: LineSegment2D, p: Point2, q: Point2) -> bool {
    ||| p.closer_than(segment.start, EPSILON as int) && q == segment.end
    ||| p.closer_than(segment.end, EPSILON as int) && q == segment.start
}

/// Some segment leads from `p` to `q`.
pub open spec fn joined(segments: Seq<LineSegment2D>, p: Point2, q: Point2) -> bool {
    exists|j: int| 0 <= j < segments.len() && leads(#[trigger] segments[j], p, q)
}

/// `p` is an end of one of the segments.
pub open spec fn is_end(segments: Seq<LineSegment2D>, p: Point2) -> bool {
    exists|j: int|
        0 <= j < segments.len() && ((#[trigger] segments[j]).start == p || segments[j].end == p)
}

/// Every point of `points` is an end of one of the segments.
pub open spec fn all_ends(segments: Seq<LineSegment2D>, points: Seq<Point2>) -> bool {
    forall|i: int| 0 <= i < points.len() ==> is_end(segments, #[trigger] points[i])
}

/// From every point of `points` but the last, a segment leads to the
/// next.
pub open spec fn is_walk(segments: Seq<LineSegment2D>, points: Seq<Point2>) -> bool {
    forall|i: int|
        0 <= i < points.len() - 1 ==> joined(segments, #[trigger] points[i], points[i + 1])
}

/// `points` is a walk, and from its last point a segment leads back to
/// where the walk began.
pub open spec fn is_closed_walk(segments: Seq<LineSegment2D>, points: Seq<Point2>) -> bool {
    &&& points.len() >= 1
    &&& is_walk(segments, points)
    &&& exists|q: Point2|
        #[trigger] joined(segments, points.last(), q) && q.closer_than(points[0], EPSILON as int)
}

/// No point of `points` but the first is within `EPSILON` of the
/// first: the loop does not come back to where it began before its
/// end, and its last point does not repeat its first.
pub open spec fn returns_only_at_end(points: Seq<Point2>) -> bool {
    forall|i: int|
        1 <= i < points.len() ==> !(#[trigger] points[i]).closer_than(points[0], EPSILON as int)
}

/// How many points the loops hold between them.
pub open spec fn point_total(loops: Seq<Seq<Point2>>) -> nat
    decreases loops.len(),
{
    if loops.len() == 0 {
        0
    } else {
        loops[0].len() + point_total(loops.drop_first())
    }
}

/// Where nothing is used, everything is free.
pub proof fn lemma_all_free(n: nat)
    ensures
        free_count(Seq::new(n, |i: int| false)) == n,
    decreases n,
{
    if n > 0 {
        assert(Seq::new(n, |i: int| false).drop_last() =~= Seq::new(
            (n - 1) as nat,
            |i: int| false,
        ));
        lemma_all_free((n - 1) as nat);
    }
}

/// A chain that closes was a walk all along, and has spent one segment
/// for each point it keeps beyond those it began with.
pub proof fn lemma_chase_walks(segments: Seq<LineSegment2D>, used: Seq<bool>, chain: Seq<Point2>)
    requires
        chain.len() >= 2,
        is_walk(segments, chain),
        all_ends(segments, chain),
        returns_only_at_end(chain.drop_last()),
    ensures
        free_count(chase(segments, used, chain).0) <= free_count(used),
        chase(segments, used, chain).0.len() == used.len(),
        chase(segments, used, chain).1 matches Some(points) ==> {
            &&& is_closed_walk(segments, points)
            &&& all_ends(segments, points)
            &&& returns_only_at_end(points)
            &&& points.len() + 1 + free_count(chase(segments, used, chain).0) == chain.len()
                + free_count(used)
        },
    decreases free_count(used),
{
    if chain.last().closer_than(chain[0], EPSILON as int) {
        let points = chain.drop_last();
        assert forall|i: int| 0 <= i < points.len() - 1 implies joined(
            segments,
            #[trigger] points[i],
            points[i + 1],
        ) by {
            assert(points[i] == chain[i] && points[i + 1] == chain[i + 1]);
        }
        assert(joined(segments, chain[chain.len() - 2], chain[chain.len() - 2 + 1]));
        assert(points.last() == chain[chain.len() - 2]);
        assert(joined(segments, points.last(), chain.last()));
        assert forall|i: int| 0 <= i < points.len() implies is_end(
            segments,
            #[trigger] points[i],
        ) by {
            assert(points[i] == chain[i]);
        }
    } else {
        let open = chain.last();
        let j = first_link(segments, used, open, 0);
        lemma_first_link_links(segments, used, open, 0);
        if j < segments.len() {
            lemma_use_one(used, j);
            let far = far_end(segments[j], open);
            let longer = chain.push(far);
            assert(links(segments, used, open, j));
            assert(leads(segments[j], open, far));
            assert forall|i: int| 0 <= i < longer.len() - 1 implies joined(
                segments,
                #[trigger] longer[i],
                longer[i + 1],
            ) by {
                if i < chain.len() - 1 {
                    assert(longer[i] == chain[i] && longer[i + 1] == chain[i + 1]);
                } else {
                    assert(longer[i] == open && longer[i + 1] == far);
                }
            }
            assert forall|i: int| 0 <= i < longer.len() implies is_end(
                segments,
                #[trigger] longer[i],
            ) by {
                if i < chain.len() {
                    assert(longer[i] == chain[i]);
                } else {
                    assert(segments[j].start == far || segments[j].end == far);
                }
            }
            assert(longer.drop_last() =~= chain);
            assert forall|i: int| 1 <= i < chain.len() implies !(#[trigger] chain[i]).closer_than(
                chain[0],
                EPSILON as int,
            ) by {
                if i < chain.len() - 1 {
                    assert(chain.drop_last()[i] == chain[i]);
                    assert(chain.drop_last()[0] == chain[0]);
                }
            }
            lemma_chase_walks(segments, used.update(j, true), longer);
        }
    }
}

/// Every loop found from `seed` onwards is a closed walk of at least
/// three points, and together the loops hold no more points than there
/// were segments left.
pub proof fn lemma_assemble_from_walks(segments: Seq<LineSegment2D>, used: Seq<bool>, seed: int)
    requires
        0 <= seed,
        used.len() == segments.len(),
    ensures
        forall|k: int|
            0 <= k < assemble_from(segments, used, seed).len() ==> {
                &&& (#[trigger] assemble_from(segments, used, seed)[k]).len() >= 3
                &&& is_closed_walk(segments, assemble_from(segments, used, seed)[k])
                &&& all_ends(segments, assemble_from(segments, used, seed)[k])
                &&& returns_only_at_end(assemble_from(segments, used, seed)[k])
            },
        point_total(assemble_from(segments, used, seed)) <= free_count(used),
    decreases segments.len() - seed,
{
    if seed >= segments.len() {
    } else if used[seed] {
        lemma_assemble_from_walks(segments, used, seed + 1);
    } else {
        let segment = segments[seed];
        let start = seq![segment.start, segment.end];
        let marked = used.update(seed, true);
        lemma_use_one(used, seed);
        assert(leads(segment, segment.start, segment.end));
        assert forall|i: int| 0 <= i < start.len() - 1 implies joined(
            segments,
            #[trigger] start[i],
            start[i + 1],
        ) by {
            assert(start[i] == segment.start && start[i + 1] == segment.end);
        }
        assert forall|i: int| 0 <= i < start.len() implies is_end(
            segments,
            #[trigger] start[i],
        ) by {
            assert(segments[seed].start == start[i] || segments[seed].end == start[i]);
        }
        assert(returns_only_at_end(start.drop_last()));
        lemma_chase_walks(segments, marked, start);
        let (after, found) = chase(segments, marked, start);
        let rest = assemble_from(segments, after, seed + 1);
        lemma_assemble_from_walks(segments, after, seed + 1);
        let all = assemble_from(segments, used, seed);
        match found {
            Some(points) => {
                if points.len() >= 3 {
                    assert(all == seq![points] + rest);
                    assert(all.drop_first() =~= rest);
                    assert forall|k: int| 0 <= k < all.len() implies {
                        &&& (#[trigger] all[k]).len() >= 3
                        &&& is_closed_walk(segments, all[k])
                        &&& all_ends(segments, all[k])
                        &&& returns_only_at_end(all[k])
                    } by {
                        if k > 0 {
                            assert(all[k] == rest[k - 1]);
                        }
                    }
                }
            },
            None => {},
        }
    }
}

/// Every loop that chaining gives has at least three points, each of
/// them an end of a segment, and is a closed walk along the segments
/// that comes back to its first point only at its end: the closing
/// point is not kept, so the last point does not repeat the first. And
/// since no segment is walked twice, the loops together hold no more
/// points than there are segments.
pub proof fn lemma_assembled_loops_are_closed_walks(segments: Seq<LineSegment2D>)
    ensures
        forall|k: int|
            0 <= k < assemble(segments).len() ==> {
                &&& (#[trigger] assemble(segments)[k]).len() >= 3
                &&& is_closed_walk(segments, assemble(segments)[k])
                &&& all_ends(segments, assemble(segments)[k])
                &&& returns_only_at_end(assemble(segments)[k])
                &&& !assemble(segments)[k].last().closer_than(assemble(segments)[k][0], EPSILON as int)
            },
        point_total(assemble(segments)) <= segments.len(),
        assemble(segments).len() * 3 <= segments.len(),
{
    let fresh = Seq::new(segments.len(), |i: int| false);
    lemma_all_free(segments.len());
    lemma_assemble_from_walks(segments, fresh, 0);
    lemma_three_points_each(assemble(segments));
}

/// Loops of three points or more hold at least three times as many
/// points as there are loops.
pub proof fn lemma_three_points_each(loops: Seq<Seq<Point2>>)
    requires
        forall|k: int| 0 <= k < loops.len() ==> (#[trigger] loops[k]).len() >= 3,
    ensures
        loops.len() * 3 <= point_total(loops),
    decreases loops.len(),
{
    if loops.len() > 0 {
        let rest = loops.drop_first();
        assert forall|k: int| 0 <= k < rest.len() implies (#[trigger] rest[k]).len() >= 3 by {
            assert(rest[k] == loops[k + 1]);
        }
        lemma_three_points_each(rest);
    }
}

/// No two points of `points` are within `EPSILON` of each other.
pub open spec fn all_apart(points: Seq<Point2>) -> bool {
    forall|i: int, j: int|
        0 <= i < points.len() && 0 <= j < points.len() && i != j ==> !(#[trigger] points[i])
            .closer_than(#[trigger] points[j], EPSILON as int)
}

/// The edges of the loop `points`, each from a corner to the next, in
/// the order of the corners.
pub open spec fn edges_of(points: Seq<Point2>) -> Seq<LineSegment2D> {
    Seq::new(
        points.len(),
        |i: int| LineSegment2D { start: points[i], end: points[next_corner(points, i)] },
    )
}

/// The first `m` corners met on the way round the loop, the first
/// corner coming again after the last.
pub open spec fn way_round(points: Seq<Point2>, m: nat) -> Seq<Point2> {
    Seq::new(
        m,
        |i: int|
            if i < points.len() {
                points[i]
            } else {
                points[0]
            },
    )
}

/// Where nothing before `target` links and `target` does, `target` is
/// the first link.
pub proof fn lemma_first_link_is(
    segments: Seq<LineSegment2D>,
    used: Seq<bool>,
    open: Point2,
    from: int,
    target: int,
)
    requires
        0 <= from <= target < segments.len(),
        forall|j: int| from <= j < target ==> !links(segments, used, open, j),
        links(segments, used, open, target),
    ensures
        first_link(segments, used, open, from) == target,
    decreases target - from,
{
    if from < target {
        lemma_first_link_is(segments, used, open, from + 1, target);
    }
}

/// Where every segment is used, no chain is begun.
pub proof fn lemma_nothing_left(segments: Seq<LineSegment2D>, used: Seq<bool>, seed: int)
    requires
        0 <= seed,
        used.len() == segments.len(),
        forall|j: int| 0 <= j < used.len() ==> used[j],
    ensures
        assemble_from(segments, used, seed).len() == 0,
    decreases segments.len() - seed,
{
    if seed < segments.len() {
        lemma_nothing_left(segments, used, seed + 1);
    }
}

/// Part of the way round a loop whose corners are all apart, the chain
/// goes on edge by edge until it has gone all the way round.
proof fn lemma_chase_goes_round(points: Seq<Point2>, k: int)
    requires
        points.len() >= 3,
        all_apart(points),
        0 <= k < points.len(),
    ensures
        chase(
            edges_of(points),
            Seq::new(points.len(), |i: int| i <= k),
            way_round(points, (k + 2) as nat),
        ) == (Seq::new(points.len(), |i: int| true), Some(points)),
    decreases points.len() - k,
{
    let n = points.len() as int;
    let segments = edges_of(points);
    let used = Seq::new(points.len(), |i: int| i <= k);
    let chain = way_round(points, (k + 2) as nat);
    assert(chain[0] == points[0]);
    if k == n - 1 {
        assert(chain.last() == points[0]);
        assert(chain.drop_last() =~= points);
        assert(used =~= Seq::new(points.len(), |i: int| true));
    } else {
        let open = points[k + 1];
        assert(chain.last() == open);
        assert(!open.closer_than(points[0], EPSILON as int));
        assert forall|j: int| 0 <= j < k + 1 implies !links(segments, used, open, j) by {}
        assert(segments[k + 1].start == open);
        assert(open.closer_than(open, EPSILON as int));
        assert(links(segments, used, open, k + 1));
        lemma_first_link_is(segments, used, open, 0, k + 1);
        let far = far_end(segments[k + 1], open);
        assert(far == points[next_corner(points, k + 1)]);
        assert(used.update(k + 1, true) =~= Seq::new(points.len(), |i: int| i <= k + 1));
        assert(chain.push(far) =~= way_round(points, (k + 3) as nat));
        lemma_chase_goes_round(points, k + 1);
    }
}

/// The edges of a loop whose corners are all apart are chained back
/// into that loop, and into nothing else.
pub proof fn lemma_edges_chain_back(points: Seq<Point2>)
    requires
        points.len() >= 3,
        all_apart(points),
    ensures
        assemble(edges_of(points)) == seq![points],
{
    let segments = edges_of(points);
    let fresh = Seq::new(segments.len(), |i: int| false);
    let start = seq![segments[0].start, segments[0].end];
    lemma_chase_goes_round(points, 0);
    assert(fresh.update(0, true) =~= Seq::new(points.len(), |i: int| i <= 0));
    assert(start =~= way_round(points, 2));
    let done = Seq::new(points.len(), |i: int| true);
    lemma_nothing_left(segments, done, 1);
    assert(assemble_from(segments, done, 1) =~= Seq::<Seq<Point2>>::empty());
    assert(seq![points] + Seq::<Seq<Point2>>::empty() =~= seq![points]);
}

/// Which segments are used while the chain is on its way round a loop
/// whose edges stand among others: all of those `before`, the first
/// `k + 1` edges of the loop, and of those after whatever `marks` says.
pub open spec fn used_on_the_way(before: nat, edges: nat, k: int, marks: Seq<bool>) -> Seq<bool> {
    Seq::new(
        before + edges + marks.len(),
        |i: int|
            if i < before {
                true
            } else if i < before + edges {
                i - before <= k
            } else {
                marks[i - before - edges]
            },
    )
}

/// The same as `lemma_chase_goes_round`, with the edges of the loop
/// standing after segments that are all used and before segments that
/// may be anything.
proof fn lemma_chase_goes_round_among(
    before: Seq<LineSegment2D>,
    points: Seq<Point2>,
    after: Seq<LineSegment2D>,
    marks: Seq<bool>,
    k: int,
)
    requires
        points.len() >= 3,
        all_apart(points),
        marks.len() == after.len(),
        0 <= k < points.len(),
    ensures
        chase(
            before + edges_of(points) + after,
            used_on_the_way(before.len(), points.len(), k, marks),
            way_round(points, (k + 2) as nat),
        ) == (
            used_on_the_way(before.len(), points.len(), points.len() - 1, marks),
            Some(points),
        ),
    decreases points.len() - k,
{
    let n = points.len() as int;
    let b = before.len() as int;
    let segments = before + edges_of(points) + after;
    let used = used_on_the_way(before.len(), points.len(), k, marks);
    let chain = way_round(points, (k + 2) as nat);
    assert(chain[0] == points[0]);
    assert forall|e: int| 0 <= e < n implies #[trigger] segments[b + e] == edges_of(points)[e] by {}
    if k == n - 1 {
        assert(chain.last() == points[0]);
        assert(chain.drop_last() =~= points);
    } else {
        let open = points[k + 1];
        assert(chain.last() == open);
        assert(!open.closer_than(points[0], EPSILON as int));
        assert forall|j: int| 0 <= j < b + k + 1 implies !links(segments, used, open, j) by {
            if j >= b {
                assert(segments[b + (j - b)] == edges_of(points)[j - b]);
            }
        }
        assert(segments[b + (k + 1)] == edges_of(points)[k + 1]);
        assert(segments[b + k + 1].start == open);
        assert(open.closer_than(open, EPSILON as int));
        assert(links(segments, used, open, b + k + 1));
        lemma_first_link_is(segments, used, open, 0, b + k + 1);
        let far = far_end(segments[b + k + 1], open);
        assert(far == points[next_corner(points, k + 1)]);
        assert(used.update(b + k + 1, true) =~= used_on_the_way(
            before.len(),
            points.len(),
            k + 1,
            marks,
        ));
        assert(chain.push(far) =~= way_round(points, (k + 3) as nat));
        lemma_chase_goes_round_among(before, points, after, marks, k + 1);
    }
}

/// Seeds that are used begin nothing.
proof fn lemma_used_seeds_are_skipped(
    segments: Seq<LineSegment2D>,
    used: Seq<bool>,
    from: int,
    to: int,
)
    requires
        0 <= from <= to <= segments.len(),
        used.len() == segments.len(),
        forall|j: int| from <= j < to ==> used[j],
    ensures
        assemble_from(segments, used, from) == assemble_from(segments, used, to),
    decreases to - from,
{
    if from < to {
        lemma_used_seeds_are_skipped(segments, used, from + 1, to);
    }
}

/// The edges of two loops, those of the one after those of the other,
/// are chained back into the two loops, where the corners of each loop
/// are all apart.
pub proof fn lemma_two_loops_chain_back(first: Seq<Point2>, second: Seq<Point2>)
    requires
        first.len() >= 3,
        second.len() >= 3,
        all_apart(first),
        all_apart(second),
    ensures
        assemble(edges_of(first) + edges_of(second)) == seq![first, second],
{
    let none = Seq::<LineSegment2D>::empty();
    let (ea, eb) = (edges_of(first), edges_of(second));
    let segments = ea + eb;
    let (na, nb) = (first.len(), second.len());
    let fresh = Seq::new(segments.len(), |i: int| false);
    let unmarked = Seq::new(nb, |i: int| false);
    let nothing = Seq::<bool>::empty();
    assert(none + ea + eb =~= segments);
    assert(ea + eb + none =~= segments);
    // The first loop.
    lemma_chase_goes_round_among(none, first, eb, unmarked, 0);
    assert(fresh.update(0, true) =~= used_on_the_way(0, na, 0, unmarked));
    assert(seq![segments[0].start, segments[0].end] =~= way_round(first, 2));
    let half = used_on_the_way(0, na, na - 1, unmarked);
    lemma_used_seeds_are_skipped(segments, half, 1, na as int);
    // The second loop.
    lemma_chase_goes_round_among(ea, second, none, nothing, 0);
    assert(segments[na as int] == eb[0]);
    assert(half.update(na as int, true) =~= used_on_the_way(na, nb, 0, nothing));
    assert(seq![segments[na as int].start, segments[na as int].end] =~= way_round(second, 2));
    let done = used_on_the_way(na, nb, nb - 1, nothing);
    lemma_nothing_left(segments, done, na as int + 1);
    let rest = assemble_from(segments, done, na as int + 1);
    assert(rest =~= Seq::<Seq<Point2>>::empty());
    assert(assemble_from(segments, half, na as int) =~= seq![second]);
    assert(seq![first] + seq![second] =~= seq![first, second]);
}

} // verus!
