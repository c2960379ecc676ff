//! Chaining does not depend on the order in which the segments come,
//! nor on the direction in which each is given.
//!
//! The edges of a loop whose corners are all apart, shuffled and turned
//! at will, are chained back into that loop: walked from the segment
//! that happens to come first, in the direction that segment happens to
//! have.

use vstd::prelude::*;
use crate::geometry::point::Point2;
use crate::geometry::polygon::{
    crossings, edge_cross, enclosed_area, is_reverse_of, lemma_reverse_negates_area, next_corner,
    ray_crosses, shoelace_sum, signed_area_doubled, surrounds,
};
use crate::geometry::segment::LineSegment2D;
use crate::slicer::contour::{
    assemble, assemble_from, chase, far_end, first_link, links,
};
use crate::slicer::contour_proofs::{
    all_apart, edges_of, lemma_first_link_is, lemma_nothing_left,
};
use crate::slicer::island::{classify_loops, within_extent, IslandView};
use crate::slicer::island_proofs::lemma_single_loop_is_one_island;
use crate::units::EPSILON;

verus! {

/// The corner `i` steps on from corner `c`, on the way round a loop of
/// `n` corners.
pub open spec fn ahead(n: int, c: int, i: int) -> int {
    if c + i < n {
        c + i
    } else {
        c + i - n
    }
}

/// How many steps on from corner `c` corner `e` lies.
pub open spec fn steps_from(n: int, c: int, e: int) -> int {
    if e >= c {
        e - c
    } else {
        e - c + n
    }
}

/// The loop `points` walked from its corner `c`.
pub open spec fn walked_from(points: Seq<Point2>, c: int) -> Seq<Point2> {
    Seq::new(points.len(), |i: int| points[ahead(points.len() as int, c, i)])
}

/// The first `m` corners met on the way round the loop from corner `c`,
/// corner `c` coming again after the last.
pub open spec fn way_round_from(points: Seq<Point2>, c: int, m: nat) -> Seq<Point2> {
    Seq::new(m, |i: int| points[ahead(points.len() as int, c, i)])
}

/// `segments` are the edges of the loop `points`, each once, in any
/// order and each in either direction: segment `j` is edge `edge[j]`,
/// and edge `e` is segment `place[e]`.
pub open spec fn are_edges_of(
    segments: Seq<LineSegment2D>,
    points: Seq<Point2>,
    edge: Seq<int>,
    place: Seq<int>,
) -> bool {
    &&& segments.len() == points.len()
    &&& edge.len() == points.len()
    &&& place.len() == points.len()
    &&& forall|j: int|
        0 <= j < segments.len() ==> {
            &&& 0 <= #[trigger] edge[j] < points.len()
            &&& place[edge[j]] == j
            &&& (segments[j] == edges_of(points)[edge[j]] || segments[j] == edges_of(
                points,
            )[edge[j]].reversed())
        }
    &&& forall|e: int|
        0 <= e < points.len() ==> 0 <= #[trigger] place[e] < points.len() && edge[place[e]] == e
}

/// Which segments are used when the chain has gone `k + 1` edges on
/// from corner `c`.
pub open spec fn used_after(n: int, c: int, k: int, edge: Seq<int>) -> Seq<bool> {
    Seq::new(n as nat, |j: int| steps_from(n, c, edge[j]) <= k)
}

/// Part of the way round, the chain goes on along the one unused
/// segment at its open end, wherever that segment stands and whichever
/// way it is given, until it has gone all the way round.
proof fn lemma_chase_goes_round_in_any_order(
    segments: Seq<LineSegment2D>,
    points: Seq<Point2>,
    edge: Seq<int>,
    place: Seq<int>,
    c: int,
    k: int,
)
    requires
        points.len() >= 3,
        all_apart(points),
        are_edges_of(segments, points, edge, place),
        0 <= c < points.len(),
        0 <= k < points.len(),
    ensures
        chase(
            segments,
            used_after(points.len() as int, c, k, edge),
            way_round_from(points, c, (k + 2) as nat),
        ) == (Seq::new(points.len(), |j: int| true), Some(walked_from(points, c))),
    decreases points.len() - k,
{
    let n = points.len() as int;
    let used = used_after(n, c, k, edge);
    let chain = way_round_from(points, c, (k + 2) as nat);
    assert(chain[0] == points[c]);
    if k == n - 1 {
        assert(chain.last() == points[c]);
        assert(points[c].closer_than(points[c], EPSILON as int));
        assert(chain.drop_last() =~= walked_from(points, c));
        assert(used =~= Seq::new(points.len(), |j: int| true));
    } else {
        let m = ahead(n, c, k + 1);
        let open = points[m];
        assert(chain.last() == open);
        assert(m != c);
        assert(!open.closer_than(points[c], EPSILON as int));
        let target = place[m];
        assert(open.closer_than(open, EPSILON as int));
        assert(edge[target] == m);
        assert(steps_from(n, c, m) == k + 1);
        assert forall|j: int| 0 <= j < n && j != target implies !links(segments, used, open, j) by {
            let e = edge[j];
            let there = edges_of(points)[e];
            assert(there.start == points[e] && there.end == points[next_corner(points, e)]);
            if !used[j] {
                assert(e != m);
                assert(next_corner(points, e) != m);
            }
        }
        let there = edges_of(points)[m];
        assert(there.start == open && there.end == points[next_corner(points, m)]);
        assert(links(segments, used, open, target));
        lemma_first_link_is(segments, used, open, 0, target);
        let far = far_end(segments[target], open);
        assert(next_corner(points, m) != m);
        assert(!open.closer_than(points[next_corner(points, m)], EPSILON as int));
        assert(far == points[next_corner(points, m)]);
        assert(next_corner(points, m) == ahead(n, c, k + 2));
        assert forall|j: int| 0 <= j < n implies used.update(target, true)[j] == used_after(
            n,
            c,
            k + 1,
            edge,
        )[j] by {
            if j != target {
                assert(edge[j] != m);
            }
        }
        assert(used.update(target, true) =~= used_after(n, c, k + 1, edge));
        assert(chain.push(far) =~= way_round_from(points, c, (k + 3) as nat));
        lemma_chase_goes_round_in_any_order(segments, points, edge, place, c, k + 1);
    }
}

/// The edges of a loop, in any order and each in either direction, of
/// which the first is given the way the loop runs, are chained back
/// into the loop walked from that first edge.
pub proof fn lemma_shuffled_edges_chain_back(
    segments: Seq<LineSegment2D>,
    points: Seq<Point2>,
    edge: Seq<int>,
    place: Seq<int>,
)
    requires
        points.len() >= 3,
        all_apart(points),
        are_edges_of(segments, points, edge, place),
        segments[0] == edges_of(points)[edge[0]],
    ensures
        assemble(segments) == seq![walked_from(points, edge[0])],
{
    let n = points.len() as int;
    let c = edge[0];
    let fresh = Seq::new(segments.len(), |i: int| false);
    lemma_chase_goes_round_in_any_order(segments, points, edge, place, c, 0);
    assert forall|j: int| 0 <= j < n implies fresh.update(0, true)[j] == used_after(n, c, 0, edge)[j] by {
        if j != 0 {
            assert(edge[j] != c);
        }
    }
    assert(fresh.update(0, true) =~= used_after(n, c, 0, edge));
    assert(seq![segments[0].start, segments[0].end] =~= way_round_from(points, c, 2));
    let done = Seq::new(points.len(), |j: int| true);
    lemma_nothing_left(segments, done, 1);
    assert(assemble_from(segments, done, 1) =~= Seq::<Seq<Point2>>::empty());
    assert(seq![walked_from(points, c)] + Seq::<Seq<Point2>>::empty() =~= seq![
        walked_from(points, c),
    ]);
}

/// The edge of a loop walked from corner `c` that leaves its corner
/// `i` is the edge of the loop itself that leaves the corner `i` steps
/// on from `c`.
proof fn lemma_walked_edge(points: Seq<Point2>, c: int, i: int)
    requires
        0 <= c < points.len(),
        0 <= i < points.len(),
    ensures
        edge_cross(walked_from(points, c), i) == edge_cross(
            points,
            ahead(points.len() as int, c, i),
        ),
{
    let n = points.len() as int;
    let w = walked_from(points, c);
    let j = next_corner(w, i);
    assert(w[i] == points[ahead(n, c, i)]);
    assert(w[j] == points[ahead(n, c, j)]);
    assert(ahead(n, c, j) == next_corner(points, ahead(n, c, i)));
}

/// The shoelace sum over the first `m` edges of the loop walked from
/// corner `c` is the sum over the edges of the loop from `c` on, going
/// round past the last corner where need be.
proof fn lemma_walked_prefix(points: Seq<Point2>, c: int, m: int)
    requires
        0 <= c < points.len(),
        0 <= m <= points.len(),
    ensures
        shoelace_sum(walked_from(points, c), m) == if c + m <= points.len() {
            shoelace_sum(points, c + m) - shoelace_sum(points, c)
        } else {
            shoelace_sum(points, points.len() as int) - shoelace_sum(points, c) + shoelace_sum(
                points,
                c + m - points.len(),
            )
        },
    decreases m,
{
    let n = points.len() as int;
    if m > 0 {
        lemma_walked_prefix(points, c, m - 1);
        lemma_walked_edge(points, c, m - 1);
        let e = ahead(n, c, m - 1);
        assert(shoelace_sum(points, e + 1) == shoelace_sum(points, e) + edge_cross(points, e));
        assert(shoelace_sum(points, 0) == 0);
    }
}

/// A loop has the same area wherever it is walked from.
pub proof fn lemma_walk_keeps_area(points: Seq<Point2>, c: int)
    requires
        0 <= c < points.len(),
    ensures
        signed_area_doubled(walked_from(points, c)) == signed_area_doubled(points),
        enclosed_area(walked_from(points, c)) == enclosed_area(points),
{
    lemma_walked_prefix(points, c, points.len() as int);
    assert(shoelace_sum(points, 0) == 0);
}

/// The ray from `q` crosses as many of the first `m` edges of the loop
/// walked from corner `c` as it crosses edges of the loop from `c` on,
/// going round past the last corner where need be.
proof fn lemma_walked_crossings(points: Seq<Point2>, c: int, q: Point2, m: int)
    requires
        0 <= c < points.len(),
        0 <= m <= points.len(),
    ensures
        crossings(walked_from(points, c), q, m) == if c + m <= points.len() {
            crossings(points, q, c + m) - crossings(points, q, c)
        } else {
            crossings(points, q, points.len() as int) - crossings(points, q, c) + crossings(
                points,
                q,
                c + m - points.len(),
            )
        },
    decreases m,
{
    let n = points.len() as int;
    let w = walked_from(points, c);
    if m > 0 {
        lemma_walked_crossings(points, c, q, m - 1);
        let i = m - 1;
        let j = next_corner(w, i);
        let e = ahead(n, c, i);
        assert(w[i] == points[e]);
        assert(w[j] == points[ahead(n, c, j)]);
        assert(ahead(n, c, j) == next_corner(points, e));
        assert(ray_crosses(w[i], w[j], q) == ray_crosses(
            points[e],
            points[next_corner(points, e)],
            q,
        ));
        assert(crossings(points, q, e + 1) == crossings(points, q, e) + if ray_crosses(
            points[e],
            points[next_corner(points, e)],
            q,
        ) {
            1nat
        } else {
            0nat
        });
        assert(crossings(points, q, 0) == 0);
    }
}

/// A loop surrounds the same points, and has the same extent, wherever
/// it is walked from.
pub proof fn lemma_walk_keeps_inside(points: Seq<Point2>, c: int, q: Point2)
    requires
        0 <= c < points.len(),
    ensures
        surrounds(walked_from(points, c), q) == surrounds(points, q),
        within_extent(walked_from(points, c), q) == within_extent(points, q),
{
    let n = points.len() as int;
    let w = walked_from(points, c);
    lemma_walked_crossings(points, c, q, n);
    assert(crossings(points, q, 0) == 0);
    assert forall|i: int| 0 <= i < n implies #[trigger] w[steps_from(n, c, i)] == points[i] by {
        assert(ahead(n, c, steps_from(n, c, i)) == i);
    }
    if within_extent(points, q) {
        let a = choose|i: int| 0 <= i < points.len() && (#[trigger] points[i]).x <= q.x;
        let b = choose|i: int| 0 <= i < points.len() && (#[trigger] points[i]).x >= q.x;
        let d = choose|i: int| 0 <= i < points.len() && (#[trigger] points[i]).y <= q.y;
        let e = choose|i: int| 0 <= i < points.len() && (#[trigger] points[i]).y >= q.y;
        assert(w[steps_from(n, c, a)].x <= q.x);
        assert(w[steps_from(n, c, b)].x >= q.x);
        assert(w[steps_from(n, c, d)].y <= q.y);
        assert(w[steps_from(n, c, e)].y >= q.y);
    }
    if within_extent(w, q) {
        let a = choose|i: int| 0 <= i < w.len() && (#[trigger] w[i]).x <= q.x;
        let b = choose|i: int| 0 <= i < w.len() && (#[trigger] w[i]).x >= q.x;
        let d = choose|i: int| 0 <= i < w.len() && (#[trigger] w[i]).y <= q.y;
        let e = choose|i: int| 0 <= i < w.len() && (#[trigger] w[i]).y >= q.y;
        assert(points[ahead(n, c, a)].x <= q.x);
        assert(points[ahead(n, c, b)].x >= q.x);
        assert(points[ahead(n, c, d)].y <= q.y);
        assert(points[ahead(n, c, e)].y >= q.y);
    }
}

/// `found` is the loop `points` walked from one of its corners.
pub open spec fn is_walk_of(found: Seq<Point2>, points: Seq<Point2>) -> bool {
    exists|c: int| 0 <= c < points.len() && #[trigger] walked_from(points, c) == found
}

/// The loop `points` walked the other way round.
pub open spec fn turned(points: Seq<Point2>) -> Seq<Point2> {
    Seq::new(points.len(), |i: int| points[points.len() - 1 - i])
}

/// The edge of the turned loop that is edge `e` of the loop, taken
/// backwards.
pub open spec fn turned_edge(n: int, e: int) -> int {
    if e == n - 1 {
        n - 1
    } else {
        n - 2 - e
    }
}

/// The edges of a loop, in any order and each in either direction, are
/// chained back into one loop: the loop itself or the loop walked the
/// other way round, walked from the segment that comes first. Either
/// way the loop found has the corners and the area of the loop the
/// edges were taken from, and it is sorted into one island without
/// holes.
pub proof fn lemma_edges_chain_back_in_any_order(
    segments: Seq<LineSegment2D>,
    points: Seq<Point2>,
    edge: Seq<int>,
    place: Seq<int>,
)
    requires
        points.len() >= 3,
        all_apart(points),
        are_edges_of(segments, points, edge, place),
    ensures
        assemble(segments).len() == 1,
        assemble(segments)[0].len() == points.len(),
        is_walk_of(assemble(segments)[0], points) || is_walk_of(
            assemble(segments)[0],
            turned(points),
        ),
        enclosed_area(assemble(segments)[0]) == enclosed_area(points),
        classify_loops(assemble(segments)) == seq![
            IslandView { outline: assemble(segments)[0], holes: Seq::empty() },
        ],
{
    let n = points.len() as int;
    if segments[0] == edges_of(points)[edge[0]] {
        let c = edge[0];
        lemma_shuffled_edges_chain_back(segments, points, edge, place);
        lemma_walk_keeps_area(points, c);
        assert(walked_from(points, c) == assemble(segments)[0]);
        assert(is_walk_of(assemble(segments)[0], points));
        lemma_single_loop_is_one_island(walked_from(points, c));
    } else {
        let back = turned(points);
        let edge2 = Seq::new(points.len(), |j: int| turned_edge(n, edge[j]));
        let place2 = Seq::new(points.len(), |e: int| place[turned_edge(n, e)]);
        assert forall|i: int, j: int|
            0 <= i < back.len() && 0 <= j < back.len() && i != j implies !(#[trigger] back[i])
            .closer_than(#[trigger] back[j], EPSILON as int) by {
            assert(back[i] == points[n - 1 - i] && back[j] == points[n - 1 - j]);
        }
        assert forall|e: int| 0 <= e < n implies #[trigger] edges_of(back)[turned_edge(n, e)]
            == edges_of(points)[e].reversed() by {
            let f = turned_edge(n, e);
            assert(back[f] == points[n - 1 - f]);
            assert(back[next_corner(back, f)] == points[n - 1 - next_corner(back, f)]);
        }
        assert forall|j: int| 0 <= j < segments.len() implies {
            &&& 0 <= #[trigger] edge2[j] < back.len()
            &&& place2[edge2[j]] == j
            &&& (segments[j] == edges_of(back)[edge2[j]] || segments[j] == edges_of(
                back,
            )[edge2[j]].reversed())
        } by {
            let e = edge[j];
            assert(turned_edge(n, turned_edge(n, e)) == e);
            assert(edges_of(back)[turned_edge(n, e)] == edges_of(points)[e].reversed());
        }
        assert forall|e: int| 0 <= e < back.len() implies 0 <= #[trigger] place2[e] < back.len()
            && edge2[place2[e]] == e by {
            let f = turned_edge(n, e);
            assert(0 <= f < n);
            assert(edge[place[f]] == f);
            assert(turned_edge(n, f) == e);
        }
        assert(are_edges_of(segments, back, edge2, place2));
        assert(edges_of(back)[turned_edge(n, edge[0])] == edges_of(points)[edge[0]].reversed());
        assert(segments[0] == edges_of(back)[edge2[0]]);
        let c = edge2[0];
        lemma_shuffled_edges_chain_back(segments, back, edge2, place2);
        lemma_walk_keeps_area(back, c);
        assert(is_reverse_of(back, points));
        lemma_reverse_negates_area(points, back);
        assert(walked_from(back, c) == assemble(segments)[0]);
        assert(is_walk_of(assemble(segments)[0], back));
        lemma_single_loop_is_one_island(walked_from(back, c));
    }
}

} // verus!
