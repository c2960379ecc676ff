//! Several loops at once: the edges of any number of loops, mixed with
//! each other in any order and each given in either direction, are
//! chained back into as many loops.

use vstd::prelude::*;
use crate::geometry::point::Point2;
use crate::geometry::polygon::{next_corner, surrounds, winds_clockwise, winds_counter_clockwise};
use crate::geometry::segment::LineSegment2D;
use crate::slicer::contour::{
    assemble, assemble_from, chase, far_end, first_link, free_count, lemma_use_one, links,
};
use crate::slicer::contour_proofs::{
    all_apart, edges_of, lemma_all_free, lemma_first_link_is,
};
use crate::slicer::engine::SlicerView;
use crate::slicer::island::{can_hold, classify_loops, within_extent, IslandView};
use crate::slicer::island_proofs::lemma_ring_is_one_island;
use crate::slicer::order_proofs::{
    ahead, is_walk_of, lemma_walk_keeps_area, lemma_walk_keeps_inside, steps_from, turned,
    turned_edge, walked_from, way_round_from,
};
use crate::units::EPSILON;

verus! {

/// Segment `j` has nothing to do with the loop `points`: neither of its
/// ends is within `EPSILON` of a corner of the loop.
pub open spec fn is_stranger_to(segment: LineSegment2D, points: Seq<Point2>) -> bool {
    forall|i: int|
        0 <= i < points.len() ==> !(#[trigger] points[i]).closer_than(
            segment.start,
            EPSILON as int,
        ) && !points[i].closer_than(segment.end, EPSILON as int)
}

/// Among `segments` stand the edges of the loop `points`, each once and
/// each in either direction: `member` tells which segments they are,
/// segment `j` of them is edge `edge[j]`, and edge `e` is segment
/// `place[e]`. All other segments are strangers to the loop.
pub open spec fn holds_edges_of(
    segments: Seq<LineSegment2D>,
    points: Seq<Point2>,
    member: Seq<bool>,
    edge: Seq<int>,
    place: Seq<int>,
) -> bool {
    &&& member.len() == segments.len()
    &&& edge.len() == segments.len()
    &&& place.len() == points.len()
    &&& forall|j: int|
        0 <= j < segments.len() && #[trigger] member[j] ==> {
            &&& 0 <= edge[j] < points.len()
            &&& place[edge[j]] == j
            &&& (segments[j] == edges_of(points)[edge[j]] || segments[j] == edges_of(
                points,
            )[edge[j]].reversed())
        }
    &&& forall|e: int|
        0 <= e < points.len() ==> {
            &&& 0 <= #[trigger] place[e] < segments.len()
            &&& member[place[e]]
            &&& edge[place[e]] == e
        }
    &&& forall|j: int|
        0 <= j < segments.len() && !#[trigger] member[j] ==> is_stranger_to(segments[j], points)
}

/// Which segments are used when the chain has gone `k + 1` edges on
/// from corner `c` of a loop: of the edges of the loop those gone along,
/// of the others whatever `marks` says.
pub open spec fn used_among(
    n: int,
    c: int,
    k: int,
    member: Seq<bool>,
    edge: Seq<int>,
    marks: Seq<bool>,
) -> Seq<bool> {
    Seq::new(
        marks.len(),
        |j: int|
            if member[j] {
                steps_from(n, c, edge[j]) <= k
            } else {
                marks[j]
            },
    )
}

/// Part of the way round a loop, the chain goes on along the one unused
/// edge of the loop at its open end, wherever that edge stands among
/// the segments and whichever way it is given, until it has gone all
/// the way round. Strangers are left as they are.
proof fn lemma_chase_goes_round_among_strangers(
    segments: Seq<LineSegment2D>,
    points: Seq<Point2>,
    member: Seq<bool>,
    edge: Seq<int>,
    place: Seq<int>,
    marks: Seq<bool>,
    c: int,
    k: int,
)
    requires
        points.len() >= 3,
        all_apart(points),
        holds_edges_of(segments, points, member, edge, place),
        marks.len() == segments.len(),
        0 <= c < points.len(),
        0 <= k < points.len(),
    ensures
        chase(
            segments,
            used_among(points.len() as int, c, k, member, edge, marks),
            way_round_from(points, c, (k + 2) as nat),
        ) == (
            used_among(points.len() as int, c, points.len() - 1, member, edge, marks),
            Some(walked_from(points, c)),
        ),
    decreases points.len() - k,
{
    let n = points.len() as int;
    let used = used_among(n, c, k, member, edge, marks);
    let chain = way_round_from(points, c, (k + 2) as nat);
    assert(chain[0] == points[c]);
    if k == n - 1 {
        assert(chain.last() == points[c]);
        assert(points[c].closer_than(points[c], EPSILON as int));
        assert(chain.drop_last() =~= walked_from(points, c));
    } else {
        let m = ahead(n, c, k + 1);
        let open = points[m];
        assert(chain.last() == open);
        assert(m != c);
        assert(!open.closer_than(points[c], EPSILON as int));
        let target = place[m];
        assert(open.closer_than(open, EPSILON as int));
        assert(member[target] && edge[target] == m);
        assert(steps_from(n, c, m) == k + 1);
        assert forall|j: int| 0 <= j < segments.len() && j != target implies !links(
            segments,
            used,
            open,
            j,
        ) by {
            if member[j] {
                let e = edge[j];
                let there = edges_of(points)[e];
                assert(there.start == points[e] && there.end == points[next_corner(points, e)]);
                if !used[j] {
                    assert(e != m);
                    assert(next_corner(points, e) != m);
                }
            } else {
                assert(is_stranger_to(segments[j], points));
                assert(!points[m].closer_than(segments[j].start, EPSILON as int));
            }
        }
        let there = edges_of(points)[m];
        assert(there.start == open && there.end == points[next_corner(points, m)]);
        assert(links(segments, used, open, target));
        lemma_first_link_is(segments, used, open, 0, target);
        let far = far_end(segments[target], open);
        assert(next_corner(points, m) != m);
        assert(!open.closer_than(points[next_corner(points, m)], EPSILON as int));
        assert(far == points[next_corner(points, m)]);
        assert(next_corner(points, m) == ahead(n, c, k + 2));
        let next_used = used_among(n, c, k + 1, member, edge, marks);
        assert forall|j: int| 0 <= j < segments.len() implies used.update(target, true)[j]
            == next_used[j] by {
            if j != target && member[j] {
                assert(edge[j] != m);
            }
        }
        assert(used.update(target, true) =~= next_used);
        assert(chain.push(far) =~= way_round_from(points, c, (k + 3) as nat));
        lemma_chase_goes_round_among_strangers(segments, points, member, edge, place, marks, c, k + 1);
    }
}

/// The marks with every edge of the loop marked as well.
pub open spec fn with_members(marks: Seq<bool>, member: Seq<bool>) -> Seq<bool> {
    Seq::new(marks.len(), |j: int| marks[j] || member[j])
}

/// A chain begun with an edge of a loop none of whose edges is used
/// goes all the way round that loop, in the direction in which its
/// first edge is given, uses up the edges of the loop and no other
/// segment, and closes.
pub proof fn lemma_loop_is_found_among_strangers(
    segments: Seq<LineSegment2D>,
    points: Seq<Point2>,
    member: Seq<bool>,
    edge: Seq<int>,
    place: Seq<int>,
    marks: Seq<bool>,
    seed: int,
)
    requires
        points.len() >= 3,
        all_apart(points),
        holds_edges_of(segments, points, member, edge, place),
        marks.len() == segments.len(),
        forall|j: int| 0 <= j < segments.len() && member[j] ==> !marks[j],
        0 <= seed < segments.len(),
        member[seed],
    ensures
        ({
            let start = seq![segments[seed].start, segments[seed].end];
            let (after, found) = chase(segments, marks.update(seed, true), start);
            &&& after == with_members(marks, member)
            &&& found matches Some(around) && around.len() == points.len() && (is_walk_of(
                around,
                points,
            ) || is_walk_of(around, turned(points))) && (segments[seed] == edges_of(
                points,
            )[edge[seed]] ==> is_walk_of(around, points))
        }),
{
    let n = points.len() as int;
    let start = seq![segments[seed].start, segments[seed].end];
    if segments[seed] == edges_of(points)[edge[seed]] {
        let c = edge[seed];
        lemma_chase_goes_round_among_strangers(segments, points, member, edge, place, marks, c, 0);
        assert forall|j: int| 0 <= j < segments.len() implies marks.update(seed, true)[j]
            == used_among(n, c, 0, member, edge, marks)[j] by {
            if j != seed && member[j] {
                assert(edge[j] != c);
            }
        }
        assert(marks.update(seed, true) =~= used_among(n, c, 0, member, edge, marks));
        assert(start =~= way_round_from(points, c, 2));
        assert(used_among(n, c, n - 1, member, edge, marks) =~= with_members(marks, member));
        assert(is_walk_of(walked_from(points, c), points));
    } else {
        let back = turned(points);
        let edge2 = Seq::new(segments.len(), |j: int| turned_edge(n, edge[j]));
        let place2 = Seq::new(points.len(), |e: int| place[turned_edge(n, e)]);
        assert forall|i: int, j: int|
            0 <= i < back.len() && 0 <= j < back.len() && i != j implies !(#[trigger] back[i])
            .closer_than(#[trigger] back[j], EPSILON as int) by {
            assert(back[i] == points[n - 1 - i] && back[j] == points[n - 1 - j]);
        }
        assert forall|e: int| 0 <= e < n implies #[trigger] edges_of(back)[turned_edge(n, e)]
            == edges_of(points)[e].reversed() by {
            let f = turned_edge(n, e);
            assert(back[f] == points[n - 1 - f]);
            assert(back[next_corner(back, f)] == points[n - 1 - next_corner(back, f)]);
        }
        assert forall|j: int| 0 <= j < segments.len() && #[trigger] member[j] implies {
            &&& 0 <= edge2[j] < back.len()
            &&& place2[edge2[j]] == j
            &&& (segments[j] == edges_of(back)[edge2[j]] || segments[j] == edges_of(
                back,
            )[edge2[j]].reversed())
        } by {
            let e = edge[j];
            assert(turned_edge(n, turned_edge(n, e)) == e);
            assert(edges_of(back)[turned_edge(n, e)] == edges_of(points)[e].reversed());
        }
        assert forall|e: int| 0 <= e < back.len() implies {
            &&& 0 <= #[trigger] place2[e] < segments.len()
            &&& member[place2[e]]
            &&& edge2[place2[e]] == e
        } by {
            let f = turned_edge(n, e);
            assert(0 <= f < n);
            assert(edge[place[f]] == f);
            assert(turned_edge(n, f) == e);
        }
        assert forall|j: int| 0 <= j < segments.len() && !#[trigger] member[j] implies is_stranger_to(
            segments[j],
            back,
        ) by {
            assert(is_stranger_to(segments[j], points));
            assert forall|i: int| 0 <= i < back.len() implies !(#[trigger] back[i]).closer_than(
                segments[j].start,
                EPSILON as int,
            ) && !back[i].closer_than(segments[j].end, EPSILON as int) by {
                assert(back[i] == points[n - 1 - i]);
            }
        }
        assert(holds_edges_of(segments, back, member, edge2, place2));
        assert(edges_of(back)[turned_edge(n, edge[seed])] == edges_of(points)[edge[seed]].reversed());
        assert(segments[seed] == edges_of(back)[edge2[seed]]);
        let c = edge2[seed];
        lemma_chase_goes_round_among_strangers(segments, back, member, edge2, place2, marks, c, 0);
        assert forall|j: int| 0 <= j < segments.len() implies marks.update(seed, true)[j]
            == used_among(n, c, 0, member, edge2, marks)[j] by {
            if j != seed && member[j] {
                assert(edge2[j] != c);
            }
        }
        assert(marks.update(seed, true) =~= used_among(n, c, 0, member, edge2, marks));
        assert(start =~= way_round_from(back, c, 2));
        assert(used_among(n, c, n - 1, member, edge2, marks) =~= with_members(marks, member));
        assert(is_walk_of(walked_from(back, c), back));
    }
}

/// `segments` are the edges of the loops `loops`, each edge once, mixed
/// in any order and each given in either direction: segment `j` is edge
/// `edge[j]` of loop `owner[j]`, and edge `e` of loop `l` is segment
/// `place[l][e]`. Every loop has three corners or more, and no two
/// corners, of one loop or of two, are within `EPSILON` of each other.
pub open spec fn are_edges_of_loops(
    segments: Seq<LineSegment2D>,
    loops: Seq<Seq<Point2>>,
    owner: Seq<int>,
    edge: Seq<int>,
    place: Seq<Seq<int>>,
) -> bool {
    &&& owner.len() == segments.len()
    &&& edge.len() == segments.len()
    &&& place.len() == loops.len()
    &&& forall|l: int|
        0 <= l < loops.len() ==> {
            &&& (#[trigger] loops[l]).len() >= 3
            &&& all_apart(loops[l])
            &&& place[l].len() == loops[l].len()
        }
    &&& forall|j: int|
        0 <= j < segments.len() ==> {
            &&& 0 <= #[trigger] owner[j] < loops.len()
            &&& 0 <= edge[j] < loops[owner[j]].len()
            &&& place[owner[j]][edge[j]] == j
            &&& (segments[j] == edges_of(loops[owner[j]])[edge[j]] || segments[j] == edges_of(
                loops[owner[j]],
            )[edge[j]].reversed())
        }
    &&& forall|l: int, e: int|
        0 <= l < loops.len() && 0 <= e < loops[l].len() ==> {
            &&& 0 <= #[trigger] place[l][e] < segments.len()
            &&& owner[place[l][e]] == l
            &&& edge[place[l][e]] == e
        }
    &&& forall|l: int, i: int, m: int, j: int|
        0 <= l < loops.len() && 0 <= m < loops.len() && l != m && 0 <= i < loops[l].len() && 0 <= j
            < loops[m].len() ==> !(#[trigger] loops[l][i]).closer_than(
            #[trigger] loops[m][j],
            EPSILON as int,
        )
}

/// `found` is the loop `points`, walked from one of its corners one way
/// round or the other.
pub open spec fn is_loop(found: Seq<Point2>, points: Seq<Point2>) -> bool {
    found.len() == points.len() && (is_walk_of(found, points) || is_walk_of(found, turned(points)))
}

/// Which segments are used when the loops that `done` names are: those
/// of these loops.
pub open spec fn used_of(done: Seq<bool>, owner: Seq<int>) -> Seq<bool> {
    Seq::new(owner.len(), |j: int| done[owner[j]])
}

/// Which segments are edges of loop `l`.
pub open spec fn edges_owned(owner: Seq<int>, l: int) -> Seq<bool> {
    Seq::new(owner.len(), |j: int| owner[j] == l)
}

/// Where nothing is left undone, the count of what is left is nothing.
proof fn lemma_none_free(done: Seq<bool>)
    requires
        forall|l: int| 0 <= l < done.len() ==> done[l],
    ensures
        free_count(done) == 0,
    decreases done.len(),
{
    if done.len() > 0 {
        lemma_none_free(done.drop_last());
    }
}

/// Among the edges of several loops, those of one loop stand among
/// strangers.
proof fn lemma_one_of_the_family(
    segments: Seq<LineSegment2D>,
    loops: Seq<Seq<Point2>>,
    owner: Seq<int>,
    edge: Seq<int>,
    place: Seq<Seq<int>>,
    l: int,
)
    requires
        are_edges_of_loops(segments, loops, owner, edge, place),
        0 <= l < loops.len(),
    ensures
        holds_edges_of(segments, loops[l], edges_owned(owner, l), edge, place[l]),
{
    let points = loops[l];
    let member = edges_owned(owner, l);
    assert forall|e: int| 0 <= e < points.len() implies {
        &&& 0 <= #[trigger] place[l][e] < segments.len()
        &&& member[place[l][e]]
        &&& edge[place[l][e]] == e
    } by {}
    assert forall|j: int| 0 <= j < segments.len() && !#[trigger] member[j] implies is_stranger_to(
        segments[j],
        points,
    ) by {
        let m = owner[j];
        let e = edge[j];
        let there = edges_of(loops[m])[e];
        assert(there.start == loops[m][e] && there.end == loops[m][next_corner(loops[m], e)]);
        assert forall|i: int| 0 <= i < points.len() implies !(#[trigger] points[i]).closer_than(
            segments[j].start,
            EPSILON as int,
        ) && !points[i].closer_than(segments[j].end, EPSILON as int) by {
            assert(!loops[l][i].closer_than(loops[m][e], EPSILON as int));
            assert(!loops[l][i].closer_than(loops[m][next_corner(loops[m], e)], EPSILON as int));
        }
    }
}

/// Every segment is given the way its loop runs.
pub open spec fn all_forward(
    segments: Seq<LineSegment2D>,
    loops: Seq<Seq<Point2>>,
    owner: Seq<int>,
    edge: Seq<int>,
) -> bool {
    forall|j: int|
        0 <= j < segments.len() ==> #[trigger] segments[j] == edges_of(loops[owner[j]])[edge[j]]
}

/// `which` tells of each loop found which of the loops it is: each of
/// the loops left, once.
pub open spec fn tells_which(
    which: Seq<int>,
    found: Seq<Seq<Point2>>,
    loops: Seq<Seq<Point2>>,
    done: Seq<bool>,
    forward: bool,
) -> bool {
    &&& which.len() == found.len()
    &&& forall|i: int|
        0 <= i < found.len() ==> {
            &&& 0 <= #[trigger] which[i] < loops.len()
            &&& !done[which[i]]
            &&& is_loop(found[i], loops[which[i]])
            &&& forward ==> is_walk_of(found[i], loops[which[i]])
        }
    &&& forall|i: int, j: int|
        0 <= i < j < found.len() ==> #[trigger] which[i] != #[trigger] which[j]
}

/// With the loops that `done` names out of the way and every segment
/// before `seed` used, chaining finds each loop that is left, once.
proof fn lemma_family_is_found(
    segments: Seq<LineSegment2D>,
    loops: Seq<Seq<Point2>>,
    owner: Seq<int>,
    edge: Seq<int>,
    place: Seq<Seq<int>>,
    done: Seq<bool>,
    seed: int,
) -> (which: Seq<int>)
    requires
        are_edges_of_loops(segments, loops, owner, edge, place),
        done.len() == loops.len(),
        0 <= seed <= segments.len(),
        forall|j: int| 0 <= j < seed ==> done[#[trigger] owner[j]],
    ensures
        assemble_from(segments, used_of(done, owner), seed).len() == free_count(done),
        tells_which(
            which,
            assemble_from(segments, used_of(done, owner), seed),
            loops,
            done,
            all_forward(segments, loops, owner, edge),
        ),
    decreases segments.len() - seed,
{
    let used = used_of(done, owner);
    let all = assemble_from(segments, used, seed);
    let forward = all_forward(segments, loops, owner, edge);
    if seed >= segments.len() {
        assert forall|l: int| 0 <= l < done.len() implies done[l] by {
            let j = place[l][0];
            assert(owner[j] == l);
        }
        lemma_none_free(done);
        Seq::empty()
    } else if used[seed] {
        lemma_family_is_found(segments, loops, owner, edge, place, done, seed + 1)
    } else {
        let l = owner[seed];
        let points = loops[l];
        let member = edges_owned(owner, l);
        lemma_one_of_the_family(segments, loops, owner, edge, place, l);
        lemma_loop_is_found_among_strangers(segments, points, member, edge, place[l], used, seed);
        let start = seq![segments[seed].start, segments[seed].end];
        let (after, found) = chase(segments, used.update(seed, true), start);
        let around = found->0;
        let next_done = done.update(l, true);
        assert(after =~= used_of(next_done, owner));
        lemma_use_one(done, l);
        assert forall|j: int| 0 <= j < seed + 1 implies next_done[#[trigger] owner[j]] by {
            if j < seed {
                assert(done[owner[j]]);
            }
        }
        let others = lemma_family_is_found(
            segments,
            loops,
            owner,
            edge,
            place,
            next_done,
            seed + 1,
        );
        let rest = assemble_from(segments, after, seed + 1);
        assert(all == seq![around] + rest);
        let which = seq![l] + others;
        assert forall|i: int| 0 <= i < all.len() implies {
            &&& 0 <= #[trigger] which[i] < loops.len()
            &&& !done[which[i]]
            &&& is_loop(all[i], loops[which[i]])
            &&& forward ==> is_walk_of(all[i], loops[which[i]])
        } by {
            if i == 0 {
                assert(all[0] == around && which[0] == l);
                if forward {
                    assert(segments[seed] == edges_of(loops[owner[seed]])[edge[seed]]);
                }
            } else {
                assert(all[i] == rest[i - 1] && which[i] == others[i - 1]);
                assert(!next_done[others[i - 1]]);
            }
        }
        assert forall|i: int, j: int| 0 <= i < j < all.len() implies #[trigger] which[i]
            != #[trigger] which[j] by {
            assert(which[j] == others[j - 1]);
            assert(!next_done[others[j - 1]]);
            if i > 0 {
                assert(which[i] == others[i - 1]);
            }
        }
        which
    }
}

/// The edges of any number of loops, mixed in any order and each given
/// in either direction, are chained back into as many loops. Each loop
/// found is one of the loops the edges were taken from, walked from one
/// of its corners one way round or the other, and each of those loops
/// is found once: `which` tells which is which. Where every edge is
/// given the way its loop runs, so is every loop found.
pub proof fn lemma_mixed_loops_chain_back(
    segments: Seq<LineSegment2D>,
    loops: Seq<Seq<Point2>>,
    owner: Seq<int>,
    edge: Seq<int>,
    place: Seq<Seq<int>>,
) -> (which: Seq<int>)
    requires
        are_edges_of_loops(segments, loops, owner, edge, place),
    ensures
        assemble(segments).len() == loops.len(),
        tells_which(
            which,
            assemble(segments),
            loops,
            Seq::new(loops.len(), |l: int| false),
            all_forward(segments, loops, owner, edge),
        ),
{
    let fresh = Seq::new(segments.len(), |i: int| false);
    let done = Seq::new(loops.len(), |l: int| false);
    assert(used_of(done, owner) =~= fresh);
    lemma_all_free(loops.len());
    lemma_family_is_found(segments, loops, owner, edge, place, done, 0)
}

/// Of two loops found, each one of two loops and neither the same as
/// the other, one is the first loop and the other the second.
proof fn lemma_two_found(
    found: Seq<Seq<Point2>>,
    which: Seq<int>,
    outer: Seq<Point2>,
    inner: Seq<Point2>,
)
    requires
        found.len() == 2,
        tells_which(which, found, seq![outer, inner], Seq::new(2, |l: int| false), true),
    ensures
        (is_walk_of(found[0], outer) && is_walk_of(found[1], inner)) || (is_walk_of(
            found[0],
            inner,
        ) && is_walk_of(found[1], outer)),
{
    let loops = seq![outer, inner];
    assert(which[0] != which[1]);
    assert(is_walk_of(found[0], loops[which[0]]));
    assert(is_walk_of(found[1], loops[which[1]]));
}

/// A counter-clockwise loop and a clockwise loop whose corners all lie
/// inside it are one island, wherever each is walked from and
/// whichever of them comes first.
proof fn lemma_walks_are_one_island(
    a: Seq<Point2>,
    b: Seq<Point2>,
    outer: Seq<Point2>,
    inner: Seq<Point2>,
)
    requires
        is_walk_of(a, outer),
        is_walk_of(b, inner),
        winds_counter_clockwise(outer),
        winds_clockwise(inner),
        forall|i: int|
            0 <= i < inner.len() ==> within_extent(outer, #[trigger] inner[i]) && surrounds(
                outer,
                inner[i],
            ),
    ensures
        classify_loops(seq![a, b]) == seq![IslandView { outline: a, holes: seq![b] }],
        classify_loops(seq![b, a]) == seq![IslandView { outline: a, holes: seq![b] }],
{
    let c = choose|c: int| 0 <= c < outer.len() && #[trigger] walked_from(outer, c) == a;
    let d = choose|d: int| 0 <= d < inner.len() && #[trigger] walked_from(inner, d) == b;
    lemma_walk_keeps_area(outer, c);
    lemma_walk_keeps_area(inner, d);
    let q = b[0];
    let e = ahead(inner.len() as int, d, 0);
    assert(q == inner[e]);
    assert(within_extent(outer, inner[e]) && surrounds(outer, inner[e]));
    lemma_walk_keeps_inside(outer, c, q);
    assert(can_hold(a, b));
    lemma_ring_is_one_island(a, b);
}

/// The edges of a counter-clockwise loop and of a clockwise loop whose
/// corners all lie inside it, mixed in any order and each given the way
/// its loop runs, are chained and sorted into one island: the
/// counter-clockwise loop is its outline and the clockwise loop its
/// only hole, each walked from whichever of its corners came first.
pub proof fn lemma_loop_in_loop_is_one_island(
    segments: Seq<LineSegment2D>,
    outer: Seq<Point2>,
    inner: Seq<Point2>,
    owner: Seq<int>,
    edge: Seq<int>,
    place: Seq<Seq<int>>,
)
    requires
        are_edges_of_loops(segments, seq![outer, inner], owner, edge, place),
        all_forward(segments, seq![outer, inner], owner, edge),
        winds_counter_clockwise(outer),
        winds_clockwise(inner),
        forall|i: int|
            0 <= i < inner.len() ==> within_extent(outer, #[trigger] inner[i]) && surrounds(
                outer,
                inner[i],
            ),
    ensures
        classify_loops(assemble(segments)).len() == 1,
        is_walk_of(classify_loops(assemble(segments))[0].outline, outer),
        classify_loops(assemble(segments))[0].holes.len() == 1,
        is_walk_of(classify_loops(assemble(segments))[0].holes[0], inner),
{
    let loops = seq![outer, inner];
    let which = lemma_mixed_loops_chain_back(segments, loops, owner, edge, place);
    let found = assemble(segments);
    assert(loops.len() == 2);
    assert(found =~= seq![found[0], found[1]]);
    lemma_two_found(found, which, outer, inner);
    if is_walk_of(found[0], outer) && is_walk_of(found[1], inner) {
        lemma_walks_are_one_island(found[0], found[1], outer, inner);
    } else {
        lemma_walks_are_one_island(found[1], found[0], outer, inner);
    }
}

/// A layer whose cuts are the edges of a counter-clockwise loop and of
/// a clockwise loop inside it, in any order, is one island with one
/// hole, whatever the mesh.
pub proof fn lemma_layer_of_loop_in_loop(
    s: SlicerView,
    k: int,
    outer: Seq<Point2>,
    inner: Seq<Point2>,
    owner: Seq<int>,
    edge: Seq<int>,
    place: Seq<Seq<int>>,
)
    requires
        are_edges_of_loops(s.mesh.cut(s.sample_z(k)), seq![outer, inner], owner, edge, place),
        all_forward(s.mesh.cut(s.sample_z(k)), seq![outer, inner], owner, edge),
        winds_counter_clockwise(outer),
        winds_clockwise(inner),
        forall|i: int|
            0 <= i < inner.len() ==> within_extent(outer, #[trigger] inner[i]) && surrounds(
                outer,
                inner[i],
            ),
    ensures
        s.layer(k).islands.len() == 1,
        is_walk_of(s.layer(k).islands[0].outline, outer),
        s.layer(k).islands[0].holes.len() == 1,
        is_walk_of(s.layer(k).islands[0].holes[0], inner),
{
    lemma_loop_in_loop_is_one_island(
        s.mesh.cut(s.sample_z(k)),
        outer,
        inner,
        owner,
        edge,
        place,
    );
}

} // verus!
