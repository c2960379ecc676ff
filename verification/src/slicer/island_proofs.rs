//! What is true of every sorting of loops into islands.
//!
//! Every loop is placed exactly once, as an outline or as a hole; a
//! hole runs clockwise and its first point lies inside its island's
//! outline; an outline is never a hole of something else.

use vstd::prelude::*;
use crate::geometry::point::Point2;
use crate::geometry::polygon::{winds_clockwise, winds_counter_clockwise};
use crate::slicer::island::{
    can_hold, classify_loops, container_among, container_of, holes_among, islands_among,
    lemma_container_is_smallest, IslandView,
};
use crate::slicer::layer::contour_total;

verus! {

/// A loop that holds a hole is in the list, runs counter-clockwise
/// round an area, holds the hole's first point, and is itself no hole.
pub proof fn lemma_container_is_an_outline(loops: Seq<Seq<Point2>>, h: int)
    requires
        0 <= h < loops.len(),
    ensures
        container_of(loops, h) matches Some(c) ==> {
            &&& 0 <= c < loops.len()
            &&& winds_clockwise(loops[h])
            &&& winds_counter_clockwise(loops[c])
            &&& can_hold(loops[c], loops[h])
            &&& container_of(loops, c) is None
        },
{
    if winds_clockwise(loops[h]) {
        lemma_container_is_smallest(loops, h, loops.len() as int);
    }
}

/// How many of the first `n` loops are holes.
pub open spec fn hole_count(loops: Seq<Seq<Point2>>, n: int) -> nat
    decreases n,
{
    if n <= 0 {
        0
    } else {
        hole_count(loops, n - 1) + if container_of(loops, n - 1) is Some {
            1nat
        } else {
            0nat
        }
    }
}

/// How many of the first `n` loops are outlines.
pub open spec fn outline_count(loops: Seq<Seq<Point2>>, n: int) -> nat
    decreases n,
{
    if n <= 0 {
        0
    } else {
        outline_count(loops, n - 1) + if container_of(loops, n - 1) is Some {
            0nat
        } else {
            1nat
        }
    }
}

/// The outlines among the first `k` loops, each counted with those of
/// its holes that are among the first `m` loops.
pub open spec fn placed(loops: Seq<Seq<Point2>>, k: int, m: int) -> nat
    decreases k,
{
    if k <= 0 {
        0
    } else {
        placed(loops, k - 1, m) + if container_of(loops, k - 1) is Some {
            0nat
        } else {
            1 + holes_among(loops, k - 1, m).len()
        }
    }
}

/// Every loop is an outline or a hole.
pub proof fn lemma_outline_or_hole(loops: Seq<Seq<Point2>>, n: int)
    requires
        0 <= n,
    ensures
        outline_count(loops, n) + hole_count(loops, n) == n,
    decreases n,
{
    if n > 0 {
        lemma_outline_or_hole(loops, n - 1);
    }
}

/// Looking at one loop more adds one to the count where that loop is a
/// hole of an outline already counted, and nothing otherwise.
proof fn lemma_placed_step(loops: Seq<Seq<Point2>>, k: int, m: int)
    requires
        0 <= k <= loops.len(),
        0 <= m < loops.len(),
    ensures
        placed(loops, k, m + 1) == placed(loops, k, m) + if container_of(loops, m) matches Some(c)
            && c < k {
            1nat
        } else {
            0nat
        },
    decreases k,
{
    lemma_container_is_an_outline(loops, m);
    if k > 0 {
        lemma_placed_step(loops, k - 1, m);
        let before = holes_among(loops, k - 1, m);
        let now = holes_among(loops, k - 1, m + 1);
        assert(now == if container_of(loops, m) == Some(k - 1) {
            before.push(loops[m])
        } else {
            before
        });
    }
}

/// With no holes looked at, only the outlines are counted.
proof fn lemma_placed_without_holes(loops: Seq<Seq<Point2>>, k: int)
    requires
        0 <= k,
    ensures
        placed(loops, k, 0) == outline_count(loops, k),
    decreases k,
{
    if k > 0 {
        lemma_placed_without_holes(loops, k - 1);
    }
}

/// All outlines with their holes among the first `m` loops: the outlines
/// and those holes.
proof fn lemma_placed_counts(loops: Seq<Seq<Point2>>, m: int)
    requires
        0 <= m <= loops.len(),
    ensures
        placed(loops, loops.len() as int, m) == outline_count(loops, loops.len() as int)
            + hole_count(loops, m),
    decreases m,
{
    if m == 0 {
        lemma_placed_without_holes(loops, loops.len() as int);
    } else {
        lemma_placed_counts(loops, m - 1);
        lemma_placed_step(loops, loops.len() as int, m - 1);
        lemma_container_is_an_outline(loops, m - 1);
    }
}

/// The islands of the first `k` loops hold as many loops as `placed`
/// counts.
proof fn lemma_islands_hold_placed(loops: Seq<Seq<Point2>>, k: int)
    requires
        0 <= k <= loops.len(),
    ensures
        contour_total(islands_among(loops, k), islands_among(loops, k).len() as int) == placed(
            loops,
            k,
            loops.len() as int,
        ),
    decreases k,
{
    if k > 0 {
        lemma_islands_hold_placed(loops, k - 1);
        let before = islands_among(loops, k - 1);
        if container_of(loops, k - 1) is None {
            let island = IslandView {
                outline: loops[k - 1],
                holes: holes_among(loops, k - 1, loops.len() as int),
            };
            let now = before.push(island);
            lemma_contour_total_prefix(before, now, before.len() as int);
        }
    }
}

/// Islands that agree up to `n` hold the same number of loops up to
/// `n`.
proof fn lemma_contour_total_prefix(a: Seq<IslandView>, b: Seq<IslandView>, n: int)
    requires
        0 <= n <= a.len(),
        n <= b.len(),
        forall|i: int| 0 <= i < n ==> a[i] == b[i],
    ensures
        contour_total(a, n) == contour_total(b, n),
    decreases n,
{
    if n > 0 {
        lemma_contour_total_prefix(a, b, n - 1);
    }
}

/// No loop is lost and none is placed twice: the outlines and holes of
/// the islands are as many as the loops that were sorted.
pub proof fn lemma_every_loop_is_placed_once(loops: Seq<Seq<Point2>>)
    ensures
        contour_total(classify_loops(loops), classify_loops(loops).len() as int) == loops.len(),
        classify_loops(loops).len() == outline_count(loops, loops.len() as int),
{
    let n = loops.len() as int;
    lemma_islands_hold_placed(loops, n);
    lemma_placed_counts(loops, n);
    lemma_outline_or_hole(loops, n);
    lemma_island_count(loops, n);
}

/// There is one island for each outline.
pub proof fn lemma_island_count(loops: Seq<Seq<Point2>>, k: int)
    requires
        0 <= k,
    ensures
        islands_among(loops, k).len() == outline_count(loops, k),
    decreases k,
{
    if k > 0 {
        lemma_island_count(loops, k - 1);
    }
}

/// Every hole among the holes of loop `i` runs clockwise and has its
/// first point inside loop `i`.
pub proof fn lemma_holes_are_held(loops: Seq<Seq<Point2>>, i: int, m: int)
    requires
        0 <= m <= loops.len(),
    ensures
        forall|h: int|
            0 <= h < holes_among(loops, i, m).len() ==> {
                &&& winds_clockwise(#[trigger] holes_among(loops, i, m)[h])
                &&& can_hold(loops[i], holes_among(loops, i, m)[h])
            },
    decreases m,
{
    if m > 0 {
        lemma_holes_are_held(loops, i, m - 1);
        lemma_container_is_an_outline(loops, m - 1);
        let before = holes_among(loops, i, m - 1);
        let now = holes_among(loops, i, m);
        assert forall|h: int| 0 <= h < now.len() implies {
            &&& winds_clockwise(#[trigger] now[h])
            &&& can_hold(loops[i], now[h])
        } by {
            if h < before.len() {
                assert(now[h] == before[h]);
            } else {
                assert(container_of(loops, m - 1) == Some(i));
                assert(now[h] == loops[m - 1]);
            }
        }
    }
}

/// In every sorting, the outline of every island is one of the loops
/// that were sorted, and every hole of the island runs clockwise and has
/// its first point inside that outline.
pub proof fn lemma_islands_are_sound(loops: Seq<Seq<Point2>>)
    ensures
        forall|a: int|
            0 <= a < classify_loops(loops).len() ==> {
                let island = #[trigger] classify_loops(loops)[a];
                &&& exists|i: int|
                    0 <= i < loops.len() && #[trigger] container_of(loops, i) is None
                        && island.outline == loops[i]
                &&& forall|h: int|
                    0 <= h < island.holes.len() ==> {
                        &&& winds_clockwise(#[trigger] island.holes[h])
                        &&& can_hold(island.outline, island.holes[h])
                    }
            },
{
    let n = loops.len() as int;
    lemma_islands_hold_their_holes(loops, n);
    let islands = classify_loops(loops);
    assert forall|a: int| 0 <= a < islands.len() implies {
        let island = #[trigger] islands[a];
        &&& exists|i: int|
            0 <= i < loops.len() && #[trigger] container_of(loops, i) is None && island.outline
                == loops[i]
        &&& forall|h: int|
            0 <= h < island.holes.len() ==> {
                &&& winds_clockwise(#[trigger] island.holes[h])
                &&& can_hold(island.outline, island.holes[h])
            }
    } by {
        let island = islands_among(loops, n)[a];
        let i = choose|i: int|
            0 <= i < n && #[trigger] container_of(loops, i) is None && island.outline == loops[i];
        assert(0 <= i < loops.len() && container_of(loops, i) is None && island.outline
            == loops[i]);
    }
}

/// The same of the islands whose outlines are among the first `k`
/// loops.
pub proof fn lemma_islands_hold_their_holes(loops: Seq<Seq<Point2>>, k: int)
    requires
        0 <= k <= loops.len(),
    ensures
        forall|a: int|
            0 <= a < islands_among(loops, k).len() ==> {
                let island = #[trigger] islands_among(loops, k)[a];
                &&& exists|i: int|
                    0 <= i < k && #[trigger] container_of(loops, i) is None && island.outline
                        == loops[i]
                &&& forall|h: int|
                    0 <= h < island.holes.len() ==> {
                        &&& winds_clockwise(#[trigger] island.holes[h])
                        &&& can_hold(island.outline, island.holes[h])
                    }
            },
    decreases k,
{
    if k > 0 {
        lemma_islands_hold_their_holes(loops, k - 1);
        let before = islands_among(loops, k - 1);
        let now = islands_among(loops, k);
        lemma_holes_are_held(loops, k - 1, loops.len() as int);
        assert forall|a: int| 0 <= a < now.len() implies {
            let island = #[trigger] now[a];
            &&& exists|i: int|
                0 <= i < k && #[trigger] container_of(loops, i) is None && island.outline
                    == loops[i]
            &&& forall|h: int|
                0 <= h < island.holes.len() ==> {
                    &&& winds_clockwise(#[trigger] island.holes[h])
                    &&& can_hold(island.outline, island.holes[h])
                }
        } by {
            if a < before.len() {
                assert(now[a] == before[a]);
                let island = before[a];
                let i = choose|i: int|
                    0 <= i < k - 1 && #[trigger] container_of(loops, i) is None && island.outline
                        == loops[i];
                assert(0 <= i < k && container_of(loops, i) is None && island.outline == loops[i]);
            } else {
                assert(container_of(loops, k - 1) is None);
                assert(now[a].outline == loops[k - 1]);
            }
        }
    }
}

/// A loop by itself is one island without holes, whichever way it
/// runs.
pub proof fn lemma_single_loop_is_one_island(only: Seq<Point2>)
    ensures
        classify_loops(seq![only]) == seq![IslandView { outline: only, holes: Seq::empty() }],
{
    let loops = seq![only];
    reveal_with_fuel(container_among, 2);
    reveal_with_fuel(holes_among, 2);
    reveal_with_fuel(islands_among, 2);
    assert(container_of(loops, 0) is None) by {
        if winds_clockwise(only) {
            assert(!can_hold(loops[0], loops[0]));
        }
    }
    assert(holes_among(loops, 0, 1) =~= Seq::<Seq<Point2>>::empty());
    assert(islands_among(loops, 1) =~= seq![
        IslandView { outline: only, holes: Seq::empty() },
    ]);
}

/// A counter-clockwise loop and a clockwise loop that begins inside it
/// are one island: the first its outline, the second its only hole.
pub proof fn lemma_ring_is_one_island(outer: Seq<Point2>, inner: Seq<Point2>)
    requires
        winds_counter_clockwise(outer),
        winds_clockwise(inner),
        can_hold(outer, inner),
    ensures
        classify_loops(seq![outer, inner]) == seq![
            IslandView { outline: outer, holes: seq![inner] },
        ],
        classify_loops(seq![inner, outer]) == seq![
            IslandView { outline: outer, holes: seq![inner] },
        ],
{
    reveal_with_fuel(container_among, 3);
    reveal_with_fuel(holes_among, 3);
    reveal_with_fuel(islands_among, 3);
    let a = seq![outer, inner];
    assert(container_of(a, 0) is None);
    assert(!can_hold(inner, inner));
    assert(container_of(a, 1) == Some(0int));
    assert(holes_among(a, 0, 2) =~= seq![inner]);
    assert(islands_among(a, 2) =~= seq![IslandView { outline: outer, holes: seq![inner] }]);
    let b = seq![inner, outer];
    assert(container_of(b, 1) is None);
    assert(container_of(b, 0) == Some(1int));
    assert(holes_among(b, 1, 2) =~= seq![inner]);
    assert(islands_among(b, 2) =~= seq![IslandView { outline: outer, holes: seq![inner] }]);
}

/// A loop without area, or one that runs clockwise, holds nothing:
/// only a loop that runs counter-clockwise round an area can be the
/// boundary of a hole.
pub proof fn lemma_only_solid_loops_hold(loops: Seq<Seq<Point2>>, h: int, c: int)
    requires
        0 <= h < loops.len(),
        0 <= c < loops.len(),
        !winds_counter_clockwise(loops[c]),
    ensures
        container_of(loops, h) != Some(c),
        !can_hold(loops[c], loops[h]),
{
    lemma_container_is_an_outline(loops, h);
}

/// An island with a hole has an outline that runs counter-clockwise
/// round an area greater than nothing.
pub proof fn lemma_islands_with_holes_are_solid(loops: Seq<Seq<Point2>>)
    ensures
        forall|a: int|
            0 <= a < classify_loops(loops).len() && (#[trigger] classify_loops(loops)[a]).holes.len()
                > 0 ==> winds_counter_clockwise(classify_loops(loops)[a].outline),
{
    lemma_islands_are_sound(loops);
    assert forall|a: int|
        0 <= a < classify_loops(loops).len() && (#[trigger] classify_loops(loops)[a]).holes.len()
            > 0 implies winds_counter_clockwise(classify_loops(loops)[a].outline) by {
        let island = classify_loops(loops)[a];
        assert(can_hold(island.outline, island.holes[0]));
    }
}

/// A loop that runs counter-clockwise, or has no area, is always the
/// outline of an island.
pub proof fn lemma_solid_loops_are_outlines(loops: Seq<Seq<Point2>>, i: int)
    requires
        0 <= i < loops.len(),
        !winds_clockwise(loops[i]),
    ensures
        container_of(loops, i) is None,
{
}

/// A clockwise loop is an outline exactly where no counter-clockwise
/// loop holds its first point.
pub proof fn lemma_clockwise_outline(loops: Seq<Seq<Point2>>, i: int)
    requires
        0 <= i < loops.len(),
        winds_clockwise(loops[i]),
    ensures
        container_of(loops, i) is None <==> forall|c: int|
            0 <= c < loops.len() ==> !can_hold(#[trigger] loops[c], loops[i]),
{
    lemma_container_is_smallest(loops, i, loops.len() as int);
    match container_of(loops, i) {
        Some(c) => {
            assert(can_hold(loops[c], loops[i]));
        },
        None => {},
    }
}

} // verus!
