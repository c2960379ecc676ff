//! One horizontal slab of the print and what it holds.

use vstd::prelude::*;
use crate::geometry::point::Point2;
use crate::geometry::polygon::Polygon;
use crate::slicer::island::{islands_of, Island, IslandView};

verus! {

/// One layer of the print: the height at which it was cut, its place in
/// the stack, and the solid regions found at that height.
#[derive(Debug)]
pub struct Layer {
    pub z_height: i64,
    pub layer_index: usize,
    pub islands: Vec<Island>,
}

/// What a layer holds, as plain mathematics.
pub struct LayerView {
    pub z_height: int,
    pub layer_index: nat,
    pub islands: Seq<IslandView>,
}

impl Clone for Layer {
    fn clone(&self) -> (layer: Layer)
        ensures
            layer@ == self@,
    {
        let islands: Vec<Island> = self.islands.clone();
        assert(islands_of(islands@) =~= islands_of(self.islands@));
        Layer { z_height: self.z_height, layer_index: self.layer_index, islands }
    }
}

impl View for Layer {
    type V = LayerView;

    open spec fn view(&self) -> LayerView {
        LayerView {
            z_height: self.z_height as int,
            layer_index: self.layer_index as nat,
            islands: islands_of(self.islands@),
        }
    }
}

/// One loop of a layer by itself, with the part it plays: the outer
/// boundary of an island, or a hole in one.
#[derive(Debug)]
pub struct Contour {
    pub points: Vec<Point2>,
    pub is_outer: bool,
}

/// What a contour holds, as plain mathematics.
pub struct ContourView {
    pub points: Seq<Point2>,
    pub is_outer: bool,
}

impl View for Contour {
    type V = ContourView;

    open spec fn view(&self) -> ContourView {
        ContourView { points: self.points@, is_outer: self.is_outer }
    }
}

impl Clone for Contour {
    fn clone(&self) -> (contour: Contour)
        ensures
            contour@ == self@,
    {
        Contour { points: self.points.clone(), is_outer: self.is_outer }
    }
}

/// The views of a sequence of contours.
pub open spec fn contours_of(contours: Seq<Contour>) -> Seq<ContourView> {
    Seq::new(contours.len(), |i: int| contours[i]@)
}

/// The first `n` holes of an island, each as a contour.
pub open spec fn hole_contours(holes: Seq<Seq<Point2>>, n: int) -> Seq<ContourView>
    decreases n,
{
    if n <= 0 {
        Seq::empty()
    } else {
        hole_contours(holes, n - 1).push(ContourView { points: holes[n - 1], is_outer: false })
    }
}

/// The loops of the first `n` islands laid out in a row: each island's
/// outline, then its holes.
pub open spec fn flat_contours(islands: Seq<IslandView>, n: int) -> Seq<ContourView>
    decreases n,
{
    if n <= 0 {
        Seq::empty()
    } else {
        flat_contours(islands, n - 1).push(
            ContourView { points: islands[n - 1].outline, is_outer: true },
        ) + hole_contours(islands[n - 1].holes, islands[n - 1].holes.len() as int)
    }
}

/// The views of a sequence of layers.
pub open spec fn layers_of(layers: Seq<Layer>) -> Seq<LayerView> {
    Seq::new(layers.len(), |i: int| layers[i]@)
}

/// How many loops the first `n` islands hold: each its outline and its
/// holes.
pub open spec fn contour_total(islands: Seq<IslandView>, n: int) -> nat
    decreases n,
{
    if n <= 0 {
        0
    } else {
        contour_total(islands, n - 1) + 1 + islands[n - 1].holes.len()
    }
}

impl LayerView {
    /// How many loops the layer holds.
    pub open spec fn contours(self) -> nat {
        contour_total(self.islands, self.islands.len() as int)
    }
}

impl Layer {
    /// The loops of the layer laid out in a row: each island's outline,
    /// marked as outer, then its holes.
    pub fn contours(&self) -> (contours: Vec<Contour>)
        ensures
            contours_of(contours@) == flat_contours(self@.islands, self@.islands.len() as int),
    {
        let ghost islands = islands_of(self.islands@);
        let mut contours: Vec<Contour> = Vec::new();
        assert(contours_of(contours@) =~= flat_contours(islands, 0));
        let mut i: usize = 0;
        while i < self.islands.len()
            invariant
                0 <= i <= self.islands@.len(),
                islands == islands_of(self.islands@),
                contours_of(contours@) == flat_contours(islands, i as int),
            decreases self.islands@.len() - i,
        {
            let island: &Island = &self.islands[i];
            let ghost holes = islands[i as int].holes;
            let ghost before = flat_contours(islands, i as int);
            let outline: Polygon = island.outline.clone();
            contours.push(Contour { points: outline.points, is_outer: true });
            let ghost with_outline = before.push(
                ContourView { points: islands[i as int].outline, is_outer: true },
            );
            assert(contours_of(contours@) =~= with_outline + hole_contours(holes, 0));
            let mut h: usize = 0;
            while h < island.holes.len()
                invariant
                    0 <= h <= island.holes@.len(),
                    i < self.islands@.len(),
                    *island == self.islands@[i as int],
                    islands == islands_of(self.islands@),
                    holes == islands[i as int].holes,
                    contours_of(contours@) == with_outline + hole_contours(holes, h as int),
                decreases island.holes@.len() - h,
            {
                let hole: Polygon = island.holes[h].clone();
                assert(holes[h as int] == hole@);
                let ghost so_far = contours_of(contours@);
                let ghost added = ContourView { points: holes[h as int], is_outer: false };
                contours.push(Contour { points: hole.points, is_outer: false });
                assert(contours_of(contours@) =~= so_far.push(added));
                assert(hole_contours(holes, h as int + 1) == hole_contours(holes, h as int).push(
                    added,
                ));
                assert(so_far.push(added) =~= with_outline + hole_contours(holes, h as int + 1));
                h = h + 1;
            }
            i = i + 1;
        }
        contours
    }

    /// Whether nothing solid was found in the layer.
    pub fn is_empty(&self) -> (b: bool)
        ensures
            b == (self@.islands.len() == 0),
    {
        self.islands.len() == 0
    }

    /// How many loops the layer holds, outlines and holes together. A
    /// count too great for the machine is given as the greatest count
    /// the machine has.
    pub fn contour_count(&self) -> (n: usize)
        ensures
            n == if self@.contours() <= usize::MAX {
                self@.contours() as int
            } else {
                usize::MAX as int
            },
    {
        let ghost islands = islands_of(self.islands@);
        let mut total: usize = 0;
        let mut i: usize = 0;
        while i < self.islands.len()
            invariant
                0 <= i <= self.islands@.len(),
                islands == islands_of(self.islands@),
                total == contour_total(islands, i as int),
            decreases self.islands@.len() - i,
        {
            let holes: usize = self.islands[i].holes.len();
            assert(islands[i as int].holes.len() == holes);
            proof {
                lemma_contour_total_grows(islands, i as int + 1, islands.len() as int);
            }
            if holes == usize::MAX || total > usize::MAX - 1 - holes {
                return usize::MAX;
            }
            total = total + 1 + holes;
            i = i + 1;
        }
        total
    }
}

/// The loops laid out in a row are as many as the loops counted.
pub proof fn lemma_flat_contours_count(islands: Seq<IslandView>, n: int)
    ensures
        flat_contours(islands, n).len() == contour_total(islands, n),
    decreases n,
{
    if n > 0 {
        lemma_flat_contours_count(islands, n - 1);
        lemma_hole_contours_count(islands[n - 1].holes, islands[n - 1].holes.len() as int);
    }
}

/// Each hole gives one contour.
pub proof fn lemma_hole_contours_count(holes: Seq<Seq<Point2>>, n: int)
    requires
        0 <= n,
    ensures
        hole_contours(holes, n).len() == n,
    decreases n,
{
    if n > 0 {
        lemma_hole_contours_count(holes, n - 1);
    }
}

/// Counting more islands never counts fewer loops.
pub proof fn lemma_contour_total_grows(islands: Seq<IslandView>, m: int, n: int)
    requires
        m <= n,
    ensures
        contour_total(islands, m) <= contour_total(islands, n),
    decreases n - m,
{
    if m < n {
        lemma_contour_total_grows(islands, m, n - 1);
    }
}

} // verus!
