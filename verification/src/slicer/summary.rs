//! What a finished slicing run amounts to, in four numbers.

use vstd::prelude::*;
use crate::slicer::layer::{contour_total, layers_of, Layer, LayerView};

verus! {

/// The totals of a slicing run. A total too great for the machine is
/// given as the greatest number the machine has.
#[derive(Clone, Copy, Debug, PartialEq, Eq, Structural)]
pub struct SliceSummary {
    pub layers: usize,
    pub non_empty_layers: usize,
    pub islands: usize,
    pub contours: usize,
}

/// `n`, or the greatest number the machine has where `n` is greater.
pub open spec fn capped(n: nat) -> usize {
    if n <= usize::MAX {
        n as usize
    } else {
        usize::MAX
    }
}

/// How many of the first `n` layers hold an island.
pub open spec fn occupied_total(layers: Seq<LayerView>, n: int) -> nat
    decreases n,
{
    if n <= 0 {
        0
    } else {
        occupied_total(layers, n - 1) + if layers[n - 1].islands.len() > 0 {
            1nat
        } else {
            0nat
        }
    }
}

/// How many islands the first `n` layers hold.
pub open spec fn island_total(layers: Seq<LayerView>, n: int) -> nat
    decreases n,
{
    if n <= 0 {
        0
    } else {
        island_total(layers, n - 1) + layers[n - 1].islands.len()
    }
}

/// How many loops the first `n` layers hold, outlines and holes
/// together.
pub open spec fn loop_total(layers: Seq<LayerView>, n: int) -> nat
    decreases n,
{
    if n <= 0 {
        0
    } else {
        loop_total(layers, n - 1) + layers[n - 1].contours()
    }
}

/// Adds two counts, stopping at the greatest number the machine has.
pub fn add_capped(a: usize, b: usize) -> (r: usize)
    ensures
        r == capped((a + b) as nat),
{
    if a > usize::MAX - b {
        usize::MAX
    } else {
        a + b
    }
}

/// Sums up what `layers` hold.
pub fn summarize(layers: &Vec<Layer>) -> (s: SliceSummary)
    ensures
        s.layers == layers@.len(),
        s.non_empty_layers == occupied_total(layers_of(layers@), layers@.len() as int),
        s.islands == capped(island_total(layers_of(layers@), layers@.len() as int)),
        s.contours == capped(loop_total(layers_of(layers@), layers@.len() as int)),
{
    let ghost views = layers_of(layers@);
    let mut occupied: usize = 0;
    let mut islands: usize = 0;
    let mut contours: usize = 0;
    let mut i: usize = 0;
    while i < layers.len()
        invariant
            0 <= i <= layers@.len(),
            views == layers_of(layers@),
            occupied == occupied_total(views, i as int),
            occupied <= i,
            islands == capped(island_total(views, i as int)),
            contours == capped(loop_total(views, i as int)),
        decreases layers@.len() - i,
    {
        let layer: &Layer = &layers[i];
        assert(views[i as int] == layer@);
        if !layer.is_empty() {
            occupied = occupied + 1;
        }
        islands = add_capped(islands, layer.islands.len());
        contours = add_capped(contours, layer.contour_count());
        i = i + 1;
    }
    SliceSummary { layers: layers.len(), non_empty_layers: occupied, islands, contours }
}

} // verus!
