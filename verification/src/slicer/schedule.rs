//! At which heights a mesh is cut.
//!
//! The first layer is `first_layer_height` thick, every other one
//! `layer_height`. A layer is cut by a plane through its middle, and
//! it is the height of that plane that the layer carries.

use vstd::prelude::*;
use crate::units::{floor_div, lemma_floor_div_bounds, lemma_floor_div_shift};

verus! {

/// The quotient `n / d`, rounded towards plus infinity.
pub open spec fn ceil_div(n: int, d: int) -> int
    recommends
        d > 0,
{
    floor_div(n + d - 1, d)
}

/// How many layers a mesh of height `extent` is cut into: none where it
/// has no height, one where the first layer covers it, and otherwise the
/// first layer and as many further ones as it takes to reach the top.
pub open spec fn layer_total(extent: int, layer_height: int, first_layer_height: int) -> int {
    if extent <= 0 {
        0
    } else if extent <= first_layer_height {
        1
    } else {
        1 + ceil_div(extent - first_layer_height, layer_height)
    }
}

/// The height of the top of layer `k` over the bottom of the mesh.
pub open spec fn layer_top(layer_height: int, first_layer_height: int, k: int) -> int {
    first_layer_height + k * layer_height
}

/// The height over the bottom of the mesh at which layer `k` is cut:
/// half the first layer's thickness for the first layer, and for layer
/// `k` the first layer's thickness and `k - 1/2` further thicknesses,
/// rounded down.
pub open spec fn layer_middle(layer_height: int, first_layer_height: int, k: int) -> int {
    if k <= 0 {
        floor_div(first_layer_height, 2)
    } else {
        first_layer_height + floor_div((2 * k - 1) * layer_height, 2)
    }
}

/// The quotient rounded up is the only integer `q` with
/// `(q - 1) * d < n <= q * d`.
pub proof fn lemma_ceil_div_bounds(n: int, d: int)
    requires
        d > 0,
    ensures
        (ceil_div(n, d) - 1) * d < n <= ceil_div(n, d) * d,
{
    lemma_floor_div_bounds(n + d - 1, d);
    let q = ceil_div(n, d);
    assert((q + 1) * d == q * d + d) by (nonlinear_arith);
    assert((q - 1) * d == q * d - d) by (nonlinear_arith);
}

/// The last layer is the first whose top reaches the top of the mesh.
pub proof fn lemma_layers_cover_extent(extent: int, layer_height: int, first_layer_height: int)
    requires
        extent > 0,
        layer_height > 0,
        first_layer_height > 0,
    ensures
        ({
            let n = layer_total(extent, layer_height, first_layer_height);
            &&& n >= 1
            &&& layer_top(layer_height, first_layer_height, n - 1) >= extent
            &&& n >= 2 ==> layer_top(layer_height, first_layer_height, n - 2) < extent
        }),
{
    if extent > first_layer_height {
        lemma_ceil_div_bounds(extent - first_layer_height, layer_height);
        let q = ceil_div(extent - first_layer_height, layer_height);
        if q < 1 {
            assert(q * layer_height <= 0) by (nonlinear_arith)
                requires
                    q <= 0,
                    layer_height > 0,
            ;
        }
    } else {
        assert(0 * layer_height == 0) by (nonlinear_arith);
    }
}

/// Tops rise with the layer number.
pub proof fn lemma_layer_top_increases(layer_height: int, first_layer_height: int, i: int, j: int)
    requires
        layer_height > 0,
        i < j,
    ensures
        layer_top(layer_height, first_layer_height, i) < layer_top(
            layer_height,
            first_layer_height,
            j,
        ),
{
    assert(i * layer_height < j * layer_height) by (nonlinear_arith)
        requires
            i < j,
            layer_height > 0,
    ;
}

/// The middle of a layer beyond the first is its bottom plus half a
/// thickness, rounded down.
pub proof fn lemma_layer_middle_step(layer_height: int, first_layer_height: int, k: int)
    requires
        k >= 1,
    ensures
        layer_middle(layer_height, first_layer_height, k) == first_layer_height + (k - 1)
            * layer_height + floor_div(layer_height, 2),
{
    assert((2 * k - 1) * layer_height == layer_height + ((k - 1) * layer_height) * 2)
        by (nonlinear_arith);
    lemma_floor_div_shift(layer_height, 2, (k - 1) * layer_height);
}

/// Cutting heights rise with the layer number.
pub proof fn lemma_layer_middle_increases(
    layer_height: int,
    first_layer_height: int,
    i: int,
    j: int,
)
    requires
        layer_height > 0,
        first_layer_height > 0,
        0 <= i < j,
    ensures
        layer_middle(layer_height, first_layer_height, i) < layer_middle(
            layer_height,
            first_layer_height,
            j,
        ),
{
    lemma_layer_middle_step(layer_height, first_layer_height, j);
    lemma_floor_div_bounds(layer_height, 2);
    lemma_floor_div_bounds(first_layer_height, 2);
    assert((j - 1) * layer_height >= 0) by (nonlinear_arith)
        requires
            j >= 1,
            layer_height > 0,
    ;
    if i >= 1 {
        lemma_layer_middle_step(layer_height, first_layer_height, i);
        assert((i - 1) * layer_height < (j - 1) * layer_height) by (nonlinear_arith)
            requires
                i < j,
                layer_height > 0,
        ;
    }
}

/// Every layer is cut between its bottom and its top.
pub proof fn lemma_middle_within_layer(layer_height: int, first_layer_height: int, k: int)
    requires
        layer_height > 0,
        first_layer_height > 0,
        k >= 0,
    ensures
        layer_middle(layer_height, first_layer_height, k) < layer_top(
            layer_height,
            first_layer_height,
            k,
        ),
        k == 0 ==> 0 <= layer_middle(layer_height, first_layer_height, k),
        k >= 1 ==> layer_top(layer_height, first_layer_height, k - 1) <= layer_middle(
            layer_height,
            first_layer_height,
            k,
        ),
{
    if k == 0 {
        lemma_floor_div_bounds(first_layer_height, 2);
        assert(0 * layer_height == 0) by (nonlinear_arith);
    } else {
        lemma_layer_middle_step(layer_height, first_layer_height, k);
        lemma_floor_div_bounds(layer_height, 2);
        assert(k * layer_height == (k - 1) * layer_height + layer_height) by (nonlinear_arith);
    }
}

/// How many layers a mesh of height `extent` is cut into.
pub fn count_layers(extent: i64, layer_height: i32, first_layer_height: i32) -> (n: usize)
    requires
        extent <= 0xffff_ffff,
        layer_height > 0,
        first_layer_height > 0,
    ensures
        n == layer_total(extent as int, layer_height as int, first_layer_height as int),
{
    if extent <= 0 {
        return 0;
    }
    if extent <= first_layer_height as i64 {
        return 1;
    }
    let rest: i64 = extent - first_layer_height as i64;
    let further: i64 = (rest + (layer_height as i64 - 1)) / (layer_height as i64);
    proof {
        lemma_ceil_div_bounds(rest as int, layer_height as int);
        let q = ceil_div(rest as int, layer_height as int);
        assert(q == further);
        if q > rest {
            assert((q - 1) * layer_height >= rest) by (nonlinear_arith)
                requires
                    q - 1 >= rest,
                    layer_height >= 1,
                    rest >= 0,
            ;
        }
    }
    (1 + further) as usize
}

/// The height of the top of layer `k` over the bottom of the mesh.
pub fn top_of_layer(layer_height: i32, first_layer_height: i32, k: usize) -> (z: i64)
    requires
        layer_height > 0,
        first_layer_height > 0,
        k <= 0xffff_ffff,
    ensures
        z == layer_top(layer_height as int, first_layer_height as int, k as int),
{
    assert(0 <= k * layer_height <= 0xffff_ffff * 0x7fff_ffff) by (nonlinear_arith)
        requires
            0 <= k <= 0xffff_ffff,
            0 < layer_height <= 0x7fff_ffff,
    ;
    first_layer_height as i64 + (k as i64) * (layer_height as i64)
}

/// The height over the bottom of the mesh at which layer `k` is cut.
pub fn middle_of_layer(layer_height: i32, first_layer_height: i32, k: usize) -> (z: i64)
    requires
        layer_height > 0,
        first_layer_height > 0,
        k <= 0xffff_ffff,
    ensures
        z == layer_middle(layer_height as int, first_layer_height as int, k as int),
{
    if k == 0 {
        (first_layer_height / 2) as i64
    } else {
        proof {
            lemma_layer_middle_step(layer_height as int, first_layer_height as int, k as int);
            assert(0 <= (k - 1) * layer_height <= 0xffff_fffe * 0x7fff_ffff) by (nonlinear_arith)
                requires
                    1 <= k <= 0xffff_ffff,
                    0 < layer_height <= 0x7fff_ffff,
            ;
        }
        first_layer_height as i64 + (k as i64 - 1) * (layer_height as i64) + (layer_height / 2) as i64
    }
}

} // verus!
