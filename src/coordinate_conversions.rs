//! The mapping between board coordinates and dense bit indices.
use vstd::prelude::*;
use vstd::arithmetic::div_mod::lemma_fundamental_div_mod_converse;
use crate::{PylosError, PylosResult};

verus! {

/// Number of intersections on the 0-based layers `0..n`: `1² + 2² + ... + n²`.
pub open spec fn total_positions(n: nat) -> nat
    decreases n,
{
    if n == 0 {
        0
    } else {
        total_positions((n - 1) as nat) + n * n
    }
}

/// The closed form of the sum of squares: `6 * (1² + ... + n²) == n(n+1)(2n+1)`.
pub proof fn lemma_total_positions_closed_form(n: nat)
    ensures
        6 * total_positions(n) == n * (n + 1) * (2 * n + 1),
    decreases n,
{
    if n > 0 {
        let m = (n - 1) as nat;
        lemma_total_positions_closed_form(m);
        let tm = total_positions(m);
        let tn = total_positions(n);
        assert(tn == tm + n * n);
        assert(6 * tn == n * (n + 1) * (2 * n + 1)) by (nonlinear_arith)
            requires
                m + 1 == n,
                tn == tm + n * n,
                6 * tm == m * (m + 1) * (2 * m + 1),
        ;
    } else {
        assert(n * (n + 1) * (2 * n + 1) == 0) by (nonlinear_arith)
            requires
                n == 0,
        ;
    }
}

/// Each layer holds at least one intersection, so `n` layers hold at least `n`.
proof fn lemma_total_positions_at_least(n: nat)
    ensures
        total_positions(n) >= n,
    decreases n,
{
    if n > 0 {
        lemma_total_positions_at_least((n - 1) as nat);
        assert(n * n >= 1) by (nonlinear_arith)
            requires
                n >= 1,
        ;
    }
}

/// Number of intersections on a board of `layers` layers.
pub fn total_positions_for_layer_count(layers: u32) -> (r: u32)
    requires
        total_positions(layers as nat) <= u32::MAX,
    ensures
        r == total_positions(layers as nat),
{
    let n = layers as u64;
    proof {
        lemma_total_positions_closed_form(n as nat);
        assert(n < 4096) by (nonlinear_arith)
            requires
                6 * total_positions(n as nat) == n * (n + 1) * (2 * n + 1),
                total_positions(n as nat) <= u32::MAX,
        ;
        assert(n * (n + 1) < 4097 * 4097 && n * (n + 1) * (2 * n + 1) < 4097 * 4097 * 8193)
            by (nonlinear_arith)
            requires
                n < 4096,
        ;
    }
    (n * (n + 1) * (2 * n + 1) / 6) as u32
}

/// The number of bits in the register that holds a set of intersections.
pub const CAPACITY: u32 = 64;

/// Flat index of the 0-based coordinates `(layer, x, y)`: the layers below
/// `layer` come first, then the rows of `layer`, `y` the slower index.
pub open spec fn offset_of(layer: nat, x: nat, y: nat) -> nat {
    total_positions(layer) + y * (layer + 1) + x
}

/// Whether `(x, y)` lies on the 0-based layer `layer`.
pub open spec fn on_layer(layer: nat, x: nat, y: nat) -> bool {
    x < layer + 1 && y < layer + 1
}

/// Whether the flat index `offset` falls in the block of the 0-based layer `layer`.
pub open spec fn in_layer_block(offset: nat, layer: nat) -> bool {
    total_positions(layer) <= offset < total_positions(layer + 1)
}

/// The first layer from `from` upward whose block reaches past `offset`.
/// Every block is at least one index wide, so the search ends by
/// `offset` at the latest; the second test only makes that plain.
pub open spec fn layer_from(offset: nat, from: nat) -> nat
    decreases offset - from,
{
    if offset < total_positions(from + 1) || offset <= from {
        from
    } else {
        layer_from(offset, from + 1)
    }
}

/// The 0-based layer that holds the flat index `offset`.
pub open spec fn layer_of(offset: nat) -> nat {
    layer_from(offset, 0)
}

/// The 0-based coordinates `(layer, x, y)` of the flat index `offset`.
pub open spec fn coordinates_of(offset: nat) -> (nat, nat, nat) {
    let layer = layer_of(offset);
    let remainder = (offset - total_positions(layer)) as nat;
    (layer, remainder % (layer + 1), remainder / (layer + 1))
}

/// Layer blocks follow each other: a lower layer's block ends before a higher one's starts.
proof fn lemma_total_positions_monotonic(a: nat, b: nat)
    requires
        a <= b,
    ensures
        total_positions(a) <= total_positions(b),
    decreases b - a,
{
    if a < b {
        lemma_total_positions_monotonic(a, (b - 1) as nat);
    }
}

/// At most one layer block holds a given index.
proof fn lemma_layer_block_unique(offset: nat, a: nat, b: nat)
    requires
        in_layer_block(offset, a),
        in_layer_block(offset, b),
    ensures
        a == b,
{
    if a < b {
        lemma_total_positions_monotonic(a + 1, b);
    } else if b < a {
        lemma_total_positions_monotonic(b + 1, a);
    }
}

/// Searching upward from a layer at or below the index finds the block that holds it.
proof fn lemma_layer_from_in_block(offset: nat, from: nat)
    requires
        total_positions(from) <= offset,
    ensures
        in_layer_block(offset, layer_from(offset, from)),
    decreases offset - from,
{
    lemma_total_positions_at_least(from + 1);
    if offset >= total_positions(from + 1) {
        lemma_layer_from_in_block(offset, from + 1);
    }
}

/// Every index lies in the block of `layer_of`.
pub proof fn lemma_layer_of_in_block(offset: nat)
    ensures
        in_layer_block(offset, layer_of(offset)),
{
    lemma_layer_from_in_block(offset, 0);
}

/// The coordinates of a layer map into that layer's block.
proof fn lemma_offset_in_block(layer: nat, x: nat, y: nat)
    requires
        on_layer(layer, x, y),
    ensures
        in_layer_block(offset_of(layer, x, y), layer),
{
    let s = layer + 1;
    assert(y * s + x < s * s) by (nonlinear_arith)
        requires
            x < s,
            y < s,
    ;
    assert(total_positions(layer + 1) == total_positions(layer) + s * s);
}

/// Mapping valid coordinates to their index and back gives the same coordinates.
pub proof fn lemma_coordinates_of_offset(layer: nat, x: nat, y: nat)
    requires
        on_layer(layer, x, y),
    ensures
        coordinates_of(offset_of(layer, x, y)) == (layer, x, y),
{
    let offset = offset_of(layer, x, y);
    lemma_offset_in_block(layer, x, y);
    lemma_layer_of_in_block(offset);
    lemma_layer_block_unique(offset, layer, layer_of(offset));
    let s = (layer + 1) as int;
    let remainder = (offset - total_positions(layer)) as nat;
    assert(remainder == y * s + x);
    lemma_fundamental_div_mod_converse(remainder as int, s, y as int, x as int);
}

/// Mapping an index to its coordinates and back gives the same index, and
/// those coordinates lie on their layer.
pub proof fn lemma_offset_of_coordinates(offset: nat)
    ensures
        on_layer(coordinates_of(offset).0, coordinates_of(offset).1, coordinates_of(offset).2),
        offset_of(coordinates_of(offset).0, coordinates_of(offset).1, coordinates_of(offset).2)
            == offset,
{
    let layer = layer_of(offset);
    lemma_layer_of_in_block(offset);
    let s = layer + 1;
    let remainder = (offset - total_positions(layer)) as nat;
    assert(total_positions(layer + 1) == total_positions(layer) + s * s);
    let x = remainder % s;
    let y = remainder / s;
    assert(remainder == y * s + x) by (nonlinear_arith)
        requires
            s > 0,
            x == remainder % s,
            y == remainder / s,
    ;
    assert(y < s) by (nonlinear_arith)
        requires
            s > 0,
            remainder < s * s,
            y == remainder / s,
    ;
}

/// A position on one of the layers `0..layers` has an index below the
/// number of intersections of those layers.
pub proof fn lemma_offset_in_board(layers: nat, layer: nat, x: nat, y: nat)
    requires
        layer < layers,
        on_layer(layer, x, y),
    ensures
        offset_of(layer, x, y) < total_positions(layers),
{
    lemma_offset_in_block(layer, x, y);
    lemma_total_positions_monotonic(layer + 1, layers);
}

/// An index below the number of intersections of the layers `0..layers`
/// lies on one of those layers.
pub proof fn lemma_layer_below_count(layers: nat, offset: nat)
    requires
        offset < total_positions(layers),
    ensures
        layer_of(offset) < layers,
{
    lemma_layer_of_in_block(offset);
    if layer_of(offset) >= layers {
        lemma_total_positions_monotonic(layers, layer_of(offset));
    }
}

/// Side length of the 0-based layer `layer`.
pub fn size_for_layer_0_based(layer: u32) -> (r: u32)
    requires
        layer < u32::MAX,
    ensures
        r == layer + 1,
{
    layer + 1
}

/// Flat index of the first intersection of the 0-based layer `layer`.
pub fn bit_offset_for_layer_0_based(layer: u32) -> (r: u32)
    requires
        total_positions(layer as nat) <= u32::MAX,
    ensures
        r == total_positions(layer as nat),
{
    total_positions_for_layer_count(layer)
}

/// Flat index of the 0-based coordinates `(layer, x, y)`.
pub fn offset_from_0_based_coordinates(layer: u32, x: u32, y: u32) -> (r: u32)
    requires
        offset_of(layer as nat, x as nat, y as nat) < CAPACITY,
    ensures
        r == offset_of(layer as nat, x as nat, y as nat),
{
    proof {
        lemma_total_positions_at_least(layer as nat);
        assert(y * (layer + 1) < 64);
    }
    bit_offset_for_layer_0_based(layer) + y * size_for_layer_0_based(layer) + x
}

/// The 0-based coordinates `(layer, x, y)` of the flat index `offset`.
pub fn coordinates_0_based_from_offset(offset: u32) -> (r: (u32, u32, u32))
    requires
        offset < CAPACITY,
    ensures
        r.0 == coordinates_of(offset as nat).0,
        r.1 == coordinates_of(offset as nat).1,
        r.2 == coordinates_of(offset as nat).2,
        in_layer_block(offset as nat, r.0 as nat),
        on_layer(r.0 as nat, r.1 as nat, r.2 as nat),
        offset_of(r.0 as nat, r.1 as nat, r.2 as nat) == offset,
{
    proof {
        lemma_offset_of_coordinates(offset as nat);
        lemma_layer_of_in_block(offset as nat);
    }
    let mut layer: u32 = 0;
    let mut layer_start: u32 = 0;
    loop
        invariant
            layer <= offset,
            layer_start == total_positions(layer as nat),
            layer_start <= offset,
            offset < CAPACITY,
            layer_of(offset as nat) == layer_from(offset as nat, layer as nat),
        ensures
            layer_start == total_positions(layer as nat),
            layer_start <= offset < total_positions(layer as nat + 1),
            layer_of(offset as nat) == layer as nat,
        decreases offset - layer,
    {
        proof {
            lemma_total_positions_at_least(layer as nat + 1);
            assert(total_positions(layer as nat + 1) == layer_start + (layer + 1) * (layer + 1));
            assert((layer + 1) * (layer + 1) <= 64 * 64) by (nonlinear_arith)
                requires
                    layer < 64,
            ;
        }
        let next_start = bit_offset_for_layer_0_based(layer + 1);
        if offset < next_start {
            break;
        }
        layer = layer + 1;
        layer_start = next_start;
    }
    let remainder = offset - layer_start;
    let size = size_for_layer_0_based(layer);
    (layer, remainder % size, remainder / size)
}

/// The fixed facts of one game: how many layers its board has.
#[derive(Debug, PartialEq, Eq, Structural)]
pub struct GameConstants {
    pub layers: u32,
}

impl GameConstants {
    /// Whether every intersection of the board has an index in the register.
    pub open spec fn wf(&self) -> bool {
        total_positions(self.layers as nat) <= CAPACITY
    }

    /// The constants of a game with `layers` layers; fails where the board
    /// has more intersections than the register has bits.
    pub fn build(layers: u32) -> (r: PylosResult<GameConstants>)
        ensures
            total_positions(layers as nat) <= CAPACITY <==> r.is_ok(),
            r.is_ok() ==> r == Ok::<GameConstants, PylosError>(GameConstants { layers }),
            !r.is_ok() ==> r == Err::<GameConstants, PylosError>(
                PylosError::CapacityExceeded { layers },
            ),
    {
        proof {
            lemma_total_positions_at_least(layers as nat);
            if layers <= CAPACITY {
                let n = layers as nat;
                lemma_total_positions_closed_form(n);
                assert(n * (n + 1) * (2 * n + 1) <= 64 * 65 * 129) by (nonlinear_arith)
                    requires
                        n <= 64,
                ;
            }
        }
        if layers > CAPACITY || total_positions_for_layer_count(layers) > CAPACITY {
            return Err(PylosError::CapacityExceeded { layers });
        }
        Ok(GameConstants { layers })
    }
}

} // verus!
