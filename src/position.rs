//! Intersections of a board in game coordinates, and sets of them.
use vstd::prelude::*;
use crate::coordinate_conversions::{
    coordinates_0_based_from_offset, coordinates_of, lemma_coordinates_of_offset,
    lemma_layer_below_count, lemma_offset_in_board, offset_from_0_based_coordinates, offset_of,
    size_for_layer_0_based, total_positions, GameConstants, CAPACITY,
};
use crate::{PylosError, PylosResult};

verus! {

/// Game coordinates `(layer, x, y)` of the flat index `offset` on a board of
/// `layers` layers: layer 1 is the largest, and all three count from 1.
pub open spec fn game_coordinates_of(layers: nat, offset: nat) -> (int, int, int) {
    let c = coordinates_of(offset);
    (layers - c.0, c.1 + 1 as int, c.2 + 1 as int)
}

/// Side length of the game layer `layer` on a board of `layers` layers:
/// game layer 1 is the 0-based layer `layers - 1`.
pub open spec fn side_of_game_layer(layers: u32, layer: u32) -> int {
    layers - layer + 1
}

/// One intersection of a board, bound to the constants of its game.
#[derive(Debug, PartialEq, Clone, Copy)]
pub struct Position<'a> {
    gc: &'a GameConstants,
    offset: u32,
}

impl<'a> Position<'a> {
    /// The constants of the game this position belongs to.
    pub closed spec fn constants(&self) -> GameConstants {
        *self.gc
    }

    /// The flat index of this position.
    pub closed spec fn index(&self) -> nat {
        self.offset as nat
    }

    /// The position lies on its board, and the board fits the register.
    pub open spec fn wf(&self) -> bool {
        &&& self.constants().wf()
        &&& self.index() < total_positions(self.constants().layers as nat)
    }

    /// The position at game coordinates `(layer, x, y)`, all counted from 1,
    /// layer 1 being the largest layer.
    pub fn build(gc: &'a GameConstants, layer: u32, x: u32, y: u32) -> (r: PylosResult<Position<'a>>)
        requires
            gc.wf(),
        ensures
            layer > gc.layers ==> r == Err::<Position, PylosError>(
                PylosError::LayerOutOfRange { layers: gc.layers, layer },
            ),
            layer == 0 ==> r == Err::<Position, PylosError>(PylosError::InvalidLayer),
            1 <= layer <= gc.layers && !(1 <= x <= side_of_game_layer(gc.layers, layer)) ==> r
                == Err::<Position, PylosError>(
                PylosError::CoordinateOutOfRange {
                    coordinate: x,
                    layer_size: side_of_game_layer(gc.layers, layer) as u32,
                },
            ),
            1 <= layer <= gc.layers && 1 <= x <= side_of_game_layer(gc.layers, layer) && !(1 <= y
                <= side_of_game_layer(gc.layers, layer)) ==> r == Err::<Position, PylosError>(
                PylosError::CoordinateOutOfRange {
                    coordinate: y,
                    layer_size: side_of_game_layer(gc.layers, layer) as u32,
                },
            ),
            1 <= layer <= gc.layers && 1 <= x <= side_of_game_layer(gc.layers, layer) && 1 <= y
                <= side_of_game_layer(gc.layers, layer) ==> {
                &&& r.is_ok()
                &&& r.unwrap().wf()
                &&& r.unwrap().constants() == *gc
                &&& r.unwrap().index() == offset_of(
                    (gc.layers - layer) as nat,
                    (x - 1) as nat,
                    (y - 1) as nat,
                )
            },
    {
        if layer > gc.layers {
            return Err(PylosError::LayerOutOfRange { layers: gc.layers, layer });
        }
        if layer == 0 {
            return Err(PylosError::InvalidLayer);
        }
        let layer_0_based = gc.layers - layer;
        let layer_size = size_for_layer_0_based(layer_0_based);
        if x == 0 || x > layer_size {
            return Err(PylosError::CoordinateOutOfRange { coordinate: x, layer_size });
        }
        if y == 0 || y > layer_size {
            return Err(PylosError::CoordinateOutOfRange { coordinate: y, layer_size });
        }
        proof {
            lemma_offset_in_board(gc.layers as nat, layer_0_based as nat, (x - 1) as nat, (y - 1) as nat);
        }
        Ok(Position { gc, offset: offset_from_0_based_coordinates(layer_0_based, x - 1, y - 1) })
    }

    /// The game coordinates `(layer, x, y)` of this position.
    pub fn coordinates(&self) -> (r: (u32, u32, u32))
        requires
            self.wf(),
        ensures
            r.0 == game_coordinates_of(self.constants().layers as nat, self.index()).0,
            r.1 == game_coordinates_of(self.constants().layers as nat, self.index()).1,
            r.2 == game_coordinates_of(self.constants().layers as nat, self.index()).2,
    {
        let (layer, x, y) = coordinates_0_based_from_offset(self.offset);
        proof {
            lemma_layer_below_count(self.gc.layers as nat, self.offset as nat);
        }
        (self.gc.layers - layer, x + 1, y + 1)
    }

    /// The index of a well-formed position has a bit in the register.
    pub proof fn lemma_index_in_register(&self)
        requires
            self.wf(),
        ensures
            self.index() < CAPACITY,
    {
    }
}

/// Building a position from valid game coordinates and reading its
/// coordinates back gives the same coordinates.
pub proof fn lemma_game_coordinates_round_trip(layers: nat, layer: nat, x: nat, y: nat)
    requires
        1 <= layer <= layers,
        1 <= x <= layers - layer + 1,
        1 <= y <= layers - layer + 1,
    ensures
        game_coordinates_of(
            layers,
            offset_of((layers - layer) as nat, (x - 1) as nat, (y - 1) as nat),
        ) == (layer as int, x as int, y as int),
{
    lemma_coordinates_of_offset((layers - layer) as nat, (x - 1) as nat, (y - 1) as nat);
}

/// Whether bit `i` of `bits` is set.
pub open spec fn bit_is_set(bits: u64, i: u64) -> bool {
    (bits >> i) & 1 == 1
}

/// The indices whose bits are set in `bits`.
pub open spec fn indices_of(bits: u64) -> Set<nat> {
    Set::new(|i: nat| i < CAPACITY && bit_is_set(bits, i as u64))
}

proof fn lemma_bits_empty(i: u64)
    by (bit_vector)
    requires
        i < 64,
    ensures
        !bit_is_set(0, i),
{
}

proof fn lemma_bits_single(bits: u64, i: u64)
    by (bit_vector)
    requires
        i < 64,
    ensures
        (bits & (1u64 << i) != 0) == bit_is_set(bits, i),
{
}

proof fn lemma_bits_set(bits: u64, i: u64, j: u64)
    by (bit_vector)
    requires
        i < 64,
        j < 64,
    ensures
        bit_is_set(bits | (1u64 << j), i) == (bit_is_set(bits, i) || i == j),
{
}

proof fn lemma_bits_clear(bits: u64, i: u64, j: u64)
    by (bit_vector)
    requires
        i < 64,
        j < 64,
    ensures
        bit_is_set(bits & !(1u64 << j), i) == (bit_is_set(bits, i) && i != j),
{
}

proof fn lemma_bits_combine(a: u64, b: u64, i: u64)
    by (bit_vector)
    requires
        i < 64,
    ensures
        bit_is_set(a | b, i) == (bit_is_set(a, i) || bit_is_set(b, i)),
        bit_is_set(a & b, i) == (bit_is_set(a, i) && bit_is_set(b, i)),
        bit_is_set(a & !b, i) == (bit_is_set(a, i) && !bit_is_set(b, i)),
{
}

/// A set of intersections of one board, one bit per flat index.
#[derive(Debug, PartialEq, Eq, Structural, Clone, Copy)]
pub struct PositionSet {
    positions: u64,
}

impl PositionSet {
    /// The bitmask of this set.
    pub closed spec fn bits(&self) -> u64 {
        self.positions
    }

    /// The flat indices of the members of this set.
    pub open spec fn view(&self) -> Set<nat> {
        indices_of(self.bits())
    }

    /// The empty set.
    pub fn new() -> (r: PositionSet)
        ensures
            r.bits() == 0,
            r@ == Set::<nat>::empty(),
    {
        let r = PositionSet { positions: 0 };
        proof {
            assert forall|i: nat| !r@.contains(i) by {
                if i < CAPACITY {
                    lemma_bits_empty(i as u64);
                }
            }
            assert(r@ =~= Set::<nat>::empty());
        }
        r
    }

    /// Whether `p` is a member of this set.
    pub fn contains(&self, p: &Position) -> (r: bool)
        requires
            p.wf(),
        ensures
            r == self@.contains(p.index()),
    {
        proof {
            p.lemma_index_in_register();
            lemma_bits_single(self.positions, p.offset as u64);
        }
        self.positions & (1u64 << p.offset) != 0
    }

    /// Adds `p` to this set; adding a member again changes nothing.
    pub fn insert(&mut self, p: &Position)
        requires
            p.wf(),
        ensures
            final(self)@ == old(self)@.insert(p.index()),
    {
        proof {
            p.lemma_index_in_register();
        }
        let ghost before = self.positions;
        self.positions = self.positions | (1u64 << p.offset);
        proof {
            assert forall|i: nat| self@.contains(i) == old(self)@.insert(p.index()).contains(i) by {
                if i < CAPACITY {
                    lemma_bits_set(before, i as u64, p.offset as u64);
                }
            }
            assert(self@ =~= old(self)@.insert(p.index()));
        }
    }

    /// Takes `p` out of this set; taking out a non-member changes nothing.
    pub fn remove(&mut self, p: &Position)
        requires
            p.wf(),
        ensures
            final(self)@ == old(self)@.remove(p.index()),
    {
        proof {
            p.lemma_index_in_register();
        }
        let ghost before = self.positions;
        self.positions = self.positions & !(1u64 << p.offset);
        proof {
            assert forall|i: nat| self@.contains(i) == old(self)@.remove(p.index()).contains(i) by {
                if i < CAPACITY {
                    lemma_bits_clear(before, i as u64, p.offset as u64);
                }
            }
            assert(self@ =~= old(self)@.remove(p.index()));
        }
    }

    /// The members of either set.
    pub fn union(&self, other: &PositionSet) -> (r: PositionSet)
        ensures
            r.bits() == self.bits() | other.bits(),
            r@ == self@.union(other@),
    {
        let r = PositionSet { positions: self.positions | other.positions };
        proof {
            assert forall|i: nat| r@.contains(i) == self@.union(other@).contains(i) by {
                if i < CAPACITY {
                    lemma_bits_combine(self.positions, other.positions, i as u64);
                }
            }
            assert(r@ =~= self@.union(other@));
        }
        r
    }

    /// The members of both sets.
    pub fn intersection(&self, other: &PositionSet) -> (r: PositionSet)
        ensures
            r.bits() == self.bits() & other.bits(),
            r@ == self@.intersect(other@),
    {
        let r = PositionSet { positions: self.positions & other.positions };
        proof {
            assert forall|i: nat| r@.contains(i) == self@.intersect(other@).contains(i) by {
                if i < CAPACITY {
                    lemma_bits_combine(self.positions, other.positions, i as u64);
                }
            }
            assert(r@ =~= self@.intersect(other@));
        }
        r
    }

    /// The members of this set that are not members of `other`.
    pub fn difference(&self, other: &PositionSet) -> (r: PositionSet)
        ensures
            r.bits() == self.bits() & !other.bits(),
            r@ == self@.difference(other@),
    {
        let r = PositionSet { positions: self.positions & !other.positions };
        proof {
            assert forall|i: nat| r@.contains(i) == self@.difference(other@).contains(i) by {
                if i < CAPACITY {
                    lemma_bits_combine(self.positions, other.positions, i as u64);
                }
            }
            assert(r@ =~= self@.difference(other@));
        }
        r
    }
}

/// After inserting a position the set contains it; after removing it the
/// set does not; inserting or removing twice is the same as doing it once.
pub proof fn lemma_insert_remove_laws(s: PositionSet, p: Position)
    ensures
        s@.insert(p.index()).contains(p.index()),
        !s@.insert(p.index()).remove(p.index()).contains(p.index()),
        s@.insert(p.index()).insert(p.index()) == s@.insert(p.index()),
        s@.remove(p.index()).remove(p.index()) == s@.remove(p.index()),
{
    assert(s@.insert(p.index()).insert(p.index()) =~= s@.insert(p.index()));
    assert(s@.remove(p.index()).remove(p.index()) =~= s@.remove(p.index()));
}

/// Set algebra on position sets: a union holds what either operand holds,
/// an intersection what both hold, a difference what only the first holds;
/// what is left after taking out `b` has nothing in common with `b`.
pub proof fn lemma_set_algebra_laws(a: PositionSet, b: PositionSet)
    ensures
        forall|i: nat| #[trigger] a@.union(b@).contains(i) <==> a@.contains(i) || b@.contains(i),
        forall|i: nat|
            #[trigger] a@.intersect(b@).contains(i) <==> a@.contains(i) && b@.contains(i),
        forall|i: nat|
            #[trigger] a@.difference(b@).contains(i) <==> a@.contains(i) && !b@.contains(i),
        a@.difference(b@).intersect(b@) == Set::<nat>::empty(),
        (a.bits() & !b.bits()) & b.bits() == 0,
{
    assert(a@.difference(b@).intersect(b@) =~= Set::<nat>::empty());
    let x = a.bits();
    let y = b.bits();
    assert((x & !y) & y == 0) by (bit_vector);
}

} // verus!
