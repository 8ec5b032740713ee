//! The contents of one grid cell and its compact numeric wire identifier.
//!
//! Every cell of the grid holds exactly one [`Tile`]. On the wire a tile
//! travels as a signed 16-bit identifier: `EMPTY` is 0, `FOOD` is -1,
//! `DeadSnake` is -2, and a cell occupied by agent `id` is `id + 10`.
//! The offset keeps agent ids (including id 0) distinguishable from the
//! empty cell.

use vstd::prelude::*;

verus! {

/// What one grid cell holds.
#[allow(non_camel_case_types)]
#[derive(Clone, Copy, Debug, PartialEq, Eq, Structural)]
pub enum Tile {
    EMPTY,
    FOOD,
    Snake { id: i32 },
    DeadSnake,
}

/// The wire identifier of a tile, as a mathematical integer.
pub open spec fn spec_tile_id(t: Tile) -> int {
    match t {
        Tile::EMPTY => 0,
        Tile::DeadSnake => -2,
        Tile::FOOD => -1,
        Tile::Snake { id } => id + 10,
    }
}

/// The tile a wire identifier decodes to. Everything outside
/// {0, -1, -2} is read as an occupied cell, shifted back by 10.
pub open spec fn spec_tile_of_id(id: int) -> Tile {
    if id == -2 {
        Tile::DeadSnake
    } else if id == -1 {
        Tile::FOOD
    } else if id == 0 {
        Tile::EMPTY
    } else {
        Tile::Snake { id: (id - 10) as i32 }
    }
}

/// A tile whose identifier fits the signed 16-bit wire field and, for an
/// occupied cell, carries a valid (nonnegative) agent id.
pub open spec fn tile_wire_ok(t: Tile) -> bool {
    t matches Tile::Snake { id } ==> 0 <= id <= i16::MAX - 10
}

impl Tile {
    /// The compact numeric identifier of this tile.
    pub fn get_tile_id(&self) -> (r: i32)
        requires
            self matches Tile::Snake { id } ==> id <= i32::MAX - 10,
        ensures
            r == spec_tile_id(*self),
    {
        match self {
            Tile::EMPTY => 0,
            Tile::DeadSnake => -2,
            Tile::FOOD => -1,
            Tile::Snake { id } => *id + 10,
        }
    }

    /// The tile a wire identifier stands for; exact inverse of
    /// `get_tile_id` on identifiers of wire-safe tiles.
    pub fn from_tile_id(id: i16) -> (t: Tile)
        ensures
            t == spec_tile_of_id(id as int),
    {
        match id {
            -2 => Tile::DeadSnake,
            -1 => Tile::FOOD,
            0 => Tile::EMPTY,
            _ => Tile::Snake { id: (id as i32) - 10 },
        }
    }
}

/// Law: decoding the identifier of any wire-safe tile yields the tile
/// back, and an occupied cell encodes as its agent id plus 10.
pub proof fn lemma_tile_id_round_trip(t: Tile)
    requires
        tile_wire_ok(t),
    ensures
        spec_tile_of_id(spec_tile_id(t)) == t,
        t matches Tile::Snake { id } ==> spec_tile_id(t) == id + 10,
{
}

} // verus!
