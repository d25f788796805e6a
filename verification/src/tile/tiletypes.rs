//! The tile coordinate space: blocks of 16×16 dots.

use vstd::prelude::*;

verus! {

/// Unit marker of the tile coordinate space.
pub struct TileSpace;

/// Side of a tile in dots.
pub const TILE_SIZE: usize = 16;

/// The place of a tile in the grid of tiles: column and row.
#[derive(Clone, Copy, Debug, PartialEq, Eq, Structural)]
pub struct TilePoint {
    pub x: u8,
    pub y: u8,
}

impl TilePoint {
    pub fn new(x: u8, y: u8) -> (p: TilePoint)
        ensures
            p.x == x,
            p.y == y,
    {
        TilePoint { x, y }
    }
}

} // verus!
