//! Tile metadata: sprite-sheet regions, per-tile-type data and the tileset
//! palette that a parsed level indexes by tile-type id.

use vstd::prelude::*;

verus! {

/// A rectangular region of the sprite sheet, as declared in level text:
/// position `(x, y)` and signed extents `(w, h)`.
#[derive(Clone, Copy, Debug, PartialEq, Eq, Structural)]
pub struct SheetRegion {
    pub x: u16,
    pub y: u16,
    pub w: i16,
    pub h: i16,
}

impl SheetRegion {
    /// The all-zero region, used when a level declares no background.
    pub fn zero() -> (r: SheetRegion)
        ensures
            r == (SheetRegion { x: 0, y: 0, w: 0, h: 0 }),
    {
        SheetRegion { x: 0, y: 0, w: 0, h: 0 }
    }
}

/// Per-tile-type metadata: whether entities may pass through the tile, and
/// where its artwork sits in the sprite sheet.
#[derive(Clone, Copy, Debug, PartialEq, Eq, Structural)]
pub struct TileData {
    pub solid: bool,
    pub sheet_region: SheetRegion,
}

/// An ordered palette of tile metadata, indexed by the tile-type id that
/// the level parser assigns in first-seen order.
pub struct Tileset {
    tiles: Vec<TileData>,
}

impl View for Tileset {
    type V = Seq<TileData>;

    closed spec fn view(&self) -> Seq<TileData> {
        self.tiles@
    }
}

impl Tileset {
    /// Wraps an ordered tile palette.
    pub fn new(tiles: Vec<TileData>) -> (r: Tileset)
        ensures
            r@ == tiles@,
    {
        Tileset { tiles }
    }

    /// The number of tile types.
    pub fn len(&self) -> (r: usize)
        ensures
            r == self@.len(),
    {
        self.tiles.len()
    }

    /// The metadata of tile-type id `i`.
    pub fn get(&self, i: usize) -> (r: &TileData)
        requires
            i < self@.len(),
        ensures
            *r == self@[i as int],
    {
        &self.tiles[i]
    }
}

} // verus!
