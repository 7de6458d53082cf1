use vstd::prelude::*;

verus! {

/// What the player can see of a tile.
#[derive(Debug, PartialEq, Eq, Structural, Copy, Clone)]
pub enum TileState {
    Hidden,
    Visible,
    Flagged,
}

/// One cell of the grid.
#[derive(Debug, PartialEq, Eq, Structural, Copy, Clone)]
pub struct Tile {
    pub state: TileState,
    pub has_mine: bool,
}

} // verus!
