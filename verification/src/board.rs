//! The mathematical model of a minefield, over which the contracts of the
//! executable operations are stated.

use vstd::prelude::*;
use crate::minefield::MineFieldState;
use crate::tile::{Tile, TileState};

verus! {

/// A minefield as a mathematical value: its dimensions, its two counters and
/// its tiles in row-major order.
pub struct Board {
    pub width: nat,
    pub height: nat,
    pub mines: nat,
    pub flags: nat,
    pub tiles: Seq<Tile>,
}

/// How many of `tiles` hold a mine.
pub open spec fn count_mines(tiles: Seq<Tile>) -> nat
    decreases tiles.len(),
{
    if tiles.len() == 0 {
        0
    } else {
        count_mines(tiles.drop_last()) + if tiles.last().has_mine { 1nat } else { 0nat }
    }
}

/// How many of `tiles` are flagged.
pub open spec fn count_flags(tiles: Seq<Tile>) -> nat
    decreases tiles.len(),
{
    if tiles.len() == 0 {
        0
    } else {
        count_flags(tiles.drop_last()) + if tiles.last().state is Flagged { 1nat } else { 0nat }
    }
}

/// A hidden tile made visible; any other tile as it is.
pub open spec fn uncovered(tile: Tile) -> Tile {
    if tile.state is Hidden {
        Tile { state: TileState::Visible, ..tile }
    } else {
        tile
    }
}

/// A tile as the end of a game shows it: a flag that stands on a mine
/// stays, every other tile is visible.
pub open spec fn shown(tile: Tile) -> Tile {
    if tile.state is Flagged && tile.has_mine {
        tile
    } else {
        Tile { state: TileState::Visible, ..tile }
    }
}

/// Two distinct positions that touch, diagonals included.
pub open spec fn adjacent(a: (int, int), b: (int, int)) -> bool {
    &&& a != b
    &&& a.0 - 1 <= b.0 <= a.0 + 1
    &&& a.1 - 1 <= b.1 <= a.1 + 1
}

/// The mathematical integers that a vector of indices stands for.
pub open spec fn indices(picks: Seq<usize>) -> Seq<int> {
    picks.map_values(|pick: usize| pick as int)
}

/// The positions that a vector of executable coordinates stands for.
pub open spec fn positions(cells: Seq<(usize, usize)>) -> Seq<(int, int)> {
    cells.map_values(|p: (usize, usize)| (p.0 as int, p.1 as int))
}

impl Board {
    /// The tiles fill the rectangle, and they are no more than a machine
    /// can index.
    pub open spec fn shaped(self) -> bool {
        &&& self.tiles.len() == self.width * self.height
        &&& self.tiles.len() <= usize::MAX
    }

    /// The mine counter agrees with the tiles.
    pub open spec fn mines_counted(self) -> bool {
        self.mines == count_mines(self.tiles)
    }

    /// The flag counter agrees with the tiles.
    pub open spec fn flags_counted(self) -> bool {
        self.flags == count_flags(self.tiles)
    }

    /// The board is well formed: the tiles fill the rectangle and both
    /// counters agree with them.
    pub open spec fn wf(self) -> bool {
        &&& self.shaped()
        &&& self.mines_counted()
        &&& self.flags_counted()
    }

    /// `after` is as well formed as `self`: each part of `wf` that holds of
    /// `self` holds of `after`.
    pub open spec fn form_kept(self, after: Board) -> bool {
        &&& self.shaped() ==> after.shaped()
        &&& self.mines_counted() ==> after.mines_counted()
        &&& self.flags_counted() ==> after.flags_counted()
    }

    /// The number of tiles.
    pub open spec fn area(self) -> nat {
        self.width * self.height
    }

    /// `(row, column)` lies on the board.
    pub open spec fn valid(self, row: int, column: int) -> bool {
        0 <= row < self.height && 0 <= column < self.width
    }

    /// Where the tile at `(row, column)` stands in `tiles`.
    pub open spec fn index(self, row: int, column: int) -> int {
        row * self.width + column
    }

    /// The position of the tile that stands at `index` in `tiles`.
    pub open spec fn position(self, index: int) -> (int, int) {
        (index / (self.width as int), index % (self.width as int))
    }

    /// The tile at `(row, column)`.
    pub open spec fn tile(self, row: int, column: int) -> Tile {
        self.tiles[self.index(row, column)]
    }

    /// The position itself if it lies on the board, else nothing.
    pub open spec fn cell(self, row: int, column: int) -> Seq<(int, int)> {
        if self.valid(row, column) {
            seq![(row, column)]
        } else {
            Seq::empty()
        }
    }

    /// The neighbours of `(row, column)` that lie in `row_near`, left to right.
    pub open spec fn band(self, row_near: int, row: int, column: int) -> Seq<(int, int)> {
        self.cell(row_near, column - 1) + (if row_near == row {
            Seq::empty()
        } else {
            self.cell(row_near, column)
        }) + self.cell(row_near, column + 1)
    }

    /// The Moore neighbourhood of `(row, column)`, clipped at the edges, in
    /// row-major order and without the position itself.
    pub open spec fn near(self, row: int, column: int) -> Seq<(int, int)> {
        self.band(row - 1, row, column) + self.band(row, row, column) + self.band(
            row + 1,
            row,
            column,
        )
    }

    /// The tiles at `cells`, in the same order.
    pub open spec fn tiles_at(self, cells: Seq<(int, int)>) -> Seq<Tile> {
        cells.map_values(|p: (int, int)| self.tile(p.0, p.1))
    }

    /// The number of mines next to `(row, column)`.
    pub open spec fn mines_near(self, row: int, column: int) -> nat {
        count_mines(self.tiles_at(self.near(row, column)))
    }

    /// The number of flags next to `(row, column)`.
    pub open spec fn flags_near(self, row: int, column: int) -> nat {
        count_flags(self.tiles_at(self.near(row, column)))
    }

    /// The number of tiles without a mine.
    pub open spec fn free(self) -> nat {
        (self.tiles.len() - count_mines(self.tiles)) as nat
    }

    /// Where the tiles without a mine stand in `tiles`, in rising order.
    pub open spec fn free_tiles(self) -> Seq<int> {
        Seq::new(self.tiles.len(), |i: int| i).filter(|i: int| !self.tiles[i].has_mine)
    }

    /// Where the tiles stand that `picks` choose among the tiles without a
    /// mine, each pick counting from the first such tile.
    pub open spec fn picked(self, picks: Seq<int>) -> Set<int> {
        picks.map_values(|pick: int| self.free_tiles()[pick]).to_set()
    }

    /// The board with a mine on each tile that stands at one of `targets`,
    /// besides the mines that it has, and with the mine counter raised by
    /// the number of mines that are new.
    pub open spec fn mined_at(self, targets: Set<int>) -> Board {
        let tiles = Seq::new(
            self.tiles.len(),
            |i: int| Tile { has_mine: self.tiles[i].has_mine || targets.contains(i), ..self.tiles[i] },
        );
        Board {
            tiles,
            mines: (self.mines + count_mines(tiles) - count_mines(self.tiles)) as nat,
            ..self
        }
    }

    /// `other` is `self` with mines added: every mine of `self` is still
    /// there, and nothing else has changed but the mine counter.
    pub open spec fn mined_into(self, other: Board) -> bool {
        &&& other.width == self.width
        &&& other.height == self.height
        &&& other.flags == self.flags
        &&& other.tiles.len() == self.tiles.len()
        &&& forall|i: int|
            0 <= i < self.tiles.len() ==> (#[trigger] other.tiles[i]).state == self.tiles[i].state
                && (self.tiles[i].has_mine ==> other.tiles[i].has_mine)
    }

    /// The position of every tile, in row-major order.
    pub open spec fn all_positions(self) -> Seq<(int, int)> {
        Seq::new(self.tiles.len(), |i: int| self.position(i))
    }

    /// The positions at which a first opening can be made: the tiles that
    /// hold no mine and have none next to them, in row-major order.
    pub open spec fn openings(self) -> Seq<(int, int)> {
        self.all_positions().filter(
            |p: (int, int)| !self.tile(p.0, p.1).has_mine && self.mines_near(p.0, p.1) == 0,
        )
    }

    /// A mine lies open: some tile is visible and holds one.
    pub open spec fn exploded(self) -> bool {
        exists|i: int|
            0 <= i < self.tiles.len() && (#[trigger] self.tiles[i]).state is Visible
                && self.tiles[i].has_mine
    }

    /// Work is left: some tile without a mine is still hidden.
    pub open spec fn unsolved(self) -> bool {
        exists|i: int|
            0 <= i < self.tiles.len() && (#[trigger] self.tiles[i]).state is Hidden
                && !self.tiles[i].has_mine
    }

    /// The outcome that the tiles show: failed as soon as a mine lies open,
    /// else cleared once no tile without a mine is hidden.
    pub open spec fn outcome(self) -> MineFieldState {
        if self.exploded() {
            MineFieldState::Failed
        } else if self.unsolved() {
            MineFieldState::InProgress
        } else {
            MineFieldState::Cleared
        }
    }

    /// The board at the end of a game: every tile is shown but the flags
    /// that stand on a mine, and the flag counter counts those.
    pub open spec fn revealed(self) -> Board {
        let tiles = self.tiles.map_values(|tile: Tile| shown(tile));
        Board { tiles, flags: count_flags(tiles), ..self }
    }

    /// The board with the tile at `(row, column)` replaced.
    pub open spec fn with_tile(self, row: int, column: int, tile: Tile) -> Board {
        Board { tiles: self.tiles.update(self.index(row, column), tile), ..self }
    }

    /// The board after the flag at `(row, column)` was toggled: a hidden tile
    /// gets a flag, a flagged one loses it, a visible one stays as it is.
    pub open spec fn toggled(self, row: int, column: int) -> Board {
        let tile = self.tile(row, column);
        match tile.state {
            TileState::Hidden => Board {
                flags: self.flags + 1,
                ..self.with_tile(row, column, Tile { state: TileState::Flagged, ..tile })
            },
            TileState::Flagged => Board {
                flags: (self.flags - 1) as nat,
                ..self.with_tile(row, column, Tile { state: TileState::Hidden, ..tile })
            },
            TileState::Visible => self,
        }
    }

    /// The board after the tile at `(row, column)` was dug: a hidden tile
    /// becomes visible, any other stays as it is.
    pub open spec fn dug(self, row: int, column: int) -> Board {
        self.with_tile(row, column, uncovered(self.tile(row, column)))
    }
}

/// A valid position has an index below the area, and `position` undoes `index`.
pub proof fn lemma_index_of_position(b: Board, row: int, column: int)
    requires
        b.valid(row, column),
    ensures
        0 <= b.index(row, column) < b.area(),
        b.position(b.index(row, column)) == (row, column),
{
    let w = b.width as int;
    let h = b.height as int;
    assert(row * w + column < h * w) by (nonlinear_arith)
        requires
            0 <= row < h,
            0 <= column < w,
    ;
    assert(row * w + column >= 0) by (nonlinear_arith)
        requires
            0 <= row,
            0 <= column,
            0 < w,
    ;
    assert(h * w == w * h) by (nonlinear_arith);
    vstd::arithmetic::div_mod::lemma_fundamental_div_mod_converse(row * w + column, w, row, column);
}

/// An index below the area has a valid position, and `index` undoes `position`.
pub proof fn lemma_position_of_index(b: Board, index: int)
    requires
        0 <= index < b.area(),
    ensures
        b.valid(b.position(index).0, b.position(index).1),
        b.index(b.position(index).0, b.position(index).1) == index,
{
    let w = b.width as int;
    let h = b.height as int;
    assert(w > 0) by (nonlinear_arith)
        requires
            0 <= index < w * h,
            0 <= w,
    ;
    vstd::arithmetic::div_mod::lemma_fundamental_div_mod(index, w);
    vstd::arithmetic::div_mod::lemma_mod_bound(index, w);
    vstd::arithmetic::div_mod::lemma_div_pos_is_pos(index, w);
    let q = index / w;
    let r = index % w;
    assert(index == w * q + r);
    assert(q < h) by (nonlinear_arith)
        requires
            index == w * q + r,
            0 <= r,
            index < w * h,
            0 < w,
    ;
    assert(w * q == q * w) by (nonlinear_arith);
}

/// A first opening is made on the board.
pub proof fn lemma_openings_valid(b: Board, at: (int, int))
    requires
        b.shaped(),
        b.openings().contains(at),
    ensures
        b.valid(at.0, at.1),
        !b.tile(at.0, at.1).has_mine,
        b.mines_near(at.0, at.1) == 0,
{
    let is_opening = |p: (int, int)| !b.tile(p.0, p.1).has_mine && b.mines_near(p.0, p.1) == 0;
    b.all_positions().lemma_filter_contains_rev(is_opening, at);
    let i = choose|i: int| 0 <= i < b.all_positions().len() && b.all_positions()[i] == at;
    lemma_position_of_index(b, i);
    let k = choose|k: int| 0 <= k < b.openings().len() && b.openings()[k] == at;
    b.all_positions().lemma_filter_pred(is_opening, k);
}

/// No more tiles hold a mine than there are tiles.
pub proof fn lemma_count_mines_bound(tiles: Seq<Tile>)
    ensures
        count_mines(tiles) <= tiles.len(),
    decreases tiles.len(),
{
    if tiles.len() > 0 {
        lemma_count_mines_bound(tiles.drop_last());
    }
}

/// No more tiles are flagged than there are tiles.
pub proof fn lemma_count_flags_bound(tiles: Seq<Tile>)
    ensures
        count_flags(tiles) <= tiles.len(),
    decreases tiles.len(),
{
    if tiles.len() > 0 {
        lemma_count_flags_bound(tiles.drop_last());
    }
}

/// Replacing one tile changes the number of mines by that tile's share alone.
pub proof fn lemma_count_mines_update(tiles: Seq<Tile>, i: int, t: Tile)
    requires
        0 <= i < tiles.len(),
    ensures
        count_mines(tiles.update(i, t)) + (if tiles[i].has_mine { 1nat } else { 0nat })
            == count_mines(tiles) + (if t.has_mine { 1nat } else { 0nat }),
    decreases tiles.len(),
{
    let after = tiles.update(i, t);
    if i == tiles.len() - 1 {
        assert(after.drop_last() =~= tiles.drop_last());
    } else {
        assert(after.drop_last() =~= tiles.drop_last().update(i, t));
        lemma_count_mines_update(tiles.drop_last(), i, t);
    }
}

/// Replacing one tile changes the number of flags by that tile's share alone.
pub proof fn lemma_count_flags_update(tiles: Seq<Tile>, i: int, t: Tile)
    requires
        0 <= i < tiles.len(),
    ensures
        count_flags(tiles.update(i, t)) + (if tiles[i].state is Flagged { 1nat } else { 0nat })
            == count_flags(tiles) + (if t.state is Flagged { 1nat } else { 0nat }),
    decreases tiles.len(),
{
    let after = tiles.update(i, t);
    if i == tiles.len() - 1 {
        assert(after.drop_last() =~= tiles.drop_last());
    } else {
        assert(after.drop_last() =~= tiles.drop_last().update(i, t));
        lemma_count_flags_update(tiles.drop_last(), i, t);
    }
}

/// Sequences that agree on who holds a mine hold equally many.
pub proof fn lemma_count_mines_same(a: Seq<Tile>, b: Seq<Tile>)
    requires
        a.len() == b.len(),
        forall|i: int| 0 <= i < a.len() ==> a[i].has_mine == b[i].has_mine,
    ensures
        count_mines(a) == count_mines(b),
    decreases a.len(),
{
    if a.len() > 0 {
        lemma_count_mines_same(a.drop_last(), b.drop_last());
    }
}

/// No mine is counted exactly when no tile holds one.
pub proof fn lemma_count_mines_zero(tiles: Seq<Tile>)
    ensures
        count_mines(tiles) == 0 <==> forall|i: int| 0 <= i < tiles.len() ==> !tiles[i].has_mine,
    decreases tiles.len(),
{
    if tiles.len() > 0 {
        lemma_count_mines_zero(tiles.drop_last());
        if count_mines(tiles) == 0 {
            assert forall|i: int| 0 <= i < tiles.len() implies !tiles[i].has_mine by {
                if i < tiles.len() - 1 {
                    assert(tiles.drop_last()[i] == tiles[i]);
                }
            }
        } else if !tiles.last().has_mine {
            let j = choose|j: int| 0 <= j < tiles.len() - 1 && tiles.drop_last()[j].has_mine;
            assert(tiles[j].has_mine);
        }
    }
}

/// No flag is counted exactly when no tile is flagged.
pub proof fn lemma_count_flags_zero(tiles: Seq<Tile>)
    ensures
        count_flags(tiles) == 0 <==> forall|i: int|
            0 <= i < tiles.len() ==> !(tiles[i].state is Flagged),
    decreases tiles.len(),
{
    if tiles.len() > 0 {
        lemma_count_flags_zero(tiles.drop_last());
        if count_flags(tiles) == 0 {
            assert forall|i: int| 0 <= i < tiles.len() implies !(tiles[i].state is Flagged) by {
                if i < tiles.len() - 1 {
                    assert(tiles.drop_last()[i] == tiles[i]);
                }
            }
        } else if !(tiles.last().state is Flagged) {
            let j = choose|j: int|
                0 <= j < tiles.len() - 1 && tiles.drop_last()[j].state is Flagged;
            assert(tiles[j].state is Flagged);
        }
    }
}

/// The neighbours of a position are the valid positions that touch it, each
/// listed once.
pub proof fn lemma_near_members(b: Board, row: int, column: int)
    ensures
        forall|q: (int, int)|
            b.near(row, column).contains(q) <==> b.valid(q.0, q.1) && adjacent((row, column), q),
        b.near(row, column).no_duplicates(),
        b.near(row, column).len() <= 8,
{
    broadcast use vstd::seq_lib::lemma_seq_concat_contains_all_elements;

    let near = b.near(row, column);
    let up = b.band(row - 1, row, column);
    let mid = b.band(row, row, column);
    let down = b.band(row + 1, row, column);
    assert forall|q: (int, int)| near.contains(q) <==> b.valid(q.0, q.1) && adjacent(
        (row, column),
        q,
    ) by {
        lemma_band_members(b, row - 1, row, column, q);
        lemma_band_members(b, row, row, column, q);
        lemma_band_members(b, row + 1, row, column, q);
    }
    assert forall|i: int, j: int| 0 <= i < j < near.len() implies near[i] != near[j] by {
        lemma_band_order(b, row - 1, row, column);
        lemma_band_order(b, row, row, column);
        lemma_band_order(b, row + 1, row, column);
    }
}

/// A band holds the valid positions of its row that touch the centre's column.
proof fn lemma_band_members(b: Board, row_near: int, row: int, column: int, q: (int, int))
    ensures
        b.band(row_near, row, column).contains(q) <==> q.0 == row_near && b.valid(q.0, q.1)
            && column - 1 <= q.1 <= column + 1 && q != (row, column),
{
    broadcast use vstd::seq_lib::lemma_seq_concat_contains_all_elements;

    lemma_cell_members(b, row_near, column - 1, q);
    lemma_cell_members(b, row_near, column, q);
    lemma_cell_members(b, row_near, column + 1, q);
    assert(!Seq::<(int, int)>::empty().contains(q));
}

/// A cell holds its position if that is valid, and nothing else.
proof fn lemma_cell_members(b: Board, row: int, column: int, q: (int, int))
    ensures
        b.cell(row, column).contains(q) <==> q == (row, column) && b.valid(row, column),
{
    if b.valid(row, column) {
        assert(seq![(row, column)][0] == (row, column));
    }
}

/// A band lists positions of its own row, from left to right.
proof fn lemma_band_order(b: Board, row_near: int, row: int, column: int)
    ensures
        b.band(row_near, row, column).len() <= 3,
        forall|i: int|
            0 <= i < b.band(row_near, row, column).len() ==> (#[trigger] b.band(
                row_near,
                row,
                column,
            )[i]).0 == row_near,
        forall|i: int, j: int|
            0 <= i < j < b.band(row_near, row, column).len() ==> (#[trigger] b.band(
                row_near,
                row,
                column,
            )[i]).1 < (#[trigger] b.band(row_near, row, column)[j]).1,
{
}

} // verus!
