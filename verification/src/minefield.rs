//! The executable minefield.

use vstd::prelude::*;
use crate::board::{
    adjacent, count_flags, count_mines, indices, lemma_count_flags_bound,
    lemma_count_flags_update, lemma_count_flags_zero, lemma_count_mines_bound,
    lemma_count_mines_same, lemma_count_mines_update, lemma_count_mines_zero,
    lemma_index_of_position, lemma_near_members, lemma_position_of_index, positions, shown,
    uncovered, Board,
};
use crate::flood::{
    count_unseen, flood_progress, flood_spread, lemma_count_flags_same, lemma_flood_begin,
    lemma_flood_finish, lemma_flood_mark, lemma_flood_push, lemma_flood_skip,
    lemma_flood_spread_done, lemma_flood_top, lemma_flooded_opened, lemma_opened_mines_near,
    lemma_opened_form, lemma_unseen_update, reached,
};
use crate::random::{choose_cell, sample_indices};
use crate::tile::{Tile, TileState};

verus! {

/// The error of an operation that was given a position off the field.
pub const OUT_OF_RANGE: &'static str = "Tile not in range";

/// The error of a population that asks for more mines than tiles are free.
pub const INSUFFICIENT_SPACE: &'static str = "Not enough space for those mines.";

/// The outcome of a game, as far as the field shows it.
#[derive(Debug, PartialEq, Eq, Structural, Copy, Clone)]
pub enum MineFieldState {
    Failed,
    Cleared,
    InProgress,
}

/// A rectangular field of tiles with its mine and flag counters.
pub struct MineField {
    width: usize,
    height: usize,
    mines: usize,
    flags: usize,
    tiles: Vec<Tile>,
}

impl View for MineField {
    type V = Board;

    closed spec fn view(&self) -> Board {
        Board {
            width: self.width as nat,
            height: self.height as nat,
            mines: self.mines as nat,
            flags: self.flags as nat,
            tiles: self.tiles@,
        }
    }
}

/// The neighbours that lie in the rows above `next_row`.
spec fn bands_before(b: Board, next_row: int, row: int, column: int) -> Seq<(int, int)> {
    (if next_row > row - 1 {
        b.band(row - 1, row, column)
    } else {
        Seq::empty()
    }) + (if next_row > row {
        b.band(row, row, column)
    } else {
        Seq::empty()
    }) + (if next_row > row + 1 {
        b.band(row + 1, row, column)
    } else {
        Seq::empty()
    })
}

/// The neighbours in `row_near` that lie left of `next_column`.
spec fn band_before(b: Board, row_near: int, next_column: int, row: int, column: int) -> Seq<
    (int, int),
> {
    (if next_column > column - 1 {
        b.cell(row_near, column - 1)
    } else {
        Seq::empty()
    }) + (if next_column > column && row_near != row {
        b.cell(row_near, column)
    } else {
        Seq::empty()
    }) + (if next_column > column + 1 {
        b.cell(row_near, column + 1)
    } else {
        Seq::empty()
    })
}

/// The indices below `length`, in rising order.
fn every_index(length: usize) -> (all: Vec<usize>)
    ensures
        all@.len() == length,
        forall|k: int| 0 <= k < length ==> all@[k] == k,
        all@.no_duplicates(),
{
    let mut all: Vec<usize> = Vec::new();
    let mut index: usize = 0;
    while index < length
        invariant
            index <= length,
            all@.len() == index,
            forall|k: int| 0 <= k < index ==> all@[k] == k,
        decreases length - index,
    {
        all.push(index);
        index += 1;
    }
    all
}

impl MineField {
    /// Create a new, empty minefield: no mine, no flag, every tile hidden.
    pub fn empty(width: usize, height: usize) -> (field: Self)
        requires
            width * height <= usize::MAX,
        ensures
            field@.wf(),
            field@.width == width,
            field@.height == height,
            field@.mines == 0,
            field@.flags == 0,
            field@.tiles == Seq::new(
                (width * height) as nat,
                |i: int| Tile { state: TileState::Hidden, has_mine: false },
            ),
    {
        let mut tiles: Vec<Tile> = Vec::new();
        let area: usize = width * height;
        let mut index: usize = 0;
        while index < area
            invariant
                index <= area,
                tiles@.len() == index,
                forall|i: int|
                    0 <= i < index ==> tiles@[i] == (Tile {
                        state: TileState::Hidden,
                        has_mine: false,
                    }),
            decreases area - index,
        {
            tiles.push(Tile { state: TileState::Hidden, has_mine: false });
            index += 1;
        }
        proof {
            lemma_count_mines_zero(tiles@);
            lemma_count_flags_zero(tiles@);
        }
        Self { width, height, mines: 0, flags: 0, tiles }
    }

    /// Whether the tiles fill the rectangle of the field.
    pub fn is_shaped(&self) -> (ok: bool)
        ensures
            ok == self@.shaped(),
    {
        let length = self.tiles.len();
        match self.width.checked_mul(self.height) {
            Some(area) => area == length,
            None => false,
        }
    }

    /// Whether the mine counter agrees with the tiles.
    pub fn has_counted_mines(&self) -> (ok: bool)
        ensures
            ok == self@.mines_counted(),
    {
        let mut mines: usize = 0;
        let mut index: usize = 0;
        while index < self.tiles.len()
            invariant
                index <= self.tiles@.len(),
                mines == count_mines(self.tiles@.take(index as int)),
                mines <= index,
            decreases self.tiles.len() - index,
        {
            proof {
                assert(self.tiles@.take(index + 1).drop_last() =~= self.tiles@.take(index as int));
            }
            if self.tiles[index].has_mine {
                mines += 1;
            }
            index += 1;
        }
        assert(self.tiles@.take(index as int) =~= self.tiles@);
        mines == self.mines
    }

    /// Whether the flag counter agrees with the tiles.
    pub fn has_counted_flags(&self) -> (ok: bool)
        ensures
            ok == self@.flags_counted(),
    {
        let mut flags: usize = 0;
        let mut index: usize = 0;
        while index < self.tiles.len()
            invariant
                index <= self.tiles@.len(),
                flags == count_flags(self.tiles@.take(index as int)),
                flags <= index,
            decreases self.tiles.len() - index,
        {
            proof {
                assert(self.tiles@.take(index + 1).drop_last() =~= self.tiles@.take(index as int));
            }
            if self.tiles[index].state == TileState::Flagged {
                flags += 1;
            }
            index += 1;
        }
        assert(self.tiles@.take(index as int) =~= self.tiles@);
        flags == self.flags
    }

    /// Whether the field is well formed: the tiles fill the rectangle, and
    /// the counters of mines and flags agree with them. Every operation of
    /// the field keeps what holds of this; a caller that writes to the tiles
    /// may not.
    pub fn is_well_formed(&self) -> (ok: bool)
        ensures
            ok == self@.wf(),
    {
        self.is_shaped() && self.has_counted_mines() && self.has_counted_flags()
    }

    /// Where the tiles without a mine stand among the tiles, in rising order.
    pub fn mine_free_tiles(&self) -> (free: Vec<usize>)
        ensures
            indices(free@) == self@.free_tiles(),
            free@.len() == self@.free(),
            forall|j: int|
                0 <= j < free@.len() ==> (#[trigger] free@[j]) < self@.tiles.len()
                    && !self@.tiles[free@[j] as int].has_mine,
            forall|i: int, j: int| 0 <= i < j < free@.len() ==> free@[i] < free@[j],
    {
        let ghost all = Seq::new(self.tiles@.len(), |i: int| i);
        let ghost is_free = |i: int| !self.tiles@[i].has_mine;
        let mut free: Vec<usize> = Vec::new();
        let mut index: usize = 0;
        assert(all.take(0).filter(is_free) =~= Seq::<int>::empty()) by {
            reveal(Seq::filter);
        }
        while index < self.tiles.len()
            invariant
                index <= self.tiles@.len(),
                all == Seq::new(self.tiles@.len(), |i: int| i),
                is_free == |i: int| !self.tiles@[i].has_mine,
                indices(free@) == all.take(index as int).filter(is_free),
                free@.len() + count_mines(self.tiles@.take(index as int)) == index,
                forall|j: int|
                    0 <= j < free@.len() ==> (#[trigger] free@[j]) < index
                        && !self.tiles@[free@[j] as int].has_mine,
                forall|i: int, j: int| 0 <= i < j < free@.len() ==> free@[i] < free@[j],
            decreases self.tiles.len() - index,
        {
            let ghost before = free@;
            proof {
                assert(all.take(index + 1).drop_last() =~= all.take(index as int));
                assert(self.tiles@.take(index + 1).drop_last() =~= self.tiles@.take(index as int));
                reveal(Seq::filter);
            }
            if !self.tiles[index].has_mine {
                free.push(index);
                assert(indices(free@) =~= indices(before).push(index as int));
            }
            index += 1;
        }
        proof {
            assert(all.take(index as int) =~= all);
            assert(self.tiles@.take(index as int) =~= self.tiles@);
            lemma_count_mines_bound(self.tiles@);
        }
        free
    }

    /// Lay a mine on each tile that `picks` choose among the tiles without a
    /// mine: pick `p` stands for the tile that is number `p`, from zero, among
    /// them in row-major order before the call. The mine counter rises by
    /// the number of mines that are new. Fails, and changes nothing, if a
    /// pick is out of range.
    pub fn populate_picked(&mut self, picks: &Vec<usize>) -> (done: Result<(), &'static str>)
        requires
            old(self)@.mines + picks@.len() <= usize::MAX,
        ensures
            old(self)@.form_kept(final(self)@),
            final(self)@.mines + count_mines(old(self)@.tiles) == old(self)@.mines + count_mines(
                final(self)@.tiles,
            ),
            (forall|k: int| 0 <= k < picks@.len() ==> picks@[k] < old(self)@.free()) ==> done is Ok
                && final(self)@ == old(self)@.mined_at(old(self)@.picked(indices(picks@))),
            (forall|k: int| 0 <= k < picks@.len() ==> picks@[k] < old(self)@.free())
                && picks@.no_duplicates() ==> final(self)@.mines == old(self)@.mines
                + picks@.len(),
            !(forall|k: int| 0 <= k < picks@.len() ==> picks@[k] < old(self)@.free()) ==> (
            done matches Err(e) && e@ == OUT_OF_RANGE@) && final(self)@ == old(self)@,
    {
        let free = self.mine_free_tiles();
        let area = self.tiles.len();
        let mut k: usize = 0;
        while k < picks.len()
            invariant
                *self == *old(self),
                free@.len() == self@.free(),
                k <= picks@.len(),
                forall|j: int| 0 <= j < k ==> picks@[j] < free@.len(),
            decreases picks.len() - k,
        {
            if picks[k] >= free.len() {
                return Err(OUT_OF_RANGE);
            }
            k += 1;
        }
        let ghost orig = self@;
        let ghost free_ints = orig.free_tiles();
        let ghost chosen = indices(picks@);
        let ghost laid: Set<int> = Set::empty();
        let mut k: usize = 0;
        proof {
            assert(self.tiles@ =~= orig.mined_at(laid).tiles);
            assert(orig.picked(chosen.take(0)) =~= laid);
        }
        while k < picks.len()
            invariant
                k <= picks@.len(),
                orig.mines + picks@.len() <= usize::MAX,
                free_ints == orig.free_tiles(),
                indices(free@) == free_ints,
                chosen == indices(picks@),
                forall|j: int| 0 <= j < picks@.len() ==> picks@[j] < free@.len(),
                forall|j: int|
                    0 <= j < free@.len() ==> (#[trigger] free@[j]) < orig.tiles.len()
                        && !orig.tiles[free@[j] as int].has_mine,
                forall|i: int, j: int| 0 <= i < j < free@.len() ==> free@[i] < free@[j],
                self.width == orig.width,
                self.height == orig.height,
                self.flags == orig.flags,
                self.tiles@ == orig.mined_at(laid).tiles,
                self.tiles@.len() == area,
                self.mines + count_mines(orig.tiles) == orig.mines + count_mines(self.tiles@),
                self.mines <= orig.mines + k,
                laid == orig.picked(chosen.take(k as int)),
                forall|j: int| 0 <= j < k ==> laid.contains(#[trigger] free@[picks@[j] as int] as int),
                forall|t: int|
                    laid.contains(t) ==> exists|j: int|
                        0 <= j < k && free@[#[trigger] picks@[j] as int] == t,
                picks@.no_duplicates() ==> self.mines == orig.mines + k,
            decreases picks.len() - k,
        {
            let target = free[picks[k]];
            let tile = self.tiles[target];
            let ghost tiles_before = self.tiles@;
            let ghost laid_before = laid;
            proof {
                let mined = Tile { state: tile.state, has_mine: true };
                lemma_count_mines_update(tiles_before, target as int, mined);
                lemma_count_mines_bound(tiles_before.update(target as int, mined));
                laid = laid.insert(target as int);
                let so_far = chosen.take(k as int).map_values(|pick: int| free_ints[pick]);
                let next = chosen.take(k + 1).map_values(|pick: int| free_ints[pick]);
                assert(free_ints[picks@[k as int] as int] == target as int) by {
                    assert(indices(free@)[picks@[k as int] as int] == free@[picks@[k as int] as int]);
                }
                assert(next =~= so_far.push(target as int)) by {
                    assert(chosen[k as int] == picks@[k as int] as int);
                }
                so_far.lemma_push_to_set_commute(target as int);
                if picks@.no_duplicates() && tile.has_mine {
                    assert(laid_before.contains(target as int));
                    let j = choose|j: int| 0 <= j < k && free@[#[trigger] picks@[j] as int] == target;
                    assert(picks@[j] != picks@[k as int]);
                    assert(false);
                }
            }
            if !tile.has_mine {
                self.tiles.set(target, Tile { state: tile.state, has_mine: true });
                self.mines += 1;
            }
            k += 1;
            proof {
                assert(self.tiles@ =~= orig.mined_at(laid).tiles);
                assert forall|t: int| laid.contains(t) implies exists|j: int|
                    0 <= j < k && free@[#[trigger] picks@[j] as int] == t by {
                    if laid_before.contains(t) {
                        let j = choose|j: int|
                            0 <= j < k - 1 && free@[#[trigger] picks@[j] as int] == t;
                        assert(0 <= j < k && free@[picks@[j] as int] == t);
                    } else {
                        assert(free@[picks@[k - 1] as int] == t);
                    }
                }
            }
        }
        proof {
            assert(chosen.take(k as int) =~= chosen);
            lemma_count_flags_same(orig.tiles, self.tiles@);
        }
        Ok(())
    }

    /// Populate the minefield with a given amount of mines, on tiles that
    /// hold none yet, chosen at random. Fails, and changes nothing, if fewer
    /// tiles are free.
    pub fn populate(&mut self, amount: usize) -> (done: Result<(), &'static str>)
        requires
            amount <= old(self)@.free() ==> old(self)@.mines + amount <= usize::MAX,
        ensures
            old(self)@.form_kept(final(self)@),
            amount <= old(self)@.free() ==> done is Ok && old(self)@.mined_into(final(self)@)
                && final(self)@.mines == old(self)@.mines + amount && count_mines(
                final(self)@.tiles,
            ) == count_mines(old(self)@.tiles) + amount,
            amount > old(self)@.free() ==> (done matches Err(e) && e@ == INSUFFICIENT_SPACE@)
                && final(self)@ == old(self)@,
    {
        // Count the empty tiles that we can populate.
        let free = self.mine_free_tiles().len();
        // Check if we have enough empty tiles to populate.
        if free < amount {
            return Err(INSUFFICIENT_SPACE);
        }
        // If we do, select some and populate them by index. Where every one
        // of a great many empty tiles is asked for, there is nothing to draw.
        let picks = if free > 4294967295 && amount == free {
            every_index(free)
        } else {
            sample_indices(free, amount)
        };
        self.populate_picked(&picks)
    }

    /// Create a new minefield and populate it.
    pub fn new(width: usize, height: usize, mines: usize) -> (made: Result<Self, &'static str>)
        requires
            width * height <= usize::MAX,
        ensures
            mines <= width * height ==> (made matches Ok(field) && field@.wf() && field@.width
                == width && field@.height == height && field@.mines == mines && count_mines(
                field@.tiles,
            ) == mines && field@.flags == 0 && forall|i: int|
                0 <= i < field@.tiles.len() ==> (#[trigger] field@.tiles[i]).state is Hidden),
            mines > width * height ==> (made matches Err(e) && e@ == INSUFFICIENT_SPACE@),
    {
        let mut field = Self::empty(width, height);
        match field.populate(mines) {
            Ok(()) => Ok(field),
            Err(e) => Err(e),
        }
    }

    /// Create a beginner field: 10x10 with 10 mines.
    #[inline]
    pub fn beginner() -> (field: Self)
        ensures
            field@.wf(),
            field@.width == 10,
            field@.height == 10,
            field@.mines == 10,
            field@.flags == 0,
            forall|i: int| 0 <= i < field@.tiles.len() ==> (#[trigger] field@.tiles[i]).state is Hidden,
    {
        Self::new(10, 10, 10).unwrap()
    }

    /// Create an intermediate field: 15x15 with 40 mines.
    #[inline]
    pub fn intermediate() -> (field: Self)
        ensures
            field@.wf(),
            field@.width == 15,
            field@.height == 15,
            field@.mines == 40,
            field@.flags == 0,
            forall|i: int| 0 <= i < field@.tiles.len() ==> (#[trigger] field@.tiles[i]).state is Hidden,
    {
        Self::new(15, 15, 40).unwrap()
    }

    /// Create an expert field: 30x16 with 99 mines.
    #[inline]
    pub fn expert() -> (field: Self)
        ensures
            field@.wf(),
            field@.width == 30,
            field@.height == 16,
            field@.mines == 99,
            field@.flags == 0,
            forall|i: int| 0 <= i < field@.tiles.len() ==> (#[trigger] field@.tiles[i]).state is Hidden,
    {
        Self::new(30, 16, 99).unwrap()
    }

    /// Access the tile width of the minefield.
    #[inline]
    pub fn width(&self) -> (width: usize)
        ensures
            width == self@.width,
    {
        self.width
    }

    /// Access the tile height of the minefield.
    #[inline]
    pub fn height(&self) -> (height: usize)
        ensures
            height == self@.height,
    {
        self.height
    }

    /// Access the amount of mines on the minefield.
    #[inline]
    pub fn mines(&self) -> (mines: usize)
        ensures
            mines == self@.mines,
    {
        self.mines
    }

    /// Access the amount of flags on the minefield.
    #[inline]
    pub fn flags(&self) -> (flags: usize)
        ensures
            flags == self@.flags,
    {
        self.flags
    }

    /// Check if a (row, column) is in range.
    #[inline]
    pub fn position_is_valid(&self, row: usize, column: usize) -> (valid: bool)
        ensures
            valid == self@.valid(row as int, column as int),
    {
        row < self.height && column < self.width
    }

    /// Where the tile at a valid position stands among the tiles.
    fn index_of(&self, row: usize, column: usize) -> (index: usize)
        requires
            self@.shaped(),
            self@.valid(row as int, column as int),
        ensures
            index == self@.index(row as int, column as int),
            index < self.tiles@.len() <= usize::MAX,
    {
        let area = self.tiles.len();
        proof {
            lemma_index_of_position(self@, row as int, column as int);
            assert(0 <= row * self.width <= self@.index(row as int, column as int))
                by (nonlinear_arith)
                requires
                    row >= 0,
                    self.width >= 0,
                    column >= 0,
                    self@.index(row as int, column as int) == row * self.width + column,
            ;
            assert(self@.area() == area);
        }
        row * self.width + column
    }

    /// Get an immutable reference to each tile in order.
    #[inline]
    pub fn iter_tiles(&self) -> (tiles: &[Tile])
        ensures
            tiles@ == self@.tiles,
    {
        self.tiles.as_slice()
    }

    /// Get a mutable reference to each tile in order. The counters are left
    /// as they are: the field stays well formed only if the caller changes
    /// neither a mine nor whether a tile is flagged.
    #[inline]
    pub fn iter_mut_tiles(&mut self) -> (tiles: &mut [Tile])
        ensures
            tiles@ == old(self)@.tiles,
            final(self)@ == (Board { tiles: final(tiles)@, ..old(self)@ }),
            final(tiles)@.len() == tiles@.len() && old(self)@.shaped() ==> final(self)@.shaped(),
            final(tiles)@.len() == tiles@.len() && (forall|i: int|
                0 <= i < tiles@.len() ==> (#[trigger] final(tiles)@[i]).has_mine
                    == tiles@[i].has_mine) && old(self)@.mines_counted() ==> final(
                self)@.mines_counted(),
            final(tiles)@.len() == tiles@.len() && (forall|i: int|
                0 <= i < tiles@.len() ==> ((#[trigger] final(tiles)@[i]).state is Flagged
                    <==> tiles@[i].state is Flagged)) && old(self)@.flags_counted() ==> final(
                self)@.flags_counted(),
    {
        let ghost before = self.tiles@;
        let tiles = self.tiles.as_mut_slice();
        proof {
            assert forall|after: Seq<Tile>|
                after.len() == before.len() && (forall|i: int|
                    0 <= i < before.len() ==> (#[trigger] after[i]).has_mine
                        == before[i].has_mine) implies #[trigger] count_mines(after)
                == count_mines(before) by {
                lemma_count_mines_same(before, after);
            }
            assert forall|after: Seq<Tile>|
                after.len() == before.len() && (forall|i: int|
                    0 <= i < before.len() ==> ((#[trigger] after[i]).state is Flagged
                        <==> before[i].state is Flagged)) implies #[trigger] count_flags(after)
                == count_flags(before) by {
                lemma_count_flags_same(before, after);
            }
        }
        tiles
    }

    /// The position of each tile in order.
    pub fn iter_positions(&self) -> (cells: Vec<(usize, usize)>)
        requires
            self@.shaped(),
        ensures
            positions(cells@) == self@.all_positions(),
    {
        let area = self.tiles.len();
        let mut cells: Vec<(usize, usize)> = Vec::new();
        let mut index: usize = 0;
        while index < area
            invariant
                self@.shaped(),
                area == self.tiles@.len(),
                index <= area,
                cells@.len() == index,
                forall|i: int|
                    0 <= i < index ==> (#[trigger] cells@[i].0) as int == self@.position(i).0
                        && cells@[i].1 as int == self@.position(i).1,
            decreases area - index,
        {
            proof {
                lemma_position_of_index(self@, index as int);
            }
            // map each index to the corresponding (row, column)
            cells.push((index / self.width, index % self.width));
            index += 1;
        }
        assert(positions(cells@) =~= self@.all_positions());
        cells
    }

    /// The positions at which a first opening can be made: the tiles that
    /// hold no mine and have none next to them, in row-major order.
    pub fn opening_candidates(&self) -> (cells: Vec<(usize, usize)>)
        requires
            self@.shaped(),
        ensures
            positions(cells@) == self@.openings(),
    {
        let all_cells = self.iter_positions();
        let ghost all = self@.all_positions();
        let ghost is_opening = |p: (int, int)|
            !self@.tile(p.0, p.1).has_mine && self@.mines_near(p.0, p.1) == 0;
        let mut target_indices: Vec<(usize, usize)> = Vec::new();
        let mut index: usize = 0;
        assert(all.take(0).filter(is_opening) =~= Seq::<(int, int)>::empty()) by {
            reveal(Seq::filter);
        }
        assert(all_cells@.len() == positions(all_cells@).len());
        // search for potentially empty fields
        while index < all_cells.len()
            invariant
                self@.shaped(),
                index <= all_cells@.len(),
                all_cells@.len() == self@.tiles.len(),
                all == self@.all_positions(),
                positions(all_cells@) == all,
                is_opening == |p: (int, int)|
                    !self@.tile(p.0, p.1).has_mine && self@.mines_near(p.0, p.1) == 0,
                positions(target_indices@) == all.take(index as int).filter(is_opening),
            decreases all_cells.len() - index,
        {
            let (row, column) = all_cells[index];
            let ghost before = positions(target_indices@);
            proof {
                lemma_position_of_index(self@, index as int);
                assert(all[index as int] == (row as int, column as int));
                assert(all.take(index + 1).drop_last() =~= all.take(index as int));
                reveal(Seq::filter);
            }
            let near_mines = match self.has_mines_near(row, column) {
                Ok(near_mines) => near_mines,
                Err(_) => true,
            };
            let is_mine = match self.has_mine_at(row, column) {
                Ok(is_mine) => is_mine,
                Err(_) => true,
            };
            // if this tile is far from mines, keep track of it.
            if !is_mine && !near_mines {
                target_indices.push((row, column));
                assert(positions(target_indices@) =~= before.push((row as int, column as int)));
            }
            index += 1;
        }
        assert(all.take(index as int) =~= all);
        target_indices
    }

    /// Open a random empty field for convenience, then return the index of a
    /// tile within it: one of the opening candidates is flooded, and `None`
    /// comes back only where there is no candidate.
    pub fn clear_first_opening(&mut self) -> (opened: Option<(usize, usize)>)
        requires
            old(self)@.shaped(),
        ensures
            old(self)@.form_kept(final(self)@),
            old(self)@.openings().len() == 0 ==> opened is None && final(self)@ == old(self)@,
            old(self)@.openings().len() > 0 ==> (opened matches Some(cell) && old(
                self,
            )@.openings().contains((cell.0 as int, cell.1 as int)) && final(self)@ == old(
                self,
            )@.flooded(cell.0 as int, cell.1 as int)),
    {
        let target_indices = self.opening_candidates();
        // select a random empty tile to open.
        let target_tile = choose_cell(&target_indices);
        match target_tile {
            Some((row, column)) => {
                proof {
                    let openings = self@.openings();
                    let at = (row as int, column as int);
                    let k = choose|k: int|
                        0 <= k < target_indices@.len() && target_indices@[k] == (row, column);
                    assert(positions(target_indices@)[k] == at);
                    assert(openings.contains(at));
                    self@.all_positions().lemma_filter_contains_rev(
                        |p: (int, int)|
                            !self@.tile(p.0, p.1).has_mine && self@.mines_near(p.0, p.1) == 0,
                        at,
                    );
                    let i = choose|i: int|
                        0 <= i < self@.all_positions().len() && self@.all_positions()[i] == at;
                    lemma_position_of_index(self@, i);
                }
                let _ = self.flood_empty_tiles(row, column);
                Some((row, column))
            },
            None => {
                assert(positions(target_indices@).len() == 0);
                None
            },
        }
    }

    /// Get an immutable reference to a specific tile.
    pub fn get_tile(&self, row: usize, column: usize) -> (found: Result<&Tile, &'static str>)
        requires
            self@.shaped(),
        ensures
            self@.valid(row as int, column as int) ==> found == Ok::<&Tile, &'static str>(
                &self@.tile(row as int, column as int),
            ),
            !self@.valid(row as int, column as int) ==> (found matches Err(e) && e@
                == OUT_OF_RANGE@),
    {
        if self.position_is_valid(row, column) {
            let index = self.index_of(row, column);
            Ok(&self.tiles[index])
        } else {
            Err(OUT_OF_RANGE)
        }
    }

    /// Get a mutable reference to a specific tile. The counters are left as
    /// they are: the field stays well formed only if the caller changes neither
    /// the mine nor whether the tile is flagged.
    pub fn get_tile_mut(&mut self, row: usize, column: usize) -> (found: Result<
        &mut Tile,
        &'static str,
    >)
        requires
            old(self)@.shaped(),
        ensures
            old(self)@.valid(row as int, column as int) ==> (found matches Ok(tile) && *tile == old(
                self,
            )@.tile(row as int, column as int) && final(self)@ == (Board {
                tiles: old(self)@.tiles.update(
                    old(self)@.index(row as int, column as int),
                    *final(tile),
                ),
                ..old(self)@
            })),
            !old(self)@.valid(row as int, column as int) ==> (found matches Err(e) && e@
                == OUT_OF_RANGE@ && final(self)@ == old(self)@),
            final(self)@.shaped(),
            found matches Ok(tile) ==> (final(tile).has_mine == tile.has_mine && old(
                self,
            )@.mines_counted() ==> final(self)@.mines_counted()) && ((final(tile).state is Flagged
                <==> tile.state is Flagged) && old(self)@.flags_counted() ==> final(self)@.flags_counted()),
    {
        if self.position_is_valid(row, column) {
            let index = self.index_of(row, column);
            proof {
                let tiles = self.tiles@;
                assert forall|tile: Tile| #[trigger]
                    count_mines(tiles.update(index as int, tile)) + (if tiles[index as int].has_mine {
                        1nat
                    } else {
                        0nat
                    }) == count_mines(tiles) + (if tile.has_mine {
                        1nat
                    } else {
                        0nat
                    }) by {
                    lemma_count_mines_update(tiles, index as int, tile);
                }
                assert forall|tile: Tile| #[trigger]
                    count_flags(tiles.update(index as int, tile)) + (if tiles[index as int].state is Flagged {
                        1nat
                    } else {
                        0nat
                    }) == count_flags(tiles) + (if tile.state is Flagged {
                        1nat
                    } else {
                        0nat
                    }) by {
                    lemma_count_flags_update(tiles, index as int, tile);
                }
            }
            Ok(&mut self.tiles[index])
        } else {
            Err(OUT_OF_RANGE)
        }
    }

    /// Whether the tile at a position holds a mine.
    pub fn has_mine_at(&self, row: usize, column: usize) -> (found: Result<bool, &'static str>)
        requires
            self@.shaped(),
        ensures
            self@.valid(row as int, column as int) ==> found == Ok::<bool, &'static str>(
                self@.tile(row as int, column as int).has_mine,
            ),
            !self@.valid(row as int, column as int) ==> (found matches Err(e) && e@
                == OUT_OF_RANGE@),
    {
        match self.get_tile(row, column) {
            Ok(tile) => Ok(tile.has_mine),
            Err(e) => Err(e),
        }
    }

    /// The state of the tile at a position.
    pub fn get_tile_state(&self, row: usize, column: usize) -> (found: Result<
        TileState,
        &'static str,
    >)
        requires
            self@.shaped(),
        ensures
            self@.valid(row as int, column as int) ==> found == Ok::<TileState, &'static str>(
                self@.tile(row as int, column as int).state,
            ),
            !self@.valid(row as int, column as int) ==> (found matches Err(e) && e@
                == OUT_OF_RANGE@),
    {
        match self.get_tile(row, column) {
            Ok(tile) => Ok(tile.state),
            Err(e) => Err(e),
        }
    }

    /// The positions around a tile: its Moore neighbourhood, clipped at the
    /// edges of the field, in row-major order.
    pub fn get_indices_near(&self, row: usize, column: usize) -> (found: Result<
        Vec<(usize, usize)>,
        &'static str,
    >)
        requires
            self@.shaped(),
        ensures
            self@.valid(row as int, column as int) ==> (found matches Ok(cells) && positions(
                cells@,
            ) == self@.near(row as int, column as int)),
            !self@.valid(row as int, column as int) ==> (found matches Err(e) && e@
                == OUT_OF_RANGE@),
    {
        if !self.position_is_valid(row, column) {
            return Err(OUT_OF_RANGE);
        }
        let min_row = if row == 0 { row } else { row - 1 };
        let max_row = if row == self.height - 1 { row } else { row + 1 };
        let min_column = if column == 0 { column } else { column - 1 };
        let max_column = if column == self.width - 1 { column } else { column + 1 };

        let ghost b = self@;
        let ghost r = row as int;
        let ghost c = column as int;
        let mut indices: Vec<(usize, usize)> = Vec::new();
        let mut adj_row = min_row;
        assert(positions(indices@) =~= bands_before(b, adj_row as int, r, c));
        while adj_row <= max_row
            invariant
                b == self@,
                r == row,
                c == column,
                b.valid(r, c),
                min_row == (if row == 0 { row } else { (row - 1) as usize }),
                max_row == (if row == self.height - 1 { row } else { (row + 1) as usize }),
                min_column == (if column == 0 { column } else { (column - 1) as usize }),
                max_column == (if column == self.width - 1 { column } else { (column + 1) as usize }),
                min_row <= adj_row <= max_row + 1,
                positions(indices@) == bands_before(b, adj_row as int, r, c),
            decreases max_row + 1 - adj_row,
        {
            let mut adj_column = min_column;
            let ghost above = positions(indices@);
            assert(positions(indices@) =~= above + band_before(
                b,
                adj_row as int,
                adj_column as int,
                r,
                c,
            ));
            while adj_column <= max_column
                invariant
                    b == self@,
                    r == row,
                    c == column,
                    b.valid(r, c),
                    min_column == (if column == 0 { column } else { (column - 1) as usize }),
                    max_column == (if column == self.width - 1 { column } else { (column + 1) as usize }),
                    min_row <= adj_row <= max_row,
                    max_row < self.height,
                    min_column <= adj_column <= max_column + 1,
                    positions(indices@) == above + band_before(
                        b,
                        adj_row as int,
                        adj_column as int,
                        r,
                        c,
                    ),
                decreases max_column + 1 - adj_column,
            {
                let ghost before = indices@;
                if !(adj_row == row && adj_column == column) {
                    indices.push((adj_row, adj_column));
                    assert(positions(indices@) =~= positions(before).push(
                        (adj_row as int, adj_column as int),
                    ));
                }
                adj_column += 1;
                assert(positions(indices@) =~= above + band_before(
                    b,
                    adj_row as int,
                    adj_column as int,
                    r,
                    c,
                ));
            }
            adj_row += 1;
            assert(positions(indices@) =~= bands_before(b, adj_row as int, r, c));
        }
        assert(positions(indices@) =~= b.near(r, c));
        Ok(indices)
    }

    /// The tiles around a tile, in the order of `get_indices_near`.
    pub fn get_tiles_near(&self, row: usize, column: usize) -> (found: Result<
        Vec<&Tile>,
        &'static str,
    >)
        requires
            self@.shaped(),
        ensures
            self@.valid(row as int, column as int) ==> (found matches Ok(tiles) && tiles@.map_values(
                |t: &Tile| *t,
            ) == self@.tiles_at(self@.near(row as int, column as int))),
            !self@.valid(row as int, column as int) ==> (found matches Err(e) && e@
                == OUT_OF_RANGE@),
    {
        let indices = match self.get_indices_near(row, column) {
            Ok(indices) => indices,
            Err(e) => { return Err(e); },
        };
        let ghost near = self@.near(row as int, column as int);
        proof {
            lemma_near_members(self@, row as int, column as int);
        }
        let mut tiles: Vec<&Tile> = Vec::new();
        let mut k: usize = 0;
        while k < indices.len()
            invariant
                self@.shaped(),
                k <= indices.len(),
                positions(indices@) == near,
                forall|q: (int, int)| near.contains(q) ==> self@.valid(q.0, q.1),
                tiles@.map_values(|t: &Tile| *t) == self@.tiles_at(near.take(k as int)),
            decreases indices.len() - k,
        {
            let (adj_row, adj_column) = indices[k];
            assert(near[k as int] == (adj_row as int, adj_column as int));
            assert(near.contains(near[k as int]));
            let ghost before = tiles@;
            let index = self.index_of(adj_row, adj_column);
            tiles.push(&self.tiles[index]);
            k += 1;
            assert(tiles@.map_values(|t: &Tile| *t) =~= self@.tiles_at(near.take(k as int))) by {
                assert(near.take(k as int) =~= near.take(k - 1).push(near[k - 1]));
                assert(tiles@.map_values(|t: &Tile| *t) =~= before.map_values(|t: &Tile| *t).push(
                    self@.tile(adj_row as int, adj_column as int),
                ));
            }
        }
        assert(near.take(k as int) =~= near);
        Ok(tiles)
    }

    /// Count the amount of mines near a tile.
    pub fn count_mines_near(&self, row: usize, column: usize) -> (found: Result<
        usize,
        &'static str,
    >)
        requires
            self@.shaped(),
        ensures
            self@.valid(row as int, column as int) ==> found == Ok::<usize, &'static str>(
                self@.mines_near(row as int, column as int) as usize,
            ) && self@.mines_near(row as int, column as int) <= 8,
            !self@.valid(row as int, column as int) ==> (found matches Err(e) && e@
                == OUT_OF_RANGE@),
    {
        let tiles = match self.get_tiles_near(row, column) {
            Ok(tiles) => tiles,
            Err(e) => { return Err(e); },
        };
        let ghost around = self@.tiles_at(self@.near(row as int, column as int));
        proof {
            lemma_near_members(self@, row as int, column as int);
        }
        assert(tiles@.len() == tiles@.map_values(|t: &Tile| *t).len());
        let mut count: usize = 0;
        let mut k: usize = 0;
        while k < tiles.len()
            invariant
                k <= tiles.len(),
                tiles@.len() <= 8,
                tiles@.map_values(|t: &Tile| *t) == around,
                count == count_mines(around.take(k as int)),
                count <= k,
            decreases tiles.len() - k,
        {
            assert(around.take(k + 1).drop_last() =~= around.take(k as int));
            assert(around[k as int] == *tiles@[k as int]);
            if tiles[k].has_mine {
                count += 1;
            }
            k += 1;
        }
        assert(around.take(k as int) =~= around);
        Ok(count)
    }

    /// Whether any mine lies near a tile.
    pub fn has_mines_near(&self, row: usize, column: usize) -> (found: Result<bool, &'static str>)
        requires
            self@.shaped(),
        ensures
            self@.valid(row as int, column as int) ==> found == Ok::<bool, &'static str>(
                self@.mines_near(row as int, column as int) > 0,
            ),
            !self@.valid(row as int, column as int) ==> (found matches Err(e) && e@
                == OUT_OF_RANGE@),
    {
        match self.count_mines_near(row, column) {
            Ok(count) => Ok(count > 0),
            Err(e) => Err(e),
        }
    }

    /// Toggle a tile state between `Hidden` and `Flagged`.
    pub fn toggle_flag(&mut self, row: usize, column: usize) -> (done: Result<(), &'static str>)
        requires
            old(self)@.shaped(),
            old(self)@.flags_counted(),
        ensures
            old(self)@.form_kept(final(self)@),
            old(self)@.valid(row as int, column as int) ==> done is Ok && final(self)@ == old(
                self,
            )@.toggled(row as int, column as int),
            !old(self)@.valid(row as int, column as int) ==> (done matches Err(e) && e@
                == OUT_OF_RANGE@) && final(self)@ == old(self)@,
    {
        if !self.position_is_valid(row, column) {
            return Err(OUT_OF_RANGE);
        }
        let index = self.index_of(row, column);
        let tile = self.tiles[index];
        proof {
            lemma_count_flags_bound(
                self.tiles@.update(index as int, Tile { state: TileState::Flagged, ..tile }),
            );
            lemma_count_flags_update(
                self.tiles@,
                index as int,
                Tile { state: TileState::Flagged, ..tile },
            );
            lemma_count_flags_update(
                self.tiles@,
                index as int,
                Tile { state: TileState::Hidden, ..tile },
            );
            lemma_count_mines_update(
                self.tiles@,
                index as int,
                Tile { state: TileState::Flagged, ..tile },
            );
            lemma_count_mines_update(
                self.tiles@,
                index as int,
                Tile { state: TileState::Hidden, ..tile },
            );
        }
        match tile.state {
            TileState::Hidden => {
                self.tiles.set(index, Tile { state: TileState::Flagged, has_mine: tile.has_mine });
                self.flags += 1;
            },
            TileState::Flagged => {
                self.tiles.set(index, Tile { state: TileState::Hidden, has_mine: tile.has_mine });
                self.flags -= 1;
            },
            TileState::Visible => {},
        }
        Ok(())
    }

    /// Change a tile state from `Hidden` to `Visible`.
    pub fn dig_tile(&mut self, row: usize, column: usize) -> (done: Result<(), &'static str>)
        requires
            old(self)@.shaped(),
        ensures
            old(self)@.form_kept(final(self)@),
            old(self)@.valid(row as int, column as int) ==> done is Ok && final(self)@ == old(
                self,
            )@.dug(row as int, column as int),
            !old(self)@.valid(row as int, column as int) ==> (done matches Err(e) && e@
                == OUT_OF_RANGE@) && final(self)@ == old(self)@,
    {
        if !self.position_is_valid(row, column) {
            return Err(OUT_OF_RANGE);
        }
        let index = self.index_of(row, column);
        let tile = self.tiles[index];
        proof {
            lemma_count_flags_update(
                self.tiles@,
                index as int,
                Tile { state: TileState::Visible, ..tile },
            );
            lemma_count_mines_update(
                self.tiles@,
                index as int,
                Tile { state: TileState::Visible, ..tile },
            );
        }
        match tile.state {
            TileState::Hidden => {
                self.tiles.set(index, Tile { state: TileState::Visible, has_mine: tile.has_mine });
            },
            _ => {
                assert(self.tiles@ =~= self.tiles@.update(index as int, tile));
            },
        }
        Ok(())
    }

    /// Where no mine lies next to the tile at `(row, column)`, which a running
    /// flood has just dealt with, put its neighbours on the work list.
    fn flood_onwards(
        &self,
        row: usize,
        column: usize,
        pending: &mut Vec<(usize, usize)>,
        Ghost(orig): Ghost<Board>,
        Ghost(start): Ghost<(int, int)>,
        Ghost(seen): Ghost<Seq<bool>>,
    )
        requires
            self@.shaped(),
            orig.shaped(),
            orig.opened_into(self@),
            orig.valid(row as int, column as int),
            orig.floods(start, (row as int, column as int)),
            flood_progress(orig, self@, start, seen, positions(old(pending)@)),
            flood_spread(orig, seen, positions(old(pending)@), Some((row as int, column as int))),
        ensures
            flood_progress(orig, self@, start, seen, positions(final(pending)@)),
            flood_spread(orig, seen, positions(final(pending)@), None),
    {
        let ghost at = (row as int, column as int);
        proof {
            lemma_opened_mines_near(orig, self@, at.0, at.1);
        }
        let mines_near = match self.count_mines_near(row, column) {
            Ok(count) => count,
            Err(_) => 0,
        };
        if mines_near == 0 {
            let cells = match self.get_indices_near(row, column) {
                Ok(cells) => cells,
                Err(_) => Vec::new(),
            };
            let ghost near = orig.near(at.0, at.1);
            proof {
                lemma_near_members(orig, at.0, at.1);
            }
            let mut k: usize = 0;
            while k < cells.len()
                invariant
                    k <= cells.len(),
                    positions(cells@) == near,
                    near == orig.near(at.0, at.1),
                    forall|q: (int, int)|
                        near.contains(q) ==> orig.valid(q.0, q.1) && adjacent(at, q),
                    orig.floods(start, at),
                    orig.mines_near(at.0, at.1) == 0,
                    flood_progress(orig, self@, start, seen, positions(pending@)),
                    flood_spread(orig, seen, positions(pending@), Some(at)),
                    forall|j: int|
                        0 <= j < k ==> reached(orig, seen, positions(pending@), #[trigger] near[j]),
                decreases cells.len() - k,
            {
                let ghost list = positions(pending@);
                let cell = cells[k];
                proof {
                    assert(near[k as int] == (cell.0 as int, cell.1 as int));
                    assert(near.contains(near[k as int]));
                    lemma_flood_push(orig, self@, start, seen, list, at, near[k as int]);
                }
                pending.push(cell);
                proof {
                    assert(positions(pending@) =~= list.push(near[k as int]));
                }
                k += 1;
            }
        }
        proof {
            lemma_flood_spread_done(orig, seen, positions(pending@), at);
        }
    }

    /// Perform a flood fill on empty space: uncover the tile, and where no
    /// mine lies next to it, go on with its neighbours. Flagged tiles keep
    /// their flag, yet the flood passes through them like through hidden ones.
    pub fn flood_empty_tiles(&mut self, row: usize, column: usize) -> (done: Result<
        (),
        &'static str,
    >)
        requires
            old(self)@.shaped(),
        ensures
            old(self)@.form_kept(final(self)@),
            old(self)@.valid(row as int, column as int) ==> done is Ok && final(self)@ == old(
                self,
            )@.flooded(row as int, column as int),
            !old(self)@.valid(row as int, column as int) ==> (done matches Err(e) && e@
                == OUT_OF_RANGE@) && final(self)@ == old(self)@,
    {
        if !self.position_is_valid(row, column) {
            return Err(OUT_OF_RANGE);
        }
        let ghost orig = self@;
        let ghost start = (row as int, column as int);
        let area = self.tiles.len();
        let mut seen: Vec<bool> = Vec::new();
        while seen.len() < area
            invariant
                seen@.len() <= area,
                forall|i: int| 0 <= i < seen@.len() ==> !seen@[i],
            decreases area - seen.len(),
        {
            seen.push(false);
        }
        let mut pending: Vec<(usize, usize)> = Vec::new();
        pending.push((row, column));
        proof {
            assert(positions(pending@) =~= seq![start]);
            lemma_flood_begin(orig, start, seen@);
        }
        while pending.len() > 0
            invariant
                self@.shaped(),
                flood_progress(orig, self@, start, seen@, positions(pending@)),
                flood_spread(orig, seen@, positions(pending@), None),
            decreases count_unseen(seen@), pending.len(),
        {
            let ghost before = positions(pending@);
            let (at_row, at_column) = pending.pop().unwrap();
            let ghost at = (at_row as int, at_column as int);
            proof {
                assert(positions(pending@) =~= before.drop_last());
                assert(before.last() == at);
                lemma_flood_top(orig, self@, start, seen@, before);
            }
            let index = self.index_of(at_row, at_column);
            let tile = self.tiles[index];
            if seen[index] || tile.state == TileState::Visible {
                proof {
                    lemma_flood_skip(orig, self@, start, seen@, before);
                }
            } else {
                proof {
                    lemma_flood_mark(orig, self@, start, seen@, before);
                    lemma_unseen_update(seen@, index as int);
                }
                let ghost cur = self@;
                seen.set(index, true);
                if tile.state == TileState::Hidden {
                    self.tiles.set(index, Tile { state: TileState::Visible, has_mine: tile.has_mine });
                }
                proof {
                    assert(self.tiles@ =~= cur.tiles.update(index as int, uncovered(tile)));
                    assert(self@ == cur.with_tile(at.0, at.1, uncovered(tile)));
                    lemma_opened_form(orig, self@);
                }
                self.flood_onwards(
                    at_row,
                    at_column,
                    &mut pending,
                    Ghost(orig),
                    Ghost(start),
                    Ghost(seen@),
                );
            }
        }
        proof {
            assert(positions(pending@) =~= Seq::<(int, int)>::empty());
            lemma_flood_finish(orig, self@, start, seen@);
            lemma_flooded_opened(orig, row as int, column as int);
        }
        Ok(())
    }

    /// Perform what's known as a "chording" move.
    ///
    /// This is where a visible tile is surrounded by the same amount of flags
    /// as mines. All other tiles around it are then assumed to be safe, and
    /// are uncovered by a flood each.
    pub fn do_chord(&mut self, row: usize, column: usize) -> (done: Result<(), &'static str>)
        requires
            old(self)@.shaped(),
        ensures
            old(self)@.form_kept(final(self)@),
            old(self)@.valid(row as int, column as int) ==> done is Ok && final(self)@ == old(
                self,
            )@.chorded(row as int, column as int),
            old(self)@.valid(row as int, column as int) && !old(self)@.chord_applies(
                row as int,
                column as int,
            ) ==> final(self)@ == old(self)@,
            !old(self)@.valid(row as int, column as int) ==> (done matches Err(e) && e@
                == OUT_OF_RANGE@) && final(self)@ == old(self)@,
    {
        let state = match self.get_tile_state(row, column) {
            Ok(state) => state,
            Err(e) => { return Err(e); },
        };
        if state != TileState::Visible {
            return Ok(());
        }
        let cells = match self.get_indices_near(row, column) {
            Ok(cells) => cells,
            Err(e) => { return Err(e); },
        };
        let ghost orig = self@;
        let ghost near = orig.near(row as int, column as int);
        let ghost around = orig.tiles_at(near);
        let ghost is_hidden = |p: (int, int)| orig.tile(p.0, p.1).state is Hidden;
        proof {
            lemma_near_members(orig, row as int, column as int);
        }
        let mut nearby_flags: usize = 0;
        let mut nearby_mines: usize = 0;
        let mut hidden_indices: Vec<(usize, usize)> = Vec::new();
        let mut k: usize = 0;
        assert(near.take(0).filter(is_hidden) =~= Seq::<(int, int)>::empty()) by {
            reveal(Seq::filter);
        }
        while k < cells.len()
            invariant
                self@ == orig,
                orig.shaped(),
                k <= cells.len(),
                cells@.len() <= 8,
                positions(cells@) == near,
                near == orig.near(row as int, column as int),
                around == orig.tiles_at(near),
                is_hidden == |p: (int, int)| orig.tile(p.0, p.1).state is Hidden,
                forall|q: (int, int)| near.contains(q) ==> orig.valid(q.0, q.1),
                nearby_flags == count_flags(around.take(k as int)),
                nearby_mines == count_mines(around.take(k as int)),
                nearby_flags <= k,
                nearby_mines <= k,
                positions(hidden_indices@) == near.take(k as int).filter(is_hidden),
            decreases cells.len() - k,
        {
            let (adj_row, adj_column) = cells[k];
            proof {
                assert(near[k as int] == (adj_row as int, adj_column as int));
                assert(near.contains(near[k as int]));
                assert(around.take(k + 1).drop_last() =~= around.take(k as int));
                assert(near.take(k + 1).drop_last() =~= near.take(k as int));
                reveal(Seq::filter);
            }
            let index = self.index_of(adj_row, adj_column);
            let tile = self.tiles[index];
            let ghost hidden_before = positions(hidden_indices@);
            match tile.state {
                TileState::Flagged => {
                    nearby_flags += 1;
                },
                TileState::Hidden => {
                    hidden_indices.push((adj_row, adj_column));
                    assert(positions(hidden_indices@) =~= hidden_before.push(near[k as int]));
                },
                TileState::Visible => {},
            }
            if tile.has_mine {
                nearby_mines += 1;
            }
            k += 1;
        }
        proof {
            assert(around.take(k as int) =~= around);
            assert(near.take(k as int) =~= near);
        }
        if nearby_flags == nearby_mines {
            let ghost hidden = positions(hidden_indices@);
            proof {
                assert forall|i: int| 0 <= i < hidden.len() implies orig.valid(
                    (#[trigger] hidden[i]).0,
                    hidden[i].1,
                ) by {
                    assert(near.filter(is_hidden).contains(hidden[i]));
                    near.lemma_filter_contains_rev(is_hidden, hidden[i]);
                }
            }
            let mut j: usize = 0;
            while j < hidden_indices.len()
                invariant
                    orig.shaped(),
                    self@.shaped(),
                    orig.form_kept(self@),
                    j <= hidden_indices.len(),
                    hidden == positions(hidden_indices@),
                    hidden == orig.hidden_near(row as int, column as int),
                    self@ == orig.flooded_each(hidden.take(j as int)),
                    self@.width == orig.width,
                    self@.height == orig.height,
                    forall|i: int|
                        0 <= i < hidden.len() ==> orig.valid(
                            (#[trigger] hidden[i]).0,
                            hidden[i].1,
                        ),
                decreases hidden_indices.len() - j,
            {
                let (adj_row, adj_column) = hidden_indices[j];
                proof {
                    assert(hidden[j as int] == (adj_row as int, adj_column as int));
                    assert(hidden.take(j + 1).drop_last() =~= hidden.take(j as int));
                }
                let _ = self.flood_empty_tiles(adj_row, adj_column);
                j += 1;
            }
            proof {
                assert(hidden.take(j as int) =~= hidden);
            }
        }
        Ok(())
    }

    /// Work out the state of the game.
    pub fn get_state(&self) -> (state: MineFieldState)
        ensures
            state == self@.outcome(),
            state is Failed <==> self@.exploded(),
            state is Cleared <==> !self@.exploded() && !self@.unsolved(),
    {
        let mut is_cleared = true;
        let mut index: usize = 0;
        while index < self.tiles.len()
            invariant
                index <= self.tiles@.len(),
                forall|i: int|
                    0 <= i < index ==> !((#[trigger] self.tiles@[i]).state is Visible
                        && self.tiles@[i].has_mine),
                is_cleared <==> forall|i: int|
                    0 <= i < index ==> !((#[trigger] self.tiles@[i]).state is Hidden
                        && !self.tiles@[i].has_mine),
            decreases self.tiles.len() - index,
        {
            let tile = self.tiles[index];
            match tile.state {
                // if a mine is exposed, they've failed
                TileState::Visible => {
                    if tile.has_mine {
                        return MineFieldState::Failed;
                    }
                },
                // or if a tile is still unsolved, they haven't cleared.
                TileState::Hidden => {
                    if !tile.has_mine {
                        is_cleared = false;
                    }
                },
                TileState::Flagged => {},
            }
            index += 1;
        }
        if is_cleared {
            MineFieldState::Cleared
        } else {
            MineFieldState::InProgress
        }
    }

    /// Make all tiles visible except correct flags, and count the flags
    /// that are left.
    pub fn game_over(&mut self)
        ensures
            old(self)@.form_kept(final(self)@),
            final(self)@.flags_counted(),
            final(self)@ == old(self)@.revealed(),
            forall|i: int|
                0 <= i < old(self)@.tiles.len() ==> (#[trigger] final(self)@.tiles[i]) == shown(
                    old(self)@.tiles[i],
                ),
    {
        let ghost orig = self@;
        let ghost goal = orig.tiles.map_values(|tile: Tile| shown(tile));
        let mut flags: usize = 0;
        let mut index: usize = 0;
        while index < self.tiles.len()
            invariant
                index <= self.tiles@.len(),
                self.tiles@.len() == orig.tiles.len(),
                self.width == orig.width,
                self.height == orig.height,
                self.mines == orig.mines,
                goal == orig.tiles.map_values(|tile: Tile| shown(tile)),
                forall|i: int| 0 <= i < index ==> self.tiles@[i] == goal[i],
                forall|i: int| index <= i < self.tiles@.len() ==> self.tiles@[i] == orig.tiles[i],
                flags == count_flags(goal.take(index as int)),
                flags <= index,
            decreases self.tiles.len() - index,
        {
            let tile = self.tiles[index];
            proof {
                assert(goal.take(index + 1).drop_last() =~= goal.take(index as int));
            }
            if tile.state == TileState::Flagged && tile.has_mine {
                flags += 1;
            } else {
                self.tiles.set(index, Tile { state: TileState::Visible, has_mine: tile.has_mine });
            }
            index += 1;
        }
        self.flags = flags;
        proof {
            assert(goal.take(index as int) =~= goal);
            assert(self.tiles@ =~= goal);
            lemma_count_mines_same(orig.tiles, goal);
        }
    }
}

} // verus!
