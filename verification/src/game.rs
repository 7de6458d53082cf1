//! A game of Minesweeper: a field, a cursor on it, and what each command of
//! the player does to them. Reading keys and drawing are left to the caller.

use vstd::prelude::*;
use crate::board::{lemma_openings_valid, Board};
use crate::flood::lemma_flooded_opened;
use crate::laws::{law_chord_opens_only, law_toggle_twice};
use crate::minefield::{MineField, MineFieldState, INSUFFICIENT_SPACE};

verus! {

/// What a key press asks for.
#[derive(Debug, PartialEq, Eq, Structural, Copy, Clone)]
pub enum Command {
    Up,
    Down,
    Left,
    Right,
    /// Toggle the flag under the cursor.
    Flag,
    /// Dig at the cursor, flooding empty space.
    Dig,
    /// Chord at the cursor.
    Chord,
    Pause,
    Quit,
    /// A key that means nothing.
    Other,
}

/// What the caller does after a command was handled.
#[derive(Debug, PartialEq, Eq, Structural, Copy, Clone)]
pub enum Turn {
    /// Draw the field again and wait for the next key.
    Redraw,
    /// Pause the clock until the player resumes, then draw the field again.
    Pause,
    /// Wait for the next key; nothing has changed.
    Ignore,
    /// The game is over: a mine lies open, the field is cleared, or the
    /// player has quit.
    Finish,
}

/// The tile that the player points at.
#[derive(Debug, PartialEq, Eq, Structural, Copy, Clone)]
pub struct Cursor {
    pub row: u16,
    pub column: u16,
}

/// The cursor after `command`, kept on a field of `width` by `height` tiles.
pub open spec fn moved(cursor: Cursor, command: Command, width: nat, height: nat) -> Cursor {
    let row: int = match command {
        Command::Up => if cursor.row > 0 { cursor.row - 1 } else { 0 },
        Command::Down => cursor.row + 1,
        _ => cursor.row as int,
    };
    let column: int = match command {
        Command::Left => if cursor.column > 0 { cursor.column - 1 } else { 0 },
        Command::Right => cursor.column + 1,
        _ => cursor.column as int,
    };
    Cursor {
        row: (if row >= height { height - 1 } else { row }) as u16,
        column: (if column >= width { width - 1 } else { column }) as u16,
    }
}

/// The board after `command` at `cursor`.
pub open spec fn played(board: Board, cursor: Cursor, command: Command) -> Board {
    match command {
        Command::Flag => board.toggled(cursor.row as int, cursor.column as int),
        Command::Dig => board.flooded(cursor.row as int, cursor.column as int),
        Command::Chord => board.chorded(cursor.row as int, cursor.column as int),
        _ => board,
    }
}

/// What follows `command`, which has led to `board`: a dig or a chord ends
/// the game once the board is no longer in progress.
pub open spec fn turn_after(board: Board, command: Command) -> Turn {
    match command {
        Command::Quit => Turn::Finish,
        Command::Other => Turn::Ignore,
        Command::Pause => Turn::Pause,
        Command::Dig | Command::Chord => if board.outcome() is InProgress {
            Turn::Redraw
        } else {
            Turn::Finish
        },
        _ => Turn::Redraw,
    }
}

/// A game: the field that is played on.
pub struct Minesweeper {
    field: MineField,
}

impl View for Minesweeper {
    type V = Board;

    closed spec fn view(&self) -> Board {
        self.field@
    }
}

impl Minesweeper {
    /// The field can be played on with a cursor: its tiles fill it, its
    /// flags are counted, it has a tile, and its sides fit the cursor's
    /// coordinates.
    pub open spec fn playable(&self) -> bool {
        &&& self@.shaped()
        &&& self@.flags_counted()
        &&& 0 < self@.width <= u16::MAX
        &&& 0 < self@.height <= u16::MAX
    }

    /// Set up a game with a pre-defined field.
    pub fn with_field(field: MineField) -> (game: Self)
        ensures
            game@ == field@,
    {
        Self { field }
    }

    /// Set up a fully new, random game.
    pub fn new(rows: usize, columns: usize, mines: usize) -> (made: Result<Self, &'static str>)
        requires
            rows * columns <= usize::MAX,
        ensures
            mines <= rows * columns ==> (made matches Ok(game) && game@.wf() && game@.width == rows
                && game@.height == columns && game@.mines == mines && game@.flags == 0
                && forall|i: int|
                0 <= i < game@.tiles.len() ==> (#[trigger] game@.tiles[i]).state is Hidden),
            mines > rows * columns ==> (made matches Err(e) && e@
                == INSUFFICIENT_SPACE@),
    {
        match MineField::new(rows, columns, mines) {
            Ok(field) => Ok(Self::with_field(field)),
            Err(e) => Err(e),
        }
    }

    /// A game on a beginner field.
    #[inline]
    pub fn beginner() -> (game: Self)
        ensures
            game.playable(),
            game@.width == 10,
            game@.height == 10,
            game@.mines == 10,
            game@.flags == 0,
            forall|i: int| 0 <= i < game@.tiles.len() ==> (#[trigger] game@.tiles[i]).state is Hidden,
    {
        Self::with_field(MineField::beginner())
    }

    /// A game on an intermediate field.
    #[inline]
    pub fn intermediate() -> (game: Self)
        ensures
            game.playable(),
            game@.width == 15,
            game@.height == 15,
            game@.mines == 40,
            game@.flags == 0,
            forall|i: int| 0 <= i < game@.tiles.len() ==> (#[trigger] game@.tiles[i]).state is Hidden,
    {
        Self::with_field(MineField::intermediate())
    }

    /// A game on an expert field.
    #[inline]
    pub fn expert() -> (game: Self)
        ensures
            game.playable(),
            game@.width == 30,
            game@.height == 16,
            game@.mines == 99,
            game@.flags == 0,
            forall|i: int| 0 <= i < game@.tiles.len() ==> (#[trigger] game@.tiles[i]).state is Hidden,
    {
        Self::with_field(MineField::expert())
    }

    /// The field that is played on.
    pub fn field(&self) -> (field: &MineField)
        ensures
            field@ == self@,
    {
        &self.field
    }

    /// Whether the field can be played on with a cursor.
    pub fn is_playable(&self) -> (playable: bool)
        ensures
            playable == self.playable(),
    {
        self.field.is_shaped() && self.field.has_counted_flags() && 0 < self.field.width()
            && self.field.width() <= 65535 && 0 < self.field.height() && self.field.height()
            <= 65535
    }

    /// Set up the first open field before displaying, and put the cursor
    /// on the tile that was opened, or on the first tile if none was.
    pub fn start(&mut self) -> (cursor: Cursor)
        requires
            old(self).playable(),
        ensures
            final(self).playable(),
            cursor.row < final(self)@.height,
            cursor.column < final(self)@.width,
            old(self)@.openings().len() == 0 ==> final(self)@ == old(self)@ && cursor == (Cursor {
                row: 0,
                column: 0,
            }),
            old(self)@.openings().len() > 0 ==> old(self)@.openings().contains(
                (cursor.row as int, cursor.column as int),
            ) && final(self)@ == old(self)@.flooded(cursor.row as int, cursor.column as int),
    {
        let ghost before = self@;
        match self.field.clear_first_opening() {
            Some((row, column)) => {
                proof {
                    lemma_openings_valid(before, (row as int, column as int));
                }
                Cursor { row: row as u16, column: column as u16 }
            },
            None => Cursor { row: 0, column: 0 },
        }
    }

    /// Handle one command of the player: move the cursor, or act on the
    /// tile under it, and say what the caller has to do next.
    pub fn step(&mut self, cursor: Cursor, command: Command) -> (next: (Cursor, Turn))
        requires
            old(self).playable(),
            cursor.row < old(self)@.height,
            cursor.column < old(self)@.width,
        ensures
            final(self).playable(),
            final(self)@ == played(old(self)@, cursor, command),
            next.0 == moved(cursor, command, old(self)@.width, old(self)@.height),
            next.0.row < final(self)@.height,
            next.0.column < final(self)@.width,
            next.1 == turn_after(final(self)@, command),
    {
        let ghost before = self@;
        let mut tile_row = cursor.row;
        let mut tile_column = cursor.column;
        let mut check_for_mine = false;
        proof {
            law_toggle_twice(before, cursor.row as int, cursor.column as int);
            lemma_flooded_opened(before, cursor.row as int, cursor.column as int);
            law_chord_opens_only(before, cursor.row as int, cursor.column as int);
        }
        match command {
            // cursor controls
            Command::Up => {
                tile_row = if tile_row > 0 { tile_row - 1 } else { 0 };
            },
            Command::Down => {
                tile_row = if tile_row < 65535 { tile_row + 1 } else { tile_row };
            },
            Command::Left => {
                tile_column = if tile_column > 0 { tile_column - 1 } else { 0 };
            },
            Command::Right => {
                tile_column = if tile_column < 65535 { tile_column + 1 } else { tile_column };
            },
            // tile controls. toggles a flag.
            Command::Flag => {
                let _ = self.field.toggle_flag(tile_row as usize, tile_column as usize);
            },
            // digs an empty space.
            Command::Dig => {
                let _ = self.field.flood_empty_tiles(tile_row as usize, tile_column as usize);
                check_for_mine = true;
            },
            // performs a chording move.
            Command::Chord => {
                let _ = self.field.do_chord(tile_row as usize, tile_column as usize);
                check_for_mine = true;
            },
            // miscellaneous controls
            Command::Pause => {
                return (cursor, Turn::Pause);
            },
            Command::Quit => {
                return (cursor, Turn::Finish);
            },
            Command::Other => {
                return (cursor, Turn::Ignore);
            },
        }
        // ensure that the cursor stays in range.
        if tile_row as usize >= self.field.height() {
            tile_row = (self.field.height() - 1) as u16;
        }
        if tile_column as usize >= self.field.width() {
            tile_column = (self.field.width() - 1) as u16;
        }
        let next = Cursor { row: tile_row, column: tile_column };
        // if a space has been cleared, there may be a mine.
        if check_for_mine {
            // check if the game has been finished.
            if self.field.get_state() != MineFieldState::InProgress {
                return (next, Turn::Finish);
            }
        }
        (next, Turn::Redraw)
    }

    /// End the game: show every tile but the flags that stand on a mine.
    pub fn finish(&mut self)
        ensures
            final(self)@ == old(self)@.revealed(),
            old(self)@.form_kept(final(self)@),
            final(self)@.flags_counted(),
    {
        self.field.game_over();
    }
}

} // verus!
