//! The text of a minefield: one glyph per tile, coloured with the escape
//! sequences of the `termion` crate.

use vstd::prelude::*;
use vstd::string::StringExecFns;
use termion::color;
use crate::board::{lemma_position_of_index, positions, Board};
use crate::minefield::{MineField, OUT_OF_RANGE};
use crate::tile::TileState;

verus! {

/// The foreground colours that the glyphs use.
#[derive(Debug, PartialEq, Eq, Structural, Copy, Clone)]
pub enum Paint {
    LightBlue,
    Green,
    LightRed,
    Blue,
    Red,
    Cyan,
    White,
    LightBlack,
    LightMagenta,
    Reset,
}

/// The escape sequence that switches the terminal's foreground to `paint`.
pub open spec fn paint_sequence(paint: Paint) -> Seq<char> {
    match paint {
        Paint::LightBlue => "\x1B[38;5;12m"@,
        Paint::Green => "\x1B[38;5;2m"@,
        Paint::LightRed => "\x1B[38;5;9m"@,
        Paint::Blue => "\x1B[38;5;4m"@,
        Paint::Red => "\x1B[38;5;1m"@,
        Paint::Cyan => "\x1B[38;5;6m"@,
        Paint::White => "\x1B[38;5;7m"@,
        Paint::LightBlack => "\x1B[38;5;8m"@,
        Paint::LightMagenta => "\x1B[38;5;13m"@,
        Paint::Reset => "\x1B[39m"@,
    }
}

/// The colour in which a count of mines is written.
pub open spec fn count_paint(count: int) -> Paint {
    if count == 1 {
        Paint::LightBlue
    } else if count == 2 {
        Paint::Green
    } else if count == 3 {
        Paint::LightRed
    } else if count == 4 {
        Paint::Blue
    } else if count == 5 {
        Paint::Red
    } else if count == 6 {
        Paint::Cyan
    } else if count == 7 {
        Paint::White
    } else {
        Paint::LightBlack
    }
}

/// The decimal digit that stands for `count`, for a count below ten.
pub open spec fn count_digit(count: int) -> Seq<char> {
    seq![('0' as int + count) as char]
}

impl Board {
    /// The text that stands for the tile at `(row, column)`: `#` for a
    /// hidden tile, a coloured `~` for a flag, `X` for a mine that lies
    /// open, and for any other visible tile a blank, or the coloured count
    /// of the mines next to it.
    pub open spec fn glyph(self, row: int, column: int) -> Seq<char> {
        let tile = self.tile(row, column);
        match tile.state {
            TileState::Hidden => "#"@,
            TileState::Flagged => paint_sequence(Paint::LightMagenta) + "~"@ + paint_sequence(
                Paint::Reset,
            ),
            TileState::Visible => if tile.has_mine {
                "X"@
            } else if self.mines_near(row, column) == 0 {
                " "@
            } else {
                paint_sequence(count_paint(self.mines_near(row, column) as int)) + count_digit(
                    self.mines_near(row, column) as int,
                ) + paint_sequence(Paint::Reset)
            },
        }
    }

    /// The text of the first `upto` tiles in row-major order: each glyph is
    /// followed by a blank, and each row but the first starts on a new line.
    pub open spec fn rendered(self, upto: nat) -> Seq<char>
        decreases upto,
    {
        if upto == 0 {
            Seq::empty()
        } else {
            let index = (upto - 1) as nat;
            let at = self.position(index as int);
            self.rendered(index) + (if index != 0 && index % self.width == 0 {
                "\r\n"@
            } else {
                Seq::empty()
            }) + self.glyph(at.0, at.1) + " "@
        }
    }

    /// The text of the whole board.
    pub open spec fn rendering(self) -> Seq<char> {
        self.rendered(self.tiles.len())
    }
}

/// Formats `termion::color::Fg` of the colour of `termion::color` that
/// `paint` names.
///
/// Taken on trust: the text is the escape sequence that `termion` writes for
/// that colour as a foreground, `ESC [ 38 ; 5 ; n m` with the colour's number
/// in the palette, and `ESC [ 39 m` for the reset.
#[verifier::external_body]
fn paint_code(paint: Paint) -> (code: String)
    ensures
        code@ == paint_sequence(paint),
{
    let shade: &dyn color::Color = match paint {
        Paint::LightBlue => &color::LightBlue,
        Paint::Green => &color::Green,
        Paint::LightRed => &color::LightRed,
        Paint::Blue => &color::Blue,
        Paint::Red => &color::Red,
        Paint::Cyan => &color::Cyan,
        Paint::White => &color::White,
        Paint::LightBlack => &color::LightBlack,
        Paint::LightMagenta => &color::LightMagenta,
        Paint::Reset => &color::Reset,
    };
    format!("{}", color::Fg(shade))
}

/// The colour in which a count of mines from one to eight is written.
pub fn paint_for_count(count: usize) -> (paint: Paint)
    requires
        1 <= count <= 8,
    ensures
        paint == count_paint(count as int),
{
    if count == 1 {
        Paint::LightBlue
    } else if count == 2 {
        Paint::Green
    } else if count == 3 {
        Paint::LightRed
    } else if count == 4 {
        Paint::Blue
    } else if count == 5 {
        Paint::Red
    } else if count == 6 {
        Paint::Cyan
    } else if count == 7 {
        Paint::White
    } else {
        Paint::LightBlack
    }
}

/// The digit that stands for a count of mines from one to eight.
fn digit_for_count(count: usize) -> (digit: &'static str)
    requires
        1 <= count <= 8,
    ensures
        digit@ == count_digit(count as int),
{
    proof {
        reveal_strlit("1");
        reveal_strlit("2");
        reveal_strlit("3");
        reveal_strlit("4");
        reveal_strlit("5");
        reveal_strlit("6");
        reveal_strlit("7");
        reveal_strlit("8");
    }
    let digit = if count == 1 {
        "1"
    } else if count == 2 {
        "2"
    } else if count == 3 {
        "3"
    } else if count == 4 {
        "4"
    } else if count == 5 {
        "5"
    } else if count == 6 {
        "6"
    } else if count == 7 {
        "7"
    } else {
        "8"
    };
    assert(digit@ =~= count_digit(count as int));
    digit
}

impl MineField {
    /// Get the char representation of a tile.
    pub fn char_for_tile(&self, row: usize, column: usize) -> (found: Result<String, &'static str>)
        requires
            self@.shaped(),
        ensures
            self@.valid(row as int, column as int) ==> (found matches Ok(text) && text@
                == self@.glyph(row as int, column as int)),
            !self@.valid(row as int, column as int) ==> (found matches Err(e) && e@
                == OUT_OF_RANGE@),
    {
        let tile = match self.get_tile(row, column) {
            Ok(tile) => *tile,
            Err(e) => { return Err(e); },
        };
        Ok(
            match tile.state {
                TileState::Hidden => String::from_str("#"),
                TileState::Flagged => {
                    let mut text = paint_code(Paint::LightMagenta);
                    text.append("~");
                    text.append(paint_code(Paint::Reset).as_str());
                    text
                },
                TileState::Visible => {
                    if tile.has_mine {
                        String::from_str("X")
                    } else {
                        let count = match self.count_mines_near(row, column) {
                            Ok(count) => count,
                            Err(e) => { return Err(e); },
                        };
                        // if the tile is exposed and empty, show the empty
                        // tile or display the amount of surrounding mines
                        if count == 0 {
                            String::from_str(" ")
                        } else {
                            let mut text = paint_code(paint_for_count(count));
                            text.append(digit_for_count(count));
                            text.append(paint_code(Paint::Reset).as_str());
                            text
                        }
                    }
                },
            },
        )
    }

    /// The text of the whole field: the glyphs in row-major order, each
    /// followed by a blank, the rows separated by a line break.
    pub fn to_string(&self) -> (text: String)
        requires
            self@.shaped(),
        ensures
            text@ == self@.rendering(),
    {
        let cells = self.iter_positions();
        let width = self.width();
        let mut output = String::new();
        let mut index: usize = 0;
        assert(cells@.len() == positions(cells@).len());
        while index < cells.len()
            invariant
                self@.shaped(),
                width == self@.width,
                index <= cells@.len(),
                cells@.len() == self@.tiles.len(),
                positions(cells@) == self@.all_positions(),
                output@ == self@.rendered(index as nat),
            decreases cells.len() - index,
        {
            let (row, column) = cells[index];
            proof {
                lemma_position_of_index(self@, index as int);
                assert(positions(cells@)[index as int] == self@.position(index as int));
                assert(width > 0) by {
                    if width == 0 {
                        assert(self@.width * self@.height == 0) by (nonlinear_arith)
                            requires
                                self@.width == 0,
                        ;
                    }
                }
            }
            // separate rows with newline chars.
            if index != 0 && index % width == 0 {
                output.append("\r\n");
            }
            let glyph = match self.char_for_tile(row, column) {
                Ok(glyph) => glyph,
                Err(_) => String::new(),
            };
            output.append(glyph.as_str());
            output.append(" ");
            index += 1;
            proof {
                assert(output@ =~= self@.rendered(index as nat));
            }
        }
        output
    }
}

} // verus!
