//! The two world-loading formats, as mathematical models.
//!
//! * Plain grid: the text is scanned character by character. A caller-chosen
//!   dead character and alive character write the cell at the cursor, `\n`
//!   advances the row and resets the column, `\r` is ignored, and anything
//!   else is an error carrying the character and its (row, col).
//! * Run-length-encoded pattern: leading lines that start with `#`
//!   (comments) or `x` (the size header) are skipped; the body is a stream
//!   of `<count><tag>` tokens where tag `b` is a run of dead cells, `o` a
//!   run of live cells, `$` ends the current row (a count skips several
//!   rows), and `!` terminates the pattern. A missing count is 1,
//!   whitespace between tokens is ignored, and a malformed token is an
//!   error.
//!
//! The executable loaders live on `life::World`; this module holds the
//! error type and the specification-level parsers their contracts cite.

use vstd::prelude::*;

use crate::grid::grid_set;
use crate::loc::Loc;

verus! {

/// Run counts above this limit are rejected as malformed.
pub const MAX_RUN: i64 = 1_000_000_009;

/// Coordinates above this limit are rejected, keeping all position
/// arithmetic far inside `i64`.
pub const MAX_EXTENT: i64 = 1_000_000_000;

/// Why a world description was rejected. A failed load yields no world.
#[derive(PartialEq, Eq, Structural, Clone, Copy, Debug)]
pub enum ConfigParseError {
    /// A plain-grid character that is neither the dead character, the alive
    /// character, nor a line break, with the cell position it would have
    /// described.
    InvalidChar { c: char, row: i64, col: i64 },
    /// A pattern-body character that is not a digit, a tag, `!`, or
    /// whitespace, with its character index in the text.
    InvalidToken { c: char, at: usize },
    /// A run count grew beyond `MAX_RUN`.
    RunTooLong { at: usize },
    /// A run or row skip would move the cursor beyond `MAX_EXTENT`.
    PatternTooLarge { at: usize },
    /// The pattern text ended without the `!` terminator.
    Unterminated,
}

/// The plain-grid scanner from an intermediate state: grid `g` with the
/// cursor at (`row`, `col`).
pub open spec fn plain_from(
    s: Seq<char>,
    dead: char,
    alive: char,
    g: Map<Loc, bool>,
    row: int,
    col: int,
) -> Result<Map<Loc, bool>, ConfigParseError>
    decreases s.len(),
{
    if s.len() == 0 {
        Ok(g)
    } else {
        let c = s[0];
        let rest = s.drop_first();
        if c == dead {
            plain_from(
                rest,
                dead,
                alive,
                grid_set(g, Loc { row: row as i64, col: col as i64 }, false),
                row,
                col + 1,
            )
        } else if c == alive {
            plain_from(
                rest,
                dead,
                alive,
                grid_set(g, Loc { row: row as i64, col: col as i64 }, true),
                row,
                col + 1,
            )
        } else if c == '\n' {
            plain_from(rest, dead, alive, g, row + 1, 0)
        } else if c == '\r' {
            plain_from(rest, dead, alive, g, row, col)
        } else {
            Err(ConfigParseError::InvalidChar { c, row: row as i64, col: col as i64 })
        }
    }
}

/// What the plain-grid format makes of a whole text.
pub open spec fn plain_parse(s: Seq<char>, dead: char, alive: char) -> Result<
    Map<Loc, bool>,
    ConfigParseError,
> {
    plain_from(s, dead, alive, Map::empty(), 0, 0)
}

/// `g` after a run of `n` cells with state `alive`, laid out to the right
/// from (`row`, `col`). Each cell is written as `set` writes it, seeding
/// the neighborhood of live cells.
pub open spec fn run_cells(g: Map<Loc, bool>, row: int, col: int, n: int, alive: bool) -> Map<
    Loc,
    bool,
>
    decreases n,
{
    if n <= 0 {
        g
    } else {
        run_cells(
            grid_set(g, Loc { row: row as i64, col: col as i64 }, alive),
            row,
            col + 1,
            n - 1,
            alive,
        )
    }
}

/// The pattern scanner from an intermediate state. `mode` 0 is the start
/// of a line before the body (where `#` and `x` lines are skipped), 1 is
/// the inside of a skipped line, 2 is the body. `count` accumulates the
/// digits of the pending run count, `has_count` whether any digit was
/// seen; `at` is the character index of `s[0]` in the whole text.
pub open spec fn rle_from(
    s: Seq<char>,
    at: int,
    mode: int,
    g: Map<Loc, bool>,
    row: int,
    col: int,
    count: int,
    has_count: bool,
) -> Result<Map<Loc, bool>, ConfigParseError>
    decreases s.len(),
{
    if s.len() == 0 {
        Err(ConfigParseError::Unterminated)
    } else {
        let c = s[0];
        let rest = s.drop_first();
        if mode == 1 {
            if c == '\n' {
                rle_from(rest, at + 1, 0, g, row, col, count, has_count)
            } else {
                rle_from(rest, at + 1, 1, g, row, col, count, has_count)
            }
        } else if mode == 0 && (c == '#' || c == 'x') {
            rle_from(rest, at + 1, 1, g, row, col, count, has_count)
        } else if mode == 0 && (c == '\n' || c == '\r') {
            rle_from(rest, at + 1, 0, g, row, col, count, has_count)
        } else {
            // body
            if 48 <= c as u32 <= 57 {
                if count > (MAX_RUN - 9) / 10 {
                    Err(ConfigParseError::RunTooLong { at: at as usize })
                } else {
                    rle_from(rest, at + 1, 2, g, row, col, count * 10 + (c as u32 - 48), true)
                }
            } else if c == 'b' || c == 'o' {
                let n = if has_count {
                    count
                } else {
                    1
                };
                if col + n > MAX_EXTENT {
                    Err(ConfigParseError::PatternTooLarge { at: at as usize })
                } else {
                    rle_from(
                        rest,
                        at + 1,
                        2,
                        run_cells(g, row, col, n, c == 'o'),
                        row,
                        col + n,
                        0,
                        false,
                    )
                }
            } else if c == '$' {
                let n = if has_count {
                    count
                } else {
                    1
                };
                if row + n > MAX_EXTENT {
                    Err(ConfigParseError::PatternTooLarge { at: at as usize })
                } else {
                    rle_from(rest, at + 1, 2, g, row + n, 0, 0, false)
                }
            } else if c == '!' {
                Ok(g)
            } else if c == ' ' || c == '\t' || c == '\n' || c == '\r' {
                rle_from(rest, at + 1, 2, g, row, col, count, has_count)
            } else {
                Err(ConfigParseError::InvalidToken { c, at: at as usize })
            }
        }
    }
}

/// What the run-length-encoded format makes of a whole text.
pub open spec fn rle_parse(s: Seq<char>) -> Result<Map<Loc, bool>, ConfigParseError> {
    rle_from(s, 0, 0, Map::empty(), 0, 0, 0, false)
}

} // verus!
