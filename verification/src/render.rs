use vstd::prelude::*;
use crate::board::Board;
use crate::counting::count_if;
use crate::counting::is_flagged;
use crate::state::GameState;

verus! {

/// What one grid cell shows when the board is drawn. The terminal layer
/// turns each glyph into a character and a color.
#[derive(Clone, Copy, Debug, PartialEq, Eq, Structural)]
pub enum CellGlyph {
    /// An unrevealed, unflagged tile: `#`.
    Hidden,
    /// A flagged tile: `^`, highlighted once the game has ended.
    Flag { alert: bool },
    /// A revealed tile with no adjacent mine: blank.
    Blank,
    /// A revealed tile with 1 to 8 adjacent mines: the count, color-coded.
    Number(u8),
    /// A mine shown after the game has ended: `*`; the fatal mine and the
    /// correctly flagged mines are visually distinguished.
    Mine { flagged: bool, fatal: bool },
}

/// The glyph the tile at (x, y) shows under the given session status.
pub open spec fn glyph_spec(b: Board, s: GameState, x: int, y: int) -> CellGlyph {
    let t = b.tile_at(x, y);
    if s.game_ended && t.has_mine {
        CellGlyph::Mine {
            flagged: t.has_flag,
            fatal: s.game_ending_tile == Some((x as usize, y as usize)),
        }
    } else if t.revealed {
        if b.adj_mines(x, y) == 0 {
            CellGlyph::Blank
        } else {
            CellGlyph::Number(b.adj_mines(x, y) as u8)
        }
    } else if t.has_flag {
        CellGlyph::Flag { alert: s.game_ended }
    } else {
        CellGlyph::Hidden
    }
}

/// Decide what the cell at (x, y) shows: mines are visible only once the
/// game has ended, revealed tiles show their adjacent-mine count or a blank,
/// and unrevealed tiles show a flag or stay hidden.
pub fn cell_symbol(board: &Board, status: &GameState, x: usize, y: usize) -> (g: CellGlyph)
    requires
        board.wf(),
        board.in_bounds(x as int, y as int),
    ensures
        g == glyph_spec(*board, *status, x as int, y as int),
{
    let i = board.index_of(x, y);
    let t = board.tiles[i];
    if status.game_ended && t.has_mine {
        let fatal = match status.game_ending_tile {
            Some(p) => p.0 == x && p.1 == y,
            None => false,
        };
        CellGlyph::Mine { flagged: t.has_flag, fatal }
    } else if t.revealed {
        let n = board.adjacent_mines(x, y);
        if n == 0 {
            CellGlyph::Blank
        } else {
            CellGlyph::Number(n)
        }
    } else if t.has_flag {
        CellGlyph::Flag { alert: status.game_ended }
    } else {
        CellGlyph::Hidden
    }
}

/// The number of decimal digits of `n`, at least 1.
pub open spec fn spec_digits(n: nat) -> nat
    decreases n,
{
    if n < 10 {
        1
    } else {
        1 + spec_digits(n / 10)
    }
}

/// A positive number has no more digits than its own value.
pub proof fn lemma_digits_le(n: nat)
    requires
        n >= 1,
    ensures
        spec_digits(n) <= n,
    decreases n,
{
    if n >= 10 {
        lemma_digits_le(n / 10);
    }
}

/// The width in characters of the remaining-mine counter: the decimal digit
/// count of `n`, and 1 for zero.
pub fn digit_width(n: usize) -> (d: usize)
    ensures
        d as nat == spec_digits(n as nat),
{
    proof {
        if n >= 1 {
            lemma_digits_le(n as nat);
        }
    }
    let mut d: usize = 1;
    let mut m: usize = n;
    while m >= 10
        invariant
            1 <= d,
            spec_digits(n as nat) == (d - 1) + spec_digits(m as nat),
            n >= 10 ==> spec_digits(n as nat) <= n as nat,
        decreases m,
    {
        proof {
            assert(spec_digits(m as nat) == 1 + spec_digits((m / 10) as nat));
            assert(spec_digits((m / 10) as nat) >= 1);
        }
        m = m / 10;
        d = d + 1;
    }
    d
}

/// The remaining-mine counter shown above the grid: the mine count minus
/// the flags placed. More flags than mines would make the counter negative,
/// so the caller keeps that case out.
pub fn mine_counter(board: &Board) -> (n: usize)
    requires
        count_if(board.tiles@, is_flagged()) <= board.mines_count,
    ensures
        n == board.mines_count - count_if(board.tiles@, is_flagged()),
{
    let f = board.flagged_tiles();
    board.mines_count - f
}

} // verus!
