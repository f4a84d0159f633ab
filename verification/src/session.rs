use vstd::prelude::*;
use crate::board::consistent;
use crate::board::lemma_board_partition;
use crate::board::Board;
use crate::counting::count_if;
use crate::counting::is_flagged;
use crate::counting::is_hidden;
use crate::counting::is_mined;
use crate::counting::is_revealed;
use crate::state::GameState;

verus! {

/// The error of the win-policy check when the board's tile counts
/// contradict each other: remaining tiles equal the mine count while
/// remaining plus flagged tiles do not, so auto-flagging would be wrong.
/// This marks an internal inconsistency, not a user error, and the caller
/// aborts on it.
#[derive(Clone, Copy, Debug, PartialEq, Eq, Structural)]
pub enum SessionError {
    InconsistentFlagCount,
}

/// The move a player can make on a tile.
#[derive(Clone, Copy, Debug, PartialEq, Eq, Structural)]
pub enum Action {
    Reveal,
    Flag,
}

impl Action {
    /// The action encoded by a menu choice: 0 reveals, 1 flags.
    pub fn from_code(code: u8) -> (a: Action)
        requires
            code < 2,
        ensures
            a == (if code == 0 {
                Action::Reveal
            } else {
                Action::Flag
            }),
    {
        if code == 0 {
            Action::Reveal
        } else {
            Action::Flag
        }
    }
}

/// Apply the win policy to the board and status: the game is won when no
/// remaining tile is left, or when the remaining tiles are exactly the
/// mines; in the latter case the unflagged mines are auto-flagged first.
/// A board whose remaining count equals the mine count while remaining plus
/// flagged does not is inconsistent and left untouched.
pub fn update_win(board: &mut Board, status: &mut GameState) -> (res: Result<(), SessionError>)
    requires
        old(board).wf(),
    ensures
        final(board).wf(),
        final(board).rows == old(board).rows,
        final(board).cols == old(board).cols,
        final(board).mines_count == old(board).mines_count,
        count_if(final(board).tiles@, is_mined()) == count_if(old(board).tiles@, is_mined()),
        count_if(final(board).tiles@, is_revealed()) == count_if(
            old(board).tiles@,
            is_revealed(),
        ),
        old(board).closed() ==> final(board).closed(),
        final(status).picked_tile == old(status).picked_tile,
        final(status).game_ended == old(status).game_ended,
        final(status).game_ending_tile == old(status).game_ending_tile,
        final(status).inv() == old(status).inv(),
        consistent(*old(board), *old(status)) ==> consistent(*final(board), *final(status)),
        res is Err <==> (count_if(old(board).tiles@, is_hidden()) == old(board).mines_count
            && count_if(old(board).tiles@, is_hidden()) + count_if(
            old(board).tiles@,
            is_flagged(),
        ) != old(board).mines_count),
        res is Err ==> *final(board) == *old(board) && *final(status) == *old(status),
        res is Ok ==> final(status).game_won == (old(status).game_won || count_if(
            old(board).tiles@,
            is_hidden(),
        ) == 0 || count_if(old(board).tiles@, is_hidden()) + count_if(
            old(board).tiles@,
            is_flagged(),
        ) == old(board).mines_count),
        res is Ok && count_if(old(board).tiles@, is_hidden()) + count_if(
            old(board).tiles@,
            is_flagged(),
        ) == old(board).mines_count ==> count_if(final(board).tiles@, is_hidden()) == 0
            && count_if(final(board).tiles@, is_flagged()) == old(board).mines_count
            && (forall|i: int|
            0 <= i < final(board).tiles@.len() ==> (#[trigger] final(board).tiles@[i]).revealed
                == old(board).tiles@[i].revealed && final(board).tiles@[i].has_mine == old(
                board,
            ).tiles@[i].has_mine && final(board).tiles@[i].has_flag == (
            old(board).tiles@[i].has_flag || !old(board).tiles@[i].revealed)),
        res is Ok && count_if(old(board).tiles@, is_hidden()) + count_if(
            old(board).tiles@,
            is_flagged(),
        ) != old(board).mines_count ==> *final(board) == *old(board),
{
    let r = board.remaining_tiles();
    let f = board.flagged_tiles();
    let m = board.mines_count;
    proof {
        lemma_board_partition(*board);
    }
    if r == m || r + f == m {
        if r + f != m {
            return Err(SessionError::InconsistentFlagCount);
        }
        board.flag_all_remaining_tiles();
        status.game_won = true;
    }
    if r == 0 {
        status.game_won = true;
    }
    Ok(())
}

/// Build a custom board from requested width, height and mine count,
/// applying the game's minimums: at least 8 columns and rows, at least 10
/// mines, and at most `(rows - 1) * (cols - 1)` mines.
pub fn make_custom_board(cols: usize, rows: usize, mines: usize) -> (b: Board)
    requires
        clamped_dim(rows) * clamped_dim(cols) <= usize::MAX,
    ensures
        b.wf(),
        b.rows == clamped_dim(rows),
        b.cols == clamped_dim(cols),
        b.mines_count == clamped_mines(rows, cols, mines),
        count_if(b.tiles@, is_mined()) == 0,
        count_if(b.tiles@, is_revealed()) == 0,
        count_if(b.tiles@, is_flagged()) == 0,
        b.closed(),
{
    let c = if cols < 8 {
        8
    } else {
        cols
    };
    let r = if rows < 8 {
        8
    } else {
        rows
    };
    proof {
        assert((r - 1) * (c - 1) <= r * c) by (nonlinear_arith)
            requires
                r >= 1,
                c >= 1,
        ;
    }
    let cap = (r - 1) * (c - 1);
    let mut m = if mines < 10 {
        10
    } else {
        mines
    };
    if m > cap {
        m = cap;
    }
    proof {
        assert(cap >= 49) by (nonlinear_arith)
            requires
                r >= 8,
                c >= 8,
                cap == (r - 1) * (c - 1),
        ;
    }
    Board::new(r, c, m)
}

/// A requested dimension, raised to the minimum of 8.
pub open spec fn clamped_dim(v: usize) -> int {
    if v < 8 {
        8
    } else {
        v as int
    }
}

/// A requested mine count, raised to the minimum of 10 and capped at
/// `(rows - 1) * (cols - 1)` for the clamped dimensions.
pub open spec fn clamped_mines(rows: usize, cols: usize, mines: usize) -> int {
    let cap = (clamped_dim(rows) - 1) * (clamped_dim(cols) - 1);
    let m = if mines < 10 {
        10
    } else {
        mines as int
    };
    if m > cap {
        cap
    } else {
        m
    }
}

} // verus!
