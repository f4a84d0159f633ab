use rustysweep::board::Board;
use rustysweep::input::Input;
use rustysweep::render::{cell_symbol, digit_width, mine_counter, CellGlyph};
use rustysweep::session::{make_custom_board, update_win, Action, SessionError};
use rustysweep::state::GameState;
use rustysweep::tile::Tile;

fn blank_tiles(n: usize) -> Vec<Tile> {
    let mut v = Vec::new();
    for _ in 0..n {
        v.push(Tile::new());
    }
    v
}

fn board_with_mines(rows: usize, cols: usize, mine_positions: &[(usize, usize)]) -> Board {
    let mut tiles = blank_tiles(rows * cols);
    for &(x, y) in mine_positions {
        tiles[y * cols + x].has_mine = true;
    }
    Board { rows, cols, mines_count: mine_positions.len(), tiles }
}

#[test]
fn game_state_lifecycle() {
    let mut s = GameState::new();
    assert!(!s.picked_tile && !s.game_ended && !s.game_won);
    assert_eq!(s.game_ending_tile, None);
    s.picked_tile = true;
    s.game_ended = true;
    s.game_ending_tile = Some((3, 4));
    s.restart();
    assert!(!s.picked_tile && !s.game_ended && !s.game_won);
    assert_eq!(s.game_ending_tile, None);
}

#[test]
fn win_on_nine_by_nine_auto_flags_mines() {
    // All 71 non-mine tiles revealed, all 10 mines unflagged: the engine
    // auto-flags the mines and reports the win.
    let mines: Vec<(usize, usize)> = (0..10).map(|i| (i % 9, i / 9)).collect();
    let mut b = board_with_mines(9, 9, &mines);
    for t in b.tiles.iter_mut() {
        if !t.has_mine {
            t.revealed = true;
        }
    }
    let mut s = GameState::new();
    s.picked_tile = true;
    assert_eq!(update_win(&mut b, &mut s), Ok(()));
    assert!(s.game_won);
    assert_eq!(b.flagged_tiles(), 10);
    assert_eq!(b.remaining_tiles(), 0);
    for t in &b.tiles {
        if t.has_mine {
            assert!(t.has_flag);
        }
    }
}

#[test]
fn win_when_no_tile_remains() {
    let mut b = board_with_mines(2, 2, &[(1, 1)]);
    b.tiles[0].revealed = true;
    b.tiles[1].revealed = true;
    b.tiles[2].revealed = true;
    b.tiles[3].has_flag = true;
    let mut s = GameState::new();
    assert_eq!(update_win(&mut b, &mut s), Ok(()));
    assert!(s.game_won);
}

#[test]
fn no_win_mid_game() {
    let mut b = board_with_mines(3, 3, &[(2, 2)]);
    b.tiles[0].revealed = true;
    let mut s = GameState::new();
    assert_eq!(update_win(&mut b, &mut s), Ok(()));
    assert!(!s.game_won);
    assert_eq!(b.flagged_tiles(), 0);
}

#[test]
fn inconsistent_counts_are_reported() {
    // Two hidden tiles equal the mine count, but a third tile is flagged,
    // so remaining + flagged overshoots: the win check refuses to
    // auto-flag.
    let mut b = board_with_mines(2, 2, &[(0, 0), (1, 1)]);
    b.tiles[1].has_flag = true;
    b.tiles[2].revealed = true;
    assert_eq!(b.remaining_tiles(), 2);
    assert_eq!(b.flagged_tiles(), 1);
    let mut s = GameState::new();
    assert_eq!(
        update_win(&mut b, &mut s),
        Err(SessionError::InconsistentFlagCount)
    );
    assert!(!s.game_won);
    assert!(!b.tiles[0].has_flag);
}

#[test]
fn custom_board_enforces_minimums() {
    let b = make_custom_board(1, 1, 1);
    assert_eq!(b.cols, 8);
    assert_eq!(b.rows, 8);
    assert_eq!(b.mines_count, 10);
    assert_eq!(b.tiles.len(), 64);
}

#[test]
fn custom_board_caps_mines() {
    let b = make_custom_board(50, 50, 100000);
    assert_eq!(b.cols, 50);
    assert_eq!(b.rows, 50);
    assert_eq!(b.mines_count, 49 * 49);
}

#[test]
fn custom_board_keeps_valid_request() {
    let b = make_custom_board(30, 16, 99);
    assert_eq!(b.cols, 30);
    assert_eq!(b.rows, 16);
    assert_eq!(b.mines_count, 99);
}

#[test]
fn action_from_code() {
    assert_eq!(Action::from_code(0), Action::Reveal);
    assert_eq!(Action::from_code(1), Action::Flag);
}

#[test]
fn input_classify() {
    assert!(Input::classify(true, Some(3), None).is_cancel());
    assert!(Input::classify(false, None, None).is_invalid());
    assert!(Input::classify(false, Some(3), Some(2)).is_invalid());
    let n = Input::classify(false, Some(2), Some(2));
    assert!(!n.is_cancel() && !n.is_invalid());
    assert_eq!(n.get_num(), 2);
    assert_eq!(Input::classify(false, Some(7), None).get_num(), 7);
}

#[test]
fn digit_width_exact_values() {
    assert_eq!(digit_width(0), 1);
    assert_eq!(digit_width(9), 1);
    assert_eq!(digit_width(10), 2);
    assert_eq!(digit_width(99), 2);
    assert_eq!(digit_width(100), 3);
    assert_eq!(digit_width(2401), 4);
}

#[test]
fn mine_counter_subtracts_flags() {
    let mut b = board_with_mines(9, 9, &[(0, 0)]);
    b.mines_count = 10;
    b.tiles[10].has_flag = true;
    b.tiles[11].has_flag = true;
    b.tiles[12].has_flag = true;
    assert_eq!(mine_counter(&b), 7);
}

#[test]
fn cell_symbols_cover_every_state() {
    let mut b = board_with_mines(3, 3, &[(0, 0), (2, 0)]);
    b.tiles[0].has_flag = true;
    b.tiles[4].revealed = true;
    b.tiles[7].revealed = true;
    b.tiles[5].has_flag = true;
    let mut s = GameState::new();
    assert_eq!(cell_symbol(&b, &s, 1, 2), CellGlyph::Blank);
    assert_eq!(cell_symbol(&b, &s, 1, 1), CellGlyph::Number(2));
    assert_eq!(cell_symbol(&b, &s, 2, 1), CellGlyph::Flag { alert: false });
    assert_eq!(cell_symbol(&b, &s, 0, 0), CellGlyph::Flag { alert: false });
    assert_eq!(cell_symbol(&b, &s, 1, 0), CellGlyph::Hidden);
    s.game_ended = true;
    s.game_ending_tile = Some((2, 0));
    assert_eq!(
        cell_symbol(&b, &s, 0, 0),
        CellGlyph::Mine { flagged: true, fatal: false }
    );
    assert_eq!(
        cell_symbol(&b, &s, 2, 0),
        CellGlyph::Mine { flagged: false, fatal: true }
    );
    assert_eq!(cell_symbol(&b, &s, 2, 1), CellGlyph::Flag { alert: true });
}
