use rustysweep::board::{Board, BoardError};
use rustysweep::state::GameState;
use rustysweep::tile::Tile;

fn blank_tiles(n: usize) -> Vec<Tile> {
    let mut v = Vec::new();
    for _ in 0..n {
        v.push(Tile::new());
    }
    v
}

fn board_with_mines(rows: usize, cols: usize, mine_positions: &[(usize, usize)]) -> Board {
    let mut tiles = blank_tiles(rows * cols);
    for &(x, y) in mine_positions {
        tiles[y * cols + x].has_mine = true;
    }
    Board { rows, cols, mines_count: mine_positions.len(), tiles }
}

fn count_mines(b: &Board) -> usize {
    b.tiles.iter().filter(|t| t.has_mine).count()
}

#[test]
fn new_board_is_blank() {
    let b = Board::new(9, 9, 10);
    assert_eq!(b.rows, 9);
    assert_eq!(b.cols, 9);
    assert_eq!(b.mines_count, 10);
    assert_eq!(b.tiles.len(), 81);
    for t in &b.tiles {
        assert!(!t.revealed && !t.has_mine && !t.has_flag);
    }
    assert_eq!(b.remaining_tiles(), 81);
    assert_eq!(b.flagged_tiles(), 0);
    assert_eq!(b.revealed_tiles(), 0);
}

#[test]
fn generate_mines_places_exact_count() {
    for _ in 0..10 {
        let mut b = Board::new(9, 9, 10);
        b.generate_mines();
        assert_eq!(count_mines(&b), 10);
        assert!(b.mines_count <= b.rows * b.cols);
        for t in &b.tiles {
            assert!(!t.revealed && !t.has_flag);
        }
    }
}

#[test]
fn generate_mines_full_board() {
    let mut b = Board::new(2, 2, 4);
    b.generate_mines();
    assert_eq!(count_mines(&b), 4);
}

#[test]
fn first_reveal_never_lands_on_mine() {
    for _ in 0..50 {
        let mut b = board_with_mines(3, 3, &[(1, 1)]);
        let mut s = GameState::new();
        b.uncover(&mut s, 1, 1).unwrap();
        assert!(!s.game_ended);
        assert!(s.picked_tile);
        assert!(b.tiles[1 * 3 + 1].revealed);
        assert!(!b.tiles[1 * 3 + 1].has_mine);
        assert_eq!(count_mines(&b), 1);
    }
}

#[test]
fn reveal_is_idempotent() {
    let mut b = board_with_mines(3, 3, &[(2, 2)]);
    let mut s = GameState::new();
    b.uncover(&mut s, 0, 0).unwrap();
    let snapshot = b.tiles.clone();
    let s_before = (s.picked_tile, s.game_ended, s.game_won, s.game_ending_tile);
    b.uncover(&mut s, 0, 0).unwrap();
    assert_eq!(b.tiles, snapshot);
    assert_eq!(
        (s.picked_tile, s.game_ended, s.game_won, s.game_ending_tile),
        s_before
    );
}

#[test]
fn flood_reveals_zero_region_and_stops_at_numbers() {
    // 4x4 with a mine in the far corner: everything except the mine's own
    // neighborhood boundary tiles floods open from the opposite corner.
    let mut b = board_with_mines(4, 4, &[(3, 3)]);
    let mut s = GameState::new();
    b.uncover(&mut s, 0, 0).unwrap();
    assert!(!s.game_ended);
    for y in 0..4 {
        for x in 0..4 {
            let t = b.tiles[y * 4 + x];
            if x == 3 && y == 3 {
                assert!(!t.revealed);
            } else {
                assert!(t.revealed);
            }
        }
    }
}

#[test]
fn flood_one_by_three() {
    // A 1x3 board with one mine forced at (2,0): revealing (0,0) floods to
    // (1,0) and stops there, since (1,0) is adjacent to the mine.
    let mut b = board_with_mines(1, 3, &[(2, 0)]);
    let mut s = GameState::new();
    b.uncover(&mut s, 0, 0).unwrap();
    assert!(b.tiles[0].revealed);
    assert!(b.tiles[1].revealed);
    assert!(!b.tiles[2].revealed);
    assert!(!s.game_ended);
    assert_eq!(b.adjacent_mines(0, 0), 0);
    assert_eq!(b.adjacent_mines(1, 0), 1);
}

#[test]
fn reveal_clears_flag() {
    let mut b = board_with_mines(1, 3, &[(2, 0)]);
    let mut s = GameState::new();
    b.flag(1, 0).unwrap();
    assert!(b.tiles[1].has_flag);
    b.uncover(&mut s, 0, 0).unwrap();
    assert!(b.tiles[1].revealed);
    assert!(!b.tiles[1].has_flag);
}

#[test]
fn partition_holds_at_all_times() {
    let mut b = board_with_mines(3, 3, &[(2, 2)]);
    let mut s = GameState::new();
    let total = b.rows * b.cols;
    assert_eq!(b.remaining_tiles() + b.flagged_tiles() + b.revealed_tiles(), total);
    b.flag(0, 1).unwrap();
    assert_eq!(b.remaining_tiles() + b.flagged_tiles() + b.revealed_tiles(), total);
    b.uncover(&mut s, 0, 0).unwrap();
    assert_eq!(b.remaining_tiles() + b.flagged_tiles() + b.revealed_tiles(), total);
    b.flag(2, 2).unwrap();
    assert_eq!(b.remaining_tiles() + b.flagged_tiles() + b.revealed_tiles(), total);
}

#[test]
fn loss_records_fatal_tile() {
    let mut b = board_with_mines(2, 2, &[(1, 1)]);
    let mut s = GameState::new();
    b.uncover(&mut s, 0, 0).unwrap();
    assert!(s.picked_tile);
    assert!(!s.game_ended);
    let before = b.tiles.clone();
    b.uncover(&mut s, 1, 1).unwrap();
    assert!(s.game_ended);
    assert_eq!(s.game_ending_tile, Some((1, 1)));
    assert_eq!(b.tiles, before);
    assert!(!b.tiles[1 * 2 + 1].revealed);
}

#[test]
fn reveal_after_loss_short_circuits() {
    let mut b = board_with_mines(2, 2, &[(1, 1)]);
    let mut s = GameState::new();
    b.uncover(&mut s, 0, 0).unwrap();
    b.uncover(&mut s, 1, 1).unwrap();
    assert!(s.game_ended);
    let before = b.tiles.clone();
    b.uncover(&mut s, 1, 0).unwrap();
    assert!(s.game_ended);
    assert_eq!(s.game_ending_tile, Some((1, 0)));
    assert_eq!(b.tiles, before);
}

#[test]
fn flag_toggles_back_to_original() {
    let mut b = board_with_mines(2, 2, &[(1, 1)]);
    let before = b.tiles.clone();
    b.flag(0, 0).unwrap();
    assert!(b.tiles[0].has_flag);
    assert_eq!(b.flagged_tiles(), 1);
    b.flag(0, 0).unwrap();
    assert_eq!(b.tiles, before);
    assert_eq!(b.flagged_tiles(), 0);
}

#[test]
fn flag_on_revealed_tile_is_ignored() {
    let mut b = board_with_mines(2, 2, &[(1, 1)]);
    let mut s = GameState::new();
    b.uncover(&mut s, 0, 0).unwrap();
    assert!(b.tiles[0].revealed);
    b.flag(0, 0).unwrap();
    assert!(!b.tiles[0].has_flag);
}

#[test]
fn out_of_bounds_is_rejected() {
    let mut b = board_with_mines(2, 2, &[(1, 1)]);
    let mut s = GameState::new();
    assert_eq!(b.uncover(&mut s, 2, 0), Err(BoardError::InvalidPosition));
    assert_eq!(b.uncover(&mut s, 0, 2), Err(BoardError::InvalidPosition));
    assert_eq!(b.flag(5, 5), Err(BoardError::InvalidPosition));
    assert!(!s.picked_tile);
    for t in &b.tiles {
        assert!(!t.revealed && !t.has_flag);
    }
}

#[test]
fn neighbors_center_row_major() {
    let b = Board::new(3, 3, 0);
    let n = b.get_neighboring_tiles(1, 1);
    assert_eq!(
        n,
        vec![
            (0, 0),
            (1, 0),
            (2, 0),
            (0, 1),
            (2, 1),
            (0, 2),
            (1, 2),
            (2, 2)
        ]
    );
}

#[test]
fn neighbors_corner_clipped() {
    let b = Board::new(3, 3, 0);
    assert_eq!(b.get_neighboring_tiles(0, 0), vec![(1, 0), (0, 1), (1, 1)]);
    assert_eq!(b.get_neighboring_tiles(2, 2), vec![(1, 1), (2, 1), (1, 2)]);
}

#[test]
fn adjacent_mines_counts_exactly() {
    let b = board_with_mines(3, 3, &[(0, 0), (1, 0), (2, 0)]);
    assert_eq!(b.adjacent_mines(1, 1), 3);
    assert_eq!(b.adjacent_mines(0, 2), 0);
    assert_eq!(b.adjacent_mines(1, 2), 0);
    assert_eq!(b.adjacent_mines(0, 1), 2);
    assert_eq!(b.adjacent_mines(2, 1), 2);
}

#[test]
fn get_new_pos_avoids_mines() {
    let mut b = board_with_mines(2, 2, &[(0, 0), (1, 0), (0, 1)]);
    for _ in 0..20 {
        let (x, y) = b.get_new_pos();
        assert_eq!((x, y), (1, 1));
    }
    b.tiles[3].has_mine = false;
    b.tiles[0].has_mine = false;
    for _ in 0..20 {
        let (x, y) = b.get_new_pos();
        assert!(!b.tiles[y * 2 + x].has_mine);
    }
}

#[test]
fn flag_all_remaining_flags_every_hidden_tile() {
    // 2x2, two mines; the two safe tiles revealed, one mine pre-flagged.
    let mut b = board_with_mines(2, 2, &[(0, 0), (1, 1)]);
    b.tiles[1].revealed = true;
    b.tiles[2].revealed = true;
    b.flag(0, 0).unwrap();
    assert_eq!(b.remaining_tiles() + b.flagged_tiles(), b.mines_count);
    b.flag_all_remaining_tiles();
    assert!(b.tiles[0].has_flag);
    assert!(b.tiles[3].has_flag);
    assert_eq!(b.flagged_tiles(), 2);
    assert_eq!(b.remaining_tiles(), 0);
}
