use minesweeper::board::{Board, GameState, RevealOutcome, Visibility};
use minesweeper::game::{decode_pointer, GameEvent, Minesweeper};

#[test]
fn decode_pointer_splits_packed_coordinates() {
    let packed: i64 = 456 * 65536 + 123;
    assert_eq!(decode_pointer(packed), (123, 456));
    assert_eq!(decode_pointer(0), (0, 0));
}

#[test]
fn left_press_reveals_the_hovered_cell() {
    let mines = vec![(2usize, 2usize)];
    let board = Board::new_with_mines(3, 3, &mines).unwrap();
    // 300x300 container over a 3x3 grid: 100px cells, no margin.
    let mut g = Minesweeper::with_board(board, 300, 300).unwrap();
    g.on_pointer_moved(50, 50);
    assert_eq!(g.hover(), Some((0, 0)));
    let (outcome, changes) = g.on_pointer_pressed(false, false);
    assert_eq!(outcome, RevealOutcome::Changed);
    assert_eq!(changes.len(), 8);
    assert_eq!(g.game_state(), GameState::Won);
}

#[test]
fn right_press_toggles_a_flag() {
    let mines = vec![(2usize, 2usize)];
    let board = Board::new_with_mines(3, 3, &mines).unwrap();
    let mut g = Minesweeper::with_board(board, 300, 300).unwrap();
    g.on_pointer_moved(150, 50);
    assert_eq!(g.hover(), Some((0, 1)));
    let (outcome, changes) = g.on_pointer_pressed(true, false);
    assert_eq!(outcome, RevealOutcome::Changed);
    assert_eq!(changes, vec![(0, 1)]);
    assert_eq!(g.board().cell_at(0, 1).unwrap().visibility, Visibility::Flagged);
    let (outcome, _) = g.on_pointer_pressed(true, false);
    assert_eq!(outcome, RevealOutcome::Changed);
    assert_eq!(g.board().cell_at(0, 1).unwrap().visibility, Visibility::Hidden);
}

#[test]
fn press_without_hover_does_nothing() {
    let mut g = Minesweeper::new(3, 3, 1, 300, 300).unwrap();
    let (outcome, changes) = g.on_pointer_pressed(false, false);
    assert_eq!(outcome, RevealOutcome::NoChange);
    assert!(changes.is_empty());
    assert_eq!(g.game_state(), GameState::NotStarted);
}

#[test]
fn resize_recomputes_the_hover_in_place() {
    let mut g = Minesweeper::new(10, 10, 10, 500, 500).unwrap();
    g.on_pointer_moved(150, 400);
    assert_eq!(g.hover(), Some((8, 3)));
    // Shrinking to 300x800 moves the grid: 30px cells from offset (0, 250).
    g.on_parent_size_changed(300, 800).unwrap();
    assert_eq!(g.hover(), Some((5, 5)));
}

#[test]
fn chord_on_a_mine_neighbor_can_explode() {
    // Mines on two corners: the chord's first neighbor is a mine.
    let mines = vec![(0usize, 0usize), (2usize, 2usize)];
    let board = Board::new_with_mines(3, 3, &mines).unwrap();
    let mut g = Minesweeper::with_board(board, 300, 300).unwrap();
    g.on_pointer_moved(150, 150);
    assert_eq!(g.hover(), Some((1, 1)));
    let (outcome, _) = g.on_pointer_pressed(false, true);
    assert_eq!(outcome, RevealOutcome::Exploded);
    assert_eq!(g.game_state(), GameState::Lost);
}

#[test]
fn chord_skips_flagged_cells() {
    let mines = vec![(2usize, 2usize)];
    let board = Board::new_with_mines(3, 3, &mines).unwrap();
    let mut g = Minesweeper::with_board(board, 300, 300).unwrap();
    // Flag the mine, then chord around the center: the flag shields it.
    g.on_pointer_moved(250, 250);
    g.on_pointer_pressed(true, false);
    g.on_pointer_moved(150, 150);
    let (outcome, changes) = g.on_pointer_pressed(false, true);
    assert_eq!(outcome, RevealOutcome::Changed);
    assert_eq!(g.game_state(), GameState::Won);
    // Exactly the 8 safe cells changed; the flagged mine is not listed.
    assert_eq!(changes.len(), 8);
    assert!(!changes.contains(&(2, 2)));
}

#[test]
fn events_dispatch_to_the_matching_operation() {
    let mines = vec![(2usize, 2usize)];
    let board = Board::new_with_mines(3, 3, &mines).unwrap();
    let mut g = Minesweeper::with_board(board, 300, 300).unwrap();
    g.on_event(GameEvent::PointerMoved { x: 50, y: 50 }).unwrap();
    assert_eq!(g.hover(), Some((0, 0)));
    g.on_event(GameEvent::Resized { width: 600, height: 600 }).unwrap();
    assert_eq!(g.hover(), Some((0, 0)));
    let (outcome, _) = g
        .on_event(GameEvent::PointerPressed { is_right: false, is_double: false })
        .unwrap();
    assert_eq!(outcome, RevealOutcome::Changed);
    assert_eq!(g.game_state(), GameState::Won);
    // An impossible resize is rejected and changes nothing.
    assert!(g.on_event(GameEvent::Resized { width: usize::MAX, height: 10 }).is_err());
    assert_eq!(g.game_state(), GameState::Won);
}
