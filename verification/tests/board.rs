use minesweeper::board::{Board, BoardError, GameState, RevealOutcome, Visibility};

#[test]
fn new_rejects_zero_mines() {
    assert!(matches!(Board::new(3, 3, 0), Err(BoardError::InvalidConfiguration)));
}

#[test]
fn new_rejects_full_board_of_mines() {
    assert!(matches!(Board::new(3, 3, 9), Err(BoardError::InvalidConfiguration)));
}

#[test]
fn new_rejects_zero_dimensions() {
    assert!(matches!(Board::new(0, 5, 1), Err(BoardError::InvalidConfiguration)));
    assert!(matches!(Board::new(5, 0, 1), Err(BoardError::InvalidConfiguration)));
}

#[test]
fn new_board_starts_not_started() {
    let b = Board::new(4, 5, 3).unwrap();
    assert_eq!(b.rows(), 4);
    assert_eq!(b.cols(), 5);
    assert_eq!(b.mine_count(), 3);
    assert_eq!(b.game_state(), GameState::NotStarted);
    assert!(!b.mines_placed());
}

#[test]
fn fresh_cells_are_hidden_and_opaque() {
    let b = Board::new(3, 3, 1).unwrap();
    for r in 0..3 {
        for c in 0..3 {
            let s = b.cell_at(r, c).unwrap();
            assert_eq!(s.visibility, Visibility::Hidden);
            assert!(!s.known);
            assert!(!s.has_mine);
            assert_eq!(s.adjacent, 0);
        }
    }
}

#[test]
fn cell_at_rejects_out_of_range() {
    let b = Board::new(3, 3, 1).unwrap();
    assert!(matches!(b.cell_at(3, 0), Err(BoardError::OutOfBounds)));
    assert!(matches!(b.cell_at(0, 3), Err(BoardError::OutOfBounds)));
}

#[test]
fn explicit_layout_starts_in_progress_and_hides_mines() {
    let mines = vec![(2usize, 2usize)];
    let b = Board::new_with_mines(3, 3, &mines).unwrap();
    assert_eq!(b.game_state(), GameState::InProgress);
    assert!(b.mines_placed());
    assert_eq!(b.mine_count(), 1);
    // While the game runs, even the mined cell's snapshot stays opaque.
    let s = b.cell_at(2, 2).unwrap();
    assert_eq!(s.visibility, Visibility::Hidden);
    assert!(!s.known);
    assert!(!s.has_mine);
}

#[test]
fn explicit_layout_rejects_duplicates_and_out_of_range() {
    let dup = vec![(1usize, 1usize), (1usize, 1usize)];
    assert!(matches!(Board::new_with_mines(3, 3, &dup), Err(BoardError::InvalidConfiguration)));
    let out = vec![(3usize, 0usize)];
    assert!(matches!(Board::new_with_mines(3, 3, &out), Err(BoardError::InvalidConfiguration)));
    let none: Vec<(usize, usize)> = vec![];
    assert!(matches!(Board::new_with_mines(3, 3, &none), Err(BoardError::InvalidConfiguration)));
}

#[test]
fn toggle_flag_flips_and_flips_back() {
    let mut b = Board::new(3, 3, 1).unwrap();
    assert_eq!(b.toggle_flag(1, 1).unwrap(), RevealOutcome::Changed);
    assert_eq!(b.cell_at(1, 1).unwrap().visibility, Visibility::Flagged);
    assert_eq!(b.toggle_flag(1, 1).unwrap(), RevealOutcome::Changed);
    assert_eq!(b.cell_at(1, 1).unwrap().visibility, Visibility::Hidden);
}

#[test]
fn toggle_flag_leaves_other_cells_alone() {
    let mut b = Board::new(2, 2, 1).unwrap();
    b.toggle_flag(0, 0).unwrap();
    assert_eq!(b.cell_at(0, 1).unwrap().visibility, Visibility::Hidden);
    assert_eq!(b.cell_at(1, 0).unwrap().visibility, Visibility::Hidden);
    assert_eq!(b.cell_at(1, 1).unwrap().visibility, Visibility::Hidden);
    assert_eq!(b.game_state(), GameState::NotStarted);
}

#[test]
fn toggle_flag_rejects_out_of_range() {
    let mut b = Board::new(2, 2, 1).unwrap();
    assert!(matches!(b.toggle_flag(2, 0), Err(BoardError::OutOfBounds)));
}

#[test]
fn seeded_boards_accept_any_seed() {
    for seed in 0..8u64 {
        let b = Board::new_seeded(4, 4, 5, seed).unwrap();
        assert_eq!(b.game_state(), GameState::NotStarted);
        assert_eq!(b.mine_count(), 5);
    }
}

#[test]
fn corner_clear_floods_whole_board_and_wins() {
    // One mine in the far corner: the first reveal at the opposite corner
    // has a zero count, so the flood opens all 8 safe cells in one call.
    let mines = vec![(2usize, 2usize)];
    let mut b = Board::new_with_mines(3, 3, &mines).unwrap();
    let (outcome, changes) = b.reveal_cell(0, 0).unwrap();
    assert_eq!(outcome, RevealOutcome::Changed);
    assert_eq!(changes.len(), 8);
    assert_eq!(b.game_state(), GameState::Won);
    for r in 0..3 {
        for c in 0..3 {
            let s = b.cell_at(r, c).unwrap();
            if (r, c) == (2, 2) {
                assert_eq!(s.visibility, Visibility::Hidden);
                assert!(s.known && s.has_mine);
            } else {
                assert_eq!(s.visibility, Visibility::Revealed);
                assert!(s.known && !s.has_mine);
            }
        }
    }
}

#[test]
fn revealing_a_mine_loses_and_opens_every_mine() {
    let mines = vec![(0usize, 2usize), (2usize, 2usize)];
    let mut b = Board::new_with_mines(3, 3, &mines).unwrap();
    let (outcome, changes) = b.reveal_cell(0, 2).unwrap();
    assert_eq!(outcome, RevealOutcome::Exploded);
    assert_eq!(b.game_state(), GameState::Lost);
    assert!(changes.contains(&(0, 2)));
    assert!(changes.contains(&(2, 2)));
    assert_eq!(b.cell_at(0, 2).unwrap().visibility, Visibility::Revealed);
    assert_eq!(b.cell_at(2, 2).unwrap().visibility, Visibility::Revealed);
    // With the game over, the snapshots disclose the layout: exactly the
    // configured number of mines.
    let mut mine_cells = 0;
    for r in 0..3 {
        for c in 0..3 {
            if b.cell_at(r, c).unwrap().has_mine {
                mine_cells += 1;
            }
        }
    }
    assert_eq!(mine_cells, b.mine_count());
}

#[test]
fn reveal_is_a_no_op_on_revealed_flagged_or_finished() {
    let mines = vec![(0usize, 1usize)];
    let mut b = Board::new_with_mines(3, 3, &mines).unwrap();
    let (o1, ch1) = b.reveal_cell(0, 0).unwrap();
    assert_eq!(o1, RevealOutcome::Changed);
    assert_eq!(ch1, vec![(0, 0)]);
    assert_eq!(b.game_state(), GameState::InProgress);
    // Again on the same cell: nothing happens.
    let (o2, ch2) = b.reveal_cell(0, 0).unwrap();
    assert_eq!(o2, RevealOutcome::NoChange);
    assert!(ch2.is_empty());
    // A flagged cell cannot be revealed.
    b.toggle_flag(2, 0).unwrap();
    let (o3, ch3) = b.reveal_cell(2, 0).unwrap();
    assert_eq!(o3, RevealOutcome::NoChange);
    assert!(ch3.is_empty());
    assert_eq!(b.cell_at(2, 0).unwrap().visibility, Visibility::Flagged);
    // Once the game is over, everything is a no-op.
    b.reveal_cell(0, 1).unwrap();
    assert_eq!(b.game_state(), GameState::Lost);
    let (o4, ch4) = b.reveal_cell(1, 1).unwrap();
    assert_eq!(o4, RevealOutcome::NoChange);
    assert!(ch4.is_empty());
    assert_eq!(b.toggle_flag(1, 1).unwrap(), RevealOutcome::NoChange);
}

#[test]
fn first_reveal_never_explodes() {
    // Deferred placement relocates mines away from the first click: no
    // first reveal explodes, for any cell and several seeds.
    for seed in 0..4u64 {
        for r in 0..5 {
            for c in 0..5 {
                let mut b = Board::new_seeded(5, 5, 8, seed).unwrap();
                let (outcome, _) = b.reveal_cell(r, c).unwrap();
                assert_ne!(outcome, RevealOutcome::Exploded);
                assert_ne!(b.game_state(), GameState::Lost);
            }
        }
    }
}

#[test]
fn first_click_zone_is_mine_free_when_it_fits() {
    // 5x5 with 8 mines leaves room to spare the whole 3x3 neighborhood of
    // the first click, so revealing all 8 neighbors afterwards is safe too.
    let mut b = Board::new_seeded(5, 5, 8, 7).unwrap();
    b.reveal_cell(2, 2).unwrap();
    for r in 1..4 {
        for c in 1..4 {
            let (outcome, _) = b.reveal_cell(r, c).unwrap();
            assert_ne!(outcome, RevealOutcome::Exploded);
        }
    }
    assert_ne!(b.game_state(), GameState::Lost);
}

#[test]
fn win_happens_exactly_when_all_safe_cells_are_revealed() {
    let mines = vec![(0usize, 0usize)];
    let mut b = Board::new_with_mines(2, 2, &mines).unwrap();
    b.reveal_cell(0, 1).unwrap();
    assert_eq!(b.game_state(), GameState::InProgress);
    b.reveal_cell(1, 0).unwrap();
    assert_eq!(b.game_state(), GameState::InProgress);
    let (o, _) = b.reveal_cell(1, 1).unwrap();
    assert_eq!(o, RevealOutcome::Changed);
    assert_eq!(b.game_state(), GameState::Won);
    let mut revealed = 0;
    for r in 0..2 {
        for c in 0..2 {
            if b.cell_at(r, c).unwrap().visibility == Visibility::Revealed {
                revealed += 1;
            }
        }
    }
    assert_eq!(revealed, 2 * 2 - b.mine_count());
}

#[test]
fn flood_opens_region_and_border_only() {
    // Mine at (2,1) on a 3x3 board: the zero-count region is the top row,
    // its border the middle row; the bottom corners stay hidden.
    let mines = vec![(2usize, 1usize)];
    let mut b = Board::new_with_mines(3, 3, &mines).unwrap();
    let (_, changes) = b.reveal_cell(0, 0).unwrap();
    assert_eq!(changes.len(), 6);
    assert_eq!(b.game_state(), GameState::InProgress);
    for c in 0..3 {
        assert_eq!(b.cell_at(0, c).unwrap().visibility, Visibility::Revealed);
        assert_eq!(b.cell_at(1, c).unwrap().visibility, Visibility::Revealed);
    }
    assert_eq!(b.cell_at(2, 0).unwrap().visibility, Visibility::Hidden);
    assert_eq!(b.cell_at(2, 2).unwrap().visibility, Visibility::Hidden);
    // The border cells show their counts.
    assert_eq!(b.cell_at(1, 0).unwrap().adjacent, 1);
    assert_eq!(b.cell_at(1, 1).unwrap().adjacent, 1);
    assert_eq!(b.cell_at(1, 2).unwrap().adjacent, 1);
    assert_eq!(b.cell_at(0, 0).unwrap().adjacent, 0);
}
