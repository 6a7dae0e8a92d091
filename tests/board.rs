use sweepster::board::{Board, Cell, CellState};

fn sorted(mut v: Vec<(usize, usize)>) -> Vec<(usize, usize)> {
    v.sort();
    v
}

#[test]
fn find_nearby_cells() {
    // Remember: r,c

    let board = Board::new(1, 1, 0, false, false);
    assert!(board.nearby_cells((0, 0)).is_empty());

    /*
     * (0, 0) (0, 1)
     * (1, 0) (1, 1)
     */
    let board = Board::new(2, 2, 0, false, false);
    let answers = vec![
        ((0, 0), vec![(1, 0), (0, 1), (1, 1)]),
        ((0, 1), vec![(0, 0), (1, 0), (1, 1)]),
        ((1, 0), vec![(0, 0), (0, 1), (1, 1)]),
        ((1, 1), vec![(1, 0), (0, 0), (0, 1)]),
    ];
    for (c, mut a) in answers {
        let mut n = board.nearby_cells(c);
        n.sort();
        a.sort();
        assert_eq!(n, a);
    }

    /*
     * (0, 0) (0, 1) (0, 2)
     * (1, 0) (1, 1) (1, 2)
     * (2, 0) (2, 1) (2, 2)
     */
    let board = Board::new(3, 3, 0, false, false);
    let answers = vec![
        ((0, 0), vec![(1, 0), (0, 1), (1, 1)]),
        ((0, 1), vec![(0, 0), (1, 0), (1, 1), (1, 2), (0, 2)]),
        ((0, 2), vec![(0, 1), (1, 1), (1, 2)]),
        ((1, 0), vec![(0, 0), (0, 1), (1, 1), (2, 1), (2, 0)]),
        ((1, 1), vec![(0, 0), (0, 1), (0, 2), (1, 2), (2, 2), (2, 1), (2, 0), (1, 0)]),
        ((1, 2), vec![(0, 2), (0, 1), (1, 1), (2, 1), (2, 2)]),
        ((2, 0), vec![(1, 0), (1, 1), (2, 1)]),
        ((2, 1), vec![(2, 0), (1, 0), (1, 1), (1, 2), (2, 2)]),
        ((2, 2), vec![(2, 1), (1, 1), (1, 2)]),
    ];
    for (c, mut a) in answers {
        let mut n = board.nearby_cells(c);
        n.sort();
        a.sort();
        assert_eq!(n, a);
    }

    /*
     * (0, 0) (0, 1) (0, 2)
     * (1, 0) (1, 1) (1, 2)
     */
    let board = Board::new(2, 3, 0, false, false);
    let answers = vec![
        ((0, 0), vec![(1, 0), (0, 1), (1, 1)]),
        ((0, 1), vec![(0, 0), (1, 0), (1, 1), (1, 2), (0, 2)]),
        ((0, 2), vec![(0, 1), (1, 1), (1, 2)]),
        ((1, 0), vec![(0, 0), (0, 1), (1, 1)]),
        ((1, 1), vec![(1, 0), (0, 0), (0, 1), (0, 2), (1, 2)]),
        ((1, 2), vec![(1, 1), (0, 1), (0, 2)]),
    ];
    for (c, mut a) in answers {
        let mut n = board.nearby_cells(c);
        n.sort();
        a.sort();
        assert_eq!(n, a);
    }
}

#[test]
fn neighbor_counts_by_position() {
    let board = Board::new(4, 5, 0, false, false);
    for r in 0..4 {
        for c in 0..5 {
            let n = board.nearby_cells((r, c));
            let row_edge = r == 0 || r == 3;
            let col_edge = c == 0 || c == 4;
            let expected = if row_edge && col_edge {
                3
            } else if row_edge || col_edge {
                5
            } else {
                8
            };
            assert_eq!(n.len(), expected);
            assert!(!n.contains(&(r, c)));
            assert!(n.iter().all(|&(a, b)| a < 4 && b < 5));
        }
    }
}

#[test]
fn thin_grid_neighbors() {
    let board = Board::new(1, 3, 0, false, false);
    assert_eq!(sorted(board.nearby_cells((0, 0))), vec![(0, 1)]);
    assert_eq!(sorted(board.nearby_cells((0, 1))), vec![(0, 0), (0, 2)]);
}

#[test]
fn new_board_is_covered() {
    let board = Board::new(3, 4, 2, true, false);
    assert_eq!(board.rows(), 3);
    assert_eq!(board.columns(), 4);
    assert_eq!(board.mine_count(), 2);
    assert!(!board.mines_placed());
    assert!(board.auto_flag);
    assert!(!board.auto_reveal);
    for r in 0..3 {
        for c in 0..4 {
            let cell = board.get_cell((r, c));
            assert!(cell.is_covered());
            assert_eq!(cell.value, 0);
        }
    }
    assert_eq!(board.bombs_left(), 2);
}

#[test]
fn first_reveal_is_safe() {
    for _ in 0..20 {
        let mut board = Board::new(8, 8, 40, false, false);
        board.expose((3, 4));
        assert!(board.mines_placed());
        assert_eq!(board.get_cell((3, 4)).state, CellState::Empty);
        for n in board.nearby_cells((3, 4)) {
            board.expose(n);
            assert_eq!(board.get_cell(n).state, CellState::Empty);
        }
    }
}

#[test]
fn first_reveal_in_a_corner_is_safe() {
    let mut board = Board::new(2, 3, 2, false, false);
    board.expose((0, 0));
    assert_eq!(board.get_cell((0, 0)).state, CellState::Empty);
    assert_eq!(board.get_cell((0, 0)).value, 0);
    for c in [(0, 1), (1, 0), (1, 1)] {
        assert_eq!(board.get_cell(c).state, CellState::Empty);
    }
    assert_eq!(board.get_cell((0, 1)).value, 2);
    assert_eq!(board.get_cell((1, 1)).value, 2);
    assert_eq!(board.get_cell((1, 0)).value, 0);
    board.expose((0, 2));
    board.expose((1, 2));
    assert_eq!(board.get_cell((0, 2)).state, CellState::Detonated);
    assert_eq!(board.get_cell((1, 2)).state, CellState::Detonated);
}

#[test]
fn mine_total_matches_count() {
    let mut board = Board::new(10, 12, 30, false, false);
    board.expose((5, 5));
    for r in 0..10 {
        for c in 0..12 {
            board.expose((r, c));
        }
    }
    let mut detonated = 0;
    for r in 0..10 {
        for c in 0..12 {
            let cell = board.get_cell((r, c));
            assert!(!cell.is_covered());
            if cell.state == CellState::Detonated {
                detonated += 1;
            }
        }
    }
    assert_eq!(detonated, 30);
}

#[test]
fn full_placement_fills_everything_outside_the_window() {
    let mut board = Board::new(5, 5, 16, false, false);
    board.expose((2, 2));
    assert_eq!(board.get_cell((2, 2)).value, 0);
    for r in 0..5usize {
        for c in 0..5usize {
            let inside = r.abs_diff(2) <= 1 && c.abs_diff(2) <= 1;
            if inside {
                assert_eq!(board.get_cell((r, c)).state, CellState::Empty);
            } else {
                board.expose((r, c));
                assert_eq!(board.get_cell((r, c)).state, CellState::Detonated);
            }
        }
    }
    assert_eq!(board.get_cell((1, 1)).value, 5);
    assert_eq!(board.get_cell((1, 2)).value, 3);
}

#[test]
fn counts_around_a_corner_mine() {
    let board = Board::with_mines(4, 4, &vec![(3, 3)], false, false);
    for r in 0..4 {
        for c in 0..4 {
            let expected = if (r, c) == (2, 2) || (r, c) == (2, 3) || (r, c) == (3, 2) { 1 } else { 0 };
            assert_eq!(board.get_cell((r, c)).value, expected);
        }
    }
    let board = Board::with_mines(3, 3, &vec![(2, 2)], false, false);
    for r in 0..3 {
        for c in 0..3 {
            let expected = if (r, c) == (1, 1) || (r, c) == (1, 2) || (r, c) == (2, 1) { 1 } else { 0 };
            assert_eq!(board.get_cell((r, c)).value, expected);
        }
    }
}

#[test]
fn counts_with_several_mines() {
    let board = Board::with_mines(3, 3, &vec![(0, 0), (0, 2), (2, 1)], false, false);
    assert_eq!(board.get_cell((1, 1)).value, 3);
    assert_eq!(board.get_cell((0, 1)).value, 2);
    assert_eq!(board.get_cell((1, 0)).value, 2);
    assert_eq!(board.get_cell((2, 0)).value, 1);
    assert_eq!(board.get_cell((0, 0)).value, 0);
    assert_eq!(board.bombs_left(), 3);
    assert!(board.mines_placed());
}

#[test]
fn flood_fills_an_empty_board() {
    let mut board = Board::new(2, 2, 0, false, false);
    board.expose((0, 0));
    for r in 0..2 {
        for c in 0..2 {
            let cell = board.get_cell((r, c));
            assert_eq!(cell.state, CellState::Empty);
            assert_eq!(cell.value, 0);
        }
    }
}

#[test]
fn one_by_one_board() {
    let mut board = Board::new(1, 1, 0, false, false);
    assert!(board.nearby_cells((0, 0)).is_empty());
    board.expose((0, 0));
    assert_eq!(board.get_cell((0, 0)).state, CellState::Empty);
}

#[test]
fn flood_stops_at_the_border() {
    let mut board = Board::with_mines(4, 4, &vec![(3, 3)], false, false);
    board.expose((0, 0));
    for r in 0..4 {
        for c in 0..4 {
            let expected = if (r, c) == (3, 3) { CellState::Covered } else { CellState::Empty };
            assert_eq!(board.get_cell((r, c)).state, expected);
        }
    }
}

#[test]
fn flood_region_is_bounded_by_numbers() {
    // a wall of mines down column 2 splits the board
    let mut board = Board::with_mines(3, 5, &vec![(0, 2), (1, 2), (2, 2)], false, false);
    board.expose((1, 0));
    for r in 0..3 {
        assert_eq!(board.get_cell((r, 0)).state, CellState::Empty);
        assert_eq!(board.get_cell((r, 1)).state, CellState::Empty);
        assert_eq!(board.get_cell((r, 2)).state, CellState::Covered);
        assert_eq!(board.get_cell((r, 3)).state, CellState::Covered);
        assert_eq!(board.get_cell((r, 4)).state, CellState::Covered);
    }
}

#[test]
fn numbered_cell_reveals_only_itself() {
    let mut board = Board::with_mines(3, 3, &vec![(2, 2)], false, false);
    board.expose((1, 1));
    assert_eq!(board.get_cell((1, 1)).state, CellState::Empty);
    let mut covered = 0;
    for r in 0..3 {
        for c in 0..3 {
            if board.get_cell((r, c)).is_covered() {
                covered += 1;
            }
        }
    }
    assert_eq!(covered, 8);
}

#[test]
fn flood_does_not_open_flags() {
    let mut board = Board::new(3, 3, 0, false, false);
    board.toggle_bomb((2, 2));
    board.expose((0, 0));
    assert_eq!(board.get_cell((2, 2)).state, CellState::Flagged);
    assert_eq!(board.get_cell((1, 1)).state, CellState::Empty);
}

#[test]
fn detonation_is_recorded() {
    let mut board = Board::with_mines(2, 2, &vec![(1, 1), (0, 1)], false, false);
    board.expose((1, 1));
    assert_eq!(board.get_cell((1, 1)).state, CellState::Detonated);
    assert_eq!(board.get_cell((1, 1)).value, 1);
    assert_eq!(board.get_cell((0, 0)).state, CellState::Covered);
}

#[test]
fn exposing_a_flag_changes_nothing() {
    let mut board = Board::new(3, 3, 1, false, false);
    board.toggle_bomb((1, 1));
    board.expose((1, 1));
    assert_eq!(board.get_cell((1, 1)).state, CellState::Flagged);
    assert!(!board.mines_placed());
    for r in 0..3 {
        for c in 0..3 {
            if (r, c) != (1, 1) {
                assert!(board.get_cell((r, c)).is_covered());
            }
        }
    }
}

#[test]
fn toggling_twice_restores_covered() {
    let mut board = Board::with_mines(3, 3, &vec![(0, 0)], false, false);
    board.toggle_bomb((2, 2));
    assert_eq!(board.get_cell((2, 2)).state, CellState::Flagged);
    board.toggle_bomb((2, 2));
    assert_eq!(board.get_cell((2, 2)).state, CellState::Covered);
}

#[test]
fn toggling_a_revealed_cell_does_nothing() {
    let mut board = Board::with_mines(3, 3, &vec![(0, 0)], false, false);
    board.expose((2, 2));
    assert_eq!(board.get_cell((2, 2)).state, CellState::Empty);
    board.toggle_bomb((2, 2));
    assert_eq!(board.get_cell((2, 2)).state, CellState::Empty);
    assert_eq!(board.bombs_left(), 1);
}

#[test]
fn mines_remaining_follows_flags() {
    let mut board = Board::new(4, 4, 3, false, false);
    assert_eq!(board.bombs_left(), 3);
    board.toggle_bomb((0, 0));
    assert_eq!(board.bombs_left(), 2);
    board.toggle_bomb((0, 1));
    board.toggle_bomb((0, 2));
    board.toggle_bomb((0, 3));
    assert_eq!(board.bombs_left(), -1);
    board.toggle_bomb((0, 1));
    assert_eq!(board.bombs_left(), 0);
}

#[test]
fn satisfaction_counts_flags() {
    let mut board = Board::with_mines(1, 3, &vec![(0, 0)], false, false);
    assert!(!board.is_cell_satsfied((0, 1)));
    assert!(board.is_cell_satsfied((0, 2)));
    board.toggle_bomb((0, 0));
    assert!(board.is_cell_satsfied((0, 1)));
    board.toggle_bomb((0, 2));
    assert!(!board.is_cell_satsfied((0, 1)));
}

#[test]
fn auto_flag_marks_certain_mines() {
    let mut board = Board::with_mines(3, 3, &vec![(2, 2)], true, false);
    board.expose((0, 0));
    assert_eq!(board.get_cell((2, 2)).state, CellState::Flagged);
    assert_eq!(board.get_cell((1, 1)).state, CellState::Empty);
    assert_eq!(board.bombs_left(), 0);
}

#[test]
fn without_auto_flag_mines_stay_covered() {
    let mut board = Board::with_mines(3, 3, &vec![(2, 2)], false, false);
    board.expose((0, 0));
    assert_eq!(board.get_cell((2, 2)).state, CellState::Covered);
    assert_eq!(board.bombs_left(), 1);
}

#[test]
fn auto_flag_waits_for_certainty() {
    let mut board = Board::with_mines(1, 3, &vec![(0, 0)], true, false);
    board.expose((0, 1));
    // (0, 1) has two unrevealed neighbours and one mine: nothing is certain
    assert_eq!(board.get_cell((0, 0)).state, CellState::Covered);
    board.expose((0, 2));
    // (0, 2) has no mine around it, so (0, 1) is re-examined and (0, 0) is flagged
    assert_eq!(board.get_cell((0, 0)).state, CellState::Flagged);
}

#[test]
fn auto_reveal_opens_around_satisfied_cells() {
    let mut board = Board::with_mines(1, 3, &vec![(0, 0)], false, true);
    board.expose((0, 1));
    assert_eq!(board.get_cell((0, 2)).state, CellState::Covered);
    board.toggle_bomb((0, 0));
    assert_eq!(board.get_cell((0, 0)).state, CellState::Flagged);
    assert_eq!(board.get_cell((0, 2)).state, CellState::Empty);
}

#[test]
fn without_auto_reveal_flags_open_nothing() {
    let mut board = Board::with_mines(1, 3, &vec![(0, 0)], false, false);
    board.expose((0, 1));
    board.toggle_bomb((0, 0));
    assert_eq!(board.get_cell((0, 2)).state, CellState::Covered);
}

#[test]
fn auto_reveal_trusts_wrong_flags() {
    let mut board = Board::with_mines(1, 3, &vec![(0, 0)], false, true);
    board.expose((0, 1));
    board.toggle_bomb((0, 2));
    assert_eq!(board.get_cell((0, 0)).state, CellState::Detonated);
}

#[test]
fn both_assists_chain() {
    // mines at the two ends of a row; revealing the middle flags them and
    // then nothing is left covered
    let mut board = Board::with_mines(1, 5, &vec![(0, 0), (0, 4)], true, true);
    board.expose((0, 2));
    assert_eq!(board.get_cell((0, 2)).value, 0);
    assert_eq!(board.get_cell((0, 0)).state, CellState::Flagged);
    assert_eq!(board.get_cell((0, 4)).state, CellState::Flagged);
    assert_eq!(board.get_cell((0, 1)).state, CellState::Empty);
    assert_eq!(board.get_cell((0, 3)).state, CellState::Empty);
    assert_eq!(board.bombs_left(), 0);
}

#[test]
fn cell_methods() {
    let mut cell = Cell::default();
    assert!(cell.is_covered());
    assert!(!cell.is_empty());
    assert_eq!(cell.value, 0);
    cell.expose();
    assert!(cell.is_empty());
    assert!(!cell.is_covered());
    assert_eq!(cell.state, CellState::Empty);
}

#[test]
fn fisrt_click_lays_the_mines() {
    let mut board = Board::new(6, 6, 27, false, false);
    board.fisrt_click((0, 0));
    assert!(board.mines_placed());
    for r in 0..6 {
        for c in 0..6 {
            assert!(board.get_cell((r, c)).is_covered());
        }
    }
    assert_eq!(board.get_cell((0, 0)).value, 0);
    let mut mines = 0;
    for r in 0..6 {
        for c in 0..6 {
            board.expose((r, c));
            if board.get_cell((r, c)).state == CellState::Detonated {
                mines += 1;
            }
        }
    }
    assert_eq!(mines, 27);
    assert_eq!(board.get_cell((0, 0)).state, CellState::Empty);
    assert_eq!(board.get_cell((1, 1)).state, CellState::Empty);
}

#[test]
fn auto_flag_flags_a_detonated_neighbour() {
    let mut board = Board::with_mines(2, 2, &vec![(0, 1), (1, 0), (1, 1)], true, false);
    board.expose((0, 1));
    assert_eq!(board.get_cell((0, 1)).state, CellState::Detonated);
    board.expose((0, 0));
    assert_eq!(board.get_cell((0, 0)).state, CellState::Empty);
    assert_eq!(board.get_cell((0, 0)).value, 3);
    assert_eq!(board.get_cell((0, 1)).state, CellState::Flagged);
    assert_eq!(board.get_cell((1, 0)).state, CellState::Flagged);
    assert_eq!(board.get_cell((1, 1)).state, CellState::Flagged);
    assert_eq!(board.bombs_left(), 0);
}

#[test]
fn auto_flag_flags_only_around_certain_cells() {
    // (0, 2) has one mine among two unrevealed neighbours: nothing is certain,
    // and the mine far away stays covered
    let mut board = Board::with_mines(3, 4, &vec![(1, 3), (2, 0)], true, false);
    board.expose((0, 2));
    assert_eq!(board.get_cell((0, 2)).value, 1);
    assert_eq!(board.get_cell((1, 3)).state, CellState::Covered);
    assert_eq!(board.get_cell((2, 0)).state, CellState::Covered);
    assert_eq!(board.bombs_left(), 2);
}

#[test]
fn exposing_twice_changes_nothing() {
    let mut board = Board::with_mines(4, 4, &vec![(3, 3), (0, 3)], true, true);
    board.expose((0, 0));
    let first: Vec<CellState> = (0..16).map(|i| board.get_cell((i / 4, i % 4)).state).collect();
    board.expose((0, 0));
    let second: Vec<CellState> = (0..16).map(|i| board.get_cell((i / 4, i % 4)).state).collect();
    assert_eq!(first, second);
}

#[test]
fn detonated_zero_cell_floods() {
    let mut board = Board::with_mines(2, 2, &vec![(0, 0)], false, false);
    board.expose((0, 0));
    assert_eq!(board.get_cell((0, 0)).state, CellState::Detonated);
    assert_eq!(board.get_cell((0, 0)).value, 0);
    for c in [(0, 1), (1, 0), (1, 1)] {
        assert_eq!(board.get_cell(c).state, CellState::Empty);
    }
    let mut board = Board::with_mines(3, 3, &vec![(0, 0)], false, false);
    board.expose((0, 0));
    assert_eq!(board.get_cell((1, 1)).state, CellState::Empty);
    assert_eq!(board.get_cell((2, 2)).state, CellState::Covered);
}

#[test]
fn detonated_cell_auto_flags() {
    // (0, 0) detonates with count 1; its one unrevealed neighbour is certain
    let mut board = Board::with_mines(1, 3, &vec![(0, 0), (0, 1)], true, false);
    board.expose((0, 0));
    assert_eq!(board.get_cell((0, 0)).state, CellState::Detonated);
    assert_eq!(board.get_cell((0, 1)).state, CellState::Flagged);
    assert_eq!(board.get_cell((0, 2)).state, CellState::Covered);
}

#[test]
fn flood_after_an_earlier_reveal() {
    let mut board = Board::with_mines(3, 5, &vec![(0, 2), (1, 2), (2, 2)], false, false);
    board.expose((0, 3));
    assert_eq!(board.get_cell((0, 3)).value, 2);
    assert_eq!(board.get_cell((0, 4)).state, CellState::Covered);
    board.expose((1, 4));
    for r in 0..3 {
        assert_eq!(board.get_cell((r, 3)).state, CellState::Empty);
        assert_eq!(board.get_cell((r, 4)).state, CellState::Empty);
        assert_eq!(board.get_cell((r, 0)).state, CellState::Covered);
        assert_eq!(board.get_cell((r, 1)).state, CellState::Covered);
        assert_eq!(board.get_cell((r, 2)).state, CellState::Covered);
    }
}
