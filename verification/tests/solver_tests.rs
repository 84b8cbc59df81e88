use sudoku_solver::grid::{Grid, GridError, PotentialState};

fn scenario_a_seeds() -> Vec<(u8, (usize, usize))> {
    vec![
        (3, (0, 0)),
        (6, (0, 2)),
        (5, (0, 3)),
        (8, (0, 5)),
        (4, (0, 6)),
        (5, (1, 0)),
        (2, (1, 1)),
        (8, (2, 1)),
        (7, (2, 2)),
        (3, (2, 7)),
        (1, (2, 8)),
        (3, (3, 2)),
        (1, (3, 5)),
        (8, (3, 7)),
        (9, (4, 0)),
        (8, (4, 3)),
        (6, (4, 4)),
        (3, (4, 5)),
        (5, (4, 8)),
        (5, (5, 1)),
        (9, (5, 4)),
        (6, (5, 6)),
        (1, (6, 0)),
        (3, (6, 1)),
        (2, (6, 6)),
        (5, (6, 7)),
        (7, (7, 7)),
        (4, (7, 8)),
        (5, (8, 2)),
        (2, (8, 3)),
        (6, (8, 5)),
        (3, (8, 6)),
    ]
}

/// Every row and every column of a filled grid holds each of 1..9 once.
fn assert_latin(grid: &Grid) {
    for line in 0..9 {
        let mut row_seen = [false; 10];
        let mut col_seen = [false; 10];
        for k in 0..9 {
            let rv = grid.cells[line * 9 + k] as usize;
            let cv = grid.cells[k * 9 + line] as usize;
            assert!((1..=9).contains(&rv));
            assert!((1..=9).contains(&cv));
            assert!(!row_seen[rv], "duplicate {} in row {}", rv, line);
            assert!(!col_seen[cv], "duplicate {} in column {}", cv, line);
            row_seen[rv] = true;
            col_seen[cv] = true;
        }
    }
}

/// A complete grid whose rows and columns are permutations of 1..9.
fn complete_grid_seeds() -> Vec<(u8, (usize, usize))> {
    let mut seeds = Vec::new();
    for r in 0..9 {
        for c in 0..9 {
            let v = ((r + c) % 9 + 1) as u8;
            seeds.push((v, (r, c)));
        }
    }
    seeds
}

#[test]
fn scenario_a_fixed_puzzle() {
    let seeds = scenario_a_seeds();
    let mut grid = Grid::create(&seeds).unwrap();
    assert_eq!(grid.solve(), Ok(()));
    assert_latin(&grid);
    for (v, (r, c)) in seeds {
        assert_eq!(grid.cells[r * 9 + c], v, "seed at ({}, {}) changed", r, c);
    }
}

#[test]
fn scenario_b_already_solved_grid_is_kept() {
    let seeds = complete_grid_seeds();
    let mut grid = Grid::create(&seeds).unwrap();
    let before = grid.cells.clone();
    assert_eq!(grid.solve(), Ok(()));
    assert_eq!(grid.cells, before);
}

#[test]
fn scenario_c_single_cleared_cell_is_restored() {
    let seeds: Vec<(u8, (usize, usize))> = complete_grid_seeds()
        .into_iter()
        .filter(|&(_, (r, c))| !(r == 4 && c == 6))
        .collect();
    let mut grid = Grid::create(&seeds).unwrap();
    assert_eq!(grid.cells[4 * 9 + 6], 0);
    assert_eq!(grid.solve(), Ok(()));
    assert_eq!(grid.cells[4 * 9 + 6], (4 + 6) % 9 + 1);
}

#[test]
fn scenario_d_contradictory_seeds_fail_before_search() {
    let seeds = vec![(5, (0, 0)), (5, (0, 1))];
    let mut grid = Grid::create(&seeds).unwrap();
    let before = grid.cells.clone();
    assert_eq!(grid.solve(), Err(GridError::InconsistentBase));
    assert_eq!(grid.cells, before);
}

#[test]
fn scenario_e_empty_grid_solves_deterministically() {
    let mut first = Grid::create(&[]).unwrap();
    assert_eq!(first.solve(), Ok(()));
    assert_latin(&first);

    let mut second = Grid::create(&[]).unwrap();
    assert_eq!(second.solve(), Ok(()));
    assert_eq!(first.cells, second.cells);
}

#[test]
fn solve_is_deterministic_on_fixed_seeds() {
    let seeds = scenario_a_seeds();
    let mut first = Grid::create(&seeds).unwrap();
    let mut second = Grid::create(&seeds).unwrap();
    assert_eq!(first.solve(), Ok(()));
    assert_eq!(second.solve(), Ok(()));
    assert_eq!(first.cells, second.cells);
}

#[test]
fn unsolvable_grid_is_reported() {
    // Rows 0..2 carry 1..7 in columns 0..6, shifted so the columns stay
    // free of duplicates. The six cells left in columns 7 and 8 all have
    // the candidates {8, 9}, and no assignment fills three cells of one
    // column from two values, so the search must exhaust every branch.
    let mut seeds = Vec::new();
    for r in 0..3 {
        for c in 0..7 {
            seeds.push((((c + r) % 7 + 1) as u8, (r, c)));
        }
    }
    let mut grid = Grid::create(&seeds).unwrap();
    assert_eq!(grid.solve(), Err(GridError::Unsolvable));
}

#[test]
fn create_rejects_value_zero() {
    assert!(matches!(Grid::create(&[(0, (2, 3))]), Err(GridError::InvalidSeed)));
}

#[test]
fn create_rejects_value_above_nine() {
    assert!(matches!(Grid::create(&[(10, (2, 3))]), Err(GridError::InvalidSeed)));
}

#[test]
fn create_rejects_out_of_range_coordinates() {
    assert!(matches!(Grid::create(&[(5, (9, 0))]), Err(GridError::InvalidSeed)));
    assert!(matches!(Grid::create(&[(5, (0, 9))]), Err(GridError::InvalidSeed)));
}

#[test]
fn create_applies_seeds_in_order() {
    let grid = Grid::create(&[(4, (1, 2)), (7, (1, 2))]).unwrap();
    assert_eq!(grid.cells[1 * 9 + 2], 7);
    assert_eq!(grid.cells.iter().filter(|&&v| v != 0).count(), 1);
}

#[test]
fn indexing_round_trip() {
    assert_eq!(Grid::index_of(0, 0), 0);
    assert_eq!(Grid::index_of(4, 6), 42);
    assert_eq!(Grid::index_of(8, 8), 80);
    assert_eq!(Grid::coordinates_of(42), (4, 6));
    assert_eq!(Grid::coordinates_of(80), (8, 8));
}

#[test]
fn interpret_potential_classifies_masks() {
    assert!(matches!(Grid::interpret_potential(0), PotentialState::Empty));
    assert!(matches!(
        Grid::interpret_potential(1 << 4),
        PotentialState::Unique(4)
    ));
    assert!(matches!(
        Grid::interpret_potential(1 << 9),
        PotentialState::Unique(9)
    ));
    // Bits 1, 3, 5, 7 and 9 are set: five candidates.
    assert!(matches!(
        Grid::interpret_potential(0x2AA),
        PotentialState::Multiple(5)
    ));
    // The full mask carries all nine candidates.
    assert!(matches!(
        Grid::interpret_potential(0x3FE),
        PotentialState::Multiple(9)
    ));
}

#[test]
fn interpret_potential_ignores_bit_zero() {
    assert!(matches!(Grid::interpret_potential(1), PotentialState::Empty));
    assert!(matches!(
        Grid::interpret_potential(1 | (1 << 6)),
        PotentialState::Unique(6)
    ));
}

#[test]
fn ordinal_selection_ascends() {
    // Bits 2, 5 and 9 are set.
    let mask: u16 = (1 << 2) | (1 << 5) | (1 << 9);
    assert_eq!(Grid::get_potential_value_at(mask, 0), 2);
    assert_eq!(Grid::get_potential_value_at(mask, 1), 5);
    assert_eq!(Grid::get_potential_value_at(mask, 2), 9);
    assert_eq!(Grid::get_potential_value_at(mask, 3), 0);
}

#[test]
fn any_unsolved_cell_reports_empties() {
    let empty = Grid::create(&[]).unwrap();
    assert!(empty.any_unsolved_cell());
    let complete = Grid::create(&complete_grid_seeds()).unwrap();
    assert!(!complete.any_unsolved_cell());
}

#[test]
fn masks_clear_bits_of_filled_cells() {
    // Mask recomputation clears, for every filled cell, the value's bit in
    // its row's and its column's mask, and bit 0 of every mask stays 0.
    let seeds = scenario_a_seeds();
    let mut grid = Grid::create(&seeds).unwrap();
    grid.compute_potentials();
    for (v, (r, c)) in seeds {
        assert_eq!(grid.lines_state[r] & (1 << v), 0);
        assert_eq!(grid.columns_state[c] & (1 << v), 0);
    }
    for k in 0..9 {
        assert_eq!(grid.lines_state[k] & 1, 0);
        assert_eq!(grid.columns_state[k] & 1, 0);
    }
}

#[test]
fn full_grid_has_empty_candidate_sets() {
    let mut grid = Grid::create(&complete_grid_seeds()).unwrap();
    grid.compute_potentials();
    for k in 0..9 {
        assert_eq!(grid.lines_state[k], 0);
        assert_eq!(grid.columns_state[k], 0);
    }
    for i in 0..81 {
        let (r, c) = Grid::coordinates_of(i);
        assert!(matches!(
            Grid::interpret_potential(grid.lines_state[r] & grid.columns_state[c]),
            PotentialState::Empty
        ));
    }
}

#[test]
fn revert_undoes_propagation() {
    // Row 0 holds 1..8, so its last cell is forced; propagating then
    // reverting the reported count restores the buffer, and recomputed
    // masks match the masks of the restored state.
    let mut seeds = Vec::new();
    for c in 0..8 {
        seeds.push(((c + 1) as u8, (0, c)));
    }
    let mut grid = Grid::create(&seeds).unwrap();
    grid.compute_potentials();
    let cells_before = grid.cells.clone();
    let masks_before = (grid.lines_state.clone(), grid.columns_state.clone());
    let (success, pushed) = grid.try_solve_by_constrains();
    assert!(success);
    assert!(pushed >= 1);
    assert_ne!(grid.cells, cells_before);
    grid.revert_last_resolved_indices(pushed);
    assert_eq!(grid.cells, cells_before);
    grid.compute_potentials();
    assert_eq!(grid.lines_state, masks_before.0);
    assert_eq!(grid.columns_state, masks_before.1);
}

#[test]
fn propagation_detects_contradiction() {
    // Row 0 holds 1..8 and the column of the one empty cell already holds
    // 9: that cell has no candidate left.
    let mut seeds = Vec::new();
    for c in 0..8 {
        seeds.push(((c + 1) as u8, (0, c)));
    }
    seeds.push((9, (5, 8)));
    let mut grid = Grid::create(&seeds).unwrap();
    grid.compute_potentials();
    let (success, pushed) = grid.try_solve_by_constrains();
    assert!(!success);
    assert_eq!(pushed, 0);
}

#[test]
fn low_potential_cell_is_first_with_fewest_candidates() {
    // Row 0 holds 1..7, so cells (0, 7) and (0, 8) keep the candidates
    // {8, 9}; every other empty cell keeps more.
    let mut seeds = Vec::new();
    for c in 0..7 {
        seeds.push(((c + 1) as u8, (0, c)));
    }
    let mut grid = Grid::create(&seeds).unwrap();
    grid.compute_potentials();
    let found = grid.try_find_cell_with_low_potential().unwrap();
    assert_eq!(found.0, 7);
    assert_eq!(found.1, (1 << 8) | (1 << 9));
    assert_eq!(found.2, 2);
}

#[test]
fn low_potential_is_none_on_full_grid() {
    let mut grid = Grid::create(&complete_grid_seeds()).unwrap();
    grid.compute_potentials();
    assert!(grid.try_find_cell_with_low_potential().is_none());
}

#[test]
fn render_shows_rows_between_bars() {
    let grid = Grid::create(&scenario_a_seeds()).unwrap();
    let text = grid.render();
    let lines: Vec<&str> = text.lines().collect();
    assert_eq!(lines.len(), 9);
    assert_eq!(lines[0], "|3| |6|5| |8|4| | | ");
    assert_eq!(lines[1], "|5|2| | | | | | | | ");
}

#[test]
fn render_of_empty_grid() {
    let grid = Grid::create(&[]).unwrap();
    let expected: String = "| | | | | | | | | | \n".repeat(9);
    assert_eq!(grid.render(), expected);
}
