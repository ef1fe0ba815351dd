use star_battle::solver::{is_valid_solution, solve_battle_grid};
use star_battle::stargrid::{FormatError, SolvedState, StarGrid};

fn make_grid(dim: usize, target: u8, regions: &[u8]) -> StarGrid {
    assert_eq!(regions.len(), dim * dim);
    let mut shape_indices: Vec<Vec<usize>> = (0..dim).map(|_| Vec::new()).collect();
    for (i, &r) in regions.iter().enumerate() {
        shape_indices[r as usize].push(i);
    }
    StarGrid {
        grid: regions.to_vec(),
        dim_size: dim,
        shape_indices,
        target_star_count: target,
        star_pos: None,
    }
}

fn stars_from(dim: usize, coords: &[(usize, usize)]) -> Vec<bool> {
    let mut v = vec![false; dim * dim];
    for &(r, c) in coords {
        v[r * dim + c] = true;
    }
    v
}

fn four_by_four() -> StarGrid {
    let regions: Vec<u8> = vec![
        0, 0, 1, 1,
        0, 0, 1, 1,
        2, 2, 3, 3,
        2, 2, 3, 3,
    ];
    make_grid(4, 1, &regions)
}

#[test]
fn parse_100_symbols_gives_dim_10() {
    let text = "0123456789".repeat(10);
    let g = StarGrid::parse_grid(text.as_bytes()).unwrap();
    assert_eq!(g.dim_size, 10);
    assert_eq!(g.target_star_count, 2);
    assert!(g.star_pos.is_none());
    assert_eq!(g.grid.len(), 100);
}

#[test]
fn parse_196_symbols_gives_dim_14() {
    let text = "0123456789abcd".repeat(14);
    let g = StarGrid::parse_grid(text.as_bytes()).unwrap();
    assert_eq!(g.dim_size, 14);
    assert_eq!(g.target_star_count, 3);
}

#[test]
fn parse_other_length_fails() {
    let text = "0".repeat(50);
    assert_eq!(
        StarGrid::parse_grid(text.as_bytes()).unwrap_err(),
        FormatError::BadLength
    );
    let text = "0".repeat(101);
    assert_eq!(
        StarGrid::parse_grid(text.as_bytes()).unwrap_err(),
        FormatError::BadLength
    );
}

#[test]
fn parse_empty_input_fails_with_length_error() {
    assert_eq!(
        StarGrid::parse_grid(b"").unwrap_err(),
        FormatError::BadLength
    );
}

#[test]
fn parse_strips_line_breaks() {
    let mut text = String::new();
    for _ in 0..10 {
        text.push_str("0123456789");
        text.push_str("\r\n");
    }
    let g = StarGrid::parse_grid(text.as_bytes()).unwrap();
    assert_eq!(g.dim_size, 10);
    assert_eq!(g.target_star_count, 2);
}

#[test]
fn parse_rejects_non_hex_symbol() {
    let mut text = "0".repeat(99);
    text.push('z');
    assert_eq!(
        StarGrid::parse_grid(text.as_bytes()).unwrap_err(),
        FormatError::BadSymbol
    );
}

#[test]
fn parse_rejects_out_of_range_region() {
    // 'a' names region 10, which a 10 x 10 grid cannot have.
    let mut text = "0".repeat(99);
    text.push('a');
    assert_eq!(
        StarGrid::parse_grid(text.as_bytes()).unwrap_err(),
        FormatError::BadSymbol
    );
}

#[test]
fn parse_records_regions() {
    let text = "0123456789".repeat(10);
    let g = StarGrid::parse_grid(text.as_bytes()).unwrap();
    assert_eq!(g.grid[0], 0);
    assert_eq!(g.grid[1], 1);
    assert_eq!(g.grid[99], 9);
    // Region 3 holds one cell per row, at column 3.
    assert_eq!(g.shape_indices[3], vec![3, 13, 23, 33, 43, 53, 63, 73, 83, 93]);
}

#[test]
fn getters_on_four_by_four() {
    let g = four_by_four();
    assert_eq!(g.rowcol_to_ind(2, 3), 11);
    assert_eq!(g.ind_to_row(11), 2);
    assert_eq!(g.ind_to_col(11), 3);
    assert_eq!(g.get_shape_id(2, 3), 3);
    assert_eq!(g.get_shape_id(0, 0), 0);
    assert_eq!(g.get_shape_id(1, 2), 1);
}

#[test]
fn same_region_everywhere_unsolvable() {
    // Nine of the ten regions have no cell, so no branch can satisfy them.
    let text = "0".repeat(100);
    let g = StarGrid::parse_grid(text.as_bytes()).unwrap();
    assert!(solve_battle_grid(&g).is_none());
    // The search order is fixed, so a second run ends the same way.
    assert!(solve_battle_grid(&g).is_none());
}

#[test]
fn ten_by_ten_column_regions_solved() {
    // Region j holds exactly column j, so the region constraint mirrors
    // the column constraint and the puzzle is satisfiable.
    let text = "0123456789".repeat(10);
    let g = StarGrid::parse_grid(text.as_bytes()).unwrap();
    let sol = solve_battle_grid(&g).expect("the layout has a solution");
    assert!(is_valid_solution(&g, &sol.star_pos));
    assert_eq!(sol.star_pos.iter().filter(|&&b| b).count(), 20);
    for row in 0..10 {
        let stars = (0..10).filter(|col| sol.star_pos[row * 10 + col]).count();
        assert_eq!(stars, 2);
    }
}

#[test]
fn four_by_four_known_solution_accepted() {
    let g = four_by_four();
    let stars = stars_from(4, &[(0, 1), (1, 3), (2, 0), (3, 2)]);
    assert!(is_valid_solution(&g, &stars));
}

#[test]
fn four_by_four_mutations_rejected() {
    let g = four_by_four();
    // Two stars in column 0 and two in region 0.
    let stars = stars_from(4, &[(0, 0), (1, 3), (2, 0), (3, 2)]);
    assert!(!is_valid_solution(&g, &stars));
    // Column 3 and region 1 hold two stars, column 1 none.
    let stars = stars_from(4, &[(0, 3), (1, 3), (2, 0), (3, 2)]);
    assert!(!is_valid_solution(&g, &stars));
    // (2, 1) touches (3, 2) diagonally.
    let stars = stars_from(4, &[(0, 1), (1, 3), (2, 1), (3, 2)]);
    assert!(!is_valid_solution(&g, &stars));
    // A star short of the full complement.
    let stars = stars_from(4, &[(0, 1), (1, 3), (2, 0)]);
    assert!(!is_valid_solution(&g, &stars));
    // A bitmap of the wrong size.
    let stars = vec![false; 15];
    assert!(!is_valid_solution(&g, &stars));
}

#[test]
fn four_by_four_solver_finds_valid_solution() {
    let g = four_by_four();
    let sol = solve_battle_grid(&g).expect("the partition has a solution");
    assert!(is_valid_solution(&g, &sol.star_pos));
    assert_eq!(sol.star_pos.iter().filter(|&&b| b).count(), 4);
    assert_eq!(sol.star_pos.len(), 16);
    assert_eq!(sol.valid_cell.len(), 16);
    // The first solution under the fixed row-major order: stars at
    // (0,1), (1,3), (2,0), (3,2).
    assert_eq!(sol.star_pos, stars_from(4, &[(0, 1), (1, 3), (2, 0), (3, 2)]));
    // Every row closes by the time the record is produced.
    assert!(sol.valid_cell.iter().all(|&v| !v));
}

#[test]
fn solver_deterministic_on_four_by_four() {
    let g = four_by_four();
    let a = solve_battle_grid(&g).unwrap();
    let b = solve_battle_grid(&g).unwrap();
    assert_eq!(a.star_pos, b.star_pos);
    assert_eq!(a.valid_cell, b.valid_cell);
}

#[test]
fn one_cell_grid_solves() {
    let g = make_grid(1, 1, &[0]);
    let sol = solve_battle_grid(&g).unwrap();
    assert_eq!(sol.star_pos, vec![true]);
    assert!(is_valid_solution(&g, &sol.star_pos));
}

#[test]
fn render_one_cell_empty() {
    let g = make_grid(1, 1, &[0]);
    assert_eq!(g.render(), "O---O\n| _ |\nO---O\n");
}

#[test]
fn render_one_cell_solution() {
    let mut g = make_grid(1, 1, &[0]);
    g.star_pos = Some(SolvedState {
        star_pos: vec![true],
        valid_cell: vec![false],
    });
    assert_eq!(g.render(), "O---O\n| * |\nO---O\n");
}

#[test]
fn render_two_by_two_boundaries() {
    let g = make_grid(2, 1, &[0, 0, 1, 1]);
    assert_eq!(
        g.render(),
        "O-------O\n| _   _ |\n|-------|\n| _   _ |\nO-------O\n"
    );
}

#[test]
fn render_marks_stars_and_eliminated_cells() {
    let mut g = make_grid(2, 1, &[0, 0, 1, 1]);
    g.star_pos = Some(SolvedState {
        star_pos: vec![true, false, false, false],
        valid_cell: vec![false, false, true, false],
    });
    assert_eq!(
        g.render(),
        "O-------O\n| *   o |\n|-------|\n| _   o |\nO-------O\n"
    );
}

#[test]
fn render_is_idempotent() {
    let mut g = four_by_four();
    g.star_pos = solve_battle_grid(&g);
    assert!(g.star_pos.is_some());
    let first = g.render();
    let second = g.render();
    assert_eq!(first, second);
}
