use conway::grid::{
    board_get_cell, board_get_neighbours, board_new, board_set_cell, band_step, copy_board,
    randomize_board, seed_board, update_band, update_sequential, update_threads, apply_rule,
};

fn grid_from(rows: &[&str]) -> Vec<Vec<bool>> {
    rows.iter().map(|r| r.chars().map(|c| c == '#').collect()).collect()
}

fn sample_grid() -> Vec<Vec<bool>> {
    grid_from(&[
        "#..#.##.",
        ".##...#.",
        "#.#.#...",
        "...###.#",
        ".#....#.",
        "##.#.#..",
        "..##..##",
    ])
}

#[test]
fn new_board_is_all_dead() {
    let b = board_new(5, 3);
    assert_eq!(b.len(), 3);
    assert!(b.iter().all(|r| r.len() == 5 && r.iter().all(|c| !c)));
}

#[test]
fn set_then_get_cell() {
    let mut b = board_new(4, 3);
    board_set_cell(&mut b, 2, 1, true);
    assert!(board_get_cell(&b, 2, 1));
    assert!(!board_get_cell(&b, 1, 2));
    assert_eq!(b.iter().flatten().filter(|c| **c).count(), 1);
}

#[test]
fn neighbour_counts_respect_bounds() {
    let g = grid_from(&["###", "###", "###"]);
    assert_eq!(board_get_neighbours(&g, 0, 0, 3, 3), 3);
    assert_eq!(board_get_neighbours(&g, 0, 1, 3, 3), 5);
    assert_eq!(board_get_neighbours(&g, 1, 1, 3, 3), 8);
    assert_eq!(board_get_neighbours(&g, 2, 2, 3, 3), 3);
}

#[test]
fn neighbour_counts_on_wide_grid_use_row_count() {
    let g = grid_from(&["#....", ".#...", "#...."]);
    assert_eq!(board_get_neighbours(&g, 1, 0, 5, 3), 3);
    assert_eq!(board_get_neighbours(&g, 2, 1, 5, 3), 2);
}

#[test]
fn rule_table() {
    assert!(apply_rule(false, 3));
    assert!(apply_rule(true, 3));
    assert!(apply_rule(true, 2));
    assert!(!apply_rule(false, 2));
    assert!(!apply_rule(true, 1));
    assert!(!apply_rule(true, 4));
    assert!(!apply_rule(false, 0));
}

#[test]
fn isolated_cell_dies() {
    let g = grid_from(&["...", ".#.", "..."]);
    assert_eq!(board_get_neighbours(&g, 1, 1, 3, 3), 0);
    let next = update_sequential(g, 3, 3);
    assert_eq!(next, grid_from(&["...", "...", "..."]));
}

#[test]
fn block_is_still_life() {
    let g = grid_from(&["....", ".##.", ".##.", "...."]);
    for (r, c) in [(1, 1), (1, 2), (2, 1), (2, 2)] {
        assert_eq!(board_get_neighbours(&g, r, c, 4, 4), 3);
    }
    assert_eq!(board_get_neighbours(&g, 0, 0, 4, 4), 1);
    assert_eq!(board_get_neighbours(&g, 0, 1, 4, 4), 2);
    let next = update_sequential(g.clone(), 4, 4);
    assert_eq!(next, g);
    assert_eq!(update_threads(g.clone(), 4, 4, 2), g);
}

#[test]
fn blinker_changes_each_step() {
    let h = grid_from(&[".....", ".....", ".###.", ".....", "....."]);
    let v = grid_from(&[".....", "..#..", "..#..", "..#..", "....."]);
    let once = update_sequential(h.clone(), 5, 5);
    assert_eq!(once, v);
    assert_ne!(once, h);
    assert_eq!(update_sequential(once, 5, 5), h);
}

#[test]
fn single_row_grid() {
    let g = grid_from(&["#####"]);
    let next = update_sequential(g.clone(), 5, 1);
    assert_eq!(next, grid_from(&[".###."]));
    assert_eq!(update_sequential(grid_from(&["#.#.#"]), 5, 1), grid_from(&["....."]));
    for k in [1, 2, 3] {
        assert_eq!(update_threads(g.clone(), 5, 1, k), next);
    }
}

#[test]
fn single_column_grid() {
    let g = grid_from(&["#", "#", "#", "#"]);
    let next = update_sequential(g.clone(), 1, 4);
    assert_eq!(next, grid_from(&[".", "#", "#", "."]));
    assert_eq!(update_sequential(next.clone(), 1, 4), grid_from(&[".", ".", ".", "."]));
    for k in [1, 2, 4, 8] {
        assert_eq!(update_threads(g.clone(), 1, 4, k), next);
    }
}

#[test]
fn empty_grid_steps_to_empty() {
    let g: Vec<Vec<bool>> = Vec::new();
    assert!(update_sequential(g.clone(), 3, 0).is_empty());
    assert!(update_threads(g, 3, 0, 4).is_empty());
}

#[test]
fn banded_step_equals_single_pass() {
    let g = sample_grid();
    let expected = update_sequential(g.clone(), 8, 7);
    for k in [1, 2, 3, 4, 8] {
        assert_eq!(update_threads(g.clone(), 8, 7, k), expected, "workers = {}", k);
    }
}

#[test]
fn single_pass_exact_result() {
    let g = grid_from(&["##.", "#..", "..#"]);
    let next = update_sequential(g, 3, 3);
    assert_eq!(next, grid_from(&["##.", "#..", "..."]));
}

#[test]
fn copy_board_adds_halo_rows() {
    let g = sample_grid();
    assert_eq!(copy_board(&g, 0, 2, 8, 7), g[0..3].to_vec());
    assert_eq!(copy_board(&g, 2, 4, 8, 7), g[1..5].to_vec());
    assert_eq!(copy_board(&g, 5, 7, 8, 7), g[4..7].to_vec());
    assert_eq!(copy_board(&g, 0, 7, 8, 7), g);
    assert_eq!(copy_board(&g, 3, 3, 8, 7), g[2..4].to_vec());
}

#[test]
fn band_step_matches_rows_of_full_step() {
    let g = sample_grid();
    let full = update_sequential(g.clone(), 8, 7);
    assert_eq!(band_step(&g, 2, 5, 8, 7), full[2..5].to_vec());
    assert_eq!(band_step(&g, 0, 1, 8, 7), full[0..1].to_vec());
    assert_eq!(band_step(&g, 6, 7, 8, 7), full[6..7].to_vec());
    assert!(band_step(&g, 4, 4, 8, 7).is_empty());
}

#[test]
fn update_band_of_whole_grid() {
    let g = sample_grid();
    let full = update_sequential(g.clone(), 8, 7);
    assert_eq!(update_band(&g, 1, 3, 8), full[1..4].to_vec());
}

#[test]
fn randomize_with_zero_chance_keeps_board() {
    let mut b = board_new(6, 4);
    board_set_cell(&mut b, 1, 1, true);
    let before = b.clone();
    randomize_board(&mut b, 4, 6, 0);
    assert_eq!(b, before);
}

#[test]
fn randomize_with_full_chance_fills_board() {
    let mut b = board_new(6, 4);
    randomize_board(&mut b, 4, 6, 10);
    assert!(b.iter().all(|r| r.len() == 6 && r.iter().all(|c| *c)));
}

#[test]
fn randomize_keeps_alive_cells_and_shape() {
    let mut b = board_new(7, 5);
    board_set_cell(&mut b, 4, 6, true);
    randomize_board(&mut b, 5, 7, 4);
    assert_eq!(b.len(), 5);
    assert!(b.iter().all(|r| r.len() == 7));
    assert!(b[4][6]);
}

#[test]
fn seed_board_follows_draws() {
    let mut b = board_new(3, 2);
    board_set_cell(&mut b, 0, 2, true);
    let draws = vec![vec![0, 5, 9], vec![3, 4, 2]];
    seed_board(&mut b, &draws, 2, 3, 4);
    assert_eq!(b, grid_from(&["#.#", "#.#"]));
}

#[test]
fn seed_board_zero_chance_sets_nothing() {
    let mut b = board_new(2, 2);
    seed_board(&mut b, &vec![vec![0, 0], vec![0, 0]], 2, 2, 0);
    assert_eq!(b, grid_from(&["..", ".."]));
}
