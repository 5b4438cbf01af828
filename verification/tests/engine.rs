//! The engine surface: point reads and writes, windows, and generation
//! steps under the default and under replaced rules.

use yagol::Grid;
use yagol::Rule;

/// Counts the live cells that a window scan of get_cell sees.
fn count_alive(grid: &Grid, row: i64, col: i64, len: i64) -> usize {
    let mut count = 0;
    for r in row..(row + len) {
        for c in col..(col + len) {
            if grid.get_cell(r, c) {
                count += 1;
            }
        }
    }
    count
}

#[test]
fn fresh_grid_is_all_dead() {
    let grid = Grid::new();
    assert!(!grid.get_cell(0, 0));
    assert!(!grid.get_cell(-1, 7));
    assert!(!grid.get_cell(i64::MAX, i64::MIN));
}

#[test]
fn unwritten_coordinates_stay_dead() {
    let mut grid = Grid::new();
    grid.set_cell(5, 5, true);
    grid.set_cell(-3, 2, true);
    assert!(!grid.get_cell(5, 6));
    assert!(!grid.get_cell(4, 5));
    assert!(!grid.get_cell(3, -2));
    assert!(!grid.get_cell(0, 0));
}

#[test]
fn set_then_get_then_clear() {
    let mut grid = Grid::new();
    grid.set_cell(7, -9, true);
    assert!(grid.get_cell(7, -9));
    grid.set_cell(7, -9, false);
    assert!(!grid.get_cell(7, -9));
    // clearing an absent cell is a no-op
    grid.set_cell(100, 100, false);
    assert!(!grid.get_cell(100, 100));
}

#[test]
fn set_cell_is_idempotent_per_value() {
    let mut grid = Grid::new();
    grid.set_cell(1, 1, true);
    grid.set_cell(1, 1, true);
    assert!(grid.get_cell(1, 1));
    grid.set_cell(1, 1, false);
    assert!(!grid.get_cell(1, 1));
    assert_eq!(count_alive(&grid, -5, -5, 10), 0);
}

#[test]
fn block_is_still_life() {
    let mut grid = Grid::new();
    grid.set_cell(0, 0, true);
    grid.set_cell(0, 1, true);
    grid.set_cell(1, 0, true);
    grid.set_cell(1, 1, true);
    grid.calc_next_generation();
    assert!(grid.get_cell(0, 0));
    assert!(grid.get_cell(0, 1));
    assert!(grid.get_cell(1, 0));
    assert!(grid.get_cell(1, 1));
    assert_eq!(count_alive(&grid, -4, -4, 10), 4);
}

#[test]
fn glider_translates_by_one_one_after_four_generations() {
    let seed = [(0i64, 1i64), (1, 2), (2, 0), (2, 1), (2, 2)];
    let mut grid = Grid::new();
    for (r, c) in seed {
        grid.set_cell(r, c, true);
    }
    for _ in 0..4 {
        grid.calc_next_generation();
    }
    for (r, c) in seed {
        assert!(grid.get_cell(r + 1, c + 1), "expected ({}, {}) alive", r + 1, c + 1);
    }
    assert_eq!(count_alive(&grid, -10, -10, 25), 5);
}

#[test]
fn blinker_oscillates() {
    let mut grid = Grid::new();
    grid.set_cell(0, -1, true);
    grid.set_cell(0, 0, true);
    grid.set_cell(0, 1, true);
    grid.calc_next_generation();
    assert!(grid.get_cell(-1, 0));
    assert!(grid.get_cell(0, 0));
    assert!(grid.get_cell(1, 0));
    assert_eq!(count_alive(&grid, -5, -5, 10), 3);
    grid.calc_next_generation();
    assert!(grid.get_cell(0, -1));
    assert!(grid.get_cell(0, 0));
    assert!(grid.get_cell(0, 1));
    assert_eq!(count_alive(&grid, -5, -5, 10), 3);
}

#[test]
fn lonely_cell_dies_and_empty_grid_stays_empty() {
    let mut grid = Grid::new();
    grid.set_cell(3, 3, true);
    grid.calc_next_generation();
    assert_eq!(count_alive(&grid, -2, -2, 12), 0);
    grid.calc_next_generation();
    assert_eq!(count_alive(&grid, -2, -2, 12), 0);
}

#[test]
fn get_grid_returns_row_major_window() {
    let mut grid = Grid::new();
    grid.set_cell(10, 20, true);
    grid.set_cell(11, 21, true);
    grid.set_cell(9, 22, true);
    let len: usize = 4;
    let window = grid.get_grid(9, 19, len);
    assert_eq!(window.len(), len * len);
    for i in 0..len {
        for j in 0..len {
            let expected = grid.get_cell(9 + i as i64, 19 + j as i64);
            assert_eq!(window[i * len + j], expected, "mismatch at ({}, {})", i, j);
        }
    }
}

#[test]
fn get_grid_of_len_zero_is_empty() {
    let grid = Grid::new();
    let window = grid.get_grid(0, 0, 0);
    assert_eq!(window.len(), 0);
}

#[test]
fn get_grid_has_no_side_effects() {
    let mut grid = Grid::new();
    grid.set_cell(0, 0, true);
    let before = grid.get_grid(-1, -1, 3);
    let again = grid.get_grid(-1, -1, 3);
    assert_eq!(before, again);
    assert!(grid.get_cell(0, 0));
}

#[test]
fn rule_membership_tests() {
    let rule = Rule::standard();
    assert!(rule.contains_for_birth(3));
    assert!(!rule.contains_for_birth(2));
    assert!(rule.contains_for_survival(2));
    assert!(rule.contains_for_survival(3));
    assert!(!rule.contains_for_survival(4));
    let empty = Rule { become_alive: vec![], stay_alive: vec![] };
    for n in 0..9 {
        assert!(!empty.contains_for_birth(n));
        assert!(!empty.contains_for_survival(n));
    }
}

#[test]
fn set_rule_changes_later_generations_only() {
    // run A: a blinker under the standard rule for two generations
    let mut a = Grid::new();
    // run B: the same seed, with a dead-everything rule installed after
    // generation two
    let mut b = Grid::new();
    for g in [&mut a, &mut b] {
        g.set_cell(0, -1, true);
        g.set_cell(0, 0, true);
        g.set_cell(0, 1, true);
    }
    let mut a_states = Vec::new();
    let mut b_states = Vec::new();
    for _ in 0..2 {
        a_states.push(a.get_grid(-3, -3, 7));
        a.calc_next_generation();
    }
    for _ in 0..2 {
        b_states.push(b.get_grid(-3, -3, 7));
        b.calc_next_generation();
    }
    // generations 0..2 replay identically
    assert_eq!(a_states, b_states);
    // the rule change after generation two leaves generation two alone
    let b_gen2_before = b.get_grid(-3, -3, 7);
    b.set_rule(Rule { become_alive: vec![], stay_alive: vec![] });
    let b_gen2_after = b.get_grid(-3, -3, 7);
    assert_eq!(b_gen2_before, b_gen2_after);
    assert_eq!(b_gen2_after, a.get_grid(-3, -3, 7));
    // and governs generation three: everything dies under the new rule,
    // while the standard rule keeps the blinker going
    a.calc_next_generation();
    b.calc_next_generation();
    assert_eq!(count_alive(&a, -5, -5, 11), 3);
    assert_eq!(count_alive(&b, -5, -5, 11), 0);
}

#[test]
fn custom_rule_governs_birth() {
    // under birth-on-2, two diagonal neighbors give birth
    let mut grid = Grid::new();
    grid.set_rule(Rule { become_alive: vec![2], stay_alive: vec![] });
    grid.set_cell(0, 0, true);
    grid.set_cell(1, 1, true);
    grid.calc_next_generation();
    // the two seeds die (empty survival), their common neighbors are born
    assert!(!grid.get_cell(0, 0));
    assert!(!grid.get_cell(1, 1));
    assert!(grid.get_cell(0, 1));
    assert!(grid.get_cell(1, 0));
    assert_eq!(count_alive(&grid, -4, -4, 10), 2);
}

#[test]
fn get_rule_reports_the_rule_in_force() {
    let mut grid = Grid::new();
    assert!(grid.get_rule().contains_for_birth(3));
    assert!(!grid.get_rule().contains_for_birth(6));
    grid.set_rule(Rule { become_alive: vec![3, 6], stay_alive: vec![2, 3] });
    assert!(grid.get_rule().contains_for_birth(6));
}

#[test]
fn cells_bounded_detects_the_signed_boundary() {
    let mut grid = Grid::new();
    grid.set_cell(40, -17, true);
    assert!(grid.cells_bounded());
    grid.set_cell(i64::MAX, 0, true);
    assert!(!grid.cells_bounded());
    grid.set_cell(i64::MAX, 0, false);
    assert!(grid.cells_bounded());
}
