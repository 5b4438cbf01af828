//! The simulation-loop decisions: one iteration's snapshot-then-advance,
//! and the sleep budget of a self-paced tick.

use yagol::driver::{remaining_tick_budget, simulation_step};
use yagol::Grid;

#[test]
fn simulation_step_snapshots_before_advancing() {
    let mut grid = Grid::new();
    // a blinker: the snapshot shows the horizontal bar, the grid advances
    // to the vertical one
    grid.set_cell(0, -1, true);
    grid.set_cell(0, 0, true);
    grid.set_cell(0, 1, true);
    let len: usize = 5;
    let snapshot = simulation_step(&mut grid, -2, -2, len);
    assert_eq!(snapshot.len(), len * len);
    let at = |r: usize, c: usize| snapshot[r * len + c];
    assert!(at(2, 1) && at(2, 2) && at(2, 3));
    assert!(!at(1, 2) && !at(3, 2));
    assert!(grid.get_cell(-1, 0));
    assert!(grid.get_cell(0, 0));
    assert!(grid.get_cell(1, 0));
    assert!(!grid.get_cell(0, -1));
    assert!(!grid.get_cell(0, 1));
}

#[test]
fn simulation_step_window_follows_the_requested_offset() {
    let mut grid = Grid::new();
    grid.set_cell(100, 200, true);
    let snapshot = simulation_step(&mut grid, 100, 200, 2);
    assert!(snapshot[0]);
    assert!(!snapshot[1] && !snapshot[2] && !snapshot[3]);
}

#[test]
fn tick_budget_is_the_remainder_and_never_negative() {
    assert_eq!(remaining_tick_budget(30000, 50000), 20000);
    assert_eq!(remaining_tick_budget(50000, 50000), 0);
    assert_eq!(remaining_tick_budget(60000, 50000), 0);
    assert_eq!(remaining_tick_budget(0, 50000), 50000);
    // an elapsed time beyond the budget's type is not compensated for
    assert_eq!(remaining_tick_budget(u128::MAX, u64::MAX), 0);
}
