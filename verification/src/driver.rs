//! The decisions of the self-paced simulation loop: what one iteration
//! does to the grid and what it hands out, and how long to sleep before
//! the next one. The loop itself - thread, channel, clock - lives outside
//! the library and calls these.

use vstd::prelude::*;

use crate::grid::{grid_bounded, next_gen, window_index, Grid};

verus! {

/// One simulation iteration: takes the snapshot of the current generation
/// for the requested len x len window anchored at (view_row, view_col),
/// then advances the grid by exactly one generation. The snapshot shows
/// the generation before the advance.
pub fn simulation_step(grid: &mut Grid, view_row: i64, view_col: i64, len: usize) -> (snapshot: Vec<
    bool,
>)
    requires
        old(grid).wf(),
        grid_bounded(old(grid)@.alive),
        len as int <= i64::MAX,
        view_row + len as int <= i64::MAX,
        view_col + len as int <= i64::MAX,
        len * len <= usize::MAX,
    ensures
        final(grid).wf(),
        final(grid)@.alive == next_gen(old(grid)@.alive, old(grid)@.rule),
        final(grid)@.rule == old(grid)@.rule,
        snapshot@.len() == len * len,
        forall|i: int, j: int|
            0 <= i < len && 0 <= j < len ==> #[trigger] snapshot@[window_index(i, j, len as int)]
                == old(grid)@.alive.contains((view_row + i, view_col + j)),
{
    let snapshot = grid.get_grid(view_row, view_col, len);
    grid.calc_next_generation();
    snapshot
}

/// How long the loop still sleeps after an iteration that took
/// `elapsed_micros`: the rest of the tick budget, and nothing when the
/// iteration overran it - a slow tick is never compensated for.
pub fn remaining_tick_budget(elapsed_micros: u128, budget_micros: u64) -> (r: u64)
    ensures
        r as int == if elapsed_micros <= budget_micros {
            budget_micros - elapsed_micros
        } else {
            0
        },
{
    if elapsed_micros <= budget_micros as u128 {
        (budget_micros as u128 - elapsed_micros) as u64
    } else {
        0
    }
}

} // verus!
