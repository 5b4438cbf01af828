//! The sparse, unbounded grid: live cells are kept as a duplicate-free list
//! of signed coordinates, absence means dead, and one generation step is a
//! synchronous function of the previous generation under the current rule.

use vstd::prelude::*;

use crate::rule::{default_rule, Rule, RuleData};

verus! {

/// The mathematical content of a [`Grid`]: the set of live coordinates
/// (row, column) and the rule in force.
pub ghost struct GridData {
    /// The coordinates of all live cells; every other coordinate is dead.
    pub alive: Set<(int, int)>,
    /// The rule that the next generation step will apply.
    pub rule: RuleData,
}

/// The coordinate pair a stored cell stands for.
pub open spec fn coord_of(p: (i64, i64)) -> (int, int) {
    (p.0 as int, p.1 as int)
}

/// The set of coordinates a list of stored cells holds.
pub open spec fn coords_of(s: Seq<(i64, i64)>) -> Set<(int, int)> {
    Set::new(|q: (int, int)| exists|i: int| 0 <= i < s.len() && coord_of(s[i]) == q)
}

/// No coordinate is stored twice.
pub open spec fn no_dup(s: Seq<(i64, i64)>) -> bool {
    forall|i: int, j: int| 0 <= i < j < s.len() ==> s[i] != s[j]
}

/// The live-cell set after writing one cell: `true` adds the coordinate,
/// `false` removes it.
pub open spec fn cell_write(alive: Set<(int, int)>, row: int, col: int, value: bool) -> Set<
    (int, int),
> {
    if value {
        alive.insert((row, col))
    } else {
        alive.remove((row, col))
    }
}

/// 1 for a live cell, 0 for a dead one.
pub open spec fn live_as_count(b: bool) -> int {
    if b {
        1
    } else {
        0
    }
}

/// How many of the eight Moore neighbors of (row, col) are live.
pub open spec fn live_neighbor_count(alive: Set<(int, int)>, row: int, col: int) -> int {
    live_as_count(alive.contains((row - 1, col - 1))) + live_as_count(
        alive.contains((row - 1, col)),
    ) + live_as_count(alive.contains((row - 1, col + 1))) + live_as_count(
        alive.contains((row, col - 1)),
    ) + live_as_count(alive.contains((row, col + 1))) + live_as_count(
        alive.contains((row + 1, col - 1)),
    ) + live_as_count(alive.contains((row + 1, col))) + live_as_count(
        alive.contains((row + 1, col + 1)),
    )
}

/// Whether (row, col) is live in the next generation: a live cell consults
/// the survival set, a dead cell the birth set, both over the neighbor
/// count taken in the current generation.
pub open spec fn next_state(alive: Set<(int, int)>, rule: RuleData, row: int, col: int) -> bool {
    if alive.contains((row, col)) {
        rule.stay.contains(live_neighbor_count(alive, row, col))
    } else {
        rule.birth.contains(live_neighbor_count(alive, row, col))
    }
}

/// Whether `q` lies in the Moore neighborhood of `d`, `d` itself included.
pub open spec fn within_one(d: (int, int), q: (int, int)) -> bool {
    -1 <= q.0 - d.0 <= 1 && -1 <= q.1 - d.1 <= 1
}

/// Whether `q` is live or has a live Moore neighbor: exactly the cells a
/// generation step evaluates.
pub open spec fn near_live(alive: Set<(int, int)>, q: (int, int)) -> bool {
    exists|d: (int, int)| alive.contains(d) && within_one(d, q)
}

/// The next generation: of the evaluated cells (the live ones and their
/// Moore neighbors), those whose next state is live. Cells with no live
/// cell anywhere in their neighborhood are not evaluated.
pub open spec fn next_gen(alive: Set<(int, int)>, rule: RuleData) -> Set<(int, int)> {
    Set::new(|q: (int, int)| near_live(alive, q) && next_state(alive, rule, q.0, q.1))
}

/// Whether a coordinate sits at least two steps away from the signed
/// 64-bit boundary, so that a generation step can look one cell past each
/// of its neighbors without overflow.
pub open spec fn coord_bounded(q: (int, int)) -> bool {
    &&& i64::MIN + 2 <= q.0 <= i64::MAX - 2
    &&& i64::MIN + 2 <= q.1 <= i64::MAX - 2
}

/// Whether every live cell is far enough from the signed 64-bit boundary
/// for a generation step.
pub open spec fn grid_bounded(alive: Set<(int, int)>) -> bool {
    forall|q: (int, int)| #[trigger] alive.contains(q) ==> coord_bounded(q)
}

/// The row-major position of window entry (i, j) in a window of side len.
pub open spec fn window_index(i: int, j: int, len: int) -> int {
    i * len + j
}

/// The engine: a sparse store of live cells plus the rule in force.
pub struct Grid {
    cells: Vec<(i64, i64)>,
    rule: Rule,
}

impl View for Grid {
    type V = GridData;

    closed spec fn view(&self) -> GridData {
        GridData { alive: coords_of(self.cells@), rule: self.rule@ }
    }
}

/// Whether a list of stored cells holds the given coordinate.
fn cells_contain(cells: &Vec<(i64, i64)>, row: i64, col: i64) -> (r: bool)
    ensures
        r == coords_of(cells@).contains((row as int, col as int)),
{
    let mut i: usize = 0;
    while i < cells.len()
        invariant
            i <= cells@.len(),
            forall|j: int| 0 <= j < i ==> coord_of(cells@[j]) != (row as int, col as int),
        decreases cells@.len() - i,
    {
        let p = cells[i];
        if p.0 == row && p.1 == col {
            assert(coord_of(cells@[i as int]) == (row as int, col as int));
            return true;
        }
        i += 1;
    }
    false
}

impl Grid {
    /// The store never holds a coordinate twice.
    pub closed spec fn wf(&self) -> bool {
        no_dup(self.cells@)
    }

    /// A fresh grid: every cell dead, the standard rule in force.
    pub fn new() -> (g: Grid)
        ensures
            g.wf(),
            g@.alive == Set::<(int, int)>::empty(),
            g@.rule == default_rule(),
    {
        let g = Grid { cells: Vec::new(), rule: Rule::standard() };
        proof {
            assert(g@.alive =~= Set::<(int, int)>::empty());
        }
        g
    }

    /// Replaces the rule in force; the change governs only generation
    /// steps made after the call, and no live cell changes.
    pub fn set_rule(&mut self, rule: Rule)
        ensures
            final(self)@.alive == old(self)@.alive,
            final(self)@.rule == rule@,
            final(self).wf() == old(self).wf(),
    {
        self.rule = rule;
    }

    /// The rule currently in force.
    pub fn get_rule(&self) -> (r: &Rule)
        ensures
            r@ == self@.rule,
    {
        &self.rule
    }

    /// Whether the cell at (row, col) is live in the current generation;
    /// a coordinate with no entry is dead.
    pub fn get_cell(&self, row: i64, col: i64) -> (r: bool)
        ensures
            r == self@.alive.contains((row as int, col as int)),
    {
        cells_contain(&self.cells, row, col)
    }

    /// Writes one cell: `true` inserts the coordinate, `false` removes any
    /// existing entry; writing `false` to an absent cell changes nothing.
    pub fn set_cell(&mut self, row: i64, col: i64, value: bool)
        requires
            old(self).wf(),
        ensures
            final(self).wf(),
            final(self)@.alive == cell_write(old(self)@.alive, row as int, col as int, value),
            final(self)@.rule == old(self)@.rule,
    {
        let ghost alive0 = self@.alive;
        if value {
            if !cells_contain(&self.cells, row, col) {
                let ghost before = self.cells@;
                self.cells.push((row, col));
                proof {
                    assert forall|q: (int, int)|
                        coords_of(self.cells@).contains(q) implies alive0.insert(
                        (row as int, col as int),
                    ).contains(q) by {
                        let i = choose|i: int|
                            0 <= i < self.cells@.len() && coord_of(self.cells@[i]) == q;
                        if i < before.len() {
                            assert(coord_of(before[i]) == q);
                        }
                    }
                    assert forall|q: (int, int)|
                        alive0.insert((row as int, col as int)).contains(q) implies coords_of(
                        self.cells@,
                    ).contains(q) by {
                        if alive0.contains(q) {
                            let i = choose|i: int| 0 <= i < before.len() && coord_of(before[i]) == q;
                            assert(coord_of(self.cells@[i]) == q);
                        } else {
                            assert(coord_of(self.cells@[before.len() as int]) == q);
                        }
                    }
                    assert(coords_of(self.cells@) =~= alive0.insert((row as int, col as int)));
                    assert forall|i: int, j: int|
                        0 <= i < j < self.cells@.len() implies self.cells@[i] != self.cells@[j] by {
                        if j == before.len() {
                            assert(coord_of(before[i]) != (row as int, col as int));
                        }
                    }
                }
            } else {
                proof {
                    assert(coords_of(self.cells@) =~= alive0.insert((row as int, col as int)));
                }
            }
        } else {
            let ghost before = self.cells@;
            let mut kept: Vec<(i64, i64)> = Vec::new();
            let n = self.cells.len();
            let mut i: usize = 0;
            while i < n
                invariant
                    i <= n,
                    n == self.cells@.len(),
                    self.cells@ == before,
                    no_dup(before),
                    no_dup(kept@),
                    forall|j: int|
                        0 <= j < kept@.len() ==> #[trigger] kept@[j] != (row, col) && exists|k: int|
                            0 <= k < i && before[k] == kept@[j],
                    forall|k: int|
                        0 <= k < i && #[trigger] before[k] != (row, col) ==> exists|j: int|
                            0 <= j < kept@.len() && kept@[j] == before[k],
                decreases n - i,
            {
                let p = self.cells[i];
                let ghost kept_before = kept@;
                if !(p.0 == row && p.1 == col) {
                    kept.push(p);
                }
                proof {
                    assert forall|k: int|
                        0 <= k <= i && #[trigger] before[k] != (row, col) implies exists|j: int|
                        0 <= j < kept@.len() && kept@[j] == before[k] by {
                        if k == i {
                            assert(kept@[kept@.len() - 1] == before[k]);
                        } else {
                            let j = choose|j: int|
                                0 <= j < kept_before.len() && kept_before[j] == before[k];
                            assert(kept@[j] == before[k]);
                        }
                    }
                }
                i += 1;
            }
            self.cells = kept;
            proof {
                assert forall|q: (int, int)|
                    coords_of(self.cells@).contains(q) implies alive0.remove(
                    (row as int, col as int),
                ).contains(q) by {
                    let j = choose|j: int|
                        0 <= j < self.cells@.len() && coord_of(self.cells@[j]) == q;
                    let k = choose|k: int| 0 <= k < n && before[k] == self.cells@[j];
                    assert(coord_of(before[k]) == q);
                }
                assert forall|q: (int, int)|
                    alive0.remove((row as int, col as int)).contains(q) implies coords_of(
                    self.cells@,
                ).contains(q) by {
                    let k = choose|k: int| 0 <= k < before.len() && coord_of(before[k]) == q;
                    assert(before[k] != (row, col));
                    let j = choose|j: int|
                        0 <= j < self.cells@.len() && self.cells@[j] == before[k];
                    assert(coord_of(self.cells@[j]) == q);
                }
                assert(coords_of(self.cells@) =~= alive0.remove((row as int, col as int)));
            }
        }
    }

    /// Whether every live cell is far enough from the signed 64-bit
    /// boundary for a generation step; `calc_next_generation` asks for it.
    pub fn cells_bounded(&self) -> (r: bool)
        ensures
            r == grid_bounded(self@.alive),
    {
        let mut i: usize = 0;
        while i < self.cells.len()
            invariant
                i <= self.cells@.len(),
                forall|j: int| 0 <= j < i ==> coord_bounded(coord_of(#[trigger] self.cells@[j])),
            decreases self.cells@.len() - i,
        {
            let p = self.cells[i];
            if !(i64::MIN + 2 <= p.0 && p.0 <= i64::MAX - 2 && i64::MIN + 2 <= p.1 && p.1
                <= i64::MAX - 2) {
                proof {
                    let q = coord_of(self.cells@[i as int]);
                    assert(self@.alive.contains(q));
                    assert(!coord_bounded(q));
                }
                return false;
            }
            i += 1;
        }
        proof {
            assert forall|q: (int, int)| self@.alive.contains(q) implies coord_bounded(q) by {
                let j = choose|j: int|
                    0 <= j < self.cells@.len() && coord_of(self.cells@[j]) == q;
                assert(coord_bounded(coord_of(self.cells@[j])));
            }
        }
        true
    }

    /// The state of (row, col) in the next generation, given its current
    /// liveness `val`: counts the live Moore neighbors in the current
    /// generation and consults the survival set for a live cell, the birth
    /// set for a dead one.
    fn get_cell_next_generation(&self, row: i64, col: i64, val: bool) -> (r: bool)
        requires
            i64::MIN < row < i64::MAX,
            i64::MIN < col < i64::MAX,
        ensures
            r == if val {
                self@.rule.stay.contains(live_neighbor_count(self@.alive, row as int, col as int))
            } else {
                self@.rule.birth.contains(live_neighbor_count(self@.alive, row as int, col as int))
            },
    {
        let mut neighbor_counter: usize = 0;
        if self.get_cell(row - 1, col - 1) {
            neighbor_counter += 1;
        }
        if self.get_cell(row - 1, col) {
            neighbor_counter += 1;
        }
        if self.get_cell(row - 1, col + 1) {
            neighbor_counter += 1;
        }
        if self.get_cell(row, col - 1) {
            neighbor_counter += 1;
        }
        if self.get_cell(row, col + 1) {
            neighbor_counter += 1;
        }
        if self.get_cell(row + 1, col - 1) {
            neighbor_counter += 1;
        }
        if self.get_cell(row + 1, col) {
            neighbor_counter += 1;
        }
        if self.get_cell(row + 1, col + 1) {
            neighbor_counter += 1;
        }
        assert(neighbor_counter as int == live_neighbor_count(
            self@.alive,
            row as int,
            col as int,
        ));
        if !val {
            self.rule.contains_for_birth(neighbor_counter)
        } else {
            self.rule.contains_for_survival(neighbor_counter)
        }
    }

    /// Evaluates one candidate cell for the generation being built: if its
    /// next state is live and it is not yet recorded, record it.
    fn record_candidate(&self, next: &mut Vec<(i64, i64)>, row: i64, col: i64)
        requires
            i64::MIN < row < i64::MAX,
            i64::MIN < col < i64::MAX,
            no_dup(old(next)@),
        ensures
            no_dup(final(next)@),
            coords_of(final(next)@) == if next_state(self@.alive, self@.rule, row as int, col as int) {
                coords_of(old(next)@).insert((row as int, col as int))
            } else {
                coords_of(old(next)@)
            },
    {
        let ghost before = next@;
        let val = self.get_cell(row, col);
        if self.get_cell_next_generation(row, col, val) {
            if !cells_contain(next, row, col) {
                next.push((row, col));
                proof {
                    assert forall|q: (int, int)|
                        coords_of(next@).contains(q) implies coords_of(before).insert(
                        (row as int, col as int),
                    ).contains(q) by {
                        let i = choose|i: int| 0 <= i < next@.len() && coord_of(next@[i]) == q;
                        if i < before.len() {
                            assert(coord_of(before[i]) == q);
                        }
                    }
                    assert forall|q: (int, int)|
                        coords_of(before).insert((row as int, col as int)).contains(
                            q,
                        ) implies coords_of(next@).contains(q) by {
                        if coords_of(before).contains(q) {
                            let i = choose|i: int| 0 <= i < before.len() && coord_of(before[i]) == q;
                            assert(coord_of(next@[i]) == q);
                        } else {
                            assert(coord_of(next@[before.len() as int]) == q);
                        }
                    }
                    assert(coords_of(next@) =~= coords_of(before).insert(
                        (row as int, col as int),
                    ));
                    assert forall|i: int, j: int|
                        0 <= i < j < next@.len() implies next@[i] != next@[j] by {
                        if j == before.len() {
                            assert(coord_of(before[i]) != (row as int, col as int));
                        }
                    }
                }
            } else {
                proof {
                    assert(coords_of(next@) =~= coords_of(before).insert(
                        (row as int, col as int),
                    ));
                }
            }
        }
    }

    /// Computes the next generation and installs it as the current one.
    ///
    /// The cells evaluated are exactly the live cells and their Moore
    /// neighbors; each is judged by its live-neighbor count in the old
    /// generation only, so the whole grid updates synchronously. Only live
    /// results are stored, which keeps the store sparse.
    pub fn calc_next_generation(&mut self)
        requires
            old(self).wf(),
            grid_bounded(old(self)@.alive),
        ensures
            final(self).wf(),
            final(self)@.alive == next_gen(old(self)@.alive, old(self)@.rule),
            final(self)@.rule == old(self)@.rule,
    {
        let ghost ga = self@.alive;
        let ghost gr = self@.rule;
        let mut next: Vec<(i64, i64)> = Vec::new();
        let n = self.cells.len();
        let mut i: usize = 0;
        while i < n
            invariant
                i <= n,
                n == self.cells@.len(),
                self.wf(),
                grid_bounded(self@.alive),
                ga == self@.alive,
                gr == self@.rule,
                no_dup(next@),
                forall|q: (int, int)|
                    coords_of(next@).contains(q) ==> near_live(ga, q) && next_state(
                        ga,
                        gr,
                        q.0,
                        q.1,
                    ),
                forall|q: (int, int)|
                    (exists|k: int|
                        0 <= k < i && within_one(coord_of(#[trigger] self.cells@[k]), q))
                        && next_state(ga, gr, q.0, q.1) ==> coords_of(next@).contains(q),
            decreases n - i,
        {
            let p = self.cells[i];
            let ghost next0 = next@;
            proof {
                assert(ga.contains(coord_of(self.cells@[i as int])));
            }
            self.record_candidate(&mut next, p.0 - 1, p.1 - 1);
            self.record_candidate(&mut next, p.0 - 1, p.1);
            self.record_candidate(&mut next, p.0 - 1, p.1 + 1);
            self.record_candidate(&mut next, p.0, p.1 - 1);
            self.record_candidate(&mut next, p.0, p.1);
            self.record_candidate(&mut next, p.0, p.1 + 1);
            self.record_candidate(&mut next, p.0 + 1, p.1 - 1);
            self.record_candidate(&mut next, p.0 + 1, p.1);
            self.record_candidate(&mut next, p.0 + 1, p.1 + 1);
            proof {
                let d = coord_of(self.cells@[i as int]);
                assert forall|q: (int, int)|
                    coords_of(next@).contains(q) implies near_live(ga, q) && next_state(
                    ga,
                    gr,
                    q.0,
                    q.1,
                ) by {
                    if coords_of(next0).contains(q) {
                    } else {
                        assert(within_one(d, q));
                        assert(ga.contains(d) && within_one(d, q));
                    }
                }
                assert forall|q: (int, int)|
                    within_one(d, q) && next_state(ga, gr, q.0, q.1) implies coords_of(
                    next@,
                ).contains(q) by {
                    assert(q.0 == d.0 - 1 || q.0 == d.0 || q.0 == d.0 + 1);
                    assert(q.1 == d.1 - 1 || q.1 == d.1 || q.1 == d.1 + 1);
                }
            }
            i += 1;
        }
        proof {
            assert forall|q: (int, int)| next_gen(ga, gr).contains(q) implies coords_of(
                next@,
            ).contains(q) by {
                let d = choose|d: (int, int)| ga.contains(d) && within_one(d, q);
                let k = choose|k: int|
                    0 <= k < self.cells@.len() && coord_of(self.cells@[k]) == d;
                assert(within_one(coord_of(self.cells@[k]), q));
            }
            assert(coords_of(next@) =~= next_gen(ga, gr));
        }
        self.cells = next;
    }

    /// The live/dead states of the len x len window anchored at (row, col),
    /// in row-major order: entry i * len + j is the state of the cell at
    /// (row + i, col + j). No side effects.
    pub fn get_grid(&self, row: i64, col: i64, len: usize) -> (r: Vec<bool>)
        requires
            len as int <= i64::MAX,
            row + len as int <= i64::MAX,
            col + len as int <= i64::MAX,
            len * len <= usize::MAX,
        ensures
            r@.len() == len * len,
            forall|i: int, j: int|
                0 <= i < len && 0 <= j < len ==> #[trigger] r@[window_index(i, j, len as int)]
                    == self@.alive.contains((row + i, col + j)),
    {
        let mut out: Vec<bool> = Vec::new();
        let mut i: usize = 0;
        while i < len
            invariant
                i <= len,
                len as int <= i64::MAX,
                row + len as int <= i64::MAX,
                col + len as int <= i64::MAX,
                len * len <= usize::MAX,
                out@.len() == i * len,
                forall|a: int, b: int|
                    0 <= a < i && 0 <= b < len ==> #[trigger] out@[window_index(a, b, len as int)]
                        == self@.alive.contains((row + a, col + b)),
            decreases len - i,
        {
            proof {
                lemma_row_major_bound(i as int, len as int);
            }
            let mut j: usize = 0;
            while j < len
                invariant
                    j <= len,
                    i < len,
                    len as int <= i64::MAX,
                    row + len as int <= i64::MAX,
                    col + len as int <= i64::MAX,
                    len * len <= usize::MAX,
                    i * len + len <= len * len,
                    out@.len() == i * len + j,
                    forall|a: int, b: int|
                        0 <= a < i && 0 <= b < len ==> #[trigger] out@[window_index(a, b, len as int)]
                            == self@.alive.contains((row + a, col + b)),
                    forall|b: int|
                        0 <= b < j ==> #[trigger] out@[window_index(i as int, b, len as int)]
                            == self@.alive.contains((row + i as int, col + b)),
                decreases len - j,
            {
                let v = self.get_cell(row + i as i64, col + j as i64);
                out.push(v);
                proof {
                    assert forall|a: int, b: int|
                        0 <= a < i && 0 <= b < len implies #[trigger] out@[window_index(a, b, len as int)]
                        == self@.alive.contains((row + a, col + b)) by {
                        lemma_row_major_lt(a, b, i as int, len as int);
                    }
                    assert(out@[window_index(i as int, j as int, len as int)]
                        == self@.alive.contains((row + i as int, col + j as int)));
                }
                j += 1;
            }
            proof {
                assert((i + 1) * len == i * len + len) by (nonlinear_arith);
            }
            i += 1;
        }
        out
    }
}

/// A full row of earlier entries ends before row `i` starts.
proof fn lemma_row_major_lt(a: int, b: int, i: int, len: int)
    requires
        0 <= a < i,
        0 <= b < len,
    ensures
        a * len + b < i * len,
    decreases i - a,
{
    if a + 1 < i {
        lemma_row_major_lt(a, b, a + 1, len);
        assert((a + 1) * len <= i * len) by (nonlinear_arith)
            requires
                a + 1 <= i,
                len >= 0,
        ;
    } else {
        assert(a * len + b < (a + 1) * len) by (nonlinear_arith)
            requires
                0 <= b < len,
        ;
    }
}

/// One more full row still fits inside the len x len window.
proof fn lemma_row_major_bound(i: int, len: int)
    requires
        0 <= i < len,
    ensures
        i * len + len <= len * len,
{
    assert(i * len + len <= len * len) by (nonlinear_arith)
        requires
            0 <= i < len,
    ;
}

} // verus!
