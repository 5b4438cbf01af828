//! Laws the engine obeys, stated over the mathematical model that the
//! public contracts use and proved once and for all.

use vstd::prelude::*;

use crate::grid::{cell_write, live_neighbor_count, near_live, next_gen, next_state, within_one};
use crate::rule::{default_rule, RuleData};

verus! {

/// A coordinate that is never written stays dead: a fresh grid holds no
/// live cell, and a write to one coordinate never changes any other. So a
/// store built from empty by writes that all avoid `q` does not hold `q`.
pub proof fn lemma_sparse_default(
    alive: Set<(int, int)>,
    wr: (int, int),
    value: bool,
    q: (int, int),
)
    requires
        q != wr,
        !alive.contains(q),
    ensures
        !cell_write(alive, wr.0, wr.1, value).contains(q),
{
}

/// Writing a cell alive makes it read back alive; writing it dead right
/// after makes it read back dead, and the store is as if the coordinate
/// had only ever been removed - no tombstone survives the pair of writes.
pub proof fn lemma_write_then_clear(alive: Set<(int, int)>, row: int, col: int)
    ensures
        cell_write(alive, row, col, true).contains((row, col)),
        !cell_write(cell_write(alive, row, col, true), row, col, false).contains((row, col)),
        cell_write(cell_write(alive, row, col, true), row, col, false) == alive.remove((row, col)),
{
    assert(cell_write(cell_write(alive, row, col, true), row, col, false) =~= alive.remove(
        (row, col),
    ));
}

/// The live set after `k` generation steps from `seed`, all under `rule`.
pub open spec fn gen_at(seed: Set<(int, int)>, rule: RuleData, k: nat) -> Set<(int, int)>
    decreases k,
{
    if k == 0 {
        seed
    } else {
        next_gen(gen_at(seed, rule, (k - 1) as nat), rule)
    }
}

/// The live set after `k` generation steps from `seed` when the rule is
/// replaced just after step `switch`: steps 1..=switch run under `first`,
/// later steps under `second`.
pub open spec fn gen_at_switched(
    seed: Set<(int, int)>,
    first: RuleData,
    second: RuleData,
    switch: nat,
    k: nat,
) -> Set<(int, int)>
    decreases k,
{
    if k == 0 {
        seed
    } else {
        next_gen(
            gen_at_switched(seed, first, second, switch, (k - 1) as nat),
            if k <= switch {
                first
            } else {
                second
            },
        )
    }
}

/// Replacing the rule after generation `switch` affects later generations
/// only: a replay of the same seed reproduces every generation up to and
/// including `switch` exactly as a run that never switches rules, since
/// each step is a function of the live set and the rule in force alone.
pub proof fn lemma_rule_switch_preserves_prefix(
    seed: Set<(int, int)>,
    first: RuleData,
    second: RuleData,
    switch: nat,
    k: nat,
)
    requires
        k <= switch,
    ensures
        gen_at_switched(seed, first, second, switch, k) == gen_at(seed, first, k),
    decreases k,
{
    if k > 0 {
        lemma_rule_switch_preserves_prefix(seed, first, second, switch, (k - 1) as nat);
    }
}

/// Restricting a generation step to the live cells and their Moore
/// neighbors loses nothing when the rule does not birth on zero live
/// neighbors: every unevaluated cell is dead next generation too, so the
/// stepped set equals the synchronous update of the whole plane.
pub proof fn lemma_next_gen_total(alive: Set<(int, int)>, rule: RuleData, q: (int, int))
    requires
        !rule.birth.contains(0),
    ensures
        next_gen(alive, rule).contains(q) == next_state(alive, rule, q.0, q.1),
{
    if !near_live(alive, q) {
        assert(!alive.contains(q)) by {
            if alive.contains(q) {
                assert(within_one(q, q));
            }
        }
        assert(live_neighbor_count(alive, q.0, q.1) == 0) by {
            assert forall|d: (int, int)| within_one(d, q) implies !alive.contains(d) by {
                if alive.contains(d) {
                    assert(near_live(alive, q));
                }
            }
            assert(within_one((q.0 - 1, q.1 - 1), q));
            assert(within_one((q.0 - 1, q.1), q));
            assert(within_one((q.0 - 1, q.1 + 1), q));
            assert(within_one((q.0, q.1 - 1), q));
            assert(within_one((q.0, q.1 + 1), q));
            assert(within_one((q.0 + 1, q.1 - 1), q));
            assert(within_one((q.0 + 1, q.1), q));
            assert(within_one((q.0 + 1, q.1 + 1), q));
        }
    }
}

/// The 2 x 2 block of live cells anchored at the origin.
pub open spec fn origin_block() -> Set<(int, int)> {
    set![(0int, 0int), (0int, 1int), (1int, 0int), (1int, 1int)]
}

/// The 2 x 2 block is a still life under the standard rule: one generation
/// step reproduces exactly the same four live cells and no others.
#[verifier::rlimit(100)]
pub proof fn lemma_block_still_life()
    ensures
        next_gen(origin_block(), default_rule()) == origin_block(),
{
    let b = origin_block();
    let r = default_rule();
    // the four block cells each see exactly three live neighbors
    assert(live_neighbor_count(b, 0, 0) == 3);
    assert(live_neighbor_count(b, 0, 1) == 3);
    assert(live_neighbor_count(b, 1, 0) == 3);
    assert(live_neighbor_count(b, 1, 1) == 3);
    // the twelve surrounding frontier cells each see one or two
    assert(live_neighbor_count(b, -1, -1) == 1);
    assert(live_neighbor_count(b, -1, 0) == 2);
    assert(live_neighbor_count(b, -1, 1) == 2);
    assert(live_neighbor_count(b, -1, 2) == 1);
    assert(live_neighbor_count(b, 0, -1) == 2);
    assert(live_neighbor_count(b, 0, 2) == 2);
    assert(live_neighbor_count(b, 1, -1) == 2);
    assert(live_neighbor_count(b, 1, 2) == 2);
    assert(live_neighbor_count(b, 2, -1) == 1);
    assert(live_neighbor_count(b, 2, 0) == 2);
    assert(live_neighbor_count(b, 2, 1) == 2);
    assert(live_neighbor_count(b, 2, 2) == 1);
    assert forall|q: (int, int)| b.contains(q) implies next_gen(b, r).contains(q) by {
        assert(within_one(q, q));
        assert(r.stay.contains(3));
    }
    assert forall|q: (int, int)| next_gen(b, r).contains(q) implies b.contains(q) by {
        if !b.contains(q) {
            let d = choose|d: (int, int)| b.contains(d) && within_one(d, q);
            assert(-1 <= q.0 <= 2 && -1 <= q.1 <= 2);
            assert(!r.birth.contains(live_neighbor_count(b, q.0, q.1)));
        }
    }
    assert(next_gen(b, r) =~= b);
}

} // verus!
