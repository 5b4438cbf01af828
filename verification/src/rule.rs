//! The birth/survival rule of the automaton: two sets of neighbor counts,
//! one that turns a dead cell alive and one that keeps a live cell alive.

use vstd::prelude::*;

verus! {

/// The mathematical content of a [`Rule`]: the two neighbor-count sets.
pub ghost struct RuleData {
    /// Neighbor counts at which a dead cell becomes alive.
    pub birth: Set<int>,
    /// Neighbor counts at which a live cell stays alive.
    pub stay: Set<int>,
}

/// The set of counts held by a list of counts.
pub open spec fn counts_of(v: Seq<usize>) -> Set<int> {
    Set::new(|n: int| exists|i: int| 0 <= i < v.len() && v[i] as int == n)
}

/// An immutable configuration of two neighbor-count sets. An empty set
/// simply means "never satisfied"; no validation is performed.
pub struct Rule {
    /// Neighbor counts that turn a dead cell alive.
    pub become_alive: Vec<usize>,
    /// Neighbor counts that keep a live cell alive.
    pub stay_alive: Vec<usize>,
}

impl View for Rule {
    type V = RuleData;

    open spec fn view(&self) -> RuleData {
        RuleData { birth: counts_of(self.become_alive@), stay: counts_of(self.stay_alive@) }
    }
}

/// The default rule: birth on 3 neighbors, survival on 2 or 3.
pub open spec fn default_rule() -> RuleData {
    RuleData { birth: set![3int], stay: set![2int, 3int] }
}

/// Whether a list of counts holds a given count.
fn counts_contain(v: &Vec<usize>, n: usize) -> (r: bool)
    ensures
        r == counts_of(v@).contains(n as int),
{
    let mut i: usize = 0;
    while i < v.len()
        invariant
            i <= v.len(),
            forall|j: int| 0 <= j < i ==> v@[j] != n,
        decreases v.len() - i,
    {
        if v[i] == n {
            return true;
        }
        i += 1;
    }
    false
}

impl Rule {
    /// Whether a dead cell with `n` live neighbors becomes alive.
    pub fn contains_for_birth(&self, n: usize) -> (r: bool)
        ensures
            r == self@.birth.contains(n as int),
    {
        counts_contain(&self.become_alive, n)
    }

    /// Whether a live cell with `n` live neighbors stays alive.
    pub fn contains_for_survival(&self, n: usize) -> (r: bool)
        ensures
            r == self@.stay.contains(n as int),
    {
        counts_contain(&self.stay_alive, n)
    }

    /// The standard Game of Life rule, birth on 3 and survival on 2 or 3.
    pub fn standard() -> (r: Rule)
        ensures
            r@ == default_rule(),
    {
        let r = Rule { become_alive: vec![3], stay_alive: vec![2, 3] };
        proof {
            assert(r@.birth =~= default_rule().birth);
            assert(r@.stay =~= default_rule().stay);
        }
        r
    }
}

} // verus!
