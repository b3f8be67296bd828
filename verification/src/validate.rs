//! Checking an automaton before it is used.

use crate::automaton::{dests, lemma_dests_contains, Automaton, AutomatonModel, AutomatonType};
use vstd::prelude::*;

verus! {

/// What can be wrong with an automaton.
#[derive(Debug, Clone, Copy, PartialEq, Eq, Structural)]
pub enum InputError {
    /// The number of states or of symbols is beyond what the index and the
    /// compressed subsets can hold.
    TooLarge,
    /// A transition, a start state or an accepting state names a state that
    /// is not below the size.
    StateOutOfRange,
    /// A transition has a symbol above the alphabet.
    SymbolOutOfRange,
    /// An automaton tagged deterministic has a transition on the empty word.
    EmptyWordInDet,
    /// An automaton tagged deterministic has two destinations for one state
    /// and one symbol.
    SeveralDestinations,
}

impl AutomatonModel {
    /// The sizes are within the limits.
    pub open spec fn within_limits(self) -> bool {
        self.size < usize::MAX && self.alphabet < usize::MAX && self.fits_blocks()
    }

    /// Every state named is below the size.
    pub open spec fn states_in_range(self) -> bool {
        &&& forall|i: int|
            0 <= i < self.table.len() ==> (#[trigger] self.table[i]).0 < self.size
                && self.table[i].2 < self.size
        &&& forall|i: int| 0 <= i < self.start.len() ==> #[trigger] self.start[i] < self.size
        &&& forall|i: int| 0 <= i < self.end.len() ==> #[trigger] self.end[i] < self.size
    }

    /// Every symbol is at most the alphabet.
    pub open spec fn symbols_in_range(self) -> bool {
        forall|i: int| 0 <= i < self.table.len() ==> (#[trigger] self.table[i]).1 <= self.alphabet
    }

    /// No transition is on the empty word.
    pub open spec fn no_empty_word(self) -> bool {
        forall|i: int| 0 <= i < self.table.len() ==> (#[trigger] self.table[i]).1 != 0
    }

    /// The first thing that is wrong, if anything is.
    pub open spec fn first_fault(self) -> Option<InputError> {
        if !self.within_limits() {
            Some(InputError::TooLarge)
        } else if !self.states_in_range() {
            Some(InputError::StateOutOfRange)
        } else if !self.symbols_in_range() {
            Some(InputError::SymbolOutOfRange)
        } else if self.kind == AutomatonType::NonDet {
            None
        } else if !self.no_empty_word() {
            Some(InputError::EmptyWordInDet)
        } else if !self.deterministic() {
            Some(InputError::SeveralDestinations)
        } else {
            None
        }
    }

    /// The automaton can be determinized and minimized.
    pub open spec fn usable(self) -> bool {
        &&& self.wf()
        &&& self.fits_blocks()
        &&& self.kind == AutomatonType::Det ==> self.deterministic()
    }

    /// An automaton is usable exactly when nothing is wrong with it.
    pub proof fn lemma_usable(self)
        ensures
            self.usable() <==> self.first_fault() is None,
    {
    }
}

/// Every list of the index holds one state only, however often.
pub open spec fn lists_constant(arr: &Vec<Vec<Vec<usize>>>, rows: int, cols: int) -> bool {
    forall|s: int, q: int, k: int|
        0 <= s < rows && 0 <= q < cols && 0 <= k < arr@[s]@[q]@.len() ==> #[trigger] arr@[s]@[q]@[k]
            == arr@[s]@[q]@[0]
}

/// An automaton has at most one destination for a state and a symbol exactly
/// when every list of its index holds one state only.
pub proof fn lemma_lists_constant(m: AutomatonModel, arr: &Vec<Vec<Vec<usize>>>)
    requires
        m.wf(),
        m.forward_index(arr),
        m.no_empty_word(),
    ensures
        m.deterministic() <==> lists_constant(arr, m.alphabet as int + 1, m.size as int + 1),
{
    let rows = m.alphabet as int + 1;
    let cols = m.size as int + 1;
    if m.deterministic() {
        assert forall|s: int, q: int, k: int|
            0 <= s < rows && 0 <= q < cols && 0 <= k < arr@[s]@[q]@.len() implies #[trigger] arr@[s]@[q]@[k]
            == arr@[s]@[q]@[0] by {
            let l = arr@[s]@[q]@;
            assert(l == dests(m.table, s, q));
            assert(l.contains(l[k]));
            assert(l.contains(l[0]));
            lemma_dests_contains(m.table, s, q, l[k]);
            lemma_dests_contains(m.table, s, q, l[0]);
            let i = choose|i: int|
                0 <= i < m.table.len() && (#[trigger] m.table[i]).0 == q && m.table[i].1 == s
                    && m.table[i].2 == l[k];
            let j = choose|j: int|
                0 <= j < m.table.len() && (#[trigger] m.table[j]).0 == q && m.table[j].1 == s
                    && m.table[j].2 == l[0];
            assert(m.table[i].2 == m.table[j].2);
        }
    }
    if lists_constant(arr, rows, cols) {
        assert forall|i: int, j: int|
            0 <= i < m.table.len() && 0 <= j < m.table.len() && (#[trigger] m.table[i]).0 == (
            #[trigger] m.table[j]).0 && m.table[i].1 == m.table[j].1 implies m.table[i].2
            == m.table[j].2 by {
            let q = m.table[i].0 as int;
            let s = m.table[i].1 as int;
            let l = arr@[s]@[q]@;
            assert(l == dests(m.table, s, q));
            lemma_dests_contains(m.table, s, q, m.table[i].2);
            lemma_dests_contains(m.table, s, q, m.table[j].2);
            let k1 = choose|k1: int| 0 <= k1 < l.len() && l[k1] == m.table[i].2;
            let k2 = choose|k2: int| 0 <= k2 < l.len() && l[k2] == m.table[j].2;
            assert(arr@[s]@[q]@[k1] == arr@[s]@[q]@[0]);
            assert(arr@[s]@[q]@[k2] == arr@[s]@[q]@[0]);
        }
    }
}

impl Automaton {
    /// Whether the sizes are within the limits.
    fn check_limits(&self) -> (r: bool)
        ensures
            r == self@.within_limits(),
    {
        if self.size == usize::MAX || self.alphabet == usize::MAX {
            return false;
        }
        if usize::BITS > 32 {
            let limit: u64 = 8 * 0xFFFF_FFFF;
            (self.size as u64) < limit
        } else {
            true
        }
    }

    /// Whether every state named is below the size.
    fn check_states(&self) -> (r: bool)
        ensures
            r == self@.states_in_range(),
    {
        let mut i: usize = 0;
        while i < self.table.len()
            invariant
                i <= self.table@.len(),
                forall|j: int|
                    0 <= j < i ==> (#[trigger] self.table@[j]).0 < self.size && self.table@[j].2
                        < self.size,
            decreases self.table@.len() - i,
        {
            let t = self.table[i];
            if t.0 >= self.size || t.2 >= self.size {
                assert(!(self@.table[i as int].0 < self@.size && self@.table[i as int].2
                    < self@.size));
                return false;
            }
            i += 1;
        }
        let mut i: usize = 0;
        while i < self.start.len()
            invariant
                i <= self.start@.len(),
                forall|j: int| 0 <= j < i ==> #[trigger] self.start@[j] < self.size,
            decreases self.start@.len() - i,
        {
            if self.start[i] >= self.size {
                assert(!(self@.start[i as int] < self@.size));
                return false;
            }
            i += 1;
        }
        let mut i: usize = 0;
        while i < self.end.len()
            invariant
                i <= self.end@.len(),
                forall|j: int| 0 <= j < i ==> #[trigger] self.end@[j] < self.size,
            decreases self.end@.len() - i,
        {
            if self.end[i] >= self.size {
                assert(!(self@.end[i as int] < self@.size));
                return false;
            }
            i += 1;
        }
        true
    }

    /// Whether every symbol is at most the alphabet, and whether none is the
    /// empty word.
    fn check_symbols(&self) -> (r: (bool, bool))
        ensures
            r.0 == self@.symbols_in_range(),
            r.1 == self@.no_empty_word(),
    {
        let mut in_range = true;
        let mut no_empty = true;
        let mut i: usize = 0;
        while i < self.table.len()
            invariant
                i <= self.table@.len(),
                in_range <==> forall|j: int|
                    0 <= j < i ==> (#[trigger] self.table@[j]).1 <= self.alphabet,
                no_empty <==> forall|j: int| 0 <= j < i ==> (#[trigger] self.table@[j]).1 != 0,
            decreases self.table@.len() - i,
        {
            let t = self.table[i];
            if t.1 > self.alphabet {
                in_range = false;
            }
            if t.1 == 0 {
                no_empty = false;
            }
            i += 1;
        }
        proof {
            if in_range {
                assert forall|j: int| 0 <= j < self@.table.len() implies (
                #[trigger] self@.table[j]).1 <= self@.alphabet by {
                    assert(self.table@[j].1 <= self.alphabet);
                }
            } else {
                let j = choose|j: int|
                    0 <= j < i && !((#[trigger] self.table@[j]).1 <= self.alphabet);
                assert(!(self@.table[j].1 <= self@.alphabet));
            }
            if no_empty {
                assert forall|j: int| 0 <= j < self@.table.len() implies (
                #[trigger] self@.table[j]).1 != 0 by {
                    assert(self.table@[j].1 != 0);
                }
            } else {
                let j = choose|j: int| 0 <= j < i && !((#[trigger] self.table@[j]).1 != 0);
                assert(!(self@.table[j].1 != 0));
            }
        }
        (in_range, no_empty)
    }

    /// Whether every list of the index holds one state only.
    fn check_lists(&self, arr: &Vec<Vec<Vec<usize>>>) -> (r: bool)
        requires
            self@.wf(),
            self@.forward_index(arr),
        ensures
            r == lists_constant(arr, self.alphabet + 1, self.size + 1),
    {
        let mut s: usize = 0;
        while s < self.alphabet + 1
            invariant
                self@.wf(),
                self@.forward_index(arr),
                s <= self.alphabet + 1,
                lists_constant(arr, s as int, self.size + 1),
            decreases self.alphabet + 1 - s,
        {
            let mut q: usize = 0;
            while q < self.size + 1
                invariant
                    self@.wf(),
                    self@.forward_index(arr),
                    s < self.alphabet + 1,
                    q <= self.size + 1,
                    lists_constant(arr, s as int, self.size + 1),
                    forall|q1: int, k: int|
                        0 <= q1 < q && 0 <= k < arr@[s as int]@[q1]@.len() ==> #[trigger] arr@[s as int]@[q1]@[k]
                            == arr@[s as int]@[q1]@[0],
                decreases self.size + 1 - q,
            {
                assert(arr@[s as int]@.len() == self.size + 1);
                let list = &arr[s][q];
                let mut k: usize = 1;
                while k < list.len()
                    invariant
                        1 <= k,
                        s < self.alphabet + 1,
                        q < self.size + 1,
                        *list == arr@[s as int]@[q as int],
                        forall|k1: int|
                            0 <= k1 < k && k1 < list@.len() ==> #[trigger] list@[k1] == list@[0],
                    decreases list@.len() - k,
                {
                    if list[k] != list[0] {
                        assert(arr@[s as int]@[q as int]@[k as int] != arr@[s as int]@[q as int]@[0]);
                        return false;
                    }
                    k += 1;
                }
                q += 1;
            }
            s += 1;
        }
        true
    }

    /// Checks that the automaton can be determinized and minimized: that its
    /// sizes are within the limits, that every state and symbol it names is in
    /// range and, where it is tagged deterministic, that it is so. Reports
    /// the first thing that is wrong.
    pub fn validate(&self) -> (r: Result<(), InputError>)
        ensures
            r == match self@.first_fault() {
                Some(e) => Err::<(), InputError>(e),
                None => Ok::<(), InputError>(()),
            },
            r is Ok <==> self@.usable(),
    {
        proof {
            self@.lemma_usable();
        }
        if !self.check_limits() {
            return Err(InputError::TooLarge);
        }
        if !self.check_states() {
            return Err(InputError::StateOutOfRange);
        }
        let (in_range, no_empty) = self.check_symbols();
        if !in_range {
            return Err(InputError::SymbolOutOfRange);
        }
        match self.automaton_type {
            AutomatonType::NonDet => {
                return Ok(());
            },
            AutomatonType::Det => {},
        }
        if !no_empty {
            return Err(InputError::EmptyWordInDet);
        }
        let arr = self.get_transition_array();
        proof {
            lemma_lists_constant(self@, &arr);
        }
        if !self.check_lists(&arr) {
            return Err(InputError::SeveralDestinations);
        }
        Ok(())
    }
}

} // verus!
