//! The operations on whole automata: determinize, minimize, reverse.

use crate::automaton::{AlgorithmKind, Automaton, AutomatonType};
use crate::automaton_multithreaded::rabin_scott_mt;
use crate::automaton_sequential::{hopcroft_algo, rabin_scott_seq};
use crate::quotient::{block_seq, image, is_congruence, is_quotient};
use crate::laws::{is_determinized, is_minimized};
use vstd::prelude::*;

verus! {

/// The transition `t` with its ends exchanged.
pub open spec fn reversed(t: (usize, usize, usize)) -> (usize, usize, usize) {
    (t.2, t.1, t.0)
}

impl Automaton {
    /// A deterministic automaton for the same language.
    ///
    /// An automaton tagged deterministic is returned as it is. Otherwise the
    /// result is the automaton of the subsets reached from the closure of
    /// the start states, numbered in the order of discovery, whether it is
    /// built on one frontier or shard by shard.
    pub fn determinized(&self, kind: AlgorithmKind) -> (r: Automaton)
        requires
            self@.wf(),
            self@.fits_blocks(),
            kind matches AlgorithmKind::Multithreaded(k) ==> k >= 1,
        ensures
            is_determinized(self@, r@),
    {
        match self.automaton_type {
            AutomatonType::Det => self.clone(),
            AutomatonType::NonDet => {
                let (transitions, a_size, a_start, a_end) = match kind {
                    AlgorithmKind::Sequential => rabin_scott_seq(self),
                    AlgorithmKind::Multithreaded(n_threads) => rabin_scott_mt(self, n_threads),
                };
                let r = Automaton {
                    automaton_type: AutomatonType::Det,
                    size: a_size,
                    alphabet: self.alphabet,
                    table: transitions,
                    start: a_start,
                    end: a_end,
                };
                r
            },
        }
    }

    /// The automaton of the blocks of the coarsest partition whose blocks
    /// hold states alike in accepting and alike in where they go.
    ///
    /// An automaton that is tagged nondeterministic, or has at most two
    /// states, is returned as it is.
    pub fn minimized(&self) -> (r: Automaton)
        requires
            self@.wf(),
            self.automaton_type == AutomatonType::Det ==> self@.deterministic(),
        ensures
            is_minimized(self@, r@),
    {
        match self.automaton_type {
            AutomatonType::NonDet => {
                return self.clone();
            },
            AutomatonType::Det => {},
        }
        if self.size <= 2 {
            return self.clone();
        }
        let (p, len) = hopcroft_algo(self);
        let ghost fin = block_seq(p@, self@.size);
        proof {
            assert forall|i: int| 0 <= i < self.table@.len() implies p@.contains_key(
                (#[trigger] self.table@[i]).0,
            ) && p@.contains_key(self.table@[i].2) by {
                assert(self@.table[i].0 < self@.size);
            }
            assert forall|i: int| 0 <= i < self.start@.len() implies p@.contains_key(
                #[trigger] self.start@[i],
            ) by {
                assert(self@.start[i] < self@.size);
            }
            assert forall|i: int| 0 <= i < self.end@.len() implies p@.contains_key(
                #[trigger] self.end@[i],
            ) by {
                assert(self@.end[i] < self@.size);
            }
        }
        let r = Automaton {
            automaton_type: AutomatonType::Det,
            size: len,
            alphabet: self.alphabet,
            table: Automaton::get_part_table(&p, &self.table),
            start: Automaton::get_part_vec_from_vec(&p, &self.start),
            end: Automaton::get_part_vec_from_vec(&p, &self.end),
        };
        proof {
            let m = self@;
            assert forall|t: (usize, usize, usize)|
                r@.table.contains(t) <==> exists|i: int|
                    0 <= i < m.table.len() && t == image(fin, #[trigger] m.table[i]) by {
                if r@.table.contains(t) {
                    let i = choose|i: int|
                        0 <= i < self.table@.len() && t == (
                            p@[(#[trigger] self.table@[i]).0],
                            self.table@[i].1,
                            p@[self.table@[i].2],
                        );
                    assert(m.table[i].0 < m.size && m.table[i].2 < m.size);
                    assert(t == image(fin, m.table[i]));
                }
                if exists|i: int| 0 <= i < m.table.len() && t == image(fin, #[trigger] m.table[i]) {
                    let i = choose|i: int|
                        0 <= i < m.table.len() && t == image(fin, #[trigger] m.table[i]);
                    assert(m.table[i].0 < m.size && m.table[i].2 < m.size);
                    assert(t == (p@[self.table@[i].0], self.table@[i].1, p@[self.table@[i].2]));
                }
            }
            assert forall|x: usize|
                r@.start.contains(x) <==> exists|i: int|
                    0 <= i < m.start.len() && x == fin[#[trigger] m.start[i] as int] by {
                if r@.start.contains(x) {
                    let i = choose|i: int| 0 <= i < self.start@.len() && x == p@[#[trigger] self.start@[i]];
                    assert(m.start[i] < m.size);
                    assert(x == fin[m.start[i] as int]);
                }
                if exists|i: int| 0 <= i < m.start.len() && x == fin[#[trigger] m.start[i] as int] {
                    let i = choose|i: int|
                        0 <= i < m.start.len() && x == fin[#[trigger] m.start[i] as int];
                    assert(m.start[i] < m.size);
                    assert(x == p@[self.start@[i]]);
                }
            }
            assert forall|x: usize|
                r@.end.contains(x) <==> exists|i: int|
                    0 <= i < m.end.len() && x == fin[#[trigger] m.end[i] as int] by {
                if r@.end.contains(x) {
                    let i = choose|i: int| 0 <= i < self.end@.len() && x == p@[#[trigger] self.end@[i]];
                    assert(m.end[i] < m.size);
                    assert(x == fin[m.end[i] as int]);
                }
                if exists|i: int| 0 <= i < m.end.len() && x == fin[#[trigger] m.end[i] as int] {
                    let i = choose|i: int| 0 <= i < m.end.len() && x == fin[#[trigger] m.end[i] as int];
                    assert(m.end[i] < m.size);
                    assert(x == p@[self.end@[i]]);
                }
            }
            assert(is_quotient(m, fin, len as int, r@));
            assert(is_congruence(m, fin, len as int));
        }
        r
    }

    /// The automaton with every transition turned round and the start and
    /// accepting states exchanged, tagged nondeterministic.
    pub fn reverse_transitions(self) -> (r: Automaton)
        ensures
            r.automaton_type == AutomatonType::NonDet,
            r.size == self.size,
            r.alphabet == self.alphabet,
            r.table@.len() == self.table@.len(),
            forall|i: int| 0 <= i < self.table@.len() ==> #[trigger] r.table@[i] == reversed(self.table@[i]),
            r.start@ == self.end@,
            r.end@ == self.start@,
    {
        let mut table: Vec<(usize, usize, usize)> = Vec::new();
        let mut i: usize = 0;
        while i < self.table.len()
            invariant
                i <= self.table@.len(),
                table@.len() == i,
                forall|j: int| 0 <= j < i ==> #[trigger] table@[j] == reversed(self.table@[j]),
            decreases self.table@.len() - i,
        {
            let t = self.table[i];
            table.push((t.2, t.1, t.0));
            i += 1;
        }
        Automaton {
            automaton_type: AutomatonType::NonDet,
            size: self.size,
            alphabet: self.alphabet,
            table,
            start: self.end,
            end: self.start,
        }
    }
}

} // verus!
