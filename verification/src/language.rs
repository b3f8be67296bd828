//! What an automaton accepts: closure under the empty word, the set of states
//! reached by a word, and acceptance.

use crate::automaton::{dests, is_forward_index, lemma_dests_contains, AutomatonModel};
use crate::closure::{arr_eps_edge, eps_extension, eps_row_in_range, grows_from};
use vstd::prelude::*;

verus! {

impl AutomatonModel {
    /// `arr` is the forward index of this automaton.
    pub open spec fn forward_index(self, arr: &Vec<Vec<Vec<usize>>>) -> bool {
        is_forward_index(arr, self.table, self.alphabet as int + 1, self.size as int + 1)
    }

    /// A set of states fits, byte for byte, under the four-byte length that
    /// stands in front of a compressed block.
    pub open spec fn fits_blocks(self) -> bool {
        self.size + 1 <= 8 * 0xFFFF_FFFF
    }

    /// `t` holds, with every state, the states reached from it on the empty word.
    pub open spec fn eps_closed(self, t: Set<int>) -> bool {
        forall|p: int, q: int| t.contains(p) && #[trigger] self.edge(p, 0, q) ==> t.contains(q)
    }

    /// `t` is a superset of `s` that is closed under the empty word.
    pub open spec fn closed_superset(self, s: Set<int>, t: Set<int>) -> bool {
        s.subset_of(t) && self.eps_closed(t)
    }

    /// The least superset of `s` that is closed under the empty word.
    pub open spec fn eps_closure(self, s: Set<int>) -> Set<int> {
        Set::new(|x: int| forall|t: Set<int>| #[trigger] self.closed_superset(s, t) ==> t.contains(x))
    }

    /// The states reached from a state of `s` by one transition on `a`.
    pub open spec fn moved(self, s: Set<int>, a: int) -> Set<int> {
        Set::new(|q: int| exists|p: int| s.contains(p) && #[trigger] self.edge(p, a, q))
    }

    /// State `p` has a transition on symbol `a`.
    pub open spec fn has_out(self, p: int, a: int) -> bool {
        exists|q: int| self.edge(p, a, q)
    }

    /// Every state has a transition on every symbol of the alphabet.
    pub open spec fn complete(self) -> bool {
        forall|p: int, a: int|
            0 <= p < self.size && 1 <= a <= self.alphabet ==> #[trigger] self.has_out(p, a)
    }

    /// The states reached from `s` by reading the symbol `a`.
    pub open spec fn step(self, s: Set<int>, a: int) -> Set<int> {
        self.eps_closure(self.moved(s, a))
    }

    /// The states reached from the start states by reading the word `w`.
    pub open spec fn run(self, w: Seq<int>) -> Set<int>
        decreases w.len(),
    {
        if w.len() == 0 {
            self.eps_closure(self.start_set())
        } else {
            self.step(self.run(w.drop_last()), w.last())
        }
    }

    /// `s` holds an accepting state.
    pub open spec fn hits_accept(self, s: Set<int>) -> bool {
        exists|q: int| s.contains(q) && #[trigger] self.is_accept(q)
    }

    /// The word `w` is in the language of the automaton.
    pub open spec fn accepts(self, w: Seq<int>) -> bool {
        self.hits_accept(self.run(w))
    }

    /// Every symbol of `w` is one of `1..=alphabet`.
    pub open spec fn valid_word(self, w: Seq<int>) -> bool {
        forall|i: int| 0 <= i < w.len() ==> 1 <= #[trigger] w[i] <= self.alphabet
    }

    /// Every member of `s` is a state.
    pub open spec fn in_range(self, s: Set<int>) -> bool {
        forall|q: int| s.contains(q) ==> 0 <= q < self.size
    }

    /// The closure holds its argument, is closed, and lies in every closed superset.
    pub proof fn lemma_closure(self, s: Set<int>)
        ensures
            s.subset_of(self.eps_closure(s)),
            self.eps_closed(self.eps_closure(s)),
            forall|t: Set<int>| #[trigger]
                self.closed_superset(s, t) ==> self.eps_closure(s).subset_of(t),
    {
        let c = self.eps_closure(s);
        assert forall|p: int, q: int| c.contains(p) && #[trigger] self.edge(p, 0, q) implies c.contains(
            q,
        ) by {
            assert forall|t: Set<int>| #[trigger] self.closed_superset(s, t) implies t.contains(q) by {
                assert(t.contains(p));
            }
        }
    }

    /// A closed set is its own closure.
    pub proof fn lemma_closure_of_closed(self, s: Set<int>)
        requires
            self.eps_closed(s),
        ensures
            self.eps_closure(s) == s,
    {
        self.lemma_closure(s);
        assert(self.closed_superset(s, s));
        assert(self.eps_closure(s) =~= s);
    }

    /// The closure of a set of states is a set of states.
    pub proof fn lemma_closure_in_range(self, s: Set<int>)
        requires
            self.wf(),
            self.in_range(s),
        ensures
            self.in_range(self.eps_closure(s)),
    {
        let all = Set::new(|q: int| 0 <= q < self.size);
        assert(self.closed_superset(s, all));
    }

    /// What a step reaches is a set of states.
    pub proof fn lemma_step_in_range(self, s: Set<int>, a: int)
        requires
            self.wf(),
        ensures
            self.in_range(self.step(s, a)),
    {
        self.lemma_closure_in_range(self.moved(s, a));
    }

    /// What a word reaches is a set of states.
    pub proof fn lemma_run_in_range(self, w: Seq<int>)
        requires
            self.wf(),
        ensures
            self.in_range(self.run(w)),
        decreases w.len(),
    {
        if w.len() == 0 {
            self.lemma_closure_in_range(self.start_set());
        } else {
            self.lemma_step_in_range(self.run(w.drop_last()), w.last());
        }
    }
}

/// Row `0` of a forward index lists exactly the transitions on the empty word.
pub proof fn lemma_index_eps_edge(m: AutomatonModel, arr: &Vec<Vec<Vec<usize>>>, p: int, q: int)
    requires
        m.wf(),
        m.forward_index(arr),
    ensures
        arr_eps_edge(arr, p, q) ==> m.edge(p, 0, q),
        m.edge(p, 0, q) ==> arr_eps_edge(arr, p, q),
{
    if arr_eps_edge(arr, p, q) {
        let k = choose|k: int| 0 <= k < arr@[0]@[p]@.len() && #[trigger] arr@[0]@[p]@[k] == q;
        let x = arr@[0]@[p]@[k];
        assert(arr@[0]@[p]@ == dests(m.table, 0, p));
        assert(dests(m.table, 0, p).contains(x));
        lemma_dests_contains(m.table, 0, p, x);
    }
    if m.edge(p, 0, q) {
        let i = choose|i: int|
            0 <= i < m.table.len() && (#[trigger] m.table[i]).0 == p && m.table[i].1 == 0
                && m.table[i].2 == q;
        let x = m.table[i].2;
        lemma_dests_contains(m.table, 0, p, x);
        assert(arr@[0]@[p]@ == dests(m.table, 0, p));
        let k = choose|k: int|
            0 <= k < dests(m.table, 0, p).len() && dests(m.table, 0, p)[k] == x;
        assert(arr@[0]@[p]@[k] == q);
    }
}

/// The state listed at position `k` of the list for symbol `s` and state `p`.
pub open spec fn listed(arr: &Vec<Vec<Vec<usize>>>, s: int, p: int, k: int) -> int {
    arr@[s]@[p]@[k] as int
}

/// A forward index lists exactly the transitions of the automaton.
pub proof fn lemma_index_edge(m: AutomatonModel, arr: &Vec<Vec<Vec<usize>>>, s: int, p: int, q: int)
    requires
        m.wf(),
        m.forward_index(arr),
        0 <= s <= m.alphabet,
        0 <= p <= m.size,
    ensures
        m.edge(p, s, q) <==> exists|k: int|
            0 <= k < arr@[s]@[p]@.len() && #[trigger] listed(arr, s, p, k) == q,
{
    assert(arr@[s]@[p]@ == dests(m.table, s, p));
    if m.edge(p, s, q) {
        let i = choose|i: int|
            0 <= i < m.table.len() && (#[trigger] m.table[i]).0 == p && m.table[i].1 == s
                && m.table[i].2 == q;
        let x = m.table[i].2;
        lemma_dests_contains(m.table, s, p, x);
        let k = choose|k: int| 0 <= k < dests(m.table, s, p).len() && dests(m.table, s, p)[k] == x;
        assert(listed(arr, s, p, k) == q);
    }
    if exists|k: int| 0 <= k < arr@[s]@[p]@.len() && #[trigger] listed(arr, s, p, k) == q {
        let k = choose|k: int| 0 <= k < arr@[s]@[p]@.len() && #[trigger] listed(arr, s, p, k) == q;
        let x = arr@[s]@[p]@[k];
        assert(dests(m.table, s, p).contains(x));
        lemma_dests_contains(m.table, s, p, x);
    }
}

/// A forward index keeps its listed states in range.
pub proof fn lemma_index_in_range(m: AutomatonModel, arr: &Vec<Vec<Vec<usize>>>)
    requires
        m.wf(),
        m.forward_index(arr),
    ensures
        eps_row_in_range(arr, m.size as int + 1),
        forall|s: int, p: int, k: int|
            0 <= s <= m.alphabet && 0 <= p <= m.size && 0 <= k < arr@[s]@[p]@.len()
                ==> #[trigger] arr@[s]@[p]@[k] < m.size,
{
    assert forall|s: int, p: int, k: int|
        0 <= s <= m.alphabet && 0 <= p <= m.size && 0 <= k < arr@[s]@[p]@.len() implies #[trigger] arr@[s]@[p]@[k]
        < m.size by {
        let x = arr@[s]@[p]@[k];
        assert(arr@[s]@[p]@ == dests(m.table, s, p));
        assert(dests(m.table, s, p).contains(x));
        lemma_dests_contains(m.table, s, p, x);
    }
    assert(arr@[0]@.len() == m.size + 1);
}

/// Growing a closed set by one seed, as the index lists the transitions on
/// the empty word, gives the closure of the larger seed set.
pub proof fn lemma_extension_is_closure(
    m: AutomatonModel,
    arr: &Vec<Vec<Vec<usize>>>,
    seeds: Set<int>,
    bit: int,
)
    requires
        m.wf(),
        m.forward_index(arr),
    ensures
        eps_extension(arr, m.eps_closure(seeds), bit) == m.eps_closure(seeds.insert(bit)),
{
    let base = m.eps_closure(seeds);
    let e = eps_extension(arr, base, bit);
    let c = m.eps_closure(seeds.insert(bit));
    m.lemma_closure(seeds);
    m.lemma_closure(seeds.insert(bit));
    assert(m.closed_superset(seeds, c));
    assert forall|p: int, q: int|
        c.contains(p) && !base.contains(p) && #[trigger] arr_eps_edge(arr, p, q) implies c.contains(
        q,
    ) by {
        lemma_index_eps_edge(m, arr, p, q);
    }
    assert(grows_from(arr, base, bit, c));
    assert forall|p: int, q: int| e.contains(p) && #[trigger] m.edge(p, 0, q) implies e.contains(
        q,
    ) by {
        lemma_index_eps_edge(m, arr, p, q);
        if base.contains(p) {
            assert(base.contains(q));
        } else {
            assert forall|t: Set<int>| #[trigger] grows_from(arr, base, bit, t) implies t.contains(
                q,
            ) by {
                assert(t.contains(p));
            }
        }
    }
    assert(m.closed_superset(seeds.insert(bit), e));
    assert(e =~= c);
}

/// The empty set is closed.
pub proof fn lemma_closure_empty(m: AutomatonModel)
    ensures
        m.eps_closure(Set::<int>::empty()) == Set::<int>::empty(),
{
    m.lemma_closure_of_closed(Set::<int>::empty());
}

} // verus!
