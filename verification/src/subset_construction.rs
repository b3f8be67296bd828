//! The subset construction: what it means for a deterministic automaton to be
//! the determinization of another, and the steps shared by every way of
//! building it.

use crate::automaton::{states_sorted, Automaton, AutomatonModel, AutomatonType};
use crate::closure::eps_row_in_range;
use crate::language::{
    lemma_closure_empty, lemma_extension_is_closure, lemma_index_edge, lemma_index_in_range, listed,
};
use crate::ubig::Ubig;
use vstd::prelude::*;

verus! {

/// `d` is a deterministic automaton whose state `i` stands for the subset
/// `subsets[i]` of the states of `m`: state `0` for the closure of the start
/// states, no subset twice, every transition of `d` a step of `m`, a
/// transition for every state and symbol, and a state accepting exactly when
/// its subset holds an accepting state of `m`.
pub open spec fn is_subset_dfa(
    m: AutomatonModel,
    d: AutomatonModel,
    subsets: Seq<Set<int>>,
) -> bool {
    &&& d.kind == AutomatonType::Det
    &&& d.alphabet == m.alphabet
    &&& d.size == subsets.len()
    &&& d.size >= 1
    &&& subsets[0] == m.eps_closure(m.start_set())
    &&& forall|i: int, j: int| 0 <= i < j < subsets.len() ==> subsets[i] != subsets[j]
    &&& d.start == seq![0usize]
    &&& forall|k: int|
        0 <= k < d.table.len() ==> {
            let t = #[trigger] d.table[k];
            t.0 < d.size && 1 <= t.1 <= d.alphabet && t.2 < d.size && subsets[t.2 as int] == m.step(
                subsets[t.0 as int],
                t.1 as int,
            )
        }
    &&& d.complete()
    &&& forall|i: int| 0 <= i < d.end.len() ==> #[trigger] d.end[i] < d.size
    &&& forall|i: int| 0 <= i < d.size ==> (d.is_accept(i) <==> m.hits_accept(#[trigger] subsets[i]))
}

/// The table of `d` lists the transitions state by state and, for each state,
/// symbol by symbol.
pub open spec fn row_major(d: AutomatonModel) -> bool {
    &&& d.table.len() == d.size * d.alphabet
    &&& forall|k: int|
        0 <= k < d.table.len() ==> (#[trigger] d.table[k]).0 == k / (d.alphabet as int)
            && d.table[k].1 == k % (d.alphabet as int) + 1
}

/// The states of `d` are numbered in the order in which its table first
/// names them: `first[j]` is the place where state `j` is first a
/// destination, every destination before it is a smaller state, and it lies
/// before the transitions that leave `j`.
pub open spec fn discovered_in_order(d: AutomatonModel, first: Seq<int>) -> bool {
    &&& first.len() == d.size
    &&& forall|j: int|
        1 <= j < d.size ==> 0 <= #[trigger] first[j] < d.table.len() && first[j] < j * d.alphabet
            && d.table[first[j]].2 == j
    &&& forall|j: int, k: int|
        1 <= j < d.size && 0 <= k < #[trigger] first[j] ==> (#[trigger] d.table[k]).2 < j
}

/// `d` is what the sequential subset construction makes of `m`, with
/// `subsets` and `first` as witnesses.
pub open spec fn is_sequential_construction(
    m: AutomatonModel,
    d: AutomatonModel,
    subsets: Seq<Set<int>>,
    first: Seq<int>,
) -> bool {
    &&& is_subset_dfa(m, d, subsets)
    &&& row_major(d)
    &&& discovered_in_order(d, first)
    &&& states_sorted(d.end)
}

/// `d` is the determinization of `m`: the automaton of the subsets reached
/// from the closure of the start states, numbered in the order of discovery
/// when the subsets are expanded first in, first out, symbols ascending.
pub open spec fn determinizes(m: AutomatonModel, d: AutomatonModel) -> bool {
    exists|subsets: Seq<Set<int>>, first: Seq<int>| #[trigger]
        is_sequential_construction(m, d, subsets, first)
}

/// Whether `v` holds one of `states`.
pub fn meets(v: &Ubig, states: &Vec<usize>) -> (r: bool)
    ensures
        r <==> exists|i: int| 0 <= i < states@.len() && v@.contains(#[trigger] states@[i] as int),
{
    let mut i: usize = 0;
    while i < states.len()
        invariant
            i <= states@.len(),
            forall|j: int| 0 <= j < i ==> !v@.contains(#[trigger] states@[j] as int),
        decreases states@.len() - i,
    {
        if v.bit_at(&states[i]) {
            return true;
        }
        i += 1;
    }
    false
}

/// Holding one of the accepting states is holding an accepting state.
pub proof fn lemma_meets_accept(m: AutomatonModel, s: Set<int>)
    ensures
        m.hits_accept(s) <==> exists|i: int|
            0 <= i < m.end.len() && s.contains(#[trigger] m.end[i] as int),
{
    if m.hits_accept(s) {
        let q = choose|q: int| s.contains(q) && #[trigger] m.is_accept(q);
        let i = choose|i: int| 0 <= i < m.end.len() && #[trigger] m.end[i] == q;
        assert(s.contains(m.end[i] as int));
    }
    if exists|i: int| 0 <= i < m.end.len() && s.contains(#[trigger] m.end[i] as int) {
        let i = choose|i: int| 0 <= i < m.end.len() && s.contains(#[trigger] m.end[i] as int);
        assert(m.is_accept(m.end[i] as int));
    }
}

/// The closure of the start states of `aut`, as a bit set.
pub fn start_subset(aut: &Automaton, arr: &Vec<Vec<Vec<usize>>>) -> (v: Ubig)
    requires
        aut@.wf(),
        aut@.forward_index(arr),
    ensures
        v@ == aut@.eps_closure(aut@.start_set()),
        v.wf(),
        v.within(aut.size + 1),
        aut@.in_range(v@),
{
    let mut v = Ubig::new();
    let ghost mut seeds: Set<int> = Set::empty();
    proof {
        lemma_closure_empty(aut@);
        lemma_index_in_range(aut@, arr);
    }
    let mut i: usize = 0;
    while i < aut.start.len()
        invariant
            aut@.wf(),
            aut@.forward_index(arr),
            eps_row_in_range(arr, aut.size + 1),
            i <= aut.start@.len(),
            v.wf(),
            v.within(aut.size + 1),
            v@ == aut@.eps_closure(seeds),
            forall|q: int| seeds.contains(q) ==> aut@.is_start(q),
            forall|j: int| 0 <= j < i ==> seeds.contains(#[trigger] aut.start@[j] as int),
        decreases aut.start@.len() - i,
    {
        let s = aut.start[i];
        assert(aut@.start[i as int] < aut@.size);
        proof {
            lemma_extension_is_closure(aut@, arr, seeds, s as int);
        }
        aut.add_state(arr, &mut v, s);
        proof {
            seeds = seeds.insert(s as int);
        }
        i += 1;
    }
    proof {
        assert(seeds =~= aut@.start_set());
        aut@.lemma_closure_in_range(aut@.start_set());
    }
    v
}

/// The subset reached from `u` by reading the symbol `a`, as a bit set.
pub fn successor(aut: &Automaton, arr: &Vec<Vec<Vec<usize>>>, u: &Ubig, a: usize) -> (v: Ubig)
    requires
        aut@.wf(),
        aut@.forward_index(arr),
        a <= aut.alphabet,
        u.wf(),
        aut@.in_range(u@),
    ensures
        v@ == aut@.step(u@, a as int),
        v.wf(),
        v.within(aut.size + 1),
        aut@.in_range(v@),
{
    let mut v = Ubig::new();
    let members = u.get_seq();
    let ghost mut seeds: Set<int> = Set::empty();
    proof {
        lemma_closure_empty(aut@);
        lemma_index_in_range(aut@, arr);
    }
    let mut i: usize = 0;
    while i < members.len()
        invariant
            aut@.wf(),
            aut@.forward_index(arr),
            eps_row_in_range(arr, aut.size + 1),
            forall|s: int, p: int, k: int|
                0 <= s <= aut@.alphabet && 0 <= p <= aut@.size && 0 <= k < arr@[s]@[p]@.len()
                    ==> #[trigger] arr@[s]@[p]@[k] < aut@.size,
            a <= aut.alphabet,
            aut@.in_range(u@),
            forall|x: usize| members@.contains(x) <==> u@.contains(x as int),
            i <= members@.len(),
            v.wf(),
            v.within(aut.size + 1),
            v@ == aut@.eps_closure(seeds),
            forall|q: int| seeds.contains(q) ==> aut@.moved(u@, a as int).contains(q),
            forall|j: int, k: int|
                0 <= j < i && 0 <= k < arr@[a as int]@[members@[j] as int]@.len() ==> seeds.contains(
                    #[trigger] listed(arr, a as int, members@[j] as int, k),
                ),
        decreases members@.len() - i,
    {
        let s = members[i];
        assert(members@.contains(s));
        assert(u@.contains(s as int));
        let row = &arr[a][s];
        let mut k: usize = 0;
        while k < row.len()
            invariant
                aut@.wf(),
                aut@.forward_index(arr),
                eps_row_in_range(arr, aut.size + 1),
                forall|s: int, p: int, k: int|
                    0 <= s <= aut@.alphabet && 0 <= p <= aut@.size && 0 <= k < arr@[s]@[p]@.len()
                        ==> #[trigger] arr@[s]@[p]@[k] < aut@.size,
                a <= aut.alphabet,
                s < aut.size,
                u@.contains(s as int),
                i < members@.len(),
                s == members@[i as int],
                *row == arr@[a as int]@[s as int],
                k <= row@.len(),
                v.wf(),
                v.within(aut.size + 1),
                v@ == aut@.eps_closure(seeds),
                forall|q: int| seeds.contains(q) ==> aut@.moved(u@, a as int).contains(q),
                forall|j: int, k: int|
                    0 <= j < i && 0 <= k < arr@[a as int]@[members@[j] as int]@.len()
                        ==> seeds.contains(#[trigger] listed(arr, a as int, members@[j] as int, k)),
                forall|j: int| 0 <= j < k ==> seeds.contains(#[trigger] listed(arr, a as int, s as int, j)),
            decreases row@.len() - k,
        {
            let t = row[k];
            assert(arr@[a as int]@[s as int]@[k as int] < aut@.size);
            proof {
                lemma_extension_is_closure(aut@, arr, seeds, t as int);
                lemma_index_edge(aut@, arr, a as int, s as int, t as int);
                assert(listed(arr, a as int, s as int, k as int) == t);
                assert(aut@.edge(s as int, a as int, t as int));
            }
            aut.add_state(arr, &mut v, t);
            proof {
                seeds = seeds.insert(t as int);
            }
            k += 1;
        }
        i += 1;
    }
    proof {
        let target = aut@.moved(u@, a as int);
        assert forall|q: int| target.contains(q) implies seeds.contains(q) by {
            let p = choose|p: int| u@.contains(p) && #[trigger] aut@.edge(p, a as int, q);
            assert(members@.contains(p as usize));
            let j = choose|j: int| 0 <= j < members@.len() && members@[j] == p as usize;
            lemma_index_edge(aut@, arr, a as int, p, q);
            let k = choose|k: int|
                0 <= k < arr@[a as int]@[p]@.len() && #[trigger] listed(arr, a as int, p, k) == q;
            assert(seeds.contains(listed(arr, a as int, members@[j] as int, k)));
        }
        assert(seeds =~= target);
        aut@.lemma_step_in_range(u@, a as int);
    }
    v
}

} // verus!
