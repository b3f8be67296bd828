//! What determinization does at the edges: to an automaton that is already
//! what determinization would make of it, and to an automaton without
//! transitions.

use crate::automaton::{states_sorted, AutomatonModel, AutomatonType};
use crate::det_unique::lemma_determinization_unique;
use crate::laws::lemma_no_eps_closure;
use crate::sequential_proof::lemma_next_place;
use crate::subset_construction::{
    determinizes, discovered_in_order, is_sequential_construction, is_subset_dfa, row_major,
};
use crate::unique::{lemma_one_target, lemma_sorted_states_unique};
use vstd::prelude::*;

verus! {

/// The automaton `m` with the tag `Det`.
pub open spec fn tagged_det(m: AutomatonModel) -> AutomatonModel {
    AutomatonModel { kind: AutomatonType::Det, ..m }
}

/// The automaton already has the shape of a determinization: one start state
/// `0`, no transition on the empty word, one destination for every state and
/// symbol, the table state by state and symbol by symbol, the states numbered
/// in the order in which the table first names them, the accepting states in
/// increasing order.
pub open spec fn has_determinized_shape(m: AutomatonModel, first: Seq<int>) -> bool {
    &&& m.wf()
    &&& m.size >= 1
    &&& m.deterministic()
    &&& m.start == seq![0usize]
    &&& row_major(m)
    &&& discovered_in_order(m, first)
    &&& states_sorted(m.end)
}

/// An automaton that already has the shape of a determinization is returned
/// unchanged but for its tag. No other automaton is: what determinization
/// returns always has that shape.
pub proof fn lemma_determinized_shape_unchanged(m: AutomatonModel, first: Seq<int>, d: AutomatonModel)
    requires
        has_determinized_shape(m, first),
        determinizes(m, d),
    ensures
        d == tagged_det(m),
{
    let t = tagged_det(m);
    let subsets = Seq::new(m.size, |i: int| set![i]);
    let width = m.alphabet as int;
    assert forall|k: int| 0 <= k < m.table.len() implies (#[trigger] m.table[k]).1 != 0 by {}
    assert(subsets[0] == m.eps_closure(m.start_set())) by {
        let s = m.start_set();
        assert(m.start[0] == 0);
        assert(m.is_start(0));
        assert forall|q: int| s.contains(q) implies q == 0 by {
            let i = choose|i: int| 0 <= i < m.start.len() && #[trigger] m.start[i] == q;
        }
        assert(s =~= set![0int]);
        lemma_no_eps_closure(m, s);
    }
    assert forall|i: int, j: int| 0 <= i < j < subsets.len() implies subsets[i] != subsets[j] by {
        assert(subsets[i].contains(i));
        assert(!subsets[j].contains(i));
    }
    assert forall|k: int| 0 <= k < t.table.len() implies {
        let e = #[trigger] t.table[k];
        e.0 < t.size && 1 <= e.1 <= t.alphabet && e.2 < t.size && subsets[e.2 as int] == m.step(
            subsets[e.0 as int],
            e.1 as int,
        )
    } by {
        let e = m.table[k];
        let p = e.0 as int;
        let a = e.1 as int;
        let q = e.2 as int;
        assert(m.edge(p, a, q));
        let moved = m.moved(set![p], a);
        assert(set![p].contains(p));
        assert(moved.contains(q));
        assert forall|y: int| moved.contains(y) implies y == q by {
            let p2 = choose|p2: int| set![p].contains(p2) && #[trigger] m.edge(p2, a, y);
            lemma_one_target(m, p, a, q, y);
        }
        assert(moved =~= set![q]);
        lemma_no_eps_closure(m, moved);
    }
    assert forall|p: int, a: int| 0 <= p < t.size && 1 <= a <= t.alphabet implies #[trigger] t.has_out(
        p,
        a,
    ) by {
        let k = p * width + a - 1;
        lemma_next_place(p, a, width);
        assert(0 <= k < m.table.len()) by (nonlinear_arith)
            requires
                k == p * width + a - 1,
                0 <= p < m.size,
                1 <= a <= width,
                m.table.len() == m.size * width,
        ;
        assert(t.table[k].0 == p && t.table[k].1 == a);
        assert(t.edge(p, a, t.table[k].2 as int));
    }
    assert forall|i: int| 0 <= i < t.size implies (t.is_accept(i) <==> m.hits_accept(
        #[trigger] subsets[i],
    )) by {
        assert(subsets[i].contains(i));
        if t.is_accept(i) {
            let e = choose|e: int| 0 <= e < t.end.len() && #[trigger] t.end[e] == i;
            assert(m.end[e] == i);
            assert(m.is_accept(i));
            assert(subsets[i].contains(i) && m.is_accept(i));
        }
        if m.hits_accept(subsets[i]) {
            let q = choose|q: int| subsets[i].contains(q) && #[trigger] m.is_accept(q);
            assert(q == i);
            let e = choose|e: int| 0 <= e < m.end.len() && #[trigger] m.end[e] == i;
            assert(t.end[e] == i);
        }
    }
    assert(is_subset_dfa(m, t, subsets));
    assert(is_sequential_construction(m, t, subsets, first));
    lemma_determinization_unique(m, d, t);
}

/// The automaton has no transition, and one state that is both its start
/// state and its accepting state.
pub open spec fn accepts_the_empty_word_only(m: AutomatonModel) -> bool {
    &&& m.wf()
    &&& m.table.len() == 0
    &&& m.start.len() == 1
    &&& m.end == m.start
    &&& m.alphabet >= 1
}

/// An automaton without transitions whose one start state is its accepting
/// state is determinized to two states: the start state, accepting, and a
/// sink to which every symbol leads from both.
pub proof fn lemma_no_transitions_two_states(m: AutomatonModel, d: AutomatonModel)
    requires
        accepts_the_empty_word_only(m),
        determinizes(m, d),
    ensures
        d.size == 2,
        d.start == seq![0usize],
        d.end == seq![0usize],
        d.table.len() == 2 * m.alphabet,
        forall|k: int| 0 <= k < d.table.len() ==> (#[trigger] d.table[k]).2 == 1,
{
    let (subsets, first) = choose|subsets: Seq<Set<int>>, first: Seq<int>| #[trigger]
        is_sequential_construction(m, d, subsets, first);
    let s0 = m.start[0] as int;
    let none = Set::<int>::empty();
    assert forall|p: int, a: int, q: int| !m.edge(p, a, q) by {}
    assert(subsets[0].contains(s0)) by {
        assert(m.is_start(s0));
        m.lemma_closure(m.start_set());
    }
    assert forall|x: Set<int>, a: int| #[trigger] m.step(x, a) == none by {
        assert(m.moved(x, a) =~= none);
        m.lemma_closure_of_closed(none);
    }
    assert forall|k: int| 0 <= k < d.table.len() implies subsets[(#[trigger] d.table[k]).2 as int]
        == none by {}
    assert forall|j: int| 1 <= j < d.size implies subsets[j] == none by {
        assert(d.table[first[j]].2 == j);
    }
    if d.size > 2 {
        assert(subsets[1] != subsets[2]);
    }
    assert(d.table.len() >= 1) by (nonlinear_arith)
        requires
            d.table.len() == d.size * d.alphabet,
            d.size >= 1,
            d.alphabet >= 1,
    ;
    let j0 = d.table[0].2 as int;
    assert(subsets[j0] == none);
    assert(j0 != 0);
    assert(d.size == 2);
    assert forall|k: int| 0 <= k < d.table.len() implies (#[trigger] d.table[k]).2 == 1 by {
        let j = d.table[k].2 as int;
        assert(subsets[j] == none);
    }
    assert(d.is_accept(0)) by {
        assert(m.is_accept(s0)) by {
            assert(m.end[0] == s0);
        }
        assert(m.hits_accept(subsets[0]));
    }
    assert(!d.is_accept(1)) by {
        if m.hits_accept(subsets[1]) {
            let q = choose|q: int| subsets[1].contains(q) && #[trigger] m.is_accept(q);
        }
    }
    let target = seq![0usize];
    assert forall|x: usize| d.end.contains(x) <==> target.contains(x) by {
        if d.end.contains(x) {
            let e = choose|e: int| 0 <= e < d.end.len() && d.end[e] == x;
            assert(d.end[e] < d.size);
            assert(d.is_accept(x as int));
            assert(target[0] == x);
        }
        if target.contains(x) {
            let e = choose|e: int| 0 <= e < d.end.len() && #[trigger] d.end[e] == 0;
            assert(d.end[e] == x);
        }
    }
    lemma_sorted_states_unique(d.end, target);
    assert(d.size * d.alphabet == 2 * m.alphabet) by (nonlinear_arith)
        requires
            d.size == 2,
            d.alphabet == m.alphabet,
    ;
}

} // verus!
