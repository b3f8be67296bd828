//! A minimization is as small as a deterministic automaton for its language
//! can be.

use crate::automaton::{states_sorted, AutomatonModel};
use crate::counting::lemma_distinct_ints_bound;
use crate::det_unique::lemma_determinization_wf;
use crate::hopcroft_proof::{
    apart, differs, justified, lemma_differs_cases, lemma_edge_range, step_differs,
};
use crate::laws::{
    lemma_determinization_keeps_language, lemma_determinization_reachable, lemma_no_eps_closure,
};
use crate::min_laws::{
    identity, image_set, lemma_minimization_is_minimal, lemma_minimization_keeps_language,
    lemma_quotient_edge_up, lemma_quotient_run, lemma_quotient_wf,
};
use crate::quotient::{accept_seq, is_congruence, is_quotient, minimizes};
use crate::refinement::is_numbering;
use crate::subset_construction::determinizes;
use crate::unique::lemma_one_target;
use vstd::prelude::*;

verus! {

/// A well-formed deterministic automaton with one start state and a
/// transition for every state and symbol.
pub open spec fn is_complete_dfa(x: AutomatonModel) -> bool {
    x.wf() && x.deterministic() && x.complete() && x.start.len() == 1
}

/// Some word leads to the state `q` and to no other.
pub open spec fn reached(x: AutomatonModel, q: int) -> bool {
    exists|w: Seq<int>| x.valid_word(w) && #[trigger] x.run(w) == set![q]
}

/// Every state is reached by some word.
pub open spec fn all_reached(x: AutomatonModel) -> bool {
    forall|q: int| 0 <= q < x.size ==> #[trigger] reached(x, q)
}

/// A word that leads to the state `q`.
pub open spec fn word_to(x: AutomatonModel, q: int) -> Seq<int> {
    choose|w: Seq<int>| x.valid_word(w) && #[trigger] x.run(w) == set![q]
}

/// The state to which the word `w` leads.
pub open spec fn state_after(x: AutomatonModel, w: Seq<int>) -> int {
    choose|q: int| x.run(w) == set![q]
}

/// From the state `q`, the word `z` leads to an accepting state.
pub open spec fn accepts_from(x: AutomatonModel, q: int, z: Seq<int>) -> bool
    decreases z.len(),
{
    if z.len() == 0 {
        x.is_accept(q)
    } else {
        exists|q2: int| #[trigger] x.edge(q, z[0], q2) && accepts_from(x, q2, z.drop_first())
    }
}

/// The two automata accept the same words over their alphabet.
pub open spec fn same_language(x: AutomatonModel, y: AutomatonModel) -> bool {
    &&& x.alphabet == y.alphabet
    &&& forall|w: Seq<int>| x.valid_word(w) ==> #[trigger] x.accepts(w) == y.accepts(w)
}

/// In a complete deterministic automaton a word leads to exactly one state.
pub proof fn lemma_dfa_run(x: AutomatonModel, w: Seq<int>)
    requires
        is_complete_dfa(x),
        x.valid_word(w),
    ensures
        0 <= state_after(x, w) < x.size,
        x.run(w) == set![state_after(x, w)],
    decreases w.len(),
{
    if w.len() == 0 {
        let s = x.start_set();
        let s0 = x.start[0] as int;
        assert(x.is_start(s0));
        assert forall|q: int| s.contains(q) implies q == s0 by {
            let i = choose|i: int| 0 <= i < x.start.len() && #[trigger] x.start[i] == q;
        }
        assert(s =~= set![s0]);
        lemma_no_eps_closure(x, s);
        assert(x.run(w) == set![s0]);
    } else {
        let prefix = w.drop_last();
        let a = w.last();
        assert(1 <= w[w.len() - 1] <= x.alphabet);
        assert(x.valid_word(prefix)) by {
            assert forall|i: int| 0 <= i < prefix.len() implies 1 <= #[trigger] prefix[i]
                <= x.alphabet by {
                assert(prefix[i] == w[i]);
            }
        }
        lemma_dfa_run(x, prefix);
        let p = state_after(x, prefix);
        assert(x.has_out(p, a));
        let q = choose|q: int| x.edge(p, a, q);
        lemma_edge_range(x, p, a, q);
        let moved = x.moved(set![p], a);
        assert(set![p].contains(p));
        assert(moved.contains(q));
        assert forall|y: int| moved.contains(y) implies y == q by {
            let p2 = choose|p2: int| set![p].contains(p2) && #[trigger] x.edge(p2, a, y);
            lemma_one_target(x, p, a, q, y);
        }
        assert(moved =~= set![q]);
        lemma_no_eps_closure(x, moved);
        assert(x.run(w) == set![q]);
    }
    let q = choose|q: int| x.run(w) == set![q];
    assert(set![q].contains(q));
    x.lemma_run_in_range(w);
}

/// One more symbol leads along the transition on that symbol.
pub proof fn lemma_dfa_step(x: AutomatonModel, w: Seq<int>, a: int)
    requires
        is_complete_dfa(x),
        x.valid_word(w),
        1 <= a <= x.alphabet,
    ensures
        x.valid_word(w.push(a)),
        x.edge(state_after(x, w), a, state_after(x, w.push(a))),
{
    let w2 = w.push(a);
    assert(x.valid_word(w2)) by {
        assert forall|i: int| 0 <= i < w2.len() implies 1 <= #[trigger] w2[i] <= x.alphabet by {
            if i < w.len() {
                assert(w2[i] == w[i]);
            }
        }
    }
    lemma_dfa_run(x, w);
    lemma_dfa_run(x, w2);
    let p = state_after(x, w);
    let q = state_after(x, w2);
    assert(w2.drop_last() =~= w);
    assert(w2.last() == a);
    lemma_no_eps_closure(x, x.moved(set![p], a));
    assert(x.moved(set![p], a).contains(q)) by {
        assert(set![q].contains(q));
    }
    let p2 = choose|p2: int| set![p].contains(p2) && #[trigger] x.edge(p2, a, q);
}

/// A word is accepted when its second part is accepted from the state to
/// which its first part leads.
pub proof fn lemma_run_concat(x: AutomatonModel, w: Seq<int>, z: Seq<int>)
    requires
        is_complete_dfa(x),
        x.valid_word(w),
        x.valid_word(z),
    ensures
        x.valid_word(w + z),
        x.accepts(w + z) == accepts_from(x, state_after(x, w), z),
    decreases z.len(),
{
    let all = w + z;
    assert(x.valid_word(all)) by {
        assert forall|i: int| 0 <= i < all.len() implies 1 <= #[trigger] all[i] <= x.alphabet by {
            if i < w.len() {
                assert(all[i] == w[i]);
            } else {
                assert(all[i] == z[i - w.len()]);
            }
        }
    }
    lemma_dfa_run(x, w);
    let q = state_after(x, w);
    if z.len() == 0 {
        assert(all =~= w);
        assert(set![q].contains(q));
        if x.accepts(w) {
            let e = choose|e: int| x.run(w).contains(e) && #[trigger] x.is_accept(e);
            assert(e == q);
        }
    } else {
        let a = z[0];
        let rest = z.drop_first();
        let w2 = w.push(a);
        lemma_dfa_step(x, w, a);
        assert(x.valid_word(rest)) by {
            assert forall|i: int| 0 <= i < rest.len() implies 1 <= #[trigger] rest[i] <= x.alphabet by {
                assert(rest[i] == z[i + 1]);
            }
        }
        assert(w2 + rest =~= all);
        lemma_run_concat(x, w2, rest);
        let q2 = state_after(x, w2);
        if accepts_from(x, q, z) {
            let q3 = choose|q3: int| #[trigger] x.edge(q, z[0], q3) && accepts_from(x, q3, rest);
            lemma_one_target(x, q, a, q2, q3);
        }
        if accepts_from(x, q2, rest) {
            assert(x.edge(q, z[0], q2) && accepts_from(x, q2, z.drop_first()));
        }
    }
}

/// In a complete deterministic automaton, states that behave differently are
/// told apart by a word.
pub proof fn lemma_distinguishing_word(x: AutomatonModel, p: int, q: int, k: nat) -> (z: Seq<int>)
    requires
        is_complete_dfa(x),
        0 <= p < x.size,
        0 <= q < x.size,
        differs(x, p, q, k),
    ensures
        x.valid_word(z),
        accepts_from(x, p, z) != accepts_from(x, q, z),
    decreases k,
{
    if k == 0 {
        Seq::empty()
    } else {
        let k1 = (k - 1) as nat;
        if differs(x, p, q, k1) {
            lemma_distinguishing_word(x, p, q, k1)
        } else {
            lemma_differs_cases(x, p, q, k);
            let c = choose|c: int| 1 <= c <= x.alphabet && #[trigger] step_differs(x, p, q, c, k1);
            assert(x.has_out(p, c));
            assert(x.has_out(q, c));
            let (p2, q2) = choose|p2: int, q2: int|
                #[trigger] x.edge(p, c, p2) && #[trigger] x.edge(q, c, q2) && differs(x, p2, q2, k1);
            lemma_edge_range(x, p, c, p2);
            lemma_edge_range(x, q, c, q2);
            let rest = lemma_distinguishing_word(x, p2, q2, k1);
            let z = seq![c] + rest;
            assert(z[0] == c);
            assert(z.drop_first() =~= rest);
            assert(x.valid_word(z)) by {
                assert forall|i: int| 0 <= i < z.len() implies 1 <= #[trigger] z[i] <= x.alphabet by {
                    if i > 0 {
                        assert(z[i] == rest[i - 1]);
                    }
                }
            }
            if accepts_from(x, p, z) {
                let p3 = choose|p3: int| #[trigger] x.edge(p, z[0], p3) && accepts_from(x, p3, rest);
                lemma_one_target(x, p, c, p2, p3);
            }
            if accepts_from(x, q, z) {
                let q3 = choose|q3: int| #[trigger] x.edge(q, z[0], q3) && accepts_from(x, q3, rest);
                lemma_one_target(x, q, c, q2, q3);
            }
            if accepts_from(x, p2, rest) {
                assert(x.edge(p, z[0], p2) && accepts_from(x, p2, z.drop_first()));
            }
            if accepts_from(x, q2, rest) {
                assert(x.edge(q, z[0], q2) && accepts_from(x, q2, z.drop_first()));
            }
            z
        }
    }
}

/// For each state of `r`, the state of `d` to which a word leads that leads
/// to the state of `r`.
pub open spec fn embedding(r: AutomatonModel, d: AutomatonModel) -> Seq<int> {
    Seq::new(r.size, |b: int| state_after(d, word_to(r, b)))
}

/// The chosen word for a state leads to that state.
pub proof fn lemma_word_to(r: AutomatonModel, b: int)
    requires
        is_complete_dfa(r),
        0 <= b < r.size,
        reached(r, b),
    ensures
        r.valid_word(word_to(r, b)),
        state_after(r, word_to(r, b)) == b,
{
    let w = word_to(r, b);
    lemma_dfa_run(r, w);
    assert(set![state_after(r, w)].contains(state_after(r, w)));
}

/// Words that lead to states of `r` that behave differently lead to
/// different states of `d`.
pub proof fn lemma_words_apart(
    r: AutomatonModel,
    d: AutomatonModel,
    w1: Seq<int>,
    w2: Seq<int>,
)
    requires
        is_complete_dfa(r),
        is_complete_dfa(d),
        same_language(r, d),
        justified(r, identity(r.size as int)),
        r.valid_word(w1),
        r.valid_word(w2),
        state_after(r, w1) != state_after(r, w2),
    ensures
        state_after(d, w1) != state_after(d, w2),
{
    lemma_dfa_run(r, w1);
    lemma_dfa_run(r, w2);
    let b1 = state_after(r, w1);
    let b2 = state_after(r, w2);
    assert(apart(identity(r.size as int), b1, b2));
    let k = choose|k: nat| differs(r, b1, b2, k);
    let z = lemma_distinguishing_word(r, b1, b2, k);
    lemma_run_concat(r, w1, z);
    lemma_run_concat(r, w2, z);
    lemma_run_concat(d, w1, z);
    lemma_run_concat(d, w2, z);
    assert(r.accepts(w1 + z) == d.accepts(w1 + z));
    assert(r.accepts(w2 + z) == d.accepts(w2 + z));
}

/// The embedding sends different states of `r` to different states of `d`.
pub proof fn lemma_embedding(r: AutomatonModel, d: AutomatonModel)
    requires
        is_complete_dfa(r),
        is_complete_dfa(d),
        all_reached(r),
        justified(r, identity(r.size as int)),
        same_language(r, d),
    ensures
        embedding(r, d).len() == r.size,
        forall|b: int| 0 <= b < r.size ==> 0 <= #[trigger] embedding(r, d)[b] < d.size,
        forall|b1: int, b2: int|
            0 <= b1 < b2 < r.size ==> embedding(r, d)[b1] != embedding(r, d)[b2],
{
    let f = embedding(r, d);
    assert forall|b: int| 0 <= b < r.size implies 0 <= #[trigger] f[b] < d.size by {
        assert(reached(r, b));
        lemma_dfa_run(d, word_to(r, b));
    }
    assert forall|b1: int, b2: int| 0 <= b1 < b2 < r.size implies f[b1] != f[b2] by {
        assert(reached(r, b1));
        assert(reached(r, b2));
        lemma_word_to(r, b1);
        lemma_word_to(r, b2);
        lemma_words_apart(r, d, word_to(r, b1), word_to(r, b2));
    }
}

/// A complete deterministic automaton whose states are all reached and all
/// behave differently is no larger than any complete deterministic automaton
/// for the same language.
pub proof fn lemma_distinct_states_minimal(r: AutomatonModel, d: AutomatonModel)
    requires
        is_complete_dfa(r),
        is_complete_dfa(d),
        all_reached(r),
        justified(r, identity(r.size as int)),
        same_language(r, d),
    ensures
        r.size <= d.size,
{
    lemma_embedding(r, d);
    lemma_distinct_ints_bound(embedding(r, d), d.size as int);
}

/// `f` renames the states of `r` to those of `d`: it is one to one and onto,
/// and it keeps the start state, the accepting states and the transitions.
pub open spec fn is_renaming(r: AutomatonModel, d: AutomatonModel, f: Seq<int>) -> bool {
    &&& f.len() == r.size
    &&& forall|b: int| 0 <= b < r.size ==> 0 <= #[trigger] f[b] < d.size
    &&& forall|b1: int, b2: int| 0 <= b1 < b2 < r.size ==> f[b1] != f[b2]
    &&& forall|q: int| 0 <= q < d.size ==> #[trigger] f.contains(q)
    &&& f[r.start[0] as int] == d.start[0]
    &&& forall|b: int| 0 <= b < r.size ==> (r.is_accept(b) <==> d.is_accept(#[trigger] f[b]))
    &&& forall|b: int, a: int, b2: int|
        0 <= b < r.size && 0 <= b2 < r.size && 1 <= a <= r.alphabet ==> (#[trigger] r.edge(b, a, b2)
            <==> d.edge(f[b], a, f[b2]))
}

/// Different numbers below `n`, `n` of them, are all the numbers below `n`.
pub proof fn lemma_onto(f: Seq<int>, n: int, q: int)
    requires
        f.len() == n,
        forall|i: int| 0 <= i < f.len() ==> 0 <= #[trigger] f[i] < n,
        forall|i: int, j: int| 0 <= i < j < f.len() ==> f[i] != f[j],
        0 <= q < n,
    ensures
        f.contains(q),
{
    if !f.contains(q) {
        let g = Seq::new(
            n as nat,
            |i: int|
                if f[i] > q {
                    f[i] - 1
                } else {
                    f[i]
                },
        );
        assert forall|i: int| 0 <= i < g.len() implies 0 <= #[trigger] g[i] < n - 1 by {
            assert(0 <= f[i] < n);
            assert(f[i] != q);
        }
        assert forall|i: int, j: int| 0 <= i < j < g.len() implies g[i] != g[j] by {
            assert(f[i] != f[j]);
            assert(f[i] != q);
            assert(f[j] != q);
        }
        lemma_distinct_ints_bound(g, n - 1);
    }
}

/// A word leads, in `d`, to the image of the state to which it leads in `r`.
pub proof fn lemma_embedding_follows(r: AutomatonModel, d: AutomatonModel, w: Seq<int>)
    requires
        is_complete_dfa(r),
        is_complete_dfa(d),
        all_reached(r),
        justified(r, identity(r.size as int)),
        same_language(r, d),
        d.size == r.size,
        r.valid_word(w),
    ensures
        0 <= state_after(r, w) < r.size,
        state_after(d, w) == embedding(r, d)[state_after(r, w)],
{
    let f = embedding(r, d);
    lemma_embedding(r, d);
    lemma_dfa_run(r, w);
    lemma_dfa_run(d, w);
    let b = state_after(r, w);
    let p = state_after(d, w);
    lemma_onto(f, r.size as int, p);
    let b2 = choose|b2: int| 0 <= b2 < f.len() && f[b2] == p;
    if b2 != b {
        assert(reached(r, b2));
        lemma_word_to(r, b2);
        lemma_words_apart(r, d, w, word_to(r, b2));
    }
}

/// A complete deterministic automaton for the same language with as many
/// states is the same automaton but for the names of the states.
pub proof fn lemma_same_size_same_automaton(r: AutomatonModel, d: AutomatonModel)
    requires
        is_complete_dfa(r),
        is_complete_dfa(d),
        all_reached(r),
        justified(r, identity(r.size as int)),
        same_language(r, d),
        d.size == r.size,
    ensures
        is_renaming(r, d, embedding(r, d)),
{
    let f = embedding(r, d);
    lemma_embedding(r, d);
    assert forall|q: int| 0 <= q < d.size implies #[trigger] f.contains(q) by {
        lemma_onto(f, r.size as int, q);
    }
    let none = Seq::<int>::empty();
    assert(r.valid_word(none));
    lemma_embedding_follows(r, d, none);
    assert(state_after(r, none) == r.start[0]) by {
        lemma_dfa_run(r, none);
        let s = r.start_set();
        assert(r.is_start(r.start[0] as int));
        lemma_no_eps_closure(r, s);
        assert(r.run(none).contains(r.start[0] as int));
    }
    assert(state_after(d, none) == d.start[0]) by {
        lemma_dfa_run(d, none);
        let s = d.start_set();
        assert(d.is_start(d.start[0] as int));
        lemma_no_eps_closure(d, s);
        assert(d.run(none).contains(d.start[0] as int));
    }
    assert forall|b: int| 0 <= b < r.size implies (r.is_accept(b) <==> d.is_accept(
        #[trigger] f[b],
    )) by {
        assert(reached(r, b));
        lemma_word_to(r, b);
        let w = word_to(r, b);
        lemma_run_concat(r, w, none);
        lemma_run_concat(d, w, none);
        assert(w + none =~= w);
        assert(r.accepts(w) == d.accepts(w));
    }
    assert forall|b: int, a: int, b2: int|
        0 <= b < r.size && 0 <= b2 < r.size && 1 <= a <= r.alphabet implies (#[trigger] r.edge(
        b,
        a,
        b2,
    ) <==> d.edge(f[b], a, f[b2])) by {
        assert(reached(r, b));
        lemma_word_to(r, b);
        let w = word_to(r, b);
        lemma_dfa_step(r, w, a);
        lemma_dfa_step(d, w, a);
        lemma_embedding_follows(r, d, w.push(a));
        let b3 = state_after(r, w.push(a));
        assert(r.edge(b, a, b3));
        assert(d.edge(f[b], a, f[b3]));
        if r.edge(b, a, b2) {
            lemma_one_target(r, b, a, b2, b3);
        }
        if d.edge(f[b], a, f[b2]) {
            lemma_one_target(d, f[b], a, f[b2], f[b3]);
            if b2 < b3 {
                assert(f[b2] != f[b3]);
            }
            if b3 < b2 {
                assert(f[b3] != f[b2]);
            }
        }
    }
}

/// A strictly increasing list whose items are all the same has one item at most.
proof fn lemma_single(s: Seq<usize>, x: usize)
    requires
        states_sorted(s),
        forall|i: int| 0 <= i < s.len() ==> s[i] == x,
    ensures
        s.len() <= 1,
{
    if s.len() > 1 {
        assert(s[0] < s[1]);
    }
}

/// The minimization of a complete deterministic automaton whose states are
/// all reached is again such an automaton.
pub proof fn lemma_minimization_complete(m: AutomatonModel, r: AutomatonModel)
    requires
        is_complete_dfa(m),
        all_reached(m),
        minimizes(m, r),
    ensures
        is_complete_dfa(r),
        all_reached(r),
{
    let (fin, count) = choose|fin: Seq<usize>, count: int| #[trigger]
        is_congruence(m, fin, count) && is_quotient(m, fin, count, r);
    let rep = choose|rep: Seq<int>| is_numbering(accept_seq(m), fin, count, rep);
    lemma_quotient_wf(m, fin, count, r);
    assert forall|b: int, a: int| 0 <= b < r.size && 1 <= a <= r.alphabet implies #[trigger] r.has_out(
        b,
        a,
    ) by {
        let s = rep[b];
        assert(fin[s] == b);
        assert(m.has_out(s, a));
        let q = choose|q: int| m.edge(s, a, q);
        lemma_quotient_edge_up(m, fin, count, r, s, a, q);
    }
    let s0 = m.start[0];
    assert(s0 < m.size);
    assert(r.start.contains(fin[m.start[0] as int]));
    assert forall|i: int| 0 <= i < r.start.len() implies r.start[i] == fin[s0 as int] by {
        assert(r.start.contains(r.start[i]));
        let j = choose|j: int| 0 <= j < m.start.len() && r.start[i] == fin[#[trigger] m.start[j] as int];
    }
    lemma_single(r.start, fin[s0 as int]);
    assert forall|b: int| 0 <= b < r.size implies #[trigger] reached(r, b) by {
        let s = rep[b];
        assert(fin[s] == b);
        assert(reached(m, s));
        let w = word_to(m, s);
        lemma_quotient_run(m, fin, count, r, w);
        assert(set![s].contains(s));
        assert forall|x: int| image_set(fin, set![s]).contains(x) <==> x == b by {
            if image_set(fin, set![s]).contains(x) {
                let q = choose|q: int|
                    0 <= q < fin.len() && set![s].contains(q) && #[trigger] fin[q] == x;
            }
        }
        assert(r.run(w) =~= set![b]);
    }
}

/// The minimization of a complete deterministic automaton whose states are
/// all reached has no more states than any complete deterministic automaton
/// that accepts the same words.
pub proof fn lemma_minimization_minimal(m: AutomatonModel, r: AutomatonModel, d: AutomatonModel)
    requires
        is_complete_dfa(m),
        all_reached(m),
        minimizes(m, r),
        is_complete_dfa(d),
        same_language(m, d),
    ensures
        r.size <= d.size,
{
    lemma_minimization_complete(m, r);
    lemma_minimization_is_minimal(m, r);
    let (fin, count) = choose|fin: Seq<usize>, count: int| #[trigger]
        is_congruence(m, fin, count) && is_quotient(m, fin, count, r);
    assert forall|w: Seq<int>| r.valid_word(w) implies #[trigger] r.accepts(w) == d.accepts(w) by {
        lemma_minimization_keeps_language(m, r, w);
        assert(m.accepts(w) == d.accepts(w));
    }
    lemma_distinct_states_minimal(r, d);
}

/// The minimization of a complete deterministic automaton whose states are
/// all reached is the one smallest automaton for its language: a complete
/// deterministic automaton that accepts the same words and has as many
/// states is the minimization but for the names of its states.
pub proof fn lemma_minimization_unique_up_to_renaming(
    m: AutomatonModel,
    r: AutomatonModel,
    d: AutomatonModel,
)
    requires
        is_complete_dfa(m),
        all_reached(m),
        minimizes(m, r),
        is_complete_dfa(d),
        same_language(m, d),
        d.size == r.size,
    ensures
        is_renaming(r, d, embedding(r, d)),
{
    lemma_minimization_complete(m, r);
    lemma_minimization_is_minimal(m, r);
    let (fin, count) = choose|fin: Seq<usize>, count: int| #[trigger]
        is_congruence(m, fin, count) && is_quotient(m, fin, count, r);
    assert forall|w: Seq<int>| r.valid_word(w) implies #[trigger] r.accepts(w) == d.accepts(w) by {
        lemma_minimization_keeps_language(m, r, w);
        assert(m.accepts(w) == d.accepts(w));
    }
    lemma_same_size_same_automaton(r, d);
}

/// Determinizing and then minimizing gives an automaton with no more states
/// than any complete deterministic automaton for the language of the original.
pub proof fn lemma_pipeline_minimal(
    m: AutomatonModel,
    d0: AutomatonModel,
    r: AutomatonModel,
    d: AutomatonModel,
)
    requires
        m.wf(),
        determinizes(m, d0),
        d0.size < usize::MAX,
        minimizes(d0, r),
        is_complete_dfa(d),
        d.alphabet == m.alphabet,
        forall|w: Seq<int>| m.valid_word(w) ==> #[trigger] m.accepts(w) == d.accepts(w),
    ensures
        r.size <= d.size,
{
    lemma_determinization_wf(m, d0);
    assert forall|q: int| 0 <= q < d0.size implies #[trigger] reached(d0, q) by {
        lemma_determinization_reachable(m, d0, q);
        let w = choose|w: Seq<int>| m.valid_word(w) && #[trigger] d0.run(w) == set![q];
        assert(d0.valid_word(w));
    }
    assert forall|w: Seq<int>| d0.valid_word(w) implies #[trigger] d0.accepts(w) == d.accepts(w) by {
        lemma_determinization_keeps_language(m, d0, w);
        assert(m.accepts(w) == d.accepts(w));
    }
    lemma_minimization_minimal(d0, r, d);
}

/// Determinizing and then minimizing gives the one smallest automaton for the
/// language of the original: a complete deterministic automaton for that
/// language with as many states is the result but for the names of its states.
pub proof fn lemma_pipeline_unique_up_to_renaming(
    m: AutomatonModel,
    d0: AutomatonModel,
    r: AutomatonModel,
    d: AutomatonModel,
)
    requires
        m.wf(),
        determinizes(m, d0),
        d0.size < usize::MAX,
        minimizes(d0, r),
        is_complete_dfa(d),
        d.alphabet == m.alphabet,
        forall|w: Seq<int>| m.valid_word(w) ==> #[trigger] m.accepts(w) == d.accepts(w),
        d.size == r.size,
    ensures
        is_renaming(r, d, embedding(r, d)),
{
    lemma_determinization_wf(m, d0);
    assert forall|q: int| 0 <= q < d0.size implies #[trigger] reached(d0, q) by {
        lemma_determinization_reachable(m, d0, q);
        let w = choose|w: Seq<int>| m.valid_word(w) && #[trigger] d0.run(w) == set![q];
        assert(d0.valid_word(w));
    }
    assert forall|w: Seq<int>| d0.valid_word(w) implies #[trigger] d0.accepts(w) == d.accepts(w) by {
        lemma_determinization_keeps_language(m, d0, w);
        assert(m.accepts(w) == d.accepts(w));
    }
    lemma_minimization_unique_up_to_renaming(d0, r, d);
}

} // verus!
