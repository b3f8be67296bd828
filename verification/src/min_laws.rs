//! What minimization promises: the language stays, and the result is the
//! same however it is reached.

use crate::automaton::{AutomatonModel, AutomatonType};
use crate::hopcroft_proof::{
    agree, apart, differs, distinguishable, lemma_differs_cases, lemma_edge_range,
    lemma_step_differs, reaches, step_differs,
};
use crate::counting::lemma_distinct_ints_bound;
use crate::laws::{is_minimized, lemma_no_eps_closure};
use crate::quotient::{accept_seq, image, is_congruence, is_quotient, minimizes};
use crate::refinement::{comes_before, is_numbering};
use crate::unique::{lemma_minimization_unique, lemma_one_target};
use vstd::prelude::*;

verus! {

/// The blocks of the states of `s`.
pub open spec fn image_set(fin: Seq<usize>, s: Set<int>) -> Set<int> {
    Set::new(|b: int| exists|q: int| 0 <= q < fin.len() && s.contains(q) && #[trigger] fin[q] == b)
}

/// The automaton of the blocks has a transition for every transition of the
/// original, and only such.
pub proof fn lemma_quotient_edge(
    m: AutomatonModel,
    fin: Seq<usize>,
    count: int,
    r: AutomatonModel,
    b: int,
    a: int,
    b2: int,
)
    requires
        m.wf(),
        fin.len() == m.size,
        is_quotient(m, fin, count, r),
    ensures
        r.edge(b, a, b2) <==> exists|i: int|
            0 <= i < m.table.len() && fin[(#[trigger] m.table[i]).0 as int] == b && m.table[i].1 == a
                && fin[m.table[i].2 as int] == b2,
{
    if r.edge(b, a, b2) {
        let k = choose|k: int|
            0 <= k < r.table.len() && (#[trigger] r.table[k]).0 == b && r.table[k].1 == a
                && r.table[k].2 == b2;
        assert(r.table.contains(r.table[k]));
        let i = choose|i: int|
            0 <= i < m.table.len() && r.table[k] == image(fin, #[trigger] m.table[i]);
        assert(fin[m.table[i].0 as int] == b);
    }
    if exists|i: int|
        0 <= i < m.table.len() && fin[(#[trigger] m.table[i]).0 as int] == b && m.table[i].1 == a
            && fin[m.table[i].2 as int] == b2 {
        let i = choose|i: int|
            0 <= i < m.table.len() && fin[(#[trigger] m.table[i]).0 as int] == b && m.table[i].1 == a
                && fin[m.table[i].2 as int] == b2;
        let x = image(fin, m.table[i]);
        assert(r.table.contains(x));
        let k = choose|k: int| 0 <= k < r.table.len() && r.table[k] == x;
        assert(r.table[k].0 == b && r.table[k].1 == a && r.table[k].2 == b2);
    }
}

/// A state of the original with a transition gives its block a transition.
pub proof fn lemma_quotient_edge_up(
    m: AutomatonModel,
    fin: Seq<usize>,
    count: int,
    r: AutomatonModel,
    p: int,
    a: int,
    q: int,
)
    requires
        m.wf(),
        fin.len() == m.size,
        is_quotient(m, fin, count, r),
        m.edge(p, a, q),
    ensures
        r.edge(fin[p] as int, a, fin[q] as int),
{
    let i = choose|i: int|
        0 <= i < m.table.len() && (#[trigger] m.table[i]).0 == p && m.table[i].1 == a
            && m.table[i].2 == q;
    assert(fin[m.table[i].0 as int] == fin[p]);
    lemma_quotient_edge(m, fin, count, r, fin[p] as int, a, fin[q] as int);
}

/// A transition of a block is a transition of each of its states.
pub proof fn lemma_quotient_edge_down(
    m: AutomatonModel,
    fin: Seq<usize>,
    count: int,
    r: AutomatonModel,
    p: int,
    a: int,
    b2: int,
) -> (q: int)
    requires
        m.wf(),
        is_congruence(m, fin, count),
        is_quotient(m, fin, count, r),
        0 <= p < m.size,
        1 <= a <= m.alphabet,
        r.edge(fin[p] as int, a, b2),
    ensures
        m.edge(p, a, q),
        fin[q] == b2,
        0 <= q < m.size,
{
    lemma_quotient_edge(m, fin, count, r, fin[p] as int, a, b2);
    let i = choose|i: int|
        0 <= i < m.table.len() && fin[(#[trigger] m.table[i]).0 as int] == fin[p] && m.table[i].1
            == a && fin[m.table[i].2 as int] == b2;
    let p2 = m.table[i].0 as int;
    let q2 = m.table[i].2 as int;
    assert(m.edge(p2, a, q2));
    assert(agree(m, fin, p2, p, a));
    assert(reaches(m, fin, p2, a, b2));
    assert(reaches(m, fin, p, a, b2));
    let q = choose|q: int| #[trigger] m.edge(p, a, q) && fin[q] == b2;
    lemma_edge_range(m, p, a, q);
    q
}

/// The automaton of the blocks has no transition on the empty word.
pub proof fn lemma_quotient_no_eps(m: AutomatonModel, fin: Seq<usize>, count: int, r: AutomatonModel)
    requires
        m.deterministic(),
        is_quotient(m, fin, count, r),
    ensures
        forall|k: int| 0 <= k < r.table.len() ==> (#[trigger] r.table[k]).1 != 0,
{
    assert forall|k: int| 0 <= k < r.table.len() implies (#[trigger] r.table[k]).1 != 0 by {
        assert(r.table.contains(r.table[k]));
        let i = choose|i: int|
            0 <= i < m.table.len() && r.table[k] == image(fin, #[trigger] m.table[i]);
        assert(m.table[i].1 != 0);
    }
}

/// A word leads, in the automaton of the blocks, to the blocks of the states
/// to which it leads in the original.
pub proof fn lemma_quotient_run(
    m: AutomatonModel,
    fin: Seq<usize>,
    count: int,
    r: AutomatonModel,
    w: Seq<int>,
)
    requires
        m.wf(),
        m.deterministic(),
        is_congruence(m, fin, count),
        is_quotient(m, fin, count, r),
        m.valid_word(w),
    ensures
        r.run(w) == image_set(fin, m.run(w)),
    decreases w.len(),
{
    lemma_quotient_no_eps(m, fin, count, r);
    m.lemma_run_in_range(w);
    if w.len() == 0 {
        let s = m.start_set();
        lemma_no_eps_closure(m, s);
        lemma_no_eps_closure(r, r.start_set());
        assert forall|b: int| r.start_set().contains(b) <==> image_set(fin, s).contains(b) by {
            if r.is_start(b) {
                let k = choose|k: int| 0 <= k < r.start.len() && #[trigger] r.start[k] == b;
                assert(r.start.contains(r.start[k]));
                let i = choose|i: int|
                    0 <= i < m.start.len() && r.start[k] == fin[#[trigger] m.start[i] as int];
                assert(m.is_start(m.start[i] as int));
                assert(fin[m.start[i] as int] == b);
            }
            if image_set(fin, s).contains(b) {
                let q = choose|q: int| 0 <= q < fin.len() && s.contains(q) && #[trigger] fin[q] == b;
                let i = choose|i: int| 0 <= i < m.start.len() && #[trigger] m.start[i] == q;
                assert(r.start.contains(fin[m.start[i] as int]));
                let k = choose|k: int| 0 <= k < r.start.len() && r.start[k] == fin[q];
                assert(r.start[k] == b);
            }
        }
        assert(r.start_set() =~= image_set(fin, s));
    } else {
        let prefix = w.drop_last();
        let a = w.last();
        assert(1 <= w[w.len() - 1] <= m.alphabet);
        assert(m.valid_word(prefix)) by {
            assert forall|i: int| 0 <= i < prefix.len() implies 1 <= #[trigger] prefix[i]
                <= m.alphabet by {
                assert(prefix[i] == w[i]);
            }
        }
        lemma_quotient_run(m, fin, count, r, prefix);
        m.lemma_run_in_range(prefix);
        let s = m.run(prefix);
        let lhs = r.moved(image_set(fin, s), a);
        let rhs = image_set(fin, m.moved(s, a));
        assert forall|b2: int| lhs.contains(b2) <==> rhs.contains(b2) by {
            if lhs.contains(b2) {
                let b = choose|b: int| image_set(fin, s).contains(b) && #[trigger] r.edge(b, a, b2);
                let p = choose|p: int| 0 <= p < fin.len() && s.contains(p) && #[trigger] fin[p] == b;
                let q = lemma_quotient_edge_down(m, fin, count, r, p, a, b2);
                assert(m.moved(s, a).contains(q));
            }
            if rhs.contains(b2) {
                let q = choose|q: int|
                    0 <= q < fin.len() && m.moved(s, a).contains(q) && #[trigger] fin[q] == b2;
                let p = choose|p: int| s.contains(p) && #[trigger] m.edge(p, a, q);
                lemma_quotient_edge_up(m, fin, count, r, p, a, q);
                assert(image_set(fin, s).contains(fin[p] as int));
            }
        }
        assert(lhs =~= rhs);
        lemma_no_eps_closure(m, m.moved(s, a));
        lemma_no_eps_closure(r, lhs);
    }
}

/// Minimization keeps the language: the minimized automaton accepts a word
/// over the alphabet exactly when the original accepts it.
pub proof fn lemma_minimization_keeps_language(m: AutomatonModel, r: AutomatonModel, w: Seq<int>)
    requires
        m.wf(),
        m.deterministic(),
        minimizes(m, r),
        m.valid_word(w),
    ensures
        r.accepts(w) == m.accepts(w),
{
    let (fin, count) = choose|fin: Seq<usize>, count: int| #[trigger]
        is_congruence(m, fin, count) && is_quotient(m, fin, count, r);
    lemma_quotient_run(m, fin, count, r, w);
    m.lemma_run_in_range(w);
    let s = m.run(w);
    if r.accepts(w) {
        let b = choose|b: int| r.run(w).contains(b) && #[trigger] r.is_accept(b);
        let k = choose|k: int| 0 <= k < r.end.len() && #[trigger] r.end[k] == b;
        assert(r.end.contains(r.end[k]));
        let i = choose|i: int| 0 <= i < m.end.len() && r.end[k] == fin[#[trigger] m.end[i] as int];
        let e = m.end[i] as int;
        assert(m.is_accept(e));
        let q = choose|q: int| 0 <= q < fin.len() && s.contains(q) && #[trigger] fin[q] == b;
        assert(fin[q] == fin[e]);
        assert(m.is_accept(q));
    }
    if m.accepts(w) {
        let q = choose|q: int| s.contains(q) && #[trigger] m.is_accept(q);
        let i = choose|i: int| 0 <= i < m.end.len() && #[trigger] m.end[i] == q;
        assert(r.end.contains(fin[m.end[i] as int]));
        let k = choose|k: int| 0 <= k < r.end.len() && r.end[k] == fin[q];
        assert(r.is_accept(fin[q] as int));
        assert(image_set(fin, s).contains(fin[q] as int));
    }
}

/// A block is accepting exactly when its states are.
pub proof fn lemma_quotient_accept(
    m: AutomatonModel,
    fin: Seq<usize>,
    count: int,
    r: AutomatonModel,
    q: int,
)
    requires
        m.wf(),
        is_congruence(m, fin, count),
        is_quotient(m, fin, count, r),
        0 <= q < m.size,
    ensures
        r.is_accept(fin[q] as int) <==> m.is_accept(q),
{
    if r.is_accept(fin[q] as int) {
        let k = choose|k: int| 0 <= k < r.end.len() && #[trigger] r.end[k] == fin[q];
        assert(r.end.contains(r.end[k]));
        let i = choose|i: int| 0 <= i < m.end.len() && r.end[k] == fin[#[trigger] m.end[i] as int];
        let e = m.end[i] as int;
        assert(m.is_accept(e));
        assert(fin[q] == fin[e]);
    }
    if m.is_accept(q) {
        let i = choose|i: int| 0 <= i < m.end.len() && #[trigger] m.end[i] == q;
        assert(r.end.contains(fin[m.end[i] as int]));
        let k = choose|k: int| 0 <= k < r.end.len() && r.end[k] == fin[q];
        assert(r.end[k] == fin[q]);
    }
}

/// The automaton of the blocks of a deterministic automaton is well formed
/// and deterministic.
pub proof fn lemma_quotient_wf(m: AutomatonModel, fin: Seq<usize>, count: int, r: AutomatonModel)
    requires
        m.wf(),
        m.deterministic(),
        is_congruence(m, fin, count),
        is_quotient(m, fin, count, r),
    ensures
        r.wf(),
        r.deterministic(),
        r.size <= m.size,
{
    let rep = choose|rep: Seq<int>| is_numbering(accept_seq(m), fin, count, rep);
    assert forall|i: int, j: int| 0 <= i < j < rep.len() implies rep[i] != rep[j] by {
        assert(fin[rep[i]] == i);
        assert(fin[rep[j]] == j);
    }
    lemma_distinct_ints_bound(rep, m.size as int);
    lemma_quotient_no_eps(m, fin, count, r);
    assert forall|k: int| 0 <= k < r.table.len() implies (#[trigger] r.table[k]).0 < r.size
        && r.table[k].1 <= r.alphabet && r.table[k].2 < r.size by {
        assert(r.table.contains(r.table[k]));
        let i = choose|i: int|
            0 <= i < m.table.len() && r.table[k] == image(fin, #[trigger] m.table[i]);
        assert(m.table[i].0 < m.size && m.table[i].2 < m.size);
    }
    assert forall|k: int| 0 <= k < r.start.len() implies #[trigger] r.start[k] < r.size by {
        assert(r.start.contains(r.start[k]));
        let i = choose|i: int|
            0 <= i < m.start.len() && r.start[k] == fin[#[trigger] m.start[i] as int];
        assert(m.start[i] < m.size);
    }
    assert forall|k: int| 0 <= k < r.end.len() implies #[trigger] r.end[k] < r.size by {
        assert(r.end.contains(r.end[k]));
        let i = choose|i: int| 0 <= i < m.end.len() && r.end[k] == fin[#[trigger] m.end[i] as int];
        assert(m.end[i] < m.size);
    }
    assert forall|i: int, j: int|
        0 <= i < r.table.len() && 0 <= j < r.table.len() && (#[trigger] r.table[i]).0 == (
        #[trigger] r.table[j]).0 && r.table[i].1 == r.table[j].1 implies r.table[i].2
        == r.table[j].2 by {
        let b = r.table[i].0 as int;
        let a = r.table[i].1 as int;
        assert(r.edge(b, a, r.table[i].2 as int));
        assert(r.edge(b, a, r.table[j].2 as int));
        assert(fin[rep[b]] == b);
        let q1 = lemma_quotient_edge_down(m, fin, count, r, rep[b], a, r.table[i].2 as int);
        let q2 = lemma_quotient_edge_down(m, fin, count, r, rep[b], a, r.table[j].2 as int);
        lemma_one_target(m, rep[b], a, q1, q2);
    }
}

/// States that behave differently are in blocks that behave differently.
pub proof fn lemma_quotient_differs(
    m: AutomatonModel,
    fin: Seq<usize>,
    count: int,
    r: AutomatonModel,
    s: int,
    t: int,
    k: nat,
)
    requires
        m.wf(),
        m.deterministic(),
        is_congruence(m, fin, count),
        is_quotient(m, fin, count, r),
        0 <= s < m.size,
        0 <= t < m.size,
        differs(m, s, t, k),
    ensures
        differs(r, fin[s] as int, fin[t] as int, k),
    decreases k,
{
    let bs = fin[s] as int;
    let bt = fin[t] as int;
    if k == 0 {
        lemma_quotient_accept(m, fin, count, r, s);
        lemma_quotient_accept(m, fin, count, r, t);
    } else {
        let k1 = (k - 1) as nat;
        if differs(m, s, t, k1) {
            lemma_quotient_differs(m, fin, count, r, s, t, k1);
        } else {
            lemma_differs_cases(m, s, t, k);
            let c = choose|c: int| 1 <= c <= m.alphabet && #[trigger] step_differs(m, s, t, c, k1);
            if m.has_out(s, c) != m.has_out(t, c) {
                if m.has_out(s, c) {
                    let x = choose|x: int| m.edge(s, c, x);
                    lemma_quotient_edge_up(m, fin, count, r, s, c, x);
                    assert(r.has_out(bs, c));
                    if r.has_out(bt, c) {
                        let b2 = choose|b2: int| r.edge(bt, c, b2);
                        let q = lemma_quotient_edge_down(m, fin, count, r, t, c, b2);
                        assert(m.has_out(t, c));
                    }
                } else {
                    let x = choose|x: int| m.edge(t, c, x);
                    lemma_quotient_edge_up(m, fin, count, r, t, c, x);
                    assert(r.has_out(bt, c));
                    if r.has_out(bs, c) {
                        let b2 = choose|b2: int| r.edge(bs, c, b2);
                        let q = lemma_quotient_edge_down(m, fin, count, r, s, c, b2);
                        assert(m.has_out(s, c));
                    }
                }
            } else {
                let (x, y) = choose|x: int, y: int|
                    #[trigger] m.edge(s, c, x) && #[trigger] m.edge(t, c, y) && differs(m, x, y, k1);
                lemma_edge_range(m, s, c, x);
                lemma_edge_range(m, t, c, y);
                lemma_quotient_differs(m, fin, count, r, x, y, k1);
                lemma_quotient_edge_up(m, fin, count, r, s, c, x);
                lemma_quotient_edge_up(m, fin, count, r, t, c, y);
                assert(r.edge(bs, c, fin[x] as int) && r.edge(bt, c, fin[y] as int) && differs(
                    r,
                    fin[x] as int,
                    fin[y] as int,
                    k1,
                ));
            }
            assert(step_differs(r, bs, bt, c, k1));
            lemma_step_differs(r, bs, bt, c, k1);
        }
    }
}

/// The numbering that gives every state its own number.
pub open spec fn identity(count: int) -> Seq<usize> {
    Seq::new(count as nat, |i: int| i as usize)
}

/// A minimization is its own minimization: no two of its states can be put
/// together, and its states are already numbered as minimization numbers
/// them.
pub proof fn lemma_minimization_is_minimal(m: AutomatonModel, r: AutomatonModel)
    requires
        m.wf(),
        m.deterministic(),
        minimizes(m, r),
    ensures
        minimizes(r, r),
        is_congruence(r, identity(r.size as int), r.size as int),
{
    let (fin, count) = choose|fin: Seq<usize>, count: int| #[trigger]
        is_congruence(m, fin, count) && is_quotient(m, fin, count, r);
    let rep = choose|rep: Seq<int>| is_numbering(accept_seq(m), fin, count, rep);
    lemma_quotient_wf(m, fin, count, r);
    let id = identity(count);
    let rep_id = Seq::new(count as nat, |i: int| i);
    assert forall|s: int, t: int, c: int|
        0 <= s < r.size && 0 <= t < r.size && 1 <= c <= r.alphabet && id[s] == id[t] implies #[trigger] agree(
        r,
        id,
        s,
        t,
        c,
    ) by {}
    assert forall|s: int, t: int|
        0 <= s < r.size && 0 <= t < r.size && #[trigger] apart(id, s, t) implies distinguishable(
        r,
        s,
        t,
    ) by {
        assert(fin[rep[s]] == s);
        assert(fin[rep[t]] == t);
        assert(apart(fin, rep[s], rep[t]));
        let k = choose|k: nat| differs(m, rep[s], rep[t], k);
        lemma_quotient_differs(m, fin, count, r, rep[s], rep[t], k);
    }
    assert forall|v1: int, v2: int| 0 <= v1 < v2 < count implies comes_before(
        accept_seq(r),
        #[trigger] rep_id[v1],
        #[trigger] rep_id[v2],
    ) by {
        assert(comes_before(accept_seq(m), rep[v1], rep[v2]));
        assert(fin[rep[v1]] == v1);
        assert(fin[rep[v2]] == v2);
        lemma_quotient_accept(m, fin, count, r, rep[v1]);
        lemma_quotient_accept(m, fin, count, r, rep[v2]);
    }
    assert(is_numbering(accept_seq(r), id, count, rep_id));
    assert(is_congruence(r, id, count));
    assert forall|t: (usize, usize, usize)|
        r.table.contains(t) <==> exists|i: int|
            0 <= i < r.table.len() && t == image(id, #[trigger] r.table[i]) by {
        if r.table.contains(t) {
            let i = choose|i: int| 0 <= i < r.table.len() && r.table[i] == t;
            assert(r.table[i].0 < r.size && r.table[i].2 < r.size);
            assert(t == image(id, r.table[i]));
        }
        if exists|i: int| 0 <= i < r.table.len() && t == image(id, #[trigger] r.table[i]) {
            let i = choose|i: int| 0 <= i < r.table.len() && t == image(id, #[trigger] r.table[i]);
            assert(r.table[i].0 < r.size && r.table[i].2 < r.size);
            assert(r.table[i] == t);
        }
    }
    assert forall|x: usize|
        r.start.contains(x) <==> exists|i: int|
            0 <= i < r.start.len() && x == id[#[trigger] r.start[i] as int] by {
        if r.start.contains(x) {
            let i = choose|i: int| 0 <= i < r.start.len() && r.start[i] == x;
            assert(r.start[i] < r.size);
            assert(x == id[r.start[i] as int]);
        }
        if exists|i: int| 0 <= i < r.start.len() && x == id[#[trigger] r.start[i] as int] {
            let i = choose|i: int| 0 <= i < r.start.len() && x == id[#[trigger] r.start[i] as int];
            assert(r.start[i] < r.size);
            assert(r.start[i] == x);
        }
    }
    assert forall|x: usize|
        r.end.contains(x) <==> exists|i: int| 0 <= i < r.end.len() && x == id[#[trigger] r.end[i] as int] by {
        if r.end.contains(x) {
            let i = choose|i: int| 0 <= i < r.end.len() && r.end[i] == x;
            assert(r.end[i] < r.size);
            assert(x == id[r.end[i] as int]);
        }
        if exists|i: int| 0 <= i < r.end.len() && x == id[#[trigger] r.end[i] as int] {
            let i = choose|i: int| 0 <= i < r.end.len() && x == id[#[trigger] r.end[i] as int];
            assert(r.end[i] < r.size);
            assert(r.end[i] == x);
        }
    }
    assert(is_quotient(r, id, count, r));
}

/// Minimizing twice gives exactly what minimizing once gives.
pub proof fn lemma_minimization_idempotent(
    m: AutomatonModel,
    r: AutomatonModel,
    r2: AutomatonModel,
)
    requires
        m.wf(),
        m.kind == AutomatonType::Det ==> m.deterministic(),
        is_minimized(m, r),
        is_minimized(r, r2),
    ensures
        r2 == r,
{
    if m.kind == AutomatonType::NonDet || m.size <= 2 {
    } else {
        let (fin, count) = choose|fin: Seq<usize>, count: int| #[trigger]
            is_congruence(m, fin, count) && is_quotient(m, fin, count, r);
        lemma_quotient_wf(m, fin, count, r);
        if r.size > 2 {
            lemma_minimization_is_minimal(m, r);
            lemma_minimization_unique(r, r, r2);
        }
    }
}

} // verus!
