//! What determinization promises about languages.

use crate::automaton::{states_sorted, table_sorted, triple_lt, AutomatonModel, AutomatonType};
use crate::counting::lemma_distinct_ints_bound;
use crate::quotient::{accept_seq, is_congruence, is_quotient, minimizes};
use crate::refinement::is_numbering;
use crate::subset_construction::{
    determinizes, is_sequential_construction, is_subset_dfa, row_major,
};
use vstd::arithmetic::div_mod::{lemma_div_is_ordered, lemma_fundamental_div_mod, lemma_mod_bound};
use vstd::prelude::*;

verus! {

/// An automaton without transitions on the empty word closes every set.
pub proof fn lemma_no_eps_closure(d: AutomatonModel, s: Set<int>)
    requires
        forall|k: int| 0 <= k < d.table.len() ==> (#[trigger] d.table[k]).1 != 0,
    ensures
        d.eps_closure(s) == s,
{
    assert forall|p: int, q: int| s.contains(p) && #[trigger] d.edge(p, 0, q) implies s.contains(q) by {
        let i = choose|i: int|
            0 <= i < d.table.len() && (#[trigger] d.table[i]).0 == p && d.table[i].1 == 0
                && d.table[i].2 == q;
        assert(d.table[i].1 != 0);
    }
    d.lemma_closure_of_closed(s);
}

/// In an automaton of subsets, a word leads to exactly one state, and that
/// state stands for the set of states to which the word leads in the
/// original.
pub proof fn lemma_run_state(
    m: AutomatonModel,
    d: AutomatonModel,
    subsets: Seq<Set<int>>,
    w: Seq<int>,
) -> (j: int)
    requires
        is_subset_dfa(m, d, subsets),
        m.valid_word(w),
    ensures
        0 <= j < d.size,
        d.run(w) == set![j],
        subsets[j] == m.run(w),
    decreases w.len(),
{
    assert forall|k: int| 0 <= k < d.table.len() implies (#[trigger] d.table[k]).1 != 0 by {}
    if w.len() == 0 {
        let s = d.start_set();
        assert(d.start[0] == 0);
        assert(d.is_start(0));
        assert forall|q: int| s.contains(q) implies q == 0 by {
            let i = choose|i: int| 0 <= i < d.start.len() && #[trigger] d.start[i] == q;
        }
        assert(s =~= set![0int]);
        lemma_no_eps_closure(d, s);
        0
    } else {
        let prefix = w.drop_last();
        let a = w.last();
        assert(1 <= w[w.len() - 1] <= m.alphabet);
        assert(m.valid_word(prefix)) by {
            assert forall|i: int| 0 <= i < prefix.len() implies 1 <= #[trigger] prefix[i]
                <= m.alphabet by {
                assert(prefix[i] == w[i]);
            }
        }
        let jp = lemma_run_state(m, d, subsets, prefix);
        assert(d.has_out(jp, a));
        let q = choose|q: int| d.edge(jp, a, q);
        let k = choose|k: int|
            0 <= k < d.table.len() && (#[trigger] d.table[k]).0 == jp && d.table[k].1 == a
                && d.table[k].2 == q;
        assert(subsets[q] == m.step(subsets[jp], a));
        let moved = d.moved(set![jp], a);
        assert(set![jp].contains(jp));
        assert(moved.contains(q));
        assert forall|x: int| moved.contains(x) implies x == q by {
            let p = choose|p: int| set![jp].contains(p) && #[trigger] d.edge(p, a, x);
            let kx = choose|kx: int|
                0 <= kx < d.table.len() && (#[trigger] d.table[kx]).0 == p && d.table[kx].1 == a
                    && d.table[kx].2 == x;
            assert(subsets[x] == m.step(subsets[jp], a));
            if x < q {
                assert(subsets[x] != subsets[q]);
            }
            if q < x {
                assert(subsets[q] != subsets[x]);
            }
        }
        assert(moved =~= set![q]);
        lemma_no_eps_closure(d, moved);
        q
    }
}

/// An automaton of subsets accepts the words that the original accepts.
pub proof fn lemma_subset_dfa_language(
    m: AutomatonModel,
    d: AutomatonModel,
    subsets: Seq<Set<int>>,
    w: Seq<int>,
)
    requires
        is_subset_dfa(m, d, subsets),
        m.valid_word(w),
    ensures
        d.accepts(w) == m.accepts(w),
{
    let j = lemma_run_state(m, d, subsets, w);
    assert(set![j].contains(j));
    if d.accepts(w) {
        let q = choose|q: int| d.run(w).contains(q) && #[trigger] d.is_accept(q);
        assert(q == j);
    }
    if m.accepts(w) {
        assert(m.hits_accept(subsets[j]));
        assert(d.is_accept(j));
    }
}

/// Determinization keeps the language: the determinized automaton accepts a
/// word over the alphabet exactly when the original accepts it.
pub proof fn lemma_determinization_keeps_language(m: AutomatonModel, d: AutomatonModel, w: Seq<int>)
    requires
        determinizes(m, d),
        m.valid_word(w),
    ensures
        d.accepts(w) == m.accepts(w),
{
    let (subsets, first) = choose|subsets: Seq<Set<int>>, first: Seq<int>| #[trigger]
        is_sequential_construction(m, d, subsets, first);
    lemma_subset_dfa_language(m, d, subsets, w);
}

/// A table that lists the transitions state by state and symbol by symbol is
/// strictly increasing.
pub proof fn lemma_row_major_sorted(d: AutomatonModel)
    requires
        row_major(d),
    ensures
        table_sorted(d.table),
{
    let a = d.alphabet as int;
    if a == 0 {
        assert(d.size * d.alphabet == 0) by (nonlinear_arith)
            requires
                d.alphabet == 0,
        ;
    } else {
        assert forall|i: int, j: int| 0 <= i < j < d.table.len() implies triple_lt(
            d.table[i],
            d.table[j],
        ) by {
            lemma_fundamental_div_mod(i, a);
            lemma_fundamental_div_mod(j, a);
            lemma_div_is_ordered(i, j, a);
            lemma_mod_bound(i, a);
            lemma_mod_bound(j, a);
            if i / a == j / a {
                assert(i % a < j % a);
            }
        }
    }
}

/// Every state of a sequential construction stands for the set of states
/// reached by some word: the construction holds no subset that no word
/// reaches.
pub proof fn lemma_first_word(
    m: AutomatonModel,
    d: AutomatonModel,
    subsets: Seq<Set<int>>,
    first: Seq<int>,
    j: int,
) -> (w: Seq<int>)
    requires
        is_sequential_construction(m, d, subsets, first),
        0 <= j < d.size,
    ensures
        m.valid_word(w),
        subsets[j] == m.run(w),
    decreases j,
{
    if j == 0 {
        Seq::empty()
    } else {
        let a = d.alphabet as int;
        let k = first[j];
        let t = d.table[k];
        assert(a > 0) by (nonlinear_arith)
            requires
                0 <= k < j * a,
                j > 0,
        ;
        let i = k / a;
        lemma_fundamental_div_mod(k, a);
        lemma_mod_bound(k, a);
        assert(0 <= i < j) by (nonlinear_arith)
            requires
                k == a * i + (k % a),
                0 <= k % a < a,
                0 <= k < j * a,
                a > 0,
        ;
        let prefix = lemma_first_word(m, d, subsets, first, i);
        let w = prefix.push(t.1 as int);
        assert(w.drop_last() =~= prefix);
        assert(w.last() == t.1);
        assert forall|x: int| 0 <= x < w.len() implies 1 <= #[trigger] w[x] <= m.alphabet by {
            if x < prefix.len() {
                assert(w[x] == prefix[x]);
            }
        }
        w
    }
}

/// What determinization returns for `m`: `m` itself where it is tagged
/// deterministic, the determinization of `m` where it is not.
pub open spec fn is_determinized(m: AutomatonModel, d: AutomatonModel) -> bool {
    if m.kind == AutomatonType::Det {
        d == m
    } else {
        determinizes(m, d)
    }
}

/// What minimization returns for `m`: `m` itself where it is tagged
/// nondeterministic or has at most two states, the minimization of `m`
/// otherwise.
pub open spec fn is_minimized(m: AutomatonModel, r: AutomatonModel) -> bool {
    if m.kind == AutomatonType::NonDet || m.size <= 2 {
        r == m
    } else {
        minimizes(m, r)
    }
}

/// Determinizing twice gives what determinizing once gives.
pub proof fn lemma_determinization_idempotent(
    m: AutomatonModel,
    d: AutomatonModel,
    d2: AutomatonModel,
)
    requires
        is_determinized(m, d),
        is_determinized(d, d2),
    ensures
        d2 == d,
{
    if m.kind != AutomatonType::Det {
        let (subsets, first) = choose|subsets: Seq<Set<int>>, first: Seq<int>| #[trigger]
            is_sequential_construction(m, d, subsets, first);
        assert(d.kind == AutomatonType::Det);
    }
}

/// A determinization is normalized: its transitions are strictly increasing
/// in lexicographic order, and so are its start states and its accepting
/// states. In particular nothing occurs twice.
pub proof fn lemma_determinization_normalized(m: AutomatonModel, d: AutomatonModel)
    requires
        determinizes(m, d),
    ensures
        d.normalized(),
{
    let (subsets, first) = choose|subsets: Seq<Set<int>>, first: Seq<int>| #[trigger]
        is_sequential_construction(m, d, subsets, first);
    lemma_row_major_sorted(d);
    assert(states_sorted(d.start));
}

/// A minimization is normalized.
pub proof fn lemma_minimization_normalized(m: AutomatonModel, r: AutomatonModel)
    requires
        minimizes(m, r),
    ensures
        r.normalized(),
{
}

/// A determinization holds no state that the original cannot reach: every
/// state of it stands for the set of states to which some word leads, so a
/// state of the original that no word reaches is in none of them.
pub proof fn lemma_determinization_reachable(m: AutomatonModel, d: AutomatonModel, j: int)
    requires
        determinizes(m, d),
        0 <= j < d.size,
    ensures
        exists|w: Seq<int>| m.valid_word(w) && #[trigger] d.run(w) == set![j],
{
    let (subsets, first) = choose|subsets: Seq<Set<int>>, first: Seq<int>| #[trigger]
        is_sequential_construction(m, d, subsets, first);
    let w = lemma_first_word(m, d, subsets, first, j);
    let j2 = lemma_run_state(m, d, subsets, w);
    if j2 < j {
        assert(subsets[j2] != subsets[j]);
    }
    if j < j2 {
        assert(subsets[j] != subsets[j2]);
    }
    assert(d.run(w) == set![j]);
}

/// The states that `fin` sends to block `b`.
pub open spec fn block_members(fin: Seq<usize>, b: int) -> Set<int> {
    Set::new(|s: int| 0 <= s < fin.len() && fin[s] == b)
}

/// Some state is sent to block `b`.
pub open spec fn block_inhabited(fin: Seq<usize>, b: int) -> bool {
    exists|s: int| block_members(fin, b).contains(s)
}

/// The blocks of a congruence partition the states: every state is in the
/// block that `fin` names, no state is in two blocks, and no block is empty.
pub proof fn lemma_blocks_partition(m: AutomatonModel, fin: Seq<usize>, count: int)
    requires
        is_congruence(m, fin, count),
    ensures
        forall|s: int|
            0 <= s < m.size ==> 0 <= #[trigger] fin[s] < count && block_members(fin, fin[s] as int).contains(s),
        forall|b1: int, b2: int, s: int|
            #![trigger block_members(fin, b1).contains(s), block_members(fin, b2).contains(s)]
            b1 != b2 ==> !(block_members(fin, b1).contains(s) && block_members(fin, b2).contains(s)),
        forall|b: int| 0 <= b < count ==> #[trigger] block_inhabited(fin, b),
{
    let rep = choose|rep: Seq<int>| is_numbering(accept_seq(m), fin, count, rep);
    assert forall|b: int| 0 <= b < count implies #[trigger] block_inhabited(fin, b) by {
        assert(fin[rep[b]] == b);
        assert(block_members(fin, b).contains(rep[b]));
    }
}

/// A minimization has no more states than the automaton it comes from.
pub proof fn lemma_minimization_not_larger(m: AutomatonModel, r: AutomatonModel)
    requires
        minimizes(m, r),
    ensures
        r.size <= m.size,
{
    let (fin, count) = choose|fin: Seq<usize>, count: int| #[trigger]
        is_congruence(m, fin, count) && is_quotient(m, fin, count, r);
    let rep = choose|rep: Seq<int>| is_numbering(accept_seq(m), fin, count, rep);
    assert forall|i: int, j: int| 0 <= i < j < rep.len() implies rep[i] != rep[j] by {
        assert(fin[rep[i]] == i);
        assert(fin[rep[j]] == j);
    }
    lemma_distinct_ints_bound(rep, m.size as int);
}

} // verus!
