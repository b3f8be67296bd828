//! There is one minimization of an automaton: the blocks, their numbers and
//! the lists of the result are all determined.

use crate::automaton::{states_sorted, table_sorted, triple_lt, AutomatonModel};
use crate::hopcroft_proof::{
    agree, apart, differs, justified, lemma_differs_cases, lemma_edge_range, reaches,
    refines_accept, stable, step_differs,
};
use crate::quotient::{accept_seq, is_congruence, is_quotient, minimizes};
use crate::refinement::{comes_before, is_numbering};
use vstd::prelude::*;

verus! {

/// In a deterministic automaton, states of one block of a congruence never
/// behave differently.
pub proof fn lemma_block_mates_alike(m: AutomatonModel, fin: Seq<usize>, s: int, t: int, k: nat)
    requires
        m.wf(),
        m.deterministic(),
        fin.len() == m.size,
        refines_accept(m, fin),
        stable(m, fin),
        0 <= s < m.size,
        0 <= t < m.size,
        fin[s] == fin[t],
    ensures
        !differs(m, s, t, k),
    decreases k,
{
    if k > 0 {
        let k1 = (k - 1) as nat;
        lemma_block_mates_alike(m, fin, s, t, k1);
        if differs(m, s, t, k) {
            lemma_differs_cases(m, s, t, k);
            let c = choose|c: int| 1 <= c <= m.alphabet && #[trigger] step_differs(m, s, t, c, k1);
            assert(agree(m, fin, s, t, c));
            if m.has_out(s, c) != m.has_out(t, c) {
                if m.has_out(s, c) {
                    let x = choose|x: int| m.edge(s, c, x);
                    assert(reaches(m, fin, s, c, fin[x] as int));
                    assert(reaches(m, fin, t, c, fin[x] as int));
                    let y = choose|y: int| #[trigger] m.edge(t, c, y) && fin[y] == fin[x];
                    assert(m.has_out(t, c));
                } else {
                    let y = choose|y: int| m.edge(t, c, y);
                    assert(reaches(m, fin, t, c, fin[y] as int));
                    assert(reaches(m, fin, s, c, fin[y] as int));
                    let x = choose|x: int| #[trigger] m.edge(s, c, x) && fin[x] == fin[y];
                    assert(m.has_out(s, c));
                }
            } else {
                let (x, y) = choose|x: int, y: int|
                    #[trigger] m.edge(s, c, x) && #[trigger] m.edge(t, c, y) && differs(m, x, y, k1);
                lemma_edge_range(m, s, c, x);
                lemma_edge_range(m, t, c, y);
                assert(reaches(m, fin, s, c, fin[x] as int));
                assert(reaches(m, fin, t, c, fin[x] as int));
                let y2 = choose|y2: int| #[trigger] m.edge(t, c, y2) && fin[y2] == fin[x];
                lemma_one_target(m, t, c, y, y2);
                lemma_block_mates_alike(m, fin, x, y, k1);
            }
        }
    }
}

/// A deterministic automaton has one destination for a state and a symbol.
pub proof fn lemma_one_target(m: AutomatonModel, s: int, c: int, x: int, y: int)
    requires
        m.deterministic(),
        m.edge(s, c, x),
        m.edge(s, c, y),
    ensures
        x == y,
{
    let i = choose|i: int|
        0 <= i < m.table.len() && (#[trigger] m.table[i]).0 == s && m.table[i].1 == c
            && m.table[i].2 == x;
    let j = choose|j: int|
        0 <= j < m.table.len() && (#[trigger] m.table[j]).0 == s && m.table[j].1 == c
            && m.table[j].2 == y;
    assert(m.table[i].2 == m.table[j].2);
}

/// Two congruences that divide no block without need put the same states together.
pub proof fn lemma_same_blocks(
    m: AutomatonModel,
    fin1: Seq<usize>,
    fin2: Seq<usize>,
    s: int,
    t: int,
)
    requires
        m.wf(),
        m.deterministic(),
        fin1.len() == m.size,
        fin2.len() == m.size,
        refines_accept(m, fin1),
        stable(m, fin1),
        justified(m, fin2),
        0 <= s < m.size,
        0 <= t < m.size,
        fin1[s] == fin1[t],
    ensures
        fin2[s] == fin2[t],
{
    if fin2[s] != fin2[t] {
        assert(apart(fin2, s, t));
        let k = choose|k: nat| differs(m, s, t, k);
        lemma_block_mates_alike(m, fin1, s, t, k);
    }
}

/// `fin1` and `fin2` put the same states together.
pub open spec fn same_kernel(fin1: Seq<usize>, fin2: Seq<usize>) -> bool {
    &&& fin1.len() == fin2.len()
    &&& forall|s: int, t: int|
        0 <= s < fin1.len() && 0 <= t < fin1.len() ==> (#[trigger] fin1[s] == #[trigger] fin1[t]
            <==> fin2[s] == fin2[t])
}

/// The order of numbering never puts two states each before the other.
pub proof fn lemma_comes_before_asym(flags: Seq<bool>, s: int, t: int)
    ensures
        !(comes_before(flags, s, t) && comes_before(flags, t, s)),
{
}

/// The least member of the block of `rep1[v]` under the other numbering.
proof fn lemma_rep_moves(
    flags: Seq<bool>,
    fin1: Seq<usize>,
    c1: int,
    rep1: Seq<int>,
    fin2: Seq<usize>,
    c2: int,
    rep2: Seq<int>,
    v: int,
) -> (u: int)
    requires
        is_numbering(flags, fin1, c1, rep1),
        is_numbering(flags, fin2, c2, rep2),
        same_kernel(fin1, fin2),
        0 <= v < c1,
    ensures
        0 <= u < c2,
        rep2[u] == rep1[v],
{
    let s1 = rep1[v];
    let u = fin2[s1] as int;
    let r = rep2[u];
    assert(fin2[r] == u);
    assert(r <= s1);
    assert(fin1[r] == fin1[s1]);
    assert(rep1[fin1[r] as int] <= r);
    u
}

/// Two numberings of the same blocks name the least members in the same order.
proof fn lemma_rep_equal(
    flags: Seq<bool>,
    fin1: Seq<usize>,
    c1: int,
    rep1: Seq<int>,
    fin2: Seq<usize>,
    c2: int,
    rep2: Seq<int>,
    v: int,
)
    requires
        is_numbering(flags, fin1, c1, rep1),
        is_numbering(flags, fin2, c2, rep2),
        same_kernel(fin1, fin2),
        0 <= v < c1,
        0 <= v < c2,
    ensures
        rep1[v] == rep2[v],
    decreases v,
{
    let u = lemma_rep_moves(flags, fin1, c1, rep1, fin2, c2, rep2, v);
    assert(same_kernel(fin2, fin1));
    let u2 = lemma_rep_moves(flags, fin2, c2, rep2, fin1, c1, rep1, v);
    if u < v {
        lemma_rep_equal(flags, fin1, c1, rep1, fin2, c2, rep2, u);
        assert(fin1[rep1[u]] == u);
        assert(fin1[rep1[v]] == v);
    } else if u > v {
        assert(comes_before(flags, rep2[v], rep2[u]));
        if u2 < v {
            lemma_rep_equal(flags, fin1, c1, rep1, fin2, c2, rep2, u2);
            assert(fin2[rep2[u2]] == u2);
            assert(fin2[rep2[v]] == v);
        } else if u2 > v {
            assert(comes_before(flags, rep1[v], rep1[u2]));
            lemma_comes_before_asym(flags, rep1[v], rep2[v]);
        } else {
            assert(fin2[rep2[u]] == u);
            assert(fin2[rep2[v]] == v);
        }
    }
}

/// Two numberings of the same blocks number as many blocks.
proof fn lemma_count_le(
    flags: Seq<bool>,
    fin1: Seq<usize>,
    c1: int,
    rep1: Seq<int>,
    fin2: Seq<usize>,
    c2: int,
    rep2: Seq<int>,
)
    requires
        is_numbering(flags, fin1, c1, rep1),
        is_numbering(flags, fin2, c2, rep2),
        same_kernel(fin1, fin2),
    ensures
        c2 <= c1,
{
    if c1 < c2 {
        assert(same_kernel(fin2, fin1));
        let u = lemma_rep_moves(flags, fin2, c2, rep2, fin1, c1, rep1, c1);
        lemma_rep_equal(flags, fin1, c1, rep1, fin2, c2, rep2, u);
        assert(fin2[rep2[u]] == u);
        assert(fin2[rep2[c1]] == c1);
    }
}

/// Two numberings of the same blocks are the same.
pub proof fn lemma_numbering_unique(
    flags: Seq<bool>,
    fin1: Seq<usize>,
    c1: int,
    rep1: Seq<int>,
    fin2: Seq<usize>,
    c2: int,
    rep2: Seq<int>,
)
    requires
        is_numbering(flags, fin1, c1, rep1),
        is_numbering(flags, fin2, c2, rep2),
        same_kernel(fin1, fin2),
    ensures
        fin1 == fin2,
        c1 == c2,
{
    assert(same_kernel(fin2, fin1));
    lemma_count_le(flags, fin1, c1, rep1, fin2, c2, rep2);
    lemma_count_le(flags, fin2, c2, rep2, fin1, c1, rep1);
    assert forall|s: int| 0 <= s < fin1.len() implies fin1[s] == fin2[s] by {
        let v = fin1[s] as int;
        lemma_rep_equal(flags, fin1, c1, rep1, fin2, c2, rep2, v);
        assert(fin1[rep1[v]] == v);
        assert(fin2[rep2[v]] == v);
        assert(fin2[rep1[v]] == fin2[s]);
    }
    assert(fin1 =~= fin2);
}

/// Strictly increasing lists with the same members are the same list.
pub proof fn lemma_sorted_states_unique(a: Seq<usize>, b: Seq<usize>)
    requires
        states_sorted(a),
        states_sorted(b),
        forall|x: usize| a.contains(x) <==> b.contains(x),
    ensures
        a == b,
    decreases a.len(),
{
    if a.len() == 0 {
        if b.len() > 0 {
            assert(b.contains(b[0]));
        }
        assert(a =~= b);
    } else {
        assert(a.contains(a[0]));
        let j = choose|j: int| 0 <= j < b.len() && b[j] == a[0];
        assert(b.contains(b[0]));
        let i = choose|i: int| 0 <= i < a.len() && a[i] == b[0];
        assert(a[0] == b[0]);
        let a2 = a.subrange(1, a.len() as int);
        let b2 = b.subrange(1, b.len() as int);
        assert forall|x: usize| a2.contains(x) <==> b2.contains(x) by {
            if a2.contains(x) {
                let k = choose|k: int| 0 <= k < a2.len() && a2[k] == x;
                assert(a[k + 1] == x);
                assert(a.contains(x));
                let k2 = choose|k2: int| 0 <= k2 < b.len() && b[k2] == x;
                assert(k2 > 0);
                assert(b2[k2 - 1] == x);
            }
            if b2.contains(x) {
                let k = choose|k: int| 0 <= k < b2.len() && b2[k] == x;
                assert(b[k + 1] == x);
                assert(b.contains(x));
                let k2 = choose|k2: int| 0 <= k2 < a.len() && a[k2] == x;
                assert(k2 > 0);
                assert(a2[k2 - 1] == x);
            }
        }
        assert(states_sorted(a2)) by {
            assert forall|i: int, j: int| 0 <= i < j < a2.len() implies a2[i] < a2[j] by {
                assert(a[i + 1] < a[j + 1]);
            }
        }
        assert(states_sorted(b2)) by {
            assert forall|i: int, j: int| 0 <= i < j < b2.len() implies b2[i] < b2[j] by {
                assert(b[i + 1] < b[j + 1]);
            }
        }
        lemma_sorted_states_unique(a2, b2);
        assert(a =~= seq![a[0]] + a2);
        assert(b =~= seq![b[0]] + b2);
    }
}

/// Strictly increasing lists of transitions with the same members are the same list.
pub proof fn lemma_sorted_table_unique(a: Seq<(usize, usize, usize)>, b: Seq<(usize, usize, usize)>)
    requires
        table_sorted(a),
        table_sorted(b),
        forall|x: (usize, usize, usize)| a.contains(x) <==> b.contains(x),
    ensures
        a == b,
    decreases a.len(),
{
    if a.len() == 0 {
        if b.len() > 0 {
            assert(b.contains(b[0]));
        }
        assert(a =~= b);
    } else {
        assert(a.contains(a[0]));
        let j = choose|j: int| 0 <= j < b.len() && b[j] == a[0];
        assert(b.contains(b[0]));
        let i = choose|i: int| 0 <= i < a.len() && a[i] == b[0];
        if i > 0 {
            assert(triple_lt(a[0], a[i]));
        }
        if j > 0 {
            assert(triple_lt(b[0], b[j]));
        }
        assert(a[0] == b[0]);
        let a2 = a.subrange(1, a.len() as int);
        let b2 = b.subrange(1, b.len() as int);
        assert forall|x: (usize, usize, usize)| a2.contains(x) <==> b2.contains(x) by {
            if a2.contains(x) {
                let k = choose|k: int| 0 <= k < a2.len() && a2[k] == x;
                assert(a[k + 1] == x);
                assert(triple_lt(a[0], a[k + 1]));
                assert(a.contains(x));
                let k2 = choose|k2: int| 0 <= k2 < b.len() && b[k2] == x;
                assert(k2 > 0);
                assert(b2[k2 - 1] == x);
            }
            if b2.contains(x) {
                let k = choose|k: int| 0 <= k < b2.len() && b2[k] == x;
                assert(b[k + 1] == x);
                assert(triple_lt(b[0], b[k + 1]));
                assert(b.contains(x));
                let k2 = choose|k2: int| 0 <= k2 < a.len() && a[k2] == x;
                assert(k2 > 0);
                assert(a2[k2 - 1] == x);
            }
        }
        assert(table_sorted(a2)) by {
            assert forall|i: int, j: int| 0 <= i < j < a2.len() implies triple_lt(a2[i], a2[j]) by {
                assert(triple_lt(a[i + 1], a[j + 1]));
            }
        }
        assert(table_sorted(b2)) by {
            assert forall|i: int, j: int| 0 <= i < j < b2.len() implies triple_lt(b2[i], b2[j]) by {
                assert(triple_lt(b[i + 1], b[j + 1]));
            }
        }
        lemma_sorted_table_unique(a2, b2);
        assert(a =~= seq![a[0]] + a2);
        assert(b =~= seq![b[0]] + b2);
    }
}

/// Two congruences of one deterministic automaton are the same.
pub proof fn lemma_congruence_unique(
    m: AutomatonModel,
    fin1: Seq<usize>,
    c1: int,
    fin2: Seq<usize>,
    c2: int,
)
    requires
        m.wf(),
        m.deterministic(),
        is_congruence(m, fin1, c1),
        is_congruence(m, fin2, c2),
    ensures
        fin1 == fin2,
        c1 == c2,
{
    let rep1 = choose|rep: Seq<int>| is_numbering(accept_seq(m), fin1, c1, rep);
    let rep2 = choose|rep: Seq<int>| is_numbering(accept_seq(m), fin2, c2, rep);
    assert forall|s: int, t: int| 0 <= s < fin1.len() && 0 <= t < fin1.len() implies (
    #[trigger] fin1[s] == #[trigger] fin1[t] <==> fin2[s] == fin2[t]) by {
        if fin1[s] == fin1[t] {
            lemma_same_blocks(m, fin1, fin2, s, t);
        }
        if fin2[s] == fin2[t] {
            lemma_same_blocks(m, fin2, fin1, s, t);
        }
    }
    lemma_numbering_unique(accept_seq(m), fin1, c1, rep1, fin2, c2, rep2);
}

/// A deterministic automaton has one minimization.
pub proof fn lemma_minimization_unique(m: AutomatonModel, r1: AutomatonModel, r2: AutomatonModel)
    requires
        m.wf(),
        m.deterministic(),
        minimizes(m, r1),
        minimizes(m, r2),
    ensures
        r1 == r2,
{
    let (fin1, c1) = choose|fin: Seq<usize>, count: int| #[trigger]
        is_congruence(m, fin, count) && is_quotient(m, fin, count, r1);
    let (fin2, c2) = choose|fin: Seq<usize>, count: int| #[trigger]
        is_congruence(m, fin, count) && is_quotient(m, fin, count, r2);
    lemma_congruence_unique(m, fin1, c1, fin2, c2);
    lemma_quotient_unique(m, fin1, c1, r1, r2);
}

/// A partition has one automaton of blocks.
pub proof fn lemma_quotient_unique(
    m: AutomatonModel,
    fin: Seq<usize>,
    count: int,
    r1: AutomatonModel,
    r2: AutomatonModel,
)
    requires
        is_quotient(m, fin, count, r1),
        is_quotient(m, fin, count, r2),
    ensures
        r1 == r2,
{
    lemma_sorted_table_unique(r1.table, r2.table);
    lemma_sorted_states_unique(r1.start, r2.start);
    lemma_sorted_states_unique(r1.end, r2.end);
}

} // verus!
