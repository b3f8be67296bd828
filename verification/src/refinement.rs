//! The steps of partition refinement around its main loop: the first
//! partition, the blocks that a splitter touches, and the numbering of the
//! final blocks.

use crate::automaton::{
    is_reverse_index, lemma_sources_contains, sources, states_sorted, Automaton, AutomatonModel,
};
use crate::hopcroft_proof::{enters, in_list, is_partition, refines_accept};
use crate::partition::{gathered, lemma_gathered_contains, lists};
use std::collections::HashSet;
use vstd::prelude::*;

verus! {

broadcast use vstd::std_specs::hash::group_hash_axioms;

/// A list holds a state in either way of saying so.
pub proof fn lemma_in_list(l: Seq<usize>, x: usize)
    ensures
        in_list(l, x as int) <==> l.contains(x),
{
    if in_list(l, x as int) {
        let k = choose|k: int| 0 <= k < l.len() && #[trigger] l[k] == x as int;
        assert(l[k] == x);
    }
    if l.contains(x) {
        let k = choose|k: int| 0 <= k < l.len() && l[k] == x;
        assert(l[k] == x as int);
    }
}

/// The states gathered from row `c` of the reverse index at the places of
/// `cur` are the states with a transition on `c` into `cur`.
pub proof fn lemma_rs_enters(
    m: AutomatonModel,
    arr: &Vec<Vec<Vec<usize>>>,
    cur: Seq<usize>,
    c: int,
    rs: Seq<usize>,
)
    requires
        m.wf(),
        is_reverse_index(arr, m.table, m.alphabet as int + 1, m.size as int + 1),
        0 <= c <= m.alphabet,
        forall|k: int| 0 <= k < cur.len() ==> #[trigger] cur[k] <= m.size,
        rs.to_multiset() == gathered(arr@[c]@, cur).to_multiset(),
    ensures
        forall|x: int| in_list(rs, x) <==> enters(m, x, c, cur),
        forall|k: int| 0 <= k < rs.len() ==> #[trigger] rs[k] < m.size,
{
    broadcast use vstd::seq_lib::group_to_multiset_ensures;

    let row = arr@[c]@;
    let g = gathered(row, cur);
    assert forall|x: int| in_list(rs, x) implies enters(m, x, c, cur) && 0 <= x < m.size by {
        let k0 = choose|k0: int| 0 <= k0 < rs.len() && #[trigger] rs[k0] == x;
        let xu = rs[k0];
        assert(rs.contains(xu));
        assert(rs.to_multiset().count(xu) > 0);
        assert(g.contains(xu));
        lemma_gathered_contains(row, cur, xu);
        let (i, k) = choose|i: int, k: int|
            0 <= i < cur.len() && 0 <= k < row[cur[i] as int]@.len() && #[trigger] row[cur[i] as int]@[k]
                == xu;
        assert(arr@[c]@[cur[i] as int]@ == sources(m.table, c, cur[i] as int));
        assert(sources(m.table, c, cur[i] as int).contains(xu));
        lemma_sources_contains(m.table, c, cur[i] as int, xu);
        assert(m.edge(x, c, cur[i] as int));
        assert(in_list(cur, cur[i] as int));
    }
    assert forall|x: int| enters(m, x, c, cur) implies in_list(rs, x) by {
        let y = choose|y: int| #[trigger] m.edge(x, c, y) && in_list(cur, y);
        let i = choose|i: int| 0 <= i < cur.len() && #[trigger] cur[i] == y;
        let idx = choose|idx: int|
            0 <= idx < m.table.len() && (#[trigger] m.table[idx]).0 == x && m.table[idx].1 == c
                && m.table[idx].2 == y;
        let xu = m.table[idx].0;
        lemma_sources_contains(m.table, c, y, xu);
        assert(arr@[c]@[cur[i] as int]@ == sources(m.table, c, cur[i] as int));
        let k = choose|k: int|
            0 <= k < sources(m.table, c, y).len() && sources(m.table, c, y)[k] == xu;
        assert(row[cur[i] as int]@[k] == xu);
        lemma_gathered_contains(row, cur, xu);
        assert(g.contains(xu));
        assert(rs.to_multiset().count(xu) > 0);
        assert(rs.contains(xu));
        lemma_in_list(rs, xu);
    }
    assert forall|k: int| 0 <= k < rs.len() implies #[trigger] rs[k] < m.size by {
        assert(in_list(rs, rs[k] as int));
    }
}

/// Which states are accepting, as one flag for each state.
pub fn accept_flags(aut: &Automaton) -> (flags: Vec<bool>)
    requires
        aut@.wf(),
    ensures
        flags@.len() == aut.size,
        forall|s: int| 0 <= s < aut.size ==> (#[trigger] flags@[s] <==> aut@.is_accept(s)),
{
    let mut flags: Vec<bool> = Vec::new();
    let mut s: usize = 0;
    while s < aut.size
        invariant
            s <= aut.size,
            flags@.len() == s,
            forall|j: int| 0 <= j < s ==> !#[trigger] flags@[j],
        decreases aut.size - s,
    {
        flags.push(false);
        s += 1;
    }
    let mut i: usize = 0;
    while i < aut.end.len()
        invariant
            aut@.wf(),
            i <= aut.end@.len(),
            flags@.len() == aut.size,
            forall|s: int|
                0 <= s < aut.size ==> (#[trigger] flags@[s] <==> exists|j: int|
                    0 <= j < i && #[trigger] aut.end@[j] == s),
        decreases aut.end@.len() - i,
    {
        let e = aut.end[i];
        assert(aut@.end[i as int] < aut@.size);
        let ghost before = flags@;
        flags.set(e, true);
        proof {
            assert forall|s: int| 0 <= s < aut.size implies (#[trigger] flags@[s] <==> exists|j: int|
                0 <= j < i + 1 && #[trigger] aut.end@[j] == s) by {
                if s == e {
                    assert(aut.end@[i as int] == s);
                } else {
                    assert(flags@[s] == before[s]);
                    if before[s] {
                        let j = choose|j: int| 0 <= j < i && #[trigger] aut.end@[j] == s;
                        assert(0 <= j < i + 1 && aut.end@[j] == s);
                    }
                    if exists|j: int| 0 <= j < i + 1 && #[trigger] aut.end@[j] == s {
                        let j = choose|j: int| 0 <= j < i + 1 && #[trigger] aut.end@[j] == s;
                        assert(j < i);
                    }
                }
            }
        }
        i += 1;
    }
    proof {
        assert forall|s: int| 0 <= s < aut.size implies (#[trigger] flags@[s] <==> aut@.is_accept(
            s,
        )) by {
            if flags@[s] {
                let j = choose|j: int| 0 <= j < aut.end@.len() && #[trigger] aut.end@[j] == s;
                assert(aut@.end[j] == s);
            }
            if aut@.is_accept(s) {
                let j = choose|j: int| 0 <= j < aut@.end.len() && #[trigger] aut@.end[j] == s;
                assert(aut.end@[j] == s);
            }
        }
    }
    flags
}

/// The states below `n` whose flag is `want`, in increasing order.
pub fn states_with_flag(flags: &Vec<bool>, want: bool) -> (r: Vec<usize>)
    ensures
        states_sorted(r@),
        forall|x: int| in_list(r@, x) <==> 0 <= x < flags@.len() && flags@[x] == want,
{
    let mut r: Vec<usize> = Vec::new();
    let mut s: usize = 0;
    while s < flags.len()
        invariant
            s <= flags@.len(),
            states_sorted(r@),
            forall|k: int| 0 <= k < r@.len() ==> #[trigger] r@[k] < s,
            forall|x: int| in_list(r@, x) <==> 0 <= x < s && flags@[x] == want,
        decreases flags@.len() - s,
    {
        if flags[s] == want {
            let ghost before = r@;
            r.push(s);
            proof {
                assert forall|x: int| in_list(r@, x) <==> 0 <= x < s + 1 && flags@[x] == want by {
                    if in_list(r@, x) {
                        let k = choose|k: int| 0 <= k < r@.len() && #[trigger] r@[k] == x;
                        if k < before.len() {
                            assert(before[k] == x);
                            assert(in_list(before, x));
                        }
                    }
                    if 0 <= x < s + 1 && flags@[x] == want {
                        if x == s {
                            assert(r@[before.len() as int] == x);
                        } else {
                            assert(in_list(before, x));
                            let k = choose|k: int| 0 <= k < before.len() && #[trigger] before[k] == x;
                            assert(r@[k] == x);
                        }
                    }
                }
            }
        }
        s += 1;
    }
    r
}

/// The partition into the states that are not accepting and those that are,
/// without a block for a side that is empty, and the block of each state.
pub fn initial_partition(aut: &Automaton, flags: &Vec<bool>) -> (r: (Vec<Vec<usize>>, Vec<usize>))
    requires
        aut@.wf(),
        flags@.len() == aut.size,
        forall|s: int| 0 <= s < aut.size ==> (#[trigger] flags@[s] <==> aut@.is_accept(s)),
    ensures
        is_partition(aut.size as int, lists(r.0@), r.1@),
        refines_accept(aut@, r.1@),
        r.0@.len() <= 2,
        forall|s: int, t: int|
            0 <= s < aut.size && 0 <= t < aut.size && r.1@[s] != r.1@[t] ==> aut@.is_accept(s)
                != aut@.is_accept(t),
        forall|s: int, t: int|
            0 <= s < aut.size && 0 <= t < aut.size && !aut@.is_accept(s) && aut@.is_accept(t)
                ==> r.1@[s] < r.1@[t],
{
    let rejecting = states_with_flag(flags, false);
    let accepting = states_with_flag(flags, true);
    let ghost rej = rejecting@;
    let ghost acc = accepting@;
    let shift: usize = if rejecting.len() > 0 {
        1
    } else {
        0
    };
    let has_acc = accepting.len() > 0;
    let mut p: Vec<Vec<usize>> = Vec::new();
    if rejecting.len() > 0 {
        p.push(rejecting);
    }
    if has_acc {
        p.push(accepting);
    }
    let mut spm: Vec<usize> = Vec::new();
    let mut s: usize = 0;
    while s < aut.size
        invariant
            flags@.len() == aut.size,
            s <= aut.size,
            spm@.len() == s,
            shift <= 1,
            forall|j: int| 0 <= j < s ==> #[trigger] spm@[j] == if flags@[j] {
                shift
            } else {
                0usize
            },
        decreases aut.size - s,
    {
        spm.push(if flags[s] { shift } else { 0 });
        s += 1;
    }
    proof {
        let n = aut.size as int;
        let blocks = lists(p@);
        assert forall|x: int| 0 <= x < n implies (#[trigger] spm@[x]) < blocks.len() && in_list(
            blocks[spm@[x] as int],
            x,
        ) by {
            if flags@[x] {
                assert(in_list(acc, x));
                let k = choose|k: int| 0 <= k < acc.len() && #[trigger] acc[k] == x;
                assert(blocks[shift as int] == acc);
            } else {
                assert(in_list(rej, x));
                let k = choose|k: int| 0 <= k < rej.len() && #[trigger] rej[k] == x;
                assert(blocks[0] == rej);
            }
        }
        assert forall|b: int, k: int| 0 <= b < blocks.len() && 0 <= k < blocks[b].len() implies (
        #[trigger] blocks[b][k]) < n && spm@[blocks[b][k] as int] == b by {
            let x = blocks[b][k] as int;
            assert(in_list(blocks[b], x));
            if b == 0 && rej.len() > 0 {
                assert(blocks[0] == rej);
            } else {
                assert(blocks[b] == acc);
            }
        }
        assert forall|b: int| 0 <= b < blocks.len() implies states_sorted(#[trigger] blocks[b])
            && blocks[b].len() > 0 by {
            if b == 0 && rej.len() > 0 {
                assert(blocks[0] == rej);
            } else {
                assert(blocks[b] == acc);
            }
        }
    }
    (p, spm)
}

/// The blocks of the states of `rs`, each once, in the order in which `rs`
/// first names them.
pub(crate) fn touched_blocks(rs: &Vec<usize>, spm: &Vec<usize>) -> (r: Vec<usize>)
    requires
        forall|k: int| 0 <= k < rs@.len() ==> #[trigger] rs@[k] < spm@.len(),
    ensures
        forall|i: int, j: int| 0 <= i < j < r@.len() ==> r@[i] != r@[j],
        forall|b: int| in_list(r@, b) <==> exists|k: int| 0 <= k < rs@.len() && spm@[#[trigger] rs@[k] as int] == b,
{
    let mut seen: HashSet<usize> = HashSet::new();
    let mut r: Vec<usize> = Vec::new();
    let mut k: usize = 0;
    while k < rs.len()
        invariant
            forall|k: int| 0 <= k < rs@.len() ==> #[trigger] rs@[k] < spm@.len(),
            k <= rs@.len(),
            forall|i: int, j: int| 0 <= i < j < r@.len() ==> r@[i] != r@[j],
            forall|b: usize| seen@.contains(b) <==> in_list(r@, b as int),
            forall|b: int|
                in_list(r@, b) <==> exists|j: int| 0 <= j < k && spm@[#[trigger] rs@[j] as int] == b,
        decreases rs@.len() - k,
    {
        let b = spm[rs[k]];
        let ghost before = r@;
        let ghost seen0 = seen@;
        if seen.insert(b) {
            r.push(b);
            proof {
                assert(!in_list(before, b as int));
                assert(r@[before.len() as int] == b);
                assert forall|x: int| in_list(r@, x) <==> in_list(before, x) || x == b by {
                    if in_list(r@, x) {
                        let i = choose|i: int| 0 <= i < r@.len() && #[trigger] r@[i] == x;
                        if i < before.len() {
                            assert(before[i] == x);
                        }
                    }
                    if in_list(before, x) {
                        let i = choose|i: int| 0 <= i < before.len() && #[trigger] before[i] == x;
                        assert(r@[i] == x);
                    }
                }
                assert forall|i: int, j: int| 0 <= i < j < r@.len() implies r@[i] != r@[j] by {
                    if j == before.len() {
                        assert(r@[i] == before[i]);
                        assert(in_list(before, before[i] as int));
                    } else {
                        assert(r@[i] == before[i] && r@[j] == before[j]);
                    }
                }
                assert forall|x: usize| seen@.contains(x) <==> in_list(r@, x as int) by {
                    assert(seen0.contains(x) <==> in_list(before, x as int));
                }
            }
        }
        proof {
            assert forall|x: int|
                in_list(r@, x) <==> exists|j: int|
                    0 <= j < k + 1 && spm@[#[trigger] rs@[j] as int] == x by {
                if in_list(r@, x) {
                    if x == b && !in_list(before, x) {
                        assert(spm@[rs@[k as int] as int] == x);
                    } else {
                        assert(in_list(before, x));
                        let j = choose|j: int| 0 <= j < k && spm@[#[trigger] rs@[j] as int] == x;
                        assert(0 <= j < k + 1 && spm@[rs@[j] as int] == x);
                    }
                }
                if exists|j: int| 0 <= j < k + 1 && spm@[#[trigger] rs@[j] as int] == x {
                    let j = choose|j: int| 0 <= j < k + 1 && spm@[#[trigger] rs@[j] as int] == x;
                    if j < k {
                        assert(in_list(before, x));
                    } else {
                        assert(x == b);
                        assert(seen@.contains(b));
                    }
                }
            }
        }
        k += 1;
    }
    r
}

/// In the order of numbering, state `s` comes before state `t`: states that
/// are not accepting come first, and among states of one kind the smaller.
pub open spec fn comes_before(flags: Seq<bool>, s: int, t: int) -> bool {
    (!flags[s] && flags[t]) || (flags[s] == flags[t] && s < t)
}

/// `fin` numbers the blocks `0, 1, ..., count - 1` in the order of their
/// least members `rep`.
pub open spec fn is_numbering(flags: Seq<bool>, fin: Seq<usize>, count: int, rep: Seq<int>) -> bool {
    &&& rep.len() == count
    &&& fin.len() == flags.len()
    &&& forall|v: int| 0 <= v < count ==> 0 <= #[trigger] rep[v] < fin.len() && fin[rep[v]] == v
    &&& forall|t: int| 0 <= t < fin.len() ==> #[trigger] fin[t] < count && rep[fin[t] as int] <= t
    &&& forall|v1: int, v2: int|
        0 <= v1 < v2 < count ==> comes_before(flags, #[trigger] rep[v1], #[trigger] rep[v2])
}

/// The invariant of numbering: `ids` numbers the blocks met so far.
pub open spec fn numbering_ok(
    flags: Seq<bool>,
    spm: Seq<usize>,
    ids: Seq<usize>,
    rep: Seq<int>,
) -> bool {
    &&& forall|b: int|
        0 <= b < ids.len() && #[trigger] ids[b] != usize::MAX ==> ids[b] < rep.len()
            && 0 <= rep[ids[b] as int] < spm.len() && spm[rep[ids[b] as int]] == b
    &&& forall|v: int|
        0 <= v < rep.len() ==> 0 <= #[trigger] rep[v] < spm.len() && ids[spm[rep[v]] as int] == v
    &&& forall|v: int, t: int|
        0 <= v < rep.len() && 0 <= t < spm.len() && #[trigger] spm[t] == spm[#[trigger] rep[v]]
            ==> rep[v] <= t
    &&& forall|v1: int, v2: int|
        0 <= v1 < v2 < rep.len() ==> comes_before(flags, #[trigger] rep[v1], #[trigger] rep[v2])
}

/// One pass of numbering: the blocks of the states whose flag is `want` that
/// have no number yet get the next numbers, in the order of the states.
fn number_pass(
    flags: &Vec<bool>,
    spm: &Vec<usize>,
    ids: &mut Vec<usize>,
    next: &mut usize,
    want: bool,
    Ghost(rep0): Ghost<Seq<int>>,
) -> (rep: Ghost<Seq<int>>)
    requires
        flags@.len() == spm@.len(),
        spm@.len() < usize::MAX,
        forall|s: int| 0 <= s < spm@.len() ==> #[trigger] spm@[s] < old(ids)@.len(),
        forall|s: int, t: int|
            0 <= s < spm@.len() && 0 <= t < spm@.len() && #[trigger] spm@[s] == #[trigger] spm@[t]
                ==> flags@[s] == flags@[t],
        *old(next) == rep0.len(),
        numbering_ok(flags@, spm@, old(ids)@, rep0),
        want ==> forall|t: int|
            0 <= t < spm@.len() && !flags@[t] ==> old(ids)@[#[trigger] spm@[t] as int] != usize::MAX,
        forall|v: int| 0 <= v < rep0.len() ==> !flags@[#[trigger] rep0[v]],
        !want ==> rep0.len() == 0,
    ensures
        final(ids)@.len() == old(ids)@.len(),
        *final(next) == rep@.len(),
        numbering_ok(flags@, spm@, final(ids)@, rep@),
        forall|t: int|
            0 <= t < spm@.len() && (flags@[t] == want || want) ==> final(ids)@[#[trigger] spm@[t] as int]
                != usize::MAX,
        !want ==> forall|v: int| 0 <= v < rep@.len() ==> !flags@[#[trigger] rep@[v]],
{
    let ghost mut rep = rep0;
    let n = spm.len();
    let mut s: usize = 0;
    while s < n
        invariant
            n == spm@.len(),
            flags@.len() == n,
            n < usize::MAX,
            s <= n,
            ids@.len() == old(ids)@.len(),
            forall|s: int| 0 <= s < spm@.len() ==> #[trigger] spm@[s] < ids@.len(),
            forall|s: int, t: int|
                0 <= s < spm@.len() && 0 <= t < spm@.len() && #[trigger] spm@[s] == #[trigger] spm@[t]
                    ==> flags@[s] == flags@[t],
            *next == rep.len(),
            numbering_ok(flags@, spm@, ids@, rep),
            want ==> forall|t: int|
                0 <= t < n && !flags@[t] ==> ids@[#[trigger] spm@[t] as int] != usize::MAX,
            forall|t: int| 0 <= t < s && flags@[t] == want ==> ids@[#[trigger] spm@[t] as int] != usize::MAX,
            forall|v: int| 0 <= v < rep.len() && flags@[#[trigger] rep[v]] == want ==> rep[v] < s,
            !want ==> forall|v: int| 0 <= v < rep.len() ==> !flags@[#[trigger] rep[v]],
        decreases n - s,
    {
        if flags[s] == want && ids[spm[s]] == usize::MAX {
            let ghost ids0 = ids@;
            let ghost rep_old = rep;
            let b = spm[s];
            proof {
                rep = rep.push(s as int);
                assert forall|i: int, j: int| 0 <= i < j < rep.len() implies rep[i] != rep[j] by {
                    if j < rep_old.len() {
                        assert(comes_before(flags@, rep_old[i], rep_old[j]));
                    } else {
                        assert(rep[i] == rep_old[i]);
                        if rep_old[i] == s {
                            assert(ids0[spm@[rep_old[i]] as int] == i);
                        }
                    }
                }
                crate::counting::lemma_distinct_ints_bound(rep, n as int);
            }
            ids.set(b, *next);
            *next = *next + 1;
            proof {
                let v_new = rep_old.len() as int;
                assert forall|bb: int|
                    0 <= bb < ids@.len() && #[trigger] ids@[bb] != usize::MAX implies ids@[bb]
                    < rep.len() && 0 <= rep[ids@[bb] as int] < spm@.len() && spm@[rep[ids@[bb] as int]]
                    == bb by {
                    if bb != b {
                        assert(ids@[bb] == ids0[bb]);
                        assert(rep[ids0[bb] as int] == rep_old[ids0[bb] as int]);
                    }
                }
                assert forall|v: int| 0 <= v < rep.len() implies 0 <= #[trigger] rep[v] < spm@.len()
                    && ids@[spm@[rep[v]] as int] == v by {
                    if v < v_new {
                        assert(rep[v] == rep_old[v]);
                        assert(ids0[spm@[rep_old[v]] as int] == v);
                    }
                }
                assert forall|v: int, t: int|
                    0 <= v < rep.len() && 0 <= t < spm@.len() && #[trigger] spm@[t] == spm@[#[trigger] rep[v]] implies rep[v]
                    <= t by {
                    if v < v_new {
                        assert(rep[v] == rep_old[v]);
                    } else {
                        if t < s {
                            assert(flags@[t] == flags@[s as int]);
                            assert(ids0[spm@[t] as int] != usize::MAX);
                        }
                    }
                }
                assert forall|v1: int, v2: int| 0 <= v1 < v2 < rep.len() implies comes_before(
                    flags@,
                    #[trigger] rep[v1],
                    #[trigger] rep[v2],
                ) by {
                    assert(rep[v1] == rep_old[v1]);
                    if v2 < v_new {
                        assert(rep[v2] == rep_old[v2]);
                    }
                }
                assert forall|t: int| 0 <= t < s + 1 && flags@[t] == want implies ids@[#[trigger] spm@[t] as int]
                    != usize::MAX by {
                    if t < s && spm@[t] != b {
                        assert(ids@[spm@[t] as int] == ids0[spm@[t] as int]);
                    }
                }
                if want {
                    assert forall|t: int| 0 <= t < n && !flags@[t] implies ids@[#[trigger] spm@[t] as int]
                        != usize::MAX by {
                        assert(spm@[t] != b);
                    }
                }
            }
        }
        s += 1;
    }
    proof {
        if want {
            assert forall|t: int| 0 <= t < spm@.len() implies ids@[#[trigger] spm@[t] as int]
                != usize::MAX by {}
        }
    }
    Ghost(rep)
}

/// Numbers the blocks of a partition: blocks of states that are not
/// accepting first, then blocks of accepting states, each kind in the order
/// of the least members. Returns the number of each state's block and the
/// number of blocks.
pub(crate) fn number_blocks(flags: &Vec<bool>, spm: &Vec<usize>, nblocks: usize) -> (r: (
    Vec<usize>,
    usize,
    Ghost<Seq<int>>,
))
    requires
        flags@.len() == spm@.len(),
        spm@.len() < usize::MAX,
        forall|s: int| 0 <= s < spm@.len() ==> #[trigger] spm@[s] < nblocks,
        forall|s: int, t: int|
            0 <= s < spm@.len() && 0 <= t < spm@.len() && #[trigger] spm@[s] == #[trigger] spm@[t]
                ==> flags@[s] == flags@[t],
    ensures
        is_numbering(flags@, r.0@, r.1 as int, r.2@),
        forall|s: int, t: int|
            0 <= s < spm@.len() && 0 <= t < spm@.len() ==> (r.0@[s] == r.0@[t] <==> spm@[s] == spm@[t]),
{
    let n = spm.len();
    let mut ids: Vec<usize> = Vec::new();
    let mut b: usize = 0;
    while b < nblocks
        invariant
            b <= nblocks,
            ids@.len() == b,
            forall|j: int| 0 <= j < b ==> #[trigger] ids@[j] == usize::MAX,
        decreases nblocks - b,
    {
        ids.push(usize::MAX);
        b += 1;
    }
    let mut next: usize = 0;
    let rep1 = number_pass(flags, spm, &mut ids, &mut next, false, Ghost(Seq::empty()));
    let rep2 = number_pass(flags, spm, &mut ids, &mut next, true, rep1);
    let ghost rep = rep2@;
    let mut fin: Vec<usize> = Vec::new();
    let mut s: usize = 0;
    while s < n
        invariant
            n == spm@.len(),
            s <= n,
            fin@.len() == s,
            forall|t: int| 0 <= t < spm@.len() ==> #[trigger] spm@[t] < ids@.len(),
            forall|t: int| 0 <= t < s ==> #[trigger] fin@[t] == ids@[spm@[t] as int],
        decreases n - s,
    {
        fin.push(ids[spm[s]]);
        s += 1;
    }
    proof {
        assert forall|t: int| 0 <= t < fin@.len() implies #[trigger] fin@[t] < next && rep[fin@[t] as int]
            <= t by {
            assert(ids@[spm@[t] as int] != usize::MAX);
        }
        assert forall|v: int| 0 <= v < next implies 0 <= #[trigger] rep[v] < fin@.len() && fin@[rep[v]]
            == v by {}
        assert forall|s: int, t: int| 0 <= s < spm@.len() && 0 <= t < spm@.len() implies (fin@[s]
            == fin@[t] <==> spm@[s] == spm@[t]) by {
            assert(ids@[spm@[s] as int] != usize::MAX);
            assert(ids@[spm@[t] as int] != usize::MAX);
        }
    }
    (fin, next, Ghost(rep))
}

} // verus!
