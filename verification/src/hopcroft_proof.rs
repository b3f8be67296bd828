//! The invariants of partition refinement, and the lemmas that carry them
//! through a split.

use crate::automaton::{states_sorted, AutomatonModel};
use crate::partition::{lemma_position, lemma_shortest_range, position, replaced, shortest};
use crate::counting::lemma_distinct_ints_bound;
use vstd::prelude::*;

verus! {

/// The list `l` holds the state `x`.
pub open spec fn in_list(l: Seq<usize>, x: int) -> bool {
    exists|k: int| 0 <= k < l.len() && #[trigger] l[k] == x
}

/// The blocks are strictly increasing lists, none empty, and `spm` names for
/// each state below `n` the one block that holds it.
pub open spec fn is_partition(n: int, blocks: Seq<Seq<usize>>, spm: Seq<usize>) -> bool {
    &&& spm.len() == n
    &&& forall|s: int|
        0 <= s < n ==> (#[trigger] spm[s]) < blocks.len() && in_list(blocks[spm[s] as int], s)
    &&& forall|b: int, k: int|
        0 <= b < blocks.len() && 0 <= k < blocks[b].len() ==> (#[trigger] blocks[b][k]) < n
            && spm[blocks[b][k] as int] == b
    &&& forall|b: int|
        0 <= b < blocks.len() ==> states_sorted(#[trigger] blocks[b]) && blocks[b].len() > 0
}

/// States of one block are both accepting or both not.
pub open spec fn refines_accept(m: AutomatonModel, spm: Seq<usize>) -> bool {
    forall|s: int, t: int|
        0 <= s < m.size && 0 <= t < m.size && #[trigger] spm[s] == #[trigger] spm[t] ==> (m.is_accept(
            s,
        ) <==> m.is_accept(t))
}

/// State `s` has a transition on `c` into the list `l`.
pub open spec fn enters(m: AutomatonModel, s: int, c: int, l: Seq<usize>) -> bool {
    exists|x: int| #[trigger] m.edge(s, c, x) && in_list(l, x)
}

/// Exactly one of `s` and `t` has a transition on `c` into `l`.
pub open spec fn separates(m: AutomatonModel, l: Seq<usize>, s: int, t: int, c: int) -> bool {
    enters(m, s, c, l) != enters(m, t, c, l)
}

/// State `s` has a transition on `c` into block `b`.
pub open spec fn reaches(m: AutomatonModel, spm: Seq<usize>, s: int, c: int, b: int) -> bool {
    exists|x: int| #[trigger] m.edge(s, c, x) && spm[x] == b
}

/// On `c`, `s` and `t` go to the same blocks.
pub open spec fn agree(m: AutomatonModel, spm: Seq<usize>, s: int, t: int, c: int) -> bool {
    forall|b: int|
        #![trigger reaches(m, spm, s, c, b)]
        #![trigger reaches(m, spm, t, c, b)]
        reaches(m, spm, s, c, b) == reaches(m, spm, t, c, b)
}

/// States of one block go, on every symbol, to the same blocks.
pub open spec fn stable(m: AutomatonModel, spm: Seq<usize>) -> bool {
    forall|s: int, t: int, c: int|
        0 <= s < m.size && 0 <= t < m.size && 1 <= c <= m.alphabet && spm[s] == spm[t]
            ==> #[trigger] agree(m, spm, s, t, c)
}

/// The worklist `w` holds the list `l`.
pub open spec fn holds(w: Seq<Seq<usize>>, l: Seq<usize>) -> bool {
    exists|k: int| 0 <= k < w.len() && #[trigger] w[k] == l
}

/// The disagreement of `s` and `t` on `c` is still to be dealt with: by a list
/// of the worklist, by the current splitter on a later symbol, or by the
/// current splitter on the current symbol in a block still to be visited.
pub open spec fn covered(
    m: AutomatonModel,
    spm: Seq<usize>,
    w: Seq<Seq<usize>>,
    cur: Seq<usize>,
    c0: int,
    todo: Set<int>,
    s: int,
    t: int,
    c: int,
) -> bool {
    ||| exists|k: int| 0 <= k < w.len() && separates(m, #[trigger] w[k], s, t, c)
    ||| c > c0 && separates(m, cur, s, t, c)
    ||| c == c0 && separates(m, cur, s, t, c) && todo.contains(spm[s] as int)
}

/// Every disagreement inside a block is covered.
pub open spec fn pending_ok(
    m: AutomatonModel,
    spm: Seq<usize>,
    w: Seq<Seq<usize>>,
    cur: Seq<usize>,
    c0: int,
    todo: Set<int>,
) -> bool {
    forall|s: int, t: int, c: int|
        0 <= s < m.size && 0 <= t < m.size && 1 <= c <= m.alphabet && spm[s] == spm[t] && !#[trigger] agree(
            m,
            spm,
            s,
            t,
            c,
        ) ==> covered(m, spm, w, cur, c0, todo, s, t, c)
}

/// How a split of the list `y` into `d` and `a` changes the worklist: other
/// lists stay; where `y` was held, both halves are held; where not, one is.
pub open spec fn w_step(
    w: Seq<Seq<usize>>,
    w2: Seq<Seq<usize>>,
    y: Seq<usize>,
    d: Seq<usize>,
    a: Seq<usize>,
) -> bool {
    &&& forall|k: int| 0 <= k < w.len() && #[trigger] w[k] != y ==> holds(w2, w[k])
    &&& holds(w, y) ==> holds(w2, d) && holds(w2, a)
    &&& !holds(w, y) ==> holds(w2, d) || holds(w2, a)
}

/// Replacing in the worklist is such a change.
pub proof fn lemma_replaced_step(w: Seq<Seq<usize>>, y: Seq<usize>, d: Seq<usize>, a: Seq<usize>)
    ensures
        w_step(w, replaced(w, y, seq![d, a]), y, d, a),
        replaced(w, y, seq![d, a]).len() == w.len() + 1,
{
    let r = seq![d, a];
    let w2 = replaced(w, y, r);
    let p = position(w, y, 0);
    lemma_position(w, y, 0);
    if p < w.len() {
        let tail = r.subrange(1, 2);
        assert(tail[0] == a);
        assert(w2 =~= w.update(p, d) + tail);
        assert forall|k: int| 0 <= k < w.len() && #[trigger] w[k] != y implies holds(w2, w[k]) by {
            assert(w2[k] == w[k]);
        }
        assert(w2[p] == d);
        assert(w2[w.len() as int] == a);
        assert(holds(w, y));
    } else {
        lemma_shortest_range(r, 2);
        let z = r[shortest(r, 2)];
        assert(w2 =~= w.push(z));
        assert forall|k: int| 0 <= k < w.len() && #[trigger] w[k] != y implies holds(w2, w[k]) by {
            assert(w2[k] == w[k]);
        }
        assert(w2[w.len() as int] == z);
        assert(z == d || z == a);
        if holds(w, y) {
            let k = choose|k: int| 0 <= k < w.len() && #[trigger] w[k] == y;
            assert(false);
        }
    }
}

/// A deterministic automaton enters a list on `c` only by its one transition.
pub proof fn lemma_enters_det(m: AutomatonModel, s: int, c: int, x: int, l: Seq<usize>)
    requires
        m.deterministic(),
        m.edge(s, c, x),
    ensures
        enters(m, s, c, l) <==> in_list(l, x),
{
    if enters(m, s, c, l) {
        let x2 = choose|x2: int| #[trigger] m.edge(s, c, x2) && in_list(l, x2);
        let i = choose|i: int|
            0 <= i < m.table.len() && (#[trigger] m.table[i]).0 == s && m.table[i].1 == c
                && m.table[i].2 == x;
        let j = choose|j: int|
            0 <= j < m.table.len() && (#[trigger] m.table[j]).0 == s && m.table[j].1 == c
                && m.table[j].2 == x2;
        assert(m.table[i].2 == m.table[j].2);
    }
}

/// Where two states of a block disagree, one of the blocks separates them.
pub proof fn lemma_block_separates(
    m: AutomatonModel,
    blocks: Seq<Seq<usize>>,
    spm: Seq<usize>,
    s: int,
    t: int,
    c: int,
) -> (b: int)
    requires
        m.wf(),
        is_partition(m.size as int, blocks, spm),
        !agree(m, spm, s, t, c),
    ensures
        0 <= b < blocks.len(),
        separates(m, blocks[b], s, t, c),
{
    let b = choose|b: int| reaches(m, spm, s, c, b) != reaches(m, spm, t, c, b);
    let (p, q) = if reaches(m, spm, s, c, b) {
        (s, t)
    } else {
        (t, s)
    };
    let x = choose|x: int| #[trigger] m.edge(p, c, x) && spm[x] == b;
    lemma_edge_range(m, p, c, x);
    assert(in_list(blocks[spm[x] as int], x));
    assert(enters(m, p, c, blocks[b]));
    if enters(m, q, c, blocks[b]) {
        let y = choose|y: int| #[trigger] m.edge(q, c, y) && in_list(blocks[b], y);
        let k = choose|k: int| 0 <= k < blocks[b].len() && #[trigger] blocks[b][k] == y;
        assert(spm[blocks[b][k] as int] == b);
        assert(reaches(m, spm, q, c, b));
    }
    b
}

/// The ends of a transition are states.
pub proof fn lemma_edge_range(m: AutomatonModel, s: int, c: int, x: int)
    requires
        m.wf(),
        m.edge(s, c, x),
    ensures
        0 <= s < m.size,
        0 <= x < m.size,
        0 <= c <= m.alphabet,
{
    let i = choose|i: int|
        0 <= i < m.table.len() && (#[trigger] m.table[i]).0 == s && m.table[i].1 == c
            && m.table[i].2 == x;
}

/// With every block on the worklist, every disagreement is covered.
pub proof fn lemma_initial(
    m: AutomatonModel,
    blocks: Seq<Seq<usize>>,
    spm: Seq<usize>,
    w: Seq<Seq<usize>>,
)
    requires
        m.wf(),
        is_partition(m.size as int, blocks, spm),
        forall|b: int| 0 <= b < blocks.len() ==> holds(w, #[trigger] blocks[b]),
    ensures
        pending_ok(m, spm, w, Seq::empty(), 0, Set::empty()),
{
    assert forall|s: int, t: int, c: int|
        0 <= s < m.size && 0 <= t < m.size && 1 <= c <= m.alphabet && spm[s] == spm[t] && !#[trigger] agree(
            m,
            spm,
            s,
            t,
            c,
        ) implies covered(m, spm, w, Seq::empty(), 0, Set::empty(), s, t, c) by {
        let b = lemma_block_separates(m, blocks, spm, s, t, c);
        assert(holds(w, blocks[b]));
        let k = choose|k: int| 0 <= k < w.len() && #[trigger] w[k] == blocks[b];
        assert(separates(m, w[k], s, t, c));
    }
}

/// Taking the first list off the worklist makes it the current splitter.
pub proof fn lemma_pop(
    m: AutomatonModel,
    spm: Seq<usize>,
    w: Seq<Seq<usize>>,
    any: Seq<usize>,
    c0: int,
)
    requires
        w.len() > 0,
        pending_ok(m, spm, w, any, c0, Set::empty()),
        c0 >= m.alphabet,
    ensures
        pending_ok(m, spm, w.subrange(1, w.len() as int), w[0], 0, Set::empty()),
{
    let w2 = w.subrange(1, w.len() as int);
    assert forall|s: int, t: int, c: int|
        0 <= s < m.size && 0 <= t < m.size && 1 <= c <= m.alphabet && spm[s] == spm[t] && !#[trigger] agree(
            m,
            spm,
            s,
            t,
            c,
        ) implies covered(m, spm, w2, w[0], 0, Set::empty(), s, t, c) by {
        assert(covered(m, spm, w, any, c0, Set::empty(), s, t, c));
        let k = choose|k: int| 0 <= k < w.len() && separates(m, #[trigger] w[k], s, t, c);
        if k > 0 {
            assert(w2[k - 1] == w[k]);
        }
    }
}

/// Turning to the symbol `c`: the blocks to visit are those with a state that
/// enters the current splitter on `c`.
pub proof fn lemma_begin_symbol(
    m: AutomatonModel,
    spm: Seq<usize>,
    w: Seq<Seq<usize>>,
    cur: Seq<usize>,
    c: int,
    todo: Set<int>,
)
    requires
        pending_ok(m, spm, w, cur, c - 1, Set::empty()),
        forall|s: int| 0 <= s < m.size && enters(m, s, c, cur) ==> todo.contains(#[trigger] spm[s] as int),
    ensures
        pending_ok(m, spm, w, cur, c, todo),
{
    assert forall|s: int, t: int, c2: int|
        0 <= s < m.size && 0 <= t < m.size && 1 <= c2 <= m.alphabet && spm[s] == spm[t] && !#[trigger] agree(
            m,
            spm,
            s,
            t,
            c2,
        ) implies covered(m, spm, w, cur, c, todo, s, t, c2) by {
        assert(covered(m, spm, w, cur, c - 1, Set::empty(), s, t, c2));
        if c2 == c && separates(m, cur, s, t, c2) {
            assert(todo.contains(spm[s] as int) || todo.contains(spm[t] as int));
        }
    }
}

/// A visited block that the current splitter does not divide needs no split.
pub proof fn lemma_skip_block(
    m: AutomatonModel,
    spm: Seq<usize>,
    w: Seq<Seq<usize>>,
    cur: Seq<usize>,
    c: int,
    todo: Set<int>,
    i: int,
)
    requires
        pending_ok(m, spm, w, cur, c, todo),
        forall|s: int, t: int|
            0 <= s < m.size && 0 <= t < m.size && #[trigger] spm[s] == i && #[trigger] spm[t] == i
                ==> !separates(m, cur, s, t, c),
    ensures
        pending_ok(m, spm, w, cur, c, todo.remove(i)),
{
    assert forall|s: int, t: int, c2: int|
        0 <= s < m.size && 0 <= t < m.size && 1 <= c2 <= m.alphabet && spm[s] == spm[t] && !#[trigger] agree(
            m,
            spm,
            s,
            t,
            c2,
        ) implies covered(m, spm, w, cur, c, todo.remove(i), s, t, c2) by {
        assert(covered(m, spm, w, cur, c, todo, s, t, c2));
    }
}

/// The map from states to blocks after block `i` gave its list `a` to a new block.
pub open spec fn split_map(spm: Seq<usize>, spm2: Seq<usize>, a: Seq<usize>, fresh: int) -> bool {
    &&& spm2.len() == spm.len()
    &&& forall|s: int|
        0 <= s < spm.len() ==> #[trigger] spm2[s] == if in_list(a, s) {
            fresh
        } else {
            spm[s] as int
        }
}

/// Block `i` is divided into `d`, the states that do not enter the current
/// splitter on `c`, and `a`, those that do.
pub open spec fn is_split(
    m: AutomatonModel,
    y: Seq<usize>,
    d: Seq<usize>,
    a: Seq<usize>,
    cur: Seq<usize>,
    c: int,
) -> bool {
    &&& forall|x: int| in_list(a, x) <==> in_list(y, x) && enters(m, x, c, cur)
    &&& forall|x: int| in_list(d, x) <==> in_list(y, x) && !enters(m, x, c, cur)
}

/// A split keeps the partition.
pub proof fn lemma_split_partition(
    m: AutomatonModel,
    blocks: Seq<Seq<usize>>,
    spm: Seq<usize>,
    spm2: Seq<usize>,
    i: int,
    d: Seq<usize>,
    a: Seq<usize>,
    cur: Seq<usize>,
    c: int,
)
    requires
        is_partition(m.size as int, blocks, spm),
        0 <= i < blocks.len(),
        is_split(m, blocks[i], d, a, cur, c),
        states_sorted(d),
        states_sorted(a),
        d.len() > 0,
        a.len() > 0,
        split_map(spm, spm2, a, blocks.len() as int),
    ensures
        is_partition(m.size as int, blocks.update(i, d).push(a), spm2),
        refines_accept(m, spm) ==> refines_accept(m, spm2),
{
    let n = m.size as int;
    let fresh = blocks.len() as int;
    let blocks2 = blocks.update(i, d).push(a);
    let y = blocks[i];
    assert forall|s: int| 0 <= s < n implies (#[trigger] spm2[s]) < blocks2.len() && in_list(
        blocks2[spm2[s] as int],
        s,
    ) by {
        assert(in_list(blocks[spm[s] as int], s));
        if in_list(a, s) {
        } else if spm[s] == i {
            assert(in_list(d, s));
        } else {
            assert(blocks2[spm[s] as int] == blocks[spm[s] as int]);
        }
    }
    assert forall|b: int, k: int| 0 <= b < blocks2.len() && 0 <= k < blocks2[b].len() implies (
    #[trigger] blocks2[b][k]) < n && spm2[blocks2[b][k] as int] == b by {
        let x = blocks2[b][k] as int;
        if b == fresh {
            assert(in_list(a, x));
            assert(in_list(y, x));
            let k2 = choose|k2: int| 0 <= k2 < y.len() && #[trigger] y[k2] == x;
            assert(blocks[i][k2] < n);
        } else if b == i {
            assert(in_list(d, x));
            assert(in_list(y, x));
            let k2 = choose|k2: int| 0 <= k2 < y.len() && #[trigger] y[k2] == x;
            assert(blocks[i][k2] < n && spm[blocks[i][k2] as int] == i);
            assert(!in_list(a, x));
        } else {
            assert(blocks2[b] == blocks[b]);
            assert(blocks[b][k] < n && spm[blocks[b][k] as int] == b);
            if in_list(a, x) {
                assert(in_list(y, x));
                let k2 = choose|k2: int| 0 <= k2 < y.len() && #[trigger] y[k2] == x;
                assert(spm[blocks[i][k2] as int] == i);
            }
        }
    }
    assert forall|b: int| 0 <= b < blocks2.len() implies states_sorted(#[trigger] blocks2[b])
        && blocks2[b].len() > 0 by {
        if b != fresh && b != i {
            assert(blocks2[b] == blocks[b]);
        }
    }
    if refines_accept(m, spm) {
        assert forall|s: int, t: int|
            0 <= s < m.size && 0 <= t < m.size && #[trigger] spm2[s] == #[trigger] spm2[t] implies (
        m.is_accept(s) <==> m.is_accept(t)) by {
            lemma_split_same(m, blocks, spm, spm2, i, a, s, t);
        }
    }
}

/// States that share a block after a split shared one before.
pub proof fn lemma_split_same(
    m: AutomatonModel,
    blocks: Seq<Seq<usize>>,
    spm: Seq<usize>,
    spm2: Seq<usize>,
    i: int,
    a: Seq<usize>,
    s: int,
    t: int,
)
    requires
        is_partition(m.size as int, blocks, spm),
        0 <= i < blocks.len(),
        forall|x: int| in_list(a, x) ==> in_list(blocks[i], x),
        split_map(spm, spm2, a, blocks.len() as int),
        0 <= s < m.size,
        0 <= t < m.size,
        spm2[s] == spm2[t],
    ensures
        spm[s] == spm[t],
        in_list(a, s) == in_list(a, t),
{
    let y = blocks[i];
    if in_list(a, s) {
        assert(in_list(y, s));
        let k = choose|k: int| 0 <= k < y.len() && #[trigger] y[k] == s;
        assert(spm[blocks[i][k] as int] == i);
    }
    if in_list(a, t) {
        assert(in_list(y, t));
        let k = choose|k: int| 0 <= k < y.len() && #[trigger] y[k] == t;
        assert(spm[blocks[i][k] as int] == i);
    }
}

/// A list that is held and divides two states keeps a dividing list on the
/// worklist when the worklist changes by a split.
pub proof fn lemma_separator_survives(
    m: AutomatonModel,
    w: Seq<Seq<usize>>,
    w2: Seq<Seq<usize>>,
    y: Seq<usize>,
    d: Seq<usize>,
    a: Seq<usize>,
    k: int,
    s: int,
    t: int,
    c: int,
)
    requires
        w_step(w, w2, y, d, a),
        forall|x: int| in_list(y, x) <==> in_list(d, x) || in_list(a, x),
        0 <= k < w.len(),
        separates(m, w[k], s, t, c),
    ensures
        exists|k2: int| 0 <= k2 < w2.len() && separates(m, #[trigger] w2[k2], s, t, c),
{
    if w[k] != y {
        assert(holds(w2, w[k]));
        let k2 = choose|k2: int| 0 <= k2 < w2.len() && #[trigger] w2[k2] == w[k];
        assert(separates(m, w2[k2], s, t, c));
    } else {
        assert(holds(w, y));
        let kd = choose|kd: int| 0 <= kd < w2.len() && #[trigger] w2[kd] == d;
        let ka = choose|ka: int| 0 <= ka < w2.len() && #[trigger] w2[ka] == a;
        let (p, q) = if enters(m, s, c, y) {
            (s, t)
        } else {
            (t, s)
        };
        let x = choose|x: int| #[trigger] m.edge(p, c, x) && in_list(y, x);
        if in_list(d, x) {
            assert(enters(m, p, c, d));
            if enters(m, q, c, d) {
                let z = choose|z: int| #[trigger] m.edge(q, c, z) && in_list(d, z);
                assert(in_list(y, z));
                assert(enters(m, q, c, y));
            }
            assert(separates(m, w2[kd], s, t, c));
        } else {
            assert(in_list(a, x));
            assert(enters(m, p, c, a));
            if enters(m, q, c, a) {
                let z = choose|z: int| #[trigger] m.edge(q, c, z) && in_list(a, z);
                assert(in_list(y, z));
                assert(enters(m, q, c, y));
            }
            assert(separates(m, w2[ka], s, t, c));
        }
    }
}

/// Two states that went to one block before a split and go to two after it
/// are divided by a half on the worklist.
pub proof fn lemma_new_disagreement(
    m: AutomatonModel,
    blocks: Seq<Seq<usize>>,
    spm: Seq<usize>,
    spm2: Seq<usize>,
    w: Seq<Seq<usize>>,
    w2: Seq<Seq<usize>>,
    i: int,
    d: Seq<usize>,
    a: Seq<usize>,
    s: int,
    t: int,
    c: int,
)
    requires
        m.wf(),
        m.deterministic(),
        is_partition(m.size as int, blocks, spm),
        0 <= i < blocks.len(),
        forall|x: int| in_list(blocks[i], x) <==> in_list(d, x) || in_list(a, x),
        forall|x: int| !(in_list(d, x) && in_list(a, x)),
        split_map(spm, spm2, a, blocks.len() as int),
        w_step(w, w2, blocks[i], d, a),
        agree(m, spm, s, t, c),
        exists|b: int| reaches(m, spm2, s, c, b) && !reaches(m, spm2, t, c, b),
    ensures
        exists|k2: int| 0 <= k2 < w2.len() && separates(m, #[trigger] w2[k2], s, t, c),
{
    let y = blocks[i];
    let b2 = choose|b: int| reaches(m, spm2, s, c, b) && !reaches(m, spm2, t, c, b);
    let x = choose|x: int| #[trigger] m.edge(s, c, x) && spm2[x] == b2;
    assert(reaches(m, spm, s, c, spm[x] as int));
    assert(reaches(m, spm, t, c, spm[x] as int));
    let z = choose|z: int| #[trigger] m.edge(t, c, z) && spm[z] == spm[x];
    lemma_edge_range(m, s, c, x);
    lemma_edge_range(m, t, c, z);
    assert(spm2[x] != spm2[z]) by {
        if spm2[x] == spm2[z] {
            assert(reaches(m, spm2, t, c, b2));
        }
    }
    assert(in_list(a, x) != in_list(a, z));
    assert(in_list(y, x) && in_list(y, z)) by {
        if in_list(a, x) {
            assert(in_list(y, x));
            let k = choose|k: int| 0 <= k < y.len() && #[trigger] y[k] == x;
            assert(spm[blocks[i][k] as int] == i);
            assert(in_list(blocks[spm[z] as int], z));
        } else {
            assert(in_list(y, z));
            let k = choose|k: int| 0 <= k < y.len() && #[trigger] y[k] == z;
            assert(spm[blocks[i][k] as int] == i);
            assert(in_list(blocks[spm[x] as int], x));
        }
    }
    assert(in_list(d, x) != in_list(d, z));
    lemma_enters_det(m, s, c, x, d);
    lemma_enters_det(m, s, c, x, a);
    lemma_enters_det(m, t, c, z, d);
    lemma_enters_det(m, t, c, z, a);
    if holds(w2, a) {
        let ka = choose|ka: int| 0 <= ka < w2.len() && #[trigger] w2[ka] == a;
        assert(separates(m, w2[ka], s, t, c));
    } else {
        assert(holds(w2, d));
        let kd = choose|kd: int| 0 <= kd < w2.len() && #[trigger] w2[kd] == d;
        assert(separates(m, w2[kd], s, t, c));
    }
}

/// A split keeps every disagreement covered.
pub proof fn lemma_split_pending(
    m: AutomatonModel,
    blocks: Seq<Seq<usize>>,
    spm: Seq<usize>,
    spm2: Seq<usize>,
    w: Seq<Seq<usize>>,
    w2: Seq<Seq<usize>>,
    cur: Seq<usize>,
    c0: int,
    todo: Set<int>,
    i: int,
    d: Seq<usize>,
    a: Seq<usize>,
)
    requires
        m.wf(),
        m.deterministic(),
        is_partition(m.size as int, blocks, spm),
        0 <= i < blocks.len(),
        is_split(m, blocks[i], d, a, cur, c0),
        split_map(spm, spm2, a, blocks.len() as int),
        w_step(w, w2, blocks[i], d, a),
        pending_ok(m, spm, w, cur, c0, todo),
    ensures
        pending_ok(m, spm2, w2, cur, c0, todo.remove(i)),
{
    let y = blocks[i];
    assert forall|s: int, t: int, c: int|
        0 <= s < m.size && 0 <= t < m.size && 1 <= c <= m.alphabet && spm2[s] == spm2[t] && !#[trigger] agree(
            m,
            spm2,
            s,
            t,
            c,
        ) implies covered(m, spm2, w2, cur, c0, todo.remove(i), s, t, c) by {
        lemma_split_same(m, blocks, spm, spm2, i, a, s, t);
        if !agree(m, spm, s, t, c) {
            assert(covered(m, spm, w, cur, c0, todo, s, t, c));
            if exists|k: int| 0 <= k < w.len() && separates(m, #[trigger] w[k], s, t, c) {
                let k = choose|k: int| 0 <= k < w.len() && separates(m, #[trigger] w[k], s, t, c);
                lemma_separator_survives(m, w, w2, y, d, a, k, s, t, c);
            } else if c > c0 && separates(m, cur, s, t, c) {
            } else {
                assert(c == c0 && separates(m, cur, s, t, c) && todo.contains(spm[s] as int));
                if spm[s] == i {
                    assert(in_list(blocks[spm[s] as int], s));
                    assert(in_list(blocks[spm[t] as int], t));
                    assert(in_list(a, s) != in_list(a, t));
                    assert(false);
                } else {
                    assert(!in_list(a, s)) by {
                        if in_list(a, s) {
                            assert(in_list(y, s));
                            let k = choose|k: int| 0 <= k < y.len() && #[trigger] y[k] == s;
                            assert(spm[blocks[i][k] as int] == i);
                        }
                    }
                    assert(spm2[s] == spm[s]);
                }
            }
        } else {
            let b2 = choose|b: int| reaches(m, spm2, s, c, b) != reaches(m, spm2, t, c, b);
            if reaches(m, spm2, s, c, b2) {
                lemma_new_disagreement(m, blocks, spm, spm2, w, w2, i, d, a, s, t, c);
            } else {
                assert(agree(m, spm, t, s, c));
                lemma_new_disagreement(m, blocks, spm, spm2, w, w2, i, d, a, t, s, c);
                let k2 = choose|k2: int|
                    0 <= k2 < w2.len() && separates(m, #[trigger] w2[k2], t, s, c);
                assert(separates(m, w2[k2], s, t, c));
            }
        }
    }
}

/// When the current splitter has been through every symbol, it is done with.
pub proof fn lemma_end_splitter(
    m: AutomatonModel,
    spm: Seq<usize>,
    w: Seq<Seq<usize>>,
    cur: Seq<usize>,
)
    requires
        pending_ok(m, spm, w, cur, m.alphabet as int, Set::empty()),
    ensures
        forall|any: Seq<usize>, c0: int| c0 >= m.alphabet ==> #[trigger] pending_ok(m, spm, w, any, c0, Set::empty()),
{
    assert forall|any: Seq<usize>, c0: int| c0 >= m.alphabet implies #[trigger] pending_ok(
        m,
        spm,
        w,
        any,
        c0,
        Set::empty(),
    ) by {
        assert forall|s: int, t: int, c: int|
            0 <= s < m.size && 0 <= t < m.size && 1 <= c <= m.alphabet && spm[s] == spm[t] && !#[trigger] agree(
                m,
                spm,
                s,
                t,
                c,
            ) implies covered(m, spm, w, any, c0, Set::empty(), s, t, c) by {
            assert(covered(m, spm, w, cur, m.alphabet as int, Set::empty(), s, t, c));
        }
    }
}

/// With the worklist empty, the partition is stable.
pub proof fn lemma_done(m: AutomatonModel, spm: Seq<usize>, w: Seq<Seq<usize>>, any: Seq<usize>, c0: int)
    requires
        w.len() == 0,
        c0 >= m.alphabet,
        pending_ok(m, spm, w, any, c0, Set::empty()),
    ensures
        stable(m, spm),
{
    assert forall|s: int, t: int, c: int|
        0 <= s < m.size && 0 <= t < m.size && 1 <= c <= m.alphabet && spm[s] == spm[t] implies #[trigger] agree(
        m,
        spm,
        s,
        t,
        c,
    ) by {
        if !agree(m, spm, s, t, c) {
            assert(covered(m, spm, w, any, c0, Set::empty(), s, t, c));
        }
    }
}

/// A partition of `n` states has at most `n` blocks.
pub proof fn lemma_blocks_bound(n: int, blocks: Seq<Seq<usize>>, spm: Seq<usize>)
    requires
        0 <= n,
        is_partition(n, blocks, spm),
    ensures
        blocks.len() <= n,
{
    let heads = Seq::new(blocks.len(), |b: int| blocks[b][0] as int);
    assert forall|b: int| 0 <= b < heads.len() implies 0 <= #[trigger] heads[b] < n && spm[heads[b]]
        == b by {
        assert(blocks[b].len() > 0 && states_sorted(blocks[b]));
        assert(blocks[b][0] < n && spm[blocks[b][0] as int] == b);
    }
    assert forall|i: int, j: int| 0 <= i < j < heads.len() implies heads[i] != heads[j] by {
        assert(spm[heads[i]] == i);
        assert(spm[heads[j]] == j);
    }
    lemma_distinct_ints_bound(heads, n);
}

/// Within `k` steps the states `s` and `t` behave differently: one is
/// accepting and the other is not, or on some symbol only one of them has a
/// transition, or both have and the states they reach behave differently
/// within one step less.
pub open spec fn differs(m: AutomatonModel, s: int, t: int, k: nat) -> bool
    decreases k,
{
    if k == 0 {
        m.is_accept(s) != m.is_accept(t)
    } else {
        ||| differs(m, s, t, (k - 1) as nat)
        ||| exists|c: int| 1 <= c <= m.alphabet && #[trigger] m.has_out(s, c) != m.has_out(t, c)
        ||| exists|c: int, x: int, y: int|
            1 <= c <= m.alphabet && #[trigger] m.edge(s, c, x) && #[trigger] m.edge(t, c, y) && differs(
                m,
                x,
                y,
                (k - 1) as nat,
            )
    }
}

/// On the symbol `c`, only one of `s` and `t` has a transition, or the
/// states they reach behave differently within `k` steps.
pub open spec fn step_differs(m: AutomatonModel, s: int, t: int, c: int, k: nat) -> bool {
    m.has_out(s, c) != m.has_out(t, c) || exists|x: int, y: int|
        #[trigger] m.edge(s, c, x) && #[trigger] m.edge(t, c, y) && differs(m, x, y, k)
}

/// A difference on a symbol within `k` steps is a difference within `k + 1` steps.
pub proof fn lemma_step_differs(m: AutomatonModel, s: int, t: int, c: int, k: nat)
    requires
        1 <= c <= m.alphabet,
        step_differs(m, s, t, c, k),
    ensures
        differs(m, s, t, k + 1),
{
    if m.has_out(s, c) != m.has_out(t, c) {
    } else {
        let (x, y) = choose|x: int, y: int|
            #[trigger] m.edge(s, c, x) && #[trigger] m.edge(t, c, y) && differs(m, x, y, k);
        assert(1 <= c <= m.alphabet && m.edge(s, c, x) && m.edge(t, c, y) && differs(
            m,
            x,
            y,
            ((k + 1) - 1) as nat,
        ));
    }
}

/// A difference within `k + 1` steps is one within `k` steps or one on a symbol.
pub proof fn lemma_differs_cases(m: AutomatonModel, s: int, t: int, k: nat)
    requires
        k > 0,
        differs(m, s, t, k),
        !differs(m, s, t, (k - 1) as nat),
    ensures
        exists|c: int| 1 <= c <= m.alphabet && #[trigger] step_differs(m, s, t, c, (k - 1) as nat),
{
    if exists|c: int| 1 <= c <= m.alphabet && #[trigger] m.has_out(s, c) != m.has_out(t, c) {
        let c = choose|c: int| 1 <= c <= m.alphabet && #[trigger] m.has_out(s, c) != m.has_out(t, c);
        assert(step_differs(m, s, t, c, (k - 1) as nat));
    } else {
        let (c, x, y) = choose|c: int, x: int, y: int|
            1 <= c <= m.alphabet && #[trigger] m.edge(s, c, x) && #[trigger] m.edge(t, c, y) && differs(
                m,
                x,
                y,
                (k - 1) as nat,
            );
        assert(step_differs(m, s, t, c, (k - 1) as nat));
    }
}

/// The states `s` and `t` behave differently.
pub open spec fn distinguishable(m: AutomatonModel, s: int, t: int) -> bool {
    exists|k: nat| differs(m, s, t, k)
}

/// The states `s` and `t` are in different blocks.
pub open spec fn apart(spm: Seq<usize>, s: int, t: int) -> bool {
    spm[s] != spm[t]
}

/// States of different blocks behave differently: no block was divided
/// without need.
pub open spec fn justified(m: AutomatonModel, spm: Seq<usize>) -> bool {
    forall|s: int, t: int|
        0 <= s < m.size && 0 <= t < m.size && #[trigger] apart(spm, s, t) ==> distinguishable(m, s, t)
}

/// With a state, the list `l` holds the whole block of the state.
pub open spec fn saturated(spm: Seq<usize>, l: Seq<usize>) -> bool {
    forall|x: int, y: int|
        0 <= x < spm.len() && 0 <= y < spm.len() && in_list(l, x) && #[trigger] apart(spm, x, y)
            == false ==> in_list(l, y)
}

/// Every list of the worklist holds whole blocks.
pub open spec fn all_saturated(spm: Seq<usize>, w: Seq<Seq<usize>>) -> bool {
    forall|k: int| 0 <= k < w.len() ==> saturated(spm, #[trigger] w[k])
}

/// Behaving differently does not depend on the order of the two states.
pub proof fn lemma_differs_sym(m: AutomatonModel, s: int, t: int, k: nat)
    requires
        differs(m, s, t, k),
    ensures
        differs(m, t, s, k),
    decreases k,
{
    if k > 0 {
        let k1 = (k - 1) as nat;
        if differs(m, s, t, k1) {
            lemma_differs_sym(m, s, t, k1);
        } else {
            lemma_differs_cases(m, s, t, k);
            let c = choose|c: int| 1 <= c <= m.alphabet && #[trigger] step_differs(m, s, t, c, k1);
            if m.has_out(s, c) != m.has_out(t, c) {
            } else {
                let (x, y) = choose|x: int, y: int|
                    #[trigger] m.edge(s, c, x) && #[trigger] m.edge(t, c, y) && differs(m, x, y, k1);
                lemma_differs_sym(m, x, y, k1);
                assert(m.edge(t, c, y) && m.edge(s, c, x) && differs(m, y, x, k1));
            }
            assert(step_differs(m, t, s, c, k1));
            lemma_step_differs(m, t, s, c, k1);
        }
    }
}

/// The halves of a divided block behave differently from each other.
pub proof fn lemma_halves_differ(
    m: AutomatonModel,
    spm: Seq<usize>,
    cur: Seq<usize>,
    c: int,
    s: int,
    t: int,
)
    requires
        m.wf(),
        m.deterministic(),
        spm.len() == m.size,
        justified(m, spm),
        saturated(spm, cur),
        forall|j: int| 0 <= j < cur.len() ==> #[trigger] cur[j] < m.size,
        1 <= c <= m.alphabet,
        0 <= s < m.size,
        0 <= t < m.size,
        enters(m, s, c, cur),
        !enters(m, t, c, cur),
    ensures
        distinguishable(m, s, t),
{
    let x = choose|x: int| #[trigger] m.edge(s, c, x) && in_list(cur, x);
    lemma_edge_range(m, s, c, x);
    assert(m.has_out(s, c));
    if !m.has_out(t, c) {
        assert(step_differs(m, s, t, c, 0));
        lemma_step_differs(m, s, t, c, 0);
    } else {
        let y = choose|y: int| m.edge(t, c, y);
        lemma_edge_range(m, t, c, y);
        assert(!in_list(cur, y));
        assert(apart(spm, x, y));
        let k = choose|k: nat| differs(m, x, y, k);
        assert(m.edge(s, c, x) && m.edge(t, c, y) && differs(m, x, y, k));
        assert(step_differs(m, s, t, c, k));
        lemma_step_differs(m, s, t, c, k);
    }
}

/// A split keeps the blocks justified.
pub proof fn lemma_split_justified(
    m: AutomatonModel,
    blocks: Seq<Seq<usize>>,
    spm: Seq<usize>,
    spm2: Seq<usize>,
    i: int,
    d: Seq<usize>,
    a: Seq<usize>,
    cur: Seq<usize>,
    c: int,
)
    requires
        m.wf(),
        m.deterministic(),
        is_partition(m.size as int, blocks, spm),
        0 <= i < blocks.len(),
        is_split(m, blocks[i], d, a, cur, c),
        split_map(spm, spm2, a, blocks.len() as int),
        justified(m, spm),
        saturated(spm, cur),
        forall|j: int| 0 <= j < cur.len() ==> #[trigger] cur[j] < m.size,
        1 <= c <= m.alphabet,
    ensures
        justified(m, spm2),
{
    let y = blocks[i];
    assert forall|s: int, t: int|
        0 <= s < m.size && 0 <= t < m.size && #[trigger] apart(spm2, s, t) implies distinguishable(
        m,
        s,
        t,
    ) by {
        if apart(spm, s, t) {
        } else {
            assert(in_list(blocks[spm[s] as int], s));
            assert(in_list(blocks[spm[t] as int], t));
            assert(in_list(a, s) != in_list(a, t));
            if in_list(a, s) {
                assert(in_list(y, t));
                lemma_halves_differ(m, spm, cur, c, s, t);
            } else {
                assert(in_list(y, s));
                lemma_halves_differ(m, spm, cur, c, t, s);
                let k = choose|k: nat| differs(m, t, s, k);
                lemma_differs_sym(m, t, s, k);
            }
        }
    }
}

/// Lists that hold whole blocks still do after a split, and so do the halves.
pub proof fn lemma_split_saturated(
    m: AutomatonModel,
    blocks: Seq<Seq<usize>>,
    spm: Seq<usize>,
    spm2: Seq<usize>,
    i: int,
    d: Seq<usize>,
    a: Seq<usize>,
    l: Seq<usize>,
)
    requires
        is_partition(m.size as int, blocks, spm),
        0 <= i < blocks.len(),
        forall|x: int| in_list(blocks[i], x) <==> in_list(d, x) || in_list(a, x),
        forall|x: int| !(in_list(d, x) && in_list(a, x)),
        split_map(spm, spm2, a, blocks.len() as int),
        saturated(spm, l) || l == d || l == a,
    ensures
        saturated(spm2, l),
{
    let yy = blocks[i];
    assert forall|x: int, y: int|
        0 <= x < spm2.len() && 0 <= y < spm2.len() && in_list(l, x) && #[trigger] apart(spm2, x, y)
            == false implies in_list(l, y) by {
        lemma_split_same(m, blocks, spm, spm2, i, a, x, y);
        assert(in_list(blocks[spm[y] as int], y));
        assert(in_list(blocks[spm[x] as int], x));
        if l == a {
        } else if l == d {
            assert(in_list(yy, x));
            let k = choose|k: int| 0 <= k < yy.len() && #[trigger] yy[k] == x;
            assert(spm[blocks[i][k] as int] == i);
        } else {
            assert(apart(spm, x, y) == false);
        }
    }
}

/// After a split, every list of the changed worklist holds whole blocks.
pub proof fn lemma_split_all_saturated(
    m: AutomatonModel,
    blocks: Seq<Seq<usize>>,
    spm: Seq<usize>,
    spm2: Seq<usize>,
    i: int,
    d: Seq<usize>,
    a: Seq<usize>,
    w: Seq<Seq<usize>>,
)
    requires
        is_partition(m.size as int, blocks, spm),
        0 <= i < blocks.len(),
        forall|x: int| in_list(blocks[i], x) <==> in_list(d, x) || in_list(a, x),
        forall|x: int| !(in_list(d, x) && in_list(a, x)),
        split_map(spm, spm2, a, blocks.len() as int),
        all_saturated(spm, w),
    ensures
        all_saturated(spm2, replaced(w, blocks[i], seq![d, a])),
{
    let y = blocks[i];
    let r = seq![d, a];
    let w2 = replaced(w, y, r);
    let p = position(w, y, 0);
    lemma_position(w, y, 0);
    lemma_shortest_range(r, 2);
    assert forall|k: int| 0 <= k < w2.len() implies saturated(spm2, #[trigger] w2[k]) by {
        if p < w.len() {
            assert(w2 =~= w.update(p, d) + r.subrange(1, 2));
            if k < w.len() && k != p {
                assert(w2[k] == w[k]);
                assert(saturated(spm, w[k]));
            } else if k == p {
                assert(w2[k] == d);
            } else {
                assert(w2[k] == a);
            }
        } else {
            assert(w2 =~= w.push(r[shortest(r, 2)]));
            if k < w.len() {
                assert(w2[k] == w[k]);
                assert(saturated(spm, w[k]));
            }
        }
        lemma_split_saturated(m, blocks, spm, spm2, i, d, a, w2[k]);
    }
}

/// A block holds its whole block.
pub proof fn lemma_block_saturated(n: int, blocks: Seq<Seq<usize>>, spm: Seq<usize>, b: int)
    requires
        is_partition(n, blocks, spm),
        0 <= b < blocks.len(),
    ensures
        saturated(spm, blocks[b]),
{
    assert forall|x: int, y: int|
        0 <= x < spm.len() && 0 <= y < spm.len() && in_list(blocks[b], x) && #[trigger] apart(
            spm,
            x,
            y,
        ) == false implies in_list(blocks[b], y) by {
        let k = choose|k: int| 0 <= k < blocks[b].len() && #[trigger] blocks[b][k] == x;
        assert(spm[blocks[b][k] as int] == b);
        assert(in_list(blocks[spm[y] as int], y));
    }
}

} // verus!
