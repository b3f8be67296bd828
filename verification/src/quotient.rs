//! The automaton of the blocks of a partition, and what it means to minimize.

use crate::automaton::{
    states_sorted, table_sorted, triple_lt, Automaton, AutomatonModel, AutomatonType,
};
use crate::hopcroft_proof::{
    agree, apart, distinguishable, justified, lemma_edge_range, reaches, refines_accept, stable,
};
use crate::partition::{ascending, sort_states, sort_table, table_ascending};
use crate::refinement::is_numbering;
use std::collections::HashMap;
use vstd::prelude::*;

verus! {

broadcast use vstd::std_specs::hash::group_hash_axioms;

/// For each state below the size, whether it is accepting.
pub open spec fn accept_seq(m: AutomatonModel) -> Seq<bool> {
    Seq::new(m.size, |s: int| m.is_accept(s))
}

/// The block of each of the first `n` states under `map`.
pub open spec fn block_seq(map: Map<usize, usize>, n: nat) -> Seq<usize> {
    Seq::new(n, |s: int| map[s as usize])
}

/// `fin` sends each state to its block, the blocks are numbered
/// `0, ..., count - 1` with rejecting blocks first and each kind in the order
/// of the least members, states of a block are alike in accepting, on every
/// symbol they go to the same blocks, and states of different blocks behave
/// differently.
pub open spec fn is_congruence(m: AutomatonModel, fin: Seq<usize>, count: int) -> bool {
    &&& fin.len() == m.size
    &&& refines_accept(m, fin)
    &&& stable(m, fin)
    &&& justified(m, fin)
    &&& exists|rep: Seq<int>| is_numbering(accept_seq(m), fin, count, rep)
}

/// `map` is defined on the states and sends them to their blocks as a
/// congruence does.
pub open spec fn is_block_map(m: AutomatonModel, map: Map<usize, usize>, count: int) -> bool {
    &&& forall|s: usize| map.contains_key(s) <==> s < m.size
    &&& is_congruence(m, block_seq(map, m.size), count)
}

/// The image of a transition under `fin`.
pub open spec fn image(fin: Seq<usize>, t: (usize, usize, usize)) -> (usize, usize, usize) {
    (fin[t.0 as int], t.1, fin[t.2 as int])
}

/// `r` is the automaton of the blocks: its transitions are the images of the
/// transitions of `m`, its start and accepting states the blocks of those of
/// `m`, each list strictly increasing.
pub open spec fn is_quotient(
    m: AutomatonModel,
    fin: Seq<usize>,
    count: int,
    r: AutomatonModel,
) -> bool {
    &&& r.kind == AutomatonType::Det
    &&& r.size == count
    &&& r.alphabet == m.alphabet
    &&& table_sorted(r.table)
    &&& forall|t: (usize, usize, usize)|
        r.table.contains(t) <==> exists|i: int|
            0 <= i < m.table.len() && t == image(fin, #[trigger] m.table[i])
    &&& states_sorted(r.start)
    &&& forall|x: usize|
        r.start.contains(x) <==> exists|i: int|
            0 <= i < m.start.len() && x == fin[#[trigger] m.start[i] as int]
    &&& states_sorted(r.end)
    &&& forall|x: usize|
        r.end.contains(x) <==> exists|i: int| 0 <= i < m.end.len() && x == fin[#[trigger] m.end[i] as int]
}

/// `r` is the minimization of the deterministic automaton `m`: the
/// automaton of the blocks of a congruence of `m`.
pub open spec fn minimizes(m: AutomatonModel, r: AutomatonModel) -> bool {
    exists|fin: Seq<usize>, count: int| #[trigger]
        is_congruence(m, fin, count) && is_quotient(m, fin, count, r)
}

/// `s` and `t` share a block under `fin` exactly when they do under `spm`.
pub open spec fn alike(spm: Seq<usize>, fin: Seq<usize>, s: int, t: int) -> bool {
    fin[s] == fin[t] <==> spm[s] == spm[t]
}

/// Being a congruence depends only on which states share a block.
pub proof fn lemma_same_pattern(m: AutomatonModel, spm: Seq<usize>, fin: Seq<usize>)
    requires
        m.wf(),
        spm.len() == m.size,
        fin.len() == m.size,
        forall|s: int, t: int| 0 <= s < m.size && 0 <= t < m.size ==> #[trigger] alike(spm, fin, s, t),
        refines_accept(m, spm),
        stable(m, spm),
        justified(m, spm),
    ensures
        refines_accept(m, fin),
        stable(m, fin),
        justified(m, fin),
{
    lemma_same_pattern_accept(m, spm, fin);
    lemma_same_pattern_stable(m, spm, fin);
    assert forall|s: int, t: int|
        0 <= s < m.size && 0 <= t < m.size && #[trigger] apart(fin, s, t) implies distinguishable(
        m,
        s,
        t,
    ) by {
        assert(alike(spm, fin, s, t));
        assert(apart(spm, s, t));
    }
}

/// Blocks alike in accepting stay so under another numbering.
proof fn lemma_same_pattern_accept(m: AutomatonModel, spm: Seq<usize>, fin: Seq<usize>)
    requires
        forall|s: int, t: int| 0 <= s < m.size && 0 <= t < m.size ==> #[trigger] alike(spm, fin, s, t),
        refines_accept(m, spm),
    ensures
        refines_accept(m, fin),
{
    assert forall|s: int, t: int|
        0 <= s < m.size && 0 <= t < m.size && #[trigger] fin[s] == #[trigger] fin[t] implies (
    m.is_accept(s) <==> m.is_accept(t)) by {
        assert(alike(spm, fin, s, t));
    }
}

/// Blocks that go to the same blocks do so under another numbering.
proof fn lemma_same_pattern_stable(m: AutomatonModel, spm: Seq<usize>, fin: Seq<usize>)
    requires
        m.wf(),
        forall|s: int, t: int| 0 <= s < m.size && 0 <= t < m.size ==> #[trigger] alike(spm, fin, s, t),
        stable(m, spm),
    ensures
        stable(m, fin),
{
    assert forall|s: int, t: int, c: int|
        0 <= s < m.size && 0 <= t < m.size && 1 <= c <= m.alphabet && fin[s] == fin[t] implies #[trigger] agree(
        m,
        fin,
        s,
        t,
        c,
    ) by {
        assert(alike(spm, fin, s, t));
        assert(agree(m, spm, s, t, c));
        assert forall|b: int|
            #![trigger reaches(m, fin, s, c, b)]
            #![trigger reaches(m, fin, t, c, b)]
            reaches(m, fin, s, c, b) == reaches(m, fin, t, c, b) by {
            if reaches(m, fin, s, c, b) {
                lemma_reaches_alike(m, spm, fin, s, t, c, b);
            }
            if reaches(m, fin, t, c, b) {
                assert(agree(m, spm, t, s, c));
                lemma_reaches_alike(m, spm, fin, t, s, c, b);
            }
        }
    }
}

/// Where one state of a block goes, each state of the block goes.
proof fn lemma_reaches_alike(
    m: AutomatonModel,
    spm: Seq<usize>,
    fin: Seq<usize>,
    s: int,
    t: int,
    c: int,
    b: int,
)
    requires
        m.wf(),
        forall|s: int, t: int| 0 <= s < m.size && 0 <= t < m.size ==> #[trigger] alike(spm, fin, s, t),
        agree(m, spm, s, t, c),
        reaches(m, fin, s, c, b),
    ensures
        reaches(m, fin, t, c, b),
{
    let x = choose|x: int| #[trigger] m.edge(s, c, x) && fin[x] == b;
    assert(reaches(m, spm, s, c, spm[x] as int));
    assert(reaches(m, spm, t, c, spm[x] as int));
    let z = choose|z: int| #[trigger] m.edge(t, c, z) && spm[z] == spm[x];
    lemma_edge_range(m, s, c, x);
    lemma_edge_range(m, t, c, z);
    assert(alike(spm, fin, x, z));
}

/// An ascending list without its repetitions.
pub fn dedup_states(v: &Vec<usize>) -> (r: Vec<usize>)
    requires
        ascending(v@),
    ensures
        states_sorted(r@),
        forall|x: usize| r@.contains(x) <==> v@.contains(x),
{
    let mut r: Vec<usize> = Vec::new();
    let mut i: usize = 0;
    while i < v.len()
        invariant
            ascending(v@),
            i <= v@.len(),
            states_sorted(r@),
            r@.len() > 0 ==> i > 0 && r@.last() == v@[i - 1],
            r@.len() == 0 ==> i == 0,
            forall|x: usize| r@.contains(x) <==> v@.take(i as int).contains(x),
        decreases v@.len() - i,
    {
        let x = v[i];
        let ghost before = r@;
        let ghost t0 = v@.take(i as int);
        let ghost t1 = v@.take(i + 1);
        proof {
            assert(t1 =~= t0.push(x));
            assert forall|z: usize| t1.contains(z) <==> t0.contains(z) || z == x by {
                if t1.contains(z) {
                    let k = choose|k: int| 0 <= k < t1.len() && t1[k] == z;
                    if k < t0.len() {
                        assert(t0[k] == z);
                    }
                }
                if t0.contains(z) {
                    let k = choose|k: int| 0 <= k < t0.len() && t0[k] == z;
                    assert(t1[k] == z);
                }
                if z == x {
                    assert(t1[i as int] == z);
                }
            }
        }
        if r.len() == 0 || r[r.len() - 1] != x {
            r.push(x);
            proof {
                assert(r@[before.len() as int] == x);
                assert forall|z: usize| r@.contains(z) <==> before.contains(z) || z == x by {
                    if r@.contains(z) {
                        let k = choose|k: int| 0 <= k < r@.len() && r@[k] == z;
                        if k < before.len() {
                            assert(before[k] == z);
                        }
                    }
                    if before.contains(z) {
                        let k = choose|k: int| 0 <= k < before.len() && before[k] == z;
                        assert(r@[k] == z);
                    }
                }
                assert forall|a: int, b: int| 0 <= a < b < r@.len() implies r@[a] < r@[b] by {
                    if b == before.len() {
                        assert(r@[a] == before[a]);
                        assert(before[a] <= before.last());
                        assert(v@[i - 1] <= v@[i as int]);
                    }
                }
            }
        } else {
            proof {
                assert(before.contains(x)) by {
                    assert(before[before.len() - 1] == x);
                }
            }
        }
        proof {
            assert forall|z: usize| r@.contains(z) <==> t1.contains(z) by {
                assert(before.contains(z) <==> t0.contains(z));
                assert(t1.contains(z) <==> t0.contains(z) || z == x);
            }
        }
        i += 1;
    }
    assert(v@.take(v@.len() as int) =~= v@);
    r
}

/// An ascending list of transitions without its repetitions.
pub fn dedup_table(v: &Vec<(usize, usize, usize)>) -> (r: Vec<(usize, usize, usize)>)
    requires
        table_ascending(v@),
    ensures
        table_sorted(r@),
        forall|x: (usize, usize, usize)| r@.contains(x) <==> v@.contains(x),
{
    let mut r: Vec<(usize, usize, usize)> = Vec::new();
    let mut i: usize = 0;
    while i < v.len()
        invariant
            table_ascending(v@),
            i <= v@.len(),
            table_sorted(r@),
            r@.len() > 0 ==> i > 0 && r@.last() == v@[i - 1],
            r@.len() == 0 ==> i == 0,
            forall|x: (usize, usize, usize)| r@.contains(x) <==> v@.take(i as int).contains(x),
        decreases v@.len() - i,
    {
        let x = v[i];
        let ghost before = r@;
        let ghost t0 = v@.take(i as int);
        let ghost t1 = v@.take(i + 1);
        proof {
            assert(t1 =~= t0.push(x));
            assert forall|z: (usize, usize, usize)| t1.contains(z) <==> t0.contains(z) || z == x by {
                if t1.contains(z) {
                    let k = choose|k: int| 0 <= k < t1.len() && t1[k] == z;
                    if k < t0.len() {
                        assert(t0[k] == z);
                    }
                }
                if t0.contains(z) {
                    let k = choose|k: int| 0 <= k < t0.len() && t0[k] == z;
                    assert(t1[k] == z);
                }
                if z == x {
                    assert(t1[i as int] == z);
                }
            }
        }
        let fresh = if r.len() == 0 {
            true
        } else {
            let last = r[r.len() - 1];
            last.0 != x.0 || last.1 != x.1 || last.2 != x.2
        };
        if fresh {
            r.push(x);
            proof {
                assert(r@[before.len() as int] == x);
                assert forall|z: (usize, usize, usize)|
                    r@.contains(z) <==> before.contains(z) || z == x by {
                    if r@.contains(z) {
                        let k = choose|k: int| 0 <= k < r@.len() && r@[k] == z;
                        if k < before.len() {
                            assert(before[k] == z);
                        }
                    }
                    if before.contains(z) {
                        let k = choose|k: int| 0 <= k < before.len() && before[k] == z;
                        assert(r@[k] == z);
                    }
                }
                assert forall|a: int, b: int| 0 <= a < b < r@.len() implies triple_lt(
                    r@[a],
                    r@[b],
                ) by {
                    if b == before.len() {
                        assert(r@[a] == before[a]);
                        if a < before.len() - 1 {
                            assert(triple_lt(before[a], before.last()));
                        }
                        assert(v@[i - 1] == v@[i as int] || triple_lt(v@[i - 1], v@[i as int]));
                    }
                }
            }
        } else {
            proof {
                assert(before.contains(x)) by {
                    assert(before[before.len() - 1] == x);
                }
            }
        }
        proof {
            assert forall|z: (usize, usize, usize)| r@.contains(z) <==> t1.contains(z) by {
                assert(before.contains(z) <==> t0.contains(z));
                assert(t1.contains(z) <==> t0.contains(z) || z == x);
            }
        }
        i += 1;
    }
    assert(v@.take(v@.len() as int) =~= v@);
    r
}

impl Automaton {
    /// The blocks of the states `s` under the map `p`, each once, in
    /// increasing order.
    pub fn get_part_vec_from_vec(p: &HashMap<usize, usize>, s: &Vec<usize>) -> (r: Vec<usize>)
        requires
            forall|i: int| 0 <= i < s@.len() ==> p@.contains_key(#[trigger] s@[i]),
        ensures
            states_sorted(r@),
            forall|x: usize| r@.contains(x) <==> exists|i: int| 0 <= i < s@.len() && x == p@[#[trigger] s@[i]],
    {
        broadcast use vstd::seq_lib::group_to_multiset_ensures;

        let mut mapped: Vec<usize> = Vec::new();
        let mut i: usize = 0;
        while i < s.len()
            invariant
                forall|i: int| 0 <= i < s@.len() ==> p@.contains_key(#[trigger] s@[i]),
                i <= s@.len(),
                mapped@.len() == i,
                forall|j: int| 0 <= j < i ==> #[trigger] mapped@[j] == p@[s@[j]],
            decreases s@.len() - i,
        {
            let b = match p.get(&s[i]) {
                Some(b) => *b,
                None => 0,
            };
            mapped.push(b);
            i += 1;
        }
        let ghost unsorted = mapped@;
        sort_states(&mut mapped);
        let r = dedup_states(&mapped);
        proof {
            assert forall|x: usize| r@.contains(x) <==> exists|i: int|
                0 <= i < s@.len() && x == p@[#[trigger] s@[i]] by {
                assert(r@.contains(x) <==> mapped@.contains(x));
                assert(mapped@.contains(x) <==> mapped@.to_multiset().count(x) > 0);
                assert(unsorted.contains(x) <==> unsorted.to_multiset().count(x) > 0);
                if unsorted.contains(x) {
                    let j = choose|j: int| 0 <= j < unsorted.len() && unsorted[j] == x;
                    assert(x == p@[s@[j]]);
                }
                if exists|i: int| 0 <= i < s@.len() && x == p@[#[trigger] s@[i]] {
                    let j = choose|j: int| 0 <= j < s@.len() && x == p@[#[trigger] s@[j]];
                    assert(unsorted[j] == x);
                }
            }
        }
        r
    }

    /// The images of the transitions under the map `p`, each once, in
    /// increasing lexicographic order.
    pub fn get_part_table(p: &HashMap<usize, usize>, table: &Vec<(usize, usize, usize)>) -> (r: Vec<
        (usize, usize, usize),
    >)
        requires
            forall|i: int|
                0 <= i < table@.len() ==> p@.contains_key((#[trigger] table@[i]).0) && p@.contains_key(
                    table@[i].2,
                ),
        ensures
            table_sorted(r@),
            forall|x: (usize, usize, usize)|
                r@.contains(x) <==> exists|i: int|
                    0 <= i < table@.len() && x == (
                        p@[(#[trigger] table@[i]).0],
                        table@[i].1,
                        p@[table@[i].2],
                    ),
    {
        broadcast use vstd::seq_lib::group_to_multiset_ensures;

        let mut mapped: Vec<(usize, usize, usize)> = Vec::new();
        let mut i: usize = 0;
        while i < table.len()
            invariant
                forall|i: int|
                    0 <= i < table@.len() ==> p@.contains_key((#[trigger] table@[i]).0)
                        && p@.contains_key(table@[i].2),
                i <= table@.len(),
                mapped@.len() == i,
                forall|j: int|
                    0 <= j < i ==> #[trigger] mapped@[j] == (
                        p@[table@[j].0],
                        table@[j].1,
                        p@[table@[j].2],
                    ),
            decreases table@.len() - i,
        {
            let t = table[i];
            assert(p@.contains_key(table@[i as int].0));
            let b0 = match p.get(&t.0) {
                Some(b) => *b,
                None => 0,
            };
            let b2 = match p.get(&t.2) {
                Some(b) => *b,
                None => 0,
            };
            mapped.push((b0, t.1, b2));
            i += 1;
        }
        let ghost unsorted = mapped@;
        sort_table(&mut mapped);
        let r = dedup_table(&mapped);
        proof {
            assert forall|x: (usize, usize, usize)|
                r@.contains(x) <==> exists|i: int|
                    0 <= i < table@.len() && x == (
                        p@[(#[trigger] table@[i]).0],
                        table@[i].1,
                        p@[table@[i].2],
                    ) by {
                assert(r@.contains(x) <==> mapped@.contains(x));
                assert(mapped@.contains(x) <==> mapped@.to_multiset().count(x) > 0);
                assert(unsorted.contains(x) <==> unsorted.to_multiset().count(x) > 0);
                if unsorted.contains(x) {
                    let j = choose|j: int| 0 <= j < unsorted.len() && unsorted[j] == x;
                    assert(x == (p@[table@[j].0], table@[j].1, p@[table@[j].2]));
                }
                if exists|i: int|
                    0 <= i < table@.len() && x == (
                        p@[(#[trigger] table@[i]).0],
                        table@[i].1,
                        p@[table@[i].2],
                    ) {
                    let j = choose|j: int|
                        0 <= j < table@.len() && x == (
                            p@[(#[trigger] table@[j]).0],
                            table@[j].1,
                            p@[table@[j].2],
                        );
                    assert(unsorted[j] == x);
                }
            }
        }
        r
    }
}

} // verus!
