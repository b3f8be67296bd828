//! The invariant of the sequential subset construction, and the lemmas that
//! carry it from one transition to the next.

use crate::automaton::{states_sorted, AutomatonModel, AutomatonType};
use crate::counting::{all_below, pairwise_distinct};
use crate::subset_construction::{
    determinizes, discovered_in_order, is_sequential_construction, is_subset_dfa, row_major,
};
use crate::ubig::{block_stands_for, lemma_compressed_injective};
use vstd::arithmetic::div_mod::lemma_fundamental_div_mod_converse;
use vstd::arithmetic::mul::lemma_mul_inequality;
use vstd::prelude::*;

verus! {

/// The state of the construction after `done` subsets were expanded in full
/// and the next one on the symbols below `a`: `keys` and `subsets` hold the
/// subsets found, `tr` the transitions and `acc` the accepting states written
/// so far, `first` the place where each subset was found.
pub open spec fn construction_ok(
    m: AutomatonModel,
    keys: Seq<Seq<u8>>,
    subsets: Seq<Set<int>>,
    first: Seq<int>,
    tr: Seq<(usize, usize, usize)>,
    acc: Seq<usize>,
    done: int,
    a: int,
) -> bool {
    let n = subsets.len() as int;
    let width = m.alphabet as int;
    &&& n >= 1
    &&& keys.len() == n
    &&& first.len() == n
    &&& subsets[0] == m.eps_closure(m.start_set())
    &&& forall|i: int| 0 <= i < n ==> block_stands_for(#[trigger] keys[i], subsets[i])
    &&& all_below(subsets, m.size)
    &&& pairwise_distinct(subsets)
    &&& 0 <= done <= n
    &&& 1 <= a <= width + 1
    &&& done == n ==> a == 1
    &&& tr.len() == done * width + a - 1
    &&& forall|k: int|
        0 <= k < tr.len() ==> {
            let t = #[trigger] tr[k];
            &&& t.0 == k / width
            &&& t.1 == k % width + 1
            &&& t.0 < n
            &&& 1 <= t.1 <= width
            &&& t.2 < n
            &&& subsets[t.2 as int] == m.step(subsets[t.0 as int], t.1 as int)
        }
    &&& states_sorted(acc)
    &&& forall|i: int| 0 <= i < acc.len() ==> #[trigger] acc[i] < n
    &&& forall|i: int|
        0 <= i < n ==> ((exists|j: int| 0 <= j < acc.len() && #[trigger] acc[j] == i)
            <==> m.hits_accept(#[trigger] subsets[i]))
    &&& forall|j: int|
        1 <= j < n ==> 0 <= #[trigger] first[j] < tr.len() && first[j] < j * width
            && tr[first[j]].2 == j
    &&& forall|j: int, k: int| 1 <= j < n && 0 <= k < #[trigger] first[j] ==> (#[trigger] tr[k]).2 < j
}

/// The automaton that the parts of a finished construction make up.
pub open spec fn dfa_model(
    alphabet: nat,
    table: Seq<(usize, usize, usize)>,
    size: nat,
    start: Seq<usize>,
    end: Seq<usize>,
) -> AutomatonModel {
    AutomatonModel { kind: AutomatonType::Det, size, alphabet, table, start, end }
}

/// The place of the next transition in the table.
pub proof fn lemma_next_place(done: int, a: int, width: int)
    requires
        0 <= done,
        1 <= a <= width,
    ensures
        (done * width + a - 1) / width == done,
        (done * width + a - 1) % width == a - 1,
{
    lemma_fundamental_div_mod_converse(done * width + a - 1, width, done, a - 1);
}

/// A transition to a subset that is already numbered keeps the invariant.
pub proof fn lemma_step_found(
    m: AutomatonModel,
    keys: Seq<Seq<u8>>,
    subsets: Seq<Set<int>>,
    first: Seq<int>,
    tr: Seq<(usize, usize, usize)>,
    acc: Seq<usize>,
    done: int,
    a: int,
    t: (usize, usize, usize),
)
    requires
        construction_ok(m, keys, subsets, first, tr, acc, done, a),
        done < subsets.len(),
        a <= m.alphabet,
        t.0 == done,
        t.1 == a,
        t.2 < subsets.len(),
        subsets[t.2 as int] == m.step(subsets[done], a),
    ensures
        construction_ok(m, keys, subsets, first, tr.push(t), acc, done, a + 1),
{
    let tr2 = tr.push(t);
    let width = m.alphabet as int;
    lemma_next_place(done, a, width);
    assert forall|k: int| 0 <= k < tr2.len() implies {
        let u = #[trigger] tr2[k];
        &&& u.0 == k / width
        &&& u.1 == k % width + 1
        &&& u.0 < subsets.len()
        &&& 1 <= u.1 <= width
        &&& u.2 < subsets.len()
        &&& subsets[u.2 as int] == m.step(subsets[u.0 as int], u.1 as int)
    } by {
        if k < tr.len() {
            assert(tr2[k] == tr[k]);
        }
    }
    assert forall|j: int| 1 <= j < subsets.len() implies 0 <= #[trigger] first[j] < tr2.len()
        && first[j] < j * width && tr2[first[j]].2 == j by {
        assert(tr2[first[j]] == tr[first[j]]);
    }
    assert forall|j: int, k: int|
        1 <= j < subsets.len() && 0 <= k < #[trigger] first[j] implies (#[trigger] tr2[k]).2 < j by {
        assert(tr2[k] == tr[k]);
    }
}

/// A transition to a subset that was not numbered yet, filed under the next
/// number, keeps the invariant.
pub proof fn lemma_step_new(
    m: AutomatonModel,
    keys: Seq<Seq<u8>>,
    subsets: Seq<Set<int>>,
    first: Seq<int>,
    tr: Seq<(usize, usize, usize)>,
    acc: Seq<usize>,
    done: int,
    a: int,
    t: (usize, usize, usize),
    key: Seq<u8>,
    v: Set<int>,
    acc2: Seq<usize>,
)
    requires
        construction_ok(m, keys, subsets, first, tr, acc, done, a),
        done < subsets.len(),
        a <= m.alphabet,
        t.0 == done,
        t.1 == a,
        t.2 == subsets.len(),
        v == m.step(subsets[done], a),
        m.in_range(v),
        block_stands_for(key, v),
        forall|i: int| 0 <= i < keys.len() ==> keys[i] != key,
        acc2 == if m.hits_accept(v) {
            acc.push(t.2)
        } else {
            acc
        },
    ensures
        construction_ok(
            m,
            keys.push(key),
            subsets.push(v),
            first.push(tr.len() as int),
            tr.push(t),
            acc2,
            done,
            a + 1,
        ),
{
    let n = subsets.len() as int;
    let width = m.alphabet as int;
    let keys2 = keys.push(key);
    let subsets2 = subsets.push(v);
    let first2 = first.push(tr.len() as int);
    let tr2 = tr.push(t);
    lemma_next_place(done, a, width);
    assert forall|i: int| 0 <= i < n + 1 implies block_stands_for(#[trigger] keys2[i], subsets2[i]) by {
        if i < n {
            assert(keys2[i] == keys[i]);
            assert(subsets2[i] == subsets[i]);
        }
    }
    assert forall|i: int, q: int| 0 <= i < subsets2.len() && #[trigger] subsets2[i].contains(q) implies 0
        <= q < m.size by {
        if i < n {
            assert(subsets2[i] == subsets[i]);
            assert(subsets[i].contains(q));
        }
    }
    assert forall|i: int, j: int| 0 <= i < j < subsets2.len() implies subsets2[i] != subsets2[j] by {
        if j < n {
            assert(subsets2[i] == subsets[i] && subsets2[j] == subsets[j]);
        } else {
            assert(subsets2[i] == subsets[i]);
            lemma_compressed_injective(keys[i], key, subsets[i], v);
        }
    }
    assert forall|k: int| 0 <= k < tr2.len() implies {
        let u = #[trigger] tr2[k];
        &&& u.0 == k / width
        &&& u.1 == k % width + 1
        &&& u.0 < subsets2.len()
        &&& 1 <= u.1 <= width
        &&& u.2 < subsets2.len()
        &&& subsets2[u.2 as int] == m.step(subsets2[u.0 as int], u.1 as int)
    } by {
        if k < tr.len() {
            assert(tr2[k] == tr[k]);
            assert(subsets2[tr[k].2 as int] == subsets[tr[k].2 as int]);
            assert(subsets2[tr[k].0 as int] == subsets[tr[k].0 as int]);
        } else {
            assert(subsets2[done] == subsets[done]);
        }
    }
    assert forall|i: int| 0 <= i < acc2.len() implies #[trigger] acc2[i] < n + 1 by {
        if i < acc.len() {
            assert(acc2[i] == acc[i]);
        }
    }
    assert(states_sorted(acc2)) by {
        assert forall|i: int, j: int| 0 <= i < j < acc2.len() implies acc2[i] < acc2[j] by {
            if j < acc.len() {
            } else {
                assert(acc2[i] == acc[i]);
            }
        }
    }
    assert forall|i: int| 0 <= i < n + 1 implies ((exists|j: int|
        0 <= j < acc2.len() && #[trigger] acc2[j] == i) <==> m.hits_accept(#[trigger] subsets2[i])) by {
        if i < n {
            assert(subsets2[i] == subsets[i]);
            if exists|j: int| 0 <= j < acc.len() && #[trigger] acc[j] == i {
                let j = choose|j: int| 0 <= j < acc.len() && #[trigger] acc[j] == i;
                assert(acc2[j] == i);
            }
            if exists|j: int| 0 <= j < acc2.len() && #[trigger] acc2[j] == i {
                let j = choose|j: int| 0 <= j < acc2.len() && #[trigger] acc2[j] == i;
                assert(j < acc.len());
                assert(acc[j] == i);
            }
        } else {
            if m.hits_accept(v) {
                assert(acc2[acc.len() as int] == n);
            } else {
                if exists|j: int| 0 <= j < acc2.len() && #[trigger] acc2[j] == i {
                    let j = choose|j: int| 0 <= j < acc2.len() && #[trigger] acc2[j] == i;
                    assert(acc[j] < n);
                }
            }
        }
    }
    assert forall|j: int| 1 <= j < n + 1 implies 0 <= #[trigger] first2[j] < tr2.len() && first2[j]
        < j * width && tr2[first2[j]].2 == j by {
        if j < n {
            assert(first2[j] == first[j]);
            assert(tr2[first[j]] == tr[first[j]]);
        } else {
            lemma_mul_inequality(done + 1, n, width);
            assert((done + 1) * width == done * width + width) by (nonlinear_arith);
        }
    }
    assert forall|j: int, k: int|
        1 <= j < n + 1 && 0 <= k < #[trigger] first2[j] implies (#[trigger] tr2[k]).2 < j by {
        assert(tr2[k] == tr[k]);
        if j < n {
            assert(first2[j] == first[j]);
        }
    }
}

/// Moving on to the next subset keeps the invariant.
pub proof fn lemma_row_done(
    m: AutomatonModel,
    keys: Seq<Seq<u8>>,
    subsets: Seq<Set<int>>,
    first: Seq<int>,
    tr: Seq<(usize, usize, usize)>,
    acc: Seq<usize>,
    done: int,
)
    requires
        construction_ok(m, keys, subsets, first, tr, acc, done, m.alphabet as int + 1),
        done < subsets.len(),
    ensures
        construction_ok(m, keys, subsets, first, tr, acc, done + 1, 1),
{
    let width = m.alphabet as int;
    assert((done + 1) * width == done * width + width) by (nonlinear_arith);
}

/// When every subset is expanded, the parts make up the determinization.
pub proof fn lemma_finished(
    m: AutomatonModel,
    keys: Seq<Seq<u8>>,
    subsets: Seq<Set<int>>,
    first: Seq<int>,
    tr: Seq<(usize, usize, usize)>,
    acc: Seq<usize>,
    start: Seq<usize>,
)
    requires
        construction_ok(m, keys, subsets, first, tr, acc, subsets.len() as int, 1),
        start == seq![0usize],
    ensures
        determinizes(m, dfa_model(m.alphabet, tr, subsets.len(), start, acc)),
{
    let n = subsets.len() as int;
    let width = m.alphabet as int;
    let d = dfa_model(m.alphabet, tr, subsets.len(), start, acc);
    assert forall|p: int, a: int| 0 <= p < d.size && 1 <= a <= d.alphabet implies #[trigger] d.has_out(
        p,
        a,
    ) by {
        let k = p * width + a - 1;
        lemma_next_place(p, a, width);
        lemma_mul_inequality(p + 1, n, width);
        assert((p + 1) * width == p * width + width) by (nonlinear_arith);
        assert(0 <= k < tr.len()) by {
            assert(p * width >= 0) by (nonlinear_arith)
                requires
                    p >= 0,
                    width >= 0,
            ;
        }
        assert(d.table[k].0 == p && d.table[k].1 == a);
        assert(d.edge(p, a, d.table[k].2 as int));
    }
    assert forall|i: int| 0 <= i < d.size implies (d.is_accept(i) <==> m.hits_accept(
        #[trigger] subsets[i],
    )) by {
        if d.is_accept(i) {
            let j = choose|j: int| 0 <= j < d.end.len() && #[trigger] d.end[j] == i;
            assert(acc[j] == i);
        }
        if exists|j: int| 0 <= j < acc.len() && #[trigger] acc[j] == i {
            let j = choose|j: int| 0 <= j < acc.len() && #[trigger] acc[j] == i;
            assert(d.end[j] == i);
        }
    }
    assert(is_subset_dfa(m, d, subsets));
    assert(row_major(d));
    assert(discovered_in_order(d, first));
    assert(is_sequential_construction(m, d, subsets, first));
}

} // verus!
