//! There is one determinization of an automaton: whether it is built on one
//! frontier or on any number of shards, the result is the same.

use crate::automaton::{AutomatonModel, AutomatonType};
use crate::laws::{is_determinized, is_minimized};
use crate::subset_construction::{determinizes, discovered_in_order, is_sequential_construction};
use crate::unique::{lemma_minimization_unique, lemma_sorted_states_unique};
use vstd::arithmetic::div_mod::{lemma_fundamental_div_mod, lemma_mod_bound};
use vstd::prelude::*;

verus! {

/// State `j` is the start state or was reached before place `k` of the table.
pub open spec fn known(first: Seq<int>, j: int, k: int) -> bool {
    j == 0 || (1 <= j < first.len() && first[j] < k)
}

/// The two constructions agree before place `k`: their tables are the same
/// there, and the states known by then are the same and stand for the same
/// subsets.
pub open spec fn prefix_agree(
    d1: AutomatonModel,
    s1: Seq<Set<int>>,
    f1: Seq<int>,
    d2: AutomatonModel,
    s2: Seq<Set<int>>,
    f2: Seq<int>,
    k: int,
) -> bool {
    &&& forall|i: int| 0 <= i < k ==> #[trigger] d1.table[i] == d2.table[i]
    &&& forall|j: int|
        0 <= j < s1.len() && #[trigger] known(f1, j, k) ==> j < s2.len() && s1[j] == s2[j] && known(
            f2,
            j,
            k,
        )
    &&& forall|j: int|
        0 <= j < s2.len() && #[trigger] known(f2, j, k) ==> j < s1.len() && s1[j] == s2[j] && known(
            f1,
            j,
            k,
        )
}

/// The place where a state is first a destination is no later than any place
/// where it is a destination.
proof fn lemma_first_is_first(d: AutomatonModel, first: Seq<int>, j: int, k: int)
    requires
        discovered_in_order(d, first),
        1 <= j < d.size,
        0 <= k < d.table.len(),
        d.table[k].2 == j,
    ensures
        first[j] <= k,
{
    if first[j] > k {
        assert(d.table[k].2 < j);
    }
}

/// The state that a place of the table leaves is known at that place.
proof fn lemma_source_known(
    m: AutomatonModel,
    d: AutomatonModel,
    s: Seq<Set<int>>,
    f: Seq<int>,
    k: int,
)
    requires
        is_sequential_construction(m, d, s, f),
        0 <= k < d.table.len(),
    ensures
        d.alphabet > 0,
        0 <= d.table[k].0 < d.size,
        known(f, d.table[k].0 as int, k),
{
    let a = d.alphabet as int;
    assert(a > 0) by (nonlinear_arith)
        requires
            0 <= k < d.size * a,
            d.size >= 0,
            a >= 0,
    ;
    let i = k / a;
    lemma_fundamental_div_mod(k, a);
    lemma_mod_bound(k, a);
    assert(d.table[k].0 == i);
    if i >= 1 {
        assert(i * a <= k) by (nonlinear_arith)
            requires
                k == a * i + (k % a),
                0 <= k % a,
        ;
        assert(f[i] < i * a);
    }
}

/// One more place on which the two constructions agree.
proof fn lemma_prefix_step(
    m: AutomatonModel,
    d1: AutomatonModel,
    s1: Seq<Set<int>>,
    f1: Seq<int>,
    d2: AutomatonModel,
    s2: Seq<Set<int>>,
    f2: Seq<int>,
    k: int,
)
    requires
        is_sequential_construction(m, d1, s1, f1),
        is_sequential_construction(m, d2, s2, f2),
        0 <= k < d1.table.len(),
        k < d2.table.len(),
        prefix_agree(d1, s1, f1, d2, s2, f2, k),
    ensures
        prefix_agree(d1, s1, f1, d2, s2, f2, k + 1),
{
    let t1 = d1.table[k];
    let t2 = d2.table[k];
    let j1 = t1.2 as int;
    let j2 = t2.2 as int;
    let i = t1.0 as int;
    lemma_source_known(m, d1, s1, f1, k);
    lemma_source_known(m, d2, s2, f2, k);
    assert(t1.0 == t2.0 && t1.1 == t2.1);
    assert(known(f1, i, k));
    assert(s1[i] == s2[i]);
    let v = m.step(s1[i], t1.1 as int);
    assert(s1[j1] == v);
    assert(s2[j2] == v);
    if known(f1, j1, k) {
        assert(s2[j1] == s1[j1]);
        if j1 < j2 {
            assert(s2[j1] != s2[j2]);
        }
        if j2 < j1 {
            assert(s2[j2] != s2[j1]);
        }
    } else if known(f2, j2, k) {
        assert(s1[j2] == s2[j2]);
        if j1 < j2 {
            assert(s1[j1] != s1[j2]);
        }
        if j2 < j1 {
            assert(s1[j2] != s1[j1]);
        }
    } else {
        lemma_first_is_first(d1, f1, j1, k);
        lemma_first_is_first(d2, f2, j2, k);
        if j1 < j2 {
            if f2[j1] > k {
                assert(d2.table[k].2 < j1);
            }
            assert(known(f2, j1, k));
        }
        if j2 < j1 {
            if f1[j2] > k {
                assert(d1.table[k].2 < j2);
            }
            assert(known(f1, j2, k));
        }
    }
    assert(j1 == j2);
    assert(t1 == t2);
    assert forall|i: int| 0 <= i < k + 1 implies #[trigger] d1.table[i] == d2.table[i] by {}
    assert forall|j: int| 0 <= j < s1.len() && #[trigger] known(f1, j, k + 1) implies j < s2.len()
        && s1[j] == s2[j] && known(f2, j, k + 1) by {
        if known(f1, j, k) {
            assert(known(f2, j, k));
        } else {
            assert(f1[j] == k);
            assert(d1.table[f1[j]].2 == j);
            lemma_first_is_first(d2, f2, j2, k);
        }
    }
    assert forall|j: int| 0 <= j < s2.len() && #[trigger] known(f2, j, k + 1) implies j < s1.len()
        && s1[j] == s2[j] && known(f1, j, k + 1) by {
        if known(f2, j, k) {
            assert(known(f1, j, k));
        } else {
            assert(f2[j] == k);
            assert(d2.table[f2[j]].2 == j);
            lemma_first_is_first(d1, f1, j1, k);
        }
    }
}

/// The two constructions agree on every place that both tables have.
proof fn lemma_prefix_agree(
    m: AutomatonModel,
    d1: AutomatonModel,
    s1: Seq<Set<int>>,
    f1: Seq<int>,
    d2: AutomatonModel,
    s2: Seq<Set<int>>,
    f2: Seq<int>,
    k: int,
)
    requires
        is_sequential_construction(m, d1, s1, f1),
        is_sequential_construction(m, d2, s2, f2),
        0 <= k <= d1.table.len(),
        k <= d2.table.len(),
    ensures
        prefix_agree(d1, s1, f1, d2, s2, f2, k),
    decreases k,
{
    if k == 0 {
        assert forall|j: int| 0 <= j < s1.len() && #[trigger] known(f1, j, 0) implies j < s2.len()
            && s1[j] == s2[j] && known(f2, j, 0) by {
            if j != 0 {
                assert(0 <= f1[j]);
            }
        }
        assert forall|j: int| 0 <= j < s2.len() && #[trigger] known(f2, j, 0) implies j < s1.len()
            && s1[j] == s2[j] && known(f1, j, 0) by {
            if j != 0 {
                assert(0 <= f2[j]);
            }
        }
    } else {
        lemma_prefix_agree(m, d1, s1, f1, d2, s2, f2, k - 1);
        lemma_prefix_step(m, d1, s1, f1, d2, s2, f2, k - 1);
    }
}

/// The second construction has no more states than the first.
proof fn lemma_size_le(
    m: AutomatonModel,
    d1: AutomatonModel,
    s1: Seq<Set<int>>,
    f1: Seq<int>,
    d2: AutomatonModel,
    s2: Seq<Set<int>>,
    f2: Seq<int>,
)
    requires
        is_sequential_construction(m, d1, s1, f1),
        is_sequential_construction(m, d2, s2, f2),
    ensures
        d2.size <= d1.size,
{
    if d1.size < d2.size {
        let a = m.alphabet as int;
        let j = d1.size as int;
        assert(f2[j] < j * a);
        let k = d1.table.len() as int;
        assert(k <= d2.table.len()) by (nonlinear_arith)
            requires
                k == d1.size * a,
                d2.table.len() == d2.size * a,
                d1.size < d2.size,
                a >= 0,
        ;
        lemma_prefix_agree(m, d1, s1, f1, d2, s2, f2, k);
        assert(known(f2, j, k));
    }
}

/// An automaton has one determinization.
pub proof fn lemma_determinization_unique(m: AutomatonModel, d1: AutomatonModel, d2: AutomatonModel)
    requires
        determinizes(m, d1),
        determinizes(m, d2),
    ensures
        d1 == d2,
{
    let (s1, f1) = choose|subsets: Seq<Set<int>>, first: Seq<int>| #[trigger]
        is_sequential_construction(m, d1, subsets, first);
    let (s2, f2) = choose|subsets: Seq<Set<int>>, first: Seq<int>| #[trigger]
        is_sequential_construction(m, d2, subsets, first);
    lemma_size_le(m, d1, s1, f1, d2, s2, f2);
    lemma_size_le(m, d2, s2, f2, d1, s1, f1);
    let k = d1.table.len() as int;
    lemma_prefix_agree(m, d1, s1, f1, d2, s2, f2, k);
    assert(d1.table =~= d2.table);
    assert forall|x: usize| d1.end.contains(x) <==> d2.end.contains(x) by {
        if d1.end.contains(x) {
            let e = choose|e: int| 0 <= e < d1.end.len() && d1.end[e] == x;
            assert(d1.end[e] < d1.size);
            assert(d1.is_accept(x as int));
            assert(known(f1, x as int, k)) by {
                if x != 0 {
                    assert(f1[x as int] < d1.table.len());
                }
            }
            assert(s1[x as int] == s2[x as int]);
            assert(d2.is_accept(x as int));
            let e2 = choose|e2: int| 0 <= e2 < d2.end.len() && #[trigger] d2.end[e2] == x as int;
            assert(d2.end[e2] == x);
        }
        if d2.end.contains(x) {
            let e = choose|e: int| 0 <= e < d2.end.len() && d2.end[e] == x;
            assert(d2.end[e] < d2.size);
            assert(d2.is_accept(x as int));
            assert(known(f2, x as int, k)) by {
                if x != 0 {
                    assert(f2[x as int] < d2.table.len());
                }
            }
            assert(s1[x as int] == s2[x as int]);
            assert(d1.is_accept(x as int));
            let e2 = choose|e2: int| 0 <= e2 < d1.end.len() && #[trigger] d1.end[e2] == x as int;
            assert(d1.end[e2] == x);
        }
    }
    lemma_sorted_states_unique(d1.end, d2.end);
}

/// A determinization is well formed, deterministic and complete.
pub proof fn lemma_determinization_wf(m: AutomatonModel, d: AutomatonModel)
    requires
        m.wf(),
        determinizes(m, d),
        d.size < usize::MAX,
    ensures
        d.wf(),
        d.deterministic(),
        d.complete(),
{
    let (subsets, first) = choose|subsets: Seq<Set<int>>, first: Seq<int>| #[trigger]
        is_sequential_construction(m, d, subsets, first);
    assert forall|i: int, j: int|
        0 <= i < d.table.len() && 0 <= j < d.table.len() && (#[trigger] d.table[i]).0 == (
        #[trigger] d.table[j]).0 && d.table[i].1 == d.table[j].1 implies d.table[i].2
        == d.table[j].2 by {
        let x = d.table[i].2 as int;
        let y = d.table[j].2 as int;
        assert(subsets[x] == subsets[y]);
        if x < y {
            assert(subsets[x] != subsets[y]);
        }
        if y < x {
            assert(subsets[y] != subsets[x]);
        }
    }
}

/// Determinization gives one result whatever the number of shards, and so
/// does minimization after it.
pub proof fn lemma_shards_agree(
    m: AutomatonModel,
    d1: AutomatonModel,
    d2: AutomatonModel,
    r1: AutomatonModel,
    r2: AutomatonModel,
)
    requires
        m.wf(),
        m.kind == AutomatonType::Det ==> m.deterministic(),
        is_determinized(m, d1),
        is_determinized(m, d2),
        d1.size < usize::MAX,
        is_minimized(d1, r1),
        is_minimized(d2, r2),
    ensures
        d1 == d2,
        r1 == r2,
{
    if m.kind != AutomatonType::Det {
        lemma_determinization_unique(m, d1, d2);
        lemma_determinization_wf(m, d1);
    }
    if d1.kind == AutomatonType::NonDet || d1.size <= 2 {
    } else {
        lemma_minimization_unique(d1, r1, r2);
    }
}

} // verus!
