//! There are at most `2^n` different sets of states below `n`.

use vstd::prelude::*;
use vstd::set_lib::*;

verus! {

/// Two to the power `k`.
pub open spec fn two_to(k: nat) -> nat
    decreases k,
{
    if k == 0 {
        1
    } else {
        2 * two_to((k - 1) as nat)
    }
}

/// The number whose binary digits below position `k` say which states below
/// `k` the set `s` holds.
pub open spec fn code(s: Set<int>, k: nat) -> nat
    decreases k,
{
    if k == 0 {
        0
    } else {
        code(s, (k - 1) as nat) + if s.contains(k - 1) {
            two_to((k - 1) as nat)
        } else {
            0
        }
    }
}

/// The code of a set is below `2^k`.
pub proof fn lemma_code_bound(s: Set<int>, k: nat)
    ensures
        code(s, k) < two_to(k),
    decreases k,
{
    if k > 0 {
        lemma_code_bound(s, (k - 1) as nat);
    }
}

/// Sets with the same code hold the same states below `k`.
pub proof fn lemma_code_injective(s: Set<int>, t: Set<int>, k: nat)
    requires
        code(s, k) == code(t, k),
    ensures
        forall|i: int| 0 <= i < k ==> s.contains(i) == t.contains(i),
    decreases k,
{
    if k > 0 {
        lemma_code_bound(s, (k - 1) as nat);
        lemma_code_bound(t, (k - 1) as nat);
        lemma_code_injective(s, t, (k - 1) as nat);
    }
}

/// Every member of every set of `subsets` is a state below `n`.
pub open spec fn all_below(subsets: Seq<Set<int>>, n: nat) -> bool {
    forall|i: int, q: int| 0 <= i < subsets.len() && #[trigger] subsets[i].contains(q) ==> 0 <= q < n
}

/// No set occurs twice in `subsets`.
pub open spec fn pairwise_distinct(subsets: Seq<Set<int>>) -> bool {
    forall|i: int, j: int| 0 <= i < j < subsets.len() ==> subsets[i] != subsets[j]
}

/// The set of the first `count` values of a list of different numbers has
/// `count` members.
proof fn lemma_values(f: Seq<int>, count: nat) -> (values: Set<int>)
    requires
        count <= f.len(),
        forall|i: int, j: int| 0 <= i < j < f.len() ==> f[i] != f[j],
    ensures
        values.finite(),
        values.len() == count,
        forall|x: int| values.contains(x) <==> exists|i: int| 0 <= i < count && #[trigger] f[i] == x,
    decreases count,
{
    if count == 0 {
        Set::empty()
    } else {
        let prev = lemma_values(f, (count - 1) as nat);
        let x = f[count - 1];
        if prev.contains(x) {
            let i = choose|i: int| 0 <= i < count - 1 && #[trigger] f[i] == x;
            assert(f[i] != f[count - 1]);
        }
        let values = prev.insert(x);
        assert forall|y: int| values.contains(y) implies exists|i: int|
            0 <= i < count && #[trigger] f[i] == y by {
            if y == x {
                assert(f[count - 1] == y);
            } else {
                let i = choose|i: int| 0 <= i < count - 1 && #[trigger] f[i] == y;
                assert(0 <= i < count && f[i] == y);
            }
        }
        values
    }
}

/// Different numbers from `0` up to but not including `n` are at most `n` in number.
pub proof fn lemma_distinct_ints_bound(f: Seq<int>, n: int)
    requires
        0 <= n,
        forall|i: int| 0 <= i < f.len() ==> 0 <= #[trigger] f[i] < n,
        forall|i: int, j: int| 0 <= i < j < f.len() ==> f[i] != f[j],
    ensures
        f.len() <= n,
{
    let values = lemma_values(f, f.len());
    lemma_int_range(0, n);
    assert forall|x: int| values.contains(x) implies set_int_range(0, n).contains(x) by {
        let i = choose|i: int| 0 <= i < f.len() && #[trigger] f[i] == x;
    }
    lemma_len_subset(values, set_int_range(0, n));
}

/// Different sets of states below `n` are at most `2^n` in number.
pub proof fn lemma_distinct_bound(subsets: Seq<Set<int>>, n: nat)
    requires
        all_below(subsets, n),
        pairwise_distinct(subsets),
    ensures
        subsets.len() <= two_to(n),
{
    let codes = Seq::new(subsets.len(), |i: int| code(subsets[i], n) as int);
    assert forall|i: int| 0 <= i < codes.len() implies 0 <= #[trigger] codes[i] < two_to(n) by {
        lemma_code_bound(subsets[i], n);
    }
    assert forall|i: int, j: int| 0 <= i < j < codes.len() implies codes[i] != codes[j] by {
        if codes[i] == codes[j] {
            lemma_code_injective(subsets[i], subsets[j], n);
            assert(subsets[i] =~= subsets[j]);
        }
    }
    lemma_distinct_ints_bound(codes, two_to(n) as int);
}

} // verus!
