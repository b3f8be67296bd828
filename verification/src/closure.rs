//! Closing a set of states under the transitions on the empty word.

use crate::automaton::Automaton;
use crate::ubig::Ubig;
use std::collections::VecDeque;
use vstd::prelude::*;
use vstd::set_lib::*;

verus! {

/// The index `arr` lists `q` among the states reached from `p` on the empty word.
pub open spec fn arr_eps_edge(arr: &Vec<Vec<Vec<usize>>>, p: int, q: int) -> bool {
    &&& 0 <= p < arr@[0]@.len()
    &&& exists|k: int| 0 <= k < arr@[0]@[p]@.len() && #[trigger] arr@[0]@[p]@[k] == q
}

/// `t` holds `base` and `seed`, and with every state outside `base` it holds
/// the states reached from it on the empty word.
pub open spec fn grows_from(
    arr: &Vec<Vec<Vec<usize>>>,
    base: Set<int>,
    seed: int,
    t: Set<int>,
) -> bool {
    &&& base.subset_of(t)
    &&& t.contains(seed)
    &&& forall|p: int, q: int|
        t.contains(p) && !base.contains(p) && #[trigger] arr_eps_edge(arr, p, q) ==> t.contains(q)
}

/// The least set that holds `base` and `seed` and is closed, outside `base`,
/// under the transitions on the empty word.
pub open spec fn eps_extension(arr: &Vec<Vec<Vec<usize>>>, base: Set<int>, seed: int) -> Set<int> {
    Set::new(|x: int| forall|t: Set<int>| #[trigger] grows_from(arr, base, seed, t) ==> t.contains(x))
}

/// Row `0` of the index has a list for each of `n` states, and every listed
/// state is below `n`.
pub open spec fn eps_row_in_range(arr: &Vec<Vec<Vec<usize>>>, n: int) -> bool {
    &&& arr@.len() > 0
    &&& arr@[0]@.len() == n
    &&& forall|p: int, k: int|
        0 <= p < n && 0 <= k < arr@[0]@[p]@.len() ==> #[trigger] arr@[0]@[p]@[k] < n
}

/// The states below `n` that are not in `s`.
pub open spec fn unmarked(s: Set<int>, n: int) -> Set<int> {
    Set::new(|i: int| 0 <= i < n && !s.contains(i))
}

/// The states below `n` that are not in `s` are at most `n`.
proof fn lemma_unmarked_finite(s: Set<int>, n: int)
    requires
        0 <= n,
    ensures
        unmarked(s, n).finite(),
        unmarked(s, n).len() <= n,
{
    lemma_int_range(0, n);
    assert(unmarked(s, n).subset_of(set_int_range(0, n)));
    lemma_len_subset(unmarked(s, n), set_int_range(0, n));
}

/// Adding a state below `n` to `s` leaves fewer states out of it.
proof fn lemma_unmarked_insert(s: Set<int>, n: int, b: int)
    requires
        0 <= b < n,
        !s.contains(b),
    ensures
        unmarked(s.insert(b), n).len() < unmarked(s, n).len(),
{
    lemma_unmarked_finite(s, n);
    assert(unmarked(s.insert(b), n) =~= unmarked(s, n).remove(b));
    assert(unmarked(s, n).contains(b));
}

impl Automaton {
    /// Adds `bit` to `num`, and with every state it adds, the states reached
    /// from it on the empty word, as row `0` of the index `arr` lists them.
    /// States that `num` held before are not expanded again.
    pub fn add_state(&self, arr: &Vec<Vec<Vec<usize>>>, num: &mut Ubig, bit: usize)
        requires
            eps_row_in_range(arr, arr@[0]@.len() as int),
            bit < arr@[0]@.len(),
            old(num).wf(),
        ensures
            final(num).wf(),
            final(num)@ == eps_extension(arr, old(num)@, bit as int),
            old(num).within(arr@[0]@.len() as int) ==> final(num).within(arr@[0]@.len() as int),
    {
        let n = arr[0].len();
        let ghost base = num@;
        let mut queue: VecDeque<usize> = VecDeque::new();
        queue.push_front(bit);
        assert(queue@[0] == bit);
        proof {
            lemma_unmarked_finite(num@, n as int);
        }
        while queue.len() > 0
            invariant
                eps_row_in_range(arr, n as int),
                bit < n,
                num.wf(),
                old(num).within(n as int) ==> num.within(n as int),
                base.subset_of(num@),
                forall|i: int| 0 <= i < queue@.len() ==> queue@[i] < n,
                num@.contains(bit as int) || queue@.contains(bit),
                forall|p: int, q: int|
                    num@.contains(p) && !base.contains(p) && #[trigger] arr_eps_edge(arr, p, q)
                        ==> num@.contains(q) || (0 <= q < n && queue@.contains(q as usize)),
                forall|t: Set<int>| #[trigger]
                    grows_from(arr, base, bit as int, t) ==> num@.subset_of(t) && forall|i: int|
                        0 <= i < queue@.len() ==> t.contains(#[trigger] queue@[i] as int),
            decreases unmarked(num@, n as int).len(), queue@.len(),
        {
            let ghost queue0 = queue@;
            let ghost num0 = num@;
            let b = queue.pop_front().unwrap();
            let ghost queue1 = queue@;
            assert(forall|i: int| 0 <= i < queue1.len() ==> queue1[i] == queue0[i + 1]);
            if !num.bit_at(&b) {
                num.set_to(&b, true);
                let succ = &arr[0][b];
                let mut j: usize = 0;
                proof {
                    lemma_unmarked_insert(num0, n as int, b as int);
                    assert forall|x: usize| queue0.contains(x) implies x == b || queue1.contains(
                        x,
                    ) by {
                        let i = choose|i: int| 0 <= i < queue0.len() && queue0[i] == x;
                        if i > 0 {
                            assert(queue1[i - 1] == x);
                        }
                    }
                    assert forall|t: Set<int>| #[trigger]
                        grows_from(arr, base, bit as int, t) implies num@.subset_of(t) by {
                        assert(t.contains(queue0[0] as int));
                        assert(num0.subset_of(t));
                    }
                }
                while j < succ.len()
                    invariant
                        eps_row_in_range(arr, n as int),
                        b < n,
                        bit < n,
                        *succ == arr@[0]@[b as int],
                        j <= succ@.len(),
                        num@ == num0.insert(b as int),
                        !num0.contains(b as int),
                        base.subset_of(num0),
                        num.wf(),
                        old(num).within(n as int) ==> num.within(n as int),
                        forall|i: int| 0 <= i < queue@.len() ==> queue@[i] < n,
                        forall|x: usize| queue1.contains(x) ==> queue@.contains(x),
                        forall|k: int| 0 <= k < j ==> queue@.contains(#[trigger] succ@[k]),
                        forall|t: Set<int>| #[trigger]
                            grows_from(arr, base, bit as int, t) ==> num@.subset_of(t)
                                && forall|i: int|
                                0 <= i < queue@.len() ==> t.contains(#[trigger] queue@[i] as int),
                    decreases succ@.len() - j,
                {
                    let ghost before = queue@;
                    let s = succ[j];
                    queue.push_front(s);
                    proof {
                        assert(queue@[0] == s);
                        assert(forall|i: int|
                            0 <= i < before.len() ==> queue@[i + 1] == before[i]);
                        assert forall|x: usize| before.contains(x) implies queue@.contains(x) by {
                            let i = choose|i: int| 0 <= i < before.len() && before[i] == x;
                            assert(queue@[i + 1] == x);
                        }
                        assert(arr_eps_edge(arr, b as int, s as int));
                        assert forall|t: Set<int>| #[trigger]
                            grows_from(arr, base, bit as int, t) implies forall|i: int|
                            0 <= i < queue@.len() ==> t.contains(#[trigger] queue@[i] as int) by {
                            assert(t.contains(b as int));
                            assert(t.contains(s as int));
                            assert forall|i: int| 0 <= i < queue@.len() implies t.contains(
                                #[trigger] queue@[i] as int,
                            ) by {
                                if i > 0 {
                                    assert(queue@[i] == before[i - 1]);
                                }
                            }
                        }
                    }
                    j += 1;
                }
                proof {
                    assert forall|p: int, q: int|
                        num@.contains(p) && !base.contains(p) && #[trigger] arr_eps_edge(
                            arr,
                            p,
                            q,
                        ) implies num@.contains(q) || (0 <= q < n && queue@.contains(
                        q as usize,
                    )) by {
                        if p == b {
                            let k = choose|k: int|
                                0 <= k < arr@[0]@[p]@.len() && #[trigger] arr@[0]@[p]@[k] == q;
                            assert(queue@.contains(succ@[k]));
                        } else {
                            assert(num0.contains(p));
                            if !num0.contains(q) {
                                assert(queue0.contains(q as usize));
                            }
                        }
                    }
                }
            } else {
                proof {
                    assert forall|x: usize| queue0.contains(x) implies x == b || queue1.contains(
                        x,
                    ) by {
                        let i = choose|i: int| 0 <= i < queue0.len() && queue0[i] == x;
                        if i > 0 {
                            assert(queue1[i - 1] == x);
                        }
                    }
                }
            }
        }
        proof {
            assert(queue@.len() == 0);
            assert(grows_from(arr, base, bit as int, num@));
            assert(num@ =~= eps_extension(arr, base, bit as int));
        }
    }
}

} // verus!
