//! Ordered lists of states: comparison, intersection and difference, the
//! states that lead into a list, and the worklist of partition refinement.

use crate::automaton::{states_sorted, Automaton};
use std::collections::VecDeque;
use vstd::prelude::*;

verus! {

/// `true` when `s` never decreases.
pub open spec fn ascending(s: Seq<usize>) -> bool {
    forall|i: int, j: int| 0 <= i < j < s.len() ==> s[i] <= s[j]
}

/// `true` when `s` never decreases in the lexicographic order of triples.
pub open spec fn table_ascending(s: Seq<(usize, usize, usize)>) -> bool {
    forall|i: int, j: int|
        0 <= i < j < s.len() ==> s[i] == s[j] || crate::automaton::triple_lt(s[i], s[j])
}

/// Calls the slice method `sort_unstable` of std on a list of states: the
/// list comes back in ascending order with the same items.
#[verifier::external_body]
pub(crate) fn sort_states(v: &mut Vec<usize>)
    ensures
        ascending(final(v)@),
        final(v)@.to_multiset() == old(v)@.to_multiset(),
{
    v.sort_unstable();
}

/// Calls the slice method `sort_unstable` of std on a list of transitions:
/// the list comes back in ascending lexicographic order with the same items.
#[verifier::external_body]
pub(crate) fn sort_table(v: &mut Vec<(usize, usize, usize)>)
    ensures
        table_ascending(final(v)@),
        final(v)@.to_multiset() == old(v)@.to_multiset(),
{
    v.sort_unstable();
}

/// The lists of a sequence of vectors.
pub open spec fn lists(q: Seq<Vec<usize>>) -> Seq<Seq<usize>> {
    Seq::new(q.len(), |i: int| q[i]@)
}

/// The lists at the places `set` of `row`, one after the other.
pub open spec fn gathered(row: Seq<Vec<usize>>, set: Seq<usize>) -> Seq<usize>
    decreases set.len(),
{
    if set.len() == 0 {
        Seq::empty()
    } else {
        gathered(row, set.drop_last()) + row[set.last() as int]@
    }
}

/// `gathered` holds exactly the states listed at one of the places.
pub proof fn lemma_gathered_contains(row: Seq<Vec<usize>>, set: Seq<usize>, x: usize)
    ensures
        gathered(row, set).contains(x) <==> exists|i: int, k: int|
            0 <= i < set.len() && 0 <= k < row[set[i] as int]@.len() && #[trigger] row[set[i] as int]@[k]
                == x,
    decreases set.len(),
{
    if set.len() > 0 {
        let init = set.drop_last();
        let last = row[set.last() as int]@;
        lemma_gathered_contains(row, init, x);
        let g0 = gathered(row, init);
        let g = gathered(row, set);
        if g.contains(x) {
            let j = choose|j: int| 0 <= j < g.len() && g[j] == x;
            if j < g0.len() {
                assert(g0[j] == x);
                assert(g0.contains(x));
                let (i, k) = choose|i: int, k: int|
                    0 <= i < init.len() && 0 <= k < row[init[i] as int]@.len() && #[trigger] row[init[i] as int]@[k]
                        == x;
                assert(set[i] == init[i]);
                assert(row[set[i] as int]@[k] == x);
            } else {
                let k = j - g0.len();
                assert(last[k] == x);
                assert(row[set[set.len() - 1] as int]@[k] == x);
            }
        }
        if exists|i: int, k: int|
            0 <= i < set.len() && 0 <= k < row[set[i] as int]@.len() && #[trigger] row[set[i] as int]@[k]
                == x {
            let (i, k) = choose|i: int, k: int|
                0 <= i < set.len() && 0 <= k < row[set[i] as int]@.len() && #[trigger] row[set[i] as int]@[k]
                    == x;
            if i < init.len() {
                assert(init[i] == set[i]);
                assert(row[init[i] as int]@[k] == x);
                assert(g0.contains(x));
                let j = choose|j: int| 0 <= j < g0.len() && g0[j] == x;
                assert(g[j] == x);
            } else {
                assert(g[g0.len() + k] == x);
            }
        }
    }
}

/// The first place at or after `from` where `q` holds the list `y`, or the
/// length of `q` if there is none.
pub open spec fn position(q: Seq<Seq<usize>>, y: Seq<usize>, from: int) -> int
    decreases q.len() - from,
{
    if from < 0 || from >= q.len() {
        q.len() as int
    } else if q[from] == y {
        from
    } else {
        position(q, y, from + 1)
    }
}

/// Among the first `upto` lists of `r`, the place of the shortest; of several
/// shortest, the last.
pub open spec fn shortest(r: Seq<Seq<usize>>, upto: int) -> int
    decreases upto,
{
    if upto <= 1 {
        0
    } else {
        let b = shortest(r, upto - 1);
        if r[b].len() < r[upto - 1].len() {
            b
        } else {
            upto - 1
        }
    }
}

/// The place of the shortest list is one of the places looked at.
pub proof fn lemma_shortest_range(r: Seq<Seq<usize>>, upto: int)
    requires
        1 <= upto <= r.len(),
    ensures
        0 <= shortest(r, upto) < upto,
    decreases upto,
{
    if upto > 1 {
        lemma_shortest_range(r, upto - 1);
    }
}

/// The place found holds the list, and no place before it does.
pub proof fn lemma_position(q: Seq<Seq<usize>>, y: Seq<usize>, from: int)
    requires
        0 <= from <= q.len(),
    ensures
        from <= position(q, y, from) <= q.len(),
        position(q, y, from) < q.len() ==> q[position(q, y, from)] == y,
        forall|i: int| from <= i < position(q, y, from) ==> q[i] != y,
    decreases q.len() - from,
{
    if from < q.len() && q[from] != y {
        lemma_position(q, y, from + 1);
    }
}

/// What `replace_in_queue` makes of the worklist `q`: where `q` holds
/// `replace`, its first occurrence gives way to the first list of
/// `replacement` and the others are added at the end; where it does not, the
/// shortest list of `replacement` is added at the end.
pub open spec fn replaced(
    q: Seq<Seq<usize>>,
    replace: Seq<usize>,
    replacement: Seq<Seq<usize>>,
) -> Seq<Seq<usize>> {
    let i = position(q, replace, 0);
    if i < q.len() {
        q.update(i, replacement[0]) + replacement.subrange(1, replacement.len() as int)
    } else {
        q.push(replacement[shortest(replacement, replacement.len() as int)])
    }
}

impl Automaton {
    /// Whether two lists are equal.
    pub fn all_equal(u: &Vec<usize>, v: &Vec<usize>) -> (r: bool)
        ensures
            r == (u@ == v@),
    {
        if u.len() != v.len() {
            false
        } else {
            let mut cursor: usize = 0;
            while cursor < u.len()
                invariant
                    u@.len() == v@.len(),
                    cursor <= u@.len(),
                    forall|j: int| 0 <= j < cursor ==> u@[j] == v@[j],
                decreases u@.len() - cursor,
            {
                if u[cursor] != v[cursor] {
                    return false;
                }
                cursor += 1;
            }
            assert(u@ =~= v@);
            true
        }
    }

    /// For a strictly increasing list `u` and an ascending list `v`: the
    /// members of `u` that `v` lacks, and those that it holds, each in
    /// increasing order.
    pub fn get_diff_ands(u: &Vec<usize>, v: &Vec<usize>) -> (r: (Vec<usize>, Vec<usize>))
        requires
            states_sorted(u@),
            ascending(v@),
        ensures
            states_sorted(r.0@),
            states_sorted(r.1@),
            forall|x: usize| r.0@.contains(x) <==> u@.contains(x) && !v@.contains(x),
            forall|x: usize| r.1@.contains(x) <==> u@.contains(x) && v@.contains(x),
            r.0@.len() + r.1@.len() == u@.len(),
    {
        let mut cursor_u: usize = 0;
        let mut cursor_v: usize = 0;
        let mut diffs: Vec<usize> = Vec::new();
        let mut ands: Vec<usize> = Vec::new();
        while cursor_u < u.len() && cursor_v < v.len()
            invariant
                states_sorted(u@),
                ascending(v@),
                cursor_u <= u@.len(),
                cursor_v <= v@.len(),
                states_sorted(diffs@),
                states_sorted(ands@),
                diffs@.len() + ands@.len() == cursor_u,
                forall|k: int| 0 <= k < diffs@.len() ==> u@.take(cursor_u as int).contains(#[trigger] diffs@[k])
                    && !v@.contains(diffs@[k]),
                forall|k: int| 0 <= k < ands@.len() ==> u@.take(cursor_u as int).contains(#[trigger] ands@[k])
                    && v@.contains(ands@[k]),
                forall|i: int|
                    0 <= i < cursor_u ==> diffs@.contains(#[trigger] u@[i]) || ands@.contains(u@[i]),
                forall|j: int, i: int|
                    0 <= j < cursor_v && cursor_u <= i < u@.len() ==> #[trigger] v@[j] < #[trigger] u@[i],
            decreases u@.len() - cursor_u + v@.len() - cursor_v,
        {
            let x = u[cursor_u];
            let y = v[cursor_v];
            let ghost diffs0 = diffs@;
            let ghost ands0 = ands@;
            let ghost taken0 = u@.take(cursor_u as int);
            let ghost taken1 = u@.take(cursor_u + 1);
            proof {
                assert(taken1 =~= taken0.push(x));
                assert forall|z: usize| taken0.contains(z) implies taken1.contains(z) && z < x by {
                    let i = choose|i: int| 0 <= i < taken0.len() && taken0[i] == z;
                    assert(taken1[i] == z);
                    assert(u@[i] == z);
                }
                assert(taken1[cursor_u as int] == x);
            }
            if x < y {
                proof {
                    assert forall|j: int| 0 <= j < v@.len() implies v@[j] != x by {
                        if j < cursor_v {
                            assert(v@[j] < u@[cursor_u as int]);
                        } else if j > cursor_v {
                            assert(v@[cursor_v as int] <= v@[j]);
                        }
                    }
                }
                diffs.push(x);
                cursor_u += 1;
                proof {
                    assert forall|k: int| 0 <= k < diffs@.len() implies taken1.contains(
                        #[trigger] diffs@[k],
                    ) && !v@.contains(diffs@[k]) by {
                        if k < diffs0.len() {
                            assert(diffs@[k] == diffs0[k]);
                        }
                    }
                    assert forall|i: int, j: int| 0 <= i < j < diffs@.len() implies diffs@[i]
                        < diffs@[j] by {
                        if j == diffs0.len() {
                            assert(diffs@[i] == diffs0[i]);
                            assert(taken0.contains(diffs0[i]));
                        }
                    }
                    assert forall|i: int| 0 <= i < cursor_u implies diffs@.contains(
                        #[trigger] u@[i],
                    ) || ands@.contains(u@[i]) by {
                        if i < cursor_u - 1 {
                            if diffs0.contains(u@[i]) {
                                let k = choose|k: int| 0 <= k < diffs0.len() && diffs0[k] == u@[i];
                                assert(diffs@[k] == u@[i]);
                            }
                        } else {
                            assert(diffs@[diffs0.len() as int] == x);
                        }
                    }
                }
            } else if x > y {
                cursor_v += 1;
            } else {
                proof {
                    assert(v@.contains(x));
                }
                ands.push(x);
                cursor_v += 1;
                cursor_u += 1;
                proof {
                    assert forall|k: int| 0 <= k < ands@.len() implies taken1.contains(
                        #[trigger] ands@[k],
                    ) && v@.contains(ands@[k]) by {
                        if k < ands0.len() {
                            assert(ands@[k] == ands0[k]);
                        }
                    }
                    assert forall|i: int, j: int| 0 <= i < j < ands@.len() implies ands@[i]
                        < ands@[j] by {
                        if j == ands0.len() {
                            assert(ands@[i] == ands0[i]);
                            assert(taken0.contains(ands0[i]));
                        }
                    }
                    assert forall|i: int| 0 <= i < cursor_u implies diffs@.contains(
                        #[trigger] u@[i],
                    ) || ands@.contains(u@[i]) by {
                        if i < cursor_u - 1 {
                            if ands0.contains(u@[i]) {
                                let k = choose|k: int| 0 <= k < ands0.len() && ands0[k] == u@[i];
                                assert(ands@[k] == u@[i]);
                            }
                        } else {
                            assert(ands@[ands0.len() as int] == x);
                        }
                    }
                    assert forall|k: int| 0 <= k < diffs@.len() implies taken1.contains(
                        #[trigger] diffs@[k],
                    ) && !v@.contains(diffs@[k]) by {}
                }
            }
            proof {
                if x >= y && x != y {
                    assert forall|k: int| 0 <= k < diffs@.len() implies u@.take(
                        cursor_u as int,
                    ).contains(#[trigger] diffs@[k]) && !v@.contains(diffs@[k]) by {}
                }
            }
        }
        while cursor_u < u.len()
            invariant
                states_sorted(u@),
                cursor_u <= u@.len(),
                states_sorted(diffs@),
                states_sorted(ands@),
                diffs@.len() + ands@.len() == cursor_u,
                forall|k: int| 0 <= k < diffs@.len() ==> u@.take(cursor_u as int).contains(#[trigger] diffs@[k])
                    && !v@.contains(diffs@[k]),
                forall|k: int| 0 <= k < ands@.len() ==> u@.take(cursor_u as int).contains(#[trigger] ands@[k])
                    && v@.contains(ands@[k]),
                forall|i: int|
                    0 <= i < cursor_u ==> diffs@.contains(#[trigger] u@[i]) || ands@.contains(u@[i]),
                forall|j: int, i: int|
                    0 <= j < v@.len() && cursor_u <= i < u@.len() ==> #[trigger] v@[j] < #[trigger] u@[i],
            decreases u@.len() - cursor_u,
        {
            let x = u[cursor_u];
            let ghost diffs0 = diffs@;
            let ghost taken0 = u@.take(cursor_u as int);
            let ghost taken1 = u@.take(cursor_u + 1);
            proof {
                assert(taken1 =~= taken0.push(x));
                assert forall|z: usize| taken0.contains(z) implies taken1.contains(z) && z < x by {
                    let i = choose|i: int| 0 <= i < taken0.len() && taken0[i] == z;
                    assert(taken1[i] == z);
                    assert(u@[i] == z);
                }
                assert(taken1[cursor_u as int] == x);
                assert forall|j: int| 0 <= j < v@.len() implies v@[j] != x by {
                    assert(v@[j] < u@[cursor_u as int]);
                }
            }
            diffs.push(x);
            cursor_u += 1;
            proof {
                assert forall|k: int| 0 <= k < diffs@.len() implies taken1.contains(
                    #[trigger] diffs@[k],
                ) && !v@.contains(diffs@[k]) by {
                    if k < diffs0.len() {
                        assert(diffs@[k] == diffs0[k]);
                    }
                }
                assert forall|i: int, j: int| 0 <= i < j < diffs@.len() implies diffs@[i]
                    < diffs@[j] by {
                    if j == diffs0.len() {
                        assert(diffs@[i] == diffs0[i]);
                        assert(taken0.contains(diffs0[i]));
                    }
                }
                assert forall|i: int| 0 <= i < cursor_u implies diffs@.contains(#[trigger] u@[i])
                    || ands@.contains(u@[i]) by {
                    if i < cursor_u - 1 {
                        if diffs0.contains(u@[i]) {
                            let k = choose|k: int| 0 <= k < diffs0.len() && diffs0[k] == u@[i];
                            assert(diffs@[k] == u@[i]);
                        }
                    } else {
                        assert(diffs@[diffs0.len() as int] == x);
                    }
                }
            }
        }
        proof {
            assert(u@.take(u@.len() as int) =~= u@);
            assert forall|x: usize| diffs@.contains(x) <==> u@.contains(x) && !v@.contains(x) by {
                if u@.contains(x) && !v@.contains(x) {
                    let i = choose|i: int| 0 <= i < u@.len() && u@[i] == x;
                    assert(diffs@.contains(u@[i]) || ands@.contains(u@[i]));
                }
            }
            assert forall|x: usize| ands@.contains(x) <==> u@.contains(x) && v@.contains(x) by {
                if u@.contains(x) && v@.contains(x) {
                    let i = choose|i: int| 0 <= i < u@.len() && u@[i] == x;
                    assert(diffs@.contains(u@[i]) || ands@.contains(u@[i]));
                }
            }
        }
        (diffs, ands)
    }

    /// The states that the lists of row `c` of the index `arr` hold at the
    /// places `set`, in ascending order, each as often as it is listed.
    pub fn get_set_from_transitions(arr: &Vec<Vec<Vec<usize>>>, set: &Vec<usize>, c: usize) -> (r:
        Vec<usize>)
        requires
            c < arr@.len(),
            forall|i: int| 0 <= i < set@.len() ==> #[trigger] set@[i] < arr@[c as int]@.len(),
        ensures
            ascending(r@),
            r@.to_multiset() == gathered(arr@[c as int]@, set@).to_multiset(),
    {
        let mut v: Vec<usize> = Vec::new();
        let row = &arr[c];
        let mut i: usize = 0;
        assert(set@.take(0) =~= Seq::<usize>::empty());
        while i < set.len()
            invariant
                *row == arr@[c as int],
                forall|i: int| 0 <= i < set@.len() ==> #[trigger] set@[i] < row@.len(),
                i <= set@.len(),
                v@ == gathered(row@, set@.take(i as int)),
            decreases set@.len() - i,
        {
            let list = &row[set[i]];
            let ghost before = v@;
            let mut k: usize = 0;
            while k < list.len()
                invariant
                    k <= list@.len(),
                    v@ == before + list@.take(k as int),
                decreases list@.len() - k,
            {
                v.push(list[k]);
                assert(list@.take(k + 1) =~= list@.take(k as int).push(list@[k as int]));
                assert(before + list@.take(k + 1) =~= (before + list@.take(k as int)).push(
                    list@[k as int],
                ));
                k += 1;
            }
            proof {
                assert(list@.take(list@.len() as int) =~= list@);
                let next = set@.take(i + 1);
                assert(next.drop_last() =~= set@.take(i as int));
                assert(next.last() == set@[i as int]);
            }
            i += 1;
        }
        assert(set@.take(set@.len() as int) =~= set@);
        sort_states(&mut v);
        v
    }

    /// Updates the worklist `q` after the list `replace` was split into the
    /// lists of `replacement`: where `q` holds `replace`, its first occurrence
    /// gives way to the first of them and the others are added at the end;
    /// where it does not, the shortest of them is added at the end (of
    /// several shortest, the last).
    pub fn replace_in_queue(
        q: &mut VecDeque<Vec<usize>>,
        replace: &Vec<usize>,
        replacement: VecDeque<Vec<usize>>,
    )
        requires
            replacement@.len() >= 1,
        ensures
            lists(final(q)@) == replaced(lists(old(q)@), replace@, lists(replacement@)),
    {
        let mut replacement = replacement;
        let ghost q0 = lists(q@);
        let ghost r0 = lists(replacement@);
        let n = q.len();
        let mut i: usize = 0;
        let mut found = false;
        while i < n && !found
            invariant
                n == q@.len(),
                lists(q@) == q0,
                i <= n,
                !found ==> position(q0, replace@, 0) == position(q0, replace@, i as int),
                found ==> i < n && position(q0, replace@, 0) == i,
            decreases n - i + if found { 0int } else { 1int },
        {
            assert(q0[i as int] == q@[i as int]@);
            if Automaton::all_equal(replace, &q[i]) {
                found = true;
            } else {
                i += 1;
            }
        }
        if found {
            let head = replacement.pop_front().unwrap();
            let ghost rest0 = lists(replacement@);
            assert(rest0 =~= r0.subrange(1, r0.len() as int));
            q.remove(i);
            q.insert(i, head);
            assert(lists(q@) =~= q0.update(i as int, r0[0]));
            while replacement.len() > 0
                invariant
                    lists(q@) + lists(replacement@) == q0.update(i as int, r0[0]) + rest0,
                decreases replacement@.len(),
            {
                let ghost qa = lists(q@);
                let ghost ra = lists(replacement@);
                let next = replacement.pop_front().unwrap();
                q.push_back(next);
                assert(lists(q@) =~= qa.push(ra[0]));
                assert(lists(replacement@) =~= ra.subrange(1, ra.len() as int));
                assert(lists(q@) + lists(replacement@) =~= qa + ra);
            }
            assert(lists(q@) =~= lists(q@) + lists(replacement@));
        } else {
            proof {
                lemma_position(q0, replace@, n as int);
            }
            let mut best = replacement.pop_front().unwrap();
            let ghost mut seen: int = 1;
            while replacement.len() > 0
                invariant
                    1 <= seen <= r0.len(),
                    lists(replacement@) == r0.subrange(seen, r0.len() as int),
                    best@ == r0[shortest(r0, seen)],
                    lists(q@) == q0,
                decreases replacement@.len(),
            {
                let ghost ra = lists(replacement@);
                let ghost raw = replacement@;
                assert(ra.len() == raw.len());
                assert(ra.len() == r0.len() - seen);
                let next = replacement.pop_front().unwrap();
                proof {
                    assert(next@ == ra[0]);
                    assert(ra[0] == r0.subrange(seen, r0.len() as int)[0]);
                    assert(ra[0] == r0[seen]);
                    assert forall|j: int| 0 <= j < replacement@.len() implies lists(
                        replacement@,
                    )[j] == r0.subrange(seen + 1, r0.len() as int)[j] by {
                        assert(replacement@[j] == raw[j + 1]);
                        assert(ra[j + 1] == r0.subrange(seen, r0.len() as int)[j + 1]);
                    }
                    assert(lists(replacement@) =~= r0.subrange(seen + 1, r0.len() as int));
                }
                if !(best.len() < next.len()) {
                    best = next;
                }
                proof {
                    seen = seen + 1;
                }
            }
            q.push_back(best);
            assert(lists(q@) =~= q0.push(r0[shortest(r0, r0.len() as int)]));
        }
    }
}

} // verus!
