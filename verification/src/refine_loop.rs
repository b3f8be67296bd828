//! The main loop of partition refinement.

use crate::automaton::{copy_states, is_reverse_index, states_sorted, Automaton, AutomatonModel};
use crate::hopcroft_proof::{
    all_saturated, enters, in_list, is_partition, is_split, justified, lemma_begin_symbol,
    lemma_block_saturated, lemma_blocks_bound, lemma_done, lemma_end_splitter, lemma_initial,
    lemma_pop, lemma_replaced_step, lemma_skip_block, lemma_split_all_saturated,
    lemma_split_justified, lemma_split_partition, lemma_split_pending, lemma_split_saturated,
    pending_ok, refines_accept, saturated, separates, split_map, stable,
};
use crate::partition::{
    ascending, lemma_position, lemma_shortest_range, lists, position, replaced, shortest,
};
use crate::refinement::{lemma_in_list, lemma_rs_enters, touched_blocks};
use std::collections::VecDeque;
use vstd::prelude::*;

verus! {

/// Every state of every list of `w` is below `n`.
pub open spec fn lists_below(w: Seq<Seq<usize>>, n: int) -> bool {
    forall|k: int, j: int| 0 <= k < w.len() && 0 <= j < w[k].len() ==> #[trigger] w[k][j] < n
}

/// The blocks among `touched` from place `j` on.
pub open spec fn todo_from(touched: Seq<usize>, j: int) -> Set<int> {
    Set::new(|b: int| exists|k: int| j <= k < touched.len() && #[trigger] touched[k] == b)
}

/// The halves of a divided block are what `is_split` asks for.
pub proof fn lemma_is_split(
    m: AutomatonModel,
    y: Seq<usize>,
    d: Seq<usize>,
    a: Seq<usize>,
    rs: Seq<usize>,
    cur: Seq<usize>,
    c: int,
)
    requires
        forall|x: usize| d.contains(x) <==> y.contains(x) && !rs.contains(x),
        forall|x: usize| a.contains(x) <==> y.contains(x) && rs.contains(x),
        forall|x: int| in_list(rs, x) <==> enters(m, x, c, cur),
    ensures
        is_split(m, y, d, a, cur, c),
        forall|x: int| in_list(y, x) <==> in_list(d, x) || in_list(a, x),
        forall|x: int| !(in_list(d, x) && in_list(a, x)),
{
    assert forall|x: int| in_list(a, x) <==> in_list(y, x) && enters(m, x, c, cur) by {
        if in_list(a, x) {
            let k = choose|k: int| 0 <= k < a.len() && #[trigger] a[k] == x;
            lemma_in_list(a, a[k]);
            lemma_in_list(y, a[k]);
            lemma_in_list(rs, a[k]);
        }
        if in_list(y, x) {
            let k = choose|k: int| 0 <= k < y.len() && #[trigger] y[k] == x;
            lemma_in_list(a, y[k]);
            lemma_in_list(y, y[k]);
            lemma_in_list(rs, y[k]);
        }
    }
    assert forall|x: int| in_list(d, x) <==> in_list(y, x) && !enters(m, x, c, cur) by {
        if in_list(d, x) {
            let k = choose|k: int| 0 <= k < d.len() && #[trigger] d[k] == x;
            lemma_in_list(d, d[k]);
            lemma_in_list(y, d[k]);
            lemma_in_list(rs, d[k]);
        }
        if in_list(y, x) {
            let k = choose|k: int| 0 <= k < y.len() && #[trigger] y[k] == x;
            lemma_in_list(d, y[k]);
            lemma_in_list(y, y[k]);
            lemma_in_list(rs, y[k]);
        }
    }
}

/// Replacing a list by lists of states below `n` keeps the worklist below `n`.
pub proof fn lemma_replaced_below(
    w: Seq<Seq<usize>>,
    y: Seq<usize>,
    d: Seq<usize>,
    a: Seq<usize>,
    n: int,
)
    requires
        lists_below(w, n),
        forall|j: int| 0 <= j < d.len() ==> #[trigger] d[j] < n,
        forall|j: int| 0 <= j < a.len() ==> #[trigger] a[j] < n,
    ensures
        lists_below(replaced(w, y, seq![d, a]), n),
{
    let r = seq![d, a];
    let w2 = replaced(w, y, r);
    let p = position(w, y, 0);
    lemma_position(w, y, 0);
    lemma_shortest_range(r, 2);
    assert forall|k: int, j: int| 0 <= k < w2.len() && 0 <= j < w2[k].len() implies #[trigger] w2[k][j]
        < n by {
        if p < w.len() {
            assert(w2 =~= w.update(p, d) + r.subrange(1, 2));
            if k < w.len() {
                if k != p {
                    assert(w2[k] == w[k]);
                }
            } else {
                assert(w2[k] == a);
            }
        } else {
            assert(w2 =~= w.push(r[shortest(r, 2)]));
            if k < w.len() {
                assert(w2[k] == w[k]);
            }
        }
    }
}

impl Automaton {
    /// Refines a partition of the states until the states of each block go,
    /// on every symbol, to the same blocks. Blocks are only ever divided.
    pub(crate) fn refine_partition(
        &self,
        rev_arr: &Vec<Vec<Vec<usize>>>,
        blocks: Vec<Vec<usize>>,
        block_of: Vec<usize>,
    ) -> (r: (Vec<Vec<usize>>, Vec<usize>))
        requires
            self@.wf(),
            self@.deterministic(),
            is_reverse_index(rev_arr, self@.table, self@.alphabet as int + 1, self@.size as int + 1),
            is_partition(self.size as int, lists(blocks@), block_of@),
            refines_accept(self@, block_of@),
            justified(self@, block_of@),
        ensures
            is_partition(self.size as int, lists(r.0@), r.1@),
            refines_accept(self@, r.1@),
            stable(self@, r.1@),
            justified(self@, r.1@),
            forall|s: int, t: int|
                0 <= s < self.size && 0 <= t < self.size && r.1@[s] == r.1@[t] ==> block_of@[s]
                    == block_of@[t],
    {
        let mut p = blocks;
        let mut spm = block_of;
        let n = self.size;
        let mut q: VecDeque<Vec<usize>> = VecDeque::new();
        let mut b: usize = 0;
        while b < p.len()
            invariant
                b <= p@.len(),
                q@.len() == b,
                forall|k: int| 0 <= k < b ==> (#[trigger] q@[k])@ == p@[k]@,
            decreases p@.len() - b,
        {
            q.push_back(copy_states(&p[b]));
            b += 1;
        }
        proof {
            assert(lists(q@) =~= lists(p@));
            lemma_initial(self@, lists(p@), spm@, lists(q@));
            assert forall|k: int| 0 <= k < lists(q@).len() implies saturated(
                spm@,
                #[trigger] lists(q@)[k],
            ) by {
                lemma_block_saturated(n as int, lists(p@), spm@, k);
            }
            lemma_blocks_bound(n as int, lists(p@), spm@);
            assert(lists_below(lists(q@), n as int)) by {
                assert forall|k: int, j: int|
                    0 <= k < lists(q@).len() && 0 <= j < lists(q@)[k].len() implies #[trigger] lists(
                    q@,
                )[k][j] < n by {
                    assert(lists(p@)[k][j] < n);
                }
            }
        }
        let ghost mut idle: Seq<usize> = Seq::empty();
        let ghost mut idle_c: int = self.alphabet as int;
        while q.len() > 0
            invariant
                n == self.size,
                self@.wf(),
                self@.deterministic(),
                is_reverse_index(
                    rev_arr,
                    self@.table,
                    self@.alphabet as int + 1,
                    self@.size as int + 1,
                ),
                is_partition(n as int, lists(p@), spm@),
                refines_accept(self@, spm@),
                lists_below(lists(q@), n as int),
                p@.len() <= n,
                idle_c >= self.alphabet,
                pending_ok(self@, spm@, lists(q@), idle, idle_c, Set::empty()),
                justified(self@, spm@),
                all_saturated(spm@, lists(q@)),
                forall|s: int, t: int|
                    0 <= s < n && 0 <= t < n && spm@[s] == spm@[t] ==> block_of@[s] == block_of@[t],
            decreases n - p@.len(), q@.len(),
        {
            let ghost w0 = lists(q@);
            let ghost p_len0 = p@.len();
            let ghost q_raw = q@;
            let set = q.pop_front().unwrap();
            proof {
                assert(lists(q@) =~= w0.subrange(1, w0.len() as int));
                assert(set@ == w0[0]);
                assert(saturated(spm@, w0[0]));
                assert forall|k: int| 0 <= k < lists(q@).len() implies saturated(
                    spm@,
                    #[trigger] lists(q@)[k],
                ) by {
                    assert(lists(q@)[k] == w0[k + 1]);
                    assert(saturated(spm@, w0[k + 1]));
                }
                lemma_pop(self@, spm@, w0, idle, idle_c);
                assert forall|k: int| 0 <= k < set@.len() implies #[trigger] set@[k] < n by {
                    assert(w0[0][k] < n);
                }
                assert(lists_below(lists(q@), n as int)) by {
                    assert forall|k: int, j: int|
                        0 <= k < lists(q@).len() && 0 <= j < lists(q@)[k].len() implies #[trigger] lists(
                        q@,
                    )[k][j] < n by {
                        assert(w0[k + 1][j] < n);
                    }
                }
            }
            let ghost q_len1 = q@.len();
            let mut c: usize = 1;
            while c <= self.alphabet
                invariant
                    n == self.size,
                    self@.wf(),
                    self@.deterministic(),
                    is_reverse_index(
                        rev_arr,
                        self@.table,
                        self@.alphabet as int + 1,
                        self@.size as int + 1,
                    ),
                    is_partition(n as int, lists(p@), spm@),
                    refines_accept(self@, spm@),
                    lists_below(lists(q@), n as int),
                    forall|k: int| 0 <= k < set@.len() ==> #[trigger] set@[k] < n,
                    p@.len() <= n,
                    1 <= c <= self.alphabet + 1,
                    pending_ok(self@, spm@, lists(q@), set@, c - 1, Set::empty()),
                    justified(self@, spm@),
                    all_saturated(spm@, lists(q@)),
                    saturated(spm@, set@),
                    p@.len() > p_len0 || (p@.len() == p_len0 && q@.len() == q_len1),
                    forall|s: int, t: int|
                        0 <= s < n && 0 <= t < n && spm@[s] == spm@[t] ==> block_of@[s]
                            == block_of@[t],
                decreases self.alphabet + 1 - c,
            {
                assert(rev_arr@[c as int]@.len() == n + 1);
                let rs = Automaton::get_set_from_transitions(rev_arr, &set, c);
                proof {
                    lemma_rs_enters(self@, rev_arr, set@, c as int, rs@);
                }
                let touched = touched_blocks(&rs, &spm);
                proof {
                    assert forall|s: int|
                        0 <= s < n && enters(self@, s, c as int, set@) implies todo_from(
                        touched@,
                        0,
                    ).contains(#[trigger] spm@[s] as int) by {
                        assert(in_list(rs@, s));
                        let k = choose|k: int| 0 <= k < rs@.len() && #[trigger] rs@[k] == s;
                        assert(spm@[rs@[k] as int] == spm@[s]);
                        assert(in_list(touched@, spm@[s] as int));
                        let k2 = choose|k2: int|
                            0 <= k2 < touched@.len() && #[trigger] touched@[k2] == spm@[s] as int;
                        assert(0 <= k2 < touched@.len() && touched@[k2] == spm@[s] as int);
                    }
                    lemma_begin_symbol(
                        self@,
                        spm@,
                        lists(q@),
                        set@,
                        c as int,
                        todo_from(touched@, 0),
                    );
                    assert forall|k: int| 0 <= k < touched@.len() implies #[trigger] touched@[k]
                        < p@.len() by {
                        assert(in_list(touched@, touched@[k] as int));
                        let k2 = choose|k2: int|
                            0 <= k2 < rs@.len() && spm@[#[trigger] rs@[k2] as int] == touched@[k] as int;
                        assert(spm@[rs@[k2] as int] < lists(p@).len());
                    }
                }
                let mut j: usize = 0;
                while j < touched.len()
                    invariant
                        n == self.size,
                        self@.wf(),
                        self@.deterministic(),
                        is_partition(n as int, lists(p@), spm@),
                        refines_accept(self@, spm@),
                        lists_below(lists(q@), n as int),
                        p@.len() <= n,
                        1 <= c <= self.alphabet,
                        ascending(rs@),
                        forall|x: int| in_list(rs@, x) <==> enters(self@, x, c as int, set@),
                        j <= touched@.len(),
                        forall|i1: int, i2: int|
                            0 <= i1 < i2 < touched@.len() ==> touched@[i1] != touched@[i2],
                        forall|k: int| 0 <= k < touched@.len() ==> #[trigger] touched@[k] < p@.len(),
                        justified(self@, spm@),
                        all_saturated(spm@, lists(q@)),
                        saturated(spm@, set@),
                        forall|k: int| 0 <= k < set@.len() ==> #[trigger] set@[k] < n,
                        pending_ok(
                            self@,
                            spm@,
                            lists(q@),
                            set@,
                            c as int,
                            todo_from(touched@, j as int),
                        ),
                        p@.len() > p_len0 || (p@.len() == p_len0 && q@.len() == q_len1),
                        forall|s: int, t: int|
                            0 <= s < n && 0 <= t < n && spm@[s] == spm@[t] ==> block_of@[s]
                                == block_of@[t],
                    decreases touched@.len() - j,
                {
                    let i = touched[j];
                    let ghost blocks0 = lists(p@);
                    let ghost spm0 = spm@;
                    let ghost wq = lists(q@);
                    let ghost y = p@[i as int]@;
                    assert(blocks0[i as int] == y);
                    assert(states_sorted(blocks0[i as int]));
                    let (diffs, ands) = Automaton::get_diff_ands(&p[i], &rs);
                    let ghost d = diffs@;
                    let ghost a = ands@;
                    proof {
                        lemma_is_split(self@, y, d, a, rs@, set@, c as int);
                        assert(todo_from(touched@, j as int).remove(i as int) =~= todo_from(
                            touched@,
                            j + 1,
                        )) by {
                            assert forall|b: int|
                                todo_from(touched@, j as int).remove(i as int).contains(b)
                                    <==> todo_from(touched@, j + 1).contains(b) by {
                                if todo_from(touched@, j as int).remove(i as int).contains(b) {
                                    let k = choose|k: int|
                                        j <= k < touched@.len() && #[trigger] touched@[k] == b;
                                    assert(k != j);
                                    assert(j + 1 <= k < touched@.len() && touched@[k] == b);
                                }
                                if todo_from(touched@, j + 1).contains(b) {
                                    let k = choose|k: int|
                                        j + 1 <= k < touched@.len() && #[trigger] touched@[k] == b;
                                    assert(touched@[j as int] != touched@[k]);
                                    assert(j <= k < touched@.len() && touched@[k] == b);
                                }
                            }
                        }
                    }
                    if diffs.len() > 0 && ands.len() > 0 {
                        let fresh = p.len();
                        let old_block = copy_states(&p[i]);
                        p[i] = copy_states(&diffs);
                        let mut t: usize = 0;
                        proof {
                            assert forall|k: int| 0 <= k < a.len() implies #[trigger] a[k] < n by {
                                assert(in_list(a, a[k] as int));
                                assert(in_list(y, a[k] as int));
                                let k2 = choose|k2: int|
                                    0 <= k2 < y.len() && #[trigger] y[k2] == a[k] as int;
                                assert(blocks0[i as int][k2] < n);
                            }
                            assert forall|k: int| 0 <= k < d.len() implies #[trigger] d[k] < n by {
                                assert(in_list(d, d[k] as int));
                                assert(in_list(y, d[k] as int));
                                let k2 = choose|k2: int|
                                    0 <= k2 < y.len() && #[trigger] y[k2] == d[k] as int;
                                assert(blocks0[i as int][k2] < n);
                            }
                        }
                        while t < ands.len()
                            invariant
                                t <= ands@.len(),
                                a == ands@,
                                spm@.len() == n,
                                spm0.len() == n,
                                forall|k: int| 0 <= k < a.len() ==> #[trigger] a[k] < n,
                                forall|s: int|
                                    0 <= s < n ==> #[trigger] spm@[s] == if in_list(
                                        a.take(t as int),
                                        s,
                                    ) {
                                        fresh
                                    } else {
                                        spm0[s]
                                    },
                            decreases ands@.len() - t,
                        {
                            let ghost before = spm@;
                            let x = ands[t];
                            spm.set(x, fresh);
                            proof {
                                let t0 = a.take(t as int);
                                let t1 = a.take(t + 1);
                                assert(t1 =~= t0.push(x));
                                assert forall|s: int| 0 <= s < n implies #[trigger] spm@[s]
                                    == if in_list(t1, s) {
                                    fresh
                                } else {
                                    spm0[s]
                                } by {
                                    if in_list(t0, s) {
                                        let k = choose|k: int|
                                            0 <= k < t0.len() && #[trigger] t0[k] == s;
                                        assert(t1[k] == s);
                                    }
                                    if s == x {
                                        assert(t1[t as int] == s);
                                    }
                                    if in_list(t1, s) && s != x {
                                        let k = choose|k: int|
                                            0 <= k < t1.len() && #[trigger] t1[k] == s;
                                        assert(t0[k] == s);
                                    }
                                }
                            }
                            t += 1;
                        }
                        p.push(copy_states(&ands));
                        let mut repl: VecDeque<Vec<usize>> = VecDeque::new();
                        repl.push_back(diffs);
                        repl.push_back(ands);
                        Automaton::replace_in_queue(&mut q, &old_block, repl);
                        proof {
                            assert(a.take(a.len() as int) =~= a);
                            assert(split_map(spm0, spm@, a, fresh as int));
                            assert(lists(repl@) =~= seq![d, a]);
                            assert(lists(p@) =~= blocks0.update(i as int, d).push(a));
                            lemma_replaced_step(wq, y, d, a);
                            lemma_replaced_below(wq, y, d, a, n as int);
                            lemma_split_partition(
                                self@,
                                blocks0,
                                spm0,
                                spm@,
                                i as int,
                                d,
                                a,
                                set@,
                                c as int,
                            );
                            lemma_split_pending(
                                self@,
                                blocks0,
                                spm0,
                                spm@,
                                wq,
                                lists(q@),
                                set@,
                                c as int,
                                todo_from(touched@, j as int),
                                i as int,
                                d,
                                a,
                            );
                            lemma_blocks_bound(n as int, lists(p@), spm@);
                            lemma_split_justified(
                                self@,
                                blocks0,
                                spm0,
                                spm@,
                                i as int,
                                d,
                                a,
                                set@,
                                c as int,
                            );
                            lemma_split_all_saturated(self@, blocks0, spm0, spm@, i as int, d, a, wq);
                            lemma_split_saturated(self@, blocks0, spm0, spm@, i as int, d, a, set@);
                            assert forall|s: int, t2: int|
                                0 <= s < n && 0 <= t2 < n && spm@[s] == spm@[t2] implies block_of@[s]
                                == block_of@[t2] by {
                                crate::hopcroft_proof::lemma_split_same(
                                    self@,
                                    blocks0,
                                    spm0,
                                    spm@,
                                    i as int,
                                    a,
                                    s,
                                    t2,
                                );
                            }
                        }
                    } else {
                        proof {
                            assert forall|s: int, t: int|
                                0 <= s < n && 0 <= t < n && #[trigger] spm@[s] == i && #[trigger] spm@[t]
                                    == i implies !separates(self@, set@, s, t, c as int) by {
                                assert(in_list(blocks0[spm@[s] as int], s));
                                assert(in_list(blocks0[spm@[t] as int], t));
                                if a.len() == 0 {
                                    assert(!in_list(a, s) && !in_list(a, t));
                                } else {
                                    assert(!in_list(d, s) && !in_list(d, t));
                                }
                            }
                            lemma_skip_block(
                                self@,
                                spm@,
                                lists(q@),
                                set@,
                                c as int,
                                todo_from(touched@, j as int),
                                i as int,
                            );
                        }
                    }
                    j += 1;
                }
                proof {
                    assert(todo_from(touched@, touched@.len() as int) =~= Set::<int>::empty());
                }
                c += 1;
            }
            proof {
                lemma_end_splitter(self@, spm@, lists(q@), set@);
                idle = set@;
                idle_c = self.alphabet as int;
            }
        }
        proof {
            lemma_done(self@, spm@, lists(q@), idle, idle_c);
        }
        (p, spm)
    }
}

} // verus!
