//! Determinization shard by shard.
//!
//! Every subset belongs to the shard that the hash of its compressed form
//! names. A shard numbers its own subsets, keeps those that wait for
//! expansion on its own frontier, and writes the transitions of the subsets
//! that it expands. When no frontier holds a subset any more, the shards'
//! names are replaced by final numbers, the start subset first.

use crate::automaton::Automaton;
use crate::coordinator::{all_idle, Coordinator};
use crate::counting::{lemma_distinct_bound, two_to};
use crate::merge_proof::{
    id_at, ids_ok, key_at, lemma_assign, lemma_merged_push, marks_shape, merged_ok,
};
use crate::sequential_proof::{
    construction_ok, dfa_model, lemma_finished, lemma_row_done, lemma_step_found, lemma_step_new,
};
use crate::shard_proof::{
    advanced, expanded_ok, family_push, home, lemma_expanded_grows, lemma_expanded_keeps,
    lemma_locals_distinct, lemma_mt_found, lemma_mt_new, lemma_mt_pop, lemma_mt_row_done,
    lemma_place, mt_inv, popped, recorded, set_at, shard_inv, valid_local, views_new, with_tr,
    Family, LocalId, LocalTransition, ShardView,
};
use crate::subset_construction::{determinizes, lemma_meets_accept, meets, start_subset, successor};
use crate::subset_table::SubsetTable;
use crate::ubig::{block_stands_for, lemma_compressed_injective, CompressedUbig, Ubig};
use std::collections::VecDeque;
use vstd::prelude::*;

verus! {

/// One shard: the table of its subsets, the subsets that wait for expansion,
/// the number of subsets that it has expanded, and what it has written.
pub struct Shard {
    pub table: SubsetTable,
    pub frontier: VecDeque<Ubig>,
    pub done: usize,
    pub transitions: Vec<((usize, usize), usize, (usize, usize))>,
    pub accepts: Vec<(usize, usize)>,
}

/// The sets that the bit sets of a frontier hold.
pub open spec fn frontier_sets(f: Seq<Ubig>) -> Seq<Set<int>> {
    Seq::new(f.len(), |i: int| f[i]@)
}

impl View for Shard {
    type V = ShardView;

    open spec fn view(&self) -> ShardView {
        ShardView {
            keys: self.table.keys(),
            frontier: frontier_sets(self.frontier@),
            done: self.done as int,
            tr: self.transitions@,
            acc: self.accepts@,
        }
    }
}

/// What the shards hold, as plain values.
pub open spec fn views(shards: Seq<Shard>) -> Seq<ShardView> {
    Seq::new(shards.len(), |h: int| shards[h]@)
}

/// The tables and the waiting bit sets of all shards are well formed.
pub open spec fn shards_wf(shards: Seq<Shard>) -> bool {
    forall|h: int|
        0 <= h < shards.len() ==> (#[trigger] shards[h]).table.wf() && forall|i: int|
            0 <= i < shards[h].frontier@.len() ==> (#[trigger] shards[h].frontier@[i]).wf()
}

impl Shard {
    /// A shard that holds nothing.
    pub fn new() -> (r: Shard)
        ensures
            r.table.wf(),
            r@.keys.len() == 0,
            r@.frontier.len() == 0,
            r@.done == 0,
            r@.tr.len() == 0,
            r@.acc.len() == 0,
    {
        Shard {
            table: SubsetTable::new(),
            frontier: VecDeque::new(),
            done: 0,
            transitions: Vec::new(),
            accepts: Vec::new(),
        }
    }
}

/// The shard, of `n`, that owns the compressed subset `u`.
pub fn get_hash(u: &CompressedUbig, n: usize) -> (r: usize)
    requires
        n >= 1,
    ensures
        r < n,
        r == home(u.cnum@, n as int),
{
    (u.digest() % (n as u64)) as usize
}

/// A shard that is marked idle has nothing on its frontier.
pub open spec fn idle_means_empty(idle: Seq<bool>, shards: Seq<Shard>) -> bool {
    forall|h: int|
        0 <= h < shards.len() && 0 <= h < idle.len() && idle[h] ==> (#[trigger] shards[h]).frontier@.len()
            == 0
}

/// Lets the shards work, one after the other and round after round. A shard
/// that finds its frontier empty reports to the coordinator that it is idle;
/// a shard that has work, or is given work, is reported busy. The work ends
/// when the coordinator counts no busy shard.
fn run_shards(
    aut: &Automaton,
    arr: &Vec<Vec<Vec<usize>>>,
    shards: &mut Vec<Shard>,
    Ghost(g0): Ghost<Family>,
    Ghost(start): Ghost<LocalId>,
) -> (r: Ghost<Family>)
    requires
        aut@.wf(),
        aut@.fits_blocks(),
        aut@.forward_index(arr),
        shards_wf(old(shards)@),
        mt_inv(aut@, g0, views(old(shards)@), -1, 0, start),
        forall|h: int| 0 <= h < old(shards)@.len() ==> (#[trigger] old(shards)@[h]).done == 0,
    ensures
        final(shards)@.len() == old(shards)@.len(),
        shards_wf(final(shards)@),
        mt_inv(aut@, r@, views(final(shards)@), -1, 0, start),
        forall|h: int| 0 <= h < final(shards)@.len() ==> (#[trigger] final(shards)@[h]).frontier@.len() == 0,
{
    let n_threads = shards.len();
    let ghost mut g = g0;
    let ghost mut expanded: Seq<Set<int>> = Seq::empty();
    let ghost mut places: Seq<LocalId> = Seq::empty();
    let mut coordinator = Coordinator::new(n_threads);
    let mut stop = false;
    proof {
        lemma_distinct_bound(expanded, aut@.size);
    }
    while !stop
        invariant
            aut@.wf(),
            aut@.fits_blocks(),
            aut@.forward_index(arr),
            n_threads == shards@.len(),
            shards_wf(shards@),
            mt_inv(aut@, g, views(shards@), -1, 0, start),
            expanded_ok(g, views(shards@), expanded, places, aut@.size),
            expanded.len() <= two_to(aut@.size),
            coordinator.wf(),
            coordinator.idle@.len() == n_threads,
            idle_means_empty(coordinator.idle@, shards@),
            stop ==> all_idle(coordinator.idle@),
        decreases two_to(aut@.size) - expanded.len(), if stop { 0int } else { 1int },
    {
        let ghost e0 = expanded.len();
        let mut h: usize = 0;
        while h < n_threads
            invariant
                aut@.wf(),
                aut@.fits_blocks(),
                aut@.forward_index(arr),
                n_threads == shards@.len(),
                h <= n_threads,
                shards_wf(shards@),
                mt_inv(aut@, g, views(shards@), -1, 0, start),
                expanded_ok(g, views(shards@), expanded, places, aut@.size),
                expanded.len() <= two_to(aut@.size),
                expanded.len() >= e0,
                coordinator.wf(),
                coordinator.idle@.len() == n_threads,
                idle_means_empty(coordinator.idle@, shards@),
                stop ==> all_idle(coordinator.idle@),
                expanded.len() == e0 ==> forall|h1: int| 0 <= h1 < h ==> coordinator.idle@[h1],
                expanded.len() == e0 && h == n_threads && n_threads > 0 ==> stop,
            decreases n_threads - h,
        {
            if shards[h].frontier.len() == 0 {
                stop = coordinator.report(true, h);
                proof {
                    if expanded.len() == e0 && h + 1 == n_threads {
                        assert(all_idle(coordinator.idle@));
                    }
                }
            } else {
                stop = coordinator.report(false, h);
            }
            if shards[h].frontier.len() > 0 {
                let ghost views0 = views(shards@);
                let ghost front0 = shards@[h as int].frontier@;
                let next = shards[h].frontier.pop_front().unwrap();
                let j = shards[h].done;
                proof {
                    assert(views0[h as int].frontier.len() > 0);
                    lemma_mt_pop(aut@, g, views0, h as int, start);
                    assert(frontier_sets(shards@[h as int].frontier@) =~= popped(
                        views0[h as int],
                    ).frontier) by {
                        assert forall|i: int| 0 <= i < shards@[h as int].frontier@.len() implies frontier_sets(
                            shards@[h as int].frontier@,
                        )[i] == popped(views0[h as int]).frontier[i] by {
                            assert(shards@[h as int].frontier@[i] == front0[i + 1]);
                            assert(views0[h as int].frontier[i + 1] == front0[i + 1]@);
                        }
                    }
                    assert(views(shards@) =~= views0.update(h as int, popped(views0[h as int])));
                    assert(next@ == views0[h as int].frontier[0]);
                    assert(shards_wf(shards@)) by {
                        assert forall|h1: int| 0 <= h1 < shards@.len() implies (
                        #[trigger] shards@[h1]).table.wf() && forall|i: int|
                            0 <= i < shards@[h1].frontier@.len() ==> (
                            #[trigger] shards@[h1].frontier@[i]).wf() by {
                            if h1 == h {
                                assert forall|i: int|
                                    0 <= i < shards@[h1].frontier@.len() implies (
                                #[trigger] shards@[h1].frontier@[i]).wf() by {
                                    assert(shards@[h1].frontier@[i] == front0[i + 1]);
                                }
                            }
                        }
                    }
                    lemma_expanded_keeps(
                        g,
                        g,
                        views0,
                        views(shards@),
                        expanded,
                        places,
                        aut@.size,
                    );
                    assert(shard_inv(aut@, g, views(shards@)[h as int], h as int, true, 0));
                    assert forall|h1: int|
                        0 <= h1 < shards@.len() && coordinator.idle@[h1] implies (
                    #[trigger] shards@[h1]).frontier@.len() == 0 by {
                        assert(h1 != h);
                    }
                }
                let mut a: usize = 1;
                while a <= aut.alphabet
                    invariant
                        aut@.wf(),
                        aut@.fits_blocks(),
                        aut@.forward_index(arr),
                        n_threads == shards@.len(),
                        h < n_threads,
                        j == shards@[h as int].done,
                        j < g.sets[h as int].len(),
                        next@ == g.sets[h as int][j as int],
                        next.wf(),
                        1 <= a <= aut.alphabet + 1,
                        shards_wf(shards@),
                        mt_inv(aut@, g, views(shards@), h as int, a as int, start),
                        expanded_ok(g, views(shards@), expanded, places, aut@.size),
                        coordinator.wf(),
                        coordinator.idle@.len() == n_threads,
                        !coordinator.idle@[h as int],
                        idle_means_empty(coordinator.idle@, shards@),
                        stop ==> all_idle(coordinator.idle@),
                    decreases aut.alphabet + 1 - a,
                {
                    let ghost views1 = views(shards@);
                    let ghost shards1 = shards@;
                    proof {
                        assert(shard_inv(aut@, g, views1[h as int], h as int, true, a - 1));
                    }
                    let new_s = successor(aut, arr, &next, a);
                    let key = new_s.duplicate().compress();
                    let h2 = get_hash(&key, n_threads);
                    let ghost key_bytes = key.cnum@;
                    proof {
                        assert(shard_inv(
                            aut@,
                            g,
                            views1[h2 as int],
                            h2 as int,
                            h2 == h,
                            if h2 == h {
                                a - 1
                            } else {
                                0
                            },
                        ));
                    }
                    match shards[h2].table.find(&key) {
                        Some(j2) => {
                            shards[h].transitions.push(((h, j), a, (h2, j2)));
                            proof {
                                let t: LocalTransition = ((h, j), a, (h2, j2));
                                lemma_compressed_injective(
                                    views1[h2 as int].keys[j2 as int],
                                    key_bytes,
                                    g.sets[h2 as int][j2 as int],
                                    new_s@,
                                );
                                lemma_mt_found(aut@, g, views1, h as int, a as int, start, t);
                                assert forall|h1: int| 0 <= h1 < shards@.len() implies (
                                #[trigger] shards@[h1]).frontier@ == shards1[h1].frontier@ by {}
                                assert(views(shards@) =~= views1.update(
                                    h as int,
                                    with_tr(views1[h as int], t),
                                ));
                                lemma_expanded_keeps(
                                    g,
                                    g,
                                    views1,
                                    views(shards@),
                                    expanded,
                                    places,
                                    aut@.size,
                                );
                                assert(shards_wf(shards@)) by {
                                    assert forall|h1: int| 0 <= h1 < shards@.len() implies (
                                    #[trigger] shards@[h1]).table.wf() && forall|i: int|
                                        0 <= i < shards@[h1].frontier@.len() ==> (
                                        #[trigger] shards@[h1].frontier@[i]).wf() by {
                                        assert(shards1[h1].table.wf());
                                        assert(shards@[h1].frontier@ == shards1[h1].frontier@);
                                    }
                                }
                            }
                        },
                        None => {
                            let j2 = shards[h2].table.insert(key);
                            let hit = meets(&new_s, &aut.end);
                            if hit {
                                shards[h].accepts.push((h2, j2));
                            }
                            let ghost v = new_s@;
                            shards[h2].frontier.push_back(new_s);
                            shards[h].transitions.push(((h, j), a, (h2, j2)));
                            let ghost idle0 = coordinator.idle@;
                            stop = coordinator.report(false, h2);
                            proof {
                                assert forall|h1: int|
                                    0 <= h1 < shards@.len() && coordinator.idle@[h1] implies (
                                #[trigger] shards@[h1]).frontier@.len() == 0 by {
                                    assert(h1 != h2 && h1 != h);
                                    assert(idle0[h1]);
                                    assert(shards@[h1] == shards1[h1]);
                                }
                            }
                            proof {
                                let t: LocalTransition = ((h, j), a, (h2, j2));
                                let w = g.words[h as int][j as int].push(a as int);
                                lemma_meets_accept(aut@, v);
                                lemma_mt_new(
                                    aut@,
                                    g,
                                    views1,
                                    h as int,
                                    a as int,
                                    start,
                                    t,
                                    key_bytes,
                                    v,
                                );
                                let g2 = family_push(g, h2 as int, v, w);
                                let target = views_new(
                                    views1,
                                    h as int,
                                    h2 as int,
                                    key_bytes,
                                    v,
                                    hit,
                                    t,
                                );
                                assert(frontier_sets(shards@[h2 as int].frontier@)
                                    =~= frontier_sets(shards1[h2 as int].frontier@).push(v));
                                assert forall|h1: int| 0 <= h1 < shards@.len() implies views(
                                    shards@,
                                )[h1] == target[h1] by {
                                    if h1 != h && h1 != h2 {
                                        assert(shards@[h1] == shards1[h1]);
                                    }
                                }
                                assert(views(shards@) =~= target);
                                assert forall|l: LocalId| valid_local(g, l) implies valid_local(
                                    g2,
                                    l,
                                ) && set_at(g2, l) == set_at(g, l) by {
                                    if l.0 == h2 {
                                        assert(g2.sets[h2 as int] == g.sets[h2 as int].push(v));
                                    } else {
                                        assert(g2.sets[l.0 as int] == g.sets[l.0 as int]);
                                    }
                                }
                                lemma_expanded_keeps(
                                    g,
                                    g2,
                                    views1,
                                    views(shards@),
                                    expanded,
                                    places,
                                    aut@.size,
                                );
                                assert(shards_wf(shards@)) by {
                                    assert forall|h1: int| 0 <= h1 < shards@.len() implies (
                                    #[trigger] shards@[h1]).table.wf() && forall|i: int|
                                        0 <= i < shards@[h1].frontier@.len() ==> (
                                        #[trigger] shards@[h1].frontier@[i]).wf() by {
                                        assert(shards1[h1].table.wf());
                                        assert forall|i: int|
                                            0 <= i < shards@[h1].frontier@.len() implies (
                                        #[trigger] shards@[h1].frontier@[i]).wf() by {
                                            if h1 == h2 {
                                                if i < shards1[h1].frontier@.len() {
                                                    assert(shards@[h1].frontier@[i]
                                                        == shards1[h1].frontier@[i]);
                                                }
                                            } else {
                                                assert(shards@[h1].frontier@
                                                    == shards1[h1].frontier@);
                                            }
                                        }
                                    }
                                }
                                assert(g2.sets[h as int][j as int] == g.sets[h as int][j as int]) by {
                                    if h == h2 {
                                        assert(g2.sets[h2 as int] == g.sets[h2 as int].push(v));
                                    } else {
                                        assert(g2.sets[h as int] == g.sets[h as int]);
                                    }
                                }
                                g = g2;
                            }
                        },
                    }
                    a += 1;
                }
                let ghost views2 = views(shards@);
                let ghost shards2 = shards@;
                proof {
                    assert(shard_inv(aut@, g, views2[h as int], h as int, true, aut.alphabet as int));
                }
                let total = shards[h].table.len();
                assert(j < total);
                shards[h].done = j + 1;
                proof {
                    let l: LocalId = (h, j);
                    lemma_expanded_grows(aut@, g, views2, h as int, start, expanded, places, l);
                    lemma_mt_row_done(aut@, g, views2, h as int, start);
                    assert(views(shards@) =~= views2.update(h as int, advanced(views2[h as int])));
                    expanded = expanded.push(set_at(g, l));
                    places = places.push(l);
                    lemma_distinct_bound(expanded, aut@.size);
                    assert forall|h1: int|
                        0 <= h1 < shards@.len() && coordinator.idle@[h1] implies (
                    #[trigger] shards@[h1]).frontier@.len() == 0 by {
                        assert(shards@[h1].frontier@ == shards2[h1].frontier@);
                    }
                    assert(shards_wf(shards@)) by {
                        assert forall|h1: int| 0 <= h1 < shards@.len() implies (
                        #[trigger] shards@[h1]).table.wf() && forall|i: int|
                            0 <= i < shards@[h1].frontier@.len() ==> (
                            #[trigger] shards@[h1].frontier@[i]).wf() by {
                            assert(shards2[h1].table.wf());
                            assert(shards@[h1].frontier@ == shards2[h1].frontier@);
                        }
                    }
                }
            }
            h += 1;
        }
    }
    Ghost(g)
}

/// The table of final numbers, as plain values.
pub open spec fn ids_view(ids: Seq<Vec<Option<usize>>>) -> Seq<Seq<Option<usize>>> {
    Seq::new(ids.len(), |h: int| ids[h]@)
}

/// The marks of accepting subsets, as plain values.
pub open spec fn flags_view(flags: Seq<Vec<bool>>) -> Seq<Seq<bool>> {
    Seq::new(flags.len(), |h: int| flags[h]@)
}

/// For every subset of every shard, whether some shard recorded it as
/// accepting.
fn accept_marks(shards: &Vec<Shard>, Ghost(g): Ghost<Family>) -> (r: Vec<Vec<bool>>)
    requires
        shards@.len() == g.sets.len(),
        forall|h: int| 0 <= h < shards@.len() ==> (#[trigger] shards@[h]).table.keys().len() == g.sets[h].len(),
        forall|h: int, i: int|
            0 <= h < shards@.len() && 0 <= i < shards@[h].accepts@.len() ==> valid_local(
                g,
                #[trigger] shards@[h].accepts@[i],
            ),
    ensures
        marks_shape(g, flags_view(r@)),
        forall|l: LocalId| #[trigger]
            valid_local(g, l) ==> (flags_view(r@)[l.0 as int][l.1 as int] <==> recorded(
                views(shards@),
                l,
            )),
{
    let n_threads = shards.len();
    let ghost vs = views(shards@);
    let mut flags: Vec<Vec<bool>> = Vec::new();
    let mut h: usize = 0;
    while h < n_threads
        invariant
            n_threads == shards@.len(),
            shards@.len() == g.sets.len(),
            forall|h: int|
                0 <= h < shards@.len() ==> (#[trigger] shards@[h]).table.keys().len() == g.sets[h].len(),
            h <= n_threads,
            flags@.len() == h,
            forall|h1: int| 0 <= h1 < h ==> (#[trigger] flags@[h1])@.len() == g.sets[h1].len(),
            forall|h1: int, j: int|
                0 <= h1 < h && 0 <= j < flags@[h1]@.len() ==> !(#[trigger] flags@[h1]@[j]),
        decreases n_threads - h,
    {
        let len = shards[h].table.len();
        let mut row: Vec<bool> = Vec::new();
        let mut j: usize = 0;
        while j < len
            invariant
                j <= len,
                row@.len() == j,
                forall|i: int| 0 <= i < j ==> !(#[trigger] row@[i]),
            decreases len - j,
        {
            row.push(false);
            j += 1;
        }
        flags.push(row);
        h += 1;
    }
    let mut h: usize = 0;
    while h < n_threads
        invariant
            n_threads == shards@.len(),
            shards@.len() == g.sets.len(),
            vs == views(shards@),
            h <= n_threads,
            flags@.len() == n_threads,
            forall|h1: int| 0 <= h1 < flags@.len() ==> (#[trigger] flags@[h1])@.len() == g.sets[h1].len(),
            forall|h: int, i: int|
                0 <= h < shards@.len() && 0 <= i < shards@[h].accepts@.len() ==> valid_local(
                    g,
                    #[trigger] shards@[h].accepts@[i],
                ),
            forall|l: LocalId| #[trigger]
                valid_local(g, l) ==> (flags@[l.0 as int]@[l.1 as int] <==> exists|h1: int, i: int|
                    0 <= h1 < h && 0 <= i < vs[h1].acc.len() && #[trigger] vs[h1].acc[i] == l),
        decreases n_threads - h,
    {
        let mut k: usize = 0;
        while k < shards[h].accepts.len()
            invariant
                n_threads == shards@.len(),
                shards@.len() == g.sets.len(),
                vs == views(shards@),
                h < n_threads,
                k <= shards@[h as int].accepts@.len(),
                flags@.len() == n_threads,
                forall|h1: int|
                    0 <= h1 < flags@.len() ==> (#[trigger] flags@[h1])@.len() == g.sets[h1].len(),
                forall|h: int, i: int|
                    0 <= h < shards@.len() && 0 <= i < shards@[h].accepts@.len() ==> valid_local(
                        g,
                        #[trigger] shards@[h].accepts@[i],
                    ),
                forall|l: LocalId| #[trigger]
                    valid_local(g, l) ==> (flags@[l.0 as int]@[l.1 as int] <==> exists|
                        h1: int,
                        i: int,
                    |
                        (0 <= h1 < h || (h1 == h && i < k)) && 0 <= i < vs[h1].acc.len() && #[trigger] vs[h1].acc[i]
                            == l),
            decreases shards@[h as int].accepts@.len() - k,
        {
            let l = shards[h].accepts[k];
            assert(valid_local(g, shards@[h as int].accepts@[k as int]));
            assert(vs[h as int].acc[k as int] == l);
            let ghost before = flags@;
            flags[l.0][l.1] = true;
            proof {
                assert forall|h1: int| 0 <= h1 < flags@.len() implies (#[trigger] flags@[h1])@.len()
                    == g.sets[h1].len() by {
                    assert(before[h1]@.len() == g.sets[h1].len());
                }
                assert forall|l2: LocalId| #[trigger] valid_local(g, l2) implies (flags@[l2.0 as int]@[l2.1 as int]
                    <==> exists|h1: int, i: int|
                    (0 <= h1 < h || (h1 == h && i < k + 1)) && 0 <= i < vs[h1].acc.len() && #[trigger] vs[h1].acc[i]
                        == l2) by {
                    if l2 == l {
                        assert((h as int == h && k < k + 1) && 0 <= k < vs[h as int].acc.len()
                            && vs[h as int].acc[k as int] == l2);
                    } else {
                        assert(flags@[l2.0 as int]@[l2.1 as int] == before[l2.0 as int]@[l2.1 as int]);
                        if before[l2.0 as int]@[l2.1 as int] {
                            let (h1, i) = choose|h1: int, i: int|
                                (0 <= h1 < h || (h1 == h && i < k)) && 0 <= i < vs[h1].acc.len()
                                    && #[trigger] vs[h1].acc[i] == l2;
                            assert((0 <= h1 < h || (h1 == h && i < k + 1)) && 0 <= i
                                < vs[h1].acc.len() && vs[h1].acc[i] == l2);
                        }
                        if exists|h1: int, i: int|
                            (0 <= h1 < h || (h1 == h && i < k + 1)) && 0 <= i < vs[h1].acc.len()
                                && #[trigger] vs[h1].acc[i] == l2 {
                            let (h1, i) = choose|h1: int, i: int|
                                (0 <= h1 < h || (h1 == h && i < k + 1)) && 0 <= i
                                    < vs[h1].acc.len() && #[trigger] vs[h1].acc[i] == l2;
                            assert((0 <= h1 < h || (h1 == h && i < k)) && 0 <= i < vs[h1].acc.len()
                                && vs[h1].acc[i] == l2);
                        }
                    }
                }
            }
            k += 1;
        }
        proof {
            assert forall|l: LocalId| #[trigger] valid_local(g, l) implies (flags@[l.0 as int]@[l.1 as int]
                <==> exists|h1: int, i: int|
                0 <= h1 < h + 1 && 0 <= i < vs[h1].acc.len() && #[trigger] vs[h1].acc[i] == l) by {
                if flags@[l.0 as int]@[l.1 as int] {
                    let (h1, i) = choose|h1: int, i: int|
                        (0 <= h1 < h || (h1 == h && i < k)) && 0 <= i < vs[h1].acc.len() && #[trigger] vs[h1].acc[i]
                            == l;
                    assert(0 <= h1 < h + 1 && 0 <= i < vs[h1].acc.len() && vs[h1].acc[i] == l);
                }
                if exists|h1: int, i: int|
                    0 <= h1 < h + 1 && 0 <= i < vs[h1].acc.len() && #[trigger] vs[h1].acc[i] == l {
                    let (h1, i) = choose|h1: int, i: int|
                        0 <= h1 < h + 1 && 0 <= i < vs[h1].acc.len() && #[trigger] vs[h1].acc[i] == l;
                    assert((0 <= h1 < h || (h1 == h && i < k)) && 0 <= i < vs[h1].acc.len()
                        && vs[h1].acc[i] == l);
                }
            }
        }
        h += 1;
    }
    proof {
        let fv = flags_view(flags@);
        assert forall|h1: int| 0 <= h1 < fv.len() implies (#[trigger] fv[h1]).len() == g.sets[h1].len() by {
            assert(flags@[h1]@.len() == g.sets[h1].len());
        }
        assert forall|l: LocalId| #[trigger] valid_local(g, l) implies (fv[l.0 as int][l.1 as int]
            <==> recorded(vs, l)) by {
            assert(fv[l.0 as int] == flags@[l.0 as int]@);
            if flags@[l.0 as int]@[l.1 as int] {
                let (h1, i) = choose|h1: int, i: int|
                    0 <= h1 < h && 0 <= i < vs[h1].acc.len() && #[trigger] vs[h1].acc[i] == l;
                assert(0 <= h1 < vs.len() && 0 <= i < vs[h1].acc.len() && vs[h1].acc[i] == l);
            }
            if recorded(vs, l) {
                let (h1, i) = choose|h1: int, i: int|
                    0 <= h1 < vs.len() && 0 <= i < vs[h1].acc.len() && #[trigger] vs[h1].acc[i] == l;
                assert(0 <= h1 < h && 0 <= i < vs[h1].acc.len() && vs[h1].acc[i] == l);
            }
        }
    }
    flags
}

/// A table with a place for the final number of every subset of every shard,
/// all places empty.
fn empty_numbers(shards: &Vec<Shard>, Ghost(g): Ghost<Family>) -> (r: Vec<Vec<Option<usize>>>)
    requires
        shards@.len() == g.sets.len(),
        forall|h: int| 0 <= h < shards@.len() ==> (#[trigger] shards@[h]).table.keys().len() == g.sets[h].len(),
    ensures
        ids_ok(g, ids_view(r@), Seq::empty()),
{
    let n_threads = shards.len();
    let mut ids: Vec<Vec<Option<usize>>> = Vec::new();
    let mut h: usize = 0;
    while h < n_threads
        invariant
            n_threads == shards@.len(),
            shards@.len() == g.sets.len(),
            forall|h: int|
                0 <= h < shards@.len() ==> (#[trigger] shards@[h]).table.keys().len() == g.sets[h].len(),
            h <= n_threads,
            ids@.len() == h,
            forall|h1: int| 0 <= h1 < h ==> (#[trigger] ids@[h1])@.len() == g.sets[h1].len(),
            forall|h1: int, j: int|
                0 <= h1 < h && 0 <= j < ids@[h1]@.len() ==> (#[trigger] ids@[h1]@[j]) is None,
        decreases n_threads - h,
    {
        let len = shards[h].table.len();
        let mut row: Vec<Option<usize>> = Vec::new();
        let mut j: usize = 0;
        while j < len
            invariant
                j <= len,
                row@.len() == j,
                forall|i: int| 0 <= i < j ==> (#[trigger] row@[i]) is None,
            decreases len - j,
        {
            row.push(None);
            j += 1;
        }
        ids.push(row);
        h += 1;
    }
    proof {
        let ids0 = ids_view(ids@);
        let order = Seq::<LocalId>::empty();
        assert forall|h: int| 0 <= h < ids0.len() implies (#[trigger] ids0[h]).len() == g.sets[h].len() by {
            assert(ids@[h]@.len() == g.sets[h].len());
        }
        assert forall|l: LocalId| #[trigger]
            valid_local(g, l) && id_at(ids0, l) is Some implies id_at(ids0, l)->Some_0 < order.len()
            && order[id_at(ids0, l)->Some_0 as int] == l by {
            assert(ids@[l.0 as int]@[l.1 as int] is None);
        }
    }
    ids
}

/// Replaces the shards' names by final numbers.
///
/// The start subset gets `0`. The numbered subsets are then taken in the
/// order of their numbers, and the subsets that their transitions lead to,
/// symbols ascending, get the next numbers as they are first met. Returns
/// the transitions, the number of states, the start states and the accepting
/// states under the final numbers.
fn merge_shards(aut: &Automaton, shards: &Vec<Shard>, start: (usize, usize), Ghost(g): Ghost<Family>) -> (r:
    (Vec<(usize, usize, usize)>, usize, Vec<usize>, Vec<usize>))
    requires
        aut@.wf(),
        mt_inv(aut@, g, views(shards@), -1, 0, start),
        forall|h: int| 0 <= h < shards@.len() ==> (#[trigger] shards@[h]).frontier@.len() == 0,
    ensures
        determinizes(aut@, dfa_model(aut@.alphabet, r.0@, r.1 as nat, r.2@, r.3@)),
{
    let ghost m = aut@;
    let ghost vs = views(shards@);
    let ghost width = aut.alphabet as int;
    proof {
        assert forall|h: int| 0 <= h < shards@.len() implies (#[trigger] shards@[h]).table.keys().len()
            == g.sets[h].len() by {
            assert(shard_inv(m, g, vs[h], h, false, 0));
        }
        assert forall|h: int, i: int|
            0 <= h < shards@.len() && 0 <= i < shards@[h].accepts@.len() implies valid_local(
            g,
            #[trigger] shards@[h].accepts@[i],
        ) by {
            assert(shard_inv(m, g, vs[h], h, false, 0));
            assert(valid_local(g, vs[h].acc[i]));
        }
    }
    let flags = accept_marks(shards, Ghost(g));
    let mut ids = empty_numbers(shards, Ghost(g));
    let mut order: Vec<(usize, usize)> = Vec::new();
    let mut transitions: Vec<(usize, usize, usize)> = Vec::new();
    let mut accept_states: Vec<usize> = Vec::new();
    let ghost ids0 = ids_view(ids@);
    proof {
        assert(ids0[start.0 as int].len() == g.sets[start.0 as int].len());
        assert(id_at(ids0, start) is None) by {
            if id_at(ids0, start) is Some {
                assert(id_at(ids0, start)->Some_0 < 0);
            }
        }
        lemma_assign(g, ids0, order@, start);
        assert(ids@[start.0 as int]@ == ids0[start.0 as int]);
        assert(flags_view(flags@)[start.0 as int] == flags@[start.0 as int]@);
    }
    ids[start.0][start.1] = Some(0);
    order.push(start);
    if flags[start.0][start.1] {
        accept_states.push(0);
    }
    let ghost mut keys: Seq<Seq<u8>> = seq![key_at(vs, start)];
    let ghost mut subsets: Seq<Set<int>> = seq![set_at(g, start)];
    let ghost mut first: Seq<int> = seq![0int];
    let mut x: usize = 0;
    proof {
        assert(ids_view(ids@) =~= ids0.update(
            start.0 as int,
            ids0[start.0 as int].update(start.1 as int, Some(0usize)),
        ));
        assert(shard_inv(m, g, vs[start.0 as int], start.0 as int, false, 0));
        assert(m.in_range(g.sets[start.0 as int][start.1 as int]));
        assert(recorded(vs, start) <==> m.hits_accept(set_at(g, start))) by {
            if recorded(vs, start) {
                let (h1, i) = choose|h1: int, i: int|
                    0 <= h1 < vs.len() && 0 <= i < vs[h1].acc.len() && #[trigger] vs[h1].acc[i]
                        == start;
                assert(shard_inv(m, g, vs[h1], h1, false, 0));
            }
        }
        assert(accept_states@.len() <= 1);
        if accept_states@.len() == 1 {
            assert(accept_states@[0] == 0);
        }
        assert(construction_ok(m, keys, subsets, first, transitions@, accept_states@, 0, 1));
        lemma_distinct_bound(subsets, m.size);
    }
    while x < order.len()
        invariant
            m == aut@,
            m.wf(),
            vs == views(shards@),
            width == aut.alphabet as int,
            mt_inv(m, g, vs, -1, 0, start),
            forall|h: int| 0 <= h < shards@.len() ==> (#[trigger] shards@[h]).frontier@.len() == 0,
            marks_shape(g, flags_view(flags@)),
            forall|l: LocalId| #[trigger]
                valid_local(g, l) ==> (flags_view(flags@)[l.0 as int][l.1 as int] <==> recorded(vs, l)),
            ids_ok(g, ids_view(ids@), order@),
            x <= order@.len(),
            order@.len() == subsets.len(),
            merged_ok(g, vs, order@, keys, subsets),
            construction_ok(m, keys, subsets, first, transitions@, accept_states@, x as int, 1),
            subsets.len() <= two_to(m.size),
        decreases 2 * two_to(m.size) - order@.len() - x,
    {
        let l = order[x];
        let ghost count0 = order@.len();
        proof {
            assert(valid_local(g, order@[x as int]));
            assert(shard_inv(m, g, vs[l.0 as int], l.0 as int, false, 0));
            assert(vs[l.0 as int].frontier.len() == 0) by {
                assert(shards@[l.0 as int].frontier@.len() == 0);
            }
        }
        let mut a: usize = 1;
        while a <= aut.alphabet
            invariant
                m == aut@,
                m.wf(),
                vs == views(shards@),
                width == aut.alphabet as int,
                mt_inv(m, g, vs, -1, 0, start),
                marks_shape(g, flags_view(flags@)),
                forall|l: LocalId| #[trigger]
                    valid_local(g, l) ==> (flags_view(flags@)[l.0 as int][l.1 as int] <==> recorded(
                        vs,
                        l,
                    )),
                ids_ok(g, ids_view(ids@), order@),
                x < order@.len(),
                l == order@[x as int],
                valid_local(g, l),
                shard_inv(m, g, vs[l.0 as int], l.0 as int, false, 0),
                l.1 < vs[l.0 as int].done,
                order@.len() == subsets.len(),
                order@.len() >= count0,
                merged_ok(g, vs, order@, keys, subsets),
                1 <= a <= aut.alphabet + 1,
                construction_ok(
                    m,
                    keys,
                    subsets,
                    first,
                    transitions@,
                    accept_states@,
                    x as int,
                    a as int,
                ),
                subsets.len() <= two_to(m.size),
            decreases aut.alphabet + 1 - a,
        {
            let ghost tr_list = vs[l.0 as int].tr;
            proof {
                lemma_place(l.1 as int, a as int, width);
                assert(0 <= l.1 * width + a - 1 < tr_list.len() && l.1 * width >= 0) by (nonlinear_arith)
                    requires
                        0 <= l.1 < vs[l.0 as int].done,
                        1 <= a <= width,
                        tr_list.len() == vs[l.0 as int].done * width,
                ;
                assert(shards@[l.0 as int].transitions@ == tr_list);
            }
            let row_len = shards[l.0].transitions.len();
            assert(l.1 * aut.alphabet + (a - 1) < row_len);
            let k = l.1 * aut.alphabet + (a - 1);
            let t = shards[l.0].transitions[k].2;
            let ghost idsv = ids_view(ids@);
            let ghost tr0 = transitions@;
            let ghost acc0 = accept_states@;
            proof {
                assert(tr_list[k as int].2 == t);
                assert(valid_local(g, t));
                assert(set_at(g, t) == m.step(set_at(g, l), a as int));
                assert(idsv[t.0 as int].len() == g.sets[t.0 as int].len());
                assert(ids@[t.0 as int]@ == idsv[t.0 as int]);
                assert(keys[x as int] == key_at(vs, order@[x as int]));
                assert(subsets[x as int] == set_at(g, l));
            }
            match ids[t.0][t.1] {
                Some(id) => {
                    transitions.push((x, a, id));
                    proof {
                        assert(id_at(idsv, t) == Some(id));
                        assert(order@[id as int] == t);
                        assert(keys[id as int] == key_at(vs, order@[id as int]));
                        assert(subsets[id as int] == set_at(g, t));
                        lemma_step_found(
                            m,
                            keys,
                            subsets,
                            first,
                            tr0,
                            acc0,
                            x as int,
                            a as int,
                            (x, a, id),
                        );
                        assert(merged_ok(g, vs, order@, keys, subsets));
                    }
                },
                None => {
                    let id = order.len();
                    proof {
                        lemma_assign(g, idsv, order@, t);
                        assert(flags_view(flags@)[t.0 as int] == flags@[t.0 as int]@);
                        assert(flags_view(flags@)[t.0 as int].len() == g.sets[t.0 as int].len());
                    }
                    let ghost order0 = order@;
                    ids[t.0][t.1] = Some(id);
                    order.push(t);
                    if flags[t.0][t.1] {
                        accept_states.push(id);
                    }
                    transitions.push((x, a, id));
                    proof {
                        let key = key_at(vs, t);
                        let v = set_at(g, t);
                        assert(ids_view(ids@) =~= idsv.update(
                            t.0 as int,
                            idsv[t.0 as int].update(t.1 as int, Some(id)),
                        ));
                        assert(shard_inv(m, g, vs[t.0 as int], t.0 as int, false, 0));
                        assert(m.in_range(g.sets[t.0 as int][t.1 as int]));
                        assert(block_stands_for(key, v));
                        assert forall|i: int| 0 <= i < keys.len() implies keys[i] != key by {
                            assert(order0[i] != t) by {
                                assert(id_at(idsv, order0[i]) == Some(i as usize));
                            }
                            lemma_locals_distinct(m, g, vs, -1, 0, start, order0[i], t);
                            assert(shard_inv(
                                m,
                                g,
                                vs[order0[i].0 as int],
                                order0[i].0 as int,
                                false,
                                0,
                            ));
                            lemma_compressed_injective(keys[i], key, subsets[i], v);
                        }
                        assert(recorded(vs, t) <==> m.hits_accept(v)) by {
                            if recorded(vs, t) {
                                let (h1, i) = choose|h1: int, i: int|
                                    0 <= h1 < vs.len() && 0 <= i < vs[h1].acc.len() && #[trigger] vs[h1].acc[i]
                                        == t;
                                assert(shard_inv(m, g, vs[h1], h1, false, 0));
                            }
                        }
                        lemma_step_new(
                            m,
                            keys,
                            subsets,
                            first,
                            tr0,
                            acc0,
                            x as int,
                            a as int,
                            (x, a, id),
                            key,
                            v,
                            accept_states@,
                        );
                        let keys0 = keys;
                        let subsets0 = subsets;
                        keys = keys.push(key);
                        first = first.push(tr0.len() as int);
                        subsets = subsets.push(v);
                        lemma_distinct_bound(subsets, m.size);
                        lemma_merged_push(g, vs, order0, keys0, subsets0, t);
                        assert(order@ == order0.push(t));
                        assert(merged_ok(g, vs, order@, keys, subsets));
                    }
                },
            }
            a += 1;
        }
        proof {
            lemma_row_done(m, keys, subsets, first, transitions@, accept_states@, x as int);
        }
        x += 1;
    }
    let mut start_states: Vec<usize> = Vec::new();
    start_states.push(0);
    let size = order.len();
    proof {
        assert(start_states@ =~= seq![0usize]);
        lemma_finished(m, keys, subsets, first, transitions@, accept_states@, start_states@);
    }
    (transitions, size, start_states, accept_states)
}

/// The subset construction on `n_threads` shards.
///
/// The shards take turns; each turn expands one waiting subset of one shard
/// on the symbols `1..=alphabet`. When no subset waits any more, the shards'
/// names give way to final numbers in the order of discovery from the start
/// subset, so that the result does not depend on the number of shards.
/// Returns the transitions, the number of states, the start states and the
/// accepting states of the deterministic automaton.
pub fn rabin_scott_mt(aut: &Automaton, n_threads: usize) -> (r: (
    Vec<(usize, usize, usize)>,
    usize,
    Vec<usize>,
    Vec<usize>,
))
    requires
        aut@.wf(),
        aut@.fits_blocks(),
        n_threads >= 1,
    ensures
        determinizes(aut@, dfa_model(aut@.alphabet, r.0@, r.1 as nat, r.2@, r.3@)),
{
    let arr = aut.get_transition_array();
    let mut shards: Vec<Shard> = Vec::new();
    let mut h: usize = 0;
    while h < n_threads
        invariant
            h <= n_threads,
            shards@.len() == h,
            forall|h1: int|
                0 <= h1 < h ==> (#[trigger] shards@[h1]).table.wf() && shards@[h1]@.keys.len() == 0
                    && shards@[h1].frontier@.len() == 0 && shards@[h1].done == 0
                    && shards@[h1].transitions@.len() == 0 && shards@[h1].accepts@.len() == 0,
        decreases n_threads - h,
    {
        shards.push(Shard::new());
        h += 1;
    }
    let start_state = start_subset(aut, &arr);
    let ghost start_set = start_state@;
    let key = start_state.duplicate().compress();
    let ghost key0 = key.cnum@;
    let s0 = get_hash(&key, n_threads);
    let hit = meets(&start_state, &aut.end);
    if hit {
        shards[s0].accepts.push((s0, 0));
    }
    shards[s0].table.insert(key);
    shards[s0].frontier.push_back(start_state);
    let ghost start: LocalId = (s0, 0usize);
    let ghost g0 = Family {
        sets: Seq::new(
            n_threads as nat,
            |h: int|
                if h == s0 {
                    seq![start_set]
                } else {
                    Seq::empty()
                },
        ),
        words: Seq::new(
            n_threads as nat,
            |h: int|
                if h == s0 {
                    seq![Seq::<int>::empty()]
                } else {
                    Seq::empty()
                },
        ),
    };
    proof {
        let m = aut@;
        let vs = views(shards@);
        lemma_meets_accept(m, start_set);
        assert(shards@[s0 as int].table.keys() =~= seq![key0]);
        assert(frontier_sets(shards@[s0 as int].frontier@) =~= seq![start_set]);
        assert forall|h: int| 0 <= h < vs.len() implies shard_inv(m, g0, #[trigger] vs[h], h, false, 0) by {
            let v = vs[h];
            assert(v == shards@[h]@);
            if h == s0 {
                assert(g0.sets[h] == seq![start_set]);
                assert(g0.words[h] == seq![Seq::<int>::empty()]);
                assert(v.tr.len() == 0);
                assert(v.done * (m.alphabet as int) == 0) by (nonlinear_arith)
                    requires
                        v.done == 0,
                ;
                assert forall|i: int| 0 <= i < v.acc.len() implies valid_local(g0, #[trigger] v.acc[i])
                    && m.hits_accept(set_at(g0, v.acc[i])) by {
                    assert(v.acc[i] == start);
                }
            } else {
                assert(g0.sets[h] == Seq::<Set<int>>::empty());
                assert(g0.words[h] == Seq::<Seq<int>>::empty());
                assert(v.done * (m.alphabet as int) == 0) by (nonlinear_arith)
                    requires
                        v.done == 0,
                ;
            }
        }
        assert forall|l: LocalId| #[trigger]
            valid_local(g0, l) && m.hits_accept(set_at(g0, l)) implies recorded(vs, l) by {
            assert(l.0 == s0) by {
                if l.0 != s0 {
                    assert(g0.sets[l.0 as int] == Seq::<Set<int>>::empty());
                }
            }
            assert(g0.sets[s0 as int] == seq![start_set]);
            assert(l == start);
            assert(vs[s0 as int].acc[0] == l);
        }
        assert(valid_local(g0, start) && set_at(g0, start) == start_set) by {
            assert(g0.sets[s0 as int] == seq![start_set]);
        }
        assert(mt_inv(m, g0, vs, -1, 0, start));
        assert(shards_wf(shards@));
    }
    let Ghost(g) = run_shards(aut, &arr, &mut shards, Ghost(g0), Ghost(start));
    merge_shards(aut, &shards, (s0, 0), Ghost(g))
}

} // verus!
