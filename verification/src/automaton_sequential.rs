//! Determinization on one frontier, and minimization by partition refinement.

use crate::automaton::Automaton;
use crate::counting::{lemma_distinct_bound, two_to};
use crate::hopcroft_proof::{apart, differs, distinguishable};
use crate::partition::lists;
use crate::quotient::{accept_seq, alike, block_seq, is_block_map, lemma_same_pattern};
use crate::refinement::{accept_flags, initial_partition, is_numbering, number_blocks};
use std::collections::HashMap;
use crate::sequential_proof::{
    construction_ok, dfa_model, lemma_finished, lemma_row_done, lemma_step_found, lemma_step_new,
};
use crate::subset_construction::{
    determinizes, lemma_meets_accept, meets, start_subset, successor,
};
use crate::subset_table::SubsetTable;
use crate::ubig::{lemma_compressed_injective, Ubig};
use std::collections::VecDeque;
use vstd::prelude::*;

verus! {

/// The subset construction with closure under the empty word.
///
/// Subsets wait in a first-in, first-out frontier; each is expanded on the
/// symbols `1..=alphabet` in ascending order, and a subset gets the next free
/// number when it is first reached. Returns the transitions, the number of
/// states, the start states and the accepting states of the deterministic
/// automaton.
pub fn rabin_scott_seq(aut: &Automaton) -> (r: (
    Vec<(usize, usize, usize)>,
    usize,
    Vec<usize>,
    Vec<usize>,
))
    requires
        aut@.wf(),
        aut@.fits_blocks(),
    ensures
        determinizes(aut@, dfa_model(aut@.alphabet, r.0@, r.1 as nat, r.2@, r.3@)),
{
    let arr = aut.get_transition_array();
    let mut transitions: Vec<(usize, usize, usize)> = Vec::new();
    let mut accept_states: Vec<usize> = Vec::new();
    let mut num_mapper = SubsetTable::new();
    let mut frontier: VecDeque<Ubig> = VecDeque::new();

    let start_state = start_subset(aut, &arr);
    let ghost start_set = start_state@;
    if meets(&start_state, &aut.end) {
        accept_states.push(0);
    }
    let key = start_state.duplicate().compress();
    let ghost key0 = key.cnum@;
    num_mapper.insert(key);
    frontier.push_back(start_state);
    let ghost mut subsets: Seq<Set<int>> = seq![start_set];
    let ghost mut first: Seq<int> = seq![0int];
    let mut done: usize = 0;
    proof {
        lemma_meets_accept(aut@, start_set);
        assert(num_mapper.keys() =~= seq![key0]);
        assert(accept_states@.len() <= 1);
        if accept_states@.len() == 1 {
            assert(accept_states@[0] == 0);
        }
        assert(construction_ok(
            aut@,
            num_mapper.keys(),
            subsets,
            first,
            transitions@,
            accept_states@,
            0,
            1,
        ));
        lemma_distinct_bound(subsets, aut@.size);
    }
    while frontier.len() > 0
        invariant
            aut@.wf(),
            aut@.fits_blocks(),
            aut@.forward_index(&arr),
            num_mapper.wf(),
            construction_ok(
                aut@,
                num_mapper.keys(),
                subsets,
                first,
                transitions@,
                accept_states@,
                done as int,
                1,
            ),
            frontier@.len() == subsets.len() - done,
            subsets.len() <= two_to(aut@.size),
            forall|k: int|
                0 <= k < frontier@.len() ==> (#[trigger] frontier@[k])@ == subsets[done + k]
                    && frontier@[k].wf(),
        decreases 2 * two_to(aut@.size) - subsets.len() - done,
    {
        let ghost frontier0 = frontier@;
        let next = frontier.pop_front().unwrap();
        assert(next == frontier0[0]);
        assert(forall|k: int| 0 <= k < frontier@.len() ==> frontier@[k] == frontier0[k + 1]);
        let mut a: usize = 1;
        let ghost count0 = subsets.len();
        while a <= aut.alphabet
            invariant
                count0 <= subsets.len(),
                aut@.wf(),
                aut@.fits_blocks(),
                aut@.forward_index(&arr),
                num_mapper.wf(),
                done < subsets.len(),
                next@ == subsets[done as int],
                next.wf(),
                1 <= a <= aut.alphabet + 1,
                construction_ok(
                    aut@,
                    num_mapper.keys(),
                    subsets,
                    first,
                    transitions@,
                    accept_states@,
                    done as int,
                    a as int,
                ),
                frontier@.len() == subsets.len() - done - 1,
                subsets.len() <= two_to(aut@.size),
                forall|k: int|
                    0 <= k < frontier@.len() ==> (#[trigger] frontier@[k])@ == subsets[done + 1 + k]
                        && frontier@[k].wf(),
            decreases aut.alphabet + 1 - a,
        {
            let new_s = successor(aut, &arr, &next, a);
            let key = new_s.duplicate().compress();
            let ghost keys0 = num_mapper.keys();
            let ghost tr0 = transitions@;
            let ghost acc0 = accept_states@;
            let total = num_mapper.len();
            match num_mapper.find(&key) {
                Some(id) => {
                    transitions.push((done, a, id));
                    proof {
                        lemma_compressed_injective(keys0[id as int], key.cnum@, subsets[id as int], new_s@);
                        lemma_step_found(
                            aut@,
                            keys0,
                            subsets,
                            first,
                            tr0,
                            acc0,
                            done as int,
                            a as int,
                            (done, a, id),
                        );
                    }
                },
                None => {
                    let ghost key_bytes = key.cnum@;
                    let id = num_mapper.insert(key);
                    if meets(&new_s, &aut.end) {
                        accept_states.push(id);
                    }
                    let ghost frontier1 = frontier@;
                    let ghost v = new_s@;
                    frontier.push_back(new_s);
                    transitions.push((done, a, id));
                    proof {
                        lemma_meets_accept(aut@, v);
                        lemma_step_new(
                            aut@,
                            keys0,
                            subsets,
                            first,
                            tr0,
                            acc0,
                            done as int,
                            a as int,
                            (done, a, id),
                            key_bytes,
                            v,
                            accept_states@,
                        );
                        let ghost old_subsets = subsets;
                        first = first.push(tr0.len() as int);
                        subsets = subsets.push(v);
                        lemma_distinct_bound(subsets, aut@.size);
                        assert forall|k: int| 0 <= k < frontier@.len() implies (
                        #[trigger] frontier@[k])@ == subsets[done + 1 + k] && frontier@[k].wf() by {
                            if k < frontier1.len() {
                                assert(frontier@[k] == frontier1[k]);
                                assert(subsets[done + 1 + k] == old_subsets[done + 1 + k]);
                            }
                        }
                    }
                },
            }
            a += 1;
        }
        proof {
            lemma_row_done(
                aut@,
                num_mapper.keys(),
                subsets,
                first,
                transitions@,
                accept_states@,
                done as int,
            );
        }
        let total = num_mapper.len();
        done += 1;
    }
    let mut start: Vec<usize> = Vec::new();
    start.push(0);
    proof {
        assert(start@ =~= seq![0usize]);
        lemma_finished(
            aut@,
            num_mapper.keys(),
            subsets,
            first,
            transitions@,
            accept_states@,
            start@,
        );
    }
    (transitions, num_mapper.len(), start, accept_states)
}

/// Partition refinement on a deterministic automaton.
///
/// Starts from the states that are not accepting and those that are, and
/// divides blocks until the states of each block go, on every symbol, to the
/// same blocks. Returns the block of each state and the number of blocks.
/// Blocks of states that are not accepting get the first numbers, then the
/// blocks of accepting states, each kind in the order of the least members.
pub fn hopcroft_algo(aut: &Automaton) -> (r: (HashMap<usize, usize>, usize))
    requires
        aut@.wf(),
        aut@.deterministic(),
    ensures
        is_block_map(aut@, r.0@, r.1 as int),
{
    let flags = accept_flags(aut);
    let (p0, spm0) = initial_partition(aut, &flags);
    let rev_arr = aut.get_reverse_transition_arr();
    proof {
        assert forall|s: int, t: int|
            0 <= s < aut@.size && 0 <= t < aut@.size && #[trigger] apart(spm0@, s, t) implies distinguishable(
            aut@,
            s,
            t,
        ) by {
            assert(differs(aut@, s, t, 0));
        }
    }
    let (p, spm) = aut.refine_partition(&rev_arr, p0, spm0);
    proof {
        assert forall|s: int, t: int|
            0 <= s < spm@.len() && 0 <= t < spm@.len() && #[trigger] spm@[s] == #[trigger] spm@[t] implies flags@[s]
            == flags@[t] by {
            assert(aut@.is_accept(s) <==> aut@.is_accept(t));
        }
        assert forall|s: int| 0 <= s < spm@.len() implies #[trigger] spm@[s] < p@.len() by {
            assert(spm@[s] < lists(p@).len());
        }
    }
    let (fin, count, Ghost(rep)) = number_blocks(&flags, &spm, p.len());
    let mut ret_map: HashMap<usize, usize> = HashMap::new();
    let mut s: usize = 0;
    while s < aut.size
        invariant
            s <= aut.size,
            fin@.len() == aut.size,
            forall|k: usize| ret_map@.contains_key(k) <==> k < s,
            forall|k: usize| k < s ==> #[trigger] ret_map@[k] == fin@[k as int],
        decreases aut.size - s,
    {
        ret_map.insert(s, fin[s]);
        s += 1;
    }
    proof {
        assert(block_seq(ret_map@, aut@.size) =~= fin@);
        assert(flags@ =~= accept_seq(aut@));
        assert forall|s: int, t: int| 0 <= s < aut@.size && 0 <= t < aut@.size implies #[trigger] alike(
            spm@,
            fin@,
            s,
            t,
        ) by {}
        lemma_same_pattern(aut@, spm@, fin@);
        assert(is_numbering(accept_seq(aut@), fin@, count as int, rep));
    }
    (ret_map, count)
}

} // verus!
