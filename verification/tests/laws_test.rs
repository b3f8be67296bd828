use std::collections::BTreeSet;

use nfdeterminize::automaton::{AlgorithmKind, Automaton, AutomatonType};
use nfdeterminize::automaton_multithreaded::{get_hash, rabin_scott_mt};
use nfdeterminize::automaton_sequential::{hopcroft_algo, rabin_scott_seq};
use nfdeterminize::ubig::Ubig;

fn sample_nfas() -> Vec<Automaton> {
    vec![
        Automaton::new(
            AutomatonType::NonDet,
            4,
            2,
            vec![
                (0, 0, 1),
                (0, 1, 2),
                (1, 1, 3),
                (2, 2, 3),
                (3, 0, 3),
                (3, 1, 3),
                (3, 2, 3),
            ],
            vec![0],
            vec![3],
        ),
        Automaton::new(
            AutomatonType::NonDet,
            5,
            2,
            vec![
                (0, 1, 0),
                (0, 2, 0),
                (0, 1, 1),
                (1, 1, 2),
                (1, 2, 2),
                (2, 1, 3),
                (2, 2, 3),
                (3, 1, 4),
                (3, 2, 4),
            ],
            vec![0],
            vec![4],
        ),
        Automaton::new(
            AutomatonType::NonDet,
            3,
            3,
            vec![(0, 1, 1), (1, 0, 2), (2, 2, 0), (2, 3, 2), (0, 3, 0), (1, 3, 1)],
            vec![0, 2],
            vec![1],
        ),
        Automaton::new(AutomatonType::NonDet, 1, 2, vec![], vec![0], vec![0]),
        Automaton::new(AutomatonType::NonDet, 3, 1, vec![(0, 1, 1)], vec![], vec![1]),
    ]
}

fn closure(a: &Automaton, set: &BTreeSet<usize>) -> BTreeSet<usize> {
    let mut out = set.clone();
    let mut stack: Vec<usize> = set.iter().cloned().collect();
    while let Some(p) = stack.pop() {
        for t in &a.table {
            if t.0 == p && t.1 == 0 && out.insert(t.2) {
                stack.push(t.2);
            }
        }
    }
    out
}

fn accepts(a: &Automaton, word: &[usize]) -> bool {
    let mut current = closure(a, &a.start.iter().cloned().collect());
    for symbol in word {
        let mut next = BTreeSet::new();
        for t in &a.table {
            if t.1 == *symbol && current.contains(&t.0) {
                next.insert(t.2);
            }
        }
        current = closure(a, &next);
    }
    a.end.iter().any(|e| current.contains(e))
}

fn words(alphabet: usize, max_len: usize) -> Vec<Vec<usize>> {
    let mut all = vec![vec![]];
    let mut layer: Vec<Vec<usize>> = vec![vec![]];
    for _ in 0..max_len {
        let mut next = Vec::new();
        for w in &layer {
            for s in 1..=alphabet {
                let mut longer = w.clone();
                longer.push(s);
                next.push(longer);
            }
        }
        all.extend(next.iter().cloned());
        layer = next;
    }
    all
}

fn is_normalized(a: &Automaton) -> bool {
    a.table.windows(2).all(|w| w[0] < w[1])
        && a.start.windows(2).all(|w| w[0] < w[1])
        && a.end.windows(2).all(|w| w[0] < w[1])
}

#[test]
fn determinization_keeps_the_language() {
    for nfa in sample_nfas() {
        let dfa = nfa.determinized(AlgorithmKind::Sequential);
        for w in words(nfa.alphabet, 5) {
            assert_eq!(accepts(&dfa, &w), accepts(&nfa, &w), "word {:?}", w);
        }
    }
}

#[test]
fn determinization_twice_is_determinization_once() {
    for nfa in sample_nfas() {
        let once = nfa.determinized(AlgorithmKind::Sequential);
        let twice = once.determinized(AlgorithmKind::Sequential);
        assert_eq!(twice, once);
    }
}

#[test]
fn minimization_twice_is_minimization_once() {
    for nfa in sample_nfas() {
        let dfa = nfa.determinized(AlgorithmKind::Sequential);
        let once = dfa.minimized();
        let twice = once.minimized();
        assert_eq!(twice, once);
    }
}

#[test]
fn minimization_keeps_the_language_and_does_not_grow() {
    for nfa in sample_nfas() {
        let dfa = nfa.determinized(AlgorithmKind::Sequential);
        let min = dfa.minimized();
        assert!(min.size <= dfa.size);
        for w in words(nfa.alphabet, 5) {
            assert_eq!(accepts(&min, &w), accepts(&nfa, &w), "word {:?}", w);
        }
    }
}

#[test]
fn every_number_of_shards_gives_the_same_automaton() {
    for nfa in sample_nfas() {
        let sequential = nfa.determinized(AlgorithmKind::Sequential);
        let minimal = sequential.minimized();
        for k in 1..6 {
            let sharded = nfa.determinized(AlgorithmKind::Multithreaded(k));
            assert_eq!(sharded, sequential);
            assert_eq!(sharded.minimized(), minimal);
        }
    }
}

#[test]
fn sharded_construction_gives_the_parts_of_the_sequential_one() {
    for nfa in sample_nfas() {
        let expected = rabin_scott_seq(&nfa);
        for k in [1usize, 2, 3, 7] {
            assert_eq!(rabin_scott_mt(&nfa, k), expected);
        }
    }
}

#[test]
fn partition_covers_every_state_once() {
    let dfa = Automaton::new(
        AutomatonType::Det,
        6,
        2,
        vec![
            (0, 1, 3),
            (0, 2, 1),
            (1, 1, 2),
            (1, 2, 5),
            (2, 1, 2),
            (2, 2, 5),
            (3, 1, 0),
            (3, 2, 4),
            (4, 1, 2),
            (4, 2, 5),
            (5, 1, 5),
            (5, 2, 5),
        ],
        vec![0],
        vec![1, 2, 4],
    );
    let (blocks, count) = hopcroft_algo(&dfa);
    assert_eq!(count, 3);
    assert_eq!(blocks.len(), 6);
    for s in 0..6 {
        assert!(blocks[&s] < count);
    }
    for b in 0..count {
        assert!((0..6).any(|s| blocks[&s] == b));
    }
    assert_eq!(blocks[&0], 0);
    assert_eq!(blocks[&3], 0);
    assert_eq!(blocks[&5], 1);
    assert_eq!(blocks[&1], 2);
    assert_eq!(blocks[&2], 2);
    assert_eq!(blocks[&4], 2);
}

#[test]
fn produced_automata_are_normalized() {
    for nfa in sample_nfas() {
        let dfa = nfa.determinized(AlgorithmKind::Sequential);
        assert!(is_normalized(&dfa));
        assert!(is_normalized(&dfa.minimized()));
        assert!(is_normalized(
            &nfa.determinized(AlgorithmKind::Multithreaded(3))
        ));
    }
}

#[test]
fn minimization_sorts_and_removes_repetitions() {
    let dfa = Automaton::new(
        AutomatonType::Det,
        3,
        1,
        vec![(2, 1, 2), (1, 1, 2), (0, 1, 1), (1, 1, 2)],
        vec![0, 0],
        vec![2, 2],
    );
    let min = dfa.minimized();
    assert_eq!(
        min,
        Automaton::new(
            AutomatonType::Det,
            3,
            1,
            vec![(0, 1, 1), (1, 1, 2), (2, 1, 2)],
            vec![0],
            vec![2],
        )
    );
}

#[test]
fn deterministic_input_is_returned_as_it_is() {
    let dfa = Automaton::new(
        AutomatonType::Det,
        2,
        1,
        vec![(1, 1, 0), (0, 1, 1)],
        vec![1],
        vec![0],
    );
    assert_eq!(dfa.determinized(AlgorithmKind::Sequential), dfa);
    assert_eq!(dfa.determinized(AlgorithmKind::Multithreaded(2)), dfa);
}

#[test]
fn small_or_nondeterministic_input_is_not_minimized() {
    let small = Automaton::new(
        AutomatonType::Det,
        2,
        1,
        vec![(1, 1, 0), (0, 1, 1)],
        vec![1],
        vec![0, 1],
    );
    assert_eq!(small.minimized(), small);
    let nfa = Automaton::new(
        AutomatonType::NonDet,
        4,
        1,
        vec![(0, 1, 1), (0, 1, 2), (2, 0, 3)],
        vec![0],
        vec![3],
    );
    assert_eq!(nfa.minimized(), nfa);
    assert_eq!(Automaton::empty().minimized(), Automaton::empty());
}

#[test]
fn no_start_state_gives_the_sink_alone() {
    let nfa = Automaton::new(AutomatonType::NonDet, 3, 2, vec![(0, 1, 1)], vec![], vec![1]);
    let dfa = nfa.determinized(AlgorithmKind::Sequential);
    assert_eq!(
        dfa,
        Automaton::new(
            AutomatonType::Det,
            1,
            2,
            vec![(0, 1, 0), (0, 2, 0)],
            vec![0],
            vec![],
        )
    );
}

#[test]
fn no_symbol_gives_the_start_subset_alone() {
    let nfa = Automaton::new(AutomatonType::NonDet, 2, 0, vec![(0, 0, 1)], vec![0], vec![1]);
    for kind in [AlgorithmKind::Sequential, AlgorithmKind::Multithreaded(3)] {
        assert_eq!(
            nfa.determinized(kind),
            Automaton::new(AutomatonType::Det, 1, 0, vec![], vec![0], vec![0])
        );
    }
}

#[test]
fn reversal_turns_transitions_and_exchanges_ends() {
    let a = Automaton::new(
        AutomatonType::Det,
        3,
        2,
        vec![(0, 1, 1), (1, 2, 2)],
        vec![0],
        vec![2, 1],
    );
    assert_eq!(
        a.reverse_transitions(),
        Automaton::new(
            AutomatonType::NonDet,
            3,
            2,
            vec![(1, 1, 0), (2, 2, 1)],
            vec![2, 1],
            vec![0],
        )
    );
}

#[test]
fn reversing_and_determinizing_twice_gives_the_minimal_size() {
    let nfa = Automaton::new(
        AutomatonType::NonDet,
        4,
        2,
        vec![
            (0, 0, 1),
            (0, 1, 2),
            (1, 1, 3),
            (2, 2, 3),
            (3, 0, 3),
            (3, 1, 3),
            (3, 2, 3),
        ],
        vec![0],
        vec![3],
    );
    let by_refinement = nfa.determinized(AlgorithmKind::Sequential).minimized();
    let by_reversal = nfa
        .clone()
        .reverse_transitions()
        .determinized(AlgorithmKind::Sequential)
        .reverse_transitions()
        .determinized(AlgorithmKind::Sequential);
    assert_eq!(by_reversal.size, by_refinement.size);
    for w in words(2, 5) {
        assert_eq!(accepts(&by_reversal, &w), accepts(&nfa, &w));
    }
}

#[test]
fn closure_follows_the_empty_word_only() {
    let nfa = Automaton::new(
        AutomatonType::NonDet,
        5,
        1,
        vec![(0, 0, 1), (1, 0, 2), (2, 0, 0), (2, 1, 3), (3, 0, 4)],
        vec![0],
        vec![],
    );
    let index = nfa.get_transition_array();
    let mut set = Ubig::new();
    nfa.add_state(&index, &mut set, 1);
    assert_eq!(set.get_seq(), vec![0, 1, 2]);
    nfa.add_state(&index, &mut set, 3);
    assert_eq!(set.get_seq(), vec![0, 1, 2, 3, 4]);
}

#[test]
fn closure_does_not_expand_what_the_set_held() {
    let nfa = Automaton::new(
        AutomatonType::NonDet,
        3,
        1,
        vec![(0, 0, 1), (1, 0, 2)],
        vec![0],
        vec![],
    );
    let index = nfa.get_transition_array();
    let mut set = Ubig::new();
    set.set_to(&1, true);
    nfa.add_state(&index, &mut set, 0);
    assert_eq!(set.get_seq(), vec![0, 1]);
}

#[test]
fn index_lists_destinations_and_sources_in_table_order() {
    let a = Automaton::new(
        AutomatonType::NonDet,
        2,
        2,
        vec![(0, 1, 1), (0, 1, 0), (1, 2, 0), (0, 0, 1), (0, 1, 1)],
        vec![0],
        vec![1],
    );
    let forward = a.get_transition_array();
    assert_eq!(
        forward,
        vec![
            vec![vec![1], vec![], vec![]],
            vec![vec![1, 0, 1], vec![], vec![]],
            vec![vec![], vec![0], vec![]],
        ]
    );
    let reverse = a.get_reverse_transition_arr();
    assert_eq!(
        reverse,
        vec![
            vec![vec![], vec![0], vec![]],
            vec![vec![0], vec![0, 0], vec![]],
            vec![vec![1], vec![], vec![]],
        ]
    );
}

#[test]
fn shard_of_a_subset_is_below_the_number_of_shards() {
    let mut set = Ubig::new();
    set.set_to(&5, true);
    set.set_to(&77, true);
    let key = set.compress();
    for n in 1..9 {
        assert!(get_hash(&key, n) < n);
        assert_eq!(get_hash(&key, n), (key.digest() % (n as u64)) as usize);
    }
    assert_eq!(get_hash(&key, 1), 0);
}

#[test]
fn renamed_automata_minimize_to_the_same_automaton_but_for_names() {
    // Words over one symbol whose length is even, with four states and with
    // the same four states under other names.
    let one = Automaton::new(
        AutomatonType::Det,
        4,
        1,
        vec![(0, 1, 1), (1, 1, 2), (2, 1, 3), (3, 1, 0)],
        vec![0],
        vec![0, 2],
    );
    let other = Automaton::new(
        AutomatonType::Det,
        4,
        1,
        vec![(0, 1, 3), (1, 1, 2), (2, 1, 0), (3, 1, 1)],
        vec![2],
        vec![2, 3],
    );
    let a = one.minimized();
    let b = other.minimized();
    assert_eq!(a.size, 2);
    assert_eq!(b.size, 2);
    assert_eq!(a.table.len(), b.table.len());
    assert_eq!(a.end.len(), b.end.len());
    for word in words(1, 6) {
        assert_eq!(accepts(&a, &word), word.len() % 2 == 0);
        assert_eq!(accepts(&b, &word), word.len() % 2 == 0);
    }
    // The start state of each is its accepting state, and the one symbol
    // leads from each state to the other.
    assert_eq!(a.start, a.end);
    assert_eq!(b.start, b.end);
    for t in a.table.iter().chain(b.table.iter()) {
        assert_ne!(t.0, t.2);
    }
}
