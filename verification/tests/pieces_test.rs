use std::collections::{HashMap, VecDeque};

use nfdeterminize::automaton::{Automaton, AutomatonType};
use nfdeterminize::automaton_encoder::ParseError;
use nfdeterminize::subset_table::SubsetTable;
use nfdeterminize::transition_graphs::{decrease_ranks, get_buffer_and_stack_aut, get_two_stack_aut};
use nfdeterminize::ubig::{CompressedUbig, Ubig};
use nfdeterminize::validate::InputError;

fn set_of(bits: &[usize]) -> Ubig {
    let mut u = Ubig::new();
    for b in bits {
        u.set_to(b, true);
    }
    u
}

#[test]
fn bits_live_in_the_byte_of_their_index() {
    let u = set_of(&[0, 3, 11]);
    assert_eq!(u.num, vec![0b0000_1001, 0b0000_1000]);
    let mut v = Ubig::new();
    v.set_to(&16, true);
    assert_eq!(v.num, vec![0, 0, 1]);
}

#[test]
fn setting_is_idempotent_and_clearing_beyond_the_end_does_nothing() {
    let mut u = set_of(&[9]);
    u.set_to(&9, true);
    assert_eq!(u.num, vec![0, 2]);
    u.set_to(&100, false);
    assert_eq!(u.num, vec![0, 2]);
    assert!(!u.bit_at(&100));
    assert!(!u.bit_at(&usize::MAX));
}

#[test]
fn flipping_twice_gives_the_set_back() {
    let mut u = set_of(&[2, 20]);
    u.flip(&20);
    assert_eq!(u.get_seq(), vec![2]);
    u.flip(&20);
    assert_eq!(u.get_seq(), vec![2, 20]);
    u.flip(&40);
    assert_eq!(u.get_seq(), vec![2, 20, 40]);
}

#[test]
fn trailing_zero_bytes_do_not_matter() {
    let short = Ubig { num: vec![5] };
    let long = Ubig { num: vec![5, 0, 0, 0] };
    assert_eq!(short, long);
    assert_eq!(long.canonical_bytes(), vec![5]);
    assert_eq!(short.clone().compress().cnum, long.clone().compress().cnum);
    assert_eq!(short.clone().compress().digest(), long.compress().digest());
    assert_ne!(short, Ubig { num: vec![5, 1] });
    assert_ne!(short, Ubig { num: vec![4] });
    assert_eq!(Ubig::new(), Ubig { num: vec![0, 0] });
}

#[test]
fn extending_adds_zero_bytes_up_to_the_index() {
    let mut u = Ubig { num: vec![7] };
    u.extend(&17);
    assert_eq!(u.num, vec![7, 0, 0]);
    u.extend(&3);
    assert_eq!(u.num, vec![7, 0, 0]);
}

#[test]
fn compression_is_undone_by_decompression() {
    let u = Ubig { num: vec![1, 2, 3, 0, 0, 9, 0] };
    let c = u.clone().compress();
    assert_ne!(c.cnum, u.num);
    assert_eq!(&c.cnum[..4], &[6u8, 0, 0, 0]);
    assert_eq!(c.decompress().num, vec![1, 2, 3, 0, 0, 9]);
    assert_eq!(u.clone().compacted().num, vec![1, 2, 3, 0, 0, 9]);
    assert_eq!(u.duplicate().num, u.num);
}

#[test]
fn digest_is_the_hash_of_the_compressed_bytes() {
    let c = CompressedUbig { cnum: vec![9, 8, 7, 6] };
    assert_eq!(c.digest(), fasthash::xx::hash64(&[9u8, 8, 7, 6]));
    assert_ne!(c.digest(), CompressedUbig { cnum: vec![9, 8, 7] }.digest());
    assert!(c.same_bytes(&CompressedUbig { cnum: vec![9, 8, 7, 6] }));
    assert!(!c.same_bytes(&CompressedUbig { cnum: vec![9, 8, 7, 5] }));
}

#[test]
fn subset_table_numbers_in_the_order_of_filing() {
    let mut table = SubsetTable::new();
    let a = set_of(&[1]).compress();
    let b = set_of(&[2, 9]).compress();
    let c = set_of(&[]).compress();
    assert_eq!(table.find(&a), None);
    assert_eq!(table.insert(a.clone()), 0);
    assert_eq!(table.insert(b.clone()), 1);
    assert_eq!(table.find(&b), Some(1));
    assert_eq!(table.find(&a), Some(0));
    assert_eq!(table.find(&c), None);
    assert_eq!(table.insert(c.clone()), 2);
    assert_eq!(table.find(&c), Some(2));
    assert_eq!(table.len(), 3);
}

#[test]
fn lists_are_compared_item_by_item() {
    assert!(Automaton::all_equal(&vec![1, 2, 3], &vec![1, 2, 3]));
    assert!(!Automaton::all_equal(&vec![1, 2, 3], &vec![1, 2]));
    assert!(!Automaton::all_equal(&vec![1, 2, 3], &vec![1, 2, 4]));
    assert!(Automaton::all_equal(&vec![], &vec![]));
}

#[test]
fn difference_and_intersection_of_ordered_lists() {
    assert_eq!(
        Automaton::get_diff_ands(&vec![1, 3, 5, 7, 9], &vec![0, 3, 3, 4, 9, 12]),
        (vec![1, 5, 7], vec![3, 9])
    );
    assert_eq!(
        Automaton::get_diff_ands(&vec![2, 4], &vec![]),
        (vec![2, 4], vec![])
    );
    assert_eq!(
        Automaton::get_diff_ands(&vec![], &vec![1, 2]),
        (vec![], vec![])
    );
}

#[test]
fn states_that_lead_into_a_list_come_out_sorted() {
    let index = vec![
        vec![vec![], vec![], vec![]],
        vec![vec![2, 0], vec![1], vec![2, 0]],
    ];
    assert_eq!(
        Automaton::get_set_from_transitions(&index, &vec![0, 2], 1),
        vec![0, 0, 2, 2]
    );
    assert_eq!(
        Automaton::get_set_from_transitions(&index, &vec![1], 1),
        vec![1]
    );
    assert_eq!(
        Automaton::get_set_from_transitions(&index, &vec![0, 1, 2], 0),
        Vec::<usize>::new()
    );
}

#[test]
fn worklist_replaces_a_divided_list_by_its_halves() {
    let mut q: VecDeque<Vec<usize>> = VecDeque::from(vec![vec![9], vec![1, 2, 3], vec![7]]);
    Automaton::replace_in_queue(
        &mut q,
        &vec![1, 2, 3],
        VecDeque::from(vec![vec![1, 3], vec![2]]),
    );
    assert_eq!(
        q,
        VecDeque::from(vec![vec![9], vec![1, 3], vec![7], vec![2]])
    );
}

#[test]
fn worklist_takes_the_shorter_half_of_a_list_it_does_not_hold() {
    let mut q: VecDeque<Vec<usize>> = VecDeque::from(vec![vec![9]]);
    Automaton::replace_in_queue(
        &mut q,
        &vec![1, 2, 3],
        VecDeque::from(vec![vec![1, 3], vec![2]]),
    );
    assert_eq!(q, VecDeque::from(vec![vec![9], vec![2]]));
    Automaton::replace_in_queue(
        &mut q,
        &vec![4, 5, 6],
        VecDeque::from(vec![vec![4], vec![5, 6]]),
    );
    assert_eq!(q, VecDeque::from(vec![vec![9], vec![2], vec![4]]));
    Automaton::replace_in_queue(
        &mut q,
        &vec![10, 11],
        VecDeque::from(vec![vec![10], vec![11]]),
    );
    assert_eq!(
        q,
        VecDeque::from(vec![vec![9], vec![2], vec![4], vec![11]])
    );
}

#[test]
fn blocks_of_states_come_out_sorted_and_once() {
    let map: HashMap<usize, usize> = HashMap::from([(0, 2), (1, 0), (2, 2), (3, 1)]);
    assert_eq!(
        Automaton::get_part_vec_from_vec(&map, &vec![2, 3, 0, 1, 3]),
        vec![0, 1, 2]
    );
    assert_eq!(
        Automaton::get_part_table(&map, &vec![(3, 1, 0), (0, 1, 2), (2, 1, 0), (1, 2, 3)]),
        vec![(0, 2, 1), (1, 1, 2), (2, 1, 2)]
    );
}

#[test]
fn validation_names_the_first_fault() {
    let good = Automaton::new(
        AutomatonType::Det,
        2,
        2,
        vec![(0, 1, 1), (0, 1, 1), (1, 2, 0)],
        vec![0],
        vec![1],
    );
    assert_eq!(good.validate(), Ok(()));
    let too_large = Automaton::new(AutomatonType::NonDet, usize::MAX, 1, vec![], vec![], vec![]);
    assert_eq!(too_large.validate(), Err(InputError::TooLarge));
    let many_symbols = Automaton::new(AutomatonType::NonDet, 1, usize::MAX, vec![], vec![], vec![]);
    assert_eq!(many_symbols.validate(), Err(InputError::TooLarge));
    let state = Automaton::new(AutomatonType::NonDet, 2, 1, vec![(0, 5, 2)], vec![0], vec![1]);
    assert_eq!(state.validate(), Err(InputError::StateOutOfRange));
    let start = Automaton::new(AutomatonType::NonDet, 2, 1, vec![], vec![2], vec![1]);
    assert_eq!(start.validate(), Err(InputError::StateOutOfRange));
    let accept = Automaton::new(AutomatonType::NonDet, 2, 1, vec![], vec![0], vec![9]);
    assert_eq!(accept.validate(), Err(InputError::StateOutOfRange));
    let symbol = Automaton::new(AutomatonType::NonDet, 2, 1, vec![(0, 2, 1)], vec![0], vec![1]);
    assert_eq!(symbol.validate(), Err(InputError::SymbolOutOfRange));
    let empty_word = Automaton::new(AutomatonType::Det, 2, 1, vec![(0, 0, 1)], vec![0], vec![1]);
    assert_eq!(empty_word.validate(), Err(InputError::EmptyWordInDet));
    let several = Automaton::new(
        AutomatonType::Det,
        2,
        1,
        vec![(0, 1, 1), (0, 1, 0)],
        vec![0],
        vec![1],
    );
    assert_eq!(several.validate(), Err(InputError::SeveralDestinations));
    let nondet = Automaton::new(
        AutomatonType::NonDet,
        2,
        1,
        vec![(0, 1, 1), (0, 1, 0), (0, 0, 1)],
        vec![0],
        vec![1],
    );
    assert_eq!(nondet.validate(), Ok(()));
}

#[test]
fn text_with_a_counted_alphabet_is_read() {
    let text = b" { nondet , 3, 2,\n [ [ [1, 2], [], [0] ],\n   [ [], [2], [] ] ],\n [0], [2 , 1] }\n";
    assert_eq!(
        Automaton::parse(&text.to_vec()),
        Ok(Automaton::new(
            AutomatonType::NonDet,
            3,
            2,
            vec![(0, 1, 1), (0, 1, 2), (2, 1, 0), (1, 2, 2)],
            vec![0],
            vec![2, 1],
        ))
    );
}

#[test]
fn text_with_letters_puts_the_empty_word_at_its_place() {
    let text = b"{epsilon,2,\"a@b\",[[[1],[]],[[],[0]],[[0],[1]]],[0],[]}";
    assert_eq!(
        Automaton::parse(&text.to_vec()),
        Ok(Automaton::new(
            AutomatonType::NonDet,
            2,
            2,
            vec![(0, 1, 1), (1, 0, 0), (0, 2, 0), (1, 2, 1)],
            vec![0],
            vec![],
        ))
    );
    let plain = b"{det,1,\"xy\",[[[0]],[[0]]],[0],[0]}";
    assert_eq!(
        Automaton::parse(&plain.to_vec()),
        Ok(Automaton::new(
            AutomatonType::Det,
            1,
            2,
            vec![(0, 1, 0), (0, 2, 0)],
            vec![0],
            vec![0],
        ))
    );
}

#[test]
fn text_that_is_no_record_is_refused() {
    for bad in [
        &b""[..],
        b"{det,1,1,[],[0],[0]",
        b"{det,1,1,[],[0],[0]} x",
        b"{deterministic,1,1,[],[0],[0]}",
        b"{det,1,1,[],[0]}",
        b"{det,1,1,[[0]],[0],[0]}",
        b"{det,1,1,[[[0,]]],[0],[0]}",
        b"{det,1,\"ab,[],[0],[0]}",
        b"{det,1,1,[],[0],[99999999999999999999999999]}",
        b"det,1,1,[],[0],[0]",
    ] {
        assert_eq!(Automaton::parse(&bad.to_vec()), Err(ParseError::Malformed));
    }
    assert_eq!(
        Automaton::parse(&b"{det,0,0,[],[],[]}".to_vec()),
        Ok(Automaton::empty())
    );
}

#[test]
fn ranks_above_the_leaving_token_go_down() {
    assert_eq!(decrease_ranks(5, 3), 4);
    assert_eq!(decrease_ranks(3, 3), 3);
    assert_eq!(decrease_ranks(1, 3), 1);
}

#[test]
fn smallest_networks_have_four_configurations() {
    let expected = Automaton::new(
        AutomatonType::NonDet,
        4,
        1,
        vec![(0, 0, 1), (1, 0, 2), (2, 1, 0), (2, 0, 3), (3, 1, 1)],
        vec![0],
        vec![0],
    );
    assert_eq!(get_buffer_and_stack_aut(1, 1), expected);
    assert_eq!(get_two_stack_aut(1, 1), expected);
}

#[test]
fn a_buffer_alone_lets_nothing_out() {
    assert_eq!(
        get_buffer_and_stack_aut(2, 0),
        Automaton::new(
            AutomatonType::NonDet,
            3,
            1,
            vec![(0, 0, 1), (1, 0, 2)],
            vec![0],
            vec![0],
        )
    );
}

#[test]
fn a_larger_buffer_lets_tokens_overtake() {
    let network = get_buffer_and_stack_aut(2, 1);
    assert_eq!(network.alphabet, 2);
    assert_eq!(network.table[0], (0, 0, 1));
    assert!(network.validate().is_ok());
    assert!(network.table.iter().any(|t| t.1 == 2));
    assert!(network.table.iter().all(|t| t.0 < network.size && t.2 < network.size));
}

#[test]
fn equal_sets_have_equal_hashes() {
    let short = Ubig { num: vec![0, 64] };
    let long = Ubig { num: vec![0, 64, 0, 0, 0] };
    assert_eq!(short.digest(), long.digest());
    assert_eq!(short.digest(), short.clone().compress().digest());
    assert_ne!(short.digest(), Ubig { num: vec![0, 65] }.digest());
}
