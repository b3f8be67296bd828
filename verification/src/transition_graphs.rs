//! Transition graphs of networks that pass tokens: a buffer in front of a
//! stack, and two stacks in a row.
//!
//! Tokens enter in order and are known by their rank among the tokens in the
//! network. A token that leaves is read as the symbol of its rank, and the
//! ranks above it go down by one. Moves inside the network are on the empty
//! word.

use crate::automaton::{copy_states, Automaton, AutomatonType};
use crate::config_table::{
    items_at_most, keys_bounded, lemma_keys_bound, power, ConfigTable,
};
use crate::explore::{
    exploring, is_exploration, key_of, keys_of, lemma_explore_found, lemma_explore_new,
    lemma_explore_row_done, lemma_key_one_to_one, resolve_new_state, flatten, unflatten, Config, Moves,
};
use vstd::prelude::*;

verus! {

/// The rank `l` after the token of rank `a` has left.
pub open spec fn decreased(l: usize, a: usize) -> usize {
    if l > a {
        (l - 1) as usize
    } else {
        l
    }
}

/// The ranks `s` after the token of rank `a` has left.
pub open spec fn lowered(s: Seq<usize>, a: usize) -> Seq<usize> {
    Seq::new(s.len(), |i: int| decreased(s[i], a))
}

/// The line `s` without the tokens of rank `l`.
pub open spec fn without(s: Seq<usize>, l: usize) -> Seq<usize>
    decreases s.len(),
{
    if s.len() == 0 {
        Seq::empty()
    } else {
        let rest = without(s.drop_last(), l);
        if s.last() != l {
            rest.push(s.last())
        } else {
            rest
        }
    }
}

/// The line `s` without its tokens of rank `l` is no longer and holds no new rank.
pub proof fn lemma_without(s: Seq<usize>, l: usize, r: nat)
    requires
        items_at_most(s, r),
    ensures
        without(s, l).len() <= s.len(),
        items_at_most(without(s, l), r),
    decreases s.len(),
{
    if s.len() > 0 {
        let init = s.drop_last();
        assert(items_at_most(init, r)) by {
            assert forall|i: int| 0 <= i < init.len() implies #[trigger] init[i] <= r by {
                assert(init[i] == s[i]);
            }
        }
        lemma_without(init, l, r);
        assert(s[s.len() - 1] <= r);
    }
}

/// The token at the front of the second line leaves.
pub open spec fn move_out(c: Config) -> Seq<(usize, Config)> {
    if c.second.len() > 0 {
        seq![
            (
                c.second[0],
                Config {
                    first: lowered(c.first, c.second[0]),
                    second: lowered(c.second, c.second[0]).drop_first(),
                },
            ),
        ]
    } else {
        Seq::empty()
    }
}

/// Any token of the buffer goes on the stack, if the stack has room.
pub open spec fn buffer_to_stack(c: Config, n: nat) -> Seq<(usize, Config)> {
    if c.first.len() > 0 && c.second.len() < n {
        Seq::new(
            c.first.len(),
            |i: int|
                (
                    0usize,
                    Config { first: without(c.first, c.first[i]), second: seq![c.first[i]] + c.second },
                ),
        )
    } else {
        Seq::empty()
    }
}

/// A token enters the buffer, if the buffer has room.
pub open spec fn into_buffer(c: Config, b: nat) -> Seq<(usize, Config)> {
    if c.first.len() < b {
        seq![
            (
                0usize,
                Config {
                    first: c.first.push((c.first.len() + c.second.len() + 1) as usize),
                    second: c.second,
                },
            ),
        ]
    } else {
        Seq::empty()
    }
}

/// The moves of a buffer of `b` places in front of a stack of `n` places.
/// The first line of a configuration is the buffer, the second the stack
/// with its top in front.
pub open spec fn buffer_and_stack_moves(b: nat, n: nat) -> Moves {
    |c: Config| move_out(c) + buffer_to_stack(c, n) + into_buffer(c, b)
}

/// The token at the front of the first stack goes on the second, if it has room.
pub open spec fn stack_to_stack(c: Config, n2: nat) -> Seq<(usize, Config)> {
    if c.second.len() < n2 && c.first.len() > 0 {
        seq![(0usize, Config { first: c.first.drop_first(), second: seq![c.first[0]] + c.second })]
    } else {
        Seq::empty()
    }
}

/// A token enters the first stack, if it has room.
pub open spec fn into_stack(c: Config, n1: nat) -> Seq<(usize, Config)> {
    if c.first.len() < n1 {
        seq![
            (
                0usize,
                Config {
                    first: seq![(c.first.len() + c.second.len() + 1) as usize] + c.first,
                    second: c.second,
                },
            ),
        ]
    } else {
        Seq::empty()
    }
}

/// The moves of a stack of `n1` places in front of a stack of `n2` places.
/// Both lines of a configuration have the top of the stack in front.
pub open spec fn two_stack_moves(n1: nat, n2: nat) -> Moves {
    |c: Config| move_out(c) + stack_to_stack(c, n2) + into_stack(c, n1)
}

/// The configuration without a token.
pub open spec fn empty_config() -> Config {
    Config { first: Seq::empty(), second: Seq::empty() }
}

/// The lines of `c` have at most `cap1` and `cap2` tokens, of ranks at most `r`.
pub open spec fn fits(c: Config, cap1: nat, cap2: nat, r: nat) -> bool {
    &&& c.first.len() <= cap1
    &&& c.second.len() <= cap2
    &&& items_at_most(c.first, r)
    &&& items_at_most(c.second, r)
}

/// Every configuration fits.
pub open spec fn all_fit(configs: Seq<Config>, cap1: nat, cap2: nat, r: nat) -> bool {
    forall|i: int| 0 <= i < configs.len() ==> fits(#[trigger] configs[i], cap1, cap2, r)
}

/// The list of a configuration that fits is short and holds small numbers.
pub proof fn lemma_fits_key(c: Config, cap1: nat, cap2: nat, r: nat)
    requires
        fits(c, cap1, cap2, r),
        cap1 <= r,
        r <= usize::MAX,
    ensures
        key_of(c).len() <= 1 + cap1 + cap2,
        items_at_most(key_of(c), r),
{
    let k = key_of(c);
    assert forall|i: int| 0 <= i < k.len() implies #[trigger] k[i] <= r by {
        if i == 0 {
        } else if i < 1 + c.first.len() {
            assert(k[i] == c.first[i - 1]);
        } else {
            assert(k[i] == c.second[i - 1 - c.first.len()]);
        }
    }
}

/// The rank `l` after the token of rank `a` has left.
pub fn decrease_ranks(l: usize, a: usize) -> (r: usize)
    ensures
        r == decreased(l, a),
{
    if l > a {
        l - 1
    } else {
        l
    }
}

/// The ranks of `v` after the token of rank `a` has left.
fn lower(v: &Vec<usize>, a: usize) -> (r: Vec<usize>)
    ensures
        r@ == lowered(v@, a),
{
    let mut r: Vec<usize> = Vec::new();
    let mut i: usize = 0;
    while i < v.len()
        invariant
            i <= v@.len(),
            r@.len() == i,
            forall|j: int| 0 <= j < i ==> #[trigger] r@[j] == decreased(v@[j], a),
        decreases v@.len() - i,
    {
        r.push(decrease_ranks(v[i], a));
        i += 1;
    }
    assert(r@ =~= lowered(v@, a));
    r
}

/// The line `v` without the tokens of rank `l`.
fn remove_rank(v: &Vec<usize>, l: usize) -> (r: Vec<usize>)
    ensures
        r@ == without(v@, l),
{
    let mut r: Vec<usize> = Vec::new();
    let mut i: usize = 0;
    assert(v@.take(0) =~= Seq::<usize>::empty());
    while i < v.len()
        invariant
            i <= v@.len(),
            r@ == without(v@.take(i as int), l),
        decreases v@.len() - i,
    {
        proof {
            let next = v@.take(i + 1);
            assert(next.drop_last() =~= v@.take(i as int));
            assert(next.last() == v@[i as int]);
        }
        if v[i] != l {
            r.push(v[i]);
        }
        i += 1;
    }
    assert(v@.take(v@.len() as int) =~= v@);
    r
}

/// The line `v` with the token `x` put in front.
fn with_front(x: usize, v: &Vec<usize>) -> (r: Vec<usize>)
    ensures
        r@ == seq![x] + v@,
{
    let mut r: Vec<usize> = Vec::new();
    r.push(x);
    let mut i: usize = 0;
    while i < v.len()
        invariant
            i <= v@.len(),
            r@ == seq![x] + v@.take(i as int),
        decreases v@.len() - i,
    {
        r.push(v[i]);
        assert(v@.take(i + 1) =~= v@.take(i as int).push(v@[i as int]));
        assert(seq![x] + v@.take(i + 1) =~= (seq![x] + v@.take(i as int)).push(v@[i as int]));
        i += 1;
    }
    assert(v@.take(v@.len() as int) =~= v@);
    r
}

/// The line `v` without the token in front.
fn without_front(v: &Vec<usize>) -> (r: Vec<usize>)
    requires
        v@.len() > 0,
    ensures
        r@ == v@.drop_first(),
{
    let mut r: Vec<usize> = Vec::new();
    let mut i: usize = 1;
    while i < v.len()
        invariant
            1 <= i <= v@.len(),
            r@.len() == i - 1,
            forall|j: int| 0 <= j < i - 1 ==> #[trigger] r@[j] == v@[j + 1],
        decreases v@.len() - i,
    {
        r.push(v[i]);
        i += 1;
    }
    assert(r@ =~= v@.drop_first());
    r
}

/// The line `v` with the token `x` at the end.
fn with_back(v: &Vec<usize>, x: usize) -> (r: Vec<usize>)
    ensures
        r@ == v@.push(x),
{
    let mut r = copy_states(v);
    r.push(x);
    r
}

/// What an exploration keeps besides the table: the configurations by
/// number and the places where they were first reached.
pub struct Explored {
    pub configs: Seq<Config>,
    pub first: Seq<int>,
}

/// The state of a generator between two moves.
pub open spec fn generating(
    moves: Moves,
    table: &ConfigTable,
    transitions: Seq<(usize, usize, usize)>,
    e: Explored,
    done: int,
    part: int,
    cap1: nat,
    cap2: nat,
    r: nat,
) -> bool {
    &&& table.wf()
    &&& table.keys() == keys_of(e.configs)
    &&& all_fit(e.configs, cap1, cap2, r)
    &&& exploring(moves, e.configs, transitions, e.first, done, part)
    &&& e.configs.len() <= power(r + 2, 1 + cap1 + cap2)
}

/// Writes one move of the configuration numbered `from`, and files the
/// configuration that it leads to if it is new.
fn file_move(
    table: &mut ConfigTable,
    transitions: &mut Vec<(usize, usize, usize)>,
    from: usize,
    symbol: usize,
    first: &Vec<usize>,
    second: &Vec<usize>,
    Ghost(moves): Ghost<Moves>,
    Ghost(e): Ghost<Explored>,
    Ghost(part): Ghost<int>,
    Ghost(cap1): Ghost<nat>,
    Ghost(cap2): Ghost<nat>,
    Ghost(r): Ghost<nat>,
) -> (res: Ghost<Explored>)
    requires
        cap1 <= r,
        r <= usize::MAX,
        1 + cap1 + cap2 <= usize::MAX,
        generating(moves, old(table), old(transitions)@, e, from as int, part, cap1, cap2, r),
        from < e.configs.len(),
        0 <= part < moves(e.configs[from as int]).len(),
        moves(e.configs[from as int])[part] == (symbol, Config { first: first@, second: second@ }),
        fits(Config { first: first@, second: second@ }, cap1, cap2, r),
    ensures
        generating(moves, final(table), final(transitions)@, res@, from as int, part + 1, cap1, cap2, r),
        res@.configs.len() >= e.configs.len(),
        res@.configs[from as int] == e.configs[from as int],
        res@.configs[0] == e.configs[0],
{
    let ghost target = Config { first: first@, second: second@ };
    let ghost keys0 = table.keys();
    let ghost tr0 = transitions@;
    let id = resolve_new_state(table, transitions, from, symbol, first, second);
    let ghost mut out = e;
    proof {
        assert forall|i: int| 0 <= i < e.configs.len() implies (e.configs[i] == target <==> keys0[i]
            == key_of(target)) by {
            assert(fits(e.configs[i], cap1, cap2, r));
            assert(keys0[i] == key_of(e.configs[i]));
            if keys0[i] == key_of(target) {
                lemma_key_one_to_one(e.configs[i], target);
            }
        }
        if exists|i: int| 0 <= i < keys0.len() && keys0[i] == key_of(target) {
            assert(table.keys() == keys0);
            assert(e.configs[id as int] == target);
            lemma_explore_found(moves, e.configs, tr0, e.first, from as int, part, (from, symbol, id));
        } else {
            assert(table.keys() == keys0.push(key_of(target)));
            assert forall|i: int| 0 <= i < e.configs.len() implies e.configs[i] != target by {
                if e.configs[i] == target {
                    assert(0 <= i < keys0.len() && keys0[i] == key_of(target));
                }
            }
            lemma_explore_new(
                moves,
                e.configs,
                tr0,
                e.first,
                from as int,
                part,
                (from, symbol, id),
                target,
            );
            out = Explored { configs: e.configs.push(target), first: e.first.push(tr0.len() as int) };
            assert(table.keys() =~= keys_of(out.configs));
            assert forall|i: int| 0 <= i < out.configs.len() implies fits(
                #[trigger] out.configs[i],
                cap1,
                cap2,
                r,
            ) by {
                if i < e.configs.len() {
                    assert(out.configs[i] == e.configs[i]);
                }
            }
            let ks = keys_of(out.configs);
            assert forall|i: int| 0 <= i < ks.len() implies (#[trigger] ks[i]).len() <= 1 + cap1 + cap2
                && items_at_most(ks[i], r) by {
                lemma_fits_key(out.configs[i], cap1, cap2, r);
            }
            table.lemma_keys_distinct();
            assert(keys_bounded(ks, r, 1 + cap1 + cap2));
            lemma_keys_bound(ks, r, 1 + cap1 + cap2);
        }
    }
    Ghost(out)
}

/// The transition graph of a buffer of `b` places in front of a stack of `n`
/// places, tagged nondeterministic, with `b + n - 1` symbols and the
/// configuration without a token as its start and accepting state.
///
/// The configurations are numbered in the order in which they are first
/// reached; each is expanded in turn: first the move that lets the top of
/// the stack leave, then the moves that put a token of the buffer on the
/// stack, then the move that lets a token enter.
pub fn get_buffer_and_stack_aut(b: usize, n: usize) -> (r: Automaton)
    requires
        1 <= b + n < usize::MAX,
    ensures
        r.automaton_type == AutomatonType::NonDet,
        r.alphabet == b + n - 1,
        r.start@ == seq![0usize],
        r.end@ == seq![0usize],
        exists|configs: Seq<Config>, first: Seq<int>| #[trigger]
            is_exploration(
                buffer_and_stack_moves(b as nat, n as nat),
                empty_config(),
                configs,
                r.table@,
                first,
            ) && r.size == configs.len(),
{
    let ghost moves = buffer_and_stack_moves(b as nat, n as nat);
    let ghost cap1 = b as nat;
    let ghost cap2 = n as nat;
    let ghost rank = (b + n) as nat;
    let mut table = ConfigTable::new();
    let mut transitions: Vec<(usize, usize, usize)> = Vec::new();
    let no_tokens: Vec<usize> = Vec::new();
    let key = flatten(&no_tokens, &no_tokens);
    table.insert(key);
    let ghost mut e = Explored { configs: seq![empty_config()], first: seq![0int] };
    let mut done: usize = 0;
    proof {
        assert(table.keys() =~= keys_of(e.configs));
        let ks = keys_of(e.configs);
        lemma_fits_key(e.configs[0], cap1, cap2, rank);
        assert(keys_bounded(ks, rank, 1 + cap1 + cap2));
        lemma_keys_bound(ks, rank, 1 + cap1 + cap2);
        assert(crate::explore::rows_before(moves, e.configs, 0) + crate::explore::row_of(
            moves,
            e.configs,
            0,
        ).take(0) =~= Seq::empty());
    }
    while done < table.len()
        invariant
            1 <= b + n < usize::MAX,
            moves == buffer_and_stack_moves(b as nat, n as nat),
            cap1 == b,
            cap2 == n,
            rank == b + n,
            generating(moves, &table, transitions@, e, done as int, 0, cap1, cap2, rank),
            e.configs[0] == empty_config(),
        decreases 2 * power(rank + 2, 1 + cap1 + cap2) - e.configs.len() - done,
    {
        let ghost c = e.configs[done as int];
        proof {
            assert(fits(c, cap1, cap2, rank));
            assert(table.keys()[done as int] == key_of(c));
        }
        let (buffer, stack) = unflatten(table.get(done), Ghost(c));
        let ghost count0 = e.configs.len();
        let ghost mut part: int = 0;
        if stack.len() != 0 {
            let a = stack[0];
            let new_buffer = lower(&buffer, a);
            let lowered_stack = lower(&stack, a);
            let new_stack = without_front(&lowered_stack);
            proof {
                assert(moves(c)[0] == move_out(c)[0]);
            }
            let res = file_move(
                &mut table,
                &mut transitions,
                done,
                a,
                &new_buffer,
                &new_stack,
                Ghost(moves),
                Ghost(e),
                Ghost(0),
                Ghost(cap1),
                Ghost(cap2),
                Ghost(rank),
            );
            proof {
                e = res@;
                part = 1;
            }
        }
        assert(part == move_out(c).len());
        if buffer.len() != 0 && stack.len() < n {
            let mut i: usize = 0;
            while i < buffer.len()
                invariant
                    1 <= b + n < usize::MAX,
                    moves == buffer_and_stack_moves(b as nat, n as nat),
                    cap1 == b,
                    cap2 == n,
                    rank == b + n,
                    buffer@ == c.first,
                    stack@ == c.second,
                    c.first.len() > 0,
                    c.second.len() < n,
                    fits(c, cap1, cap2, rank),
                    i <= buffer@.len(),
                    part == move_out(c).len() + i,
                    done < e.configs.len(),
                    e.configs.len() >= count0,
                    e.configs[done as int] == c,
                    e.configs[0] == empty_config(),
                    generating(moves, &table, transitions@, e, done as int, part, cap1, cap2, rank),
                decreases buffer@.len() - i,
            {
                let l = buffer[i];
                let new_buffer = remove_rank(&buffer, l);
                let new_stack = with_front(l, &stack);
                proof {
                    lemma_without(c.first, l, rank);
                    assert(moves(c)[part] == buffer_to_stack(c, n as nat)[i as int]);
                    assert(c.first[i as int] <= rank);
                    assert(items_at_most(new_stack@, rank)) by {
                        assert forall|j: int| 0 <= j < new_stack@.len() implies #[trigger] new_stack@[j]
                            <= rank by {
                            if j > 0 {
                                assert(new_stack@[j] == c.second[j - 1]);
                            }
                        }
                    }
                }
                let res = file_move(
                    &mut table,
                    &mut transitions,
                    done,
                    0,
                    &new_buffer,
                    &new_stack,
                    Ghost(moves),
                    Ghost(e),
                    Ghost(part),
                    Ghost(cap1),
                    Ghost(cap2),
                    Ghost(rank),
                );
                proof {
                    e = res@;
                    part = part + 1;
                }
                i += 1;
            }
        }
        assert(part == move_out(c).len() + buffer_to_stack(c, n as nat).len());
        if buffer.len() < b {
            let new_buffer = with_back(&buffer, buffer.len() + stack.len() + 1);
            let new_stack = copy_states(&stack);
            proof {
                assert(moves(c)[part] == into_buffer(c, b as nat)[0]);
                assert(items_at_most(new_buffer@, rank)) by {
                    assert forall|j: int| 0 <= j < new_buffer@.len() implies #[trigger] new_buffer@[j]
                        <= rank by {
                        if j < c.first.len() {
                            assert(new_buffer@[j] == c.first[j]);
                        }
                    }
                }
            }
            let res = file_move(
                &mut table,
                &mut transitions,
                done,
                0,
                &new_buffer,
                &new_stack,
                Ghost(moves),
                Ghost(e),
                Ghost(part),
                Ghost(cap1),
                Ghost(cap2),
                Ghost(rank),
            );
            proof {
                e = res@;
                part = part + 1;
            }
        }
        proof {
            assert(part == moves(c).len());
            lemma_explore_row_done(moves, e.configs, transitions@, e.first, done as int);
        }
        done += 1;
    }
    let size = table.len();
    let mut start: Vec<usize> = Vec::new();
    start.push(0);
    let mut end: Vec<usize> = Vec::new();
    end.push(0);
    let r = Automaton::new(AutomatonType::NonDet, size, b + n - 1, transitions, start, end);
    proof {
        assert(r.start@ =~= seq![0usize]);
        assert(r.end@ =~= seq![0usize]);
        assert(is_exploration(moves, empty_config(), e.configs, r.table@, e.first) && r.size
            == e.configs.len());
    }
    r
}

/// The transition graph of a stack of `n1` places in front of a stack of
/// `n2` places, tagged nondeterministic, with `n1 + n2 - 1` symbols and the
/// configuration without a token as its start and accepting state.
///
/// The configurations are numbered in the order in which they are first
/// reached; each is expanded in turn: first the move that lets the top of
/// the second stack leave, then the move from the first stack to the second,
/// then the move that lets a token enter.
pub fn get_two_stack_aut(n1: usize, n2: usize) -> (r: Automaton)
    requires
        1 <= n1 + n2 < usize::MAX,
    ensures
        r.automaton_type == AutomatonType::NonDet,
        r.alphabet == n1 + n2 - 1,
        r.start@ == seq![0usize],
        r.end@ == seq![0usize],
        exists|configs: Seq<Config>, first: Seq<int>| #[trigger]
            is_exploration(
                two_stack_moves(n1 as nat, n2 as nat),
                empty_config(),
                configs,
                r.table@,
                first,
            ) && r.size == configs.len(),
{
    let ghost moves = two_stack_moves(n1 as nat, n2 as nat);
    let ghost cap1 = n1 as nat;
    let ghost cap2 = n2 as nat;
    let ghost rank = (n1 + n2) as nat;
    let mut table = ConfigTable::new();
    let mut transitions: Vec<(usize, usize, usize)> = Vec::new();
    let no_tokens: Vec<usize> = Vec::new();
    let key = flatten(&no_tokens, &no_tokens);
    table.insert(key);
    let ghost mut e = Explored { configs: seq![empty_config()], first: seq![0int] };
    let mut done: usize = 0;
    proof {
        assert(table.keys() =~= keys_of(e.configs));
        let ks = keys_of(e.configs);
        lemma_fits_key(e.configs[0], cap1, cap2, rank);
        assert(keys_bounded(ks, rank, 1 + cap1 + cap2));
        lemma_keys_bound(ks, rank, 1 + cap1 + cap2);
        assert(crate::explore::rows_before(moves, e.configs, 0) + crate::explore::row_of(
            moves,
            e.configs,
            0,
        ).take(0) =~= Seq::empty());
    }
    while done < table.len()
        invariant
            1 <= n1 + n2 < usize::MAX,
            moves == two_stack_moves(n1 as nat, n2 as nat),
            cap1 == n1,
            cap2 == n2,
            rank == n1 + n2,
            generating(moves, &table, transitions@, e, done as int, 0, cap1, cap2, rank),
            e.configs[0] == empty_config(),
        decreases 2 * power(rank + 2, 1 + cap1 + cap2) - e.configs.len() - done,
    {
        let ghost c = e.configs[done as int];
        proof {
            assert(fits(c, cap1, cap2, rank));
            assert(table.keys()[done as int] == key_of(c));
        }
        let (stack1, stack2) = unflatten(table.get(done), Ghost(c));
        let ghost mut part: int = 0;
        if stack2.len() > 0 {
            let a = stack2[0];
            let new_stack1 = lower(&stack1, a);
            let lowered_stack = lower(&stack2, a);
            let new_stack2 = without_front(&lowered_stack);
            proof {
                assert(moves(c)[0] == move_out(c)[0]);
            }
            let res = file_move(
                &mut table,
                &mut transitions,
                done,
                a,
                &new_stack1,
                &new_stack2,
                Ghost(moves),
                Ghost(e),
                Ghost(0),
                Ghost(cap1),
                Ghost(cap2),
                Ghost(rank),
            );
            proof {
                e = res@;
                part = 1;
            }
        }
        assert(part == move_out(c).len());
        if stack2.len() < n2 && stack1.len() > 0 {
            let new_stack1 = without_front(&stack1);
            let new_stack2 = with_front(stack1[0], &stack2);
            proof {
                assert(moves(c)[part] == stack_to_stack(c, n2 as nat)[0]);
                assert(c.first[0] <= rank);
                assert(items_at_most(new_stack1@, rank)) by {
                    assert forall|j: int| 0 <= j < new_stack1@.len() implies #[trigger] new_stack1@[j]
                        <= rank by {
                        assert(new_stack1@[j] == c.first[j + 1]);
                    }
                }
                assert(items_at_most(new_stack2@, rank)) by {
                    assert forall|j: int| 0 <= j < new_stack2@.len() implies #[trigger] new_stack2@[j]
                        <= rank by {
                        if j > 0 {
                            assert(new_stack2@[j] == c.second[j - 1]);
                        }
                    }
                }
            }
            let res = file_move(
                &mut table,
                &mut transitions,
                done,
                0,
                &new_stack1,
                &new_stack2,
                Ghost(moves),
                Ghost(e),
                Ghost(part),
                Ghost(cap1),
                Ghost(cap2),
                Ghost(rank),
            );
            proof {
                e = res@;
                part = part + 1;
            }
        }
        assert(part == move_out(c).len() + stack_to_stack(c, n2 as nat).len());
        if stack1.len() < n1 {
            let new_stack1 = with_front(stack1.len() + stack2.len() + 1, &stack1);
            let new_stack2 = copy_states(&stack2);
            proof {
                assert(moves(c)[part] == into_stack(c, n1 as nat)[0]);
                assert(items_at_most(new_stack1@, rank)) by {
                    assert forall|j: int| 0 <= j < new_stack1@.len() implies #[trigger] new_stack1@[j]
                        <= rank by {
                        if j > 0 {
                            assert(new_stack1@[j] == c.first[j - 1]);
                        }
                    }
                }
            }
            let res = file_move(
                &mut table,
                &mut transitions,
                done,
                0,
                &new_stack1,
                &new_stack2,
                Ghost(moves),
                Ghost(e),
                Ghost(part),
                Ghost(cap1),
                Ghost(cap2),
                Ghost(rank),
            );
            proof {
                e = res@;
                part = part + 1;
            }
        }
        proof {
            assert(part == moves(c).len());
            lemma_explore_row_done(moves, e.configs, transitions@, e.first, done as int);
        }
        done += 1;
    }
    let size = table.len();
    let mut start: Vec<usize> = Vec::new();
    start.push(0);
    let mut end: Vec<usize> = Vec::new();
    end.push(0);
    let r = Automaton::new(AutomatonType::NonDet, size, n1 + n2 - 1, transitions, start, end);
    proof {
        assert(r.start@ =~= seq![0usize]);
        assert(r.end@ =~= seq![0usize]);
        assert(is_exploration(moves, empty_config(), e.configs, r.table@, e.first) && r.size
            == e.configs.len());
    }
    r
}

} // verus!
