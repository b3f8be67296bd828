//! Generating a transition graph by exploring configurations: what the
//! generated table is, and the step that files a configuration.

use crate::config_table::ConfigTable;
use vstd::prelude::*;

verus! {

/// A configuration of a network that passes tokens along two lines. A token
/// is known by its rank among the tokens in the network.
pub struct Config {
    pub first: Seq<usize>,
    pub second: Seq<usize>,
}

/// The moves that a network allows from a configuration, each with its symbol.
pub type Moves = spec_fn(Config) -> Seq<(usize, Config)>;

/// The list that stands for a configuration in the table: the length of the
/// first line, the first line, the second line.
pub open spec fn key_of(c: Config) -> Seq<usize> {
    seq![c.first.len() as usize] + c.first + c.second
}

/// Configurations with lines no longer than the machine's numbers are told
/// apart by their lists.
pub proof fn lemma_key_one_to_one(c1: Config, c2: Config)
    requires
        c1.first.len() <= usize::MAX,
        c2.first.len() <= usize::MAX,
        key_of(c1) == key_of(c2),
    ensures
        c1 == c2,
{
    let k1 = key_of(c1);
    let k2 = key_of(c2);
    assert(k1[0] == c1.first.len());
    assert(k2[0] == c2.first.len());
    assert(k1.len() == 1 + c1.first.len() + c1.second.len());
    assert(k2.len() == 1 + c2.first.len() + c2.second.len());
    assert forall|i: int| 0 <= i < c1.first.len() implies c1.first[i] == c2.first[i] by {
        assert(k1[i + 1] == c1.first[i]);
        assert(k2[i + 1] == c2.first[i]);
    }
    assert forall|i: int| 0 <= i < c1.second.len() implies c1.second[i] == c2.second[i] by {
        assert(k1[1 + c1.first.len() + i] == c1.second[i]);
        assert(k2[1 + c2.first.len() + i] == c2.second[i]);
    }
    assert(c1.first =~= c2.first);
    assert(c1.second =~= c2.second);
}

/// The moves from the configuration numbered `i`, each with `i` in front.
pub open spec fn row_of(moves: Moves, configs: Seq<Config>, i: int) -> Seq<(int, usize, Config)> {
    Seq::new(moves(configs[i]).len(), |e: int| (i, moves(configs[i])[e].0, moves(configs[i])[e].1))
}

/// The moves from the configurations numbered below `upto`, in order.
pub open spec fn rows_before(moves: Moves, configs: Seq<Config>, upto: int) -> Seq<
    (int, usize, Config),
>
    decreases upto,
{
    if upto <= 0 {
        Seq::empty()
    } else {
        rows_before(moves, configs, upto - 1) + row_of(moves, configs, upto - 1)
    }
}

/// The state of an exploration: the configurations numbered below `done` are
/// expanded, the next one on its first `part` moves; `table` holds those
/// moves under the numbers of the configurations, and `first` the place
/// where each configuration was first reached.
pub open spec fn exploring(
    moves: Moves,
    configs: Seq<Config>,
    table: Seq<(usize, usize, usize)>,
    first: Seq<int>,
    done: int,
    part: int,
) -> bool {
    let rows = rows_before(moves, configs, done) + if done < configs.len() {
        row_of(moves, configs, done).take(part)
    } else {
        Seq::empty()
    };
    &&& configs.len() >= 1
    &&& first.len() == configs.len()
    &&& forall|i: int, j: int| 0 <= i < j < configs.len() ==> configs[i] != configs[j]
    &&& 0 <= done <= configs.len()
    &&& done < configs.len() ==> 0 <= part <= moves(configs[done]).len()
    &&& done == configs.len() ==> part == 0
    &&& table.len() == rows.len()
    &&& forall|k: int|
        0 <= k < table.len() ==> (#[trigger] table[k]).0 == rows[k].0 && table[k].1 == rows[k].1
            && table[k].2 < configs.len() && configs[table[k].2 as int] == rows[k].2
    &&& forall|j: int|
        1 <= j < configs.len() ==> 0 <= #[trigger] first[j] < table.len() && table[first[j]].2 == j
    &&& forall|j: int, k: int|
        1 <= j < configs.len() && 0 <= k < #[trigger] first[j] ==> (#[trigger] table[k]).2 < j
}

/// `table` is the transition graph of the network: the configurations
/// `configs` are those reached from `init`, numbered in the order in which
/// they are first reached when they are expanded first in, first out, and
/// the table lists the moves of each in turn.
pub open spec fn is_exploration(
    moves: Moves,
    init: Config,
    configs: Seq<Config>,
    table: Seq<(usize, usize, usize)>,
    first: Seq<int>,
) -> bool {
    &&& configs.len() >= 1
    &&& configs[0] == init
    &&& exploring(moves, configs, table, first, configs.len() as int, 0)
}

/// Rows do not change when configurations are added behind them.
pub proof fn lemma_rows_stable(moves: Moves, configs: Seq<Config>, c: Config, upto: int)
    requires
        upto <= configs.len(),
    ensures
        rows_before(moves, configs.push(c), upto) == rows_before(moves, configs, upto),
    decreases upto,
{
    if upto > 0 {
        lemma_rows_stable(moves, configs, c, upto - 1);
        assert(configs.push(c)[upto - 1] == configs[upto - 1]);
        assert(row_of(moves, configs.push(c), upto - 1) =~= row_of(moves, configs, upto - 1));
    }
}

/// A move to a configuration that is already numbered keeps the state.
pub proof fn lemma_explore_found(
    moves: Moves,
    configs: Seq<Config>,
    table: Seq<(usize, usize, usize)>,
    first: Seq<int>,
    done: int,
    part: int,
    t: (usize, usize, usize),
)
    requires
        exploring(moves, configs, table, first, done, part),
        done < configs.len(),
        part < moves(configs[done]).len(),
        t.0 == done,
        t.1 == moves(configs[done])[part].0,
        t.2 < configs.len(),
        configs[t.2 as int] == moves(configs[done])[part].1,
    ensures
        exploring(moves, configs, table.push(t), first, done, part + 1),
{
    let table2 = table.push(t);
    let row = row_of(moves, configs, done);
    let rows = rows_before(moves, configs, done) + row.take(part);
    let rows2 = rows_before(moves, configs, done) + row.take(part + 1);
    assert(row.take(part + 1) =~= row.take(part).push(row[part]));
    assert(rows2 =~= rows.push(row[part]));
    assert forall|k: int| 0 <= k < table2.len() implies (#[trigger] table2[k]).0 == rows2[k].0
        && table2[k].1 == rows2[k].1 && table2[k].2 < configs.len() && configs[table2[k].2 as int]
        == rows2[k].2 by {
        if k < table.len() {
            assert(table2[k] == table[k]);
            assert(rows2[k] == rows[k]);
        }
    }
    assert forall|j: int| 1 <= j < configs.len() implies 0 <= #[trigger] first[j] < table2.len()
        && table2[first[j]].2 == j by {
        assert(table2[first[j]] == table[first[j]]);
    }
    assert forall|j: int, k: int|
        1 <= j < configs.len() && 0 <= k < #[trigger] first[j] implies (#[trigger] table2[k]).2 < j by {
        assert(table2[k] == table[k]);
    }
}

/// A move to a configuration that was not numbered yet, filed under the next
/// number, keeps the state.
pub proof fn lemma_explore_new(
    moves: Moves,
    configs: Seq<Config>,
    table: Seq<(usize, usize, usize)>,
    first: Seq<int>,
    done: int,
    part: int,
    t: (usize, usize, usize),
    c: Config,
)
    requires
        exploring(moves, configs, table, first, done, part),
        done < configs.len(),
        part < moves(configs[done]).len(),
        t.0 == done,
        t.1 == moves(configs[done])[part].0,
        t.2 == configs.len(),
        c == moves(configs[done])[part].1,
        forall|i: int| 0 <= i < configs.len() ==> configs[i] != c,
    ensures
        exploring(
            moves,
            configs.push(c),
            table.push(t),
            first.push(table.len() as int),
            done,
            part + 1,
        ),
{
    let configs2 = configs.push(c);
    let table2 = table.push(t);
    let first2 = first.push(table.len() as int);
    let row = row_of(moves, configs, done);
    let rows = rows_before(moves, configs, done) + row.take(part);
    lemma_rows_stable(moves, configs, c, done);
    assert(configs2[done] == configs[done]);
    let row2 = row_of(moves, configs2, done);
    assert(row2 =~= row);
    let rows2 = rows_before(moves, configs2, done) + row2.take(part + 1);
    assert(row.take(part + 1) =~= row.take(part).push(row[part]));
    assert(rows2 =~= rows.push(row[part]));
    assert forall|i: int, j: int| 0 <= i < j < configs2.len() implies configs2[i] != configs2[j] by {
        assert(configs2[i] == configs[i]);
        if j < configs.len() {
            assert(configs2[j] == configs[j]);
        }
    }
    assert forall|k: int| 0 <= k < table2.len() implies (#[trigger] table2[k]).0 == rows2[k].0
        && table2[k].1 == rows2[k].1 && table2[k].2 < configs2.len() && configs2[table2[k].2 as int]
        == rows2[k].2 by {
        if k < table.len() {
            assert(table2[k] == table[k]);
            assert(rows2[k] == rows[k]);
            assert(configs2[table[k].2 as int] == configs[table[k].2 as int]);
        }
    }
    assert forall|j: int| 1 <= j < configs2.len() implies 0 <= #[trigger] first2[j] < table2.len()
        && table2[first2[j]].2 == j by {
        if j < configs.len() {
            assert(first2[j] == first[j]);
            assert(table2[first[j]] == table[first[j]]);
        }
    }
    assert forall|j: int, k: int|
        1 <= j < configs2.len() && 0 <= k < #[trigger] first2[j] implies (#[trigger] table2[k]).2
        < j by {
        assert(table2[k] == table[k]);
        if j < configs.len() {
            assert(first2[j] == first[j]);
        }
    }
}

/// When every move of a configuration is written, the next one has its turn.
pub proof fn lemma_explore_row_done(
    moves: Moves,
    configs: Seq<Config>,
    table: Seq<(usize, usize, usize)>,
    first: Seq<int>,
    done: int,
)
    requires
        done < configs.len(),
        exploring(moves, configs, table, first, done, moves(configs[done]).len() as int),
    ensures
        exploring(moves, configs, table, first, done + 1, 0),
{
    let row = row_of(moves, configs, done);
    assert(row.take(row.len() as int) =~= row);
    let rows = rows_before(moves, configs, done) + row;
    let next: Seq<(int, usize, Config)> = if done + 1 < configs.len() {
        row_of(moves, configs, done + 1).take(0)
    } else {
        Seq::empty()
    };
    assert(next =~= Seq::<(int, usize, Config)>::empty());
    assert(rows_before(moves, configs, done + 1) + next =~= rows);
}

/// The lists of the configurations, by number.
pub open spec fn keys_of(configs: Seq<Config>) -> Seq<Seq<usize>> {
    Seq::new(configs.len(), |i: int| key_of(configs[i]))
}

/// Files the configuration `(first, second)` if it is new, and writes the
/// move from the configuration numbered `from` on `symbol` that leads to it.
pub fn resolve_new_state(
    table: &mut ConfigTable,
    transitions: &mut Vec<(usize, usize, usize)>,
    from: usize,
    symbol: usize,
    first: &Vec<usize>,
    second: &Vec<usize>,
) -> (id: usize)
    requires
        old(table).wf(),
        first@.len() < usize::MAX,
    ensures
        final(table).wf(),
        final(transitions)@ == old(transitions)@.push((from, symbol, id)),
        id < final(table).keys().len(),
        final(table).keys()[id as int] == key_of(Config { first: first@, second: second@ }),
        (exists|i: int|
            0 <= i < old(table).keys().len() && old(table).keys()[i] == key_of(
                Config { first: first@, second: second@ },
            )) ==> final(table).keys() == old(table).keys(),
        (forall|i: int|
            0 <= i < old(table).keys().len() ==> old(table).keys()[i] != key_of(
                Config { first: first@, second: second@ },
            )) ==> final(table).keys() == old(table).keys().push(
            key_of(Config { first: first@, second: second@ }),
        ) && id == old(table).keys().len(),
{
    let key = flatten(first, second);
    let id = match table.find(&key) {
        Some(id) => id,
        None => table.insert(key),
    };
    transitions.push((from, symbol, id));
    id
}

/// The list that stands for the configuration `(first, second)`.
pub fn flatten(first: &Vec<usize>, second: &Vec<usize>) -> (key: Vec<usize>)
    ensures
        key@ == key_of(Config { first: first@, second: second@ }),
{
    let mut key: Vec<usize> = Vec::new();
    key.push(first.len());
    let mut i: usize = 0;
    while i < first.len()
        invariant
            i <= first@.len(),
            key@ == seq![first@.len() as usize] + first@.take(i as int),
        decreases first@.len() - i,
    {
        key.push(first[i]);
        assert(first@.take(i + 1) =~= first@.take(i as int).push(first@[i as int]));
        assert(seq![first@.len() as usize] + first@.take(i + 1) =~= (seq![first@.len() as usize]
            + first@.take(i as int)).push(first@[i as int]));
        i += 1;
    }
    assert(first@.take(first@.len() as int) =~= first@);
    let mut j: usize = 0;
    while j < second.len()
        invariant
            j <= second@.len(),
            key@ == seq![first@.len() as usize] + first@ + second@.take(j as int),
        decreases second@.len() - j,
    {
        key.push(second[j]);
        assert(second@.take(j + 1) =~= second@.take(j as int).push(second@[j as int]));
        assert(seq![first@.len() as usize] + first@ + second@.take(j + 1) =~= (seq![
            first@.len() as usize,
        ] + first@ + second@.take(j as int)).push(second@[j as int]));
        j += 1;
    }
    assert(second@.take(second@.len() as int) =~= second@);
    key
}

/// The configuration for which the list `key` stands.
pub(crate) fn unflatten(key: &Vec<usize>, Ghost(c): Ghost<Config>) -> (r: (Vec<usize>, Vec<usize>))
    requires
        key@ == key_of(c),
        c.first.len() <= usize::MAX,
    ensures
        r.0@ == c.first,
        r.1@ == c.second,
{
    let n = key[0];
    let mut first: Vec<usize> = Vec::new();
    let mut i: usize = 0;
    assert(key@.len() == 1 + c.first.len() + c.second.len());
    while i < n
        invariant
            key@ == key_of(c),
            n == c.first.len(),
            i <= n,
            first@ == c.first.take(i as int),
        decreases n - i,
    {
        assert(key@[i + 1] == c.first[i as int]);
        first.push(key[i + 1]);
        assert(c.first.take(i + 1) =~= c.first.take(i as int).push(c.first[i as int]));
        i += 1;
    }
    assert(c.first.take(c.first.len() as int) =~= c.first);
    let mut second: Vec<usize> = Vec::new();
    let total = key.len();
    assert(n + 1 <= total);
    let mut j: usize = n + 1;
    while j < key.len()
        invariant
            key@ == key_of(c),
            n == c.first.len(),
            key@.len() == 1 + c.first.len() + c.second.len(),
            n + 1 <= j <= key@.len(),
            second@ == c.second.take(j - n - 1),
        decreases key@.len() - j,
    {
        assert(key@[j as int] == c.second[j - n - 1]);
        second.push(key[j]);
        assert(c.second.take(j - n) =~= c.second.take(j - n - 1).push(c.second[j - n - 1]));
        j += 1;
    }
    assert(c.second.take(c.second.len() as int) =~= c.second);
    (first, second)
}

} // verus!
