//! The automaton record, its mathematical model and its transition index.

use vstd::prelude::*;

verus! {

/// Whether an automaton is tagged as deterministic.
#[derive(Debug, PartialEq, Eq, Clone, Copy, Structural)]
pub enum AutomatonType {
    Det,
    NonDet,
}

/// How determinization distributes its work.
#[derive(Debug, Clone, Copy, PartialEq, Eq, PartialOrd, Ord)]
pub enum AlgorithmKind {
    /// One frontier, one table of subsets.
    Sequential,
    /// The given number of shards, each with its own frontier and table.
    Multithreaded(usize),
}

/// A finite automaton over the symbols `1..=alphabet`. A transition is a
/// source state, a symbol and a destination state; the symbol `0` is the
/// empty word.
#[derive(Debug, PartialEq, Eq)]
pub struct Automaton {
    pub automaton_type: AutomatonType,
    pub size: usize,
    pub alphabet: usize,
    pub table: Vec<(usize, usize, usize)>,
    pub start: Vec<usize>,
    pub end: Vec<usize>,
}

/// The mathematical content of an [`Automaton`].
pub struct AutomatonModel {
    pub kind: AutomatonType,
    pub size: nat,
    pub alphabet: nat,
    pub table: Seq<(usize, usize, usize)>,
    pub start: Seq<usize>,
    pub end: Seq<usize>,
}

impl View for Automaton {
    type V = AutomatonModel;

    open spec fn view(&self) -> AutomatonModel {
        AutomatonModel {
            kind: self.automaton_type,
            size: self.size as nat,
            alphabet: self.alphabet as nat,
            table: self.table@,
            start: self.start@,
            end: self.end@,
        }
    }
}

/// `true` when `s` is strictly increasing in the lexicographic order of triples.
pub open spec fn table_sorted(s: Seq<(usize, usize, usize)>) -> bool {
    forall|i: int, j: int| 0 <= i < j < s.len() ==> triple_lt(s[i], s[j])
}

/// The lexicographic order on triples.
pub open spec fn triple_lt(x: (usize, usize, usize), y: (usize, usize, usize)) -> bool {
    x.0 < y.0 || (x.0 == y.0 && (x.1 < y.1 || (x.1 == y.1 && x.2 < y.2)))
}

/// `true` when `s` is strictly increasing.
pub open spec fn states_sorted(s: Seq<usize>) -> bool {
    forall|i: int, j: int| 0 <= i < j < s.len() ==> s[i] < s[j]
}

impl AutomatonModel {
    /// Every state mentioned is below `size`, every symbol at most `alphabet`,
    /// and both dimensions leave room for the index's extra row and column.
    pub open spec fn wf(self) -> bool {
        &&& self.size < usize::MAX
        &&& self.alphabet < usize::MAX
        &&& forall|i: int|
            0 <= i < self.table.len() ==> (#[trigger] self.table[i]).0 < self.size
                && self.table[i].1 <= self.alphabet && self.table[i].2 < self.size
        &&& forall|i: int| 0 <= i < self.start.len() ==> #[trigger] self.start[i] < self.size
        &&& forall|i: int| 0 <= i < self.end.len() ==> #[trigger] self.end[i] < self.size
    }

    /// There is a transition from `p` to `q` on symbol `a`.
    pub open spec fn edge(self, p: int, a: int, q: int) -> bool {
        exists|i: int|
            0 <= i < self.table.len() && (#[trigger] self.table[i]).0 == p && self.table[i].1 == a
                && self.table[i].2 == q
    }

    /// `q` is a start state.
    pub open spec fn is_start(self, q: int) -> bool {
        exists|i: int| 0 <= i < self.start.len() && #[trigger] self.start[i] == q
    }

    /// `q` is an accepting state.
    pub open spec fn is_accept(self, q: int) -> bool {
        exists|i: int| 0 <= i < self.end.len() && #[trigger] self.end[i] == q
    }

    /// The set of start states.
    pub open spec fn start_set(self) -> Set<int> {
        Set::new(|q: int| self.is_start(q))
    }

    /// No symbol `0`, and at most one destination for each state and symbol.
    pub open spec fn deterministic(self) -> bool {
        &&& forall|i: int| 0 <= i < self.table.len() ==> (#[trigger] self.table[i]).1 != 0
        &&& forall|i: int, j: int|
            0 <= i < self.table.len() && 0 <= j < self.table.len() && (#[trigger] self.table[i]).0
                == (#[trigger] self.table[j]).0 && self.table[i].1 == self.table[j].1
                ==> self.table[i].2 == self.table[j].2
    }

    /// Transitions strictly increasing in lexicographic order, start and accept
    /// states strictly increasing: sorted and free of duplicates.
    pub open spec fn normalized(self) -> bool {
        &&& table_sorted(self.table)
        &&& states_sorted(self.start)
        &&& states_sorted(self.end)
    }
}

/// The destinations listed in `table` for source `q` and symbol `s`, in table order.
pub open spec fn dests(table: Seq<(usize, usize, usize)>, s: int, q: int) -> Seq<usize>
    decreases table.len(),
{
    if table.len() == 0 {
        Seq::empty()
    } else {
        let rest = dests(table.drop_last(), s, q);
        let t = table.last();
        if t.1 == s && t.0 == q {
            rest.push(t.2)
        } else {
            rest
        }
    }
}

/// The sources listed in `table` for destination `q` and symbol `s`, in table order.
pub open spec fn sources(table: Seq<(usize, usize, usize)>, s: int, q: int) -> Seq<usize>
    decreases table.len(),
{
    if table.len() == 0 {
        Seq::empty()
    } else {
        let rest = sources(table.drop_last(), s, q);
        let t = table.last();
        if t.1 == s && t.2 == q {
            rest.push(t.0)
        } else {
            rest
        }
    }
}

/// `dests` lists exactly the destinations of the matching transitions.
pub proof fn lemma_dests_contains(table: Seq<(usize, usize, usize)>, s: int, q: int, p: usize)
    ensures
        dests(table, s, q).contains(p) <==> exists|i: int|
            0 <= i < table.len() && (#[trigger] table[i]).0 == q && table[i].1 == s && table[i].2
                == p,
    decreases table.len(),
{
    if table.len() > 0 {
        let init = table.drop_last();
        let t = table.last();
        lemma_dests_contains(init, s, q, p);
        let rest = dests(init, s, q);
        if dests(table, s, q).contains(p) {
            let k = choose|k: int| 0 <= k < dests(table, s, q).len() && dests(table, s, q)[k] == p;
            if t.1 == s && t.0 == q && k == rest.len() {
                assert(table[table.len() - 1] == t);
            } else {
                assert(rest[k] == p);
                assert(rest.contains(p));
                let i = choose|i: int|
                    0 <= i < init.len() && (#[trigger] init[i]).0 == q && init[i].1 == s && init[i].2
                        == p;
                assert(table[i] == init[i]);
            }
        }
        if exists|i: int|
            0 <= i < table.len() && (#[trigger] table[i]).0 == q && table[i].1 == s && table[i].2
                == p {
            let i = choose|i: int|
                0 <= i < table.len() && (#[trigger] table[i]).0 == q && table[i].1 == s
                    && table[i].2 == p;
            if i == table.len() - 1 {
                assert(dests(table, s, q) == rest.push(p));
                assert(rest.push(p)[rest.len() as int] == p);
            } else {
                assert(init[i] == table[i]);
                assert(rest.contains(p));
                let k = choose|k: int| 0 <= k < rest.len() && rest[k] == p;
                assert(dests(table, s, q)[k] == p);
            }
        }
    }
}

/// `sources` lists exactly the sources of the matching transitions.
pub proof fn lemma_sources_contains(table: Seq<(usize, usize, usize)>, s: int, q: int, p: usize)
    ensures
        sources(table, s, q).contains(p) <==> exists|i: int|
            0 <= i < table.len() && (#[trigger] table[i]).2 == q && table[i].1 == s && table[i].0
                == p,
    decreases table.len(),
{
    if table.len() > 0 {
        let init = table.drop_last();
        let t = table.last();
        lemma_sources_contains(init, s, q, p);
        let rest = sources(init, s, q);
        if sources(table, s, q).contains(p) {
            let k = choose|k: int|
                0 <= k < sources(table, s, q).len() && sources(table, s, q)[k] == p;
            if t.1 == s && t.2 == q && k == rest.len() {
                assert(table[table.len() - 1] == t);
            } else {
                assert(rest[k] == p);
                assert(rest.contains(p));
                let i = choose|i: int|
                    0 <= i < init.len() && (#[trigger] init[i]).2 == q && init[i].1 == s && init[i].0
                        == p;
                assert(table[i] == init[i]);
            }
        }
        if exists|i: int|
            0 <= i < table.len() && (#[trigger] table[i]).2 == q && table[i].1 == s && table[i].0
                == p {
            let i = choose|i: int|
                0 <= i < table.len() && (#[trigger] table[i]).2 == q && table[i].1 == s
                    && table[i].0 == p;
            if i == table.len() - 1 {
                assert(sources(table, s, q) == rest.push(p));
                assert(rest.push(p)[rest.len() as int] == p);
            } else {
                assert(init[i] == table[i]);
                assert(rest.contains(p));
                let k = choose|k: int| 0 <= k < rest.len() && rest[k] == p;
                assert(sources(table, s, q)[k] == p);
            }
        }
    }
}

/// The shape of a transition index: `rows` rows of `cols` lists each.
pub open spec fn index_shape(arr: &Vec<Vec<Vec<usize>>>, rows: int, cols: int) -> bool {
    &&& arr@.len() == rows
    &&& forall|s: int| 0 <= s < rows ==> (#[trigger] arr@[s])@.len() == cols
}

/// `arr` is the forward index of `table`: the list at `[s][q]` holds the
/// destinations of `q` on `s`.
pub open spec fn is_forward_index(
    arr: &Vec<Vec<Vec<usize>>>,
    table: Seq<(usize, usize, usize)>,
    rows: int,
    cols: int,
) -> bool {
    &&& index_shape(arr, rows, cols)
    &&& forall|s: int, q: int|
        0 <= s < rows && 0 <= q < cols ==> (#[trigger] arr@[s]@[q])@ == dests(table, s, q)
}

/// `arr` is the reverse index of `table`: the list at `[s][q]` holds the
/// sources that reach `q` on `s`.
pub open spec fn is_reverse_index(
    arr: &Vec<Vec<Vec<usize>>>,
    table: Seq<(usize, usize, usize)>,
    rows: int,
    cols: int,
) -> bool {
    &&& index_shape(arr, rows, cols)
    &&& forall|s: int, q: int|
        0 <= s < rows && 0 <= q < cols ==> (#[trigger] arr@[s]@[q])@ == sources(table, s, q)
}

/// A copy of a list of transitions.
pub fn copy_table(v: &Vec<(usize, usize, usize)>) -> (r: Vec<(usize, usize, usize)>)
    ensures
        r@ == v@,
{
    let mut r: Vec<(usize, usize, usize)> = Vec::new();
    let mut i: usize = 0;
    while i < v.len()
        invariant
            i <= v@.len(),
            r@ == v@.take(i as int),
        decreases v@.len() - i,
    {
        r.push(v[i]);
        assert(v@.take(i + 1) == v@.take(i as int).push(v@[i as int]));
        i += 1;
    }
    assert(v@.take(v@.len() as int) == v@);
    r
}

/// A copy of a list of states.
pub fn copy_states(v: &Vec<usize>) -> (r: Vec<usize>)
    ensures
        r@ == v@,
{
    let mut r: Vec<usize> = Vec::new();
    let mut i: usize = 0;
    while i < v.len()
        invariant
            i <= v@.len(),
            r@ == v@.take(i as int),
        decreases v@.len() - i,
    {
        r.push(v[i]);
        assert(v@.take(i + 1) == v@.take(i as int).push(v@[i as int]));
        i += 1;
    }
    assert(v@.take(v@.len() as int) == v@);
    r
}

impl Clone for Automaton {
    fn clone(&self) -> (r: Automaton)
        ensures
            r@ == self@,
    {
        Automaton {
            automaton_type: self.automaton_type,
            size: self.size,
            alphabet: self.alphabet,
            table: copy_table(&self.table),
            start: copy_states(&self.start),
            end: copy_states(&self.end),
        }
    }
}

impl Automaton {
    /// An automaton with the given parts.
    pub fn new(
        automaton_type: AutomatonType,
        size: usize,
        alphabet: usize,
        table: Vec<(usize, usize, usize)>,
        start: Vec<usize>,
        end: Vec<usize>,
    ) -> (r: Automaton)
        ensures
            r.automaton_type == automaton_type,
            r.size == size,
            r.alphabet == alphabet,
            r.table == table,
            r.start == start,
            r.end == end,
    {
        Automaton { automaton_type, size, alphabet, table, start, end }
    }

    /// The deterministic automaton with no state, no symbol and no transition.
    pub fn empty() -> (r: Automaton)
        ensures
            r.automaton_type == AutomatonType::Det,
            r.size == 0,
            r.alphabet == 0,
            r.table@.len() == 0,
            r.start@.len() == 0,
            r.end@.len() == 0,
    {
        Automaton::new(AutomatonType::Det, 0, 0, Vec::new(), Vec::new(), Vec::new())
    }

    /// An index of `alphabet + 1` rows and `size + 1` columns of empty lists.
    pub fn get_empty_transition_arr(&self) -> (arr: Vec<Vec<Vec<usize>>>)
        requires
            self.size < usize::MAX,
            self.alphabet < usize::MAX,
        ensures
            index_shape(&arr, self.alphabet + 1, self.size + 1),
            forall|s: int, q: int|
                0 <= s <= self.alphabet && 0 <= q <= self.size ==> (#[trigger] arr@[s]@[q])@.len()
                    == 0,
    {
        let mut arr: Vec<Vec<Vec<usize>>> = Vec::new();
        let mut s: usize = 0;
        while s < self.alphabet + 1
            invariant
                self.size < usize::MAX,
                self.alphabet < usize::MAX,
                s <= self.alphabet + 1,
                arr@.len() == s,
                forall|i: int| 0 <= i < s ==> (#[trigger] arr@[i])@.len() == self.size + 1,
                forall|i: int, q: int|
                    0 <= i < s && 0 <= q <= self.size ==> (#[trigger] arr@[i]@[q])@.len() == 0,
            decreases self.alphabet + 1 - s,
        {
            let mut row: Vec<Vec<usize>> = Vec::new();
            let mut q: usize = 0;
            while q < self.size + 1
                invariant
                    self.size < usize::MAX,
                    q <= self.size + 1,
                    row@.len() == q,
                    forall|j: int| 0 <= j < q ==> (#[trigger] row@[j])@.len() == 0,
                decreases self.size + 1 - q,
            {
                row.push(Vec::new());
                q += 1;
            }
            arr.push(row);
            s += 1;
        }
        arr
    }

    /// The forward index: the list at `[s][q]` holds, in table order, every `p`
    /// with a transition `(q, s, p)`.
    pub fn get_transition_array(&self) -> (arr: Vec<Vec<Vec<usize>>>)
        requires
            self@.wf(),
        ensures
            is_forward_index(&arr, self.table@, self.alphabet + 1, self.size + 1),
    {
        let mut arr = self.get_empty_transition_arr();
        let mut i: usize = 0;
        proof {
            assert(self.table@.take(0) =~= Seq::empty());
            assert forall|s: int, q: int|
                0 <= s < self.alphabet + 1 && 0 <= q < self.size + 1 implies (
            #[trigger] arr@[s]@[q])@ =~= Seq::<usize>::empty() by {}
        }
        while i < self.table.len()
            invariant
                self@.wf(),
                i <= self.table@.len(),
                is_forward_index(&arr, self.table@.take(i as int), self.alphabet + 1, self.size + 1),
            decreases self.table@.len() - i,
        {
            let t = self.table[i];
            let ghost prev = arr;
            assert(self@.table[i as int] == t);
            assert(prev@[t.1 as int]@.len() == self.size + 1);
            arr[t.1][t.0].push(t.2);
            proof {
                let before = self.table@.take(i as int);
                let after = self.table@.take(i + 1);
                assert(after.drop_last() == before);
                assert(after.last() == t);
                assert forall|s: int, q: int|
                    0 <= s < self.alphabet + 1 && 0 <= q < self.size + 1 implies (
                #[trigger] arr@[s]@[q])@ == dests(after, s, q) by {
                    assert(prev@[s]@[q]@ == dests(before, s, q));
                }
            }
            i += 1;
        }
        assert(self.table@.take(self.table@.len() as int) == self.table@);
        arr
    }

    /// The reverse index: the list at `[s][q]` holds, in table order, every `p`
    /// with a transition `(p, s, q)`.
    pub fn get_reverse_transition_arr(&self) -> (arr: Vec<Vec<Vec<usize>>>)
        requires
            self@.wf(),
        ensures
            is_reverse_index(&arr, self.table@, self.alphabet + 1, self.size + 1),
    {
        let mut arr = self.get_empty_transition_arr();
        let mut i: usize = 0;
        proof {
            assert(self.table@.take(0) =~= Seq::empty());
            assert forall|s: int, q: int|
                0 <= s < self.alphabet + 1 && 0 <= q < self.size + 1 implies (
            #[trigger] arr@[s]@[q])@ =~= Seq::<usize>::empty() by {}
        }
        while i < self.table.len()
            invariant
                self@.wf(),
                i <= self.table@.len(),
                is_reverse_index(&arr, self.table@.take(i as int), self.alphabet + 1, self.size + 1),
            decreases self.table@.len() - i,
        {
            let t = self.table[i];
            let ghost prev = arr;
            assert(self@.table[i as int] == t);
            assert(prev@[t.1 as int]@.len() == self.size + 1);
            arr[t.1][t.2].push(t.0);
            proof {
                let before = self.table@.take(i as int);
                let after = self.table@.take(i + 1);
                assert(after.drop_last() == before);
                assert(after.last() == t);
                assert forall|s: int, q: int|
                    0 <= s < self.alphabet + 1 && 0 <= q < self.size + 1 implies (
                #[trigger] arr@[s]@[q])@ == sources(after, s, q) by {
                    assert(prev@[s]@[q]@ == sources(before, s, q));
                }
            }
            i += 1;
        }
        assert(self.table@.take(self.table@.len() as int) == self.table@);
        arr
    }
}

} // verus!
