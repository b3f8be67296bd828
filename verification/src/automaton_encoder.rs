//! Reading an automaton from text.
//!
//! The text is a record in curly braces with six fields, separated by commas:
//! the kind (`det`, `nondet` or `epsilon`), the number of states, the
//! alphabet, the transitions, the start states and the accepting states.
//! The alphabet is a number, or the symbols as a string in double quotes, in
//! which `@` stands for the empty word. The transitions are a list of rows,
//! one for each symbol; a row is a list with one list of destinations for
//! each state. Lists are in square brackets with commas between the items.
//! Blanks, tabs and line ends may stand around every item.

use crate::automaton::{Automaton, AutomatonModel, AutomatonType};
use crate::partition::lists;
use vstd::prelude::*;

verus! {

/// The text is not an automaton in the format above, or holds a number that
/// the machine cannot hold.
#[derive(Debug, Clone, Copy, PartialEq, Eq, Structural)]
pub enum ParseError {
    Malformed,
}

/// The alphabet as the text gives it.
pub enum AlphabetText {
    Count(usize),
    Letters(Seq<u8>),
}

/// The alphabet as the text gives it.
pub enum AlphabetRead {
    Count(usize),
    Letters(Vec<u8>),
}

impl View for AlphabetRead {
    type V = AlphabetText;

    open spec fn view(&self) -> AlphabetText {
        match self {
            AlphabetRead::Count(n) => AlphabetText::Count(*n),
            AlphabetRead::Letters(l) => AlphabetText::Letters(l@),
        }
    }
}

/// A blank, a tab or a line end.
pub open spec fn is_space(c: u8) -> bool {
    c == 32 || c == 9 || c == 10 || c == 13
}

/// A decimal digit.
pub open spec fn is_digit(c: u8) -> bool {
    48 <= c <= 57
}

/// The first place at or after `i` that holds no space.
pub open spec fn skip_spaces(s: Seq<u8>, i: int) -> int
    decreases s.len() - i,
{
    if 0 <= i < s.len() && is_space(s[i]) {
        skip_spaces(s, i + 1)
    } else {
        i
    }
}

/// The value of `acc` followed by the digits at `i`, and the place behind them.
pub open spec fn digits_from(s: Seq<u8>, i: int, acc: int) -> (int, int)
    decreases s.len() - i,
{
    if 0 <= i < s.len() && is_digit(s[i]) {
        digits_from(s, i + 1, acc * 10 + (s[i] - 48))
    } else {
        (acc, i)
    }
}

/// The number that starts at `i`, and the place behind it.
pub open spec fn number_at(s: Seq<u8>, i: int) -> Option<(usize, int)> {
    if 0 <= i < s.len() && is_digit(s[i]) {
        let (v, j) = digits_from(s, i, 0);
        if v <= usize::MAX {
            Some((v as usize, j))
        } else {
            None
        }
    } else {
        None
    }
}

/// What reads one item of a list.
pub type ItemReader<T> = spec_fn(Seq<u8>, int) -> Option<(T, int)>;

/// The items of a list from the item at `j` on, put behind `acc`, and the
/// place behind the closing bracket.
pub open spec fn seq_rest<T>(s: Seq<u8>, j: int, acc: Seq<T>, item: ItemReader<T>) -> Option<
    (Seq<T>, int),
>
    decreases s.len() - j,
{
    match item(s, j) {
        None => None,
        Some((v, k)) => {
            let k2 = skip_spaces(s, k);
            if k <= j || k2 < k || k2 >= s.len() {
                None
            } else if s[k2] == 93 {
                Some((acc.push(v), k2 + 1))
            } else if s[k2] == 44 {
                let j2 = skip_spaces(s, k2 + 1);
                if j2 <= j || j2 > s.len() {
                    None
                } else {
                    seq_rest(s, j2, acc.push(v), item)
                }
            } else {
                None
            }
        },
    }
}

/// The list in square brackets that starts at `i`, and the place behind it.
pub open spec fn seq_at<T>(s: Seq<u8>, i: int, item: ItemReader<T>) -> Option<(Seq<T>, int)> {
    if 0 <= i < s.len() && s[i] == 91 {
        let j = skip_spaces(s, i + 1);
        if j < s.len() && s[j] == 93 {
            Some((Seq::empty(), j + 1))
        } else {
            seq_rest(s, j, Seq::empty(), item)
        }
    } else {
        None
    }
}

/// The list of numbers at `i`.
pub open spec fn list_at(s: Seq<u8>, i: int) -> Option<(Seq<usize>, int)> {
    seq_at(s, i, |s: Seq<u8>, i: int| number_at(s, i))
}

/// The list of lists of numbers at `i`.
pub open spec fn row_at(s: Seq<u8>, i: int) -> Option<(Seq<Seq<usize>>, int)> {
    seq_at(s, i, |s: Seq<u8>, i: int| list_at(s, i))
}

/// The list of rows at `i`.
pub open spec fn rows_at(s: Seq<u8>, i: int) -> Option<(Seq<Seq<Seq<usize>>>, int)> {
    seq_at(s, i, |s: Seq<u8>, i: int| row_at(s, i))
}

/// The text holds the bytes `word` at `i`.
pub open spec fn has_word(s: Seq<u8>, i: int, word: Seq<u8>) -> bool {
    0 <= i && i + word.len() <= s.len() && s.subrange(i, i + word.len()) == word
}

/// The kind named at `i`, and the place behind the name.
pub open spec fn kind_at(s: Seq<u8>, i: int) -> Option<(AutomatonType, int)> {
    if has_word(s, i, seq![100u8, 101u8, 116u8]) {
        Some((AutomatonType::Det, i + 3))
    } else if has_word(s, i, seq![110u8, 111u8, 110u8, 100u8, 101u8, 116u8]) {
        Some((AutomatonType::NonDet, i + 6))
    } else if has_word(s, i, seq![101u8, 112u8, 115u8, 105u8, 108u8, 111u8, 110u8]) {
        Some((AutomatonType::NonDet, i + 7))
    } else {
        None
    }
}

/// The first place at or after `i` that holds a double quote, or the end.
pub open spec fn quote_from(s: Seq<u8>, i: int) -> int
    decreases s.len() - i,
{
    if 0 <= i < s.len() && s[i] != 34 {
        quote_from(s, i + 1)
    } else {
        i
    }
}

/// The alphabet at `i`, and the place behind it.
pub open spec fn alphabet_at(s: Seq<u8>, i: int) -> Option<(AlphabetText, int)> {
    if 0 <= i < s.len() && s[i] == 34 {
        let e = quote_from(s, i + 1);
        if i < e < s.len() {
            Some((AlphabetText::Letters(s.subrange(i + 1, e)), e + 1))
        } else {
            None
        }
    } else {
        match number_at(s, i) {
            Some((n, j)) => Some((AlphabetText::Count(n), j)),
            None => None,
        }
    }
}

/// The place of the next field behind a comma that follows `i`.
pub open spec fn comma_from(s: Seq<u8>, i: int) -> Option<int> {
    let j = skip_spaces(s, i);
    if 0 <= j < s.len() && s[j] == 44 {
        Some(skip_spaces(s, j + 1))
    } else {
        None
    }
}

/// The fields of a record as the text gives them.
pub struct RecordText {
    pub kind: AutomatonType,
    pub size: usize,
    pub alphabet: AlphabetText,
    pub rows: Seq<Seq<Seq<usize>>>,
    pub start: Seq<usize>,
    pub end: Seq<usize>,
}

/// The record that the whole text holds.
pub open spec fn record_of(s: Seq<u8>) -> Option<RecordText> {
    let i0 = skip_spaces(s, 0);
    if !(0 <= i0 < s.len() && s[i0] == 123) {
        None
    } else {
        match kind_at(s, skip_spaces(s, i0 + 1)) {
            None => None,
            Some((kind, i1)) => match comma_from(s, i1) {
                None => None,
                Some(i2) => match number_at(s, i2) {
                    None => None,
                    Some((size, i3)) => match comma_from(s, i3) {
                        None => None,
                        Some(i4) => match alphabet_at(s, i4) {
                            None => None,
                            Some((alphabet, i5)) => match comma_from(s, i5) {
                                None => None,
                                Some(i6) => match rows_at(s, i6) {
                                    None => None,
                                    Some((rows, i7)) => match comma_from(s, i7) {
                                        None => None,
                                        Some(i8) => match list_at(s, i8) {
                                            None => None,
                                            Some((start, i9)) => match comma_from(s, i9) {
                                                None => None,
                                                Some(i10) => match list_at(s, i10) {
                                                    None => None,
                                                    Some((end, i11)) => {
                                                        let i12 = skip_spaces(s, i11);
                                                        if 0 <= i12 < s.len() && s[i12] == 125
                                                            && skip_spaces(s, i12 + 1) == s.len() {
                                                            Some(
                                                                RecordText {
                                                                    kind,
                                                                    size,
                                                                    alphabet,
                                                                    rows,
                                                                    start,
                                                                    end,
                                                                },
                                                            )
                                                        } else {
                                                            None
                                                        }
                                                    },
                                                },
                                            },
                                        },
                                    },
                                },
                            },
                        },
                    },
                },
            },
        }
    }
}

/// The first place at or after `i` where the letters hold `@`, or their length.
pub open spec fn eps_place(letters: Seq<u8>, i: int) -> int
    decreases letters.len() - i,
{
    if 0 <= i < letters.len() && letters[i] != 64 {
        eps_place(letters, i + 1)
    } else {
        i
    }
}

/// The number of symbols of the alphabet.
pub open spec fn symbol_count(a: AlphabetText) -> int {
    match a {
        AlphabetText::Count(n) => n as int,
        AlphabetText::Letters(l) => if eps_place(l, 0) < l.len() {
            l.len() - 1
        } else {
            l.len() as int
        },
    }
}

/// The symbol of row `r`: rows count from one, but the row of `@` is the
/// empty word and the rows behind it count one less.
pub open spec fn symbol_of_row(a: AlphabetText, r: int) -> int {
    match a {
        AlphabetText::Count(_) => r + 1,
        AlphabetText::Letters(l) => {
            let e = eps_place(l, 0);
            if r == e {
                0
            } else if r < e {
                r + 1
            } else {
                r
            }
        },
    }
}

/// The transitions of one list of destinations.
pub open spec fn cell_entries(q: int, sym: int, dests: Seq<usize>) -> Seq<(usize, usize, usize)> {
    Seq::new(dests.len(), |k: int| (q as usize, sym as usize, dests[k]))
}

/// The transitions of the first `upto` lists of a row.
pub open spec fn row_entries(row: Seq<Seq<usize>>, sym: int, upto: int) -> Seq<(usize, usize, usize)>
    decreases upto,
{
    if upto <= 0 {
        Seq::empty()
    } else {
        row_entries(row, sym, upto - 1) + cell_entries(upto - 1, sym, row[upto - 1])
    }
}

/// The transitions of the first `upto` rows.
pub open spec fn table_entries(rows: Seq<Seq<Seq<usize>>>, a: AlphabetText, upto: int) -> Seq<
    (usize, usize, usize),
>
    decreases upto,
{
    if upto <= 0 {
        Seq::empty()
    } else {
        table_entries(rows, a, upto - 1) + row_entries(
            rows[upto - 1],
            symbol_of_row(a, upto - 1),
            rows[upto - 1].len() as int,
        )
    }
}

/// The automaton that a record describes.
pub open spec fn automaton_of(t: RecordText) -> AutomatonModel {
    AutomatonModel {
        kind: t.kind,
        size: t.size as nat,
        alphabet: symbol_count(t.alphabet) as nat,
        table: table_entries(t.rows, t.alphabet, t.rows.len() as int),
        start: t.start,
        end: t.end,
    }
}

/// The automaton that the text describes, if it describes one.
pub open spec fn parsed(s: Seq<u8>) -> Option<AutomatonModel> {
    match record_of(s) {
        Some(t) => Some(automaton_of(t)),
        None => None,
    }
}

/// Skipping spaces moves forward and stays in the text.
proof fn lemma_skip_spaces(s: Seq<u8>, i: int)
    requires
        0 <= i <= s.len(),
    ensures
        i <= skip_spaces(s, i) <= s.len(),
    decreases s.len() - i,
{
    if i < s.len() && is_space(s[i]) {
        lemma_skip_spaces(s, i + 1);
    }
}

/// Reading digits does not lower the value, moves forward and stays in the text.
proof fn lemma_digits_from(s: Seq<u8>, i: int, acc: int)
    requires
        0 <= i <= s.len(),
        0 <= acc,
    ensures
        digits_from(s, i, acc).0 >= acc,
        i <= digits_from(s, i, acc).1 <= s.len(),
        i < s.len() && is_digit(s[i]) ==> digits_from(s, i, acc).1 > i,
    decreases s.len() - i,
{
    if i < s.len() && is_digit(s[i]) {
        lemma_digits_from(s, i + 1, acc * 10 + (s[i] - 48));
    }
}

/// The first place at or after `i` that holds no space.
fn skip(s: &Vec<u8>, i: usize) -> (r: usize)
    requires
        i <= s@.len(),
    ensures
        r == skip_spaces(s@, i as int),
        i <= r <= s@.len(),
{
    let mut j = i;
    while j < s.len() && (s[j] == 32 || s[j] == 9 || s[j] == 10 || s[j] == 13)
        invariant
            i <= j <= s@.len(),
            skip_spaces(s@, j as int) == skip_spaces(s@, i as int),
        decreases s@.len() - j,
    {
        j += 1;
    }
    j
}

/// The number that starts at `i`, and the place behind it.
fn read_number(s: &Vec<u8>, i: usize) -> (r: Option<(usize, usize)>)
    requires
        i <= s@.len(),
    ensures
        match r {
            Some((v, j)) => number_at(s@, i as int) == Some((v, j as int)) && i < j <= s@.len(),
            None => number_at(s@, i as int) is None,
        },
{
    if !(i < s.len() && 48 <= s[i] && s[i] <= 57) {
        return None;
    }
    let mut acc: usize = 0;
    let mut j = i;
    proof {
        lemma_digits_from(s@, i as int, 0);
    }
    while j < s.len() && 48 <= s[j] && s[j] <= 57
        invariant
            i <= j <= s@.len(),
            digits_from(s@, j as int, acc as int) == digits_from(s@, i as int, 0),
        decreases s@.len() - j,
    {
        let d: usize = (s[j] - 48) as usize;
        if acc > (usize::MAX - d) / 10 {
            proof {
                lemma_digits_from(s@, j + 1, acc * 10 + d);
            }
            return None;
        }
        acc = acc * 10 + d;
        j += 1;
    }
    Some((acc, j))
}

/// The list of numbers at `i`, and the place behind it.
fn read_list(s: &Vec<u8>, i: usize) -> (r: Option<(Vec<usize>, usize)>)
    requires
        i <= s@.len(),
    ensures
        match r {
            Some((v, j)) => list_at(s@, i as int) == Some((v@, j as int)) && i < j <= s@.len(),
            None => list_at(s@, i as int) is None,
        },
{
    let ghost item: ItemReader<usize> = |s: Seq<u8>, i: int| number_at(s, i);
    if !(i < s.len() && s[i] == 91) {
        return None;
    }
    let mut j = skip(s, i + 1);
    let mut acc: Vec<usize> = Vec::new();
    if j < s.len() && s[j] == 93 {
        return Some((acc, j + 1));
    }
    loop
        invariant
            i < j <= s@.len(),
            item == (|s: Seq<u8>, i: int| number_at(s, i)),
            seq_rest(s@, j as int, acc@, item) == list_at(s@, i as int),
        decreases s@.len() - j,
    {
        match read_number(s, j) {
            None => {
                return None;
            },
            Some((v, k)) => {
                let k2 = skip(s, k);
                if k2 >= s.len() {
                    return None;
                }
                if s[k2] == 93 {
                    acc.push(v);
                    return Some((acc, k2 + 1));
                }
                if s[k2] != 44 {
                    return None;
                }
                acc.push(v);
                j = skip(s, k2 + 1);
            },
        }
    }
}

/// The list of lists of numbers at `i`, and the place behind it.
fn read_row(s: &Vec<u8>, i: usize) -> (r: Option<(Vec<Vec<usize>>, usize)>)
    requires
        i <= s@.len(),
    ensures
        match r {
            Some((v, j)) => row_at(s@, i as int) == Some((lists(v@), j as int)) && i < j <= s@.len(),
            None => row_at(s@, i as int) is None,
        },
{
    let ghost item: ItemReader<Seq<usize>> = |s: Seq<u8>, i: int| list_at(s, i);
    if !(i < s.len() && s[i] == 91) {
        return None;
    }
    let mut j = skip(s, i + 1);
    let mut acc: Vec<Vec<usize>> = Vec::new();
    if j < s.len() && s[j] == 93 {
        assert(lists(acc@) =~= Seq::<Seq<usize>>::empty());
        return Some((acc, j + 1));
    }
    assert(lists(acc@) =~= Seq::<Seq<usize>>::empty());
    loop
        invariant
            i < j <= s@.len(),
            item == (|s: Seq<u8>, i: int| list_at(s, i)),
            seq_rest(s@, j as int, lists(acc@), item) == row_at(s@, i as int),
        decreases s@.len() - j,
    {
        match read_list(s, j) {
            None => {
                return None;
            },
            Some((v, k)) => {
                let k2 = skip(s, k);
                if k2 >= s.len() {
                    return None;
                }
                let ghost before = lists(acc@);
                let ghost x = v@;
                if s[k2] == 93 {
                    acc.push(v);
                    assert(lists(acc@) =~= before.push(x));
                    return Some((acc, k2 + 1));
                }
                if s[k2] != 44 {
                    return None;
                }
                acc.push(v);
                assert(lists(acc@) =~= before.push(x));
                j = skip(s, k2 + 1);
            },
        }
    }
}

/// The lists of the lists of a sequence of vectors.
pub open spec fn rows_view(v: Seq<Vec<Vec<usize>>>) -> Seq<Seq<Seq<usize>>> {
    Seq::new(v.len(), |i: int| lists(v[i]@))
}

/// The list of rows at `i`, and the place behind it.
fn read_rows(s: &Vec<u8>, i: usize) -> (r: Option<(Vec<Vec<Vec<usize>>>, usize)>)
    requires
        i <= s@.len(),
    ensures
        match r {
            Some((v, j)) => rows_at(s@, i as int) == Some((rows_view(v@), j as int)) && i < j
                <= s@.len(),
            None => rows_at(s@, i as int) is None,
        },
{
    let ghost item: ItemReader<Seq<Seq<usize>>> = |s: Seq<u8>, i: int| row_at(s, i);
    if !(i < s.len() && s[i] == 91) {
        return None;
    }
    let mut j = skip(s, i + 1);
    let mut acc: Vec<Vec<Vec<usize>>> = Vec::new();
    if j < s.len() && s[j] == 93 {
        assert(rows_view(acc@) =~= Seq::<Seq<Seq<usize>>>::empty());
        return Some((acc, j + 1));
    }
    assert(rows_view(acc@) =~= Seq::<Seq<Seq<usize>>>::empty());
    loop
        invariant
            i < j <= s@.len(),
            item == (|s: Seq<u8>, i: int| row_at(s, i)),
            seq_rest(s@, j as int, rows_view(acc@), item) == rows_at(s@, i as int),
        decreases s@.len() - j,
    {
        match read_row(s, j) {
            None => {
                return None;
            },
            Some((v, k)) => {
                let k2 = skip(s, k);
                if k2 >= s.len() {
                    return None;
                }
                let ghost before = rows_view(acc@);
                let ghost x = lists(v@);
                if s[k2] == 93 {
                    acc.push(v);
                    assert(rows_view(acc@) =~= before.push(x));
                    return Some((acc, k2 + 1));
                }
                if s[k2] != 44 {
                    return None;
                }
                acc.push(v);
                assert(rows_view(acc@) =~= before.push(x));
                j = skip(s, k2 + 1);
            },
        }
    }
}

/// Whether the text holds the bytes `word` at `i`.
fn word_at(s: &Vec<u8>, i: usize, word: &Vec<u8>) -> (r: bool)
    requires
        i <= s@.len(),
    ensures
        r == has_word(s@, i as int, word@),
{
    let total = s.len();
    if word.len() > total - i {
        return false;
    }
    let mut k: usize = 0;
    while k < word.len()
        invariant
            total == s@.len(),
            i + word@.len() <= s@.len(),
            k <= word@.len(),
            forall|j: int| 0 <= j < k ==> s@[i + j] == word@[j],
        decreases word@.len() - k,
    {
        if s[i + k] != word[k] {
            assert(s@.subrange(i as int, i + word@.len())[k as int] != word@[k as int]);
            return false;
        }
        k += 1;
    }
    assert(s@.subrange(i as int, i + word@.len()) =~= word@);
    true
}

/// The kind named at `i`, and the place behind the name.
fn read_kind(s: &Vec<u8>, i: usize) -> (r: Option<(AutomatonType, usize)>)
    requires
        i <= s@.len(),
    ensures
        match r {
            Some((k, j)) => kind_at(s@, i as int) == Some((k, j as int)) && j <= s@.len(),
            None => kind_at(s@, i as int) is None,
        },
{
    let total = s.len();
    let mut det: Vec<u8> = Vec::new();
    det.push(100);
    det.push(101);
    det.push(116);
    assert(det@ =~= seq![100u8, 101u8, 116u8]);
    if word_at(s, i, &det) {
        return Some((AutomatonType::Det, i + 3));
    }
    let mut nondet: Vec<u8> = Vec::new();
    nondet.push(110);
    nondet.push(111);
    nondet.push(110);
    nondet.push(100);
    nondet.push(101);
    nondet.push(116);
    assert(nondet@ =~= seq![110u8, 111u8, 110u8, 100u8, 101u8, 116u8]);
    if word_at(s, i, &nondet) {
        return Some((AutomatonType::NonDet, i + 6));
    }
    let mut epsilon: Vec<u8> = Vec::new();
    epsilon.push(101);
    epsilon.push(112);
    epsilon.push(115);
    epsilon.push(105);
    epsilon.push(108);
    epsilon.push(111);
    epsilon.push(110);
    assert(epsilon@ =~= seq![101u8, 112u8, 115u8, 105u8, 108u8, 111u8, 110u8]);
    if word_at(s, i, &epsilon) {
        return Some((AutomatonType::NonDet, i + 7));
    }
    None
}

/// The alphabet at `i`, and the place behind it.
fn read_alphabet(s: &Vec<u8>, i: usize) -> (r: Option<(AlphabetRead, usize)>)
    requires
        i <= s@.len(),
    ensures
        match r {
            Some((a, j)) => alphabet_at(s@, i as int) == Some((a@, j as int)) && j <= s@.len(),
            None => alphabet_at(s@, i as int) is None,
        },
{
    if i < s.len() && s[i] == 34 {
        let mut letters: Vec<u8> = Vec::new();
        let mut e = i + 1;
        while e < s.len() && s[e] != 34
            invariant
                i + 1 <= e <= s@.len(),
                quote_from(s@, e as int) == quote_from(s@, i + 1),
                letters@ == s@.subrange(i + 1, e as int),
            decreases s@.len() - e,
        {
            letters.push(s[e]);
            assert(s@.subrange(i + 1, e + 1) =~= s@.subrange(i + 1, e as int).push(s@[e as int]));
            e += 1;
        }
        if e < s.len() {
            Some((AlphabetRead::Letters(letters), e + 1))
        } else {
            None
        }
    } else {
        match read_number(s, i) {
            Some((n, j)) => Some((AlphabetRead::Count(n), j)),
            None => None,
        }
    }
}

/// The place of the next field behind a comma that follows `i`.
fn read_comma(s: &Vec<u8>, i: usize) -> (r: Option<usize>)
    requires
        i <= s@.len(),
    ensures
        match r {
            Some(j) => comma_from(s@, i as int) == Some(j as int) && j <= s@.len(),
            None => comma_from(s@, i as int) is None,
        },
{
    let j = skip(s, i);
    if j < s.len() && s[j] == 44 {
        Some(skip(s, j + 1))
    } else {
        None
    }
}

/// The first place where the letters hold `@`, or their length.
fn find_eps(letters: &Vec<u8>) -> (r: usize)
    ensures
        r == eps_place(letters@, 0),
        r <= letters@.len(),
{
    let mut i: usize = 0;
    while i < letters.len() && letters[i] != 64
        invariant
            i <= letters@.len(),
            eps_place(letters@, i as int) == eps_place(letters@, 0),
        decreases letters@.len() - i,
    {
        i += 1;
    }
    i
}

/// The transitions that the rows describe.
fn build_table(rows: &Vec<Vec<Vec<usize>>>, alphabet: &AlphabetRead) -> (r: Vec<(usize, usize, usize)>)
    ensures
        r@ == table_entries(rows_view(rows@), alphabet@, rows@.len() as int),
{
    let ghost rv = rows_view(rows@);
    let eps: usize = match alphabet {
        AlphabetRead::Count(_) => 0,
        AlphabetRead::Letters(l) => find_eps(l),
    };
    let counted = match alphabet {
        AlphabetRead::Count(_) => true,
        AlphabetRead::Letters(_) => false,
    };
    let mut table: Vec<(usize, usize, usize)> = Vec::new();
    let mut r: usize = 0;
    while r < rows.len()
        invariant
            rv == rows_view(rows@),
            r <= rows@.len(),
            counted <==> alphabet@ is Count,
            !counted ==> eps == eps_place(alphabet@->Letters_0, 0),
            table@ == table_entries(rv, alphabet@, r as int),
        decreases rows@.len() - r,
    {
        let sym: usize = if counted {
            r + 1
        } else if r == eps {
            0
        } else if r < eps {
            r + 1
        } else {
            r
        };
        assert(sym == symbol_of_row(alphabet@, r as int));
        let row = &rows[r];
        let ghost before = table@;
        let ghost rowv = lists(row@);
        assert(rv[r as int] == rowv);
        let mut q: usize = 0;
        while q < row.len()
            invariant
                rowv == lists(row@),
                q <= row@.len(),
                table@ == before + row_entries(rowv, sym as int, q as int),
            decreases row@.len() - q,
        {
            let cell = &row[q];
            let ghost before_cell = table@;
            assert(rowv[q as int] == cell@);
            let mut k: usize = 0;
            while k < cell.len()
                invariant
                    k <= cell@.len(),
                    table@ == before_cell + cell_entries(q as int, sym as int, cell@).take(k as int),
                decreases cell@.len() - k,
            {
                table.push((q, sym, cell[k]));
                proof {
                    let ce = cell_entries(q as int, sym as int, cell@);
                    assert(ce.take(k + 1) =~= ce.take(k as int).push(ce[k as int]));
                    assert(before_cell + ce.take(k + 1) =~= (before_cell + ce.take(k as int)).push(
                        ce[k as int],
                    ));
                }
                k += 1;
            }
            proof {
                let ce = cell_entries(q as int, sym as int, cell@);
                assert(ce.take(cell@.len() as int) =~= ce);
                assert(before + row_entries(rowv, sym as int, q + 1) =~= before + row_entries(
                    rowv,
                    sym as int,
                    q as int,
                ) + ce);
            }
            q += 1;
        }
        proof {
            assert(table_entries(rv, alphabet@, r + 1) =~= before + row_entries(
                rowv,
                sym as int,
                rowv.len() as int,
            ));
        }
        r += 1;
    }
    table
}

/// The number of symbols of the alphabet.
fn count_symbols(alphabet: &AlphabetRead) -> (r: usize)
    ensures
        r == symbol_count(alphabet@),
{
    match alphabet {
        AlphabetRead::Count(n) => *n,
        AlphabetRead::Letters(l) => {
            let e = find_eps(l);
            if e < l.len() {
                l.len() - 1
            } else {
                l.len()
            }
        },
    }
}

impl Automaton {
    /// Reads an automaton from text in the format that the head of this
    /// file describes.
    pub fn parse(text: &Vec<u8>) -> (r: Result<Automaton, ParseError>)
        ensures
            match r {
                Ok(a) => parsed(text@) == Some(a@),
                Err(_) => parsed(text@) is None,
            },
    {
        let s = text;
        let i0 = skip(s, 0);
        if !(i0 < s.len() && s[i0] == 123) {
            return Err(ParseError::Malformed);
        }
        let (kind, i1) = match read_kind(s, skip(s, i0 + 1)) {
            Some(x) => x,
            None => {
                return Err(ParseError::Malformed);
            },
        };
        let i2 = match read_comma(s, i1) {
            Some(x) => x,
            None => {
                return Err(ParseError::Malformed);
            },
        };
        let (size, i3) = match read_number(s, i2) {
            Some(x) => x,
            None => {
                return Err(ParseError::Malformed);
            },
        };
        let i4 = match read_comma(s, i3) {
            Some(x) => x,
            None => {
                return Err(ParseError::Malformed);
            },
        };
        let (alphabet, i5) = match read_alphabet(s, i4) {
            Some(x) => x,
            None => {
                return Err(ParseError::Malformed);
            },
        };
        let i6 = match read_comma(s, i5) {
            Some(x) => x,
            None => {
                return Err(ParseError::Malformed);
            },
        };
        let (rows, i7) = match read_rows(s, i6) {
            Some(x) => x,
            None => {
                return Err(ParseError::Malformed);
            },
        };
        let i8 = match read_comma(s, i7) {
            Some(x) => x,
            None => {
                return Err(ParseError::Malformed);
            },
        };
        let (start, i9) = match read_list(s, i8) {
            Some(x) => x,
            None => {
                return Err(ParseError::Malformed);
            },
        };
        let i10 = match read_comma(s, i9) {
            Some(x) => x,
            None => {
                return Err(ParseError::Malformed);
            },
        };
        let (end, i11) = match read_list(s, i10) {
            Some(x) => x,
            None => {
                return Err(ParseError::Malformed);
            },
        };
        let i12 = skip(s, i11);
        if !(i12 < s.len() && s[i12] == 125) {
            return Err(ParseError::Malformed);
        }
        if skip(s, i12 + 1) != s.len() {
            return Err(ParseError::Malformed);
        }
        let table = build_table(&rows, &alphabet);
        let count = count_symbols(&alphabet);
        Ok(Automaton::new(kind, size, count, table, start, end))
    }
}

} // verus!
