//! The table that numbers the configurations found while a transition graph
//! is generated, and the bound on how many there can be.

use crate::counting::lemma_distinct_ints_bound;
use std::collections::HashMap;
use vstd::arithmetic::div_mod::lemma_fundamental_div_mod_converse;
use vstd::prelude::*;

verus! {

broadcast use vstd::std_specs::hash::group_hash_axioms;

/// `base` to the power `exp`.
pub open spec fn power(base: nat, exp: nat) -> nat
    decreases exp,
{
    if exp == 0 {
        1
    } else {
        base * power(base, (exp - 1) as nat)
    }
}

/// The number whose digits in base `base` are the items of `s`, each raised by one.
pub open spec fn digits_code(s: Seq<usize>, base: nat) -> nat
    decreases s.len(),
{
    if s.len() == 0 {
        0
    } else {
        (s[0] + 1) as nat + base * digits_code(s.drop_first(), base)
    }
}

/// Every item of `s` is at most `r`.
pub open spec fn items_at_most(s: Seq<usize>, r: nat) -> bool {
    forall|i: int| 0 <= i < s.len() ==> #[trigger] s[i] <= r
}

/// A power of a positive number is positive.
pub proof fn lemma_power_positive(base: nat, exp: nat)
    requires
        base >= 1,
    ensures
        power(base, exp) >= 1,
    decreases exp,
{
    if exp > 0 {
        lemma_power_positive(base, (exp - 1) as nat);
        assert(base * power(base, (exp - 1) as nat) >= 1) by (nonlinear_arith)
            requires
                base >= 1,
                power(base, (exp - 1) as nat) >= 1,
        ;
    }
}

/// A power of a positive number does not fall when the exponent grows.
pub proof fn lemma_power_monotone(base: nat, e1: nat, e2: nat)
    requires
        base >= 1,
        e1 <= e2,
    ensures
        power(base, e1) <= power(base, e2),
    decreases e2,
{
    if e1 < e2 {
        lemma_power_monotone(base, e1, (e2 - 1) as nat);
        lemma_power_positive(base, (e2 - 1) as nat);
        assert(power(base, (e2 - 1) as nat) <= base * power(base, (e2 - 1) as nat)) by (nonlinear_arith)
            requires
                base >= 1,
                power(base, (e2 - 1) as nat) >= 1,
        ;
    }
}

/// The code of a list is below the base to the power of its length.
pub proof fn lemma_code_below(s: Seq<usize>, r: nat)
    requires
        items_at_most(s, r),
    ensures
        digits_code(s, r + 2) < power(r + 2, s.len()),
    decreases s.len(),
{
    let base = r + 2;
    if s.len() > 0 {
        let tail = s.drop_first();
        assert(items_at_most(tail, r)) by {
            assert forall|i: int| 0 <= i < tail.len() implies #[trigger] tail[i] <= r by {
                assert(tail[i] == s[i + 1]);
            }
        }
        lemma_code_below(tail, r);
        assert(s[0] <= r);
        assert((s[0] + 1) + base * digits_code(tail, base) < base * power(base, tail.len())) by (nonlinear_arith)
            requires
                s[0] + 1 < base,
                digits_code(tail, base) < power(base, tail.len()),
        ;
    }
}

/// Lists with the same code are the same list.
pub proof fn lemma_code_one_to_one(s: Seq<usize>, t: Seq<usize>, r: nat)
    requires
        items_at_most(s, r),
        items_at_most(t, r),
        digits_code(s, r + 2) == digits_code(t, r + 2),
    ensures
        s == t,
    decreases s.len(),
{
    let base = (r + 2) as int;
    if s.len() == 0 {
        if t.len() > 0 {
            assert(digits_code(t, r + 2) >= 1) by (nonlinear_arith)
                requires
                    digits_code(t, r + 2) == (t[0] + 1) as nat + (r + 2) * digits_code(
                        t.drop_first(),
                        r + 2,
                    ),
            ;
        }
        assert(s =~= t);
    } else {
        if t.len() == 0 {
            assert(digits_code(s, r + 2) >= 1) by (nonlinear_arith)
                requires
                    digits_code(s, r + 2) == (s[0] + 1) as nat + (r + 2) * digits_code(
                        s.drop_first(),
                        r + 2,
                    ),
            ;
        } else {
            let st = s.drop_first();
            let tt = t.drop_first();
            assert(s[0] <= r && t[0] <= r);
            let cs = digits_code(st, r + 2) as int;
            let ct = digits_code(tt, r + 2) as int;
            let x = digits_code(s, r + 2) as int;
            assert(x == cs * base + (s[0] + 1)) by (nonlinear_arith)
                requires
                    x == (s[0] + 1) + base * cs,
            ;
            assert(x == ct * base + (t[0] + 1)) by (nonlinear_arith)
                requires
                    x == (t[0] + 1) + base * ct,
            ;
            lemma_fundamental_div_mod_converse(x, base, cs, s[0] + 1);
            lemma_fundamental_div_mod_converse(x, base, ct, t[0] + 1);
            assert(items_at_most(st, r)) by {
                assert forall|i: int| 0 <= i < st.len() implies #[trigger] st[i] <= r by {
                    assert(st[i] == s[i + 1]);
                }
            }
            assert(items_at_most(tt, r)) by {
                assert forall|i: int| 0 <= i < tt.len() implies #[trigger] tt[i] <= r by {
                    assert(tt[i] == t[i + 1]);
                }
            }
            lemma_code_one_to_one(st, tt, r);
            assert(s =~= seq![s[0]] + st);
            assert(t =~= seq![t[0]] + tt);
        }
    }
}

/// No two of `keys` are the same, none is longer than `l`, and no item is above `r`.
pub open spec fn keys_bounded(keys: Seq<Seq<usize>>, r: nat, l: nat) -> bool {
    &&& forall|i: int, j: int| 0 <= i < j < keys.len() ==> keys[i] != keys[j]
    &&& forall|i: int| 0 <= i < keys.len() ==> (#[trigger] keys[i]).len() <= l && items_at_most(keys[i], r)
}

/// Different lists of at most `l` items, none above `r`, are at most
/// `(r + 2)^l` in number.
pub proof fn lemma_keys_bound(keys: Seq<Seq<usize>>, r: nat, l: nat)
    requires
        keys_bounded(keys, r, l),
    ensures
        keys.len() <= power(r + 2, l),
{
    let codes = Seq::new(keys.len(), |i: int| digits_code(keys[i], r + 2) as int);
    assert forall|i: int| 0 <= i < codes.len() implies 0 <= #[trigger] codes[i] < power(r + 2, l) by {
        lemma_code_below(keys[i], r);
        lemma_power_monotone(r + 2, keys[i].len(), l);
    }
    assert forall|i: int, j: int| 0 <= i < j < codes.len() implies codes[i] != codes[j] by {
        if codes[i] == codes[j] {
            lemma_code_one_to_one(keys[i], keys[j], r);
        }
    }
    lemma_distinct_ints_bound(codes, power(r + 2, l) as int);
}

/// The number under which a list is filed.
pub open spec fn mix(s: Seq<usize>) -> u64
    decreases s.len(),
{
    if s.len() == 0 {
        0
    } else {
        ((mix(s.drop_last()) as int * 31 + (s.last() as int) % 65521) % 4294967291) as u64
    }
}

/// The number under which a list is filed.
pub fn mix_of(v: &Vec<usize>) -> (h: u64)
    ensures
        h == mix(v@),
{
    let mut h: u64 = 0;
    let mut i: usize = 0;
    assert(v@.take(0) =~= Seq::<usize>::empty());
    while i < v.len()
        invariant
            i <= v@.len(),
            h == mix(v@.take(i as int)),
            h < 4294967291,
        decreases v@.len() - i,
    {
        let x: u64 = (v[i] % 65521) as u64;
        proof {
            let next = v@.take(i + 1);
            assert(next.drop_last() =~= v@.take(i as int));
            assert(next.last() == v@[i as int]);
        }
        h = (h * 31 + x) % 4294967291;
        i += 1;
    }
    assert(v@.take(v@.len() as int) =~= v@);
    h
}

/// Whether two lists are the same.
pub fn same_list(u: &Vec<usize>, v: &Vec<usize>) -> (r: bool)
    ensures
        r == (u@ == v@),
{
    if u.len() != v.len() {
        return false;
    }
    let mut i: usize = 0;
    while i < u.len()
        invariant
            u@.len() == v@.len(),
            i <= u@.len(),
            forall|j: int| 0 <= j < i ==> u@[j] == v@[j],
        decreases u@.len() - i,
    {
        if u[i] != v[i] {
            return false;
        }
        i += 1;
    }
    assert(u@ =~= v@);
    true
}

/// Lists, numbered `0, 1, 2, ...` in the order of filing.
pub struct ConfigTable {
    keys: Vec<Vec<usize>>,
    buckets: HashMap<u64, Vec<usize>>,
}

impl ConfigTable {
    /// The filed lists, by number.
    pub closed spec fn keys(&self) -> Seq<Seq<usize>> {
        Seq::new(self.keys@.len(), |i: int| self.keys@[i]@)
    }

    /// No list is filed twice, and each is found under its number.
    pub closed spec fn wf(&self) -> bool {
        &&& forall|i: int, j: int| 0 <= i < j < self.keys@.len() ==> self.keys@[i]@ != self.keys@[j]@
        &&& forall|i: int|
            0 <= i < self.keys@.len() ==> self.buckets@.contains_key(#[trigger] mix(self.keys@[i]@))
                && self.buckets@[mix(self.keys@[i]@)]@.contains(i as usize)
        &&& forall|h: u64, k: int|
            self.buckets@.contains_key(h) && 0 <= k < self.buckets@[h]@.len()
                ==> #[trigger] self.buckets@[h]@[k] < self.keys@.len()
    }

    /// No two filed lists are the same.
    pub proof fn lemma_keys_distinct(&self)
        requires
            self.wf(),
        ensures
            forall|i: int, j: int|
                0 <= i < j < self.keys().len() ==> self.keys()[i] != self.keys()[j],
    {
    }

    /// An empty table.
    pub fn new() -> (r: ConfigTable)
        ensures
            r.wf(),
            r.keys().len() == 0,
    {
        ConfigTable { keys: Vec::new(), buckets: HashMap::new() }
    }

    /// The number of filed lists.
    pub fn len(&self) -> (r: usize)
        ensures
            r == self.keys().len(),
    {
        self.keys.len()
    }

    /// The list filed under the number `i`.
    pub fn get(&self, i: usize) -> (r: &Vec<usize>)
        requires
            i < self.keys().len(),
        ensures
            r@ == self.keys()[i as int],
    {
        &self.keys[i]
    }

    /// The number under which `key` is filed, if it is.
    pub fn find(&self, key: &Vec<usize>) -> (r: Option<usize>)
        requires
            self.wf(),
        ensures
            match r {
                Some(i) => i < self.keys().len() && self.keys()[i as int] == key@,
                None => forall|i: int| 0 <= i < self.keys().len() ==> self.keys()[i] != key@,
            },
    {
        let h = mix_of(key);
        let total = self.keys.len();
        match self.buckets.get(&h) {
            None => {
                proof {
                    assert forall|i: int| 0 <= i < self.keys().len() implies self.keys()[i]
                        != key@ by {
                        if self.keys@[i]@ == key@ {
                            assert(self.buckets@.contains_key(mix(self.keys@[i]@)));
                        }
                    }
                }
                None
            },
            Some(bucket) => {
                let mut k: usize = 0;
                while k < bucket.len()
                    invariant
                        self.wf(),
                        total == self.keys@.len(),
                        self.buckets@.contains_key(h),
                        *bucket == self.buckets@[h],
                        h == mix(key@),
                        k <= bucket@.len(),
                        forall|j: int| 0 <= j < k ==> self.keys@[bucket@[j] as int]@ != key@,
                    decreases bucket@.len() - k,
                {
                    let id = bucket[k];
                    assert(self.buckets@[h]@[k as int] < self.keys@.len());
                    if same_list(&self.keys[id], key) {
                        return Some(id);
                    }
                    k += 1;
                }
                proof {
                    assert forall|i: int| 0 <= i < self.keys().len() implies self.keys()[i]
                        != key@ by {
                        if self.keys@[i]@ == key@ {
                            let hi = mix(self.keys@[i]@);
                            assert(hi == h);
                            assert(self.buckets@[hi]@.contains(i as usize));
                            let j = choose|j: int|
                                0 <= j < bucket@.len() && bucket@[j] == i as usize;
                            assert(self.keys@[bucket@[j] as int]@ != key@);
                        }
                    }
                }
                None
            },
        }
    }

    /// Files `key`, which is not yet in the table, under the next free number.
    pub fn insert(&mut self, key: Vec<usize>) -> (id: usize)
        requires
            old(self).wf(),
            forall|i: int| 0 <= i < old(self).keys().len() ==> old(self).keys()[i] != key@,
        ensures
            final(self).wf(),
            final(self).keys() == old(self).keys().push(key@),
            id == old(self).keys().len(),
    {
        let id = self.keys.len();
        let h = mix_of(&key);
        let ghost old_keys = self.keys@;
        let ghost old_buckets = self.buckets@;
        let mut bucket: Vec<usize> = match self.buckets.remove(&h) {
            Some(b) => b,
            None => Vec::new(),
        };
        let ghost old_bucket = bucket@;
        bucket.push(id);
        self.buckets.insert(h, bucket);
        self.keys.push(key);
        proof {
            assert(self.keys() =~= old(self).keys().push(key@));
            assert(bucket@[old_bucket.len() as int] == id);
            assert forall|i: int, j: int| 0 <= i < j < self.keys@.len() implies self.keys@[i]@
                != self.keys@[j]@ by {
                assert(old(self).keys()[i] == old_keys[i]@);
                if j < id {
                    assert(old_keys[i]@ != old_keys[j]@);
                }
            }
            assert forall|i: int| 0 <= i < self.keys@.len() implies self.buckets@.contains_key(
                #[trigger] mix(self.keys@[i]@),
            ) && self.buckets@[mix(self.keys@[i]@)]@.contains(i as usize) by {
                let hi = mix(self.keys@[i]@);
                if i < id {
                    assert(old_keys[i] == self.keys@[i]);
                    assert(old_buckets.contains_key(mix(old_keys[i]@)));
                    assert(old_buckets[hi]@.contains(i as usize));
                    if hi == h {
                        let j = choose|j: int| 0 <= j < old_bucket.len() && old_bucket[j] == i as usize;
                        assert(bucket@[j] == i as usize);
                    }
                }
            }
            assert forall|g: u64, k: int|
                self.buckets@.contains_key(g) && 0 <= k < self.buckets@[g]@.len() implies #[trigger] self.buckets@[g]@[k]
                < self.keys@.len() by {
                if g == h {
                    if k < old_bucket.len() {
                        assert(bucket@[k] == old_bucket[k]);
                        assert(old_buckets.contains_key(h));
                        assert(old_buckets[h]@[k] < old_keys.len());
                    }
                } else {
                    assert(old_buckets.contains_key(g));
                    assert(old_buckets[g]@[k] < old_keys.len());
                }
            }
        }
        id
    }
}

} // verus!
