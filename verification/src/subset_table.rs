//! The table that numbers the subsets found during determinization.
//!
//! Each compressed subset gets the next free number when it is first filed.
//! Subsets are filed under their hash, so a lookup compares only the few
//! subsets that share a hash.

use crate::ubig::{xx_hash64, CompressedUbig};
use std::collections::HashMap;
use vstd::prelude::*;

verus! {

broadcast use vstd::std_specs::hash::group_hash_axioms;

/// Compressed subsets, numbered `0, 1, 2, ...` in the order of filing.
pub struct SubsetTable {
    keys: Vec<CompressedUbig>,
    buckets: HashMap<u64, Vec<usize>>,
}

impl SubsetTable {
    /// The bytes of the filed subsets, by number.
    pub closed spec fn keys(&self) -> Seq<Seq<u8>> {
        Seq::new(self.keys@.len(), |i: int| self.keys@[i].cnum@)
    }

    /// No subset is filed twice, and each is found under its hash.
    pub closed spec fn wf(&self) -> bool {
        &&& forall|i: int, j: int|
            0 <= i < j < self.keys@.len() ==> self.keys@[i].cnum@ != self.keys@[j].cnum@
        &&& forall|i: int|
            0 <= i < self.keys@.len() ==> self.buckets@.contains_key(
                #[trigger] xx_hash64(self.keys@[i].cnum@),
            ) && self.buckets@[xx_hash64(self.keys@[i].cnum@)]@.contains(i as usize)
        &&& forall|h: u64, k: int|
            self.buckets@.contains_key(h) && 0 <= k < self.buckets@[h]@.len()
                ==> #[trigger] self.buckets@[h]@[k] < self.keys@.len()
    }

    /// No two filed subsets have the same bytes.
    pub proof fn lemma_keys_distinct(&self)
        requires
            self.wf(),
        ensures
            forall|i: int, j: int|
                0 <= i < j < self.keys().len() ==> self.keys()[i] != self.keys()[j],
    {
    }

    /// An empty table.
    pub fn new() -> (r: SubsetTable)
        ensures
            r.wf(),
            r.keys().len() == 0,
    {
        SubsetTable { keys: Vec::new(), buckets: HashMap::new() }
    }

    /// The number of filed subsets.
    pub fn len(&self) -> (r: usize)
        ensures
            r == self.keys().len(),
    {
        self.keys.len()
    }

    /// The number under which `key` is filed, if it is.
    pub fn find(&self, key: &CompressedUbig) -> (r: Option<usize>)
        requires
            self.wf(),
        ensures
            match r {
                Some(i) => i < self.keys().len() && self.keys()[i as int] == key.cnum@,
                None => forall|i: int| 0 <= i < self.keys().len() ==> self.keys()[i] != key.cnum@,
            },
    {
        let h = key.digest();
        let total = self.keys.len();
        match self.buckets.get(&h) {
            None => {
                proof {
                    assert forall|i: int| 0 <= i < self.keys().len() implies self.keys()[i]
                        != key.cnum@ by {
                        if self.keys@[i].cnum@ == key.cnum@ {
                            assert(self.buckets@.contains_key(xx_hash64(self.keys@[i].cnum@)));
                        }
                    }
                }
                None
            },
            Some(bucket) => {
                let mut k: usize = 0;
                while k < bucket.len()
                    invariant
                        self.wf(),
                        total == self.keys@.len(),
                        self.buckets@.contains_key(h),
                        *bucket == self.buckets@[h],
                        h == xx_hash64(key.cnum@),
                        k <= bucket@.len(),
                        forall|j: int|
                            0 <= j < k ==> self.keys@[bucket@[j] as int].cnum@ != key.cnum@,
                    decreases bucket@.len() - k,
                {
                    let id = bucket[k];
                    assert(self.buckets@[h]@[k as int] < self.keys@.len());
                    if self.keys[id].same_bytes(key) {
                        return Some(id);
                    }
                    k += 1;
                }
                proof {
                    assert forall|i: int| 0 <= i < self.keys().len() implies self.keys()[i]
                        != key.cnum@ by {
                        if self.keys@[i].cnum@ == key.cnum@ {
                            let hi = xx_hash64(self.keys@[i].cnum@);
                            assert(hi == h);
                            assert(self.buckets@[hi]@.contains(i as usize));
                            let j = choose|j: int|
                                0 <= j < bucket@.len() && bucket@[j] == i as usize;
                            assert(self.keys@[bucket@[j] as int].cnum@ != key.cnum@);
                        }
                    }
                }
                None
            },
        }
    }

    /// Files `key`, which is not yet in the table, under the next free number.
    pub fn insert(&mut self, key: CompressedUbig) -> (id: usize)
        requires
            old(self).wf(),
            forall|i: int| 0 <= i < old(self).keys().len() ==> old(self).keys()[i] != key.cnum@,
        ensures
            final(self).wf(),
            final(self).keys() == old(self).keys().push(key.cnum@),
            id == old(self).keys().len(),
    {
        let id = self.keys.len();
        let h = key.digest();
        let ghost old_keys = self.keys@;
        let ghost old_buckets = self.buckets@;
        let mut bucket: Vec<usize> = match self.buckets.remove(&h) {
            Some(b) => b,
            None => Vec::new(),
        };
        let ghost old_bucket = bucket@;
        bucket.push(id);
        self.buckets.insert(h, bucket);
        self.keys.push(key);
        proof {
            assert(self.keys() =~= old(self).keys().push(key.cnum@));
            assert(bucket@[old_bucket.len() as int] == id);
            assert forall|i: int, j: int| 0 <= i < j < self.keys@.len() implies self.keys@[i].cnum@
                != self.keys@[j].cnum@ by {
                assert(old(self).keys()[i] == old_keys[i].cnum@);
                if j < id {
                    assert(old_keys[i].cnum@ != old_keys[j].cnum@);
                }
            }
            assert forall|i: int| 0 <= i < self.keys@.len() implies self.buckets@.contains_key(
                #[trigger] xx_hash64(self.keys@[i].cnum@),
            ) && self.buckets@[xx_hash64(self.keys@[i].cnum@)]@.contains(i as usize) by {
                let hi = xx_hash64(self.keys@[i].cnum@);
                if i < id {
                    assert(old_keys[i] == self.keys@[i]);
                    assert(old_buckets.contains_key(xx_hash64(old_keys[i].cnum@)));
                    assert(old_buckets[hi]@.contains(i as usize));
                    if hi == h {
                        let j = choose|j: int| 0 <= j < old_bucket.len() && old_bucket[j] == i as usize;
                        assert(bucket@[j] == i as usize);
                    }
                }
            }
            assert forall|g: u64, k: int|
                self.buckets@.contains_key(g) && 0 <= k < self.buckets@[g]@.len() implies #[trigger] self.buckets@[g]@[k]
                < self.keys@.len() by {
                if g == h {
                    if k < old_bucket.len() {
                        assert(bucket@[k] == old_bucket[k]);
                        assert(old_buckets.contains_key(h));
                        assert(old_buckets[h]@[k] < old_keys.len());
                    }
                } else {
                    assert(old_buckets.contains_key(g));
                    assert(old_buckets[g]@[k] < old_keys.len());
                }
            }
        }
        id
    }
}

} // verus!
