//! A growable bit set over state indices, stored as bytes.
//!
//! Bit `i` of the set lives in byte `i / 8` at position `i % 8`. The storage
//! grows on demand; bytes that are absent count as zero, so two values that
//! differ only in trailing zero bytes stand for the same set.

use std::hash::Hasher;
use vstd::prelude::*;

verus! {

/// Whether bit `k` (`0 <= k < 8`) of the byte `b` is set.
pub open spec fn bit_of(b: u8, k: int) -> bool {
    (b >> (k as u8)) & 1u8 == 1u8
}

/// Whether index `i` is a member of the set stored in the bytes `s`.
pub open spec fn bytes_has(s: Seq<u8>, i: int) -> bool {
    0 <= i < s.len() * 8 && bit_of(s[i / 8], i % 8)
}

/// The set of indices stored in the bytes `s`.
pub open spec fn bytes_set(s: Seq<u8>) -> Set<int> {
    Set::new(|i: int| bytes_has(s, i))
}

/// `true` when `s` is strictly increasing.
pub open spec fn strictly_increasing(s: Seq<usize>) -> bool {
    forall|i: int, j: int| 0 <= i < j < s.len() ==> s[i] < s[j]
}

/// A set of state indices.
#[derive(Debug, Clone)]
pub struct Ubig {
    pub num: Vec<u8>,
}

impl View for Ubig {
    type V = Set<int>;

    open spec fn view(&self) -> Set<int> {
        bytes_set(self.num@)
    }
}

/// Setting bit `k` of a byte sets that bit and leaves the others.
pub proof fn lemma_bit_or(b: u8, k: u8, j: u8)
    by (bit_vector)
    requires
        k < 8,
        j < 8,
    ensures
        ((b | (1u8 << k)) >> j) & 1u8 == 1u8 <==> (j == k || (b >> j) & 1u8 == 1u8),
{
}

/// Clearing bit `k` of a byte clears that bit and leaves the others.
pub proof fn lemma_bit_clear(b: u8, k: u8, j: u8)
    by (bit_vector)
    requires
        k < 8,
        j < 8,
    ensures
        ((b & (0xFFu8 ^ (1u8 << k))) >> j) & 1u8 == 1u8 <==> (j != k && (b >> j) & 1u8 == 1u8),
{
}

/// Flipping bit `k` of a byte flips that bit and leaves the others.
pub proof fn lemma_bit_xor(b: u8, k: u8, j: u8)
    by (bit_vector)
    requires
        k < 8,
        j < 8,
    ensures
        ((b ^ (1u8 << k)) >> j) & 1u8 == 1u8 <==> ((j == k) != ((b >> j) & 1u8 == 1u8)),
{
}

/// The zero byte has no bit set.
pub proof fn lemma_bit_zero(j: u8)
    by (bit_vector)
    requires
        j < 8,
    ensures
        (0u8 >> j) & 1u8 != 1u8,
{
}

/// Two bytes with the same bits are equal.
pub proof fn lemma_byte_ext(a: u8, b: u8)
    by (bit_vector)
    requires
        ((a >> 0u8) & 1u8 == 1u8) == ((b >> 0u8) & 1u8 == 1u8),
        ((a >> 1u8) & 1u8 == 1u8) == ((b >> 1u8) & 1u8 == 1u8),
        ((a >> 2u8) & 1u8 == 1u8) == ((b >> 2u8) & 1u8 == 1u8),
        ((a >> 3u8) & 1u8 == 1u8) == ((b >> 3u8) & 1u8 == 1u8),
        ((a >> 4u8) & 1u8 == 1u8) == ((b >> 4u8) & 1u8 == 1u8),
        ((a >> 5u8) & 1u8 == 1u8) == ((b >> 5u8) & 1u8 == 1u8),
        ((a >> 6u8) & 1u8 == 1u8) == ((b >> 6u8) & 1u8 == 1u8),
        ((a >> 7u8) & 1u8 == 1u8) == ((b >> 7u8) & 1u8 == 1u8),
    ensures
        a == b,
{
}

/// Appending a zero byte adds no member.
pub proof fn lemma_push_zero(s: Seq<u8>)
    ensures
        bytes_set(s.push(0u8)) == bytes_set(s),
{
    let t = s.push(0u8);
    assert forall|i: int| bytes_has(t, i) == bytes_has(s, i) by {
        if 0 <= i < t.len() * 8 {
            if i / 8 == s.len() {
                lemma_bit_zero((i % 8) as u8);
            }
        }
    }
    assert(bytes_set(t) =~= bytes_set(s));
}

impl Ubig {
    /// The storage is small enough for every stored index to fit in `usize`.
    pub open spec fn wf(&self) -> bool {
        self.num@.len() * 8 <= usize::MAX + 1
    }

    /// The storage is no longer than a set of indices below `n` needs.
    pub open spec fn within(&self, n: int) -> bool {
        self.num@.len() * 8 < n + 8
    }

    /// The empty set.
    pub fn new() -> (r: Ubig)
        ensures
            r@ == Set::<int>::empty(),
            r.num@.len() == 0,
            r.wf(),
    {
        let r = Ubig { num: Vec::new() };
        assert(r@ =~= Set::<int>::empty());
        r
    }

    /// The members of the set in ascending order.
    pub fn get_seq(&self) -> (r: Vec<usize>)
        requires
            self.wf(),
        ensures
            strictly_increasing(r@),
            forall|x: usize| r@.contains(x) <==> self@.contains(x as int),
            forall|x: int| self@.contains(x) ==> 0 <= x <= usize::MAX,
    {
        let mut ret: Vec<usize> = Vec::new();
        let n = self.num.len();
        let mut byte: usize = 0;
        while byte < n
            invariant
                n == self.num@.len(),
                self.wf(),
                byte <= n,
                strictly_increasing(ret@),
                forall|i: int| 0 <= i < ret@.len() ==> ret@[i] < byte * 8,
                forall|x: usize| ret@.contains(x) <==> (self@.contains(x as int) && x < byte * 8),
            decreases n - byte,
        {
            let b = self.num[byte];
            let mut bit: usize = 0;
            while bit < 8
                invariant
                    n == self.num@.len(),
                    self.wf(),
                    byte < n,
                    b == self.num@[byte as int],
                    bit <= 8,
                    strictly_increasing(ret@),
                    forall|i: int| 0 <= i < ret@.len() ==> ret@[i] < byte * 8 + bit,
                    forall|x: usize|
                        ret@.contains(x) <==> (self@.contains(x as int) && x < byte * 8 + bit),
                decreases 8 - bit,
            {
                let k: u8 = bit as u8;
                if (b >> k) & 1 == 1 {
                    let idx: usize = byte * 8 + bit;
                    let ghost prev = ret@;
                    ret.push(idx);
                    proof {
                        assert(bytes_has(self.num@, idx as int));
                        assert forall|x: usize|
                            ret@.contains(x) <==> (self@.contains(x as int) && x < byte * 8 + bit
                                + 1) by {
                            if ret@.contains(x) {
                                let i = choose|i: int| 0 <= i < ret@.len() && ret@[i] == x;
                                if i < prev.len() {
                                    assert(prev[i] == x);
                                    assert(prev.contains(x));
                                }
                            }
                            if self@.contains(x as int) && x < byte * 8 + bit + 1 {
                                if x == idx {
                                    assert(ret@[prev.len() as int] == x);
                                } else {
                                    assert(prev.contains(x));
                                    let i = choose|i: int| 0 <= i < prev.len() && prev[i] == x;
                                    assert(ret@[i] == x);
                                }
                            }
                        }
                    }
                } else {
                    proof {
                        assert(!bytes_has(self.num@, byte * 8 + bit));
                    }
                }
                bit += 1;
            }
            byte += 1;
        }
        proof {
            assert forall|x: usize| ret@.contains(x) <==> self@.contains(x as int) by {}
            assert forall|x: int| self@.contains(x) implies 0 <= x <= usize::MAX by {}
        }
        ret
    }

    /// Whether `pos` is a member.
    pub fn bit_at(&self, pos: &usize) -> (r: bool)
        ensures
            r == self@.contains(*pos as int),
    {
        let p: usize = *pos;
        let byte: usize = p / 8;
        if byte < self.num.len() {
            let k: u8 = (p % 8) as u8;
            (self.num[byte] >> k) & 1 == 1
        } else {
            false
        }
    }

    /// Grows the storage with zero bytes until index `bit` has a byte of its own.
    /// The set itself does not change.
    pub fn extend(&mut self, bit: &usize)
        requires
            old(self).wf(),
        ensures
            final(self)@ == old(self)@,
            final(self).wf(),
            final(self).num@.len() == if old(self).num@.len() > *bit / 8 {
                old(self).num@.len() as int
            } else {
                *bit / 8 + 1
            },
            forall|i: int| 0 <= i < old(self).num@.len() ==> final(self).num@[i] == old(self).num@[i],
            forall|i: int|
                old(self).num@.len() <= i < final(self).num@.len() ==> final(self).num@[i] == 0u8,
    {
        let target: usize = *bit / 8;
        while self.num.len() <= target
            invariant
                self@ == old(self)@,
                target == *bit / 8,
                old(self).num@.len() <= self.num@.len(),
                self.num@.len() <= target + 1 || self.num@.len() == old(self).num@.len(),
                self.wf(),
                forall|i: int| 0 <= i < old(self).num@.len() ==> self.num@[i] == old(self).num@[i],
                forall|i: int| old(self).num@.len() <= i < self.num@.len() ==> self.num@[i] == 0u8,
            decreases target + 1 - self.num@.len(),
        {
            proof {
                lemma_push_zero(self.num@);
            }
            self.num.push(0);
        }
    }

    /// Flips the membership of `bit`, growing the storage if needed.
    pub fn flip(&mut self, bit: &usize)
        requires
            old(self).wf(),
        ensures
            final(self).wf(),
            final(self)@ == if old(self)@.contains(*bit as int) {
                old(self)@.remove(*bit as int)
            } else {
                old(self)@.insert(*bit as int)
            },
            final(self).num@.len() == if old(self).num@.len() > *bit / 8 {
                old(self).num@.len() as int
            } else {
                *bit / 8 + 1
            },
    {
        self.extend(bit);
        let pos: usize = *bit / 8;
        let k: u8 = (*bit % 8) as u8;
        let ghost before = self.num@;
        let b: u8 = self.num[pos];
        self.num.set(pos, b ^ (1u8 << k));
        proof {
            let after = self.num@;
            let target = if old(self)@.contains(*bit as int) {
                old(self)@.remove(*bit as int)
            } else {
                old(self)@.insert(*bit as int)
            };
            assert forall|i: int| bytes_has(after, i) == target.contains(i) by {
                if 0 <= i < after.len() * 8 {
                    if i / 8 == pos {
                        lemma_bit_xor(b, k, (i % 8) as u8);
                        assert(bytes_has(before, i) == bit_of(b, i % 8));
                        assert(bytes_has(before, *bit as int) == bit_of(b, k as int));
                    } else {
                        assert(after[i / 8] == before[i / 8]);
                    }
                }
            }
            assert(self@ =~= target);
        }
    }

    /// Makes `bit` a member (`val == true`) or a non-member (`val == false`).
    /// Storage grows only when a member is added beyond its end.
    pub fn set_to(&mut self, bit: &usize, val: bool)
        requires
            old(self).wf(),
        ensures
            final(self).wf(),
            final(self)@ == if val {
                old(self)@.insert(*bit as int)
            } else {
                old(self)@.remove(*bit as int)
            },
            final(self).num@.len() == if old(self).num@.len() > *bit / 8 || !val {
                old(self).num@.len() as int
            } else {
                *bit / 8 + 1
            },
    {
        let pos: usize = *bit / 8;
        let k: u8 = (*bit % 8) as u8;
        if pos < self.num.len() {
            let ghost before = self.num@;
            let b: u8 = self.num[pos];
            if val {
                self.num.set(pos, b | (1u8 << k));
            } else {
                self.num.set(pos, b & (0xFFu8 ^ (1u8 << k)));
            }
            proof {
                let after = self.num@;
                let target = if val {
                    old(self)@.insert(*bit as int)
                } else {
                    old(self)@.remove(*bit as int)
                };
                assert forall|i: int| bytes_has(after, i) == target.contains(i) by {
                    if 0 <= i < after.len() * 8 {
                        if i / 8 == pos {
                            lemma_bit_or(b, k, (i % 8) as u8);
                            lemma_bit_clear(b, k, (i % 8) as u8);
                            assert(bytes_has(before, i) == bit_of(b, i % 8));
                        } else {
                            assert(after[i / 8] == before[i / 8]);
                        }
                    }
                }
                assert(self@ =~= target);
            }
        } else if val {
            self.flip(bit);
        } else {
            proof {
                assert(!bytes_has(self.num@, *bit as int));
                assert(self@ =~= old(self)@.remove(*bit as int));
            }
        }
    }
}


/// The bytes `s` without their trailing zero bytes.
pub open spec fn trimmed(s: Seq<u8>) -> Seq<u8>
    decreases s.len(),
{
    if s.len() == 0 || s.last() != 0u8 {
        s
    } else {
        trimmed(s.drop_last())
    }
}

/// `s` does not end in a zero byte.
pub open spec fn is_trimmed(s: Seq<u8>) -> bool {
    s.len() == 0 || s.last() != 0u8
}

/// Byte `i` of `s`, or zero beyond its end.
pub open spec fn byte_or_zero(s: Seq<u8>, i: int) -> u8 {
    if 0 <= i < s.len() {
        s[i]
    } else {
        0u8
    }
}

/// Trimming keeps the set, shortens at most, and leaves no trailing zero byte.
pub proof fn lemma_trimmed(s: Seq<u8>)
    ensures
        is_trimmed(trimmed(s)),
        trimmed(s).len() <= s.len(),
        bytes_set(trimmed(s)) == bytes_set(s),
        forall|i: int| 0 <= i < trimmed(s).len() ==> trimmed(s)[i] == s[i],
        forall|i: int| trimmed(s).len() <= i < s.len() ==> s[i] == 0u8,
    decreases s.len(),
{
    if s.len() == 0 || s.last() != 0u8 {
    } else {
        let init = s.drop_last();
        lemma_trimmed(init);
        assert(init.push(0u8) =~= s);
        lemma_push_zero(init);
    }
}

/// Two byte strings hold the same set exactly when they agree byte for byte,
/// absent bytes counting as zero.
pub proof fn lemma_same_set_same_bytes(a: Seq<u8>, b: Seq<u8>)
    ensures
        bytes_set(a) == bytes_set(b) <==> (forall|j: int| byte_or_zero(a, j) == byte_or_zero(b, j)),
{
    if bytes_set(a) == bytes_set(b) {
        assert forall|j: int| byte_or_zero(a, j) == byte_or_zero(b, j) by {
            let x = byte_or_zero(a, j);
            let y = byte_or_zero(b, j);
            if 0 <= j {
                assert forall|k: int| 0 <= k < 8 implies bit_of(x, k) == bit_of(y, k) by {
                    let i = j * 8 + k;
                    assert(i / 8 == j && i % 8 == k);
                    assert(bytes_set(a).contains(i) == bytes_set(b).contains(i));
                    lemma_bit_zero(k as u8);
                }
                assert(bit_of(x, 0) == bit_of(y, 0));
                assert(bit_of(x, 1) == bit_of(y, 1));
                assert(bit_of(x, 2) == bit_of(y, 2));
                assert(bit_of(x, 3) == bit_of(y, 3));
                assert(bit_of(x, 4) == bit_of(y, 4));
                assert(bit_of(x, 5) == bit_of(y, 5));
                assert(bit_of(x, 6) == bit_of(y, 6));
                assert(bit_of(x, 7) == bit_of(y, 7));
                lemma_byte_ext(x, y);
            }
        }
    }
    if forall|j: int| byte_or_zero(a, j) == byte_or_zero(b, j) {
        assert forall|i: int| bytes_has(a, i) == bytes_has(b, i) by {
            assert(byte_or_zero(a, i / 8) == byte_or_zero(b, i / 8));
            if 0 <= i {
                lemma_bit_zero((i % 8) as u8);
            }
        }
        assert(bytes_set(a) =~= bytes_set(b));
    }
}

/// Among byte strings without trailing zero bytes, each set has one form.
pub proof fn lemma_trimmed_unique(a: Seq<u8>, b: Seq<u8>)
    requires
        is_trimmed(a),
        is_trimmed(b),
        bytes_set(a) == bytes_set(b),
    ensures
        a == b,
{
    lemma_same_set_same_bytes(a, b);
    if a.len() > b.len() {
        assert(byte_or_zero(a, a.len() - 1) == byte_or_zero(b, a.len() - 1));
    }
    if b.len() > a.len() {
        assert(byte_or_zero(a, b.len() - 1) == byte_or_zero(b, b.len() - 1));
    }
    assert forall|j: int| 0 <= j < a.len() implies a[j] == b[j] by {
        assert(byte_or_zero(a, j) == byte_or_zero(b, j));
    }
    assert(a =~= b);
}

/// The block that LZ4 compression, with the input's length in front, makes of `input`.
pub uninterp spec fn lz4_block(input: Seq<u8>) -> Seq<u8>;

/// What LZ4 decompression makes of a block with a length in front, where it
/// succeeds.
pub uninterp spec fn lz4_unblock(block: Seq<u8>) -> Option<Seq<u8>>;

/// The 64-bit xxHash of `bytes` with seed zero.
pub uninterp spec fn xx_hash64(bytes: Seq<u8>) -> u64;

/// Calls `lz4_flex::compress_prepend_size`. The result is the block of the
/// input; the crate documents that `decompress_size_prepended` gives the input
/// back from it, as long as its length fits the four-byte prefix.
#[verifier::external_body]
fn lz4_compress(input: &Vec<u8>) -> (r: Vec<u8>)
    ensures
        r@ == lz4_block(input@),
        input@.len() <= u32::MAX ==> lz4_unblock(r@) == Some(input@),
{
    lz4_flex::compress_prepend_size(input.as_slice())
}

/// Calls `lz4_flex::decompress_size_prepended` on a block that decodes.
#[verifier::external_body]
fn lz4_decompress(block: &Vec<u8>) -> (r: Option<Vec<u8>>)
    requires
        lz4_unblock(block@) is Some,
    ensures
        r is Some,
        r->Some_0@ == lz4_unblock(block@)->Some_0,
{
    lz4_flex::decompress_size_prepended(block.as_slice()).ok()
}

/// Feeds `bytes` to a fresh `fasthash::xx::Hasher64` and returns its digest.
#[verifier::external_body]
fn xx_digest(bytes: &Vec<u8>) -> (r: u64)
    ensures
        r == xx_hash64(bytes@),
{
    let mut hasher = fasthash::xx::Hasher64::default();
    hasher.write(bytes.as_slice());
    hasher.finish()
}

/// The block `c` is the compressed form of the set `s`: the block of the one
/// byte string without trailing zero bytes that holds `s`, and it decodes to it.
pub open spec fn block_stands_for(c: Seq<u8>, s: Set<int>) -> bool {
    exists|t: Seq<u8>|
        is_trimmed(t) && bytes_set(t) == s && c == #[trigger] lz4_block(t) && lz4_unblock(c)
            == Some(t)
}

/// The hash of the set stored in the bytes `s`.
pub open spec fn set_digest(s: Seq<u8>) -> u64 {
    xx_hash64(lz4_block(trimmed(s)))
}

/// Byte strings that hold the same set have the same hash.
pub proof fn lemma_equal_sets_equal_digests(a: Seq<u8>, b: Seq<u8>)
    requires
        bytes_set(a) == bytes_set(b),
    ensures
        set_digest(a) == set_digest(b),
{
    lemma_trimmed(a);
    lemma_trimmed(b);
    lemma_trimmed_unique(trimmed(a), trimmed(b));
}

/// A set of state indices in compressed form: the LZ4 block of its bytes
/// without trailing zero bytes.
#[derive(Debug, Clone, PartialEq, Eq, Hash)]
pub struct CompressedUbig {
    pub cnum: Vec<u8>,
}

impl CompressedUbig {
    /// This value is the compressed form of the set `s`.
    pub open spec fn stands_for(&self, s: Set<int>) -> bool {
        block_stands_for(self.cnum@, s)
    }

    /// The hash by which compressed sets are filed and assigned to shards.
    pub open spec fn spec_digest(&self) -> u64 {
        xx_hash64(self.cnum@)
    }

    /// The hash by which compressed sets are filed and assigned to shards.
    pub fn digest(&self) -> (r: u64)
        ensures
            r == self.spec_digest(),
    {
        xx_digest(&self.cnum)
    }

    /// Whether two compressed sets hold the same bytes.
    pub fn same_bytes(&self, other: &CompressedUbig) -> (r: bool)
        ensures
            r == (self.cnum@ == other.cnum@),
    {
        if self.cnum.len() != other.cnum.len() {
            return false;
        }
        let mut i: usize = 0;
        while i < self.cnum.len()
            invariant
                self.cnum@.len() == other.cnum@.len(),
                i <= self.cnum@.len(),
                forall|j: int| 0 <= j < i ==> self.cnum@[j] == other.cnum@[j],
            decreases self.cnum@.len() - i,
        {
            if self.cnum[i] != other.cnum[i] {
                return false;
            }
            i += 1;
        }
        assert(self.cnum@ =~= other.cnum@);
        true
    }

    /// The set that this value was compressed from, in storage without
    /// trailing zero bytes.
    pub fn decompress(self) -> (r: Ubig)
        requires
            lz4_unblock(self.cnum@) is Some,
        ensures
            r.num@ == lz4_unblock(self.cnum@)->Some_0,
    {
        match lz4_decompress(&self.cnum) {
            Some(v) => Ubig { num: v },
            None => Ubig { num: Vec::new() },
        }
    }
}

/// Two compressed forms are equal exactly when they stand for the same set.
pub proof fn lemma_compressed_injective(a: Seq<u8>, b: Seq<u8>, s1: Set<int>, s2: Set<int>)
    requires
        block_stands_for(a, s1),
        block_stands_for(b, s2),
    ensures
        a == b <==> s1 == s2,
{
    let t1 = choose|t: Seq<u8>|
        is_trimmed(t) && bytes_set(t) == s1 && a == #[trigger] lz4_block(t) && lz4_unblock(a)
            == Some(t);
    let t2 = choose|t: Seq<u8>|
        is_trimmed(t) && bytes_set(t) == s2 && b == #[trigger] lz4_block(t) && lz4_unblock(b)
            == Some(t);
    if s1 == s2 {
        lemma_trimmed_unique(t1, t2);
    }
}

impl Ubig {
    /// The storage is short enough for the length prefix of a compressed block.
    pub open spec fn compressible(&self) -> bool {
        self.num@.len() <= u32::MAX
    }

    /// A copy of the storage without its trailing zero bytes.
    pub fn canonical_bytes(&self) -> (r: Vec<u8>)
        ensures
            r@ == trimmed(self.num@),
    {
        let mut end: usize = self.num.len();
        assert(self.num@.take(self.num@.len() as int) =~= self.num@);
        while end > 0 && self.num[end - 1] == 0
            invariant
                end <= self.num@.len(),
                trimmed(self.num@) == trimmed(self.num@.take(end as int)),
            decreases end,
        {
            proof {
                let cur = self.num@.take(end as int);
                assert(cur.drop_last() =~= self.num@.take(end - 1));
            }
            end -= 1;
        }
        assert(self.num@.take(self.num@.len() as int) =~= self.num@);
        let mut r: Vec<u8> = Vec::new();
        let mut i: usize = 0;
        while i < end
            invariant
                end <= self.num@.len(),
                i <= end,
                r@ == self.num@.take(i as int),
            decreases end - i,
        {
            r.push(self.num[i]);
            assert(self.num@.take(i + 1) =~= self.num@.take(i as int).push(self.num@[i as int]));
            i += 1;
        }
        r
    }

    /// The compressed form of the set: the LZ4 block of the storage without
    /// trailing zero bytes.
    pub fn compress(self) -> (r: CompressedUbig)
        ensures
            r.cnum@ == lz4_block(trimmed(self.num@)),
            self.compressible() ==> lz4_unblock(r.cnum@) == Some(trimmed(self.num@)),
            self.compressible() ==> r.stands_for(self@),
    {
        let bytes = self.canonical_bytes();
        let r = CompressedUbig { cnum: lz4_compress(&bytes) };
        proof {
            lemma_trimmed(self.num@);
        }
        r
    }

    /// The same set in storage without trailing zero bytes, by way of the
    /// compressed form.
    pub fn compacted(self) -> (r: Ubig)
        requires
            self.compressible(),
        ensures
            r.num@ == trimmed(self.num@),
            r@ == self@,
    {
        proof {
            lemma_trimmed(self.num@);
        }
        let c = self.compress();
        c.decompress()
    }

    /// The hash of the set: the hash of its compressed form, so that equal
    /// sets have equal hashes whatever their storage.
    pub fn digest(&self) -> (r: u64)
        ensures
            r == set_digest(self.num@),
    {
        self.duplicate().compress().digest()
    }

    /// A copy of this set.
    pub fn duplicate(&self) -> (r: Ubig)
        ensures
            r.num@ == self.num@,
            r@ == self@,
    {
        let mut v: Vec<u8> = Vec::new();
        let mut i: usize = 0;
        while i < self.num.len()
            invariant
                i <= self.num@.len(),
                v@ == self.num@.take(i as int),
            decreases self.num@.len() - i,
        {
            v.push(self.num[i]);
            assert(self.num@.take(i + 1) =~= self.num@.take(i as int).push(self.num@[i as int]));
            i += 1;
        }
        assert(self.num@.take(self.num@.len() as int) =~= self.num@);
        Ubig { num: v }
    }
}

impl PartialEq for Ubig {
    /// Two values are equal when they hold the same set, whatever their storage.
    fn eq(&self, other: &Ubig) -> (r: bool) {
        let n = self.num.len();
        let m = other.num.len();
        let mut i: usize = 0;
        while i < n || i < m
            invariant
                n == self.num@.len(),
                m == other.num@.len(),
                forall|j: int| 0 <= j < i ==> byte_or_zero(self.num@, j) == byte_or_zero(other.num@, j),
            decreases (if n > m { n } else { m }) - i,
        {
            let x: u8 = if i < n { self.num[i] } else { 0 };
            let y: u8 = if i < m { other.num[i] } else { 0 };
            if x != y {
                proof {
                    lemma_same_set_same_bytes(self.num@, other.num@);
                    assert(byte_or_zero(self.num@, i as int) != byte_or_zero(other.num@, i as int));
                }
                return false;
            }
            i += 1;
        }
        proof {
            lemma_same_set_same_bytes(self.num@, other.num@);
        }
        true
    }
}

impl Eq for Ubig {

}

impl vstd::std_specs::cmp::PartialEqSpecImpl for Ubig {
    open spec fn obeys_eq_spec() -> bool {
        true
    }

    open spec fn eq_spec(&self, other: &Ubig) -> bool {
        self@ == other@
    }
}

} // verus!
