//! Fixed-capacity bit vector.
//!
//! The set is a sequence of `len` booleans packed into 64-bit words, bit `i`
//! living in bit `i % 64` of word `i / 64`. Bits past `len` in the last word
//! are always zero, so two sets with equal views have equal words.

use vstd::prelude::*;

verus! {

/// Bit `k` of the word `w`.
pub open spec fn bit_of(w: u64, k: u64) -> bool {
    (w >> k) & 1u64 == 1u64
}

/// How many words hold `len` bits.
pub open spec fn words_for(len: nat) -> nat {
    (len + 63) / 64
}

/// The number of `true` entries of `s`.
pub open spec fn count_true(s: Seq<bool>) -> nat
    decreases s.len(),
{
    if s.len() == 0 {
        0
    } else {
        count_true(s.drop_last()) + if s.last() {
            1nat
        } else {
            0nat
        }
    }
}

proof fn lemma_bit_test(w: u64, k: u64)
    by (bit_vector)
    requires
        k < 64,
    ensures
        ((w >> k) & 1u64 != 0u64) == bit_of(w, k),
{
}

proof fn lemma_bit_or(w: u64, b: u64, k: u64)
    by (bit_vector)
    requires
        b < 64,
        k < 64,
    ensures
        bit_of(w | (1u64 << b), k) == (k == b || bit_of(w, k)),
{
}

proof fn lemma_bit_and_not(w: u64, b: u64, k: u64)
    by (bit_vector)
    requires
        b < 64,
        k < 64,
    ensures
        bit_of(w & !(1u64 << b), k) == (k != b && bit_of(w, k)),
{
}

proof fn lemma_fresh_bit(w: u64, k: u64, c: u64)
    by (bit_vector)
    requires
        k < 64,
        c == 0 || c == 1,
    ensures
        ((((w >> k) & 1u64) ^ 1u64) & c) == 0u64 || ((((w >> k) & 1u64) ^ 1u64) & c) == 1u64,
        (((((w >> k) & 1u64) ^ 1u64) & c) != 0u64) == (c == 1 && !bit_of(w, k)),
{
}

proof fn lemma_bit_zero(k: u64)
    by (bit_vector)
    ensures
        !bit_of(0u64, k),
{
}

proof fn lemma_bit_or_zero(w: u64)
    by (bit_vector)
    ensures
        w | 0u64 == w,
{
}

proof fn lemma_wrapping_mask(b: u64)
    by (bit_vector)
    ensures
        b & 0xffff_ffff_ffff_ffffu64 == b,
        b & 0u64 == 0u64,
{
}

/// Counting is monotone along prefixes.
proof fn lemma_count_prefix(s: Seq<bool>, i: int, j: int)
    requires
        0 <= i <= j <= s.len(),
    ensures
        count_true(s.take(i)) <= count_true(s.take(j)),
    decreases j - i,
{
    if i < j {
        lemma_count_prefix(s, i, j - 1);
        assert(s.take(j).drop_last() =~= s.take(j - 1));
    }
}

/// A sequence of `len` booleans, packed into words.
#[derive(Debug, PartialEq, Eq)]
pub struct BitSet {
    words: Vec<u64>,
    len: usize,
}

impl View for BitSet {
    type V = Seq<bool>;

    closed spec fn view(&self) -> Seq<bool> {
        Seq::new(self.len as nat, |i: int| bit_of(self.words@[i / 64], (i % 64) as u64))
    }
}

impl BitSet {
    #[verifier::type_invariant]
    spec fn inv(self) -> bool {
        &&& self.words.len() == words_for(self.len as nat)
        &&& forall|i: int|
            self.len <= i < self.words.len() * 64 ==> !bit_of(
                #[trigger] self.words@[i / 64],
                (i % 64) as u64,
            )
    }

    /// Move the words out, leaving an empty set behind; `self` is rebuilt by
    /// the caller once the words are rewritten.
    fn take_parts(&mut self) -> (r: (Vec<u64>, usize))
        ensures
            r.0.len() == words_for(r.1 as nat),
            r.1 == old(self).len,
            r.0@ == old(self).words@,
            forall|i: int|
                r.1 <= i < r.0.len() * 64 ==> !bit_of(#[trigger] r.0@[i / 64], (i % 64) as u64),
    {
        let mut tmp = BitSet { words: Vec::new(), len: 0 };
        std::mem::swap(self, &mut tmp);
        proof {
            use_type_invariant(&tmp);
        }
        let BitSet { words, len } = tmp;
        (words, len)
    }

    /// An all-clear set of `len` bits.
    pub fn new(len: usize) -> (r: BitSet)
        ensures
            r@ == Seq::new(len as nat, |i: int| false),
    {
        let n: usize = len / 64 + if len % 64 != 0 {
            1
        } else {
            0
        };
        let words: Vec<u64> = vec![0u64; n];
        proof {
            assert forall|i: int| 0 <= i < words.len() implies words@[i] == 0u64 by {
                assert(cloned(0u64, words@[i]));
            }
            assert forall|k: u64| !bit_of(0u64, k) by {
                lemma_bit_zero(k);
            }
        }
        let r = BitSet { words, len };
        assert(r@ =~= Seq::new(len as nat, |i: int| false));
        r
    }

    pub fn len(&self) -> (r: usize)
        ensures
            r == self@.len(),
    {
        self.len
    }

    pub fn is_empty(&self) -> (r: bool)
        ensures
            r == (self@.len() == 0),
    {
        self.len == 0
    }

    pub fn get(&self, i: usize) -> (r: bool)
        requires
            i < self@.len(),
        ensures
            r == self@[i as int],
    {
        proof {
            use_type_invariant(self);
        }
        let w = self.words[i / 64];
        let k = (i % 64) as u64;
        proof {
            lemma_bit_test(w, k);
        }
        (w >> k) & 1 != 0
    }

    /// Store `v` at `i`: the one place that rewrites a single bit.
    fn store(&mut self, i: usize, v: bool)
        requires
            i < old(self)@.len(),
        ensures
            final(self)@ == old(self)@.update(i as int, v),
    {
        let ghost before = self@;
        let (mut words, len) = self.take_parts();
        let wi = i / 64;
        let k = (i % 64) as u64;
        let old_w = words[wi];
        let new_w = if v {
            old_w | (1u64 << k)
        } else {
            old_w & !(1u64 << k)
        };
        let ghost old_words = words@;
        proof {
            assert forall|j: u64| j < 64 implies bit_of(new_w, j) == (if j == k {
                v
            } else {
                bit_of(old_w, j)
            }) by {
                if v {
                    lemma_bit_or(old_w, k, j);
                } else {
                    lemma_bit_and_not(old_w, k, j);
                }
            }
            assert forall|j: int|
                len <= j < old_words.len() * 64 implies !bit_of(
                #[trigger] old_words.update(wi as int, new_w)[j / 64],
                (j % 64) as u64,
            ) by {
                assert(!bit_of(old_words[j / 64], (j % 64) as u64));
                if j / 64 == wi as int {
                    assert((j % 64) as u64 != k);
                }
            }
        }
        words.set(wi, new_w);
        *self = BitSet { words, len };
        proof {
            assert(self@ =~= before.update(i as int, v));
        }
    }

    pub fn set(&mut self, i: usize)
        requires
            i < old(self)@.len(),
        ensures
            final(self)@ == old(self)@.update(i as int, true),
    {
        self.store(i, true)
    }

    pub fn clear(&mut self, i: usize)
        requires
            i < old(self)@.len(),
        ensures
            final(self)@ == old(self)@.update(i as int, false),
    {
        self.store(i, false)
    }

    pub fn put(&mut self, i: usize, v: bool)
        requires
            i < old(self)@.len(),
        ensures
            final(self)@ == old(self)@.update(i as int, v),
    {
        if v {
            self.set(i)
        } else {
            self.clear(i)
        }
    }

    /// Set the bit only if `cond`, returning whether this call set it.
    ///
    /// Branchless: one load and one store to the same word, the bit masked in
    /// by an all-ones-or-zero word made from the outcome.
    pub fn insert_if(&mut self, i: usize, cond: bool) -> (fresh: bool)
        requires
            i < old(self)@.len(),
        ensures
            fresh == (cond && !old(self)@[i as int]),
            final(self)@ == old(self)@.update(i as int, old(self)@[i as int] || cond),
    {
        let ghost before = self@;
        let (mut words, len) = self.take_parts();
        let wi = i / 64;
        let k = (i % 64) as u64;
        let b: u64 = 1u64 << k;
        let word = words[wi];
        let c: u64 = cond as u64;
        let fresh_bit: u64 = (((word >> k) & 1u64) ^ 1u64) & c;
        let fresh = fresh_bit != 0;
        let mask: u64 = 0u64.wrapping_sub(fresh_bit);
        let new_w = word | (b & mask);
        let ghost old_words = words@;
        let ghost target = before[i as int] || cond;
        proof {
            lemma_fresh_bit(word, k, c);
            lemma_wrapping_mask(b);
            if fresh {
                assert(mask == 0xffff_ffff_ffff_ffffu64);
            } else {
                assert(mask == 0u64);
                lemma_bit_or_zero(word);
            }
            assert(before[i as int] == bit_of(word, k));
            assert forall|j: u64| j < 64 implies bit_of(new_w, j) == (if j == k {
                target
            } else {
                bit_of(word, j)
            }) by {
                if fresh {
                    lemma_bit_or(word, k, j);
                }
            }
            assert forall|j: int|
                len <= j < old_words.len() * 64 implies !bit_of(
                #[trigger] old_words.update(wi as int, new_w)[j / 64],
                (j % 64) as u64,
            ) by {
                assert(!bit_of(old_words[j / 64], (j % 64) as u64));
                if j / 64 == wi as int {
                    assert((j % 64) as u64 != k);
                }
            }
        }
        words.set(wi, new_w);
        *self = BitSet { words, len };
        proof {
            assert(self@ =~= before.update(i as int, target));
        }
        fresh
    }

    /// Set a bit, returning whether it was already set.
    pub fn test_and_set(&mut self, i: usize) -> (was: bool)
        requires
            i < old(self)@.len(),
        ensures
            was == old(self)@[i as int],
            final(self)@ == old(self)@.update(i as int, true),
    {
        let was = self.get(i);
        self.set(i);
        was
    }

    /// Clear every bit.
    pub fn clear_all(&mut self)
        ensures
            final(self)@ == Seq::new(old(self)@.len(), |i: int| false),
    {
        let ghost before = self@;
        let (mut words, len) = self.take_parts();
        let n = words.len();
        let mut w: usize = 0;
        while w < n
            invariant
                0 <= w <= n,
                n == words.len(),
                forall|j: int| 0 <= j < w ==> words@[j] == 0u64,
            decreases n - w,
        {
            words.set(w, 0u64);
            w = w + 1;
        }
        proof {
            assert forall|k: u64| !bit_of(0u64, k) by {
                lemma_bit_zero(k);
            }
        }
        *self = BitSet { words, len };
        proof {
            assert(self@ =~= Seq::new(before.len(), |i: int| false));
        }
    }

    /// Clear just these indices: linear in the list, not in the set.
    pub fn clear_only(&mut self, indices: &[u16])
        requires
            forall|k: int| 0 <= k < indices@.len() ==> (indices@[k] as int) < old(self)@.len(),
        ensures
            final(self)@.len() == old(self)@.len(),
            forall|j: int|
                0 <= j < old(self)@.len() ==> final(self)@[j] == (old(self)@[j] && !(exists|m: int|
                    0 <= m < indices@.len() && #[trigger] indices@[m] as int == j)),
    {
        let n = indices.len();
        let mut k: usize = 0;
        while k < n
            invariant
                0 <= k <= n,
                n == indices@.len(),
                self@.len() == old(self)@.len(),
                forall|m: int| 0 <= m < indices@.len() ==> (indices@[m] as int) < old(self)@.len(),
                forall|j: int|
                    0 <= j < old(self)@.len() ==> self@[j] == (old(self)@[j] && !(exists|m: int|
                        0 <= m < k && #[trigger] indices@[m] as int == j)),
            decreases n - k,
        {
            let i = indices[k];
            self.clear(i as usize);
            proof {
                assert forall|j: int| 0 <= j < old(self)@.len() implies self@[j] == (old(self)@[j]
                    && !(exists|m: int| 0 <= m < k + 1 && #[trigger] indices@[m] as int == j)) by {
                    if j == i as int {
                        assert(indices@[k as int] as int == j);
                    }
                }
            }
            k = k + 1;
        }
    }

    /// How many bits are set.
    pub fn count_ones(&self) -> (r: u32)
        requires
            count_true(self@) <= u32::MAX,
        ensures
            r == count_true(self@),
    {
        let n = self.len;
        let mut c: u32 = 0;
        let mut i: usize = 0;
        while i < n
            invariant
                0 <= i <= n,
                n == self@.len(),
                count_true(self@) <= u32::MAX,
                c == count_true(self@.take(i as int)),
            decreases n - i,
        {
            proof {
                assert(self@.take(i + 1).drop_last() =~= self@.take(i as int));
                lemma_count_prefix(self@, i + 1, n as int);
                assert(self@.take(n as int) =~= self@);
            }
            if self.get(i) {
                c = c + 1;
            }
            i = i + 1;
        }
        assert(self@.take(n as int) =~= self@);
        c
    }

    /// The packed words.
    ///
    /// Bit `i` of the set is bit `i % 64` of word `i / 64`, and every bit past
    /// the end of the set is zero.
    pub fn as_words(&self) -> (r: &[u64])
        ensures
            r@.len() == words_for(self@.len()),
            forall|i: int|
                0 <= i < self@.len() ==> self@[i] == bit_of(#[trigger] r@[i / 64], (i % 64) as u64),
            forall|i: int|
                self@.len() <= i < r@.len() * 64 ==> !bit_of(#[trigger] r@[i / 64], (i % 64) as u64),
    {
        proof {
            use_type_invariant(self);
        }
        self.words.as_slice()
    }

    /// Make this set equal to `other`, which has the same length.
    pub fn copy_from(&mut self, other: &BitSet)
        requires
            old(self)@.len() == other@.len(),
        ensures
            final(self)@ == other@,
    {
        proof {
            use_type_invariant(other);
        }
        let (mut words, len) = self.take_parts();
        let n = words.len();
        let mut w: usize = 0;
        while w < n
            invariant
                0 <= w <= n,
                n == words.len(),
                n == other.words.len(),
                len == other.len,
                forall|j: int| 0 <= j < w ==> words@[j] == other.words@[j],
            decreases n - w,
        {
            let x = other.words[w];
            words.set(w, x);
            w = w + 1;
        }
        proof {
            assert(words@ =~= other.words@);
        }
        *self = BitSet { words, len };
        proof {
            assert(self@ =~= other@);
        }
    }

    /// A second set with the same bits.
    pub fn duplicate(&self) -> (r: BitSet)
        ensures
            r@ == self@,
    {
        proof {
            use_type_invariant(self);
        }
        let mut words: Vec<u64> = Vec::new();
        let n = self.words.len();
        let mut w: usize = 0;
        while w < n
            invariant
                0 <= w <= n,
                n == self.words.len(),
                words@ =~= self.words@.take(w as int),
            decreases n - w,
        {
            words.push(self.words[w]);
            w = w + 1;
        }
        proof {
            assert(words@ =~= self.words@);
        }
        let r = BitSet { words, len: self.len };
        assert(r@ =~= self@);
        r
    }
}

impl Clone for BitSet {
    fn clone(&self) -> (r: Self)
        ensures
            r@ == self@,
    {
        self.duplicate()
    }
}

} // verus!
