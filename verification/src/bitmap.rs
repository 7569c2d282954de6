//! Bit sets held in 64-bit words, for cheap bitwise aggregation.

use vstd::prelude::*;

verus! {

/// Whether bit `k` of `w` is set, counted from the least significant.
pub open spec fn word_bit(w: u64, k: int) -> bool {
    (w >> (k as u64)) & 1 == 1
}

/// No bit of zero is set.
pub proof fn lemma_zero_word(k: u64)
    requires
        k < 64,
    ensures
        !word_bit(0, k as int),
{
    assert((0u64 >> k) & 1 == 0) by (bit_vector)
        requires
            k < 64,
    ;
}

/// Setting bit `k` of a word sets that bit and leaves the others.
pub proof fn lemma_set_bit(w: u64, k: u64, j: u64)
    requires
        k < 64,
        j < 64,
    ensures
        word_bit(w | (1u64 << k), j as int) == (j == k || word_bit(w, j as int)),
{
    assert(((w | (1u64 << k)) >> j) & 1 == (if j == k {
        1u64
    } else {
        (w >> j) & 1
    })) by (bit_vector)
        requires
            k < 64,
            j < 64,
    ;
    assert((w >> j) & 1 == 0 || (w >> j) & 1 == 1) by (bit_vector);
}

/// A bit of `a ^ b` is set where the bits of `a` and `b` differ.
pub proof fn lemma_xor_bit(a: u64, b: u64, j: u64)
    requires
        j < 64,
    ensures
        word_bit(a ^ b, j as int) == (word_bit(a, j as int) != word_bit(b, j as int)),
{
    assert(((a ^ b) >> j) & 1 == ((a >> j) & 1) ^ ((b >> j) & 1)) by (bit_vector);
    assert((a >> j) & 1 == 0 || (a >> j) & 1 == 1) by (bit_vector);
    assert((b >> j) & 1 == 0 || (b >> j) & 1 == 1) by (bit_vector);
    assert(0u64 ^ 0u64 == 0 && 1u64 ^ 1u64 == 0 && 0u64 ^ 1u64 == 1 && 1u64 ^ 0u64 == 1)
        by (bit_vector);
}

/// A bit of `a & b` is set where the bits of `a` and `b` are both set.
pub proof fn lemma_and_bit(a: u64, b: u64, j: u64)
    requires
        j < 64,
    ensures
        word_bit(a & b, j as int) == (word_bit(a, j as int) && word_bit(b, j as int)),
{
    assert(((a & b) >> j) & 1 == ((a >> j) & 1) & ((b >> j) & 1)) by (bit_vector);
    assert((a >> j) & 1 == 0 || (a >> j) & 1 == 1) by (bit_vector);
    assert((b >> j) & 1 == 0 || (b >> j) & 1 == 1) by (bit_vector);
    assert(0u64 & 0u64 == 0 && 1u64 & 1u64 == 1 && 0u64 & 1u64 == 0 && 1u64 & 0u64 == 0)
        by (bit_vector);
}

/// A run of 64-bit words read as one long row of bits: bit `i` is bit
/// `i % 64` of word `i / 64`.
#[derive(Clone, Debug, PartialEq, Eq)]
pub struct ByteWrapper(pub Vec<u64>);

impl View for ByteWrapper {
    type V = Seq<bool>;

    open spec fn view(&self) -> Seq<bool> {
        Seq::new(64 * self.0@.len(), |i: int| word_bit(self.0@[i / 64], i % 64))
    }
}

impl ByteWrapper {
    /// No bits at all.
    pub fn new() -> (r: ByteWrapper)
        ensures
            r@.len() == 0,
    {
        ByteWrapper(Vec::new())
    }

    /// `words` words of cleared bits.
    pub fn zeroed(words: usize) -> (r: ByteWrapper)
        ensures
            r.0@.len() == words,
            r@.len() == 64 * words,
            forall|w: int| 0 <= w < words ==> r.0@[w] == 0,
            forall|i: int| 0 <= i < r@.len() ==> !r@[i],
    {
        let mut v: Vec<u64> = Vec::new();
        let mut n: usize = 0;
        while n < words
            invariant
                n <= words,
                v@.len() == n,
                forall|j: int| 0 <= j < n ==> v@[j] == 0,
            decreases words - n,
        {
            v.push(0);
            n += 1;
        }
        let r = ByteWrapper(v);
        proof {
            assert forall|i: int| 0 <= i < r@.len() implies !r@[i] by {
                lemma_zero_word((i % 64) as u64);
            }
        }
        r
    }

    /// Whether bit `idx` is set.
    pub fn get(&self, idx: usize) -> (r: bool)
        requires
            idx < self@.len(),
        ensures
            r == self@[idx as int],
    {
        let w: u64 = self.0[idx / 64];
        let k: u64 = (idx % 64) as u64;
        (w >> k) & 1 == 1
    }

    /// Sets bit `idx` and leaves the others.
    pub fn set(&mut self, idx: usize)
        requires
            idx < old(self)@.len(),
        ensures
            final(self)@ == old(self)@.update(idx as int, true),
            final(self).0@.len() == old(self).0@.len(),
    {
        let at: usize = idx / 64;
        let k: u64 = (idx % 64) as u64;
        let w: u64 = self.0[at];
        let updated: u64 = w | (1u64 << k);
        self.0[at] = updated;
        proof {
            assert forall|i: int| 0 <= i < self@.len() implies self@[i] == old(self)@.update(
                idx as int,
                true,
            )[i] by {
                if i / 64 == at as int {
                    lemma_set_bit(w, k, (i % 64) as u64);
                }
            }
            assert(self@ =~= old(self)@.update(idx as int, true));
        }
    }

    /// The bits that are set in exactly one of the two.
    pub fn bitxor(&self, rhs: &ByteWrapper) -> (r: ByteWrapper)
        requires
            self.0@.len() == rhs.0@.len(),
        ensures
            r@.len() == self@.len(),
            r.0@.len() == self.0@.len(),
            forall|i: int| 0 <= i < r@.len() ==> #[trigger] r@[i] == (self@[i] != rhs@[i]),
    {
        let mut v: Vec<u64> = Vec::new();
        let mut n: usize = 0;
        while n < self.0.len()
            invariant
                n <= self.0@.len(),
                self.0@.len() == rhs.0@.len(),
                v@.len() == n,
                forall|j: int| 0 <= j < n ==> v@[j] == self.0@[j] ^ rhs.0@[j],
            decreases self.0@.len() - n,
        {
            v.push(self.0[n] ^ rhs.0[n]);
            n += 1;
        }
        let r = ByteWrapper(v);
        proof {
            assert forall|i: int| 0 <= i < r@.len() implies #[trigger] r@[i] == (self@[i]
                != rhs@[i]) by {
                lemma_xor_bit(self.0@[i / 64], rhs.0@[i / 64], (i % 64) as u64);
            }
        }
        r
    }

    /// Keeps the bits that are also set in `rhs`.
    pub fn bitand_assign(&mut self, rhs: &ByteWrapper)
        requires
            old(self).0@.len() == rhs.0@.len(),
        ensures
            final(self)@.len() == old(self)@.len(),
            final(self).0@.len() == old(self).0@.len(),
            forall|i: int|
                0 <= i < final(self)@.len() ==> #[trigger] final(self)@[i] == (old(self)@[i]
                    && rhs@[i]),
    {
        let mut n: usize = 0;
        while n < self.0.len()
            invariant
                n <= self.0@.len(),
                self.0@.len() == rhs.0@.len(),
                self.0@.len() == old(self).0@.len(),
                forall|j: int| 0 <= j < n ==> self.0@[j] == old(self).0@[j] & rhs.0@[j],
                forall|j: int| n <= j < self.0@.len() ==> self.0@[j] == old(self).0@[j],
            decreases self.0@.len() - n,
        {
            let w: u64 = self.0[n] & rhs.0[n];
            self.0[n] = w;
            n += 1;
        }
        proof {
            assert forall|i: int| 0 <= i < self@.len() implies #[trigger] self@[i] == (old(
                self,
            )@[i] && rhs@[i]) by {
                assert(self.0@[i / 64] == old(self).0@[i / 64] & rhs.0@[i / 64]);
                lemma_and_bit(old(self).0@[i / 64], rhs.0@[i / 64], (i % 64) as u64);
            }
        }
    }
}

} // verus!
