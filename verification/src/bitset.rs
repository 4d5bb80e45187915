//! A fixed-capacity bit set over 64-bit words, with a symmetric merge that
//! leaves both operands holding the bitwise OR of their contents.

use vstd::prelude::*;

verus! {

/// Element-wise OR of two equally long word sequences.
pub open spec fn or_words(a: Seq<u64>, b: Seq<u64>) -> Seq<u64> {
    Seq::new(a.len(), |i: int| a[i] | b[i])
}

/// Whether bit `i` is set in the word sequence `ws`.
pub open spec fn word_bit(ws: Seq<u64>, i: int) -> bool {
    ws[i / 64] & (1u64 << ((i % 64) as u64)) != 0
}

/// The OR of two word sequences sets exactly the union of their bits.
pub proof fn lemma_or_words_bits(a: Seq<u64>, b: Seq<u64>, i: int)
    requires
        a.len() == b.len(),
        0 <= i < a.len() * 64,
    ensures
        word_bit(or_words(a, b), i) == (word_bit(a, i) || word_bit(b, i)),
{
    let w = i / 64;
    let bit = (i % 64) as u64;
    assert(0 <= w < a.len()) by {
        vstd::arithmetic::div_mod::lemma_div_multiples_vanish_fancy(w, i % 64, 64);
    }
    let x = a[w];
    let y = b[w];
    assert(((x | y) & (1u64 << bit) != 0) == ((x & (1u64 << bit) != 0) || (y & (1u64 << bit)
        != 0))) by (bit_vector);
}

/// Merging a sequence with itself changes nothing.
pub proof fn lemma_or_words_idempotent(a: Seq<u64>)
    ensures
        or_words(a, a) == a,
{
    assert forall|i: int| 0 <= i < a.len() implies or_words(a, a)[i] == a[i] by {
        let x = a[i];
        assert((x | x) == x) by (bit_vector);
    }
    assert(or_words(a, a) =~= a);
}

/// A bit set of fixed capacity.
pub struct BitSet {
    bits: Vec<u64>,
}

impl BitSet {
    /// The backing words.
    pub closed spec fn words(&self) -> Seq<u64> {
        self.bits@
    }

    /// Total number of addressable bits.
    pub open spec fn capacity(&self) -> int {
        self.words().len() as int * 64
    }

    /// Whether bit `i` is set.
    pub open spec fn bit_set(&self, i: int) -> bool {
        word_bit(self.words(), i)
    }

    /// Creates a new bit set with at least the specified size (in bits),
    /// rounded up to a whole number of words; initially every bit is clear.
    pub fn new(capacity: usize) -> (r: Self)
        requires
            capacity + 63 <= usize::MAX,
        ensures
            r.capacity() >= capacity,
            r.words().len() == (capacity + 63) / 64,
            forall|i: int| 0 <= i < r.capacity() ==> !r.bit_set(i),
    {
        let capacity_blocks = (capacity + 63) / 64;
        let mut bits: Vec<u64> = Vec::with_capacity(capacity_blocks);
        let mut k: usize = 0;
        while k < capacity_blocks
            invariant
                k <= capacity_blocks,
                bits@.len() == k,
                forall|j: int| 0 <= j < k ==> bits@[j] == 0u64,
            decreases capacity_blocks - k,
        {
            bits.push(0);
            k = k + 1;
        }
        proof {
            assert((capacity + 63) / 64 * 64 >= capacity) by (nonlinear_arith)
                requires
                    capacity >= 0,
            ;
            assert forall|i: int| 0 <= i < bits@.len() * 64 implies !word_bit(bits@, i) by {
                vstd::arithmetic::div_mod::lemma_div_multiples_vanish_fancy(i / 64, i % 64, 64);
                assert(bits@[i / 64] == 0u64);
                let bit = (i % 64) as u64;
                assert(0u64 & (1u64 << bit) == 0) by (bit_vector);
            }
        }
        BitSet { bits }
    }

    /// Keeps this bit set on the given NUMA node; placement is a locality
    /// concern only, so the contents are unchanged.
    pub fn on_node(self, node_id: u32) -> (r: Self)
        ensures
            r == self,
    {
        let _ = node_id;
        self
    }

    /// Sets the bit at index `index`.
    pub fn insert(&mut self, index: usize)
        requires
            index < old(self).capacity(),
        ensures
            final(self).words().len() == old(self).words().len(),
            final(self).bit_set(index as int),
            forall|j: int|
                0 <= j < final(self).capacity() && j != index ==> final(self).bit_set(j) == old(
                    self,
                ).bit_set(j),
    {
        let block = index / 64;
        let bit = (index % 64) as u64;
        proof {
            vstd::arithmetic::div_mod::lemma_div_multiples_vanish_fancy(
                index as int / 64,
                index as int % 64,
                64,
            );
        }
        let w = self.bits[block];
        self.bits[block] = w | (1u64 << bit);
        proof {
            assert((w | (1u64 << bit)) & (1u64 << bit) != 0) by (bit_vector)
                requires
                    bit < 64,
            ;
            assert forall|j: int|
                0 <= j < final(self).capacity() && j != index implies final(self).bit_set(j) == old(
                self,
            ).bit_set(j) by {
                let jw = j / 64;
                let jb = (j % 64) as u64;
                vstd::arithmetic::div_mod::lemma_div_multiples_vanish_fancy(j / 64, j % 64, 64);
                if jw == block {
                    assert(jb != bit);
                    assert(((w | (1u64 << bit)) & (1u64 << jb) != 0) == (w & (1u64 << jb) != 0))
                        by (bit_vector)
                        requires
                            jb != bit,
                            jb < 64,
                            bit < 64,
                    ;
                }
            }
        }
    }

    /// Reads the bit at index `index`.
    pub fn contains(&self, index: usize) -> (r: bool)
        requires
            index < self.capacity(),
        ensures
            r == self.bit_set(index as int),
    {
        let block = index / 64;
        let bit = (index % 64) as u64;
        proof {
            vstd::arithmetic::div_mod::lemma_div_multiples_vanish_fancy(
                index as int / 64,
                index as int % 64,
                64,
            );
        }
        self.bits[block] & (1u64 << bit) != 0
    }

    /// Given inputs a and b, results in a = a|b and b = a|b: afterwards both
    /// sets hold exactly the union of the bits they held before.
    pub fn cross_or(&mut self, other: &mut Self)
        requires
            old(self).words().len() == old(other).words().len(),
        ensures
            final(self).words() == or_words(old(self).words(), old(other).words()),
            final(other).words() == final(self).words(),
            forall|i: int|
                0 <= i < old(self).capacity() ==> final(self).bit_set(i) == (old(self).bit_set(i)
                    || old(other).bit_set(i)),
    {
        let n = self.bits.len();
        let mut k: usize = 0;
        while k < n
            invariant
                n == old(self).words().len(),
                n == old(other).words().len(),
                self.words().len() == n,
                other.words().len() == n,
                k <= n,
                forall|j: int|
                    0 <= j < k ==> self.words()[j] == (old(self).words()[j] | old(
                        other,
                    ).words()[j]) && other.words()[j] == self.words()[j],
                forall|j: int|
                    k <= j < n ==> self.words()[j] == old(self).words()[j]
                        && other.words()[j] == old(other).words()[j],
            decreases n - k,
        {
            let val_a = self.bits[k];
            let val_b = other.bits[k];
            let val = val_a | val_b;
            self.bits[k] = val;
            other.bits[k] = val;
            k = k + 1;
        }
        proof {
            assert(self.words() =~= or_words(old(self).words(), old(other).words()));
            assert(other.words() =~= self.words());
            assert forall|i: int| 0 <= i < old(self).capacity() implies self.bit_set(i) == (old(
                self,
            ).bit_set(i) || old(other).bit_set(i)) by {
                lemma_or_words_bits(old(self).words(), old(other).words(), i);
            }
        }
    }
}

} // verus!
