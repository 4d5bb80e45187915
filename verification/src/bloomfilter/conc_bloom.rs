//! A k-hash Bloom filter over the bit set, with locality bunching: hashes are
//! paired, the first of a pair picks a 256-bit-aligned window over the whole
//! array and the second picks a bit inside that window, which keeps the two
//! probes on the same cache line with no loss of correctness.

use vstd::prelude::*;
use crate::bitset::BitSet;

verus! {

/// Relies on rand::random: draws a fresh hash seed; nothing is promised of
/// the value.
#[verifier::external_body]
fn random_u64() -> u64 {
    rand::random::<u64>()
}

/// A 64-bit mixer: the seed is folded in and the bits are avalanched, so each
/// seed gives an independent hash function of the value.
pub open spec fn mix64(seed: u64, v: u64) -> u64 {
    let x0 = vstd::wrapping::u64_specs::wrapping_add(seed, v);
    let x1 = vstd::wrapping::u64_specs::wrapping_mul(x0 ^ (x0 >> 30), 0xbf58_476d_1ce4_e5b9);
    let x2 = vstd::wrapping::u64_specs::wrapping_mul(x1 ^ (x1 >> 27), 0x94d0_49bb_1331_11eb);
    x2 ^ (x2 >> 31)
}

fn hash_of(seed: u64, v: u64) -> (r: u64)
    ensures
        r == mix64(seed, v),
{
    let x0 = seed.wrapping_add(v);
    let x1 = (x0 ^ (x0 >> 30)).wrapping_mul(0xbf58_476d_1ce4_e5b9);
    let x2 = (x1 ^ (x1 >> 27)).wrapping_mul(0x94d0_49bb_1331_11eb);
    x2 ^ (x2 >> 31)
}

/// Whether `mask` is of the form 2^s - 1 with s < 64: the index mask of a
/// power-of-two-sized filter.
pub open spec fn is_index_mask(mask: u64) -> bool {
    mask < 0x8000_0000_0000_0000 && mask & ((mask + 1) as u64) == 0
}

/// The bit index that hash number `h` of value `v` selects. Even-numbered
/// hashes range over the whole array and anchor a 256-bit window; odd ones
/// pick a bit within the window their predecessor anchored.
pub open spec fn bloom_index(seeds: Seq<u64>, mask: u64, v: u64, h: int) -> u64
    decreases h,
{
    if 0 < h && h % 2 == 1 {
        let base = bloom_index(seeds, mask, v, h - 1) & !255u64;
        let off = mix64(seeds[h], v) & 255u64 & mask;
        (base + off) as u64
    } else {
        mix64(seeds[h], v) & mask
    }
}

/// Every selected index stays within the mask.
pub proof fn lemma_bloom_index_bound(seeds: Seq<u64>, mask: u64, v: u64, h: int)
    requires
        is_index_mask(mask),
        0 <= h,
    ensures
        bloom_index(seeds, mask, v, h) <= mask,
    decreases h,
{
    if !(0 < h && h % 2 == 1) {
        let x = mix64(seeds[h], v);
        assert(x & mask <= mask) by (bit_vector);
    } else {
        lemma_bloom_index_bound(seeds, mask, v, h - 1);
        let e = bloom_index(seeds, mask, v, h - 1);
        let x = mix64(seeds[h], v);
        assert((e & !255u64) + (x & 255u64 & mask) <= mask) by (bit_vector)
            requires
                e <= mask,
                mask < 0x8000_0000_0000_0000u64,
                mask & ((mask + 1) as u64) == 0,
        ;
    }
}

/// Sizing and seed choice for a family of Bloom filters that place any given
/// item at identical bit positions.
pub struct Builder {
    hash_seeds: Vec<u64>,
    size: u64,
    mask: u64,
}

impl Builder {
    pub closed spec fn seeds(&self) -> Seq<u64> {
        self.hash_seeds@
    }

    pub closed spec fn mask_spec(&self) -> u64 {
        self.mask
    }

    pub closed spec fn wf(&self) -> bool {
        &&& is_index_mask(self.mask)
        &&& self.size == self.mask + 1
        &&& self.size + 63 <= usize::MAX
        &&& self.mask < usize::MAX
    }

    /// Takes size (in bits) and number of hashes; the size is rounded up to
    /// the next power of two and that many independent seeds are drawn.
    pub fn new(size: usize, hashes: usize) -> (r: Self)
        requires
            1 <= size,
            2 * size + 63 <= usize::MAX,
        ensures
            r.wf(),
            r.seeds().len() == hashes,
            size <= r.mask_spec() + 1 < 2 * size,
    {
        let mut hash_seeds: Vec<u64> = Vec::with_capacity(hashes);
        let mut k: usize = 0;
        while k < hashes
            invariant
                k <= hashes,
                hash_seeds@.len() == k,
            decreases hashes - k,
        {
            hash_seeds.push(random_u64());
            k = k + 1;
        }

        // Round size up to the next power of two.
        let size64 = size as u64;
        let lz = size64.leading_zeros();
        proof {
            vstd::std_specs::bits::axiom_u64_leading_zeros(size64);
        }
        let size_bits: u32 = 64 - lz - 1;
        let ghost s0: u64 = size_bits as u64;
        proof {
            let lzg = vstd::std_specs::bits::u64_leading_zeros(size64);
            assert(lzg < 64);
            assert((size64 >> ((63 - lzg) as u64)) & 1u64 != 0u64);
            assert(size64 >> ((64 - lzg) as u64) == 0u64);
            assert(s0 == (63 - lzg) as u64);
            assert(size64 >= (1u64 << s0)) by (bit_vector)
                requires
                    (size64 >> s0) & 1u64 != 0u64,
                    s0 < 64,
            ;
            assert(s0 < 63 ==> size64 < (1u64 << ((s0 + 1) as u64))) by (bit_vector)
                requires
                    size64 >> ((s0 + 1) as u64) == 0u64,
                    s0 < 64,
            ;
        }
        let rounded: u64;
        if 1u64 << size_bits < size64 {
            proof {
                assert(s0 < 63) by (bit_vector)
                    requires
                        (1u64 << s0) < size64,
                        size64 <= 0x8000_0000_0000_0000u64,
                        s0 < 64,
                ;
                assert((1u64 << ((s0 + 1) as u64)) as int == 2 * ((1u64 << s0) as int))
                    by (bit_vector)
                    requires
                        s0 < 63,
                ;
            }
            rounded = 1u64 << (size_bits + 1);
        } else {
            rounded = 1u64 << size_bits;
        }
        proof {
            let ghost sb: u64 = if 1u64 << s0 < size64 {
                (s0 + 1) as u64
            } else {
                s0
            };
            assert(rounded == 1u64 << sb);
            assert((1u64 << sb) >= 1 && ((((1u64 << sb) as int) - 1) as u64) & (1u64 << sb) == 0
                && (1u64 << sb) <= 0x8000_0000_0000_0000u64) by (bit_vector)
                requires
                    sb < 64,
            ;
        }
        let mask = rounded - 1;
        Builder { hash_seeds, size: rounded, mask }
    }

    /// Builds a filter with this builder's size and this builder's seeds, so
    /// that sibling filters agree on every bit position.
    pub fn build(&self) -> (r: BloomFilter)
        requires
            self.wf(),
        ensures
            r.wf(),
            r.seeds() == self.seeds(),
            r.mask_spec() == self.mask_spec(),
            forall|i: int| 0 <= i < r.capacity() ==> !r.bit(i),
    {
        let mut hash_seeds: Vec<u64> = Vec::with_capacity(self.hash_seeds.len());
        let mut k: usize = 0;
        while k < self.hash_seeds.len()
            invariant
                k <= self.hash_seeds@.len(),
                hash_seeds@.len() == k,
                forall|j: int| 0 <= j < k ==> hash_seeds@[j] == self.hash_seeds@[j],
            decreases self.hash_seeds@.len() - k,
        {
            hash_seeds.push(self.hash_seeds[k]);
            k = k + 1;
        }
        proof {
            assert(hash_seeds@ =~= self.hash_seeds@);
        }
        let bits = BitSet::new(self.size as usize);
        BloomFilter { hash_seeds, bits, mask: self.mask }
    }

    /// Builds the filter destined for one NUMA shard; placement is a locality
    /// concern only, so the filter contents are the same as `build`'s.
    pub fn on_node(&self, node_id: u32) -> (r: BloomFilter)
        requires
            self.wf(),
        ensures
            r.wf(),
            r.seeds() == self.seeds(),
            r.mask_spec() == self.mask_spec(),
            forall|i: int| 0 <= i < r.capacity() ==> !r.bit(i),
    {
        let _ = node_id;
        self.build()
    }
}

/// A Bloom filter: k seeded hash functions over a shared bit set.
pub struct BloomFilter {
    hash_seeds: Vec<u64>,
    bits: BitSet,
    mask: u64,
}

impl BloomFilter {
    pub closed spec fn seeds(&self) -> Seq<u64> {
        self.hash_seeds@
    }

    pub closed spec fn mask_spec(&self) -> u64 {
        self.mask
    }

    /// The backing words of the bit array.
    pub closed spec fn words(&self) -> Seq<u64> {
        self.bits.words()
    }

    pub open spec fn capacity(&self) -> int {
        self.words().len() as int * 64
    }

    /// Whether bit `i` of the backing array is set.
    pub closed spec fn bit(&self, i: int) -> bool {
        self.bits.bit_set(i)
    }

    pub closed spec fn wf(&self) -> bool {
        &&& is_index_mask(self.mask)
        &&& self.mask < usize::MAX
        &&& self.mask < self.bits.capacity()
        &&& self.bits.words().len() == (self.mask + 1 + 63) / 64
    }

    pub proof fn wf_facts(&self)
        requires
            self.wf(),
        ensures
            is_index_mask(self.mask_spec()),
            self.mask_spec() < self.capacity(),
            self.words().len() == (self.mask_spec() + 1 + 63) / 64,
    {
    }

    /// What `maybe_present` answers: every one of the k selected bits is set.
    pub open spec fn spec_maybe_present(&self, v: u64) -> bool {
        forall|h: int|
            0 <= h < self.seeds().len() ==> self.bit(
                #[trigger] bloom_index(self.seeds(), self.mask_spec(), v, h) as int,
            )
    }

    pub fn new(size: usize, hashes: usize) -> (r: Self)
        requires
            1 <= size,
            2 * size + 63 <= usize::MAX,
        ensures
            r.wf(),
            r.seeds().len() == hashes,
            size <= r.mask_spec() + 1 < 2 * size,
            forall|i: int| 0 <= i < r.capacity() ==> !r.bit(i),
    {
        Builder::new(size, hashes).build()
    }

    /// Tests the k bit positions of `val`: true iff every one is set. A false
    /// answer is definite; a true answer may be a false positive.
    #[verifier::rlimit(50)]
    pub fn maybe_present(&self, val: &u64) -> (r: bool)
        requires
            self.wf(),
        ensures
            r == self.spec_maybe_present(*val),
    {
        let v = *val;
        let k = self.hash_seeds.len();
        let mut h: usize = 0;
        let mut prev: u64 = 0;
        while h < k
            invariant
                self.wf(),
                v == *val,
                k == self.seeds().len(),
                h <= k,
                h >= 1 ==> prev == bloom_index(self.seeds(), self.mask_spec(), v, h - 1),
                forall|g: int|
                    0 <= g < h ==> self.bit(
                        #[trigger] bloom_index(self.seeds(), self.mask_spec(), v, g) as int,
                    ),
            decreases k - h,
        {
            let index = self.index_at(h, prev, v);
            proof {
                lemma_bloom_index_bound(self.seeds(), self.mask_spec(), v, h as int);
            }
            let present = self.bits.contains(index as usize);
            if !present {
                proof {
                    let hh = h as int;
                    assert(index <= self.mask_spec());
                    assert((index as usize) as int == index as int);
                    assert(!self.bit(index as int));
                    assert(index == bloom_index(self.seeds(), self.mask_spec(), *val, hh));
                    assert(!self.bit(bloom_index(self.seeds(), self.mask_spec(), *val, hh) as int));
                    assert(!self.spec_maybe_present(*val));
                }
                return false;
            }
            prev = index;
            h = h + 1;
        }
        true
    }

    /// Computes the bit index of hash `h`, reusing the previous index as the
    /// window anchor for the odd hash of each pair.
    fn index_at(&self, h: usize, prev: u64, v: u64) -> (index: u64)
        requires
            self.wf(),
            h < self.seeds().len(),
            h % 2 == 1 ==> prev == bloom_index(self.seeds(), self.mask_spec(), v, h - 1),
        ensures
            index == bloom_index(self.seeds(), self.mask_spec(), v, h as int),
    {
        let raw = hash_of(self.hash_seeds[h], v);
        if h % 2 == 0 {
            raw & self.mask
        } else {
            proof {
                lemma_bloom_index_bound(self.seeds(), self.mask_spec(), v, h - 1);
                let e = prev;
                let mask = self.mask;
                assert((e & !255u64) + (raw & 255u64 & mask) <= mask) by (bit_vector)
                    requires
                        e <= mask,
                        mask < 0x8000_0000_0000_0000u64,
                        mask & ((mask + 1) as u64) == 0,
                ;
            }
            (prev & !255u64) + (raw & 255u64 & self.mask)
        }
    }

    /// Sets the k bit positions of `val`.
    #[verifier::rlimit(50)]
    pub fn put(&mut self, val: &u64)
        requires
            old(self).wf(),
        ensures
            final(self).wf(),
            final(self).seeds() == old(self).seeds(),
            final(self).mask_spec() == old(self).mask_spec(),
            final(self).words().len() == old(self).words().len(),
            forall|j: int| 0 <= j < old(self).capacity() && old(self).bit(j) ==> final(self).bit(j),
            forall|j: int|
                0 <= j < old(self).capacity() && final(self).bit(j) ==> old(self).bit(j) || exists|
                    h: int,
                |
                    0 <= h < old(self).seeds().len() && j == bloom_index(
                        old(self).seeds(),
                        old(self).mask_spec(),
                        *val,
                        h,
                    ) as int,
            final(self).spec_maybe_present(*val),
    {
        let v = *val;
        let k = self.hash_seeds.len();
        let mut h: usize = 0;
        let mut prev: u64 = 0;
        while h < k
            invariant
                self.wf(),
                v == *val,
                self.seeds() == old(self).seeds(),
                self.mask_spec() == old(self).mask_spec(),
                self.words().len() == old(self).words().len(),
                k == self.seeds().len(),
                h <= k,
                h >= 1 ==> prev == bloom_index(self.seeds(), self.mask_spec(), v, h - 1),
                forall|j: int|
                    0 <= j < old(self).capacity() && old(self).bit(j) ==> self.bit(j),
                forall|j: int|
                    0 <= j < old(self).capacity() && self.bit(j) ==> old(self).bit(j) || exists|
                        g: int,
                    |
                        0 <= g < h && j == bloom_index(
                            self.seeds(),
                            self.mask_spec(),
                            v,
                            g,
                        ) as int,
                forall|g: int|
                    0 <= g < h ==> self.bit(
                        #[trigger] bloom_index(self.seeds(), self.mask_spec(), v, g) as int,
                    ),
            decreases k - h,
        {
            let index = self.index_at(h, prev, v);
            proof {
                lemma_bloom_index_bound(self.seeds(), self.mask_spec(), v, h as int);
            }
            let ghost pre = *self;
            self.bits.insert(index as usize);
            proof {
                assert(self.bit(index as int));
                assert forall|j: int|
                    0 <= j < old(self).capacity() && self.bit(j) implies old(self).bit(j) || exists|
                    g: int,
                |
                    0 <= g < h + 1 && j == bloom_index(
                        self.seeds(),
                        self.mask_spec(),
                        v,
                        g,
                    ) as int by {
                    if j == index as int {
                        assert(0 <= (h as int) < h + 1 && j == bloom_index(
                            self.seeds(),
                            self.mask_spec(),
                            v,
                            h as int,
                        ) as int);
                    } else {
                        assert(self.bit(j) == pre.bit(j));
                        if !old(self).bit(j) {
                            let g = choose|g: int|
                                0 <= g < h && j == bloom_index(
                                    pre.seeds(),
                                    pre.mask_spec(),
                                    v,
                                    g,
                                ) as int;
                            assert(0 <= g < h + 1 && j == bloom_index(
                                self.seeds(),
                                self.mask_spec(),
                                v,
                                g,
                            ) as int);
                        }
                    }
                }
                assert forall|g: int| 0 <= g < h + 1 implies self.bit(
                    #[trigger] bloom_index(self.seeds(), self.mask_spec(), v, g) as int,
                ) by {
                    if g < h {
                        let jj = bloom_index(self.seeds(), self.mask_spec(), v, g) as int;
                        assert(pre.bit(jj));
                        lemma_bloom_index_bound(self.seeds(), self.mask_spec(), v, g);
                        if jj != index as int {
                            assert(self.bit(jj) == pre.bit(jj));
                        }
                    }
                }
            }
            prev = index;
            h = h + 1;
        }
    }

    /// Merges two filters with identical masks so both end up holding the
    /// union of their bits.
    pub fn cross_or(&mut self, other: &mut Self)
        requires
            old(self).wf(),
            old(other).wf(),
            old(self).mask_spec() == old(other).mask_spec(),
        ensures
            final(self).wf(),
            final(other).wf(),
            final(self).seeds() == old(self).seeds(),
            final(other).seeds() == old(other).seeds(),
            final(self).mask_spec() == old(self).mask_spec(),
            final(other).mask_spec() == old(other).mask_spec(),
            final(self).words() == crate::bitset::or_words(old(self).words(), old(other).words()),
            final(other).words() == final(self).words(),
            forall|i: int|
                0 <= i < old(self).capacity() ==> final(self).bit(i) == (old(self).bit(i) || old(
                    other,
                ).bit(i)),
            forall|i: int|
                0 <= i < old(self).capacity() ==> final(other).bit(i) == (old(self).bit(i) || old(
                    other,
                ).bit(i)),
    {
        self.bits.cross_or(&mut other.bits);
        proof {
            assert forall|i: int| 0 <= i < old(self).capacity() implies other.bit(i) == (old(
                self,
            ).bit(i) || old(other).bit(i)) by {
                assert(other.bits.words() == self.bits.words());
            }
        }
    }
}


/// Law: no false negatives. Once `maybe_present(v)` holds of a filter, it
/// keeps holding in any filter with the same seeds and mask whose bit array
/// includes every bit of the first — in particular after further `put`s and
/// after any `cross_or`.
pub proof fn lemma_no_false_negative(before: BloomFilter, after: BloomFilter, v: u64)
    requires
        before.wf(),
        before.seeds() == after.seeds(),
        before.mask_spec() == after.mask_spec(),
        before.spec_maybe_present(v),
        forall|j: int| 0 <= j < before.capacity() && before.bit(j) ==> after.bit(j),
    ensures
        after.spec_maybe_present(v),
{
    assert forall|h: int| 0 <= h < after.seeds().len() implies after.bit(
        #[trigger] bloom_index(after.seeds(), after.mask_spec(), v, h) as int,
    ) by {
        lemma_bloom_index_bound(before.seeds(), before.mask_spec(), v, h);
        assert(before.bit(bloom_index(before.seeds(), before.mask_spec(), v, h) as int));
    }
}

/// Filters whose backing words are equal hold exactly the same bits.
pub proof fn lemma_words_equal_bits(a: BloomFilter, b: BloomFilter, j: int)
    requires
        a.words() == b.words(),
    ensures
        a.bit(j) == b.bit(j),
{
    assert(a.bit(j) == crate::bitset::word_bit(a.words(), j));
    assert(b.bit(j) == crate::bitset::word_bit(b.words(), j));
}

/// Law: two filters with identical seeds and masks whose bit arrays have been
/// made equal — as `cross_or` leaves them — answer `maybe_present` identically
/// for every value.
pub proof fn lemma_merged_filters_agree(a: BloomFilter, b: BloomFilter, v: u64)
    requires
        a.seeds() == b.seeds(),
        a.mask_spec() == b.mask_spec(),
        a.words() == b.words(),
    ensures
        a.spec_maybe_present(v) == b.spec_maybe_present(v),
{
    assert forall|j: int| true implies a.bit(j) == b.bit(j) by {
        assert(a.bit(j) == crate::bitset::word_bit(a.words(), j));
        assert(b.bit(j) == crate::bitset::word_bit(b.words(), j));
    }
}

} // verus!
