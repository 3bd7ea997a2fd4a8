//! The cache-line-blocked Bloom filter: the bit array is partitioned into
//! 64-byte (512-bit) blocks, each key hashes to one block, and all its
//! probes land inside that block.  Trades a slight false-positive increase
//! for one cache miss per lookup.

use vstd::prelude::*;

use crate::bit_array::{spec_bit, BitArray};
use crate::hashes::{composite_hash, spec_hash_h1, spec_hash_h2, CompositeHash};
use crate::standard_bloom::spec_hash_fn_count;

verus! {

/// Bits per block: one 64-byte cache line.
pub open spec fn block_bits() -> int {
    512
}

/// The `(h1, h2)` pair just before probe `j` (probes numbered from 1):
/// after each probe, `h1 += h2` and `h2 += j`, wrapping.
pub open spec fn blocked_probe_state(h1: u64, h2: u64, j: int) -> (u64, u64)
    decreases j,
{
    if j <= 1 {
        (h1, h2)
    } else {
        let prev = blocked_probe_state(h1, h2, j - 1);
        (
            vstd::wrapping::u64_specs::wrapping_add(prev.0, prev.1),
            vstd::wrapping::u64_specs::wrapping_add(prev.1, (j - 1) as u64),
        )
    }
}

/// The block a hash belongs to: `h1 mod num_blocks`.
pub open spec fn blocked_block_idx(h1: u64, num_blocks: u64) -> int
    recommends
        num_blocks > 0,
{
    (h1 % num_blocks) as int
}

/// The absolute bit position probe `j` touches: position `h1' mod 512`
/// inside the key's block.
pub open spec fn blocked_probe_pos(h1: u64, h2: u64, j: int, num_blocks: u64) -> int
    recommends
        num_blocks > 0,
{
    blocked_block_idx(h1, num_blocks) * block_bits() + (blocked_probe_state(h1, h2, j).0 % 512) as int
}

/// Whether all `k` probe positions of hash `(h1, h2)` are set in `bits`.
pub open spec fn spec_blocked_contains(
    bits: Seq<u8>,
    h1: u64,
    h2: u64,
    k: int,
    num_blocks: u64,
) -> bool {
    forall|j: int| 1 <= j <= k ==> spec_bit(bits, #[trigger] blocked_probe_pos(h1, h2, j, num_blocks))
}

/// No false negatives for the blocked variant: once every probe position of
/// a hash is set, any same-geometry filter whose set bits include these
/// still reports it present.
pub proof fn lemma_blocked_no_false_negative(
    bits1: Seq<u8>,
    bits2: Seq<u8>,
    h1: u64,
    h2: u64,
    k: int,
    num_blocks: u64,
)
    requires
        num_blocks > 0,
        bits1.len() == bits2.len(),
        bits1.len() * 8 == num_blocks * block_bits(),
        spec_blocked_contains(bits1, h1, h2, k, num_blocks),
        forall|i: int| 0 <= i < bits1.len() * 8 && spec_bit(bits1, i) ==> spec_bit(bits2, i),
    ensures
        spec_blocked_contains(bits2, h1, h2, k, num_blocks),
{
    assert forall|j: int| 1 <= j <= k implies spec_bit(
        bits2,
        #[trigger] blocked_probe_pos(h1, h2, j, num_blocks),
    ) by {
        let p = blocked_probe_pos(h1, h2, j, num_blocks);
        assert(spec_bit(bits1, p));
        assert(blocked_block_idx(h1, num_blocks) <= num_blocks - 1);
        assert(p < num_blocks * block_bits());
    }
}

/// The geometry a well-formed blocked filter keeps: whole 64-byte blocks,
/// at least one of them, and one to 255 probes.  Exported so that callers
/// can apply the no-false-negative law to a filter they only know to be
/// well formed.
pub proof fn lemma_blocked_filter_geometry(f: &BlockedBloomFilter)
    requires
        f.wf(),
    ensures
        f.spec_num_blocks() >= 1,
        f.spec_num_blocks() <= u64::MAX,
        f.bits().len() == f.spec_num_blocks() * 64,
        f.bits().len() * 8 == f.spec_num_blocks() * block_bits(),
        1 <= f.spec_k() <= 255,
{
    assert(f.bits().len() * 8 == f.spec_num_blocks() * 512) by (nonlinear_arith)
        requires
            f.bits().len() == f.spec_num_blocks() * 64,
    ;
}

/// A blocked Bloom filter; built by `set_with_hash`, read by `contains`.
#[derive(Clone, Debug, PartialEq, Eq)]
pub struct BlockedBloomFilter {
    /// Raw bytes exposed as a bit array.
    inner: BitArray,
    /// Number of hash functions.
    k: usize,
    /// Number of 64-byte blocks in the filter.
    num_blocks: usize,
}

impl BlockedBloomFilter {
    /// The backing bits.
    pub closed spec fn bits(&self) -> Seq<u8> {
        self.inner@
    }

    /// Probe count.
    pub closed spec fn spec_k(&self) -> int {
        self.k as int
    }

    /// Block count.
    pub closed spec fn spec_num_blocks(&self) -> int {
        self.num_blocks as int
    }

    /// A well-formed filter: whole blocks, at least one.
    pub closed spec fn wf(&self) -> bool {
        &&& self.inner@.len() == self.num_blocks * 64
        &&& self.num_blocks > 0
        &&& self.num_blocks * 512 <= usize::MAX
        &&& 1 <= self.k <= 255
    }

    /// Returns the size of the filter in bytes.
    pub fn len(&self) -> (r: usize)
        ensures
            r == self.bits().len(),
    {
        self.inner.num_bytes()
    }

    /// Returns the amount of hashes used per lookup.
    pub fn hash_fn_count(&self) -> (r: usize)
        ensures
            r == self.spec_k(),
    {
        self.k
    }

    /// Builds a filter from a probe count and raw bytes spanning whole
    /// 64-byte blocks.
    pub fn from_raw(k: usize, bytes: Vec<u8>) -> (r: BlockedBloomFilter)
        requires
            1 <= k <= 255,
            bytes@.len() % 64 == 0,
            bytes@.len() > 0,
            bytes@.len() * 8 <= usize::MAX,
        ensures
            r.wf(),
            r.bits() == bytes@,
            r.spec_k() == k,
            r.spec_num_blocks() * 64 == bytes@.len(),
    {
        let num_blocks = bytes.len() / 64;
        proof {
            vstd::arithmetic::div_mod::lemma_fundamental_div_mod(bytes@.len() as int, 64);
        }
        BlockedBloomFilter { inner: BitArray::from_bytes(bytes), k, num_blocks }
    }

    /// Constructs a filter that can hold `n` items with `bpk` bits per key:
    /// `n * bpk` bits rounded up to whole 64-byte blocks, with
    /// `max(1, floor(bpk * ln 2))` hash functions, all bits clear.
    pub fn with_bpk(n: usize, bpk: u8) -> (r: BlockedBloomFilter)
        requires
            n >= 1,
            bpk >= 1,
            n * bpk + 511 <= usize::MAX,
        ensures
            r.wf(),
            r.spec_num_blocks() == (n * bpk + 511) / 512,
            r.bits().len() == r.spec_num_blocks() * 64,
            r.spec_k() == spec_hash_fn_count(bpk),
            forall|i: int| 0 <= i < r.bits().len() * 8 ==> !spec_bit(r.bits(), i),
    {
        let bits_wanted: usize = n * (bpk as usize);
        let num_blocks: usize = (bits_wanted + 511) / 512;
        let k: usize = (bpk as usize) * 693147 / 1000000;
        let k = if k < 1 {
            1
        } else {
            k
        };
        proof {
            vstd::arithmetic::div_mod::lemma_fundamental_div_mod(bits_wanted + 511, 512);
            vstd::arithmetic::div_mod::lemma_mod_bound(bits_wanted + 511, 512);
            assert(num_blocks * 512 <= bits_wanted + 511);
            assert(bits_wanted >= 1) by (nonlinear_arith)
                requires
                    bits_wanted == n * bpk,
                    n >= 1,
                    bpk >= 1,
            ;
            assert(num_blocks >= 1);
        }
        let inner = BitArray::with_capacity(num_blocks * 64);
        BlockedBloomFilter { inner, k, num_blocks }
    }

    /// Whether the hash may be contained: true exactly when all its probe
    /// positions inside its block are set.  Never a false negative.
    pub fn contains_hash(&self, hash: CompositeHash) -> (r: bool)
        requires
            self.wf(),
        ensures
            r == spec_blocked_contains(
                self.bits(),
                hash.0,
                hash.1,
                self.spec_k(),
                self.spec_num_blocks() as u64,
            ),
    {
        let ghost h1_0 = hash.0;
        let ghost h2_0 = hash.1;
        let nb: u64 = self.num_blocks as u64;
        let block_idx: u64 = hash.0 % nb;
        let block_base: usize = (block_idx as usize) * 64 * 8;
        let mut h1 = hash.0;
        let mut h2 = hash.1;
        let mut i: usize = 1;
        proof {
            assert(self.bits().len() * 8 == self.num_blocks * 512) by (nonlinear_arith)
                requires
                    self.bits().len() == self.num_blocks * 64,
            ;
            assert(block_idx * 512 + 512 <= nb * 512);
        }
        while i <= self.k
            invariant
                h1_0 == hash.0,
                h2_0 == hash.1,
                1 <= i <= self.k + 1,
                self.wf(),
                nb == self.num_blocks as u64,
                block_idx == hash.0 % nb,
                block_base == block_idx * 512,
                block_base + 512 <= self.bits().len() * 8,
                (h1, h2) == blocked_probe_state(h1_0, h2_0, i as int),
                forall|j: int|
                    1 <= j < i ==> spec_bit(self.bits(), #[trigger] blocked_probe_pos(
                        h1_0,
                        h2_0,
                        j,
                        nb,
                    )),
            decreases self.k + 1 - i,
        {
            let idx: u64 = h1 % 512;
            proof {
                let st = blocked_probe_state(h1_0, h2_0, i as int);
                assert(h1 == st.0);
                assert(idx == st.0 % 512);
                assert(blocked_block_idx(h1_0, nb) == block_idx as int);
                assert(blocked_probe_pos(h1_0, h2_0, i as int, nb) == (block_idx as int) * 512 + (
                idx as int));
                assert(block_base as int == (block_idx as int) * 512);
                assert(blocked_probe_pos(h1_0, h2_0, i as int, nb) == block_base + idx);
            }
            if !self.inner.get(block_base + idx as usize) {
                return false;
            }
            proof {
                assert(blocked_probe_pos(h1_0, h2_0, i as int, nb) == block_base + idx);
            }
            h1 = h1.wrapping_add(h2);
            h2 = h2.wrapping_add(i as u64);
            proof {
                assert(blocked_probe_state(h1_0, h2_0, i + 1) == (h1, h2));
            }
            i = i + 1;
        }
        true
    }

    /// Whether the key may be contained.  Never a false negative.
    pub fn contains(&self, key: &[u8]) -> (r: bool)
        requires
            self.wf(),
        ensures
            r == spec_blocked_contains(
                self.bits(),
                spec_hash_h1(key@),
                spec_hash_h2(key@),
                self.spec_k(),
                self.spec_num_blocks() as u64,
            ),
    {
        self.contains_hash(composite_hash(key))
    }

    /// Adds a key hash: sets all its probe positions inside its block,
    /// leaving every other bit as it was.
    pub fn set_with_hash(&mut self, hash: CompositeHash)
        requires
            old(self).wf(),
        ensures
            final(self).wf(),
            final(self).spec_k() == old(self).spec_k(),
            final(self).spec_num_blocks() == old(self).spec_num_blocks(),
            final(self).bits().len() == old(self).bits().len(),
            forall|i: int|
                0 <= i < old(self).bits().len() * 8 && spec_bit(old(self).bits(), i) ==> spec_bit(
                    final(self).bits(),
                    i,
                ),
            spec_blocked_contains(
                final(self).bits(),
                hash.0,
                hash.1,
                final(self).spec_k(),
                final(self).spec_num_blocks() as u64,
            ),
    {
        let ghost h1_0 = hash.0;
        let ghost h2_0 = hash.1;
        let nb: u64 = self.num_blocks as u64;
        let block_idx: u64 = hash.0 % nb;
        let block_base: usize = (block_idx as usize) * 64 * 8;
        let mut h1 = hash.0;
        let mut h2 = hash.1;
        let mut i: usize = 1;
        proof {
            assert(self.bits().len() * 8 == self.num_blocks * 512) by (nonlinear_arith)
                requires
                    self.bits().len() == self.num_blocks * 64,
            ;
            assert(block_idx * 512 + 512 <= nb * 512);
        }
        while i <= self.k
            invariant
                h1_0 == hash.0,
                h2_0 == hash.1,
                1 <= i <= self.k + 1,
                self.wf(),
                self.k == old(self).k,
                self.num_blocks == old(self).num_blocks,
                self.inner@.len() == old(self).inner@.len(),
                nb == self.num_blocks as u64,
                block_idx == hash.0 % nb,
                block_base == block_idx * 512,
                block_base + 512 <= self.bits().len() * 8,
                (h1, h2) == blocked_probe_state(h1_0, h2_0, i as int),
                forall|j: int|
                    0 <= j < self.bits().len() * 8 && spec_bit(old(self).bits(), j) ==> spec_bit(
                        self.bits(),
                        j,
                    ),
                forall|j: int|
                    1 <= j < i ==> spec_bit(self.bits(), #[trigger] blocked_probe_pos(
                        h1_0,
                        h2_0,
                        j,
                        nb,
                    )),
            decreases self.k + 1 - i,
        {
            let idx: u64 = h1 % 512;
            let ghost pre = self.inner@;
            self.inner.enable(block_base + idx as usize);
            proof {
                assert(blocked_probe_pos(h1_0, h2_0, i as int, nb) == block_base + idx);
                assert forall|j: int|
                    1 <= j < i + 1 implies spec_bit(self.bits(), #[trigger] blocked_probe_pos(
                    h1_0,
                    h2_0,
                    j,
                    nb,
                )) by {
                    let p = blocked_probe_pos(h1_0, h2_0, j, nb);
                    assert(blocked_block_idx(h1_0, nb) <= nb - 1);
                    assert(0 <= p < self.bits().len() * 8);
                    if j < i {
                        assert(spec_bit(pre, p));
                    }
                }
            }
            h1 = h1.wrapping_add(h2);
            h2 = h2.wrapping_add(i as u64);
            proof {
                assert(blocked_probe_state(h1_0, h2_0, i + 1) == (h1, h2));
            }
            i = i + 1;
        }
    }

    /// Hashes a key: the composite 128-bit xxh3 split into `(h1, h2)`.
    pub fn get_hash(key: &[u8]) -> (r: CompositeHash)
        ensures
            r.0 == spec_hash_h1(key@),
            r.1 == spec_hash_h2(key@),
    {
        composite_hash(key)
    }
}

} // verus!
