//! The standard Bloom filter: a bit array of `m` bits probed `k` times per
//! key by double hashing.  Built mutably, then frozen into an immutable
//! reader.  Membership tests have no false negatives.

use vstd::prelude::*;

use crate::bit_array::{spec_bit, BitArray};
use crate::error::LsmError;
use crate::hashes::{composite_hash, spec_hash_h1, spec_hash_h2, CompositeHash};

verus! {

/// The `(h1, h2)` pair just before probe `j` (probes are numbered from 1):
/// after each probe, `h1 += h2` and `h2 *= j`, wrapping.
pub open spec fn std_probe_state(h1: u64, h2: u64, j: int) -> (u64, u64)
    decreases j,
{
    if j <= 1 {
        (h1, h2)
    } else {
        let prev = std_probe_state(h1, h2, j - 1);
        (
            vstd::wrapping::u64_specs::wrapping_add(prev.0, prev.1),
            vstd::wrapping::u64_specs::wrapping_mul(prev.1, (j - 1) as u64),
        )
    }
}

/// The bit position probe `j` touches in a filter of `m` bits.
pub open spec fn std_probe_pos(h1: u64, h2: u64, j: int, m: u64) -> int
    recommends
        m > 0,
{
    (std_probe_state(h1, h2, j).0 % m) as int
}

/// Whether all `k` probe positions of hash `(h1, h2)` are set in `bits`.
pub open spec fn spec_std_contains(bits: Seq<u8>, h1: u64, h2: u64, k: int, m: u64) -> bool {
    forall|j: int| 1 <= j <= k ==> spec_bit(bits, #[trigger] std_probe_pos(h1, h2, j, m))
}

/// No false negatives: once every probe position of a hash is set, it stays
/// reported as present in any filter of the same geometry whose set bits
/// include these, however many further keys were added.
pub proof fn lemma_std_no_false_negative(
    bits1: Seq<u8>,
    bits2: Seq<u8>,
    h1: u64,
    h2: u64,
    k: int,
    m: u64,
)
    requires
        0 < m <= bits1.len() * 8,
        bits1.len() == bits2.len(),
        spec_std_contains(bits1, h1, h2, k, m),
        forall|i: int| 0 <= i < bits1.len() * 8 && spec_bit(bits1, i) ==> spec_bit(bits2, i),
    ensures
        spec_std_contains(bits2, h1, h2, k, m),
{
    assert forall|j: int| 1 <= j <= k implies spec_bit(
        bits2,
        #[trigger] std_probe_pos(h1, h2, j, m),
    ) by {
        assert(spec_bit(bits1, std_probe_pos(h1, h2, j, m)));
        assert(0 <= std_probe_pos(h1, h2, j, m) < m);
    }
}

/// The geometry a well-formed standard filter keeps: the bit count matches
/// the backing bytes, is positive, and there are one to 255 probes.
/// Exported so that callers can apply the no-false-negative law to a
/// filter they only know to be well formed.
pub proof fn lemma_std_filter_geometry(f: &StandardBloomFilter)
    requires
        f.wf(),
    ensures
        0 < f.spec_m() <= u64::MAX,
        f.spec_m() == f.bits().len() * 8,
        1 <= f.spec_k() <= 255,
{
}

/// The same geometry, for the builder.
pub proof fn lemma_builder_geometry(b: &Builder)
    requires
        b.wf(),
    ensures
        0 < b.spec_m() <= u64::MAX,
        b.spec_m() == b.bits().len() * 8,
        1 <= b.spec_k() <= 255,
{
}

/// Two well-formed filters with the same encoding agree bit for bit and
/// probe for probe: the encoding pins the whole filter.
pub proof fn lemma_encoded_pins(f1: StandardBloomFilter, f2: StandardBloomFilter)
    requires
        f1.wf(),
        f2.wf(),
        f1.spec_encoded() == f2.spec_encoded(),
    ensures
        f1.bits() == f2.bits(),
        f1.spec_k() == f2.spec_k(),
        f1.spec_m() == f2.spec_m(),
{
    assert(f1.spec_encoded().len() == 1 + f1.bits().len());
    assert(f2.spec_encoded().len() == 1 + f2.bits().len());
    assert(f1.bits() =~= f2.bits()) by {
        assert forall|i: int| 0 <= i < f1.bits().len() implies f1.bits()[i] == f2.bits()[i] by {
            assert(f1.spec_encoded()[i + 1] == f1.bits()[i]);
            assert(f2.spec_encoded()[i + 1] == f2.bits()[i]);
        }
    }
    assert(f1.spec_encoded()[0] == f1.k as u8);
    assert(f2.spec_encoded()[0] == f2.k as u8);
    assert(f1.k == f2.k);
}

/// Mutable construction side of the standard Bloom filter.
#[derive(Debug, PartialEq, Eq)]
pub struct Builder {
    /// Raw bytes exposed as a bit array.
    inner: BitArray,
    /// Bit count.
    m: usize,
    /// Number of hash functions.
    k: usize,
}

/// Immutable read side of the standard Bloom filter.
#[derive(Clone, Debug, PartialEq, Eq)]
pub struct StandardBloomFilter {
    /// Raw bytes exposed as a bit array.
    inner: BitArray,
    /// Bit count.
    m: usize,
    /// Number of hash functions.
    k: usize,
}

/// `max(1, floor(bpk * ln 2))`, the probe count for `bpk` bits per key.
pub open spec fn spec_hash_fn_count(bpk: u8) -> int {
    let k = bpk * 693147 / 1000000;
    if k < 1 {
        1
    } else {
        k
    }
}

/// Computes `max(1, floor(bpk * ln 2))`.
fn hash_fn_count_for_bpk(bpk: u8) -> (r: usize)
    ensures
        r == spec_hash_fn_count(bpk),
        1 <= r <= 176,
{
    let k: usize = (bpk as usize) * 693147 / 1000000;
    if k < 1 {
        1
    } else {
        k
    }
}

impl Builder {
    /// The backing bits.
    pub closed spec fn bits(&self) -> Seq<u8> {
        self.inner@
    }

    /// Bit count of the filter under construction.
    pub closed spec fn spec_m(&self) -> int {
        self.m as int
    }

    /// Probe count of the filter under construction.
    pub closed spec fn spec_k(&self) -> int {
        self.k as int
    }

    /// A well-formed builder: the bit count matches the backing bytes and
    /// neither dimension is zero.
    pub closed spec fn wf(&self) -> bool {
        &&& self.m == self.inner@.len() * 8
        &&& self.m > 0
        &&& self.m <= u64::MAX
        &&& 1 <= self.k <= 255
    }

    /// Constructs a builder sized for `n` keys at `bpk` bits per key
    /// (rounded up to whole bytes), with `max(1, floor(bpk * ln 2))` hash
    /// functions.  Ten bits per key is a sensible default.
    pub fn with_bpk(n: usize, bpk: u8) -> (r: Builder)
        requires
            n >= 1,
            bpk >= 1,
            n * bpk + 7 <= usize::MAX,
        ensures
            r.wf(),
            r.spec_m() == ((n * bpk + 7) / 8) * 8,
            r.bits().len() * 8 == r.spec_m(),
            r.spec_k() == spec_hash_fn_count(bpk),
            forall|i: int| 0 <= i < r.spec_m() ==> !spec_bit(r.bits(), i),
    {
        let bits_wanted: usize = n * (bpk as usize);
        let num_bytes: usize = (bits_wanted + 7) / 8;
        let inner = BitArray::with_capacity(num_bytes);
        let k = hash_fn_count_for_bpk(bpk);
        proof {
            vstd::arithmetic::div_mod::lemma_fundamental_div_mod(bits_wanted + 7, 8);
            vstd::arithmetic::div_mod::lemma_mod_bound(bits_wanted + 7, 8);
            assert(num_bytes * 8 <= bits_wanted + 7);
            assert(bits_wanted >= 1) by (nonlinear_arith)
                requires
                    bits_wanted == n * bpk,
                    n >= 1,
                    bpk >= 1,
            ;
            assert(num_bytes >= 1);
        }
        Builder { inner, m: num_bytes * 8, k }
    }

    /// Freezes the builder into an immutable filter with the same bits and
    /// geometry.
    pub fn build(self) -> (r: StandardBloomFilter)
        ensures
            r.bits() == self.bits(),
            r.spec_m() == self.spec_m(),
            r.spec_k() == self.spec_k(),
            self.wf() ==> r.wf(),
    {
        StandardBloomFilter { inner: self.inner, m: self.m, k: self.k }
    }

    /// Adds a key hash to the filter: sets all its probe positions, leaving
    /// every other bit as it was.
    pub fn set_with_hash(&mut self, hash: CompositeHash)
        requires
            old(self).wf(),
        ensures
            final(self).wf(),
            final(self).spec_m() == old(self).spec_m(),
            final(self).spec_k() == old(self).spec_k(),
            final(self).bits().len() == old(self).bits().len(),
            forall|i: int|
                0 <= i < old(self).spec_m() && spec_bit(old(self).bits(), i) ==> spec_bit(
                    final(self).bits(),
                    i,
                ),
            spec_std_contains(
                final(self).bits(),
                hash.0,
                hash.1,
                final(self).spec_k(),
                final(self).spec_m() as u64,
            ),
    {
        let ghost h1_0 = hash.0;
        let ghost h2_0 = hash.1;
        let mut h1 = hash.0;
        let mut h2 = hash.1;
        let m64: u64 = self.m as u64;
        let mut i: usize = 1;
        while i <= self.k
            invariant
                h1_0 == hash.0,
                h2_0 == hash.1,
                1 <= i <= self.k + 1,
                self.wf(),
                self.m == old(self).m,
                self.k == old(self).k,
                m64 == self.m as u64,
                self.inner@.len() == old(self).inner@.len(),
                (h1, h2) == std_probe_state(h1_0, h2_0, i as int),
                forall|j: int|
                    0 <= j < self.spec_m() && spec_bit(old(self).bits(), j) ==> spec_bit(
                        self.bits(),
                        j,
                    ),
                forall|j: int|
                    1 <= j < i ==> spec_bit(self.bits(), #[trigger] std_probe_pos(
                        h1_0,
                        h2_0,
                        j,
                        m64,
                    )),
            decreases self.k + 1 - i,
        {
            let idx: u64 = h1 % m64;
            let ghost pre = self.inner@;
            self.inner.enable(idx as usize);
            proof {
                assert(std_probe_pos(h1_0, h2_0, i as int, m64) == idx as int);
                assert forall|j: int|
                    1 <= j < i + 1 implies spec_bit(self.bits(), #[trigger] std_probe_pos(
                    h1_0,
                    h2_0,
                    j,
                    m64,
                )) by {
                    let p = std_probe_pos(h1_0, h2_0, j, m64);
                    assert(0 <= p < m64);
                    if j < i {
                        assert(spec_bit(pre, p));
                    }
                }
            }
            h1 = h1.wrapping_add(h2);
            h2 = h2.wrapping_mul(i as u64);
            proof {
                assert(std_probe_state(h1_0, h2_0, i + 1) == (h1, h2));
            }
            i = i + 1;
        }
    }

    /// Hashes a key for insertion: the composite 128-bit xxh3 split into
    /// `(h1, h2)`.
    pub fn get_hash(key: &[u8]) -> (r: CompositeHash)
        ensures
            r.0 == spec_hash_h1(key@),
            r.1 == spec_hash_h2(key@),
    {
        composite_hash(key)
    }
}

impl StandardBloomFilter {
    /// The backing bits.
    pub closed spec fn bits(&self) -> Seq<u8> {
        self.inner@
    }

    /// Bit count.
    pub closed spec fn spec_m(&self) -> int {
        self.m as int
    }

    /// Probe count.
    pub closed spec fn spec_k(&self) -> int {
        self.k as int
    }

    /// A well-formed filter: geometry matches the backing bytes.
    pub closed spec fn wf(&self) -> bool {
        &&& self.m == self.inner@.len() * 8
        &&& self.m > 0
        &&& self.m <= u64::MAX
        &&& 1 <= self.k <= 255
    }

    /// Size of the filter in bytes.
    pub fn len(&self) -> (r: usize)
        ensures
            r == self.bits().len(),
    {
        self.inner.num_bytes()
    }

    /// Number of hashes used per lookup.
    pub fn hash_fn_count(&self) -> (r: usize)
        ensures
            r == self.spec_k(),
    {
        self.k
    }

    /// Whether the hash may be contained: true exactly when all its probe
    /// positions are set.  Never a false negative.
    pub fn contains_hash(&self, hash: CompositeHash) -> (r: bool)
        requires
            self.wf(),
        ensures
            r == spec_std_contains(self.bits(), hash.0, hash.1, self.spec_k(), self.spec_m() as u64),
    {
        let ghost h1_0 = hash.0;
        let ghost h2_0 = hash.1;
        let mut h1 = hash.0;
        let mut h2 = hash.1;
        let m64: u64 = self.m as u64;
        let mut i: usize = 1;
        while i <= self.k
            invariant
                h1_0 == hash.0,
                h2_0 == hash.1,
                1 <= i <= self.k + 1,
                self.wf(),
                m64 == self.m as u64,
                (h1, h2) == std_probe_state(h1_0, h2_0, i as int),
                forall|j: int|
                    1 <= j < i ==> spec_bit(self.bits(), #[trigger] std_probe_pos(
                        h1_0,
                        h2_0,
                        j,
                        m64,
                    )),
            decreases self.k + 1 - i,
        {
            let idx: u64 = h1 % m64;
            if !self.inner.get(idx as usize) {
                proof {
                    assert(std_probe_pos(h1_0, h2_0, i as int, m64) == idx as int);
                }
                return false;
            }
            proof {
                assert(std_probe_pos(h1_0, h2_0, i as int, m64) == idx as int);
            }
            h1 = h1.wrapping_add(h2);
            h2 = h2.wrapping_mul(i as u64);
            proof {
                assert(std_probe_state(h1_0, h2_0, i + 1) == (h1, h2));
            }
            i = i + 1;
        }
        true
    }

    /// Whether the key may be contained.  Never a false negative.
    pub fn contains(&self, key: &[u8]) -> (r: bool)
        requires
            self.wf(),
        ensures
            r == spec_std_contains(
                self.bits(),
                spec_hash_h1(key@),
                spec_hash_h2(key@),
                self.spec_k(),
                self.spec_m() as u64,
            ),
    {
        self.contains_hash(composite_hash(key))
    }

    /// Hashes a key for a lookup.
    pub fn get_hash(key: &[u8]) -> (r: CompositeHash)
        ensures
            r.0 == spec_hash_h1(key@),
            r.1 == spec_hash_h2(key@),
    {
        composite_hash(key)
    }

    /// The on-disk form of the filter: the probe count, then the raw bit
    /// array bytes.
    pub closed spec fn spec_encoded(&self) -> Seq<u8> {
        seq![self.k as u8] + self.bits()
    }

    /// Encodes the filter for the segment's filter block.
    pub fn encode(&self) -> (r: Vec<u8>)
        requires
            self.wf(),
        ensures
            r@ == self.spec_encoded(),
            r@.len() == 1 + self.bits().len(),
    {
        let mut out: Vec<u8> = Vec::new();
        out.push(self.k as u8);
        let mut i: usize = 0;
        let bytes = self.inner.bytes();
        while i < bytes.len()
            invariant
                0 <= i <= bytes@.len(),
                bytes@ == self.bits(),
                out@ == seq![self.k as u8] + self.bits().subrange(0, i as int),
            decreases bytes@.len() - i,
        {
            out.push(bytes[i]);
            proof {
                assert(out@ =~= seq![self.k as u8] + self.bits().subrange(0, i + 1));
            }
            i = i + 1;
        }
        proof {
            assert(out@ =~= self.spec_encoded());
        }
        out
    }

    /// Decodes a filter block written by `encode`.  Fails with `Corrupt` on
    /// an empty body or zero probe count.
    pub fn decode(bytes: &[u8]) -> (r: Result<StandardBloomFilter, LsmError>)
        ensures
            match r {
                Ok(f) => {
                    &&& f.wf()
                    &&& f.spec_encoded() == bytes@
                },
                Err(e) => {
                    &&& e == LsmError::Corrupt
                    &&& forall|f: StandardBloomFilter| f.wf() ==> f.spec_encoded() != bytes@
                },
            },
    {
        if bytes.len() < 2 {
            proof {
                assert forall|f: StandardBloomFilter| f.wf() implies f.spec_encoded() != bytes@ by {
                    assert(f.spec_encoded().len() >= 2);
                }
            }
            return Err(LsmError::Corrupt);
        }
        let k = bytes[0];
        if k == 0 {
            proof {
                assert forall|f: StandardBloomFilter| f.wf() implies f.spec_encoded() != bytes@ by {
                    assert(f.spec_encoded()[0] == f.spec_k() as u8);
                }
            }
            return Err(LsmError::Corrupt);
        }
        let mut body: Vec<u8> = Vec::new();
        let mut i: usize = 1;
        while i < bytes.len()
            invariant
                1 <= i <= bytes@.len(),
                body@ == bytes@.subrange(1, i as int),
            decreases bytes@.len() - i,
        {
            body.push(bytes[i]);
            proof {
                assert(body@ =~= bytes@.subrange(1, i + 1));
            }
            i = i + 1;
        }
        let num_bytes = body.len();
        if num_bytes > usize::MAX / 8 {
            proof {
                assert forall|f: StandardBloomFilter| f.wf() implies f.spec_encoded() != bytes@ by {
                    if f.spec_encoded() == bytes@ {
                        assert(f.bits() =~= bytes@.subrange(1, bytes@.len() as int));
                        assert(f.spec_m() == num_bytes * 8);
                    }
                }
            }
            return Err(LsmError::Corrupt);
        }
        let f = StandardBloomFilter {
            inner: BitArray::from_bytes(body),
            m: num_bytes * 8,
            k: k as usize,
        };
        proof {
            assert(f.spec_encoded() =~= bytes@);
        }
        Ok(f)
    }
}

} // verus!
