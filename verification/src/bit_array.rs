//! A byte-backed bit array: the bit store under both Bloom filter variants.

use vstd::prelude::*;

verus! {

/// Whether bit `j` of byte `b` is set.
pub open spec fn u8_bit(b: u8, j: u8) -> bool {
    (b >> j) & 1 == 1
}

/// Whether bit `i` of a byte string is set (bit `i % 8` of byte `i / 8`).
pub open spec fn spec_bit(bytes: Seq<u8>, i: int) -> bool
    recommends
        0 <= i < bytes.len() * 8,
{
    u8_bit(bytes[i / 8], (i % 8) as u8)
}

/// The zero byte has no bit set.
pub proof fn lemma_u8_zero_bit(j: u8)
    requires
        j < 8,
    ensures
        !u8_bit(0u8, j),
{
    assert((0u8 >> j) & 1 != 1) by (bit_vector);
}

/// Setting bit `k` of a byte sets exactly that bit.
pub proof fn lemma_u8_set_bit(b: u8, k: u8, j: u8)
    requires
        k < 8,
        j < 8,
    ensures
        u8_bit(b | (1u8 << k), j) == (j == k || u8_bit(b, j)),
{
    assert(((b | (1u8 << k)) >> j) & 1 == (if j == k {
        1u8
    } else {
        (b >> j) & 1
    })) by (bit_vector)
        requires
            k < 8,
            j < 8,
    ;
}

/// A fixed-size array of bits backed by bytes.
#[derive(Clone, Debug, PartialEq, Eq)]
pub struct BitArray {
    bytes: Vec<u8>,
}

impl BitArray {
    /// The backing bytes, as a sequence.
    pub closed spec fn view(&self) -> Seq<u8> {
        self.bytes@
    }

    /// Creates an array of `num_bytes * 8` zero bits.
    pub fn with_capacity(num_bytes: usize) -> (r: BitArray)
        ensures
            r@.len() == num_bytes,
            forall|i: int| 0 <= i < num_bytes * 8 ==> !spec_bit(r@, i),
    {
        let mut bytes: Vec<u8> = Vec::new();
        let mut n: usize = 0;
        while n < num_bytes
            invariant
                0 <= n <= num_bytes,
                bytes@.len() == n,
                forall|j: int| 0 <= j < n ==> bytes@[j] == 0u8,
            decreases num_bytes - n,
        {
            bytes.push(0);
            n = n + 1;
        }
        proof {
            assert forall|i: int| 0 <= i < num_bytes * 8 implies !spec_bit(bytes@, i) by {
                assert(0 <= i / 8 < num_bytes) by {
                    vstd::arithmetic::div_mod::lemma_fundamental_div_mod(i, 8);
                }
                assert(bytes@[i / 8] == 0u8);
                lemma_u8_zero_bit((i % 8) as u8);
            }
        }
        BitArray { bytes }
    }

    /// Wraps existing bytes.
    pub fn from_bytes(bytes: Vec<u8>) -> (r: BitArray)
        ensures
            r@ == bytes@,
    {
        BitArray { bytes }
    }

    /// A reference to the backing bytes.
    pub fn bytes(&self) -> (r: &Vec<u8>)
        ensures
            r@ == self@,
    {
        &self.bytes
    }

    /// Number of backing bytes.
    pub fn num_bytes(&self) -> (r: usize)
        ensures
            r == self@.len(),
    {
        self.bytes.len()
    }

    /// Reads bit `i`.
    pub fn get(&self, i: usize) -> (r: bool)
        requires
            i < self@.len() * 8,
        ensures
            r == spec_bit(self@, i as int),
    {
        proof {
            assert(i / 8 < self@.len()) by {
                vstd::arithmetic::div_mod::lemma_fundamental_div_mod(i as int, 8);
            }
        }
        let byte = self.bytes[i / 8];
        let shift: u8 = (i % 8) as u8;
        (byte >> shift) & 1 == 1
    }

    /// Sets bit `i`, leaving every other bit as it was.
    pub fn enable(&mut self, i: usize)
        requires
            i < old(self)@.len() * 8,
        ensures
            final(self)@.len() == old(self)@.len(),
            spec_bit(final(self)@, i as int),
            forall|j: int|
                0 <= j < old(self)@.len() * 8 && j != i ==> spec_bit(final(self)@, j) == spec_bit(
                    old(self)@,
                    j,
                ),
    {
        proof {
            assert(i / 8 < old(self)@.len()) by {
                vstd::arithmetic::div_mod::lemma_fundamental_div_mod(i as int, 8);
            }
        }
        let idx = i / 8;
        let shift: u8 = (i % 8) as u8;
        let byte = self.bytes[idx];
        let updated = byte | (1u8 << shift);
        self.bytes.set(idx, updated);
        proof {
            lemma_u8_set_bit(byte, shift, shift);
            assert(spec_bit(self@, i as int));
            assert forall|j: int|
                0 <= j < old(self)@.len() * 8 && j != i implies spec_bit(self@, j) == spec_bit(
                old(self)@,
                j,
            ) by {
                if j / 8 == i as int / 8 {
                    assert((j % 8) as u8 != shift) by {
                        vstd::arithmetic::div_mod::lemma_fundamental_div_mod(j, 8);
                        vstd::arithmetic::div_mod::lemma_fundamental_div_mod(i as int, 8);
                    }
                    lemma_u8_set_bit(byte, shift, (j % 8) as u8);
                    assert(self@[j / 8] == updated);
                } else {
                    assert(self@[j / 8] == old(self)@[j / 8]);
                }
            }
        }
    }
}

} // verus!
