//! The segment metadata block: a sorted key-value map with reserved
//! `#`-prefixed keys, stored as an ordinary data block, and its parsed
//! form.

use vstd::prelude::*;

use crate::compression::{spec_compression_decoded, CompressionType};
use crate::coding::{get_u128_le, get_u64_le, spec_le128, spec_le64};
use crate::data_block::{spec_point_read_from, DataBlock};
use crate::error::LsmError;
use crate::key_range::KeyRange;
use crate::value::EntrySpec;

verus! {

/// Microsecond timestamp: when a segment was created, measured since the
/// Unix epoch.  This crate compares segment ages in microseconds.
#[derive(Clone, Copy, Debug, PartialEq, Eq)]
pub struct Timestamp(pub u128);

impl Timestamp {
    /// The raw microsecond count.
    pub fn get(&self) -> (r: u128)
        ensures
            r == self.0,
    {
        self.0
    }
}

/// The reserved metadata key `#checksum_type`.
pub open spec fn k_checksum_type() -> Seq<u8> {
    seq![35u8, 99u8, 104u8, 101u8, 99u8, 107u8, 115u8, 117u8, 109u8, 95u8, 116u8, 121u8, 112u8, 101u8]
}

/// Builds the reserved metadata key `#checksum_type`.
pub fn key_checksum_type() -> (r: Vec<u8>)
    ensures
        r@ == k_checksum_type(),
{
    let mut v: Vec<u8> = Vec::new();
    v.push(35);
    v.push(99);
    v.push(104);
    v.push(101);
    v.push(99);
    v.push(107);
    v.push(115);
    v.push(117);
    v.push(109);
    v.push(95);
    v.push(116);
    v.push(121);
    v.push(112);
    v.push(101);
    proof {
        assert(v@ =~= k_checksum_type());
    }
    v
}

/// The reserved metadata key `#compression#data`.
pub open spec fn k_compression() -> Seq<u8> {
    seq![35u8, 99u8, 111u8, 109u8, 112u8, 114u8, 101u8, 115u8, 115u8, 105u8, 111u8, 110u8, 35u8, 100u8, 97u8, 116u8, 97u8]
}

/// Builds the reserved metadata key `#compression#data`.
pub fn key_compression() -> (r: Vec<u8>)
    ensures
        r@ == k_compression(),
{
    let mut v: Vec<u8> = Vec::new();
    v.push(35);
    v.push(99);
    v.push(111);
    v.push(109);
    v.push(112);
    v.push(114);
    v.push(101);
    v.push(115);
    v.push(115);
    v.push(105);
    v.push(111);
    v.push(110);
    v.push(35);
    v.push(100);
    v.push(97);
    v.push(116);
    v.push(97);
    proof {
        assert(v@ =~= k_compression());
    }
    v
}

/// The reserved metadata key `#created_at`.
pub open spec fn k_created_at() -> Seq<u8> {
    seq![35u8, 99u8, 114u8, 101u8, 97u8, 116u8, 101u8, 100u8, 95u8, 97u8, 116u8]
}

/// Builds the reserved metadata key `#created_at`.
pub fn key_created_at() -> (r: Vec<u8>)
    ensures
        r@ == k_created_at(),
{
    let mut v: Vec<u8> = Vec::new();
    v.push(35);
    v.push(99);
    v.push(114);
    v.push(101);
    v.push(97);
    v.push(116);
    v.push(101);
    v.push(100);
    v.push(95);
    v.push(97);
    v.push(116);
    proof {
        assert(v@ =~= k_created_at());
    }
    v
}

/// The reserved metadata key `#data_block_count`.
pub open spec fn k_data_block_count() -> Seq<u8> {
    seq![35u8, 100u8, 97u8, 116u8, 97u8, 95u8, 98u8, 108u8, 111u8, 99u8, 107u8, 95u8, 99u8, 111u8, 117u8, 110u8, 116u8]
}

/// Builds the reserved metadata key `#data_block_count`.
pub fn key_data_block_count() -> (r: Vec<u8>)
    ensures
        r@ == k_data_block_count(),
{
    let mut v: Vec<u8> = Vec::new();
    v.push(35);
    v.push(100);
    v.push(97);
    v.push(116);
    v.push(97);
    v.push(95);
    v.push(98);
    v.push(108);
    v.push(111);
    v.push(99);
    v.push(107);
    v.push(95);
    v.push(99);
    v.push(111);
    v.push(117);
    v.push(110);
    v.push(116);
    proof {
        assert(v@ =~= k_data_block_count());
    }
    v
}

/// The reserved metadata key `#hash_type`.
pub open spec fn k_hash_type() -> Seq<u8> {
    seq![35u8, 104u8, 97u8, 115u8, 104u8, 95u8, 116u8, 121u8, 112u8, 101u8]
}

/// Builds the reserved metadata key `#hash_type`.
pub fn key_hash_type() -> (r: Vec<u8>)
    ensures
        r@ == k_hash_type(),
{
    let mut v: Vec<u8> = Vec::new();
    v.push(35);
    v.push(104);
    v.push(97);
    v.push(115);
    v.push(104);
    v.push(95);
    v.push(116);
    v.push(121);
    v.push(112);
    v.push(101);
    proof {
        assert(v@ =~= k_hash_type());
    }
    v
}

/// The reserved metadata key `#id`.
pub open spec fn k_id() -> Seq<u8> {
    seq![35u8, 105u8, 100u8]
}

/// Builds the reserved metadata key `#id`.
pub fn key_id() -> (r: Vec<u8>)
    ensures
        r@ == k_id(),
{
    let mut v: Vec<u8> = Vec::new();
    v.push(35);
    v.push(105);
    v.push(100);
    proof {
        assert(v@ =~= k_id());
    }
    v
}

/// The reserved metadata key `#index_block_count`.
pub open spec fn k_index_block_count() -> Seq<u8> {
    seq![35u8, 105u8, 110u8, 100u8, 101u8, 120u8, 95u8, 98u8, 108u8, 111u8, 99u8, 107u8, 95u8, 99u8, 111u8, 117u8, 110u8, 116u8]
}

/// Builds the reserved metadata key `#index_block_count`.
pub fn key_index_block_count() -> (r: Vec<u8>)
    ensures
        r@ == k_index_block_count(),
{
    let mut v: Vec<u8> = Vec::new();
    v.push(35);
    v.push(105);
    v.push(110);
    v.push(100);
    v.push(101);
    v.push(120);
    v.push(95);
    v.push(98);
    v.push(108);
    v.push(111);
    v.push(99);
    v.push(107);
    v.push(95);
    v.push(99);
    v.push(111);
    v.push(117);
    v.push(110);
    v.push(116);
    proof {
        assert(v@ =~= k_index_block_count());
    }
    v
}

/// The reserved metadata key `#item_count`.
pub open spec fn k_item_count() -> Seq<u8> {
    seq![35u8, 105u8, 116u8, 101u8, 109u8, 95u8, 99u8, 111u8, 117u8, 110u8, 116u8]
}

/// Builds the reserved metadata key `#item_count`.
pub fn key_item_count() -> (r: Vec<u8>)
    ensures
        r@ == k_item_count(),
{
    let mut v: Vec<u8> = Vec::new();
    v.push(35);
    v.push(105);
    v.push(116);
    v.push(101);
    v.push(109);
    v.push(95);
    v.push(99);
    v.push(111);
    v.push(117);
    v.push(110);
    v.push(116);
    proof {
        assert(v@ =~= k_item_count());
    }
    v
}

/// The reserved metadata key `#key#max`.
pub open spec fn k_key_max() -> Seq<u8> {
    seq![35u8, 107u8, 101u8, 121u8, 35u8, 109u8, 97u8, 120u8]
}

/// Builds the reserved metadata key `#key#max`.
pub fn key_key_max() -> (r: Vec<u8>)
    ensures
        r@ == k_key_max(),
{
    let mut v: Vec<u8> = Vec::new();
    v.push(35);
    v.push(107);
    v.push(101);
    v.push(121);
    v.push(35);
    v.push(109);
    v.push(97);
    v.push(120);
    proof {
        assert(v@ =~= k_key_max());
    }
    v
}

/// The reserved metadata key `#key#min`.
pub open spec fn k_key_min() -> Seq<u8> {
    seq![35u8, 107u8, 101u8, 121u8, 35u8, 109u8, 105u8, 110u8]
}

/// Builds the reserved metadata key `#key#min`.
pub fn key_key_min() -> (r: Vec<u8>)
    ensures
        r@ == k_key_min(),
{
    let mut v: Vec<u8> = Vec::new();
    v.push(35);
    v.push(107);
    v.push(101);
    v.push(121);
    v.push(35);
    v.push(109);
    v.push(105);
    v.push(110);
    proof {
        assert(v@ =~= k_key_min());
    }
    v
}

/// The reserved metadata key `#seqno#max`.
pub open spec fn k_seqno_max() -> Seq<u8> {
    seq![35u8, 115u8, 101u8, 113u8, 110u8, 111u8, 35u8, 109u8, 97u8, 120u8]
}

/// Builds the reserved metadata key `#seqno#max`.
pub fn key_seqno_max() -> (r: Vec<u8>)
    ensures
        r@ == k_seqno_max(),
{
    let mut v: Vec<u8> = Vec::new();
    v.push(35);
    v.push(115);
    v.push(101);
    v.push(113);
    v.push(110);
    v.push(111);
    v.push(35);
    v.push(109);
    v.push(97);
    v.push(120);
    proof {
        assert(v@ =~= k_seqno_max());
    }
    v
}

/// The reserved metadata key `#seqno#min`.
pub open spec fn k_seqno_min() -> Seq<u8> {
    seq![35u8, 115u8, 101u8, 113u8, 110u8, 111u8, 35u8, 109u8, 105u8, 110u8]
}

/// Builds the reserved metadata key `#seqno#min`.
pub fn key_seqno_min() -> (r: Vec<u8>)
    ensures
        r@ == k_seqno_min(),
{
    let mut v: Vec<u8> = Vec::new();
    v.push(35);
    v.push(115);
    v.push(101);
    v.push(113);
    v.push(110);
    v.push(111);
    v.push(35);
    v.push(109);
    v.push(105);
    v.push(110);
    proof {
        assert(v@ =~= k_seqno_min());
    }
    v
}

/// The reserved metadata key `#size`.
pub open spec fn k_size() -> Seq<u8> {
    seq![35u8, 115u8, 105u8, 122u8, 101u8]
}

/// Builds the reserved metadata key `#size`.
pub fn key_size() -> (r: Vec<u8>)
    ensures
        r@ == k_size(),
{
    let mut v: Vec<u8> = Vec::new();
    v.push(35);
    v.push(115);
    v.push(105);
    v.push(122);
    v.push(101);
    proof {
        assert(v@ =~= k_size());
    }
    v
}

/// The name of the hash and checksum functions the format uses.
pub open spec fn xxh3_name() -> Seq<u8> {
    seq![120u8, 120u8, 104u8, 51u8]
}

/// Builds the hash function name `xxh3`.
pub fn name_xxh3() -> (r: Vec<u8>)
    ensures
        r@ == xxh3_name(),
{
    let mut v: Vec<u8> = Vec::new();
    v.push(120);
    v.push(120);
    v.push(104);
    v.push(51);
    proof {
        assert(v@ =~= xxh3_name());
    }
    v
}
/// The value stored under `key` in a metadata block, if any.
pub open spec fn spec_meta_field(views: Seq<EntrySpec>, key: Seq<u8>) -> Option<Seq<u8>> {
    match spec_point_read_from(views, key, None, 0) {
        Some(e) => Some(e.value),
        None => None,
    }
}

/// The compression kind a metadata block records for data blocks.
pub open spec fn spec_meta_compression(views: Seq<EntrySpec>) -> Option<CompressionType> {
    match spec_meta_field(views, k_compression()) {
        Some(v) => spec_compression_decoded(v),
        None => None,
    }
}

/// A metadata block from which every reserved field can be read: the hash
/// and checksum names are `xxh3`, the numeric fields have their fixed
/// widths, and the compression tag decodes.
pub open spec fn spec_meta_wf(views: Seq<EntrySpec>) -> bool {
    &&& spec_meta_field(views, k_hash_type()) == Some(xxh3_name())
    &&& spec_meta_field(views, k_checksum_type()) == Some(xxh3_name())
    &&& (match spec_meta_field(views, k_id()) {
        Some(v) => v.len() == 8,
        None => false,
    })
    &&& (match spec_meta_field(views, k_created_at()) {
        Some(v) => v.len() == 16,
        None => false,
    })
    &&& (match spec_meta_field(views, k_item_count()) {
        Some(v) => v.len() == 8,
        None => false,
    })
    &&& (match spec_meta_field(views, k_data_block_count()) {
        Some(v) => v.len() == 8,
        None => false,
    })
    &&& (match spec_meta_field(views, k_index_block_count()) {
        Some(v) => v.len() == 8,
        None => false,
    })
    &&& (match spec_meta_field(views, k_key_min()) {
        Some(_) => true,
        None => false,
    })
    &&& (match spec_meta_field(views, k_key_max()) {
        Some(_) => true,
        None => false,
    })
    &&& (match spec_meta_field(views, k_seqno_min()) {
        Some(v) => v.len() == 8,
        None => false,
    })
    &&& (match spec_meta_field(views, k_seqno_max()) {
        Some(v) => v.len() == 8,
        None => false,
    })
    &&& (match spec_meta_field(views, k_size()) {
        Some(v) => v.len() == 8,
        None => false,
    })
    &&& (match spec_meta_field(views, k_compression()) {
        Some(v) => spec_compression_decoded(v) is Some,
        None => false,
    })
}

/// The reserved fields of a segment's metadata block, parsed.
#[derive(Clone, Debug, PartialEq, Eq)]
#[verifier::ext_equal]
pub struct ParsedMeta {
    /// Unique id of the segment within its tree.
    pub id: u64,
    /// When the segment was created, in microseconds since the epoch.
    pub created_at: Timestamp,
    /// Number of data blocks.
    pub data_block_count: u64,
    /// Number of index blocks, the top-level index included.
    pub index_block_count: u64,
    /// Keys of the first and last entry.
    pub key_range: KeyRange,
    /// Smallest sequence number in the segment.
    pub seqno_min: u64,
    /// Largest sequence number in the segment.
    pub seqno_max: u64,
    /// Bytes written before the metadata block.
    pub file_size: u64,
    /// Number of entries.
    pub item_count: u64,
    /// How the data blocks are compressed.
    pub data_block_compression: CompressionType,
}

/// The mathematical shape of a segment descriptor.
#[verifier::ext_equal]
pub struct SegMetaView {
    /// Unique id of the segment within its tree.
    pub id: u64,
    /// Creation time in microseconds since the epoch.
    pub created_at: u128,
    /// Number of data blocks.
    pub data_block_count: u64,
    /// Number of index blocks.
    pub index_block_count: u64,
    /// Key of the first entry.
    pub key_min: Seq<u8>,
    /// Key of the last entry.
    pub key_max: Seq<u8>,
    /// Smallest sequence number.
    pub seqno_min: u64,
    /// Largest sequence number.
    pub seqno_max: u64,
    /// Bytes written before the metadata block.
    pub file_size: u64,
    /// Number of entries.
    pub item_count: u64,
    /// How the data blocks are compressed.
    pub compression: CompressionType,
}

impl View for ParsedMeta {
    type V = SegMetaView;

    open spec fn view(&self) -> SegMetaView {
        SegMetaView {
            id: self.id,
            created_at: self.created_at.0,
            data_block_count: self.data_block_count,
            index_block_count: self.index_block_count,
            key_min: self.key_range.min@,
            key_max: self.key_range.max@,
            seqno_min: self.seqno_min,
            seqno_max: self.seqno_max,
            file_size: self.file_size,
            item_count: self.item_count,
            compression: self.data_block_compression,
        }
    }
}

impl ParsedMeta {
    /// Reads every reserved field out of a decoded metadata block.
    /// Succeeds exactly when the block holds all of them in their
    /// documented shapes; fails with `Corrupt` otherwise.
    pub fn from_block(db: &DataBlock) -> (r: Result<ParsedMeta, LsmError>)
        ensures
            match r {
                Ok(m) => {
                    &&& spec_meta_wf(db.views())
                    &&& spec_meta_field(db.views(), k_id()) == Some(spec_le64(m.id))
                    &&& spec_meta_field(db.views(), k_created_at()) == Some(
                        spec_le128(m.created_at.0),
                    )
                    &&& spec_meta_field(db.views(), k_item_count()) == Some(
                        spec_le64(m.item_count),
                    )
                    &&& spec_meta_field(db.views(), k_data_block_count()) == Some(
                        spec_le64(m.data_block_count),
                    )
                    &&& spec_meta_field(db.views(), k_index_block_count()) == Some(
                        spec_le64(m.index_block_count),
                    )
                    &&& spec_meta_field(db.views(), k_key_min()) == Some(m.key_range.min@)
                    &&& spec_meta_field(db.views(), k_key_max()) == Some(m.key_range.max@)
                    &&& spec_meta_field(db.views(), k_seqno_min()) == Some(
                        spec_le64(m.seqno_min),
                    )
                    &&& spec_meta_field(db.views(), k_seqno_max()) == Some(
                        spec_le64(m.seqno_max),
                    )
                    &&& spec_meta_field(db.views(), k_size()) == Some(spec_le64(m.file_size))
                    &&& spec_meta_compression(db.views()) == Some(m.data_block_compression)
                    &&& m.data_block_compression.wf()
                },
                Err(e) => {
                    &&& e == LsmError::Corrupt
                    &&& !spec_meta_wf(db.views())
                },
            },
    {
        let xxh3 = name_xxh3();
        let hash_type = match db.point_read(key_hash_type().as_slice(), None) {
            Some(e) => e,
            None => {
                return Err(LsmError::Corrupt);
            },
        };
        if !crate::bytes_util::bytes_eq(hash_type.value.as_slice(), xxh3.as_slice()) {
            return Err(LsmError::Corrupt);
        }
        let checksum_type = match db.point_read(key_checksum_type().as_slice(), None) {
            Some(e) => e,
            None => {
                return Err(LsmError::Corrupt);
            },
        };
        if !crate::bytes_util::bytes_eq(checksum_type.value.as_slice(), xxh3.as_slice()) {
            return Err(LsmError::Corrupt);
        }
        let id_e = match db.point_read(key_id().as_slice(), None) {
            Some(e) => e,
            None => {
                return Err(LsmError::Corrupt);
            },
        };
        if id_e.value.len() != 8 {
            return Err(LsmError::Corrupt);
        }
        let id = get_u64_le(id_e.value.as_slice(), 0);
        let created_e = match db.point_read(key_created_at().as_slice(), None) {
            Some(e) => e,
            None => {
                return Err(LsmError::Corrupt);
            },
        };
        if created_e.value.len() != 16 {
            return Err(LsmError::Corrupt);
        }
        let created_at = get_u128_le(created_e.value.as_slice(), 0);
        let items_e = match db.point_read(key_item_count().as_slice(), None) {
            Some(e) => e,
            None => {
                return Err(LsmError::Corrupt);
            },
        };
        if items_e.value.len() != 8 {
            return Err(LsmError::Corrupt);
        }
        let item_count = get_u64_le(items_e.value.as_slice(), 0);
        let dbc_e = match db.point_read(key_data_block_count().as_slice(), None) {
            Some(e) => e,
            None => {
                return Err(LsmError::Corrupt);
            },
        };
        if dbc_e.value.len() != 8 {
            return Err(LsmError::Corrupt);
        }
        let data_block_count = get_u64_le(dbc_e.value.as_slice(), 0);
        let ibc_e = match db.point_read(key_index_block_count().as_slice(), None) {
            Some(e) => e,
            None => {
                return Err(LsmError::Corrupt);
            },
        };
        if ibc_e.value.len() != 8 {
            return Err(LsmError::Corrupt);
        }
        let index_block_count = get_u64_le(ibc_e.value.as_slice(), 0);
        let kmin_e = match db.point_read(key_key_min().as_slice(), None) {
            Some(e) => e,
            None => {
                return Err(LsmError::Corrupt);
            },
        };
        let kmax_e = match db.point_read(key_key_max().as_slice(), None) {
            Some(e) => e,
            None => {
                return Err(LsmError::Corrupt);
            },
        };
        let smin_e = match db.point_read(key_seqno_min().as_slice(), None) {
            Some(e) => e,
            None => {
                return Err(LsmError::Corrupt);
            },
        };
        if smin_e.value.len() != 8 {
            return Err(LsmError::Corrupt);
        }
        let seqno_min = get_u64_le(smin_e.value.as_slice(), 0);
        let smax_e = match db.point_read(key_seqno_max().as_slice(), None) {
            Some(e) => e,
            None => {
                return Err(LsmError::Corrupt);
            },
        };
        if smax_e.value.len() != 8 {
            return Err(LsmError::Corrupt);
        }
        let seqno_max = get_u64_le(smax_e.value.as_slice(), 0);
        let size_e = match db.point_read(key_size().as_slice(), None) {
            Some(e) => e,
            None => {
                return Err(LsmError::Corrupt);
            },
        };
        if size_e.value.len() != 8 {
            return Err(LsmError::Corrupt);
        }
        let file_size = get_u64_le(size_e.value.as_slice(), 0);
        let comp_e = match db.point_read(key_compression().as_slice(), None) {
            Some(e) => e,
            None => {
                return Err(LsmError::Corrupt);
            },
        };
        if comp_e.value.len() != 2 {
            return Err(LsmError::Corrupt);
        }
        let data_block_compression = match CompressionType::decode_from(
            comp_e.value.as_slice(),
            0,
        ) {
            Ok(c) => c,
            Err(_) => {
                proof {
                    assert(comp_e.value@.subrange(0, 2) =~= comp_e.value@);
                    match spec_compression_decoded(comp_e.value@) {
                        Some(c0) => {
                            assert(c0.wf());
                            assert(comp_e.value@ =~= c0.spec_encoded());
                        },
                        None => {},
                    }
                }
                return Err(LsmError::Corrupt);
            },
        };
        proof {
            assert(id_e.value@.subrange(0, 8) =~= id_e.value@);
            assert(created_e.value@.subrange(0, 16) =~= created_e.value@);
            assert(items_e.value@.subrange(0, 8) =~= items_e.value@);
            assert(dbc_e.value@.subrange(0, 8) =~= dbc_e.value@);
            assert(ibc_e.value@.subrange(0, 8) =~= ibc_e.value@);
            assert(smin_e.value@.subrange(0, 8) =~= smin_e.value@);
            assert(smax_e.value@.subrange(0, 8) =~= smax_e.value@);
            assert(size_e.value@.subrange(0, 8) =~= size_e.value@);
            assert(comp_e.value@.subrange(0, 2) =~= comp_e.value@);
        }
        Ok(
            ParsedMeta {
                id,
                created_at: Timestamp(created_at),
                data_block_count,
                index_block_count,
                key_range: KeyRange::new(kmin_e.value, kmax_e.value),
                seqno_min,
                seqno_max,
                file_size,
                item_count,
                data_block_compression,
            },
        )
    }
}

/// Decoding an encoded compression tag yields the kind back.
pub proof fn lemma_compression_round_trip(c: CompressionType)
    requires
        c.wf(),
    ensures
        spec_compression_decoded(c.spec_encoded()) == Some(c),
{
}

} // verus!
