//! Engine configuration.

use vstd::prelude::*;

use crate::compression::CompressionType;

verus! {

/// Tunable parameters of the tree.
#[derive(Clone, Debug, PartialEq, Eq)]
pub struct Config {
    /// Number of levels in the manifest.
    pub level_count: u8,
    /// Size ratio between levels (fanout).
    pub level_ratio: u8,
    /// Flush a data block once its payload reaches this many bytes.
    pub data_block_size: u32,
    /// Flush an index block once its handles reach this many bytes.
    pub index_block_size: u32,
    /// How data blocks are compressed.
    pub compression: CompressionType,
}

impl Default for Config {
    /// The default configuration: seven levels with a fanout of eight and
    /// four-kilobyte blocks, uncompressed.
    fn default() -> (r: Config)
        ensures
            r.level_count == 7,
            r.level_ratio == 8,
            r.data_block_size == 4096,
            r.index_block_size == 4096,
            r.compression == CompressionType::NoCompression,
    {
        Config {
            level_count: 7,
            level_ratio: 8,
            data_block_size: 4096,
            index_block_size: 4096,
            compression: CompressionType::NoCompression,
        }
    }
}

impl Config {
    /// Sets the fanout.
    pub fn level_ratio(self, ratio: u8) -> (r: Config)
        ensures
            r.level_ratio == ratio,
            r.level_count == self.level_count,
            r.data_block_size == self.data_block_size,
            r.index_block_size == self.index_block_size,
            r.compression == self.compression,
    {
        Config { level_ratio: ratio, ..self }
    }
}

} // verus!
