//! Filter identifiers and the filter pipeline of a chunked dataset.

use vstd::prelude::*;

verus! {

/// zlib compression.
pub const FILTER_DEFLATE: u16 = 1;

/// Byte shuffle.
pub const FILTER_SHUFFLE: u16 = 2;

/// Fletcher32 checksum.
pub const FILTER_FLETCHER32: u16 = 3;

/// N-Bit packing.
pub const FILTER_NBIT: u16 = 5;

/// Scale-offset packing.
pub const FILTER_SCALEOFFSET: u16 = 6;

/// LZ4 compression.
pub const FILTER_LZ4: u16 = 32004;

/// Zstandard compression.
pub const FILTER_ZSTD: u16 = 32015;

/// One filter of a pipeline.
#[derive(Debug, Clone, PartialEq, Eq)]
pub struct FilterDescription {
    /// The registered id of the filter.
    pub filter_id: u16,
    /// The name stored with the filter, if any.
    pub name: Option<String>,
    /// Bit flags of the filter message.
    pub flags: u16,
    /// The parameters of the filter.
    pub client_data: Vec<u32>,
}

/// The filters of a dataset, in the order in which writing applies them.
#[derive(Debug, Clone, PartialEq, Eq)]
pub struct FilterPipeline {
    /// Version of the filter pipeline message.
    pub version: u8,
    /// The filters, first applied first.
    pub filters: Vec<FilterDescription>,
}

} // verus!
