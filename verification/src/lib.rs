//! Building blocks of the HDF5 storage format: chunk filters, dataspace
//! selections, the Fixed Array chunk index, and Merkle trees over chunks.

pub mod baselines;
pub mod bytes;
pub mod bytes_laws;
pub mod codec;
pub mod companion;
pub mod companion_laws;
pub mod digest;
pub mod error;
pub mod filter_pipeline;
pub mod filter_laws;
pub mod filters;
pub mod fixed_array;
pub mod fixed_array_laws;
pub mod fletcher32;
pub mod integrity_laws;
pub mod lz4_block;
pub mod merkle;
pub mod merkle_laws;
pub mod nbit;
pub mod packing_laws;
pub mod scaleoffset;
pub mod selection;
pub mod selection_laws;
pub mod shuffle;
