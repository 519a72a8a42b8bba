# clawhdf5_format

Parts of the HDF5 storage format as verified Rust: the chunk filters, dataspace
selections, the Fixed Array chunk index, Merkle trees over chunks with simpler
integrity backends beside them, and the retrieval of proofs from a companion
dataset.

## Layout

- `src/` is the library. Contracts state what its functions return, and Verus
  proves them. Of a key or a seed that is drawn at random nothing is stated.
  - `bytes`, `error`: integers, bit strings and text; the error type.
  - `filter_pipeline`, `filters`: the pipeline and what runs it; `shuffle`,
    `fletcher32`, `scaleoffset` and `nbit` are its filters, `codec` is the
    boundary to the compression libraries, and `lz4_block` measures the sums
    that the LZ4 decoder takes.
  - `selection`, `fixed_array`: dataspace selections and the chunk index.
  - `merkle`, `digest`: trees, and the boundary to the hash functions.
  - `selection_laws`, `fixed_array_laws`, `merkle_laws`: what holds of the whole of
    each. The laws of a smaller module stand at its end.
  - `baselines`: one hash, a tag per chunk, a signature per chunk.
  - `companion`: which bytes prove a chunk, and what they hold.
- `tests/` runs the library.
- `app/` is what surrounds it: S3 requests, floating point, and errors with
  `Display`.

Compression, hashing, signing and random numbers come from other crates. What
the library takes for granted about them stands in the contracts of the functions
marked `external_body`, each with a comment that says what is claimed.
