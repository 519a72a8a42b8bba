use clawhdf5_format::error::FormatError;
use clawhdf5_format::filter_pipeline::{
    FilterDescription, FilterPipeline, FILTER_DEFLATE, FILTER_FLETCHER32, FILTER_LZ4, FILTER_NBIT,
    FILTER_SCALEOFFSET, FILTER_SHUFFLE, FILTER_ZSTD,
};
use clawhdf5_format::filters::{
    compress_chunk, compression_result, decompress_chunk, decompression_result, deflate_compress,
    deflate_decompress, lz4_compress, lz4_decompress, resume_chunk, zstd_compress, zstd_decompress,
    Decoded,
};
use clawhdf5_format::fletcher32::{fletcher32_append, fletcher32_compute, fletcher32_verify};
use clawhdf5_format::nbit::nbit_decompress;
use clawhdf5_format::scaleoffset::{
    read_le_float_bits, read_le_int, scaleoffset_decompress, sign_extend, write_elements,
    FloatCodes, Unpacked,
};
use clawhdf5_format::shuffle::{shuffle_compress, shuffle_decompress};

/// The floats that a chunk's codes stand for, serialized.
fn float_bytes(plan: &FloatCodes) -> Vec<u8> {
    let float = |bits: u64| -> f64 {
        if plan.elem_size == 4 {
            f32::from_bits(bits as u32) as f64
        } else {
            f64::from_bits(bits)
        }
    };
    let scale = 10f64.powi(plan.scale_digits as i32);
    let patterns: Vec<i64> = plan
        .codes
        .iter()
        .map(|&code| {
            let value = if plan.fill_code == Some(code) {
                float(plan.fill_bits)
            } else {
                float(plan.minval_bits) + code as f64 / scale
            };
            if plan.elem_size == 4 {
                (value as f32).to_bits() as i64
            } else {
                value.to_bits() as i64
            }
        })
        .collect();
    write_elements(&patterns, plan.elem_size, plan.big_endian)
}

fn unpacked_bytes(unpacked: Unpacked) -> Vec<u8> {
    match unpacked {
        Unpacked::Bytes(bytes) => bytes,
        Unpacked::Floats(plan) => float_bytes(&plan),
    }
}


// --- Deflate tests ---

#[test]
fn deflate_compress_decompress_roundtrip() {
    let data: Vec<u8> = (0..256).map(|i| (i % 256) as u8).collect();
    let compressed = deflate_compress(&data, 6).unwrap();
    let decompressed = deflate_decompress(&compressed).unwrap();
    assert_eq!(decompressed, data);
}

#[test]
fn deflate_decompress_python_zlib() {
    // Data compressed with Python: zlib.compress(bytes(range(10)), 6)
    // python3 -c "import zlib; print(list(zlib.compress(bytes(range(10)), 6)))"
    // = [120, 156, 99, 96, 100, 98, 102, 97, 101, 99, 231, 224, 4, 0, 1, 123, 0, 170]
    let compressed: Vec<u8> = vec![
        120, 156, 99, 96, 100, 98, 102, 97, 101, 99, 231, 224, 4, 0, 0, 175, 0, 46,
    ];
    let decompressed = deflate_decompress(&compressed).unwrap();
    assert_eq!(decompressed, vec![0, 1, 2, 3, 4, 5, 6, 7, 8, 9]);
}

#[test]
fn deflate_compress_verifiable() {
    // Compress data and verify it decompresses correctly
    let data = vec![0u8, 1, 2, 3, 4, 5, 6, 7, 8, 9];
    let compressed = deflate_compress(&data, 6).unwrap();
    assert!(!compressed.is_empty());
    let decompressed = deflate_decompress(&compressed).unwrap();
    assert_eq!(decompressed, data);
}

// --- Shuffle tests ---

#[test]
fn shuffle_roundtrip_f64() {
    // 4 f64 values = 32 bytes, element_size=8
    let data: Vec<u8> = (0..32).collect();
    let shuffled = shuffle_compress(&data, 8).unwrap();
    let unshuffled = shuffle_decompress(&shuffled, 8).unwrap();
    assert_eq!(unshuffled, data);
}

#[test]
fn shuffle_roundtrip_i32() {
    // 8 i32 values = 32 bytes, element_size=4
    let data: Vec<u8> = (0..32).collect();
    let shuffled = shuffle_compress(&data, 4).unwrap();
    let unshuffled = shuffle_decompress(&shuffled, 4).unwrap();
    assert_eq!(unshuffled, data);
}

#[test]
fn shuffle_known_pattern() {
    // 2 elements of size 4: [A0 A1 A2 A3 B0 B1 B2 B3]
    // After shuffle: [A0 B0 A1 B1 A2 B2 A3 B3]
    let data = vec![0xA0, 0xA1, 0xA2, 0xA3, 0xB0, 0xB1, 0xB2, 0xB3];
    let shuffled = shuffle_compress(&data, 4).unwrap();
    assert_eq!(
        shuffled,
        vec![0xA0, 0xB0, 0xA1, 0xB1, 0xA2, 0xB2, 0xA3, 0xB3]
    );
}

// --- Fletcher32 tests ---

#[test]
fn fletcher32_roundtrip() {
    let data = vec![1u8, 2, 3, 4, 5, 6, 7, 8];
    let with_checksum = fletcher32_append(&data).unwrap();
    assert_eq!(with_checksum.len(), data.len() + 4);
    let verified = fletcher32_verify(&with_checksum).unwrap();
    assert_eq!(verified, data);
}

#[test]
fn fletcher32_known_checksum() {
    // Verify checksum is deterministic
    let data = vec![0u8; 16];
    let with_checksum = fletcher32_append(&data).unwrap();
    let checksum = u32::from_le_bytes([
        with_checksum[16],
        with_checksum[17],
        with_checksum[18],
        with_checksum[19],
    ]);
    // All zeros -> sum1=0, sum2=0 -> checksum=0
    assert_eq!(checksum, 0);

    // Non-zero data
    let data2 = vec![1u8, 0, 0, 0];
    let with_checksum2 = fletcher32_append(&data2).unwrap();
    let verified = fletcher32_verify(&with_checksum2).unwrap();
    assert_eq!(verified, data2);
}

#[test]
fn fletcher32_mismatch_detected() {
    let data = vec![1u8, 2, 3, 4];
    let mut with_checksum = fletcher32_append(&data).unwrap();
    // Corrupt checksum
    let last = with_checksum.len() - 1;
    with_checksum[last] ^= 0xFF;
    let result = fletcher32_verify(&with_checksum);
    assert!(matches!(
        result,
        Err(FormatError::Fletcher32Mismatch { .. })
    ));
}

// --- Pipeline tests ---

#[test]
fn pipeline_deflate_only() {
    let pipeline = FilterPipeline {
        version: 2,
        filters: vec![FilterDescription {
            filter_id: FILTER_DEFLATE,
            name: None,
            flags: 0,
            client_data: vec![6],
        }],
    };
    let data: Vec<u8> = (0..200).map(|i| (i % 256) as u8).collect();
    let compressed = compress_chunk(&data, &pipeline, 1).unwrap();
    let decoded = decompress_chunk(&compressed, &pipeline, data.len(), 1).unwrap();
    let decompressed = decoded.into_bytes().unwrap();
    assert_eq!(decompressed, data);
}

#[test]
fn pipeline_shuffle_deflate() {
    let pipeline = FilterPipeline {
        version: 2,
        filters: vec![
            FilterDescription {
                filter_id: FILTER_SHUFFLE,
                name: None,
                flags: 0,
                client_data: vec![],
            },
            FilterDescription {
                filter_id: FILTER_DEFLATE,
                name: None,
                flags: 0,
                client_data: vec![6],
            },
        ],
    };
    // 25 f64 values (200 bytes)
    let data: Vec<u8> = (0..200).map(|i| (i % 256) as u8).collect();
    let compressed = compress_chunk(&data, &pipeline, 8).unwrap();
    let decoded = decompress_chunk(&compressed, &pipeline, data.len(), 8).unwrap();
    let decompressed = decoded.into_bytes().unwrap();
    assert_eq!(decompressed, data);
}

#[test]
fn pipeline_compress_decompress_roundtrip() {
    let pipeline = FilterPipeline {
        version: 2,
        filters: vec![
            FilterDescription {
                filter_id: FILTER_SHUFFLE,
                name: None,
                flags: 0,
                client_data: vec![],
            },
            FilterDescription {
                filter_id: FILTER_DEFLATE,
                name: None,
                flags: 0,
                client_data: vec![6],
            },
            FilterDescription {
                filter_id: FILTER_FLETCHER32,
                name: None,
                flags: 0,
                client_data: vec![],
            },
        ],
    };
    let data: Vec<u8> = (0..160).map(|i| (i % 256) as u8).collect();
    let compressed = compress_chunk(&data, &pipeline, 8).unwrap();
    let decoded = decompress_chunk(&compressed, &pipeline, data.len(), 8).unwrap();
    let decompressed = decoded.into_bytes().unwrap();
    assert_eq!(decompressed, data);
}

#[test]
fn pipeline_shuffle_deflate_fletcher32() {
    let pipeline = FilterPipeline {
        version: 1,
        filters: vec![
            FilterDescription {
                filter_id: FILTER_SHUFFLE,
                name: None,
                flags: 0,
                client_data: vec![],
            },
            FilterDescription {
                filter_id: FILTER_DEFLATE,
                name: None,
                flags: 0,
                client_data: vec![9],
            },
            FilterDescription {
                filter_id: FILTER_FLETCHER32,
                name: None,
                flags: 0,
                client_data: vec![],
            },
        ],
    };
    // Use realistic f64-sized data
    let data: Vec<u8> = (0..80).map(|i| (i * 3 % 256) as u8).collect();
    let compressed = compress_chunk(&data, &pipeline, 8).unwrap();
    let decoded = decompress_chunk(&compressed, &pipeline, data.len(), 8).unwrap();
    let decompressed = decoded.into_bytes().unwrap();
    assert_eq!(decompressed, data);
}

// --- LZ4 tests ---

#[test]
fn lz4_compress_decompress_roundtrip() {
    let data: Vec<u8> = (0..256).map(|i| (i % 256) as u8).collect();
    let compressed = lz4_compress(&data).unwrap();
    let decompressed = lz4_decompress(&compressed).unwrap();
    assert_eq!(decompressed, data);
}

#[test]
fn pipeline_lz4_only() {
    let pipeline = FilterPipeline {
        version: 2,
        filters: vec![FilterDescription {
            filter_id: FILTER_LZ4,
            name: Some("lz4".into()),
            flags: 0,
            client_data: vec![],
        }],
    };
    let data: Vec<u8> = (0..200).map(|i| (i % 256) as u8).collect();
    let compressed = compress_chunk(&data, &pipeline, 1).unwrap();
    let decoded = decompress_chunk(&compressed, &pipeline, data.len(), 1).unwrap();
    let decompressed = decoded.into_bytes().unwrap();
    assert_eq!(decompressed, data);
}

#[test]
fn pipeline_shuffle_lz4() {
    let pipeline = FilterPipeline {
        version: 2,
        filters: vec![
            FilterDescription {
                filter_id: FILTER_SHUFFLE,
                name: None,
                flags: 0,
                client_data: vec![],
            },
            FilterDescription {
                filter_id: FILTER_LZ4,
                name: Some("lz4".into()),
                flags: 0,
                client_data: vec![],
            },
        ],
    };
    let data: Vec<u8> = (0..200).map(|i| (i % 256) as u8).collect();
    let compressed = compress_chunk(&data, &pipeline, 8).unwrap();
    let decoded = decompress_chunk(&compressed, &pipeline, data.len(), 8).unwrap();
    let decompressed = decoded.into_bytes().unwrap();
    assert_eq!(decompressed, data);
}

// --- Zstd tests ---

#[test]
fn zstd_compress_decompress_roundtrip() {
    let data: Vec<u8> = (0..256).map(|i| (i % 256) as u8).collect();
    let compressed = zstd_compress(&data, 3).unwrap();
    let decompressed = zstd_decompress(&compressed).unwrap();
    assert_eq!(decompressed, data);
}

#[test]
fn pipeline_zstd_only() {
    let pipeline = FilterPipeline {
        version: 2,
        filters: vec![FilterDescription {
            filter_id: FILTER_ZSTD,
            name: Some("zstd".into()),
            flags: 0,
            client_data: vec![3],
        }],
    };
    let data: Vec<u8> = (0..200).map(|i| (i % 256) as u8).collect();
    let compressed = compress_chunk(&data, &pipeline, 1).unwrap();
    let decoded = decompress_chunk(&compressed, &pipeline, data.len(), 1).unwrap();
    let decompressed = decoded.into_bytes().unwrap();
    assert_eq!(decompressed, data);
}

#[test]
fn pipeline_shuffle_zstd_fletcher32() {
    let pipeline = FilterPipeline {
        version: 2,
        filters: vec![
            FilterDescription {
                filter_id: FILTER_SHUFFLE,
                name: None,
                flags: 0,
                client_data: vec![],
            },
            FilterDescription {
                filter_id: FILTER_ZSTD,
                name: Some("zstd".into()),
                flags: 0,
                client_data: vec![1],
            },
            FilterDescription {
                filter_id: FILTER_FLETCHER32,
                name: None,
                flags: 0,
                client_data: vec![],
            },
        ],
    };
    let data: Vec<u8> = (0..160).map(|i| (i % 256) as u8).collect();
    let compressed = compress_chunk(&data, &pipeline, 8).unwrap();
    let decoded = decompress_chunk(&compressed, &pipeline, data.len(), 8).unwrap();
    let decompressed = decoded.into_bytes().unwrap();
    assert_eq!(decompressed, data);
}

// --- scale-offset (filter id 6) -------------------------------------------
// Inputs below are real compressed chunks + client data captured from
// h5py 3.16 / HDF5 2.0 (`scaleoffset=0`), so they guard the decoder against
// the reference implementation without needing h5py at test time.

fn i32_le(vals: &[i32]) -> Vec<u8> {
    vals.iter().flat_map(|v| v.to_le_bytes()).collect()
}

#[test]
fn scaleoffset_int_basic() {
    // i32 [0,1,2,3], chunk of 4, default fill 0 (element 0 is the fill).
    let cd = [2u32, 0, 4, 0, 4, 1, 0, 1, 0];
    let raw = [
        0x02, 0x00, 0x00, 0x00, 0x08, 0x01, 0x00, 0x00, 0x00, 0x00, 0x00, 0x00, 0x00, 0x00,
        0x00, 0x00, 0x00, 0x00, 0x00, 0x00, 0x00, 0xc6, 0x00,
    ];
    assert_eq!(unpacked_bytes(scaleoffset_decompress(&raw, &cd).unwrap()), i32_le(&[0, 1, 2, 3]));
}

#[test]
fn scaleoffset_int_negative() {
    // i32 [-5,-3,-1,0,2,4,7,9], chunk of 8, fill 0 (minval = -5).
    let cd = [2u32, 0, 8, 0, 4, 1, 0, 1, 0];
    let raw = [
        0x04, 0x00, 0x00, 0x00, 0x08, 0xfb, 0xff, 0xff, 0xff, 0xff, 0xff, 0xff, 0xff, 0x00,
        0x00, 0x00, 0x00, 0x00, 0x00, 0x00, 0x00, 0x02, 0x4f, 0x79, 0xce, 0x00,
    ];
    assert_eq!(
        unpacked_bytes(scaleoffset_decompress(&raw, &cd).unwrap()),
        i32_le(&[-5, -3, -1, 0, 2, 4, 7, 9])
    );
}

#[test]
fn scaleoffset_uint() {
    // u32 [100..109], chunk of 10, unsigned (cd[5]==0), minval 100.
    let cd = [2u32, 0, 10, 0, 4, 0, 0, 1, 0];
    let raw = [
        0x04, 0x00, 0x00, 0x00, 0x08, 0x64, 0x00, 0x00, 0x00, 0x00, 0x00, 0x00, 0x00, 0x00,
        0x00, 0x00, 0x00, 0x00, 0x00, 0x00, 0x00, 0x01, 0x23, 0x45, 0x67, 0x89, 0x00,
    ];
    let expected: Vec<u8> = (100u32..110).flat_map(|v| v.to_le_bytes()).collect();
    assert_eq!(unpacked_bytes(scaleoffset_decompress(&raw, &cd).unwrap()), expected);
}

fn as_f32(bytes: &[u8]) -> Vec<f32> {
    bytes
        .chunks_exact(4)
        .map(|c| f32::from_le_bytes(c.try_into().unwrap()))
        .collect()
}

#[test]
fn scaleoffset_float_dscale_d1() {
    // f32 [0,1,2,3], D=1, default fill 0 (element 0 is the fill).
    let cd = [0u32, 1, 4, 1, 4, 0, 0, 1, 0];
    let raw = [
        0x05, 0x00, 0x00, 0x00, 0x08, 0x00, 0x00, 0x80, 0x3f, 0x00, 0x00, 0x00, 0x00, 0x00,
        0x00, 0x00, 0x00, 0x00, 0x00, 0x00, 0x00, 0xf8, 0x15, 0x40,
    ];
    let got = as_f32(&unpacked_bytes(scaleoffset_decompress(&raw, &cd).unwrap()));
    assert_eq!(got, vec![0.0, 1.0, 2.0, 3.0]);
}

#[test]
fn scaleoffset_float_dscale_d3() {
    // f32 [0,0.1,0.2,0.3], D=3 (lossy reconstruction within 10^-3).
    let cd = [0u32, 3, 4, 1, 4, 0, 0, 1, 0];
    let raw = [
        0x08, 0x00, 0x00, 0x00, 0x08, 0xcd, 0xcc, 0xcc, 0x3d, 0x00, 0x00, 0x00, 0x00, 0x00,
        0x00, 0x00, 0x00, 0x00, 0x00, 0x00, 0x00, 0xff, 0x00, 0x64, 0xc8, 0x00,
    ];
    let got = as_f32(&unpacked_bytes(scaleoffset_decompress(&raw, &cd).unwrap()));
    let exp = [0.0f32, 0.1, 0.2, 0.3];
    assert_eq!(got.len(), 4);
    for (g, e) in got.iter().zip(exp.iter()) {
        assert!((g - e).abs() < 1e-3, "got {g} expected {e}");
    }
}

#[test]
fn scaleoffset_float_escale_unsupported() {
    // scale_type 1 = float E-scale — a different algorithm, must be rejected.
    let cd = [1u32, 3, 50, 1, 4, 0, 0, 1, 0];
    let raw = [0u8; 24];
    assert!(matches!(
        scaleoffset_decompress(&raw, &cd),
        Err(FormatError::UnsupportedFilter(FILTER_SCALEOFFSET))
    ));
}

// --- N-Bit (filter id 5) --------------------------------------------------
// Real compressed chunks + client data from h5py 3.16 / HDF5 2.0. The
// expected outputs are the canonical zero-filled element bytes (verified
// equal to the contiguous, un-filtered on-disk layout of the same type).

#[test]
fn nbit_unsigned_12bit() {
    // u32 storage, 12-bit precision: [0, 1, 4095, 2048].
    let cd = [8u32, 0, 4, 1, 4, 0, 12, 0];
    let raw = [0x00, 0x00, 0x01, 0xff, 0xf8, 0x00, 0x00];
    let expected: Vec<u8> = [0u32, 1, 4095, 2048]
        .iter()
        .flat_map(|v| v.to_le_bytes())
        .collect();
    assert_eq!(nbit_decompress(&raw, &cd).unwrap(), expected);
}

#[test]
fn nbit_signed_16bit_zero_filled() {
    // i32 storage, 16-bit precision: [-1, -50, 100, -1000]. N-Bit restores
    // the canonical zero-filled layout (high 16 bits zero); the datatype
    // reader is responsible for sign-extending reduced-precision integers.
    let cd = [8u32, 0, 4, 1, 4, 0, 16, 0];
    let raw = [0xff, 0xff, 0xff, 0xce, 0x00, 0x64, 0xfc, 0x18, 0x00];
    // Canonical bytes captured from an equivalent un-filtered dataset.
    let expected: Vec<u8> = vec![
        0xff, 0xff, 0x00, 0x00, // 0x0000ffff
        0xce, 0xff, 0x00, 0x00, // 0x0000ffce
        0x64, 0x00, 0x00, 0x00, // 0x00000064
        0x18, 0xfc, 0x00, 0x00, // 0x0000fc18
    ];
    assert_eq!(nbit_decompress(&raw, &cd).unwrap(), expected);
}

#[test]
fn nbit_compound_unsupported() {
    // class != 1 (atomic) is the recursive compound/array layout.
    let cd = [8u32, 0, 4, 2, 4, 0, 16, 0];
    assert!(matches!(
        nbit_decompress(&[0u8; 8], &cd),
        Err(FormatError::UnsupportedFilter(FILTER_NBIT))
    ));
}

fn filter(filter_id: u16, client_data: Vec<u32>) -> FilterDescription {
    FilterDescription {
        filter_id,
        name: None,
        flags: 0,
        client_data,
    }
}

fn pipeline(filters: Vec<FilterDescription>) -> FilterPipeline {
    FilterPipeline { version: 2, filters }
}

#[test]
fn every_encoder_in_one_pipeline() {
    let all = pipeline(vec![
        filter(FILTER_SHUFFLE, vec![]),
        filter(FILTER_LZ4, vec![]),
        filter(FILTER_ZSTD, vec![]),
        filter(FILTER_DEFLATE, vec![]),
        filter(FILTER_FLETCHER32, vec![]),
    ]);
    let data: Vec<u8> = (0..4096u32).map(|i| (i / 7) as u8).collect();
    let stored = compress_chunk(&data, &all, 4).unwrap();
    assert_ne!(stored, data);
    let read = decompress_chunk(&stored, &all, data.len(), 4).unwrap();
    assert_eq!(read, Decoded::Bytes(data));
}

#[test]
fn deflate_levels() {
    let data = vec![5u8; 10_000];
    for level in [0, 1, 9, 10, 11, 255, 256, u32::MAX] {
        let stored = deflate_compress(&data, level).unwrap();
        assert_eq!(deflate_decompress(&stored).unwrap(), data);
    }
    assert_eq!(
        deflate_compress(&data, 11).unwrap(),
        deflate_compress(&data, 10).unwrap()
    );
    assert_eq!(
        deflate_compress(&data, 256).unwrap(),
        deflate_compress(&data, 1).unwrap()
    );
    assert!(deflate_compress(&data, 0).unwrap().len() > data.len());
}

#[test]
fn zstd_levels() {
    let data = vec![5u8; 10_000];
    for level in [0, 1, 22, 1000, u32::MAX] {
        let stored = zstd_compress(&data, level).unwrap();
        assert_eq!(zstd_decompress(&stored).unwrap(), data);
    }
}

#[test]
fn empty_chunks() {
    let empty: Vec<u8> = vec![];
    assert_eq!(deflate_decompress(&deflate_compress(&empty, 6).unwrap()).unwrap(), empty);
    assert_eq!(lz4_decompress(&lz4_compress(&empty).unwrap()).unwrap(), empty);
    assert_eq!(zstd_decompress(&zstd_compress(&empty, 3).unwrap()).unwrap(), empty);
    assert_eq!(shuffle_compress(&empty, 8).unwrap(), empty);
    assert_eq!(shuffle_decompress(&empty, 8).unwrap(), empty);
    assert_eq!(fletcher32_append(&empty).unwrap(), vec![0; 4]);
    let none = pipeline(vec![]);
    assert_eq!(compress_chunk(&[1, 2], &none, 1).unwrap(), vec![1, 2]);
    assert_eq!(decompress_chunk(&[1, 2], &none, 2, 1).unwrap(), Decoded::Bytes(vec![1, 2]));
}

#[test]
fn damaged_streams_are_reported() {
    assert!(matches!(
        deflate_decompress(&[1, 2, 3]),
        Err(FormatError::DecompressionError(_))
    ));
    match zstd_decompress(&[1, 2, 3, 4, 5, 6, 7, 8]) {
        Err(FormatError::DecompressionError(text)) => assert!(text.starts_with("zstd: ")),
        other => panic!("{other:?}"),
    }
    assert_eq!(
        lz4_decompress(&[1, 2, 3]),
        Err(FormatError::DecompressionError("lz4: data too short".into()))
    );
    match lz4_decompress(&[1, 0, 0, 0, 0xf0]) {
        Err(FormatError::DecompressionError(text)) => assert!(text.starts_with("lz4: ")),
        other => panic!("{other:?}"),
    }
    // The block holds more than the size field says.
    let mut stored = lz4_compress(&[7; 100]).unwrap();
    assert_eq!(stored[0], 100);
    stored[0] = 99;
    assert!(lz4_decompress(&stored).is_err());
}

#[test]
fn answers_become_results() {
    assert_eq!(decompression_result("x: ", Ok(vec![1])), Ok(vec![1]));
    assert_eq!(
        decompression_result("x: ", Err("bad".into())),
        Err(FormatError::DecompressionError("x: bad".into()))
    );
    assert_eq!(compression_result("", Ok(vec![1])), Ok(vec![1]));
    assert_eq!(
        compression_result("y: ", Err("bad".into())),
        Err(FormatError::CompressionError("y: bad".into()))
    );
}

#[test]
fn unsupported_filters() {
    let unknown = pipeline(vec![filter(4, vec![])]);
    assert_eq!(compress_chunk(&[], &unknown, 1), Err(FormatError::UnsupportedFilter(4)));
    assert_eq!(
        decompress_chunk(&[], &unknown, 0, 1),
        Err(FormatError::UnsupportedFilter(4))
    );
    // The packing filters have decoders only.
    for id in [FILTER_NBIT, FILTER_SCALEOFFSET] {
        let packing = pipeline(vec![filter(id, vec![])]);
        assert_eq!(compress_chunk(&[], &packing, 1), Err(FormatError::UnsupportedFilter(id)));
    }
    // The first filter that fails decides.
    let two = pipeline(vec![filter(4, vec![]), filter(FILTER_SHUFFLE, vec![])]);
    assert_eq!(compress_chunk(&[1], &two, 2), Err(FormatError::UnsupportedFilter(4)));
    assert_eq!(
        decompress_chunk(&[1], &two, 1, 2),
        Err(FormatError::FilterError(
            "shuffle: data length not a multiple of element size".into()
        ))
    );
}

#[test]
fn shuffle_lengths() {
    let uneven = Err(FormatError::FilterError(
        "shuffle: data length not a multiple of element size".into(),
    ));
    assert_eq!(shuffle_compress(&[1, 2, 3], 2), uneven);
    assert_eq!(shuffle_decompress(&[1, 2, 3], 2), uneven);
    assert_eq!(shuffle_compress(&[1, 2, 3], 0), Ok(vec![1, 2, 3]));
    assert_eq!(shuffle_compress(&[1, 2, 3], 1), Ok(vec![1, 2, 3]));
    assert_eq!(shuffle_decompress(&[1, 2, 3], 1), Ok(vec![1, 2, 3]));
    assert_eq!(shuffle_compress(&[1, 2, 3, 4, 5, 6], 3), Ok(vec![1, 4, 2, 5, 3, 6]));
    assert_eq!(shuffle_decompress(&[1, 4, 2, 5, 3, 6], 3), Ok(vec![1, 2, 3, 4, 5, 6]));
}

#[test]
fn fletcher32_values() {
    // Words 0x0102, 0x0304: sums 0x0406 and 0x0508.
    assert_eq!(fletcher32_compute(&[1, 2, 3, 4]), 0x0508_0406);
    // An odd byte is the upper half of a last word.
    assert_eq!(fletcher32_compute(&[1, 2, 3]), 0x0504_0402);
    // 65535 counts as zero.
    assert_eq!(fletcher32_compute(&[0xff, 0xff]), 0);
    // Long inputs are reduced block by block.
    let data: Vec<u8> = (0..5001u32).map(|i| (i * i / 3) as u8).collect();
    let (mut a, mut b) = (0u64, 0u64);
    for pair in data.chunks(2) {
        a += 256 * pair[0] as u64 + *pair.get(1).unwrap_or(&0) as u64;
        b += a;
    }
    assert_eq!(fletcher32_compute(&data) as u64, (b % 65535) * 65536 + a % 65535);
    let worst = vec![0xfeu8; 720 * 4];
    assert!(fletcher32_verify(&fletcher32_append(&worst).unwrap()).is_ok());
    assert_eq!(
        fletcher32_verify(&[1, 2, 3]),
        Err(FormatError::FilterError("fletcher32: data too short for checksum".into()))
    );
    assert_eq!(
        fletcher32_verify(&[1, 2, 9, 0, 0, 0]),
        Err(FormatError::Fletcher32Mismatch { expected: 9, computed: 0x0102_0102 })
    );
}

#[test]
fn sign_extension() {
    assert_eq!(sign_extend(0xff, 1, true), -1);
    assert_eq!(sign_extend(0xff, 1, false), 255);
    assert_eq!(sign_extend(0x1_80, 1, true), -128);
    assert_eq!(sign_extend(0x7f, 1, true), 127);
    assert_eq!(sign_extend(0x80_0000, 3, true), -0x80_0000);
    assert_eq!(sign_extend(u64::MAX, 8, false), -1);
    assert_eq!(sign_extend(u64::MAX, 0, false), -1);
    assert_eq!(read_le_int(&[0xfe, 0xff], true), -2);
    assert_eq!(read_le_int(&[0xfe, 0xff], false), 0xfffe);
    assert_eq!(read_le_int(&[], true), 0);
    assert_eq!(read_le_int(&[1, 0, 0, 0, 0, 0, 0, 0, 9], true), 1);
    assert_eq!(read_le_float_bits(&[1, 2, 3, 4, 5], 4), 0x0403_0201);
    assert_eq!(read_le_float_bits(&[1, 2], 8), 0x0201);
}

#[test]
fn elements_in_both_byte_orders() {
    assert_eq!(write_elements(&[-2, 0x1_0203], 2, false), vec![0xfe, 0xff, 0x03, 0x02]);
    assert_eq!(write_elements(&[-2, 0x1_0203], 2, true), vec![0xff, 0xfe, 0x02, 0x03]);
    assert_eq!(write_elements(&[7], 0, true), Vec::<u8>::new());
}

fn chunked(text: &str) -> FormatError {
    FormatError::ChunkedReadError(text.into())
}

#[test]
fn scaleoffset_errors() {
    let cd = [2u32, 0, 4, 0, 4, 1, 0, 1, 0];
    let error = |data: &[u8], cd: &[u32]| scaleoffset_decompress(data, cd).unwrap_err();
    assert_eq!(error(&[], &cd[..7]), chunked("scale-offset: missing filter client data"));
    for size in [0, 9] {
        let mut bad = cd;
        bad[4] = size;
        assert_eq!(error(&[], &bad), chunked("scale-offset: unsupported element size"));
    }
    let mut narrow = cd;
    narrow[0] = 0;
    narrow[4] = 2;
    assert_eq!(error(&[], &narrow), chunked("scale-offset: unsupported element size"));
    assert_eq!(error(&[2, 0, 0, 0], &cd), chunked("scale-offset: truncated header"));
    assert_eq!(error(&[2, 0, 0, 0, 1], &cd), chunked("scale-offset: truncated minval"));
    assert_eq!(error(&[65, 0, 0, 0, 0], &cd), chunked("scale-offset: implausible minbits"));
    assert_eq!(
        error(&[2, 0, 0, 0, 0, 0, 0, 0, 0, 0, 0, 0], &cd),
        chunked("scale-offset: truncated packed data")
    );
    let mut short = vec![3, 0, 0, 0, 0];
    short.extend_from_slice(&[0; 9]);
    assert_eq!(error(&short, &cd), chunked("scale-offset: packed data too short"));
}

#[test]
fn scaleoffset_without_payload_and_big_endian() {
    // No bits: every element is the minimum.
    let cd = [2u32, 0, 3, 0, 2, 1, 1, 0];
    assert_eq!(
        scaleoffset_decompress(&[0, 0, 0, 0, 1, 0xfd], &cd),
        Ok(Unpacked::Bytes(vec![0xff, 0xfd, 0xff, 0xfd, 0xff, 0xfd]))
    );
    // All 64 bits: no code is left for the fill value.
    let cd = [2u32, 0, 1, 0, 8, 0, 0, 1, 5, 6];
    let mut data = vec![64, 0, 0, 0, 1, 1];
    data.extend_from_slice(&[0; 8]);
    data.extend_from_slice(&[0xff; 8]);
    assert_eq!(scaleoffset_decompress(&data, &cd), Ok(Unpacked::Bytes(vec![0; 8])));
    // A fill value in two words.
    let cd = [2u32, 0, 2, 0, 8, 0, 0, 1, 5, 6];
    let mut data = vec![1, 0, 0, 0, 0];
    data.extend_from_slice(&[0; 8]);
    data.push(0b1000_0000);
    assert_eq!(
        scaleoffset_decompress(&data, &cd),
        Ok(Unpacked::Bytes(vec![5, 0, 0, 0, 6, 0, 0, 0, 0, 0, 0, 0, 0, 0, 0, 0]))
    );
}

#[test]
fn floats_interrupt_the_pipeline() {
    let cd = vec![0u32, 1, 4, 1, 4, 0, 0, 1, 0];
    let raw = [
        0x05, 0x00, 0x00, 0x00, 0x08, 0x00, 0x00, 0x80, 0x3f, 0x00, 0x00, 0x00, 0x00, 0x00, 0x00,
        0x00, 0x00, 0x00, 0x00, 0x00, 0x00, 0xf8, 0x15, 0x40,
    ];
    let both = pipeline(vec![filter(FILTER_SHUFFLE, vec![]), filter(FILTER_SCALEOFFSET, cd)]);
    match decompress_chunk(&raw, &both, 16, 4).unwrap() {
        Decoded::Floats { codes, remaining } => {
            assert_eq!(remaining, 1);
            assert_eq!(codes.codes, vec![31, 0, 10, 20]);
            assert_eq!(codes.fill_code, Some(31));
            assert_eq!(codes.minval_bits, 0x3f80_0000);
            assert_eq!(codes.scale_digits, 1);
            let bytes = float_bytes(&codes);
            let rest = resume_chunk(bytes.clone(), &both, remaining, 4).unwrap();
            assert_eq!(rest, Decoded::Bytes(shuffle_decompress(&bytes, 4).unwrap()));
        }
        other => panic!("{other:?}"),
    }
}

#[test]
fn nbit_errors_and_offsets() {
    let error = |data: &[u8], cd: &[u32]| nbit_decompress(data, cd).unwrap_err();
    assert_eq!(error(&[], &[0; 7]), chunked("nbit: missing filter client data"));
    for bad in [
        [8u32, 0, 4, 1, 0, 0, 12, 0],
        [8, 0, 4, 1, 9, 0, 12, 0],
        [8, 0, 4, 1, 4, 0, 0, 0],
        [8, 0, 4, 1, 4, 0, 12, 21],
        [8, 0, 4, 1, 4, 0, u32::MAX, u32::MAX],
    ] {
        assert_eq!(error(&[0; 8], &bad), chunked("nbit: invalid atomic parameters"));
    }
    assert_eq!(
        error(&[0; 5], &[8, 0, 4, 1, 4, 0, 12, 0]),
        chunked("nbit: packed data too short")
    );
    // Four bits at bit 4, most significant byte first.
    assert_eq!(
        nbit_decompress(&[0x9a], &[8, 0, 2, 1, 2, 1, 4, 4]),
        Ok(vec![0x00, 0x90, 0x00, 0xa0])
    );
}

#[test]
fn lz4_length_fields() {
    // A length field of 255 times 16843010 does not fit 32 bits.
    let mut long = vec![1, 0, 0, 0, 0xf0];
    long.extend(std::iter::repeat(0xff).take(16_843_010));
    long.push(0);
    assert_eq!(
        lz4_decompress(&long),
        Err(FormatError::DecompressionError("lz4: length field too large".into()))
    );
    // What the decoder reports before it comes to the field goes first.
    let early: [(&[u8], &str); 5] = [
        (&[0x10, b'a', 1, 0, 0xf0], "provided output is too small"),
        (&[0x0f, 0, 0], "0 is not a valid match offset"),
        (&[0x0f, 9, 0, 0, 0xf0], "provided output is too small"),
        (&[0x20, b'a', b'b', 0, 0, 0xf0], "provided output is too small"),
        (&[0x00, 0, 0, 0xf0], "0 is not a valid match offset"),
    ];
    for (start, text) in early {
        let mut block = vec![1, 0, 0, 0];
        block.extend_from_slice(start);
        block.extend(std::iter::repeat(0xff).take(16_843_010));
        block.push(0);
        match lz4_decompress(&block) {
            Err(FormatError::DecompressionError(message)) => {
                assert!(message.starts_with("lz4: "));
                assert!(message.contains(text));
            }
            other => panic!("{other:?}"),
        }
    }
    // As many literals of that value are no length field.
    let count: u32 = 17_000_000;
    let mut stored = count.to_le_bytes().to_vec();
    stored.push(0xf0);
    stored.extend(std::iter::repeat(0xff).take((count as usize - 15) / 255));
    stored.push(((count - 15) % 255) as u8);
    stored.extend(std::iter::repeat(0xff).take(count as usize));
    assert_eq!(lz4_decompress(&stored).unwrap(), vec![0xff; count as usize]);
    // Long matches and long literals pass.
    let mut data: Vec<u8> = (0..100_000u32).map(|i| (i * i >> 7) as u8).collect();
    data.extend(std::iter::repeat(3).take(100_000));
    assert_eq!(lz4_decompress(&lz4_compress(&data).unwrap()).unwrap(), data);
}
