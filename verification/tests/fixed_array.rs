use clawhdf5_format::error::FormatError;
use clawhdf5_format::fixed_array::{
    index_to_chunk_offsets, is_undefined, parse_fa_element, read_fixed_array_chunks, read_length,
    read_offset, read_variable_length, FixedArrayHeader,
};

#[test]
fn index_to_offsets_1d() {
    let num_chunks = vec![5u64];
    let chunk_dims = vec![20u32];
    assert_eq!(index_to_chunk_offsets(0, &num_chunks, &chunk_dims), vec![0]);
    assert_eq!(
        index_to_chunk_offsets(1, &num_chunks, &chunk_dims),
        vec![20]
    );
    assert_eq!(
        index_to_chunk_offsets(4, &num_chunks, &chunk_dims),
        vec![80]
    );
}

#[test]
fn index_to_offsets_2d() {
    // 10x6 dataset with 4x3 chunks => ceil(10/4)=3, ceil(6/3)=2 => 6 chunks
    let num_chunks = vec![3u64, 2];
    let chunk_dims = vec![4u32, 3];
    assert_eq!(
        index_to_chunk_offsets(0, &num_chunks, &chunk_dims),
        vec![0, 0]
    );
    assert_eq!(
        index_to_chunk_offsets(1, &num_chunks, &chunk_dims),
        vec![0, 3]
    );
    assert_eq!(
        index_to_chunk_offsets(2, &num_chunks, &chunk_dims),
        vec![4, 0]
    );
    assert_eq!(
        index_to_chunk_offsets(3, &num_chunks, &chunk_dims),
        vec![4, 3]
    );
    assert_eq!(
        index_to_chunk_offsets(5, &num_chunks, &chunk_dims),
        vec![8, 3]
    );
}

#[test]
fn read_variable_length_values() {
    assert_eq!(read_variable_length(&[0x78, 0x56], 2).unwrap(), 0x5678);
    assert_eq!(
        read_variable_length(&[0x01, 0x02, 0x03, 0x04], 4).unwrap(),
        0x04030201
    );
    assert_eq!(read_variable_length(&[0xFF], 1).unwrap(), 0xFF);
}

#[test]
fn parse_fixed_array_header_valid() {
    let mut buf = vec![0u8; 256];
    // FAHD signature
    buf[0..4].copy_from_slice(b"FAHD");
    buf[4] = 0; // version
    buf[5] = 1; // client_id = filtered
    buf[6] = 16; // element_size
    buf[7] = 10; // max_nelmts_bits (page_size = 1024)
    // num_elements (length_size=8)
    buf[8..16].copy_from_slice(&5u64.to_le_bytes());
    // data_block_address (offset_size=8)
    buf[16..24].copy_from_slice(&0x1000u64.to_le_bytes());
    // checksum (4 bytes, we don't validate in parse)

    let header = FixedArrayHeader::parse(&buf, 0, 8, 8).unwrap();
    assert_eq!(header.client_id, 1);
    assert_eq!(header.element_size, 16);
    assert_eq!(header.max_nelmts_bits, 10);
    assert_eq!(header.num_elements, 5);
    assert_eq!(header.data_block_address, 0x1000);
}

#[test]
fn parse_fixed_array_header_invalid_signature() {
    let mut buf = vec![0u8; 256];
    buf[0..4].copy_from_slice(b"XXXX");
    let result = FixedArrayHeader::parse(&buf, 0, 8, 8);
    assert!(result.is_err());
}

#[test]
fn parse_fixed_array_header_invalid_version() {
    let mut buf = vec![0u8; 256];
    buf[0..4].copy_from_slice(b"FAHD");
    buf[4] = 1; // unsupported version
    let result = FixedArrayHeader::parse(&buf, 0, 8, 8);
    assert!(result.is_err());
}

/// Build a synthetic Fixed Array (non-filtered) and verify reading.
#[test]
fn read_non_filtered_chunks() {
    let offset_size: u8 = 8;
    let length_size: u8 = 8;
    let os = offset_size as usize;
    let num_chunks = 5u64;

    let mut file_data = vec![0u8; 0x3000];

    // Build FAHD at offset 0x100
    let fahd_offset = 0x100usize;
    let db_offset = 0x200usize;
    file_data[fahd_offset..fahd_offset + 4].copy_from_slice(b"FAHD");
    file_data[fahd_offset + 4] = 0; // version
    file_data[fahd_offset + 5] = 0; // client_id = non-filtered
    file_data[fahd_offset + 6] = os as u8; // element_size = just address
    file_data[fahd_offset + 7] = 10; // max_nelmts_bits
    file_data[fahd_offset + 8..fahd_offset + 16].copy_from_slice(&num_chunks.to_le_bytes());
    file_data[fahd_offset + 16..fahd_offset + 24]
        .copy_from_slice(&(db_offset as u64).to_le_bytes());

    // Build FADB at db_offset
    file_data[db_offset..db_offset + 4].copy_from_slice(b"FADB");
    file_data[db_offset + 4] = 0; // version
    file_data[db_offset + 5] = 0; // client_id
    file_data[db_offset + 6..db_offset + 14]
        .copy_from_slice(&(fahd_offset as u64).to_le_bytes()); // header_address

    // Elements: 5 addresses
    let elem_start = db_offset + 6 + os;
    let base_addr = 0x1000u64;
    let chunk_byte_size = 20 * 8; // 20 elements of 8 bytes
    for i in 0..5 {
        let addr = base_addr + i as u64 * chunk_byte_size as u64;
        let pos = elem_start + i * os;
        file_data[pos..pos + os].copy_from_slice(&addr.to_le_bytes());
    }

    let header =
        FixedArrayHeader::parse(&file_data, fahd_offset, offset_size, length_size).unwrap();
    let ds_dims = vec![100u64];
    let chunk_dims = vec![20u32];
    let chunks = read_fixed_array_chunks(
        &file_data,
        &header,
        &ds_dims,
        &chunk_dims,
        8,
        offset_size,
        length_size,
    )
    .unwrap();

    assert_eq!(chunks.len(), 5);
    for (i, c) in chunks.iter().enumerate() {
        assert_eq!(c.address, base_addr + i as u64 * chunk_byte_size as u64);
        assert_eq!(c.offsets, vec![i as u64 * 20]);
        assert_eq!(c.filter_mask, 0);
        assert_eq!(c.chunk_size, chunk_byte_size as u32);
    }
}

/// Build a synthetic Fixed Array (filtered) and verify reading.
#[test]
fn read_filtered_chunks() {
    let offset_size: u8 = 8;
    let length_size: u8 = 8;
    let os = offset_size as usize;
    let num_chunks = 3u64;
    // element_size for filtered: offset_size + chunk_size_bytes + 4(filter_mask)
    // chunk_size_bytes: let's use 4 bytes
    let chunk_size_bytes = 4usize;
    let elem_size = os + chunk_size_bytes + 4;

    let mut file_data = vec![0u8; 0x3000];

    let fahd_offset = 0x100usize;
    let db_offset = 0x200usize;
    file_data[fahd_offset..fahd_offset + 4].copy_from_slice(b"FAHD");
    file_data[fahd_offset + 4] = 0;
    file_data[fahd_offset + 5] = 1; // client_id = filtered
    file_data[fahd_offset + 6] = elem_size as u8;
    file_data[fahd_offset + 7] = 10;
    file_data[fahd_offset + 8..fahd_offset + 16].copy_from_slice(&num_chunks.to_le_bytes());
    file_data[fahd_offset + 16..fahd_offset + 24]
        .copy_from_slice(&(db_offset as u64).to_le_bytes());

    file_data[db_offset..db_offset + 4].copy_from_slice(b"FADB");
    file_data[db_offset + 4] = 0;
    file_data[db_offset + 5] = 1;
    file_data[db_offset + 6..db_offset + 14]
        .copy_from_slice(&(fahd_offset as u64).to_le_bytes());

    let elem_start = db_offset + 6 + os;
    let test_chunks = [
        (0x1000u64, 120u32, 0u32),
        (0x2000u64, 115u32, 0u32),
        (0x3000u64, 100u32, 0u32),
    ];

    for (i, &(addr, csize, fmask)) in test_chunks.iter().enumerate() {
        let pos = elem_start + i * elem_size;
        file_data[pos..pos + os].copy_from_slice(&addr.to_le_bytes());
        // chunk_size as 4 bytes LE
        file_data[pos + os..pos + os + 4].copy_from_slice(&csize.to_le_bytes());
        file_data[pos + os + 4..pos + os + 8].copy_from_slice(&fmask.to_le_bytes());
    }

    let header =
        FixedArrayHeader::parse(&file_data, fahd_offset, offset_size, length_size).unwrap();
    let ds_dims = vec![60u64];
    let chunk_dims = vec![20u32];
    let chunks = read_fixed_array_chunks(
        &file_data,
        &header,
        &ds_dims,
        &chunk_dims,
        8,
        offset_size,
        length_size,
    )
    .unwrap();

    assert_eq!(chunks.len(), 3);
    assert_eq!(chunks[0].address, 0x1000);
    assert_eq!(chunks[0].chunk_size, 120);
    assert_eq!(chunks[0].filter_mask, 0);
    assert_eq!(chunks[0].offsets, vec![0]);
    assert_eq!(chunks[1].address, 0x2000);
    assert_eq!(chunks[1].chunk_size, 115);
    assert_eq!(chunks[2].address, 0x3000);
    assert_eq!(chunks[2].chunk_size, 100);
}

/// Build a synthetic *paged* Fixed Array (non-filtered) and verify reading.
///
/// After the FADB prefix comes a page-init bitmap (MSB-first within each
/// byte), a 4-byte checksum, then full-size page slots (`page_nelmts`
/// elements + a 4-byte checksum each), with only the last page shorter.
/// Uninitialized pages occupy their slot but are skipped via the bitmap.
#[test]
fn read_paged_non_filtered_chunks() {
    let offset_size: u8 = 8;
    let length_size: u8 = 8;
    let os = offset_size as usize;

    // page_nelmts = 1 << 2 = 4. Use 11 elements => 3 pages
    // (page0: 4, page1: 4, page2: 3 short). Initialize pages 0 and 2; leave
    // page 1 uninitialized. 3 pages still fits one bitmap byte, but we place
    // the set bits at positions 7 and 5 to lock the MSB-first ordering.
    let max_nelmts_bits = 2u8;
    let page_nelmts = 1usize << max_nelmts_bits; // 4
    let num_elements = 11u64;
    let db_header_size = 4 + 1 + 1 + os; // FADB sig+ver+client+header_addr
    let bitmap_size = 1usize; // ceil(3/8)
    let page_total = page_nelmts * os + 4; // elements + checksum

    let fahd_offset = 0x100usize;
    let db_offset = 0x400usize;
    let mut file_data = vec![0u8; 0x4000];

    // FAHD
    file_data[fahd_offset..fahd_offset + 4].copy_from_slice(b"FAHD");
    file_data[fahd_offset + 4] = 0; // version
    file_data[fahd_offset + 5] = 0; // client_id = non-filtered
    file_data[fahd_offset + 6] = os as u8; // element_size = address only
    file_data[fahd_offset + 7] = max_nelmts_bits;
    file_data[fahd_offset + 8..fahd_offset + 16].copy_from_slice(&num_elements.to_le_bytes());
    file_data[fahd_offset + 16..fahd_offset + 24]
        .copy_from_slice(&(db_offset as u64).to_le_bytes());

    // FADB prefix
    file_data[db_offset..db_offset + 4].copy_from_slice(b"FADB");
    file_data[db_offset + 4] = 0; // version
    file_data[db_offset + 5] = 0; // client_id
    file_data[db_offset + 6..db_offset + 6 + os]
        .copy_from_slice(&(fahd_offset as u64).to_le_bytes());

    // Page-init bitmap: pages 0 and 2 initialized, page 1 not.
    // MSB-first => page0 -> bit7 (0x80), page2 -> bit5 (0x20) => 0xA0.
    let bitmap_off = db_offset + db_header_size;
    file_data[bitmap_off] = 0b1010_0000;

    // Pages start after bitmap + 4-byte checksum.
    let pages_start = db_offset + db_header_size + bitmap_size + 4;

    let base_addr = 0x1000u64;
    // Page 0 (elements 0..4) and page 2 (elements 8..11) carry addresses;
    // page 1's slot is left zero-filled and must be skipped.
    for &p in &[0usize, 2usize] {
        let page_off = pages_start + p * page_total;
        let count = page_nelmts.min(num_elements as usize - p * page_nelmts);
        for e in 0..count {
            let i = p * page_nelmts + e;
            let addr = base_addr + i as u64 * 0x100;
            let pos = page_off + e * os;
            file_data[pos..pos + os].copy_from_slice(&addr.to_le_bytes());
        }
    }

    let header =
        FixedArrayHeader::parse(&file_data, fahd_offset, offset_size, length_size).unwrap();
    assert_eq!(header.num_elements, 11);

    let ds_dims = vec![11u64 * 20];
    let chunk_dims = vec![20u32];
    let chunks = read_fixed_array_chunks(
        &file_data,
        &header,
        &ds_dims,
        &chunk_dims,
        8,
        offset_size,
        length_size,
    )
    .unwrap();

    // Page 1 (elements 4,5,6,7) is uninitialized => skipped. The remaining
    // 7 chunks (0..4 and 8..11) come back with their original linear index.
    assert_eq!(chunks.len(), 7);
    let mut got: Vec<(u64, u64)> = chunks
        .iter()
        .map(|c| (c.offsets[0], c.address))
        .collect();
    got.sort();
    let expect: Vec<(u64, u64)> = [0usize, 1, 2, 3, 8, 9, 10]
        .iter()
        .map(|&i| (i as u64 * 20, base_addr + i as u64 * 0x100))
        .collect();
    assert_eq!(got, expect);
}

fn array_header(
    client_id: u8,
    element_size: u8,
    num_elements: u64,
    address: u64,
) -> FixedArrayHeader {
    FixedArrayHeader {
        client_id,
        element_size,
        max_nelmts_bits: 10,
        num_elements,
        data_block_address: address,
    }
}

#[test]
fn offset_fields_by_width() {
    let data = [0x34, 0x12, 0x78, 0x56, 0xbc, 0x9a, 0xf0, 0xde, 0x01];
    assert_eq!(read_offset(&data, 0, 2), Ok(0x1234));
    assert_eq!(read_offset(&data, 1, 4), Ok(0xbc567812));
    assert_eq!(read_length(&data, 0, 8), Ok(0xdef0_9abc_5678_1234));
    assert_eq!(read_offset(&data, 0, 3), Err(FormatError::InvalidOffsetSize(3)));
    assert_eq!(
        read_offset(&data, 2, 8),
        Err(FormatError::UnexpectedEof { expected: 10, available: 9 })
    );
    assert_eq!(
        read_offset(&data, usize::MAX, 8),
        Err(FormatError::UnexpectedEof { expected: usize::MAX, available: 9 })
    );
}

#[test]
fn undefined_addresses() {
    let data = [0xff, 0xff, 0xff, 0xff, 0x00];
    assert!(is_undefined(&data, 0, 4));
    assert!(!is_undefined(&data, 1, 4));
    assert!(!is_undefined(&data, 4, 4));
    assert!(!is_undefined(&data, usize::MAX, 4));
    assert!(is_undefined(&data, 5, 0));
}

#[test]
fn header_errors() {
    let mut buf = vec![0u8; 27];
    assert_eq!(
        FixedArrayHeader::parse(&buf, 0, 8, 8).unwrap_err(),
        FormatError::UnexpectedEof { expected: 28, available: 27 }
    );
    assert_eq!(
        FixedArrayHeader::parse(&buf, usize::MAX, 8, 8).unwrap_err(),
        FormatError::UnexpectedEof { expected: usize::MAX, available: 27 }
    );
    buf.push(0);
    assert_eq!(
        FixedArrayHeader::parse(&buf, 0, 8, 8).unwrap_err(),
        FormatError::ChunkedReadError("invalid Fixed Array header signature".into())
    );
    buf[0..4].copy_from_slice(b"FAHD");
    buf[4] = 203;
    assert_eq!(
        FixedArrayHeader::parse(&buf, 0, 8, 8).unwrap_err(),
        FormatError::ChunkedReadError("unsupported Fixed Array header version: 203".into())
    );
    buf[4] = 0;
    assert_eq!(
        FixedArrayHeader::parse(&buf, 0, 8, 5).unwrap_err(),
        FormatError::InvalidOffsetSize(5)
    );
    assert_eq!(
        FixedArrayHeader::parse(&buf, 0, 3, 8).unwrap_err(),
        FormatError::InvalidOffsetSize(3)
    );
    assert!(FixedArrayHeader::parse(&buf, 0, 8, 8).is_ok());
}

#[test]
fn variable_length_limits() {
    assert_eq!(read_variable_length(&[], 0), Ok(0));
    let bad = Err(FormatError::ChunkedReadError("invalid variable-length size".into()));
    assert_eq!(read_variable_length(&[0; 16], 9), bad);
    assert_eq!(read_variable_length(&[0; 3], 4), bad);
    assert_eq!(read_variable_length(&[0xff; 8], 8), Ok(u64::MAX));
}

#[test]
fn elements_one_by_one() {
    let mut data = vec![0u8; 32];
    data[0..4].copy_from_slice(&0x1000u32.to_le_bytes());
    // Unfiltered: the address alone; the chunk size wraps at 32 bits.
    assert_eq!(
        parse_fa_element(&data, 0, 0, 4, 4, 0x1_0000_0005),
        Ok(Some((0x1000, 5, 0)))
    );
    assert_eq!(
        parse_fa_element(&data, 30, 0, 4, 4, 1),
        Err(FormatError::UnexpectedEof { expected: 34, available: 32 })
    );
    // Filtered: address, size in two bytes, mask.
    data[4..6].copy_from_slice(&300u16.to_le_bytes());
    data[6..10].copy_from_slice(&7u32.to_le_bytes());
    assert_eq!(parse_fa_element(&data, 0, 1, 4, 10, 1), Ok(Some((0x1000, 300, 7))));
    assert_eq!(
        parse_fa_element(&data, 0, 1, 4, 7, 1),
        Err(FormatError::ChunkedReadError(
            "element_size too small for filtered element".into()
        ))
    );
    assert_eq!(
        parse_fa_element(&data, 23, 1, 4, 10, 1),
        Err(FormatError::UnexpectedEof { expected: 33, available: 32 })
    );
    assert_eq!(
        parse_fa_element(&data, 0, 1, 4, 20, 1),
        Err(FormatError::ChunkedReadError("invalid variable-length size".into()))
    );
    // An undefined address is no chunk.
    data[0..4].copy_from_slice(&[0xff; 4]);
    assert_eq!(parse_fa_element(&data, 0, 0, 4, 4, 1), Ok(None));
    assert_eq!(parse_fa_element(&data, 0, 1, 4, 10, 1), Ok(None));
    assert_eq!(
        parse_fa_element(&data, 8, 0, 3, 4, 1),
        Err(FormatError::InvalidOffsetSize(3))
    );
}

#[test]
fn data_block_errors() {
    let mut file = vec![0u8; 64];
    let header = array_header(0, 8, 2, 16);
    let read = |file: &[u8], header: &FixedArrayHeader, dims: &[u32]| {
        read_fixed_array_chunks(file, header, &[100], dims, 8, 8, 8)
    };
    assert_eq!(
        read(&file, &header, &[20]),
        Err(FormatError::ChunkedReadError(
            "invalid Fixed Array data block signature".into()
        ))
    );
    assert_eq!(
        read(&file, &array_header(0, 8, 2, 60), &[20]),
        Err(FormatError::UnexpectedEof { expected: 74, available: 64 })
    );
    assert_eq!(
        read(&file, &array_header(0, 8, 2, u64::MAX), &[20]),
        Err(FormatError::UnexpectedEof { expected: usize::MAX, available: 64 })
    );
    file[16..20].copy_from_slice(b"FADB");
    assert_eq!(
        read(&file, &header, &[0]),
        Err(FormatError::ChunkedReadError("chunk dimension is zero".into()))
    );
    assert_eq!(read(&file, &header, &[20]).unwrap().len(), 2);
    // The fifth element is cut off.
    assert_eq!(
        read(&file, &array_header(0, 8, 5, 16), &[20]),
        Err(FormatError::UnexpectedEof { expected: 70, available: 64 })
    );
    // A page size of 2^200 holds any number of elements.
    let mut one_page = array_header(0, 8, 2, 16);
    one_page.max_nelmts_bits = 200;
    assert_eq!(read(&file, &one_page, &[20]).unwrap().len(), 2);
    // The page bitmap is cut off.
    let mut paged = array_header(0, 8, 4096, 16);
    paged.max_nelmts_bits = 0;
    assert_eq!(
        read(&file, &paged, &[20]),
        Err(FormatError::UnexpectedEof { expected: 30 + 512, available: 64 })
    );
}

#[test]
fn zero_chunk_dimension_needs_no_dataset_dimension() {
    let mut file = vec![0u8; 64];
    file[16..20].copy_from_slice(b"FADB");
    assert_eq!(
        read_fixed_array_chunks(&file, &array_header(0, 8, 2, 16), &[], &[0, 5], 8, 8, 8),
        Err(FormatError::ChunkedReadError("chunk dimension is zero".into()))
    );
}

#[test]
fn unfiltered_chunk_size_wraps() {
    let mut file = vec![0u8; 64];
    file[16..20].copy_from_slice(b"FADB");
    let chunks = read_fixed_array_chunks(
        &file,
        &array_header(0, 8, 1, 16),
        &[10, 10],
        &[0x8000_0000, 0x8000_0001],
        5,
        8,
        8,
    )
    .unwrap();
    // 2^31 * (2^31 + 1) * 5, modulo 2^32.
    assert_eq!(chunks[0].chunk_size, 0x8000_0000);
}

#[test]
fn offsets_skip_empty_dimensions() {
    assert_eq!(index_to_chunk_offsets(5, &[3, 0, 4], &[10, 7, 2]), vec![10, 0, 2]);
    assert_eq!(index_to_chunk_offsets(5, &[], &[]), Vec::<u64>::new());
    // A dimension without chunks needs no chunk length.
    assert_eq!(index_to_chunk_offsets(2, &[3, 0], &[10]), vec![20, 0]);
}

#[test]
fn offsets_are_distinct_and_in_the_dataset() {
    // 7 x 5 dataset in 3 x 2 chunks: a grid of 3 x 3.
    let mut seen = Vec::new();
    for index in 0..9 {
        let at = index_to_chunk_offsets(index, &[3, 3], &[3, 2]);
        assert!(at[0] < 7 && at[0] % 3 == 0);
        assert!(at[1] < 5 && at[1] % 2 == 0);
        assert_eq!((at[0] / 3) * 3 + at[1] / 2, index as u64);
        assert!(!seen.contains(&at));
        seen.push(at);
    }
}

#[test]
fn clear_pages_do_not_matter() {
    // Two elements per page, three pages, of which the first is not allocated.
    let mut header = array_header(0, 8, 5, 0);
    header.max_nelmts_bits = 1;
    let mut file = b"FADB\0\0".to_vec();
    file.extend([0; 8]);
    file.push(0b0110_0000);
    file.extend([0; 4]);
    let pages = file.len();
    for i in 0..6u64 {
        file.extend((0x1000 + i).to_le_bytes());
        if i % 2 == 1 {
            file.extend([0; 4]);
        }
    }
    let read = |file: &[u8]| read_fixed_array_chunks(file, &header, &[50], &[10], 8, 8, 8).unwrap();
    let chunks = read(&file);
    let starts: Vec<u64> = chunks.iter().map(|c| c.offsets[0]).collect();
    assert_eq!(starts, vec![20, 30, 40]);
    let mut other = file.clone();
    other[pages..pages + 20].fill(0xa5);
    assert_eq!(read(&other), chunks);
    // Bytes of the next page do.
    other[pages + 20] ^= 1;
    assert_ne!(read(&other), chunks);
}
