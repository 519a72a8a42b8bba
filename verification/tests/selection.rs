use clawhdf5_format::error::FormatError;
use clawhdf5_format::selection::Selection;

#[test]
fn selection_all_num_elements() {
    let sel = Selection::All;
    assert_eq!(sel.num_elements(&[100, 200]), 20000);
}

#[test]
fn selection_none_num_elements() {
    let sel = Selection::Nothing;
    assert_eq!(sel.num_elements(&[100, 200]), 0);
}

#[test]
fn selection_slice_basic() {
    let sel = Selection::slice(&[20..30, 40..60]);
    assert_eq!(sel.num_elements(&[100, 100]), 200); // 10 * 20
    assert_eq!(sel.output_shape(&[100, 100]), vec![10, 20]);
}

#[test]
fn selection_slice_1d() {
    let sel = Selection::slice(&[5..15]);
    assert_eq!(sel.num_elements(&[100]), 10);
    assert_eq!(sel.output_shape(&[100]), vec![10]);
}

#[test]
fn selection_intersects_chunk_basic() {
    let sel = Selection::slice(&[20..30, 40..60]);

    // Chunk [20..30, 40..50] - overlaps
    assert!(sel.intersects_chunk(&[20, 40], &[10, 10]));

    // Chunk [0..10, 0..10] - no overlap
    assert!(!sel.intersects_chunk(&[0, 0], &[10, 10]));

    // Chunk [20..30, 50..60] - overlaps
    assert!(sel.intersects_chunk(&[20, 50], &[10, 10]));

    // Chunk [30..40, 40..50] - no overlap (just past end in dim 0)
    assert!(!sel.intersects_chunk(&[30, 40], &[10, 10]));
}

#[test]
fn selection_chunk_local_ranges_simple() {
    let sel = Selection::slice(&[25..35, 40..60]);

    // Chunk [20..30, 40..50]
    let ranges = sel.chunk_local_ranges(&[20, 40], &[10, 10]);
    assert_eq!(ranges[0], 5..10); // rows 25..30 within chunk starting at 20
    assert_eq!(ranges[1], 0..10); // cols 40..50 fully selected
}

#[test]
fn selection_points() {
    let sel = Selection::Points(vec![vec![1, 2], vec![3, 4], vec![5, 6]]);
    assert_eq!(sel.num_elements(&[10, 10]), 3);
    assert_eq!(sel.rank(), Some(2));
}

#[test]
fn selection_all_intersects_any_chunk() {
    let sel = Selection::All;
    assert!(sel.intersects_chunk(&[0, 0], &[10, 10]));
    assert!(sel.intersects_chunk(&[100, 100], &[1, 1]));
}

#[test]
fn selection_hyperslab_strided() {
    // Select every other row: start=0, stride=2, count=5, block=1 in a 10-element dim
    let sel = Selection::Hyperslab {
        start: vec![0],
        stride: vec![2],
        count: vec![5],
        block: vec![1],
    };
    assert_eq!(sel.num_elements(&[10]), 5); // 5 blocks * 1 element each

    // Chunk [0..5] should intersect (contains rows 0, 2, 4)
    assert!(sel.intersects_chunk(&[0], &[5]));
    // Chunk [9..10] should not intersect (only row 9, but selection ends at row 8)
    assert!(!sel.intersects_chunk(&[9], &[1]));
}

#[test]
fn decode_all_selection_16_bytes() {
    let bytes = [3u8, 0, 0, 0, 1, 0, 0, 0, 0, 0, 0, 0, 0, 0, 0, 0];
    let (sel, consumed) = Selection::decode_serialized(&bytes).unwrap();
    assert_eq!(sel, Selection::All);
    assert_eq!(consumed, 16);
    assert_eq!(sel.iter_linear_1d(4).unwrap(), vec![0, 1, 2, 3]);
}

#[test]
fn decode_regular_hyperslab_matches_vds_fixture() {
    // Exact virtual selection for src_a in the VDS fixture:
    // start=0 stride=1 count=1 block=4, version 3, enc_size 2, rank 1.
    let bytes = [
        0x02, 0, 0, 0, // type = HYPER
        0x03, 0, 0, 0, // version 3
        0x01, // flags = regular
        0x02, // enc_size = 2
        0x01, 0, 0, 0, // rank = 1
        0x00, 0x00, // start
        0x01, 0x00, // stride
        0x01, 0x00, // count
        0x04, 0x00, // block
    ];
    let (sel, consumed) = Selection::decode_serialized(&bytes).unwrap();
    assert_eq!(consumed, 22);
    assert_eq!(
        sel,
        Selection::Hyperslab {
            start: vec![0],
            stride: vec![1],
            count: vec![1],
            block: vec![4],
        }
    );
    assert_eq!(sel.iter_linear_1d(8).unwrap(), vec![0, 1, 2, 3]);
}

#[test]
fn decode_hyperslab_start4() {
    let bytes = [
        0x02, 0, 0, 0, 0x03, 0, 0, 0, 0x01, 0x02, 0x01, 0, 0, 0, //
        0x04, 0x00, 0x01, 0x00, 0x01, 0x00, 0x04, 0x00,
    ];
    let (sel, _) = Selection::decode_serialized(&bytes).unwrap();
    assert_eq!(sel.iter_linear_1d(8).unwrap(), vec![4, 5, 6, 7]);
}

#[test]
fn decode_strided_hyperslab_iter() {
    // start=1 stride=3 count=2 block=2 => 1,2, 4,5
    let bytes = [
        0x02, 0, 0, 0, 0x03, 0, 0, 0, 0x01, 0x02, 0x01, 0, 0, 0, //
        0x01, 0x00, 0x03, 0x00, 0x02, 0x00, 0x02, 0x00,
    ];
    let (sel, _) = Selection::decode_serialized(&bytes).unwrap();
    assert_eq!(sel.iter_linear_1d(8).unwrap(), vec![1, 2, 4, 5]);
}

#[test]
fn decode_nd_hyperslab_iter_rejected() {
    let bytes = [
        0x02, 0, 0, 0, 0x03, 0, 0, 0, 0x01, 0x02, 0x02, 0, 0, 0, // rank 2
        0, 0, 1, 0, 1, 0, 2, 0, 0, 0, 1, 0, 1, 0, 2, 0,
    ];
    let (sel, _) = Selection::decode_serialized(&bytes).unwrap();
    assert!(sel.iter_linear_1d(16).is_err());
}

#[test]
fn decode_irregular_hyperslab_rejected() {
    let bytes = [0x02u8, 0, 0, 0, 0x03, 0, 0, 0, 0x00, 0x02, 0x01, 0, 0, 0];
    assert!(Selection::decode_serialized(&bytes).is_err());
}

fn hyperslab(start: u64, stride: u64, count: u64, block: u64) -> Selection {
    Selection::Hyperslab {
        start: vec![start],
        stride: vec![stride],
        count: vec![count],
        block: vec![block],
    }
}

fn chunked(text: &str) -> FormatError {
    FormatError::ChunkedReadError(text.into())
}

#[test]
fn ranks_and_shapes() {
    assert_eq!(Selection::All.rank(), None);
    assert_eq!(Selection::Nothing.rank(), None);
    assert_eq!(Selection::Points(vec![]).rank(), None);
    assert_eq!(Selection::slice(&[0..1, 2..3, 4..5]).rank(), Some(3));
    assert_eq!(Selection::All.output_shape(&[4, 5]), vec![4, 5]);
    assert_eq!(Selection::Nothing.output_shape(&[4, 5]), Vec::<u64>::new());
    assert_eq!(Selection::Points(vec![vec![1], vec![2]]).output_shape(&[9]), vec![2]);
    assert_eq!(hyperslab(1, 10, 3, 4).output_shape(&[100]), vec![12]);
    assert_eq!(hyperslab(1, 10, 3, 4).num_elements(&[100]), 12);
    assert_eq!(Selection::All.num_elements(&[]), 1);
}

#[test]
fn slice_of_a_reversed_range_is_empty() {
    let sel = Selection::slice(&[std::ops::Range { start: 9, end: 4 }]);
    assert_eq!(sel, hyperslab(9, 1, 0, 1));
    assert_eq!(sel.num_elements(&[10]), 0);
}

#[test]
fn chunks_between_blocks_do_not_intersect() {
    // Blocks 0..2, 10..12, 20..22.
    let sel = hyperslab(0, 10, 3, 2);
    assert!(sel.intersects_chunk(&[0], &[1]));
    assert!(sel.intersects_chunk(&[1], &[5]));
    assert!(!sel.intersects_chunk(&[2], &[8]));
    assert!(sel.intersects_chunk(&[2], &[9]));
    assert!(sel.intersects_chunk(&[21], &[100]));
    assert!(!sel.intersects_chunk(&[22], &[100]));
    assert!(!sel.intersects_chunk(&[0], &[0]));
    assert!(!hyperslab(0, 10, 0, 2).intersects_chunk(&[0], &[5]));
    assert!(!hyperslab(0, 10, 3, 0).intersects_chunk(&[0], &[5]));
    // A stride of zero repeats the first block; far ends do not overflow.
    assert!(hyperslab(5, 0, u64::MAX, 2).intersects_chunk(&[6], &[1]));
    assert!(hyperslab(u64::MAX, u64::MAX, u64::MAX, u64::MAX).intersects_chunk(&[u64::MAX], &[9]));
    // No count, no need for the other parameters.
    let bare = Selection::Hyperslab {
        start: vec![3],
        stride: vec![],
        count: vec![0],
        block: vec![],
    };
    assert!(!bare.intersects_chunk(&[0], &[5]));
}

#[test]
fn points_intersect_their_chunks() {
    let sel = Selection::Points(vec![vec![1, 2], vec![30, 40]]);
    assert!(sel.intersects_chunk(&[0, 0], &[10, 10]));
    assert!(sel.intersects_chunk(&[30, 40], &[1, 1]));
    assert!(!sel.intersects_chunk(&[30, 41], &[1, 1]));
    assert!(!sel.intersects_chunk(&[2, 0], &[10, 10]));
    assert!(!Selection::Nothing.intersects_chunk(&[0], &[10]));
    assert!(!Selection::Points(vec![]).intersects_chunk(&[0], &[10]));
    assert!(Selection::Points(vec![vec![u64::MAX]]).intersects_chunk(&[u64::MAX], &[2]));
}

#[test]
fn local_ranges_of_strided_selections() {
    // Blocks 3..5, 13..15, 23..25.
    let sel = hyperslab(3, 10, 3, 2);
    assert_eq!(sel.chunk_local_ranges(&[0], &[10]), vec![3..5]);
    assert_eq!(sel.chunk_local_ranges(&[4], &[10]), vec![0..10]);
    assert_eq!(sel.chunk_local_ranges(&[5], &[8]), vec![0..0]);
    assert_eq!(sel.chunk_local_ranges(&[10], &[20]), vec![3..15]);
    assert_eq!(sel.chunk_local_ranges(&[24], &[20]), vec![0..1]);
    assert_eq!(hyperslab(3, 10, 3, 0).chunk_local_ranges(&[0], &[40]), vec![0..0]);
    assert_eq!(hyperslab(3, 10, 0, 2).chunk_local_ranges(&[0], &[40]), vec![0..0]);
}

#[test]
fn local_ranges_of_the_others() {
    assert_eq!(Selection::All.chunk_local_ranges(&[7, 7], &[4, 5]), vec![0..4, 0..5]);
    assert_eq!(
        Selection::Points(vec![vec![1, 1]]).chunk_local_ranges(&[7, 7], &[4, 5]),
        vec![0..4, 0..5]
    );
    assert!(Selection::Nothing.chunk_local_ranges(&[7, 7], &[4, 5]).is_empty());
    // A contiguous range past the chunk ends before it starts.
    let past = Selection::slice(&[50..60]).chunk_local_ranges(&[20], &[10]);
    assert_eq!((past[0].start, past[0].end), (30, 10));
}

#[test]
fn intersecting_means_non_empty_ranges() {
    for start in 0..6u64 {
        for stride in 0..5u64 {
            for count in 0..4u64 {
                for block in 0..4u64 {
                    for at in 0..5u64 {
                        let sel = hyperslab(start, stride, count, block);
                        if stride == 1 && block == 1 && start + count < at {
                            continue;
                        }
                        let range = sel.chunk_local_ranges(&[at], &[3])[0].clone();
                        assert_eq!(
                            sel.intersects_chunk(&[at], &[3]),
                            range.start < range.end,
                            "{sel:?} at {at}"
                        );
                    }
                }
            }
        }
    }
}

#[test]
fn listing_checks_the_extent() {
    assert_eq!(hyperslab(1, 3, 2, 2).iter_linear_1d(6).unwrap(), vec![1, 2, 4, 5]);
    assert_eq!(
        hyperslab(1, 3, 2, 2).iter_linear_1d(5),
        Err(chunked("VDS hyperslab selection exceeds dataspace extent"))
    );
    assert_eq!(
        hyperslab(u64::MAX, u64::MAX, 3, 2).iter_linear_1d(u64::MAX),
        Err(chunked("VDS hyperslab selection exceeds dataspace extent"))
    );
    assert_eq!(hyperslab(u64::MAX, u64::MAX, 3, 0).iter_linear_1d(1).unwrap(), Vec::<u64>::new());
    assert_eq!(Selection::Nothing.iter_linear_1d(7).unwrap(), Vec::<u64>::new());
    assert_eq!(
        Selection::slice(&[0..1, 0..1]).iter_linear_1d(7),
        Err(chunked("only 1-D VDS hyperslab selections are supported"))
    );
    let points = Selection::Points(vec![vec![3], vec![0], vec![3]]);
    assert_eq!(points.iter_linear_1d(4).unwrap(), vec![3, 0, 3]);
    assert_eq!(
        points.iter_linear_1d(3),
        Err(chunked("VDS point selection exceeds dataspace extent"))
    );
    // The first bad point decides.
    assert_eq!(
        Selection::Points(vec![vec![1], vec![1, 2], vec![9]]).iter_linear_1d(4),
        Err(chunked("only 1-D VDS point selections are supported"))
    );
}

#[test]
fn listing_gives_every_selected_element() {
    let sel = hyperslab(2, 4, 3, 3);
    let list = sel.iter_linear_1d(20).unwrap();
    assert_eq!(list.len() as u64, sel.num_elements(&[20]));
    assert!(list.windows(2).all(|w| w[0] < w[1]));
    for x in 0..20u64 {
        assert_eq!(list.contains(&x), sel.intersects_chunk(&[x], &[1]));
    }
}

#[test]
fn decoding_errors() {
    let decode = |bytes: &[u8]| Selection::decode_serialized(bytes).unwrap_err();
    assert_eq!(
        decode(&[3, 0, 0, 0, 1, 0, 0]),
        FormatError::UnexpectedEof { expected: 8, available: 7 }
    );
    assert_eq!(
        decode(&[1, 0, 0, 0, 1, 0, 0, 0]),
        chunked("VDS point selections are not supported")
    );
    assert_eq!(
        decode(&[4, 0, 0, 0, 1, 0, 0, 0]),
        chunked("unknown dataspace selection type")
    );
    assert_eq!(
        decode(&[2, 0, 0, 0, 2, 0, 0, 0]),
        chunked("only version-3 hyperslab selections are supported")
    );
    assert_eq!(
        decode(&[2, 0, 0, 0, 3, 0, 0, 0, 1]),
        FormatError::UnexpectedEof { expected: 14, available: 9 }
    );
    assert_eq!(
        decode(&[2, 0, 0, 0, 3, 0, 0, 0, 2, 3, 1, 0, 0, 0]),
        chunked("irregular VDS hyperslab selections are not supported")
    );
    assert_eq!(
        decode(&[2, 0, 0, 0, 3, 0, 0, 0, 1, 3, 1, 0, 0, 0]),
        chunked("unsupported hyperslab coordinate encoding size")
    );
    // The third coordinate of two bytes is cut off.
    assert_eq!(
        decode(&[2, 0, 0, 0, 3, 0, 0, 0, 1, 2, 1, 0, 0, 0, 9, 9, 9, 9, 9]),
        FormatError::UnexpectedEof { expected: 20, available: 19 }
    );
    // Selections of everything and of nothing take 16 bytes.
    for kind in [0u8, 3] {
        for len in 8..16usize {
            let mut bytes = vec![kind, 0, 0, 0, 1, 0, 0, 0];
            bytes.resize(len, 0);
            assert_eq!(
                decode(&bytes),
                FormatError::UnexpectedEof { expected: 16, available: len }
            );
        }
    }
}

#[test]
fn decoding_none_and_wide_coordinates() {
    assert_eq!(
        Selection::decode_serialized(&[0, 0, 0, 0, 1, 0, 0, 0, 0, 0, 0, 0, 0, 0, 0, 0]).unwrap(),
        (Selection::Nothing, 16)
    );
    let mut bytes = vec![2, 0, 0, 0, 3, 0, 0, 0, 0xff, 8, 2, 0, 0, 0];
    for v in [1u64, 2, 3, 4, 5, u64::MAX, 7, 8] {
        bytes.extend_from_slice(&v.to_le_bytes());
    }
    bytes.push(0);
    let (sel, consumed) = Selection::decode_serialized(&bytes).unwrap();
    assert_eq!(consumed, 14 + 64);
    assert_eq!(
        sel,
        Selection::Hyperslab {
            start: vec![1, 5],
            stride: vec![2, u64::MAX],
            count: vec![3, 7],
            block: vec![4, 8],
        }
    );
}

#[test]
fn decoding_stops_at_the_end_of_a_selection() {
    let mut bytes = vec![2, 0, 0, 0, 3, 0, 0, 0, 1, 2, 1, 0, 0, 0, 4, 0, 6, 0, 3, 0, 2, 0];
    let alone = Selection::decode_serialized(&bytes).unwrap();
    assert_eq!(alone, (hyperslab(4, 6, 3, 2), 22));
    bytes.extend_from_slice(&[0xff; 9]);
    assert_eq!(Selection::decode_serialized(&bytes).unwrap(), alone);
}

#[test]
fn a_packed_list_of_selections_is_walked() {
    let mut bytes = vec![3, 0, 0, 0, 1, 0, 0, 0, 0, 0, 0, 0, 0, 0, 0, 0];
    bytes.extend([2, 0, 0, 0, 3, 0, 0, 0, 1, 2, 1, 0, 0, 0, 4, 0, 6, 0, 3, 0, 2, 0]);
    bytes.extend([0, 0, 0, 0, 1, 0, 0, 0, 0, 0, 0, 0, 0, 0, 0, 0]);
    let mut rest: &[u8] = &bytes;
    let mut list = Vec::new();
    while !rest.is_empty() {
        let (sel, consumed) = Selection::decode_serialized(rest).unwrap();
        list.push(sel);
        rest = &rest[consumed..];
    }
    assert_eq!(list, vec![Selection::All, hyperslab(4, 6, 3, 2), Selection::Nothing]);
}

#[test]
fn a_slice_selects_its_range() {
    let sel = Selection::slice(&[3..7]);
    assert_eq!(sel.iter_linear_1d(10).unwrap(), vec![3, 4, 5, 6]);
    for x in 0..10u64 {
        assert_eq!(sel.intersects_chunk(&[x], &[1]), (3..7).contains(&x));
    }
}
