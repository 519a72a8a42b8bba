use clawhdf5_format::companion::{
    assemble_proof, companion_path, object_size, parse_contiguous_layout, plan_proof,
    proof_sibling_indices, range_header, CompanionError, ContiguousLayout, DataLayout,
    HeaderMessage, NODE_HASH_SIZE,
};
use clawhdf5_format::merkle::{HashAlg, MerkleTree};

/// A tree over `n_chunks` chunks, and its nodes as they are stored behind `address` bytes.
fn stored_tree(n_chunks: usize, address: usize) -> (Vec<u8>, MerkleTree, ContiguousLayout) {
    let chunks: Vec<Vec<u8>> = (0..n_chunks)
        .map(|i| (0..64).map(|j| ((i + j) % 256) as u8).collect())
        .collect();
    let refs: Vec<&[u8]> = chunks.iter().map(|c| c.as_slice()).collect();
    let tree = MerkleTree::from_chunks(&refs, HashAlg::Blake3);
    let mut file = vec![0u8; address];
    for node in tree.nodes() {
        file.extend_from_slice(node);
    }
    let size = (tree.nodes().len() * NODE_HASH_SIZE) as u64;
    (file, tree, ContiguousLayout { address: address as u64, size })
}

#[test]
fn proof_sibling_indices_depth_matches_tree_height() {
    // 8-leaf tree: 7 inner nodes, so leaf 0 is node 7. Its sibling is node 8,
    // and the nodes above lead to the siblings 4 and 2.
    let siblings = proof_sibling_indices(0, 8);
    assert_eq!(siblings.len(), 3); // log2(8) = 3 levels
    assert_eq!(siblings, vec![8, 4, 2]);
}

#[test]
fn sibling_indices_at_the_edges() {
    assert!(proof_sibling_indices(0, 1).is_empty());
    assert_eq!(proof_sibling_indices(1, 2), vec![1]);
    assert_eq!(proof_sibling_indices(7, 8), vec![13, 5, 1]);
}

#[test]
fn fetch_chunk_proof_matches_in_memory_tree() {
    let (file, tree, layout) = stored_tree(1024, 100);
    let padded = tree.padded_leaf_count() as u64;
    for leaf in [0u64, 1, 500, 1023] {
        let span = plan_proof(layout, leaf, padded).unwrap();
        let from = span.start() as usize;
        let read = &file[from..from + span.len() as usize];
        let fetched = assemble_proof(&span, read).unwrap();

        assert_eq!(fetched.leaf_node_index, padded - 1 + leaf);
        assert_eq!(fetched.bytes_transferred, span.len());
        assert_eq!(
            fetched.nodes[&fetched.leaf_node_index],
            *tree.leaf_hash(leaf as usize).unwrap()
        );
        for (&index, &hash) in &fetched.nodes {
            assert_eq!(hash, tree.nodes()[index as usize]);
        }
        assert!(fetched.nodes.len() <= 11);

        // In the order of the path, the fetched siblings are the tree's own proof.
        let siblings: Vec<[u8; 32]> = proof_sibling_indices(leaf, padded)
            .iter()
            .map(|index| fetched.nodes[index])
            .collect();
        assert_eq!(
            siblings.as_slice(),
            tree.inclusion_proof(leaf as usize).unwrap().siblings()
        );
    }
}

#[test]
fn fetch_chunk_proof_rejects_out_of_range_span() {
    let (_, tree, layout) = stored_tree(1024, 100);
    let padded = tree.padded_leaf_count() as u64;
    let error = plan_proof(layout, padded, padded).unwrap_err();
    assert_eq!(error, CompanionError::SpanPastEnd);
    assert_eq!(
        error.message(),
        "proof node span extends past the companion dataset's recorded size"
    );
}

#[test]
fn spans_cover_their_nodes_only_up_to_the_size() {
    let small = ContiguousLayout { address: 1000, size: 15 * 32 };
    let span = plan_proof(small, 7, 8).unwrap();
    // Nodes 1, 5, 13 and 14.
    assert_eq!(span.start(), 1000 + 32);
    assert_eq!(span.len(), 14 * 32);
    let cut = ContiguousLayout { address: 1000, size: 15 * 32 - 1 };
    assert_eq!(plan_proof(cut, 7, 8).unwrap_err(), CompanionError::SpanPastEnd);
    // A single leaf is its own root.
    let single = ContiguousLayout { address: 5, size: 32 };
    let span = plan_proof(single, 0, 1).unwrap();
    assert_eq!((span.start(), span.len()), (5, 32));
}

#[test]
fn huge_indices_are_past_the_end() {
    let all = ContiguousLayout { address: 0, size: u64::MAX };
    assert_eq!(plan_proof(all, u64::MAX, 1).unwrap_err(), CompanionError::SpanPastEnd);
    assert_eq!(plan_proof(all, 0, u64::MAX).unwrap_err(), CompanionError::SpanPastEnd);
    let high = ContiguousLayout { address: u64::MAX - 31, size: 64 };
    assert_eq!(plan_proof(high, 0, 1).unwrap_err(), CompanionError::SpanPastEnd);
}

#[test]
fn short_reads_are_rejected() {
    let layout = ContiguousLayout { address: 0, size: 96 };
    let span = plan_proof(layout, 0, 2).unwrap();
    assert_eq!(span.len(), 64);
    let error = assemble_proof(&span, &[0; 63]).unwrap_err();
    assert_eq!(error, CompanionError::ShortRead);
    assert_eq!(error.message(), "short read while fetching proof node span");
    assert_eq!(assemble_proof(&span, &[9; 64]).unwrap().nodes.len(), 2);
}

#[test]
fn layouts_of_datasets() {
    let resolve = |layout: DataLayout, path: &str| {
        let messages = vec![
            HeaderMessage::Other,
            HeaderMessage::Layout(Ok(layout)),
            HeaderMessage::Layout(Err("never reached".into())),
        ];
        parse_contiguous_layout(Ok(messages), path)
    };
    assert_eq!(
        resolve(DataLayout::Contiguous { address: Some(7), size: 9 }, "d"),
        Ok(ContiguousLayout { address: 7, size: 9 })
    );
    assert_eq!(
        resolve(DataLayout::Contiguous { address: None, size: 9 }, "a\"b").unwrap_err().message(),
        "dataset \"a\\\"b\" has an undefined address (never written)"
    );
    assert_eq!(
        resolve(DataLayout::Other, "d").unwrap_err().message(),
        "dataset \"d\" is not contiguous (inline or chunked layout is not supported for \
         range-GET retrieval)"
    );
    assert_eq!(
        parse_contiguous_layout(Ok(vec![HeaderMessage::Other]), "d").unwrap_err().message(),
        "dataset \"d\" object header has no data layout message"
    );
    assert_eq!(
        parse_contiguous_layout(Err("no signature".into()), "d").unwrap_err(),
        CompanionError::Metadata("no signature".into())
    );
    assert_eq!(
        parse_contiguous_layout(Ok(vec![HeaderMessage::Layout(Err("bad version".into()))]), "d")
            .unwrap_err()
            .message(),
        "bad version"
    );
}

#[test]
fn requests() {
    assert_eq!(companion_path("sensor_data"), "merkle/sensor_data");
    assert_eq!(range_header(0, 1), "bytes=0-0");
    assert_eq!(range_header(4096, 64), "bytes=4096-4159");
    assert_eq!(range_header(u64::MAX, 1), "bytes=18446744073709551615-18446744073709551615");
    assert_eq!(object_size(Some(12)), 12);
    assert_eq!(object_size(Some(-3)), 0);
    assert_eq!(object_size(None), 0);
}
