//! Proof retrieval from a companion dataset, which stores the nodes of a Merkle
//! tree in level order.
//!
//! The nodes that prove one chunk are fetched with a single ranged read. Here it
//! is decided which bytes to read and what they hold; the reading itself is the
//! caller's.

use crate::bytes;
use crate::bytes::decimal_text;
use crate::merkle;
use crate::merkle::HashAlg;
use std::collections::BTreeMap;
use vstd::arithmetic::power2::*;
use vstd::prelude::*;
use vstd::string::StringExecFns;

verus! {

broadcast use vstd::laws_cmp::group_laws_cmp;

/// Bytes per stored node.
pub const NODE_HASH_SIZE: usize = 32;

/// Bytes of metadata to read before a dataset's address is known. A superblock
/// and a handful of object headers fit.
pub const DEFAULT_METADATA_PREFETCH: u64 = 262_144;

/// An object in a bucket.
#[derive(Debug, Clone)]
pub struct S3Location {
    /// The name of the bucket.
    pub bucket: String,
    /// The key of the object.
    pub key: String,
}

/// The bytes of a dataset that is stored in one piece.
#[derive(Debug, Clone, Copy, PartialEq, Eq, Structural)]
pub struct ContiguousLayout {
    /// Where the dataset starts in its object.
    pub address: u64,
    /// The bytes of the dataset.
    pub size: u64,
}

/// How a dataset's elements are stored.
#[derive(Debug, Clone, Copy, PartialEq, Eq)]
pub enum DataLayout {
    /// In one piece, which has no address until something is written.
    Contiguous { address: Option<u64>, size: u64 },
    /// In the object header or in chunks.
    Other,
}

/// A message of an object header.
#[derive(Debug)]
pub enum HeaderMessage {
    /// A data layout message: the layout, or why it cannot be parsed.
    Layout(Result<DataLayout, String>),
    /// Any other message.
    Other,
}

/// Why a proof cannot be fetched.
#[derive(Debug, Clone, PartialEq, Eq)]
pub enum CompanionError {
    /// The nodes lie outside the companion dataset.
    SpanPastEnd,
    /// Fewer bytes came back than were asked for.
    ShortRead,
    /// The metadata cannot be parsed, for this reason.
    Metadata(String),
    /// The dataset at this path has no layout message.
    NoLayoutMessage(String),
    /// The dataset at this path was never written.
    UndefinedAddress(String),
    /// The dataset at this path is not stored in one piece.
    NotContiguous(String),
}

/// A path in quotes, with escapes where `str`'s `Debug` form has them.
pub uninterp spec fn quoted(path: Seq<char>) -> Seq<char>;

/// Formats a path with the `Debug` form of `str`. The text is a function of the path.
#[verifier::external_body]
fn quote(path: &str) -> (text: String)
    ensures
        text@ == quoted(path@),
{
    format!("{path:?}")
}

/// An error as a sentence.
pub open spec fn error_text(e: CompanionError) -> Seq<char> {
    match e {
        CompanionError::SpanPastEnd => {
            "proof node span extends past the companion dataset's recorded size"@
        },
        CompanionError::ShortRead => "short read while fetching proof node span"@,
        CompanionError::Metadata(text) => text@,
        CompanionError::NoLayoutMessage(path) => "dataset "@ + quoted(path@)
            + " object header has no data layout message"@,
        CompanionError::UndefinedAddress(path) => "dataset "@ + quoted(path@)
            + " has an undefined address (never written)"@,
        CompanionError::NotContiguous(path) => "dataset "@ + quoted(path@)
            + " is not contiguous (inline or chunked layout is not supported for range-GET retrieval)"@,
    }
}

/// A path in quotes between `"dataset "` and `rest`.
fn about_dataset(path: &String, rest: &str) -> (text: String)
    ensures
        text@ == "dataset "@ + quoted(path@) + rest@,
{
    let mut text: String = "dataset ".to_owned();
    text.append(quote(path.as_str()).as_str());
    text.append(rest);
    text
}

impl CompanionError {
    /// The error as a sentence.
    pub fn message(&self) -> (text: String)
        ensures
            text@ == error_text(*self),
    {
        match self {
            CompanionError::SpanPastEnd => {
                "proof node span extends past the companion dataset's recorded size".to_owned()
            },
            CompanionError::ShortRead => "short read while fetching proof node span".to_owned(),
            CompanionError::Metadata(text) => text.as_str().to_owned(),
            CompanionError::NoLayoutMessage(path) => about_dataset(
                path,
                " object header has no data layout message",
            ),
            CompanionError::UndefinedAddress(path) => about_dataset(
                path,
                " has an undefined address (never written)",
            ),
            CompanionError::NotContiguous(path) => about_dataset(
                path,
                " is not contiguous (inline or chunked layout is not supported for range-GET retrieval)",
            ),
        }
    }
}

/// The first data layout message of an object header.
pub open spec fn first_layout(messages: Seq<HeaderMessage>) -> Option<Result<DataLayout, String>>
    decreases messages.len(),
{
    if messages.len() == 0 {
        None
    } else {
        match messages[0] {
            HeaderMessage::Layout(layout) => Some(layout),
            HeaderMessage::Other => first_layout(messages.drop_first()),
        }
    }
}

/// `r` is where the bytes of the dataset at `path` are, or why that is not known:
/// the metadata cannot be parsed, the object header has no layout message, nothing
/// was written yet, or the dataset is not in one piece.
pub open spec fn is_layout_of(
    metadata: Result<Vec<HeaderMessage>, String>,
    path: Seq<char>,
    r: Result<ContiguousLayout, CompanionError>,
) -> bool {
    match metadata {
        Err(text) => r matches Err(CompanionError::Metadata(t)) && t@ == text@,
        Ok(messages) => match first_layout(messages@) {
            None => r matches Err(CompanionError::NoLayoutMessage(p)) && p@ == path,
            Some(Err(text)) => r matches Err(CompanionError::Metadata(t)) && t@ == text@,
            Some(Ok(DataLayout::Contiguous { address: Some(address), size })) => r == Ok::<
                _,
                CompanionError,
            >(ContiguousLayout { address, size }),
            Some(Ok(DataLayout::Contiguous { address: None, .. })) => r matches Err(
                CompanionError::UndefinedAddress(p),
            ) && p@ == path,
            Some(Ok(DataLayout::Other)) => r matches Err(CompanionError::NotContiguous(p)) && p@
                == path,
        },
    }
}

/// Where the bytes of the dataset at `path` are, from the messages of its object
/// header, or from the reason why the metadata before it cannot be parsed.
pub fn parse_contiguous_layout(metadata: Result<Vec<HeaderMessage>, String>, path: &str) -> (r:
    Result<ContiguousLayout, CompanionError>)
    ensures
        is_layout_of(metadata, path@, r),
{
    let messages: Vec<HeaderMessage> = match metadata {
        Ok(messages) => messages,
        Err(text) => return Err(CompanionError::Metadata(text)),
    };
    assert(messages@.skip(0) =~= messages@);
    let mut i: usize = 0;
    while i < messages.len()
        invariant
            i <= messages@.len(),
            first_layout(messages@.skip(i as int)) == first_layout(messages@),
            metadata == Ok::<Vec<HeaderMessage>, String>(messages),
        decreases messages@.len() - i,
    {
        proof {
            let rest = messages@.skip(i as int);
            assert(rest[0] == messages@[i as int]);
            assert(rest.drop_first() =~= messages@.skip(i + 1));
        }
        match &messages[i] {
            HeaderMessage::Layout(Err(text)) => {
                return Err(CompanionError::Metadata(text.as_str().to_owned()));
            },
            HeaderMessage::Layout(Ok(layout)) => {
                return match layout {
                    DataLayout::Contiguous { address: Some(address), size } => Ok(
                        ContiguousLayout { address: *address, size: *size },
                    ),
                    DataLayout::Contiguous { address: None, .. } => Err(
                        CompanionError::UndefinedAddress(path.to_owned()),
                    ),
                    DataLayout::Other => Err(CompanionError::NotContiguous(path.to_owned())),
                };
            },
            HeaderMessage::Other => {},
        }
        i = i + 1;
    }
    Err(CompanionError::NoLayoutMessage(path.to_owned()))
}

/// The path of the companion dataset of a dataset.
pub fn companion_path(dataset_name: &str) -> (path: String)
    ensures
        path@ == "merkle/"@ + dataset_name@,
{
    let mut path: String = "merkle/".to_owned();
    path.append(dataset_name);
    path
}

/// The HTTP range of `len` bytes from `offset` on.
pub fn range_header(offset: u64, len: usize) -> (range: String)
    requires
        len > 0,
        offset + len - 1 <= u64::MAX,
    ensures
        range@ == "bytes="@ + bytes::decimal(offset as nat) + "-"@ + bytes::decimal(
            (offset + len - 1) as nat,
        ),
{
    let mut range: String = "bytes=".to_owned();
    range.append(decimal_text(offset).as_str());
    range.append("-");
    range.append(decimal_text(offset + (len as u64 - 1)).as_str());
    range
}

/// The size of an object from the content length of a response, which may be
/// missing or negative.
pub fn object_size(content_length: Option<i64>) -> (size: u64)
    ensures
        size == (match content_length {
            Some(n) => if n > 0 {
                n as int
            } else {
                0
            },
            None => 0,
        }),
{
    match content_length {
        Some(n) => if n > 0 {
            n as u64
        } else {
            0
        },
        None => 0,
    }
}

/// The node of a leaf.
pub open spec fn leaf_node(leaf_idx: u64, padded_leaf_count: u64) -> int {
    padded_leaf_count - 1 + leaf_idx
}

/// The nodes that prove the leaf at node `v`: those beside its path, and itself.
pub open spec fn wanted_nodes(v: int) -> Seq<int> {
    merkle::path_siblings(v).push(v)
}

/// Lists the nodes beside the path from a leaf to the root, by index arithmetic alone.
pub fn proof_sibling_indices(leaf_idx: u64, padded_leaf_count: u64) -> (indices: Vec<u64>)
    requires
        padded_leaf_count > 0,
        leaf_node(leaf_idx, padded_leaf_count) < u64::MAX,
    ensures
        bytes::integers(indices@) == merkle::path_siblings(leaf_node(leaf_idx, padded_leaf_count)),
{
    let ghost all = merkle::path_siblings(leaf_node(leaf_idx, padded_leaf_count));
    let mut indices: Vec<u64> = Vec::new();
    let mut node: u64 = padded_leaf_count - 1 + leaf_idx;
    assert(all.skip(0) =~= all);
    while node > 0
        invariant
            node < u64::MAX,
            indices@.len() <= all.len(),
            merkle::path_siblings(node as int) == all.skip(indices@.len() as int),
            bytes::integers(indices@) == all.take(indices@.len() as int),
        decreases node,
    {
        let beside: u64 = if node % 2 == 1 {
            node + 1
        } else {
            node - 1
        };
        proof {
            let k: int = indices@.len() as int;
            let path = merkle::path_siblings(node as int);
            assert(path[0] == merkle::sibling_of(node as int));
            assert(path.len() >= 1);
            assert(all.skip(k)[0] == all[k]);
            assert(path.drop_first() =~= merkle::path_siblings(merkle::parent_of(node as int)));
            assert(path.drop_first() =~= all.skip(k + 1));
        }
        indices.push(beside);
        node = (node - 1) / 2;
        proof {
            assert(bytes::integers(indices@) =~= all.take(indices@.len() as int));
        }
    }
    proof {
        assert(bytes::integers(indices@) =~= all);
    }
    indices
}

/// `x` is the least entry of a sequence.
pub open spec fn is_least(s: Seq<int>, x: int) -> bool {
    s.contains(x) && forall|i: int| 0 <= i < s.len() ==> x <= #[trigger] s[i]
}

/// `x` is the greatest entry of a sequence.
pub open spec fn is_greatest(s: Seq<int>, x: int) -> bool {
    s.contains(x) && forall|i: int| 0 <= i < s.len() ==> #[trigger] s[i] <= x
}

/// The bytes to read for a proof: one span that covers all its nodes.
#[derive(Debug)]
pub struct ProofSpan {
    wanted: Vec<u64>,
    leaf_node_index: u64,
    first: u64,
    start: u64,
    len: u64,
}

impl ProofSpan {
    /// The nodes of the proof; the leaf comes last.
    pub closed spec fn wanted(&self) -> Seq<int> {
        bytes::integers(self.wanted@)
    }

    /// The node of the leaf.
    pub closed spec fn leaf(&self) -> int {
        self.leaf_node_index as int
    }

    /// The first node of the span.
    pub closed spec fn first(&self) -> int {
        self.first as int
    }

    /// Where the span starts in the object.
    pub closed spec fn offset(&self) -> int {
        self.start as int
    }

    /// The bytes of the span.
    pub closed spec fn size(&self) -> int {
        self.len as int
    }

    /// The span covers its nodes.
    #[verifier::type_invariant]
    spec fn covers(&self) -> bool {
        forall|i: int|
            0 <= i < self.wanted@.len() ==> self.first <= #[trigger] self.wanted@[i] && 32 * (
            self.wanted@[i] - self.first + 1) <= self.len
    }

    /// Where the span starts in the object.
    pub fn start(&self) -> (start: u64)
        ensures
            start == self.offset(),
    {
        self.start
    }

    /// The bytes of the span.
    pub fn len(&self) -> (len: u64)
        ensures
            len == self.size(),
    {
        self.len
    }
}

/// The span that proves the leaf at node `v`: from the least to the greatest of
/// its nodes.
pub open spec fn is_proof_span(span: ProofSpan, layout: ContiguousLayout, v: int) -> bool {
    &&& span.leaf() == v
    &&& span.wanted() == wanted_nodes(v)
    &&& is_least(wanted_nodes(v), span.first())
    &&& span.offset() == layout.address + 32 * span.first()
    &&& exists|last: int| #[trigger]
        is_greatest(wanted_nodes(v), last) && span.size() == 32 * (last - span.first() + 1)
}

/// All nodes that prove the leaf at node `v` are stored within the dataset, at
/// offsets that 64 bits hold.
pub open spec fn span_fits(layout: ContiguousLayout, v: int) -> bool {
    forall|i: int|
        0 <= i < wanted_nodes(v).len() ==> 32 * ((#[trigger] wanted_nodes(v)[i]) + 1)
            <= layout.size && layout.address + 32 * (wanted_nodes(v)[i] + 1) <= u64::MAX
}

/// Computes the bytes to read for the proof of a leaf.
pub fn plan_proof(layout: ContiguousLayout, leaf_idx: u64, padded_leaf_count: u64) -> (r: Result<
    ProofSpan,
    CompanionError,
>)
    requires
        padded_leaf_count > 0,
    ensures
        match r {
            Ok(span) => {
                &&& span_fits(layout, leaf_node(leaf_idx, padded_leaf_count))
                &&& is_proof_span(span, layout, leaf_node(leaf_idx, padded_leaf_count))
            },
            Err(e) => {
                &&& !span_fits(layout, leaf_node(leaf_idx, padded_leaf_count))
                &&& e is SpanPastEnd
            },
        },
{
    let ghost v: int = leaf_node(leaf_idx, padded_leaf_count);
    let ghost all = wanted_nodes(v);
    assert(all[all.len() - 1] == v);
    if padded_leaf_count - 1 >= 0x800_0000_0000_0000 || leaf_idx >= 0x800_0000_0000_0000 {
        // The leaf alone lies past any size that 64 bits hold.
        return Err(CompanionError::SpanPastEnd);
    }
    let leaf_node_index: u64 = padded_leaf_count - 1 + leaf_idx;
    let mut wanted: Vec<u64> = proof_sibling_indices(leaf_idx, padded_leaf_count);
    wanted.push(leaf_node_index);
    proof {
        assert(bytes::integers(wanted@) =~= all);
    }
    let mut lo: u64 = leaf_node_index;
    let mut hi: u64 = leaf_node_index;
    let mut i: usize = 0;
    while i < wanted.len()
        invariant
            i <= wanted@.len(),
            bytes::integers(wanted@) == all,
            all.contains(lo as int),
            all.contains(hi as int),
            forall|k: int| 0 <= k < i ==> lo <= #[trigger] wanted@[k] <= hi,
        decreases wanted@.len() - i,
    {
        let index: u64 = wanted[i];
        assert(all[i as int] == index);
        if index < lo {
            lo = index;
        }
        if index > hi {
            hi = index;
        }
        i = i + 1;
    }
    proof {
        assert forall|k: int| 0 <= k < all.len() implies lo <= #[trigger] all[k] <= hi by {
            assert(wanted@[k] == all[k]);
        }
        assert(is_least(all, lo as int));
        assert(is_greatest(all, hi as int));
    }
    let past: u128 = 32 * (hi as u128 + 1);
    if past > layout.size as u128 || layout.address as u128 + past > u64::MAX as u128 {
        proof {
            let k = choose|k: int| 0 <= k < all.len() && all[k] == hi;
            assert(!(32 * (wanted_nodes(v)[k] + 1) <= layout.size && layout.address + 32 * (
            wanted_nodes(v)[k] + 1) <= u64::MAX));
        }
        return Err(CompanionError::SpanPastEnd);
    }
    let start: u64 = layout.address + lo * 32;
    let len: u64 = (hi - lo + 1) * 32;
    proof {
        assert forall|k: int| 0 <= k < wanted@.len() implies lo <= #[trigger] wanted@[k] && 32 * (
        wanted@[k] - lo + 1) <= len by {
            assert(wanted@[k] == all[k]);
        }
    }
    Ok(ProofSpan { wanted, leaf_node_index, first: lo, start, len })
}

/// The nodes of a proof as they were fetched.
#[derive(Debug, Clone)]
pub struct FetchedProof {
    /// The node of the leaf.
    pub leaf_node_index: u64,
    /// The leaf and the nodes beside its path, by their numbers.
    pub nodes: BTreeMap<u64, [u8; NODE_HASH_SIZE]>,
    /// The bytes that were read: those of the whole span, not only of its nodes.
    pub bytes_transferred: u64,
}

/// The bytes of node `index` in the bytes of a span that starts at node `first`.
pub open spec fn node_bytes(span: Seq<u8>, first: int, index: int) -> Seq<u8> {
    span.subrange(32 * (index - first), 32 * (index - first) + 32)
}

/// Reads 32 bytes at `pos`.
fn read_hash(data: &[u8], pos: usize) -> (hash: [u8; NODE_HASH_SIZE])
    requires
        pos + 32 <= data@.len(),
    ensures
        hash@ == data@.subrange(pos as int, pos + 32),
{
    assert(data.len() == data@.len());
    let mut hash: [u8; NODE_HASH_SIZE] = [0u8; NODE_HASH_SIZE];
    let mut i: usize = 0;
    while i < NODE_HASH_SIZE
        invariant
            i <= NODE_HASH_SIZE,
            pos + 32 <= data@.len() <= usize::MAX,
            forall|k: int| 0 <= k < i ==> #[trigger] hash@[k] == data@[pos + k],
        decreases NODE_HASH_SIZE - i,
    {
        hash[i] = data[pos + i];
        i = i + 1;
    }
    proof {
        assert(hash@ =~= data@.subrange(pos as int, pos + 32));
    }
    hash
}

/// The first `n` nodes of `wanted` and no others are in the map, each with its bytes.
pub open spec fn holds_nodes(
    nodes: Map<u64, [u8; 32]>,
    wanted: Seq<int>,
    n: int,
    span: Seq<u8>,
    first: int,
) -> bool {
    &&& forall|index: u64| #[trigger]
        nodes.contains_key(index) <==> wanted.take(n).contains(index as int)
    &&& forall|index: u64| #[trigger]
        nodes.contains_key(index) ==> nodes[index]@ == node_bytes(span, first, index as int)
}

/// Picks the nodes of a proof out of the bytes of its span.
pub fn assemble_proof(span: &ProofSpan, data: &[u8]) -> (r: Result<FetchedProof, CompanionError>)
    ensures
        match r {
            Ok(fetched) => {
                &&& data@.len() >= span.size()
                &&& fetched.leaf_node_index == span.leaf()
                &&& fetched.bytes_transferred == span.size()
                &&& holds_nodes(
                    fetched.nodes@,
                    span.wanted(),
                    span.wanted().len() as int,
                    data@,
                    span.first(),
                )
            },
            Err(e) => data@.len() < span.size() && e is ShortRead,
        },
{
    proof {
        use_type_invariant(span);
    }
    if (data.len() as u64) < span.len {
        return Err(CompanionError::ShortRead);
    }
    let ghost wanted = span.wanted();
    let mut nodes: BTreeMap<u64, [u8; NODE_HASH_SIZE]> = BTreeMap::new();
    let mut i: usize = 0;
    while i < span.wanted.len()
        invariant
            i <= span.wanted@.len(),
            wanted == bytes::integers(span.wanted@),
            usize::MAX >= data@.len() >= span.len,
            forall|k: int|
                0 <= k < span.wanted@.len() ==> span.first <= #[trigger] span.wanted@[k] && 32 * (
                span.wanted@[k] - span.first + 1) <= span.len,
            holds_nodes(nodes@, wanted, i as int, data@, span.first as int),
        decreases span.wanted@.len() - i,
    {
        let index: u64 = span.wanted[i];
        let pos: usize = ((index - span.first) * 32) as usize;
        let hash: [u8; NODE_HASH_SIZE] = read_hash(data, pos);
        let ghost before = nodes@;
        nodes.insert(index, hash);
        proof {
            assert(nodes@ == before.insert(index, hash));
            let shorter = wanted.take(i as int);
            let longer = wanted.take(i + 1);
            assert forall|k: u64| #[trigger] nodes@.contains_key(k) <==> longer.contains(
                k as int,
            ) by {
                if longer.contains(k as int) {
                    let j = choose|j: int| 0 <= j < longer.len() && longer[j] == k;
                    if j < i {
                        assert(shorter[j] == k);
                    }
                }
                if shorter.contains(k as int) {
                    let j = choose|j: int| 0 <= j < shorter.len() && shorter[j] == k;
                    assert(longer[j] == k);
                }
                assert(longer[i as int] == index);
            }
        }
        i = i + 1;
    }
    Ok(
        FetchedProof {
            leaf_node_index: span.leaf_node_index,
            nodes,
            bytes_transferred: span.len,
        },
    )
}

/// Some bytes are the stored form of a tree's nodes from `first` on.
pub open spec fn stores_nodes(
    data: Seq<u8>,
    first: int,
    size: int,
    leaves: Seq<[u8; 32]>,
    alg: HashAlg,
) -> bool {
    forall|index: int|
        first <= index && 32 * (index - first + 1) <= size ==> #[trigger] node_bytes(
            data,
            first,
            index,
        ) == merkle::node_at(merkle::padded(leaves, alg), alg, index)@
}

/// What is fetched for a leaf from the stored nodes of a tree is the tree's own
/// leaf hash and the hashes of the tree's own proof, in the order of the path.
pub proof fn law_fetched_proof_is_the_trees(
    span: ProofSpan,
    layout: ContiguousLayout,
    data: Seq<u8>,
    nodes: Map<u64, [u8; 32]>,
    leaves: Seq<[u8; 32]>,
    alg: HashAlg,
    leaf_idx: u64,
    padded_leaf_count: u64,
)
    requires
        leaf_idx < leaves.len(),
        padded_leaf_count == merkle::padded_len(leaves.len()),
        span_fits(layout, leaf_node(leaf_idx, padded_leaf_count)),
        is_proof_span(span, layout, leaf_node(leaf_idx, padded_leaf_count)),
        stores_nodes(data, span.first(), span.size(), leaves, alg),
        holds_nodes(nodes, span.wanted(), span.wanted().len() as int, data, span.first()),
    ensures
        ({
            let v = leaf_node(leaf_idx, padded_leaf_count);
            let path = merkle::path_siblings(v);
            &&& nodes.contains_key(v as u64)
            &&& nodes[v as u64] == leaves[leaf_idx as int]
            &&& path.map_values(|u: int| nodes[u as u64]) == merkle::proof_hashes(
                leaves,
                alg,
                leaf_idx as int,
            )
        }),
{
    let v: int = leaf_node(leaf_idx, padded_leaf_count);
    let path = merkle::path_siblings(v);
    let wanted = wanted_nodes(v);
    let bottom = merkle::padded(leaves, alg);
    let n: int = wanted.len() as int;
    merkle::lemma_padded_len(leaves.len());
    assert(wanted.take(n) =~= wanted);
    assert forall|k: int| 0 <= k < n implies nodes.contains_key(#[trigger] wanted[k] as u64)
        && nodes[wanted[k] as u64] == merkle::node_at(bottom, alg, wanted[k]) by {
        let index: int = wanted[k];
        lemma_path_positive(v);
        if k < path.len() {
            assert(wanted[k] == path[k]);
        }
        assert(32 * (index + 1) <= layout.size);
        assert(wanted.contains(index));
        assert(nodes.contains_key(index as u64));
        let last = choose|last: int| #[trigger]
            is_greatest(wanted, last) && span.size() == 32 * (last - span.first() + 1);
        assert(node_bytes(data, span.first(), index) == merkle::node_at(bottom, alg, index)@);
        assert(nodes[index as u64] =~= merkle::node_at(bottom, alg, index));
    }
    assert(wanted[n - 1] == v);
    assert(merkle::node_at(bottom, alg, v) == leaves[leaf_idx as int]);
    let got = path.map_values(|u: int| nodes[u as u64]);
    let own = merkle::proof_hashes(leaves, alg, leaf_idx as int);
    assert forall|k: int| 0 <= k < path.len() implies got[k] == own[k] by {
        assert(wanted[k] == path[k]);
    }
    assert(got =~= own);
}

/// The nodes beside a path are not the root.
proof fn lemma_path_positive(v: int)
    ensures
        forall|k: int|
            0 <= k < merkle::path_siblings(v).len() ==> #[trigger] merkle::path_siblings(v)[k] > 0,
    decreases v,
{
    if v > 0 {
        let parent: int = merkle::parent_of(v);
        lemma_path_positive(parent);
        assert forall|k: int| 0 <= k < merkle::path_siblings(v).len() implies #[trigger]
        merkle::path_siblings(v)[k] > 0 by {
            if k > 0 {
                assert(merkle::path_siblings(v)[k] == merkle::path_siblings(parent)[k - 1]);
            }
        }
    }
}

/// In a tree of `2^k` leaves a proof takes the leaf and one node per level below
/// the root.
pub proof fn law_path_length(k: nat, j: nat)
    requires
        j < pow2(k),
    ensures
        merkle::path_siblings(pow2(k) - 1 + j).len() == k,
        wanted_nodes(pow2(k) - 1 + j).len() == k + 1,
    decreases k,
{
    lemma2_to64();
    if k > 0 {
        lemma_pow2_unfold(k);
        law_path_length((k - 1) as nat, j / 2);
        assert(merkle::parent_of(pow2(k) - 1 + j) == pow2((k - 1) as nat) - 1 + j / 2);
    }
}

} // verus!
