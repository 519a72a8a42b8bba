//! Merkle trees over the chunks of a dataset.
//!
//! A tree commits to every chunk, and a proof shows that one chunk belongs to it
//! without the others. Leaves, inner nodes and padding are hashed behind
//! different prefixes, and digests are compared in constant time.

use crate::bytes;
use crate::bytes::decimal_text;
use crate::digest;
use crate::digest::{
    hash_blake3, hash_blake3_prefixed, hash_k12, hash_k12_prefixed, hash_sha256,
    hash_sha256_prefixed, HASH_SIZE,
};
use rayon::iter::{IntoParallelRefIterator, ParallelIterator};
use vstd::arithmetic::logarithm::*;
use vstd::arithmetic::mul::*;
use vstd::arithmetic::power2::*;
use vstd::array::array_as_slice;
use vstd::prelude::*;
use vstd::slice::slice_to_vec;
use vstd::string::StringExecFns;

verus! {

/// First byte of the input to a leaf's hash.
pub const LEAF_PREFIX: u8 = 0x00;

/// First byte of the input to an inner node's hash.
pub const INTERNAL_PREFIX: u8 = 0x01;

/// First byte of the input to the hash that stands for an absent chunk.
pub const NULL_PREFIX: u8 = 0x02;

/// The greatest base-2 logarithm of a leaf count that [`MerkleTree::build`] accepts.
pub const MAX_DEPTH: usize = 40;

/// The greatest leaf count that [`MerkleTree::build`] accepts: `2^40`.
pub const MAX_LEAVES: u64 = 0x100_0000_0000;

/// What can go wrong while a tree is built.
#[derive(Debug, Clone, Copy, PartialEq, Eq, Structural)]
pub enum MerkleError {
    /// There are more leaves than a tree may have.
    TreeTooDeep {
        /// The levels that the tree would need.
        requested: usize,
        /// The greatest depth.
        max: usize,
    },
}

impl MerkleError {
    /// The error as a sentence.
    pub fn message(&self) -> (text: String)
        ensures
            match *self {
                MerkleError::TreeTooDeep { requested, max } => text@ == "Merkle tree depth "@
                    + bytes::decimal(requested as nat) + " exceeds maximum allowed depth "@
                    + bytes::decimal(max as nat),
            },
    {
        match self {
            MerkleError::TreeTooDeep { requested, max } => {
                let mut text: String = "Merkle tree depth ".to_owned();
                text.append(decimal_text(*requested as u64).as_str());
                text.append(" exceeds maximum allowed depth ");
                text.append(decimal_text(*max as u64).as_str());
                text
            },
        }
    }
}

/// A hash function.
#[derive(Debug, Clone, Copy, PartialEq, Eq, Hash, Structural)]
pub enum HashAlg {
    /// SHA-256: widely supported.
    Sha256,
    /// BLAKE3: fast, and the default.
    Blake3,
    /// KangarooTwelve: very fast, based on Keccak.
    K12,
}

impl Default for HashAlg {
    fn default() -> (alg: Self)
        ensures
            alg == HashAlg::Blake3,
    {
        HashAlg::Blake3
    }
}

/// The digest of `data`.
pub open spec fn digest_of(alg: HashAlg, data: Seq<u8>) -> [u8; 32] {
    match alg {
        HashAlg::Sha256 => digest::sha256_digest(data),
        HashAlg::Blake3 => digest::blake3_digest(data),
        HashAlg::K12 => digest::k12_digest(data),
    }
}

/// What is hashed for a leaf.
pub open spec fn leaf_input(data: Seq<u8>) -> Seq<u8> {
    seq![LEAF_PREFIX] + data
}

/// What is hashed for an inner node.
pub open spec fn pair_input(left: [u8; 32], right: [u8; 32]) -> Seq<u8> {
    seq![INTERNAL_PREFIX] + left@ + right@
}

/// What is hashed for an absent chunk: the prefix and `b"null"`.
pub open spec fn null_input() -> Seq<u8> {
    seq![NULL_PREFIX, 0x6eu8, 0x75u8, 0x6cu8, 0x6cu8]
}

/// The digest of a chunk.
pub open spec fn leaf_digest(alg: HashAlg, data: Seq<u8>) -> [u8; 32] {
    digest_of(alg, leaf_input(data))
}

/// The digest of an inner node.
pub open spec fn pair_digest(alg: HashAlg, left: [u8; 32], right: [u8; 32]) -> [u8; 32] {
    digest_of(alg, pair_input(left, right))
}

/// The digest that stands for an absent chunk.
pub open spec fn null_digest(alg: HashAlg) -> [u8; 32] {
    digest_of(alg, null_input())
}

/// Hashes a chunk with SHA-256.
fn hash_chunk_sha256(data: &[u8]) -> (hash: [u8; HASH_SIZE])
    ensures
        hash == leaf_digest(HashAlg::Sha256, data@),
{
    hash_sha256_prefixed(LEAF_PREFIX, data)
}

/// Hashes a chunk with BLAKE3.
fn hash_chunk_blake3(data: &[u8]) -> (hash: [u8; HASH_SIZE])
    ensures
        hash == leaf_digest(HashAlg::Blake3, data@),
{
    hash_blake3_prefixed(LEAF_PREFIX, data)
}

/// Hashes a chunk with KangarooTwelve.
fn hash_chunk_k12(data: &[u8]) -> (hash: [u8; HASH_SIZE])
    ensures
        hash == leaf_digest(HashAlg::K12, data@),
{
    hash_k12_prefixed(LEAF_PREFIX, data)
}

/// Computes the leaf hash of a raw chunk.
pub fn hash_chunk(data: &[u8], alg: HashAlg) -> (hash: [u8; HASH_SIZE])
    ensures
        hash == leaf_digest(alg, data@),
{
    match alg {
        HashAlg::Sha256 => hash_chunk_sha256(data),
        HashAlg::Blake3 => hash_chunk_blake3(data),
        HashAlg::K12 => hash_chunk_k12(data),
    }
}

impl HashAlg {
    /// Hashes bytes as they are.
    pub fn hash_raw(&self, data: &[u8]) -> (hash: [u8; HASH_SIZE])
        ensures
            hash == digest_of(*self, data@),
    {
        match self {
            HashAlg::Sha256 => hash_sha256(data),
            HashAlg::Blake3 => hash_blake3(data),
            HashAlg::K12 => hash_k12(data),
        }
    }

    /// Hashes a chunk behind the leaf prefix, as [`hash_chunk`] does.
    pub fn hash_leaf(&self, data: &[u8]) -> (hash: [u8; HASH_SIZE])
        ensures
            hash == leaf_digest(*self, data@),
    {
        hash_chunk(data, *self)
    }

    /// Hashes two child hashes behind the prefix of inner nodes.
    pub fn hash_pair(&self, left: &[u8; HASH_SIZE], right: &[u8; HASH_SIZE]) -> (hash: [u8;
        HASH_SIZE])
        ensures
            hash == pair_digest(*self, *left, *right),
    {
        let mut combined: Vec<u8> = Vec::new();
        combined.push(INTERNAL_PREFIX);
        combined.extend_from_slice(array_as_slice(left));
        combined.extend_from_slice(array_as_slice(right));
        proof {
            assert(combined@ =~= pair_input(*left, *right));
        }
        self.hash_raw(combined.as_slice())
    }

    /// Computes the hash that stands for an absent chunk.
    pub fn null_sentinel(&self) -> (hash: [u8; HASH_SIZE])
        ensures
            hash == null_digest(*self),
    {
        let prefixed: [u8; 5] = [NULL_PREFIX, 0x6e, 0x75, 0x6c, 0x6c];
        proof {
            assert(prefixed@ =~= null_input());
        }
        self.hash_raw(array_as_slice(&prefixed))
    }
}

/// Compares two hashes in time that does not depend on where they differ.
pub fn constant_time_eq(a: &[u8; HASH_SIZE], b: &[u8; HASH_SIZE]) -> (equal: bool)
    ensures
        equal == (*a == *b),
{
    let mut acc: u8 = 0;
    let mut i: usize = 0;
    while i < HASH_SIZE
        invariant
            i <= HASH_SIZE,
            acc == 0 <==> (forall|k: int| 0 <= k < i ==> #[trigger] a@[k] == b@[k]),
        decreases HASH_SIZE - i,
    {
        let x: u8 = a[i];
        let y: u8 = b[i];
        assert((acc | (x ^ y)) == 0 <==> (acc == 0 && x == y)) by (bit_vector);
        acc = acc | (x ^ y);
        i = i + 1;
    }
    proof {
        if acc == 0 {
            assert(*a =~= *b);
        }
    }
    acc == 0
}

/// The levels of a tree over `n` leaves, the root's among them.
pub open spec fn levels(n: nat) -> nat
    decreases n,
{
    if n <= 1 {
        1
    } else {
        1 + levels((n + 1) / 2)
    }
}

/// The leaves of a tree over `n` leaves once it is padded: the next power of two.
pub open spec fn padded_len(n: nat) -> nat {
    pow2((levels(n) - 1) as nat)
}

/// The leaves, followed by as many null digests as the padding needs.
pub open spec fn padded(leaves: Seq<[u8; 32]>, alg: HashAlg) -> Seq<[u8; 32]> {
    Seq::new(
        padded_len(leaves.len()),
        |i: int|
            if i < leaves.len() {
                leaves[i]
            } else {
                null_digest(alg)
            },
    )
}

/// Node `i` of the tree over the leaves `bottom` in level order: the root is node
/// 0, the children of node `i` are nodes `2i + 1` and `2i + 2`, and the leaves
/// come last.
pub open spec fn node_at(bottom: Seq<[u8; 32]>, alg: HashAlg, i: int) -> [u8; 32]
    decreases 2 * bottom.len() - i,
{
    if i < 0 || i + 1 >= bottom.len() {
        bottom[i + 1 - bottom.len()]
    } else {
        pair_digest(alg, node_at(bottom, alg, 2 * i + 1), node_at(bottom, alg, 2 * i + 2))
    }
}

/// All nodes of the tree over `leaves`, in level order.
pub open spec fn tree_nodes(leaves: Seq<[u8; 32]>, alg: HashAlg) -> Seq<[u8; 32]> {
    Seq::new(
        (2 * padded_len(leaves.len()) - 1) as nat,
        |i: int| node_at(padded(leaves, alg), alg, i),
    )
}

/// The root of the tree over `leaves`.
pub open spec fn tree_root(leaves: Seq<[u8; 32]>, alg: HashAlg) -> [u8; 32] {
    node_at(padded(leaves, alg), alg, 0)
}

/// A tree has a level, and twice as many leaves have one more.
proof fn lemma_levels(n: nat, k: nat)
    requires
        n <= pow2(k),
        k == 0 || pow2((k - 1) as nat) < n,
    ensures
        levels(n) == k + 1,
    decreases k,
{
    lemma2_to64();
    if k > 0 {
        lemma_pow2_unfold(k);
        if k > 1 {
            lemma_pow2_unfold((k - 1) as nat);
        }
        lemma_levels((n + 1) / 2, (k - 1) as nat);
    }
}

/// A tree over at most `2^k` leaves has at most `k + 1` levels.
proof fn lemma_levels_bound(n: nat, k: nat)
    requires
        n <= pow2(k),
    ensures
        1 <= levels(n) <= k + 1,
    decreases k,
{
    lemma2_to64();
    if n > 1 {
        if k > 0 {
            lemma_pow2_unfold(k);
            lemma_levels_bound((n + 1) / 2, (k - 1) as nat);
        }
    }
}

/// The padding reaches the next power of two.
pub proof fn lemma_padded_len(n: nat)
    ensures
        levels(n) >= 1,
        n <= padded_len(n),
        n > 0 ==> padded_len(n) < 2 * n,
        n > 1 ==> levels(n) >= 2 && pow2((levels(n) - 2) as nat) < n,
        padded_len(n) >= 1,
    decreases n,
{
    lemma2_to64();
    if n > 1 {
        let half: nat = (n + 1) / 2;
        lemma_padded_len(half);
        lemma_pow2_unfold((levels(n) - 1) as nat);
        if half > 1 {
            lemma_pow2_unfold((levels(n) - 2) as nat);
        }
    }
}

/// A power of two that holds `n`, and whose half does not, is the padded length.
proof fn lemma_padded_len_is(n: nat, k: nat)
    requires
        n <= pow2(k),
        k == 0 || pow2((k - 1) as nat) < n,
    ensures
        padded_len(n) == pow2(k),
        levels(n) == k + 1,
{
    lemma_levels(n, k);
}

/// The number of levels of a tree with `padded_count` leaves: one more than the
/// integer logarithm.
pub open spec fn depth_of(padded_count: nat) -> nat {
    if padded_count <= 1 {
        1
    } else {
        (log(2, padded_count as int) + 1) as nat
    }
}

/// Computes the number of levels of a tree with `padded_count` leaves.
pub fn compute_depth(padded_count: usize) -> (depth: usize)
    ensures
        depth == depth_of(padded_count as nat),
        depth <= 64,
{
    let mut rest: usize = padded_count;
    let mut depth: usize = 1;
    proof {
        lemma2_to64();
        lemma2_to64_rest();
        lemma_mul_basics(rest as int);
    }
    while rest > 1
        invariant
            1 <= depth <= 64,
            rest <= padded_count,
            depth - 1 + depth_of(rest as nat) == depth_of(padded_count as nat),
            rest as nat * pow2((depth - 1) as nat) <= padded_count,
            padded_count > 0 ==> rest > 0,
            pow2(64) == 0x1_0000_0000_0000_0000,
        decreases rest,
    {
        proof {
            lemma_log_s(2, rest as int);
            lemma_log_nonnegative(2, rest as int / 2);
            if rest < 4 {
                lemma_log0(2, rest as int / 2);
            }
            lemma_pow2_unfold(depth as nat);
            let unit: nat = pow2((depth - 1) as nat);
            assert((rest / 2) * (2 * unit) <= rest * unit) by (nonlinear_arith)
                requires
                    rest >= 0,
                    unit >= 0,
            ;
        }
        rest = rest / 2;
        proof {
            lemma_small_depth(rest as nat, depth as nat, padded_count);
        }
        depth = depth + 1;
    }
    depth
}

/// The depth stays small, since the leaves are counted by a `usize`.
proof fn lemma_small_depth(rest: nat, k: nat, count: usize)
    requires
        rest * pow2(k) <= count,
        count > 0 ==> rest > 0,
        count == 0 ==> k == 0,
    ensures
        k < 64,
{
    if k >= 64 {
        bytes::lemma_pow2_le(64, k);
        lemma2_to64_rest();
        assert(rest * pow2(k) >= pow2(k)) by (nonlinear_arith)
            requires
                rest >= 1,
        ;
    }
}

/// The depth of a padded tree is its number of levels.
proof fn lemma_depth_of_padded(n: nat)
    ensures
        depth_of(padded_len(n)) == levels(n),
{
    let k: nat = (levels(n) - 1) as nat;
    lemma_padded_len(n);
    lemma2_to64();
    lemma_pow2(k);
    lemma_log_pow(2, k);
    if k > 0 {
        lemma_pow2_unfold(k);
        lemma_pow2_pos((k - 1) as nat);
    }
}

/// Computes the next power of two.
fn next_power(n: usize) -> (p: usize)
    requires
        2 * padded_len(n as nat) - 1 <= usize::MAX,
    ensures
        p == padded_len(n as nat),
{
    let mut p: usize = 1;
    let ghost mut k: nat = 0;
    proof {
        lemma2_to64();
        lemma_padded_len(n as nat);
    }
    while p < n
        invariant
            1 <= p == pow2(k),
            k == 0 || pow2((k - 1) as nat) < n,
            n <= padded_len(n as nat),
            2 * padded_len(n as nat) - 1 <= usize::MAX,
        decreases 2 * n - p,
    {
        proof {
            lemma_pow2_unfold(k + 1);
            let top: nat = (levels(n as nat) - 1) as nat;
            if k >= top {
                bytes::lemma_pow2_le(top, k);
            }
            bytes::lemma_pow2_le(k + 1, top);
            k = k + 1;
        }
        p = 2 * p;
    }
    proof {
        lemma_padded_len_is(n as nat, k);
    }
    p
}

/// A Merkle tree over the chunks of a dataset.
///
/// All nodes stand in one array in level order, the root first.
#[derive(Debug)]
pub struct MerkleTree {
    nodes: Vec<[u8; HASH_SIZE]>,
    leaf_count: usize,
    padded_count: usize,
    alg: HashAlg,
}

impl MerkleTree {
    /// The leaf hashes that the tree was built from, without padding.
    pub closed spec fn leaves(&self) -> Seq<[u8; 32]> {
        self.nodes@.subrange(self.padded_count - 1, self.padded_count - 1 + self.leaf_count)
    }

    /// The hash function of the tree.
    pub closed spec fn alg(&self) -> HashAlg {
        self.alg
    }

    /// Every node is what the leaves below it make it.
    #[verifier::type_invariant]
    spec fn well_formed(&self) -> bool {
        &&& self.padded_count == padded_len(self.leaf_count as nat)
        &&& self.nodes@.len() == 2 * self.padded_count - 1
        &&& self.leaf_count <= self.padded_count
        &&& self.nodes@ == tree_nodes(self.leaves(), self.alg)
    }
}

impl Clone for MerkleTree {
    fn clone(&self) -> (tree: Self)
        ensures
            tree.leaves() == self.leaves(),
            tree.alg() == self.alg(),
    {
        proof {
            use_type_invariant(self);
        }
        MerkleTree {
            nodes: slice_to_vec(self.nodes.as_slice()),
            leaf_count: self.leaf_count,
            padded_count: self.padded_count,
            alg: self.alg,
        }
    }
}

/// Builds the nodes of the tree over `leaves` from the bottom up.
fn build_nodes(leaves: &[[u8; HASH_SIZE]], alg: HashAlg, padded_count: usize) -> (nodes: Vec<
    [u8; HASH_SIZE],
>)
    requires
        padded_count == padded_len(leaves@.len()),
        2 * padded_count - 1 <= usize::MAX,
    ensures
        nodes@ == tree_nodes(leaves@, alg),
        nodes@.subrange(padded_count - 1, padded_count - 1 + leaves@.len()) == leaves@,
{
    let ghost bottom = padded(leaves@, alg);
    let leaf_count: usize = leaves.len();
    proof {
        lemma_padded_len(leaf_count as nat);
    }
    let total: usize = padded_count + (padded_count - 1);
    let internal: usize = padded_count - 1;
    let null: [u8; HASH_SIZE] = alg.null_sentinel();
    let mut nodes: Vec<[u8; HASH_SIZE]> = vec![null; total];
    let mut i: usize = 0;
    while i < leaf_count
        invariant
            i <= leaf_count <= padded_count,
            leaf_count == leaves@.len(),
            internal == padded_count - 1,
            total == 2 * padded_count - 1,
            nodes@.len() == total,
            null == null_digest(alg),
            forall|k: int|
                internal <= k < internal + i ==> #[trigger] nodes@[k] == leaves@[k - internal],
            forall|k: int| internal + i <= k < total ==> #[trigger] nodes@[k] == null,
        decreases leaf_count - i,
    {
        nodes.set(internal + i, leaves[i]);
        i = i + 1;
    }
    let mut n: usize = internal;
    while n > 0
        invariant
            n <= internal,
            internal == padded_count - 1,
            total == 2 * padded_count - 1,
            nodes@.len() == total,
            bottom == padded(leaves@, alg),
            bottom.len() == padded_count,
            leaf_count == leaves@.len() <= padded_count,
            forall|k: int| n <= k < total ==> #[trigger] nodes@[k] == node_at(bottom, alg, k),
            forall|k: int|
                internal <= k < internal + leaf_count ==> #[trigger] nodes@[k] == leaves@[k
                    - internal],
        decreases n,
    {
        n = n - 1;
        let hash: [u8; HASH_SIZE] = alg.hash_pair(&nodes[2 * n + 1], &nodes[2 * n + 2]);
        nodes.set(n, hash);
    }
    proof {
        assert(nodes@ =~= tree_nodes(leaves@, alg));
        assert(nodes@.subrange(internal as int, internal + leaf_count) =~= leaves@);
    }
    nodes
}

/// The digests of some chunks.
pub open spec fn leaf_digests(alg: HashAlg, chunks: Seq<Seq<u8>>) -> Seq<[u8; 32]> {
    chunks.map_values(|chunk: Seq<u8>| leaf_digest(alg, chunk))
}

/// The bytes of borrowed chunks.
pub open spec fn slice_views(chunks: Seq<&[u8]>) -> Seq<Seq<u8>> {
    chunks.map_values(|chunk: &[u8]| chunk@)
}

/// The bytes of owned chunks.
pub open spec fn vec_views(chunks: Seq<Vec<u8>>) -> Seq<Seq<u8>> {
    chunks.map_values(|chunk: Vec<u8>| chunk@)
}

/// Hashes every chunk, with the work spread by `rayon`'s parallel iterator over
/// its threads. `map` and `collect` keep the order: entry `i` of the result is
/// what the closure gives for chunk `i`.
#[verifier::external_body]
fn hash_leaves_parallel(chunks: &[&[u8]], alg: HashAlg) -> (hashes: Vec<[u8; HASH_SIZE]>)
    ensures
        hashes@ == leaf_digests(alg, slice_views(chunks@)),
{
    chunks.par_iter().map(|chunk| alg.hash_leaf(chunk)).collect()
}

impl MerkleTree {
    /// Builds a tree from leaf hashes, unless there are more than `2^40`.
    ///
    /// The leaves are padded with null digests to the next power of two. Each
    /// hash is to be that of a chunk behind the leaf prefix, as
    /// [`HashAlg::hash_leaf`] computes it.
    pub fn build(leaves: &[[u8; HASH_SIZE]], alg: HashAlg) -> (r: Result<Self, MerkleError>)
        requires
            leaves@.len() <= MAX_LEAVES ==> 4 * leaves@.len() <= usize::MAX,
        ensures
            match r {
                Ok(tree) => {
                    &&& leaves@.len() <= MAX_LEAVES
                    &&& tree.leaves() == leaves@
                    &&& tree.alg() == alg
                },
                Err(e) => {
                    &&& leaves@.len() > MAX_LEAVES
                    &&& e == MerkleError::TreeTooDeep {
                        requested: levels(leaves@.len()) as usize,
                        max: MAX_DEPTH,
                    }
                },
            },
    {
        if leaves.len() as u64 > MAX_LEAVES {
            return Err(
                MerkleError::TreeTooDeep { requested: count_levels(leaves.len()), max: MAX_DEPTH },
            );
        }
        Ok(Self::from_leaf_hashes(leaves, alg))
    }

    /// Builds a tree from leaf hashes, however many.
    pub fn from_leaf_hashes(leaf_hashes: &[[u8; HASH_SIZE]], alg: HashAlg) -> (tree: Self)
        requires
            4 * leaf_hashes@.len() <= usize::MAX,
        ensures
            tree.leaves() == leaf_hashes@,
            tree.alg() == alg,
    {
        let leaf_count: usize = leaf_hashes.len();
        proof {
            lemma_padded_len(leaf_count as nat);
            lemma2_to64();
        }
        let padded_count: usize = next_power(leaf_count);
        let nodes: Vec<[u8; HASH_SIZE]> = build_nodes(leaf_hashes, alg, padded_count);
        MerkleTree { nodes, leaf_count, padded_count, alg }
    }

    /// Builds a tree by hashing borrowed chunks.
    pub fn from_chunks(chunks: &[&[u8]], alg: HashAlg) -> (tree: Self)
        requires
            4 * chunks@.len() <= usize::MAX,
        ensures
            tree.leaves() == leaf_digests(alg, slice_views(chunks@)),
            tree.alg() == alg,
    {
        let mut hashes: Vec<[u8; HASH_SIZE]> = Vec::new();
        let mut i: usize = 0;
        while i < chunks.len()
            invariant
                i <= chunks@.len(),
                hashes@ == leaf_digests(alg, slice_views(chunks@)).take(i as int),
            decreases chunks@.len() - i,
        {
            hashes.push(alg.hash_leaf(chunks[i]));
            i = i + 1;
            proof {
                assert(hashes@ =~= leaf_digests(alg, slice_views(chunks@)).take(i as int));
            }
        }
        proof {
            assert(hashes@ =~= leaf_digests(alg, slice_views(chunks@)));
        }
        Self::from_leaf_hashes(hashes.as_slice(), alg)
    }

    /// Builds a tree by hashing owned chunks.
    pub fn from_chunks_owned(chunks: &[Vec<u8>], alg: HashAlg) -> (tree: Self)
        requires
            4 * chunks@.len() <= usize::MAX,
        ensures
            tree.leaves() == leaf_digests(alg, vec_views(chunks@)),
            tree.alg() == alg,
    {
        let mut hashes: Vec<[u8; HASH_SIZE]> = Vec::new();
        let mut i: usize = 0;
        while i < chunks.len()
            invariant
                i <= chunks@.len(),
                hashes@ == leaf_digests(alg, vec_views(chunks@)).take(i as int),
            decreases chunks@.len() - i,
        {
            hashes.push(alg.hash_leaf(chunks[i].as_slice()));
            i = i + 1;
            proof {
                assert(hashes@ =~= leaf_digests(alg, vec_views(chunks@)).take(i as int));
            }
        }
        proof {
            assert(hashes@ =~= leaf_digests(alg, vec_views(chunks@)));
        }
        Self::from_leaf_hashes(hashes.as_slice(), alg)
    }

    /// Builds a tree by hashing borrowed chunks in parallel.
    pub fn from_chunks_parallel(chunks: &[&[u8]], alg: HashAlg) -> (tree: Self)
        requires
            4 * chunks@.len() <= usize::MAX,
        ensures
            tree.leaves() == leaf_digests(alg, slice_views(chunks@)),
            tree.alg() == alg,
    {
        let hashes: Vec<[u8; HASH_SIZE]> = hash_leaves_parallel(chunks, alg);
        Self::from_leaf_hashes(hashes.as_slice(), alg)
    }

    /// The root hash.
    pub fn root(&self) -> (root: &[u8; HASH_SIZE])
        ensures
            *root == tree_root(self.leaves(), self.alg()),
    {
        proof {
            use_type_invariant(self);
            lemma_padded_len(self.leaf_count as nat);
        }
        &self.nodes[0]
    }

    /// The hash function.
    pub fn algorithm(&self) -> (alg: HashAlg)
        ensures
            alg == self.alg(),
    {
        self.alg
    }

    /// The number of leaves, without padding.
    pub fn leaf_count(&self) -> (n: usize)
        ensures
            n == self.leaves().len(),
    {
        proof {
            use_type_invariant(self);
        }
        self.leaf_count
    }

    /// The number of leaves, with padding.
    pub fn padded_leaf_count(&self) -> (n: usize)
        ensures
            n == padded_len(self.leaves().len()),
    {
        proof {
            use_type_invariant(self);
        }
        self.padded_count
    }

    /// The leaf hash at an index, unless that is out of bounds.
    pub fn leaf_hash(&self, index: usize) -> (hash: Option<&[u8; HASH_SIZE]>)
        ensures
            match hash {
                Some(h) => index < self.leaves().len() && *h == self.leaves()[index as int],
                None => index >= self.leaves().len(),
            },
    {
        proof {
            use_type_invariant(self);
        }
        if index >= self.leaf_count {
            return None;
        }
        assert(self.nodes.len() == self.nodes@.len());
        Some(&self.nodes[self.padded_count - 1 + index])
    }

    /// The number of levels, the root's among them: 1 for a single leaf, 2 for
    /// two leaves.
    pub fn depth(&self) -> (depth: usize)
        ensures
            depth == levels(self.leaves().len()),
    {
        proof {
            use_type_invariant(self);
            lemma_depth_of_padded(self.leaf_count as nat);
        }
        compute_depth(self.padded_count)
    }

    /// All nodes in level order.
    pub fn nodes(&self) -> (nodes: &[[u8; HASH_SIZE]])
        ensures
            nodes@ == tree_nodes(self.leaves(), self.alg()),
    {
        proof {
            use_type_invariant(self);
        }
        self.nodes.as_slice()
    }
}

/// Computes the levels of a tree over `n` leaves.
fn count_levels(n: usize) -> (count: usize)
    ensures
        count == levels(n as nat),
        count <= 65,
{
    let mut rest: usize = n;
    let mut count: usize = 1;
    proof {
        lemma2_to64_rest();
        lemma_levels_bound(n as nat, 64);
    }
    while rest > 1
        invariant
            count - 1 + levels(rest as nat) == levels(n as nat),
            levels(n as nat) <= 65,
            levels(rest as nat) >= 1,
        decreases rest,
    {
        rest = rest / 2 + rest % 2;
        count = count + 1;
    }
    count
}

/// A proof that a leaf belongs to a tree: the hashes beside the path from the
/// leaf to the root.
#[derive(Debug, Clone, PartialEq, Eq)]
pub struct MerkleProof {
    /// The index of the leaf.
    pub leaf_index: usize,
    /// The sibling hashes, from the leaf up.
    pub siblings: Vec<[u8; HASH_SIZE]>,
    /// The hash function.
    pub alg: HashAlg,
}

/// The node beside node `v`: left children have odd numbers.
pub open spec fn sibling_of(v: int) -> int {
    if v % 2 == 1 {
        v + 1
    } else {
        v - 1
    }
}

/// The node above node `v`.
pub open spec fn parent_of(v: int) -> int {
    (v - 1) / 2
}

/// The numbers of the nodes beside the path from node `v` to the root.
pub open spec fn path_siblings(v: int) -> Seq<int>
    decreases v,
{
    if v <= 0 {
        Seq::empty()
    } else {
        seq![sibling_of(v)] + path_siblings(parent_of(v))
    }
}

/// The hashes beside the path from leaf `i` to the root.
pub open spec fn proof_hashes(leaves: Seq<[u8; 32]>, alg: HashAlg, i: int) -> Seq<[u8; 32]> {
    path_siblings(padded_len(leaves.len()) - 1 + i).map_values(
        |v: int| node_at(padded(leaves, alg), alg, v),
    )
}

/// The root that a leaf hash and the hashes beside its path lead to. At an even
/// index the hash so far is the left one.
pub open spec fn folded_root(
    alg: HashAlg,
    hash: [u8; 32],
    index: nat,
    siblings: Seq<[u8; 32]>,
) -> [u8; 32]
    decreases siblings.len(),
{
    if siblings.len() == 0 {
        hash
    } else {
        folded_root(
            alg,
            if index % 2 == 0 {
                pair_digest(alg, hash, siblings[0])
            } else {
                pair_digest(alg, siblings[0], hash)
            },
            index / 2,
            siblings.drop_first(),
        )
    }
}

impl MerkleProof {
    /// The index of the leaf.
    pub fn leaf_index(&self) -> (i: usize)
        ensures
            i == self.leaf_index,
    {
        self.leaf_index
    }

    /// The sibling hashes.
    pub fn siblings(&self) -> (siblings: &[[u8; HASH_SIZE]])
        ensures
            siblings@ == self.siblings@,
    {
        self.siblings.as_slice()
    }

    /// The hash function.
    pub fn algorithm(&self) -> (alg: HashAlg)
        ensures
            alg == self.alg,
    {
        self.alg
    }

    /// Computes the root that this proof leads to from a chunk.
    pub fn compute_root(&self, chunk_data: &[u8]) -> (root: [u8; HASH_SIZE])
        ensures
            root == folded_root(
                self.alg,
                leaf_digest(self.alg, chunk_data@),
                self.leaf_index as nat,
                self.siblings@,
            ),
    {
        let leaf: [u8; HASH_SIZE] = self.alg.hash_leaf(chunk_data);
        self.compute_root_from_hash(&leaf)
    }

    /// Computes the root that this proof leads to from a leaf hash.
    pub fn compute_root_from_hash(&self, leaf_hash: &[u8; HASH_SIZE]) -> (root: [u8; HASH_SIZE])
        ensures
            root == folded_root(self.alg, *leaf_hash, self.leaf_index as nat, self.siblings@),
    {
        let mut current: [u8; HASH_SIZE] = *leaf_hash;
        let mut index: usize = self.leaf_index;
        let mut k: usize = 0;
        assert(self.siblings@.skip(0) =~= self.siblings@);
        while k < self.siblings.len()
            invariant
                k <= self.siblings@.len(),
                folded_root(self.alg, current, index as nat, self.siblings@.skip(k as int))
                    == folded_root(
                    self.alg,
                    *leaf_hash,
                    self.leaf_index as nat,
                    self.siblings@,
                ),
            decreases self.siblings@.len() - k,
        {
            proof {
                let rest = self.siblings@.skip(k as int);
                assert(rest[0] == self.siblings@[k as int]);
                assert(rest.drop_first() =~= self.siblings@.skip(k + 1));
            }
            current = if index % 2 == 0 {
                self.alg.hash_pair(&current, &self.siblings[k])
            } else {
                self.alg.hash_pair(&self.siblings[k], &current)
            };
            index = index / 2;
            k = k + 1;
        }
        current
    }

    /// The bytes that the proof takes: one for the hash function, eight for the
    /// index and 32 per sibling.
    pub fn size_bytes(&self) -> (n: usize)
        requires
            9 + 32 * self.siblings@.len() <= usize::MAX,
        ensures
            n == 9 + 32 * self.siblings@.len(),
    {
        1 + 8 + self.siblings.len() * HASH_SIZE
    }
}

impl MerkleTree {
    /// Generates the proof for the leaf at an index, unless that is out of bounds.
    pub fn inclusion_proof(&self, leaf_index: usize) -> (r: Option<MerkleProof>)
        ensures
            match r {
                Some(witness) => {
                    &&& leaf_index < self.leaves().len()
                    &&& witness.leaf_index == leaf_index
                    &&& witness.alg == self.alg()
                    &&& witness.siblings@ == proof_hashes(
                        self.leaves(),
                        self.alg(),
                        leaf_index as int,
                    )
                },
                None => leaf_index >= self.leaves().len(),
            },
    {
        proof {
            use_type_invariant(self);
        }
        if leaf_index >= self.leaf_count {
            return None;
        }
        let ghost start: int = self.padded_count - 1 + leaf_index;
        let ghost bottom = padded(self.leaves(), self.alg);
        let ghost all = path_siblings(start);
        assert(self.nodes.len() == self.nodes@.len());
        let mut node: usize = self.padded_count - 1 + leaf_index;
        let mut siblings: Vec<[u8; HASH_SIZE]> = Vec::new();
        assert(all.skip(0) =~= all);
        while node > 0
            invariant
                node < 2 * self.padded_count - 1,
                self.nodes@.len() == 2 * self.padded_count - 1 <= usize::MAX,
                self.nodes@ == tree_nodes(self.leaves(), self.alg),
                bottom == padded(self.leaves(), self.alg),
                siblings@.len() <= all.len(),
                path_siblings(node as int) == all.skip(siblings@.len() as int),
                siblings@ == all.take(siblings@.len() as int).map_values(
                    |v: int| node_at(bottom, self.alg, v),
                ),
            decreases node,
        {
            let beside: usize = if node % 2 == 1 {
                node + 1
            } else {
                node - 1
            };
            proof {
                let k: int = siblings@.len() as int;
                let path = path_siblings(node as int);
                assert(path[0] == sibling_of(node as int));
                assert(path.len() >= 1);
                assert(all.skip(k)[0] == all[k]);
                assert(path.drop_first() =~= path_siblings(parent_of(node as int)));
                assert(path.drop_first() =~= all.skip(k + 1));
                assert(beside == all[k]);
            }
            siblings.push(self.nodes[beside]);
            node = (node - 1) / 2;
            proof {
                assert(siblings@ =~= all.take(siblings@.len() as int).map_values(
                    |v: int| node_at(bottom, self.alg, v),
                ));
            }
        }
        proof {
            assert(siblings@ =~= proof_hashes(self.leaves(), self.alg, leaf_index as int));
        }
        Some(MerkleProof { leaf_index, siblings, alg: self.alg })
    }

    /// Whether a chunk is the one that the tree has at an index.
    pub fn verify_chunk(&self, leaf_index: usize, chunk_data: &[u8]) -> (valid: bool)
        ensures
            valid == (leaf_index < self.leaves().len() && leaf_digest(self.alg(), chunk_data@)
                == self.leaves()[leaf_index as int]),
    {
        match self.leaf_hash(leaf_index) {
            None => false,
            Some(expected) => {
                let hash: [u8; HASH_SIZE] = self.alg.hash_leaf(chunk_data);
                constant_time_eq(&hash, expected)
            },
        }
    }

    /// Whether a proof, of the length that fits this tree, leads from a chunk to
    /// this tree's root.
    pub fn verify_proof(
        &self,
        leaf_index: usize,
        chunk_data: &[u8],
        witness: &MerkleProof,
    ) -> (valid: bool)
        ensures
            valid == proof_accepted(self.leaves(), self.alg(), leaf_index, chunk_data@, *witness),
    {
        if leaf_index != witness.leaf_index || self.alg != witness.alg {
            return false;
        }
        if witness.siblings.len() != self.depth() - 1 {
            return false;
        }
        let root: [u8; HASH_SIZE] = witness.compute_root(chunk_data);
        constant_time_eq(&root, self.root())
    }

    /// Whether a proof leads from a chunk to a root. Without the tree, the length
    /// of the proof cannot be judged.
    pub fn verify_proof_standalone(
        root: &[u8; HASH_SIZE],
        leaf_index: usize,
        chunk_data: &[u8],
        witness: &MerkleProof,
    ) -> (valid: bool)
        ensures
            valid == leads_to_root(*root, leaf_index, chunk_data@, *witness),
    {
        if leaf_index != witness.leaf_index {
            return false;
        }
        let computed: [u8; HASH_SIZE] = witness.compute_root(chunk_data);
        constant_time_eq(&computed, root)
    }
}

/// A proof for `leaf_index` leads from a chunk to `root`.
pub open spec fn leads_to_root(
    root: [u8; 32],
    leaf_index: usize,
    chunk: Seq<u8>,
    witness: MerkleProof,
) -> bool {
    &&& leaf_index == witness.leaf_index
    &&& folded_root(
        witness.alg,
        leaf_digest(witness.alg, chunk),
        leaf_index as nat,
        witness.siblings@,
    ) == root
}

/// A proof fits the tree over `leaves` and leads from a chunk to its root.
pub open spec fn proof_accepted(
    leaves: Seq<[u8; 32]>,
    alg: HashAlg,
    leaf_index: usize,
    chunk: Seq<u8>,
    witness: MerkleProof,
) -> bool {
    &&& alg == witness.alg
    &&& witness.siblings@.len() == levels(leaves.len()) - 1
    &&& leads_to_root(tree_root(leaves, alg), leaf_index, chunk, witness)
}

} // verus!
