//! What the Merkle trees promise.

use crate::bytes;
use crate::digest;
use crate::merkle;
use crate::merkle::{HashAlg, MerkleProof, MerkleTree};
use vstd::arithmetic::div_mod::*;
use vstd::arithmetic::logarithm::*;
use vstd::arithmetic::mul::*;
use vstd::arithmetic::power2::*;
use vstd::prelude::*;

verus! {

/// One of `xs` and another one of `ys`, different byte strings, have the same digest of
/// the hash function itself.
pub open spec fn collide(alg: HashAlg, xs: Set<Seq<u8>>, ys: Set<Seq<u8>>) -> bool {
    exists|x: Seq<u8>, y: Seq<u8>| #[trigger]
        xs.contains(x) && #[trigger] ys.contains(y) && x != y && match alg {
            HashAlg::Sha256 => digest::sha256_digest(x) == digest::sha256_digest(y),
            HashAlg::Blake3 => digest::blake3_digest(x) == digest::blake3_digest(y),
            HashAlg::K12 => digest::k12_digest(x) == digest::k12_digest(y),
        }
}

/// Leaves, inner nodes and the padding never hash the same input, and a leaf's
/// input tells the chunk.
pub proof fn law_domains_are_separate(
    chunk: Seq<u8>,
    other: Seq<u8>,
    left: [u8; 32],
    right: [u8; 32],
)
    ensures
        merkle::leaf_input(chunk) != merkle::pair_input(left, right),
        merkle::leaf_input(chunk) != merkle::null_input(),
        merkle::pair_input(left, right) != merkle::null_input(),
        merkle::leaf_input(chunk) == merkle::leaf_input(other) ==> chunk == other,
{
    assert(merkle::leaf_input(chunk)[0] == merkle::LEAF_PREFIX);
    assert(merkle::pair_input(left, right)[0] == merkle::INTERNAL_PREFIX);
    assert(merkle::null_input()[0] == merkle::NULL_PREFIX);
    if merkle::leaf_input(chunk) == merkle::leaf_input(other) {
        assert(chunk =~= merkle::leaf_input(chunk).skip(1));
        assert(other =~= merkle::leaf_input(other).skip(1));
    }
}

/// The input of an inner node tells its children.
proof fn lemma_pair_input_injective(l1: [u8; 32], r1: [u8; 32], l2: [u8; 32], r2: [u8; 32])
    requires
        merkle::pair_input(l1, r1) == merkle::pair_input(l2, r2),
    ensures
        l1 == l2,
        r1 == r2,
{
    let a = merkle::pair_input(l1, r1);
    let b = merkle::pair_input(l2, r2);
    assert(l1@ =~= a.subrange(1, 33));
    assert(l2@ =~= b.subrange(1, 33));
    assert(r1@ =~= a.subrange(33, 65));
    assert(r2@ =~= b.subrange(33, 65));
    assert(l1 =~= l2);
    assert(r1 =~= r2);
}

/// The path from node `v`, number `j` on level `k`, folds to the root.
proof fn lemma_fold_path(bottom: Seq<[u8; 32]>, alg: HashAlg, height: nat, k: nat, j: nat)
    requires
        bottom.len() == pow2(height),
        k <= height,
        j < pow2(k),
    ensures
        ({
            let v = pow2(k) - 1 + j;
            let hashes = merkle::path_siblings(v).map_values(
                |u: int| merkle::node_at(bottom, alg, u),
            );
            &&& hashes.len() == k
            &&& merkle::folded_root(alg, merkle::node_at(bottom, alg, v), j, hashes)
                == merkle::node_at(bottom, alg, 0)
        }),
    decreases k,
{
    let v: int = pow2(k) - 1 + j;
    let value = |u: int| merkle::node_at(bottom, alg, u);
    let path = merkle::path_siblings(v);
    lemma2_to64();
    if k == 0 {
        assert(path.map_values(value) =~= Seq::empty());
    } else {
        let up: nat = (k - 1) as nat;
        lemma_pow2_unfold(k);
        lemma_fold_path(bottom, alg, height, up, j / 2);
        bytes::lemma_pow2_le(k, height);
        let parent: int = merkle::parent_of(v);
        assert(parent == pow2(up) - 1 + j / 2);
        let hashes = path.map_values(value);
        let rest = merkle::path_siblings(parent).map_values(value);
        assert(hashes.drop_first() =~= rest);
        assert(hashes[0] == value(merkle::sibling_of(v)));
    }
}

/// Whatever the leaf hashes are, those beside the path of leaf `i` lead from its hash
/// to the root, and there is one per level below the root.
pub proof fn law_path_leads_to_root(leaves: Seq<[u8; 32]>, alg: HashAlg, i: nat)
    requires
        i < leaves.len(),
    ensures
        merkle::proof_hashes(leaves, alg, i as int).len() == merkle::levels(leaves.len()) - 1,
        merkle::folded_root(alg, leaves[i as int], i, merkle::proof_hashes(leaves, alg, i as int))
            == merkle::tree_root(leaves, alg),
{
    let bottom = merkle::padded(leaves, alg);
    let height: nat = (merkle::levels(leaves.len()) - 1) as nat;
    merkle::lemma_padded_len(leaves.len());
    lemma_fold_path(bottom, alg, height, height, i);
    let v: int = bottom.len() - 1 + i;
    assert(merkle::node_at(bottom, alg, v) == leaves[i as int]);
}

/// A proof that a tree generates for a chunk of its own is accepted, by the tree
/// and by whoever knows its root, at the index of the chunk and at no other.
pub proof fn law_generated_proof_is_accepted(
    leaves: Seq<[u8; 32]>,
    alg: HashAlg,
    leaf_index: usize,
    chunk: Seq<u8>,
    witness: MerkleProof,
)
    requires
        leaf_index < leaves.len(),
        leaves[leaf_index as int] == merkle::leaf_digest(alg, chunk),
        witness.leaf_index == leaf_index,
        witness.alg == alg,
        witness.siblings@ == merkle::proof_hashes(leaves, alg, leaf_index as int),
    ensures
        merkle::proof_accepted(leaves, alg, leaf_index, chunk, witness),
        merkle::leads_to_root(merkle::tree_root(leaves, alg), leaf_index, chunk, witness),
        forall|j: usize|
            j != leaf_index ==> !#[trigger] merkle::proof_accepted(
                leaves,
                alg,
                j,
                chunk,
                witness,
            ),
        forall|j: usize|
            j != leaf_index ==> !#[trigger] merkle::leads_to_root(
                merkle::tree_root(leaves, alg),
                j,
                chunk,
                witness,
            ),
{
    law_path_leads_to_root(leaves, alg, leaf_index as nat);
}

/// What is hashed for the next node of a path.
pub open spec fn step_input(hash: [u8; 32], index: nat, sibling: [u8; 32]) -> Seq<u8> {
    if index % 2 == 0 {
        merkle::pair_input(hash, sibling)
    } else {
        merkle::pair_input(sibling, hash)
    }
}

/// All that is hashed on the path from a leaf hash to the root.
pub open spec fn path_inputs(
    alg: HashAlg,
    hash: [u8; 32],
    index: nat,
    siblings: Seq<[u8; 32]>,
) -> Set<Seq<u8>>
    decreases siblings.len(),
{
    if siblings.len() == 0 {
        Set::empty()
    } else {
        let input = step_input(hash, index, siblings[0]);
        path_inputs(
            alg,
            merkle::digest_of(alg, input),
            index / 2,
            siblings.drop_first(),
        ).insert(input)
    }
}

/// All that is hashed to check a proof for a chunk.
pub open spec fn check_inputs(
    alg: HashAlg,
    chunk: Seq<u8>,
    index: nat,
    siblings: Seq<[u8; 32]>,
) -> Set<Seq<u8>> {
    path_inputs(alg, merkle::leaf_digest(alg, chunk), index, siblings).insert(
        merkle::leaf_input(chunk),
    )
}

/// Two paths of one length and index that start apart and meet hash two inputs to
/// the same digest.
proof fn lemma_paths_meet(
    alg: HashAlg,
    h1: [u8; 32],
    h2: [u8; 32],
    index: nat,
    s1: Seq<[u8; 32]>,
    s2: Seq<[u8; 32]>,
)
    requires
        s1.len() == s2.len(),
        h1 != h2,
        merkle::folded_root(alg, h1, index, s1) == merkle::folded_root(alg, h2, index, s2),
    ensures
        collide(alg, path_inputs(alg, h1, index, s1), path_inputs(alg, h2, index, s2)),
    decreases s1.len(),
{
    if s1.len() > 0 {
        let x = step_input(h1, index, s1[0]);
        let y = step_input(h2, index, s2[0]);
        let xs = path_inputs(alg, h1, index, s1);
        let ys = path_inputs(alg, h2, index, s2);
        let n1 = merkle::digest_of(alg, x);
        let n2 = merkle::digest_of(alg, y);
        assert(xs.contains(x) && ys.contains(y));
        if n1 == n2 {
            if x == y {
                if index % 2 == 0 {
                    lemma_pair_input_injective(h1, s1[0], h2, s2[0]);
                } else {
                    lemma_pair_input_injective(s1[0], h1, s2[0], h2);
                }
            }
        } else {
            let up1 = path_inputs(alg, n1, index / 2, s1.drop_first());
            let up2 = path_inputs(alg, n2, index / 2, s2.drop_first());
            lemma_paths_meet(alg, n1, n2, index / 2, s1.drop_first(), s2.drop_first());
            lemma_collide_within(alg, up1, up2, xs, ys);
        }
    }
}

/// What collides in smaller sets does so in larger ones.
proof fn lemma_collide_within(
    alg: HashAlg,
    xs: Set<Seq<u8>>,
    ys: Set<Seq<u8>>,
    more_xs: Set<Seq<u8>>,
    more_ys: Set<Seq<u8>>,
)
    requires
        collide(alg, xs, ys),
        xs.subset_of(more_xs),
        ys.subset_of(more_ys),
    ensures
        collide(alg, more_xs, more_ys),
{
    let (x, y) = choose|x: Seq<u8>, y: Seq<u8>| #[trigger]
        xs.contains(x) && #[trigger] ys.contains(y) && x != y && match alg {
            HashAlg::Sha256 => digest::sha256_digest(x) == digest::sha256_digest(y),
            HashAlg::Blake3 => digest::blake3_digest(x) == digest::blake3_digest(y),
            HashAlg::K12 => digest::k12_digest(x) == digest::k12_digest(y),
        };
    assert(more_xs.contains(x) && more_ys.contains(y));
}

/// A proof accepted for a chunk that the tree does not have at that index shows a
/// collision of the hash function: between what is hashed to check it and what is
/// hashed to check the tree's own proof for its own chunk.
pub proof fn law_wrong_chunk_shows_collision(
    chunks: Seq<Seq<u8>>,
    alg: HashAlg,
    leaf_index: usize,
    chunk: Seq<u8>,
    witness: MerkleProof,
)
    requires
        leaf_index < chunks.len(),
        chunk != chunks[leaf_index as int],
        merkle::proof_accepted(
            merkle::leaf_digests(alg, chunks),
            alg,
            leaf_index,
            chunk,
            witness,
        ),
    ensures
        collide(
            alg,
            check_inputs(alg, chunk, leaf_index as nat, witness.siblings@),
            check_inputs(
                alg,
                chunks[leaf_index as int],
                leaf_index as nat,
                merkle::proof_hashes(
                    merkle::leaf_digests(alg, chunks),
                    alg,
                    leaf_index as int,
                ),
            ),
        ),
{
    let i: int = leaf_index as int;
    let leaves = merkle::leaf_digests(alg, chunks);
    let own = merkle::proof_hashes(leaves, alg, i);
    let mine = merkle::leaf_digest(alg, chunk);
    let committed = leaves[i];
    let xs = check_inputs(alg, chunk, i as nat, witness.siblings@);
    let ys = check_inputs(alg, chunks[i], i as nat, own);
    if mine == committed {
        law_domains_are_separate(chunk, chunks[i], mine, mine);
        assert(xs.contains(merkle::leaf_input(chunk)));
        assert(ys.contains(merkle::leaf_input(chunks[i])));
    } else {
        law_path_leads_to_root(leaves, alg, i as nat);
        lemma_paths_meet(alg, mine, committed, i as nat, witness.siblings@, own);
        lemma_collide_within(
            alg,
            path_inputs(alg, mine, i as nat, witness.siblings@),
            path_inputs(alg, committed, i as nat, own),
            xs,
            ys,
        );
    }
}

/// The root over some leaves, as the pair of the roots over their halves.
pub open spec fn halved_root(bottom: Seq<[u8; 32]>, alg: HashAlg) -> [u8; 32]
    decreases bottom.len(),
{
    if bottom.len() <= 1 {
        bottom[0]
    } else {
        let half = (bottom.len() / 2) as int;
        merkle::pair_digest(
            alg,
            halved_root(bottom.take(half), alg),
            halved_root(bottom.skip(half), alg),
        )
    }
}

/// Node `j` of level `k` is the root over its share of the leaves.
proof fn lemma_node_covers(bottom: Seq<[u8; 32]>, alg: HashAlg, height: nat, k: nat, j: nat)
    requires
        bottom.len() == pow2(height),
        k <= height,
        j < pow2(k),
    ensures
        ({
            let width = pow2((height - k) as nat);
            &&& (j + 1) * width <= bottom.len()
            &&& merkle::node_at(bottom, alg, pow2(k) - 1 + j) == halved_root(
                bottom.subrange((j * width) as int, ((j + 1) * width) as int),
                alg,
            )
        }),
    decreases height - k,
{
    let width: nat = pow2((height - k) as nat);
    let v: int = pow2(k) - 1 + j;
    lemma2_to64();
    lemma_pow2_adds(k, (height - k) as nat);
    lemma_pow2_pos((height - k) as nat);
    assert((j + 1) * width <= pow2(k) * width) by (nonlinear_arith)
        requires
            j + 1 <= pow2(k),
    ;
    assert((j + 1) * width == j * width + width) by (nonlinear_arith);
    let share = bottom.subrange((j * width) as int, ((j + 1) * width) as int);
    if k == height {
        lemma_mul_basics(j as int);
        assert(share[0] == bottom[j as int]);
    } else {
        lemma_pow2_unfold((height - k) as nat);
        lemma_pow2_unfold(k + 1);
        bytes::lemma_pow2_le(k + 1, height);
        let half: nat = pow2((height - k - 1) as nat);
        lemma_node_covers(bottom, alg, height, k + 1, 2 * j);
        lemma_node_covers(bottom, alg, height, k + 1, 2 * j + 1);
        assert((2 * j) * half == j * width) by (nonlinear_arith)
            requires
                width == 2 * half,
        ;
        assert((2 * j + 1) * half == j * width + half) by (nonlinear_arith)
            requires
                width == 2 * half,
        ;
        assert((2 * j + 2) * half == j * width + width) by (nonlinear_arith)
            requires
                width == 2 * half,
        ;
        assert(share.take(half as int) =~= bottom.subrange(
            ((2 * j) * half) as int,
            ((2 * j + 1) * half) as int,
        ));
        assert(share.skip(half as int) =~= bottom.subrange(
            ((2 * j + 1) * half) as int,
            ((2 * j + 2) * half) as int,
        ));
        lemma_pow2_pos((height - k - 1) as nat);
    }
}

/// The root of a tree is the pair of the roots over the halves of its padded
/// leaves, and so on down to single leaves.
pub proof fn law_root_by_halving(leaves: Seq<[u8; 32]>, alg: HashAlg)
    ensures
        merkle::tree_root(leaves, alg) == halved_root(merkle::padded(leaves, alg), alg),
{
    let bottom = merkle::padded(leaves, alg);
    let height: nat = (merkle::levels(leaves.len()) - 1) as nat;
    merkle::lemma_padded_len(leaves.len());
    lemma2_to64();
    lemma_node_covers(bottom, alg, height, 0, 0);
    lemma_mul_basics(pow2(height) as int);
    assert(bottom.subrange(0, bottom.len() as int) =~= bottom);
}

/// All that is hashed for the inner nodes of a tree over the leaves `bottom`.
pub open spec fn inner_inputs(bottom: Seq<[u8; 32]>, alg: HashAlg) -> Set<Seq<u8>>
    decreases bottom.len(),
{
    if bottom.len() <= 1 {
        Set::empty()
    } else {
        let half = (bottom.len() / 2) as int;
        inner_inputs(bottom.take(half), alg).union(inner_inputs(bottom.skip(half), alg)).insert(
            merkle::pair_input(
                halved_root(bottom.take(half), alg),
                halved_root(bottom.skip(half), alg),
            ),
        )
    }
}

/// All that is hashed for the leaves of a tree and their padding.
pub open spec fn bottom_inputs(chunks: Seq<Seq<u8>>) -> Set<Seq<u8>> {
    chunks.map_values(|chunk: Seq<u8>| merkle::leaf_input(chunk)).to_set().insert(
        merkle::null_input(),
    )
}

/// All that is hashed to build a tree over some chunks.
pub open spec fn tree_inputs(chunks: Seq<Seq<u8>>, alg: HashAlg) -> Set<Seq<u8>> {
    bottom_inputs(chunks).union(
        inner_inputs(merkle::padded(merkle::leaf_digests(alg, chunks), alg), alg),
    )
}

/// A hash is the digest of one of `xs`.
spec fn is_digest_of(hash: [u8; 32], alg: HashAlg, xs: Set<Seq<u8>>) -> bool {
    exists|x: Seq<u8>| #[trigger] xs.contains(x) && merkle::digest_of(alg, x) == hash
}

/// Every one of `bottom` is the digest of one of `xs`.
spec fn are_digests_of(bottom: Seq<[u8; 32]>, alg: HashAlg, xs: Set<Seq<u8>>) -> bool {
    forall|i: int| 0 <= i < bottom.len() ==> is_digest_of(#[trigger] bottom[i], alg, xs)
}

/// The padded leaves are digests of what is hashed for them.
proof fn lemma_padded_are_digests(chunks: Seq<Seq<u8>>, alg: HashAlg)
    ensures
        are_digests_of(
            merkle::padded(merkle::leaf_digests(alg, chunks), alg),
            alg,
            bottom_inputs(chunks),
        ),
{
    let bottom = merkle::padded(merkle::leaf_digests(alg, chunks), alg);
    let inputs = chunks.map_values(|chunk: Seq<u8>| merkle::leaf_input(chunk));
    assert forall|i: int| 0 <= i < bottom.len() implies is_digest_of(
        #[trigger] bottom[i],
        alg,
        bottom_inputs(chunks),
    ) by {
        if i < chunks.len() {
            assert(inputs[i] == merkle::leaf_input(chunks[i]));
            assert(bottom_inputs(chunks).contains(inputs[i]));
        } else {
            assert(bottom_inputs(chunks).contains(merkle::null_input()));
        }
    }
}

/// What is hashed for a leaf or for the padding is not what is hashed for an
/// inner node.
proof fn lemma_bottom_is_not_inner(
    chunks: Seq<Seq<u8>>,
    x: Seq<u8>,
    left: [u8; 32],
    right: [u8; 32],
)
    requires
        bottom_inputs(chunks).contains(x),
    ensures
        x != merkle::pair_input(left, right),
{
    let inputs = chunks.map_values(|chunk: Seq<u8>| merkle::leaf_input(chunk));
    if x == merkle::null_input() {
        law_domains_are_separate(x, x, left, right);
    } else {
        assert(inputs.contains(x));
        let i = choose|i: int| 0 <= i < inputs.len() && inputs[i] == x;
        law_domains_are_separate(chunks[i], chunks[i], left, right);
    }
}

/// Different leaves under one root, in trees of whatever heights, show a collision
/// between what the two trees hash.
proof fn lemma_roots_meet(
    alg: HashAlg,
    a_chunks: Seq<Seq<u8>>,
    b_chunks: Seq<Seq<u8>>,
    a: Seq<[u8; 32]>,
    b: Seq<[u8; 32]>,
    a_height: nat,
    b_height: nat,
)
    requires
        a.len() == pow2(a_height),
        b.len() == pow2(b_height),
        a != b,
        halved_root(a, alg) == halved_root(b, alg),
        are_digests_of(a, alg, bottom_inputs(a_chunks)),
        are_digests_of(b, alg, bottom_inputs(b_chunks)),
    ensures
        collide(
            alg,
            bottom_inputs(a_chunks).union(inner_inputs(a, alg)),
            bottom_inputs(b_chunks).union(inner_inputs(b, alg)),
        ),
    decreases a_height,
{
    let xs = bottom_inputs(a_chunks).union(inner_inputs(a, alg));
    let ys = bottom_inputs(b_chunks).union(inner_inputs(b, alg));
    lemma2_to64();
    if a_height > 0 {
        lemma_pow2_unfold(a_height);
        lemma_pow2_pos((a_height - 1) as nat);
    }
    if b_height > 0 {
        lemma_pow2_unfold(b_height);
        lemma_pow2_pos((b_height - 1) as nat);
    }
    let a_half: int = (a.len() / 2) as int;
    let b_half: int = (b.len() / 2) as int;
    let (a1, a2) = (a.take(a_half), a.skip(a_half));
    let (b1, b2) = (b.take(b_half), b.skip(b_half));
    let x = merkle::pair_input(halved_root(a1, alg), halved_root(a2, alg));
    let y = merkle::pair_input(halved_root(b1, alg), halved_root(b2, alg));
    if a_height == 0 && b_height == 0 {
        assert(a =~= b);
    } else if a_height == 0 {
        assert(is_digest_of(a[0], alg, bottom_inputs(a_chunks)));
        let leaf = choose|leaf: Seq<u8>| #[trigger]
            bottom_inputs(a_chunks).contains(leaf) && merkle::digest_of(alg, leaf) == a[0];
        lemma_bottom_is_not_inner(a_chunks, leaf, halved_root(b1, alg), halved_root(b2, alg));
        assert(xs.contains(leaf) && ys.contains(y));
    } else if b_height == 0 {
        assert(is_digest_of(b[0], alg, bottom_inputs(b_chunks)));
        let leaf = choose|leaf: Seq<u8>| #[trigger]
            bottom_inputs(b_chunks).contains(leaf) && merkle::digest_of(alg, leaf) == b[0];
        lemma_bottom_is_not_inner(b_chunks, leaf, halved_root(a1, alg), halved_root(a2, alg));
        assert(xs.contains(x) && ys.contains(leaf));
    } else {
        assert(xs.contains(x) && ys.contains(y));
        if x == y {
            lemma_pair_input_injective(
                halved_root(a1, alg),
                halved_root(a2, alg),
                halved_root(b1, alg),
                halved_root(b2, alg),
            );
            assert forall|i: int| 0 <= i < a1.len() implies #[trigger] a1[i] == a[i] by {}
            assert forall|i: int| 0 <= i < a2.len() implies #[trigger] a2[i] == a[a_half + i] by {}
            assert forall|i: int| 0 <= i < b1.len() implies #[trigger] b1[i] == b[i] by {}
            assert forall|i: int| 0 <= i < b2.len() implies #[trigger] b2[i] == b[b_half + i] by {}
            if a1 != b1 {
                lemma_roots_meet(
                    alg,
                    a_chunks,
                    b_chunks,
                    a1,
                    b1,
                    (a_height - 1) as nat,
                    (b_height - 1) as nat,
                );
                lemma_collide_within(
                    alg,
                    bottom_inputs(a_chunks).union(inner_inputs(a1, alg)),
                    bottom_inputs(b_chunks).union(inner_inputs(b1, alg)),
                    xs,
                    ys,
                );
            } else if a2 != b2 {
                lemma_roots_meet(
                    alg,
                    a_chunks,
                    b_chunks,
                    a2,
                    b2,
                    (a_height - 1) as nat,
                    (b_height - 1) as nat,
                );
                lemma_collide_within(
                    alg,
                    bottom_inputs(a_chunks).union(inner_inputs(a2, alg)),
                    bottom_inputs(b_chunks).union(inner_inputs(b2, alg)),
                    xs,
                    ys,
                );
            } else {
                assert(a =~= a1 + a2);
                assert(b =~= b1 + b2);
            }
        }
    }
}

/// A root commits to the chunks, their order and their number: other chunks under
/// the same root show a collision of the hash function, between what is hashed to
/// build the one tree and what is hashed to build the other.
pub proof fn law_root_commits_to_chunks(a: Seq<Seq<u8>>, b: Seq<Seq<u8>>, alg: HashAlg)
    requires
        a != b,
        merkle::tree_root(merkle::leaf_digests(alg, a), alg) == merkle::tree_root(
            merkle::leaf_digests(alg, b),
            alg,
        ),
    ensures
        collide(alg, tree_inputs(a, alg), tree_inputs(b, alg)),
{
    let (la, lb) = (merkle::leaf_digests(alg, a), merkle::leaf_digests(alg, b));
    let (pa, pb) = (merkle::padded(la, alg), merkle::padded(lb, alg));
    merkle::lemma_padded_len(la.len());
    merkle::lemma_padded_len(lb.len());
    if pa != pb {
        law_root_by_halving(la, alg);
        law_root_by_halving(lb, alg);
        lemma_padded_are_digests(a, alg);
        lemma_padded_are_digests(b, alg);
        lemma_roots_meet(
            alg,
            a,
            b,
            pa,
            pb,
            (merkle::levels(la.len()) - 1) as nat,
            (merkle::levels(lb.len()) - 1) as nat,
        );
    } else {
        let inputs_a = a.map_values(|chunk: Seq<u8>| merkle::leaf_input(chunk));
        let inputs_b = b.map_values(|chunk: Seq<u8>| merkle::leaf_input(chunk));
        if a.len() < b.len() {
            let i: int = a.len() as int;
            assert(pa[i] == merkle::null_digest(alg) && pb[i] == lb[i]);
            law_domains_are_separate(b[i], b[i], pa[i], pa[i]);
            assert(inputs_b[i] == merkle::leaf_input(b[i]));
            assert(tree_inputs(a, alg).contains(merkle::null_input()));
            assert(tree_inputs(b, alg).contains(merkle::leaf_input(b[i])));
        } else if b.len() < a.len() {
            let i: int = b.len() as int;
            assert(pa[i] == la[i] && pb[i] == merkle::null_digest(alg));
            law_domains_are_separate(a[i], a[i], pa[i], pa[i]);
            assert(inputs_a[i] == merkle::leaf_input(a[i]));
            assert(tree_inputs(a, alg).contains(merkle::leaf_input(a[i])));
            assert(tree_inputs(b, alg).contains(merkle::null_input()));
        } else {
            if forall|k: int| 0 <= k < a.len() ==> a[k] == b[k] {
                assert(a =~= b);
            }
            let i = choose|i: int| 0 <= i < a.len() && a[i] != b[i];
            assert(pa[i] == la[i] && pb[i] == lb[i]);
            law_domains_are_separate(a[i], b[i], pa[i], pa[i]);
            assert(inputs_a[i] == merkle::leaf_input(a[i]));
            assert(inputs_b[i] == merkle::leaf_input(b[i]));
            assert(tree_inputs(a, alg).contains(merkle::leaf_input(a[i])));
            assert(tree_inputs(b, alg).contains(merkle::leaf_input(b[i])));
        }
    }
}

/// The last step of a path: it starts where the steps before it end, at the index
/// that is left after them.
proof fn lemma_last_step(alg: HashAlg, hash: [u8; 32], index: nat, siblings: Seq<[u8; 32]>)
    requires
        siblings.len() > 0,
    ensures
        ({
            let below = siblings.drop_last();
            let reached = merkle::folded_root(alg, hash, index, below);
            let input = step_input(reached, index / pow2(below.len()), siblings.last());
            &&& merkle::folded_root(alg, hash, index, siblings) == merkle::digest_of(alg, input)
            &&& path_inputs(alg, hash, index, siblings) == path_inputs(
                alg,
                hash,
                index,
                below,
            ).insert(input)
        }),
    decreases siblings.len(),
{
    let below = siblings.drop_last();
    let rest = siblings.drop_first();
    let first = step_input(hash, index, siblings[0]);
    let next = merkle::digest_of(alg, first);
    lemma2_to64();
    if siblings.len() == 1 {
        assert(merkle::folded_root(alg, next, index / 2, rest) == next);
        assert(path_inputs(alg, hash, index, below) =~= Set::empty());
        assert(path_inputs(alg, next, index / 2, rest) =~= Set::empty());
        assert(index / 1 == index);
    } else {
        lemma_last_step(alg, next, index / 2, rest);
        assert(rest.drop_last() =~= below.drop_first());
        lemma_pow2_unfold(below.len());
        lemma_pow2_pos((below.len() - 1) as nat);
        lemma_div_denominator(index as int, 2, pow2((below.len() - 1) as nat) as int);
        let reached = merkle::folded_root(alg, hash, index, below);
        let input = step_input(reached, index / pow2(below.len()), siblings.last());
        assert(path_inputs(alg, hash, index, siblings) =~= path_inputs(
            alg,
            hash,
            index,
            below,
        ).insert(input));
    }
}

/// A path that leads from a chunk's hash to the root over `bottom` starts at one of
/// its leaves, unless what is hashed on it collides with what the tree hashes.
proof fn lemma_path_starts_at_leaf(
    alg: HashAlg,
    chunks: Seq<Seq<u8>>,
    bottom: Seq<[u8; 32]>,
    height: nat,
    chunk: Seq<u8>,
    index: nat,
    siblings: Seq<[u8; 32]>,
)
    requires
        bottom.len() == pow2(height),
        are_digests_of(bottom, alg, bottom_inputs(chunks)),
        merkle::folded_root(alg, merkle::leaf_digest(alg, chunk), index, siblings) == halved_root(
            bottom,
            alg,
        ),
    ensures
        siblings.len() == height && bottom[(index % pow2(height)) as int] == merkle::leaf_digest(
            alg,
            chunk,
        ) || collide(
            alg,
            check_inputs(alg, chunk, index, siblings),
            bottom_inputs(chunks).union(inner_inputs(bottom, alg)),
        ),
    decreases height,
{
    let hash = merkle::leaf_digest(alg, chunk);
    let xs = check_inputs(alg, chunk, index, siblings);
    let ys = bottom_inputs(chunks).union(inner_inputs(bottom, alg));
    let half: int = (bottom.len() / 2) as int;
    let (left, right) = (bottom.take(half), bottom.skip(half));
    let (l, r) = (halved_root(left, alg), halved_root(right, alg));
    lemma2_to64();
    if height > 0 {
        lemma_pow2_unfold(height);
        lemma_pow2_pos((height - 1) as nat);
    }
    if siblings.len() == 0 {
        if height == 0 {
            assert(index % 1 == 0);
        } else {
            law_domains_are_separate(chunk, chunk, l, r);
            assert(xs.contains(merkle::leaf_input(chunk)));
            assert(ys.contains(merkle::pair_input(l, r)));
        }
    } else {
        let below = siblings.drop_last();
        let reached = merkle::folded_root(alg, hash, index, below);
        let at: nat = index / pow2(below.len());
        let x = step_input(reached, at, siblings.last());
        lemma_last_step(alg, hash, index, siblings);
        assert(xs.contains(x));
        if height == 0 {
            assert(is_digest_of(bottom[0], alg, bottom_inputs(chunks)));
            let leaf = choose|leaf: Seq<u8>| #[trigger]
                bottom_inputs(chunks).contains(leaf) && merkle::digest_of(alg, leaf) == bottom[0];
            lemma_bottom_is_not_inner(chunks, leaf, reached, siblings.last());
            lemma_bottom_is_not_inner(chunks, leaf, siblings.last(), reached);
            assert(ys.contains(leaf));
        } else {
            assert(ys.contains(merkle::pair_input(l, r)));
            if x == merkle::pair_input(l, r) {
                let up: nat = (height - 1) as nat;
                let share = if at % 2 == 0 {
                    lemma_pair_input_injective(reached, siblings.last(), l, r);
                    left
                } else {
                    lemma_pair_input_injective(siblings.last(), reached, l, r);
                    right
                };
                assert forall|i: int| 0 <= i < left.len() implies #[trigger] left[i]
                    == bottom[i] by {}
                assert forall|i: int| 0 <= i < right.len() implies #[trigger] right[i]
                    == bottom[half + i] by {}
                lemma_path_starts_at_leaf(alg, chunks, share, up, chunk, index, below);
                let fewer_xs = check_inputs(alg, chunk, index, below);
                let fewer_ys = bottom_inputs(chunks).union(inner_inputs(share, alg));
                if collide(alg, fewer_xs, fewer_ys) {
                    lemma_collide_within(alg, fewer_xs, fewer_ys, xs, ys);
                } else {
                    lemma_mod_breakdown(index as int, pow2(up) as int, 2);
                    assert(pow2(up) * 2 == pow2(height));
                    lemma_mul_basics(pow2(up) as int);
                }
            }
        }
    }
}

/// Whoever knows a root alone accepts nothing but what the tree has: a proof that
/// leads from a chunk to the root of a tree over some chunks has one hash per level
/// below the root, and the chunk is the one that its index, counted within the padded
/// leaves, says. Otherwise the hash function has a collision, between what is hashed
/// to check the proof and what is hashed to build the tree.
pub proof fn law_standalone_proof_shows_membership(
    chunks: Seq<Seq<u8>>,
    leaf_index: usize,
    chunk: Seq<u8>,
    witness: MerkleProof,
)
    requires
        merkle::leads_to_root(
            merkle::tree_root(merkle::leaf_digests(witness.alg, chunks), witness.alg),
            leaf_index,
            chunk,
            witness,
        ),
    ensures
        ({
            let place = leaf_index as nat % merkle::padded_len(chunks.len());
            &&& witness.siblings@.len() == merkle::levels(chunks.len()) - 1
            &&& place < chunks.len()
            &&& chunks[place as int] == chunk
        }) || collide(
            witness.alg,
            check_inputs(witness.alg, chunk, leaf_index as nat, witness.siblings@),
            tree_inputs(chunks, witness.alg),
        ),
{
    let alg = witness.alg;
    let leaves = merkle::leaf_digests(alg, chunks);
    let bottom = merkle::padded(leaves, alg);
    let index: nat = leaf_index as nat;
    let xs = check_inputs(alg, chunk, index, witness.siblings@);
    let ys = tree_inputs(chunks, alg);
    let height: nat = (merkle::levels(leaves.len()) - 1) as nat;
    merkle::lemma_padded_len(leaves.len());
    law_root_by_halving(leaves, alg);
    lemma_padded_are_digests(chunks, alg);
    lemma_path_starts_at_leaf(alg, chunks, bottom, height, chunk, index, witness.siblings@);
    if !collide(alg, xs, ys) {
        let place: int = (index % pow2(height)) as int;
        let inputs = chunks.map_values(|c: Seq<u8>| merkle::leaf_input(c));
        assert(xs.contains(merkle::leaf_input(chunk)));
        if place < chunks.len() {
            law_domains_are_separate(chunk, chunks[place], bottom[place], bottom[place]);
            assert(inputs[place] == merkle::leaf_input(chunks[place]));
            assert(ys.contains(merkle::leaf_input(chunks[place])));
        } else {
            law_domains_are_separate(chunk, chunk, bottom[place], bottom[place]);
            assert(ys.contains(merkle::null_input()));
        }
    }
}

/// Trees over the same leaves with the same hash function are the same: their
/// roots, nodes and proofs agree, however they were built.
pub proof fn law_tree_is_determined(t: MerkleTree, u: MerkleTree, i: int)
    requires
        t.leaves() == u.leaves(),
        t.alg() == u.alg(),
    ensures
        merkle::tree_root(t.leaves(), t.alg()) == merkle::tree_root(u.leaves(), u.alg()),
        merkle::tree_nodes(t.leaves(), t.alg()) == merkle::tree_nodes(u.leaves(), u.alg()),
        merkle::proof_hashes(t.leaves(), t.alg(), i) == merkle::proof_hashes(
            u.leaves(),
            u.alg(),
            i,
        ),
{
}

/// Borrowed chunks, the same chunks owned, and their hashes give one and the same
/// leaves, so one and the same tree.
pub proof fn law_constructors_agree(
    borrowed: Seq<&[u8]>,
    owned: Seq<Vec<u8>>,
    hashes: Seq<[u8; 32]>,
    alg: HashAlg,
)
    requires
        borrowed.len() == owned.len() == hashes.len(),
        forall|i: int| 0 <= i < owned.len() ==> (#[trigger] borrowed[i])@ == owned[i]@,
        forall|i: int|
            0 <= i < hashes.len() ==> #[trigger] hashes[i] == merkle::leaf_digest(
                alg,
                borrowed[i]@,
            ),
    ensures
        merkle::leaf_digests(alg, merkle::slice_views(borrowed)) == hashes,
        merkle::leaf_digests(alg, merkle::vec_views(owned)) == hashes,
{
    assert(merkle::leaf_digests(alg, merkle::slice_views(borrowed)) =~= hashes);
    assert forall|i: int| 0 <= i < hashes.len() implies #[trigger] merkle::leaf_digests(
        alg,
        merkle::vec_views(owned),
    )[i] == hashes[i] by {
        assert(borrowed[i]@ == owned[i]@);
    }
    assert(merkle::leaf_digests(alg, merkle::vec_views(owned)) =~= hashes);
}

/// A tree without leaves has one level, and its root is the null digest.
pub proof fn law_tree_without_leaves(leaves: Seq<[u8; 32]>, alg: HashAlg)
    requires
        leaves.len() == 0,
    ensures
        merkle::levels(leaves.len()) == 1,
        merkle::padded_len(leaves.len()) == 1,
        merkle::tree_root(leaves, alg) == merkle::null_digest(alg),
{
    lemma2_to64();
}

/// The leaves of a tree stand behind its inner nodes, followed by null digests.
pub proof fn law_leaves_then_padding(leaves: Seq<[u8; 32]>, alg: HashAlg, i: int)
    requires
        0 <= i < merkle::padded_len(leaves.len()),
    ensures
        merkle::tree_nodes(leaves, alg)[merkle::padded_len(leaves.len()) - 1 + i] == (if i
            < leaves.len() {
            leaves[i]
        } else {
            merkle::null_digest(alg)
        }),
{
}

/// Hashing is the hash function itself, on all of the data.
pub proof fn law_hashing_is_the_hash_function(data: Seq<u8>)
    ensures
        merkle::digest_of(HashAlg::Sha256, data) == digest::sha256_digest(data),
        merkle::digest_of(HashAlg::Blake3, data) == digest::blake3_digest(data),
        merkle::digest_of(HashAlg::K12, data) == digest::k12_digest(data),
{
}

/// The hash of a leaf is the digest of a zero byte followed by all bytes of the chunk.
pub proof fn law_leaf_hash_covers_the_chunk(chunk: Seq<u8>)
    ensures
        merkle::leaf_digest(HashAlg::Sha256, chunk) == digest::sha256_digest(seq![0u8] + chunk),
        merkle::leaf_digest(HashAlg::Blake3, chunk) == digest::blake3_digest(seq![0u8] + chunk),
        merkle::leaf_digest(HashAlg::K12, chunk) == digest::k12_digest(seq![0u8] + chunk),
{
}

/// The hash of an inner node is the digest of a one byte followed by both its children,
/// the left one first.
pub proof fn law_pair_hash_covers_both(left: [u8; 32], right: [u8; 32])
    ensures
        merkle::pair_digest(HashAlg::Sha256, left, right) == digest::sha256_digest(
            seq![1u8] + left@ + right@,
        ),
        merkle::pair_digest(HashAlg::Blake3, left, right) == digest::blake3_digest(
            seq![1u8] + left@ + right@,
        ),
        merkle::pair_digest(HashAlg::K12, left, right) == digest::k12_digest(
            seq![1u8] + left@ + right@,
        ),
{
}

/// What stands for an absent chunk is the digest of a two byte followed by `null`.
pub proof fn law_null_hash()
    ensures
        merkle::null_digest(HashAlg::Sha256) == digest::sha256_digest(
            seq![2u8, 0x6e, 0x75, 0x6c, 0x6c],
        ),
        merkle::null_digest(HashAlg::Blake3) == digest::blake3_digest(
            seq![2u8, 0x6e, 0x75, 0x6c, 0x6c],
        ),
        merkle::null_digest(HashAlg::K12) == digest::k12_digest(seq![2u8, 0x6e, 0x75, 0x6c, 0x6c]),
{
}

/// Every chunk of a list is hashed as a leaf of its own, in the order of the list.
pub proof fn law_leaves_are_the_chunks(
    chunks: Seq<Seq<u8>>,
    borrowed: Seq<&[u8]>,
    owned: Seq<Vec<u8>>,
    alg: HashAlg,
    i: int,
)
    ensures
        merkle::leaf_digests(alg, chunks).len() == chunks.len(),
        0 <= i < chunks.len() ==> merkle::leaf_digests(alg, chunks)[i] == merkle::leaf_digest(
            alg,
            chunks[i],
        ),
        merkle::slice_views(borrowed).len() == borrowed.len(),
        0 <= i < borrowed.len() ==> merkle::slice_views(borrowed)[i] == borrowed[i]@,
        merkle::vec_views(owned).len() == owned.len(),
        0 <= i < owned.len() ==> merkle::vec_views(owned)[i] == owned[i]@,
{
}

/// The leaves are padded to the next power of two, and there is one level for each power
/// up to it.
pub proof fn law_padding_is_the_next_power_of_two(n: nat)
    ensures
        merkle::levels(n) >= 1,
        merkle::padded_len(n) == pow2((merkle::levels(n) - 1) as nat),
        n <= pow2((merkle::levels(n) - 1) as nat),
        n > 1 ==> merkle::levels(n) >= 2 && pow2((merkle::levels(n) - 2) as nat) < n,
        n <= 1 ==> merkle::levels(n) == 1,
{
    merkle::lemma_padded_len(n);
}

/// A tree of `n` leaves, padded, has the least depth with which `2^depth` exceeds `n`.
pub proof fn law_depth_of_leaves(n: nat)
    ensures
        merkle::depth_of(0) == 1,
        n > 0 ==> merkle::depth_of(n) >= 1 && pow2((merkle::depth_of(n) - 1) as nat) <= n < pow2(
            merkle::depth_of(n),
        ),
    decreases n,
{
    lemma2_to64();
    if n == 1 {
        lemma_log0(2, 1);
    } else if n > 1 {
        law_depth_of_leaves(n / 2);
        lemma_log_s(2, n as int);
        lemma_log_nonnegative(2, (n / 2) as int);
        if n / 2 == 1 {
            lemma_log0(2, 1);
        }
        lemma_pow2_unfold(merkle::depth_of(n));
        lemma_pow2_unfold((merkle::depth_of(n) - 1) as nat);
    }
}

/// The nodes of a tree in level order: node `i` is the hash of nodes `2i + 1` and `2i + 2`,
/// and the root is node 0.
pub proof fn law_nodes_hash_their_children(leaves: Seq<[u8; 32]>, alg: HashAlg, i: int)
    ensures
        ({
            let nodes = merkle::tree_nodes(leaves, alg);
            &&& nodes.len() == 2 * merkle::padded_len(leaves.len()) - 1
            &&& nodes[0] == merkle::tree_root(leaves, alg)
            &&& 0 <= i < merkle::padded_len(leaves.len()) - 1 ==> nodes[i] == ({
                let input = seq![1u8] + nodes[2 * i + 1]@ + nodes[2 * i + 2]@;
                match alg {
                    HashAlg::Sha256 => digest::sha256_digest(input),
                    HashAlg::Blake3 => digest::blake3_digest(input),
                    HashAlg::K12 => digest::k12_digest(input),
                }
            })
        }),
{
    merkle::lemma_padded_len(leaves.len());
    law_pair_hash_covers_both(
        merkle::tree_nodes(leaves, alg)[2 * i + 1],
        merkle::tree_nodes(leaves, alg)[2 * i + 2],
    );
}

/// The node beside step `k` of a path. Counted from 1, node `h` lies below node `h / 2`,
/// and beside the node that differs from it by the last bit.
pub proof fn law_node_beside_a_step(h: nat, k: nat)
    requires
        h / pow2(k) > 1,
    ensures
        ({
            let at = (h / pow2(k)) as int;
            &&& merkle::path_siblings(h - 1).len() > k
            &&& merkle::path_siblings(h - 1)[k as int] == (if at % 2 == 0 {
                at + 1
            } else {
                at - 1
            }) - 1
        }),
    decreases k,
{
    lemma2_to64();
    lemma_pow2_pos(k);
    if k == 0 {
        assert(h / 1 == h);
        assert(merkle::path_siblings(h - 1)[0] == merkle::sibling_of(h - 1));
    } else {
        let below: nat = (k - 1) as nat;
        lemma_pow2_unfold(k);
        lemma_pow2_pos(below);
        lemma_div_denominator(h as int, 2, pow2(below) as int);
        if h < 2 {
            assert(h / 2 == 0);
            lemma_div_of0(pow2(below) as int);
        }
        law_node_beside_a_step(h / 2, below);
        assert(merkle::parent_of(h - 1) == h / 2 - 1);
        assert(merkle::path_siblings(h - 1) == seq![merkle::sibling_of(h - 1)]
            + merkle::path_siblings(h / 2 - 1));
    }
}

/// The proof of leaf `i` is the nodes beside its path, from the leaf up: counted from 1,
/// leaf `i` of `p` is node `p + i`, step `k` of its path is that number without its last
/// `k` bits, and the node beside it differs in the last bit that is left.
pub proof fn law_proof_is_the_nodes_beside_the_path(
    leaves: Seq<[u8; 32]>,
    alg: HashAlg,
    i: nat,
    k: nat,
)
    requires
        i < leaves.len(),
        k < merkle::levels(leaves.len()) - 1,
    ensures
        ({
            let p = merkle::padded_len(leaves.len());
            let at = ((p + i) / pow2(k)) as int;
            let beside = if at % 2 == 0 {
                at + 1
            } else {
                at - 1
            };
            &&& merkle::proof_hashes(leaves, alg, i as int).len() == merkle::levels(leaves.len()) - 1
            &&& 2 <= at
            &&& 0 <= beside - 1 < merkle::tree_nodes(leaves, alg).len()
            &&& merkle::proof_hashes(leaves, alg, i as int)[k as int] == merkle::tree_nodes(
                leaves,
                alg,
            )[beside - 1]
        }),
{
    let p: nat = merkle::padded_len(leaves.len());
    let height: nat = (merkle::levels(leaves.len()) - 1) as nat;
    merkle::lemma_padded_len(leaves.len());
    law_path_leads_to_root(leaves, alg, i);
    lemma_pow2_pos(k);
    lemma_pow2_adds(k, (height - k) as nat);
    lemma_pow2_unfold((height - k) as nat);
    lemma_pow2_pos((height - k - 1) as nat);
    let at: int = ((p + i) / pow2(k)) as int;
    lemma_div_is_ordered(p as int, (p + i) as int, pow2(k) as int);
    assert(p == pow2((height - k) as nat) * pow2(k)) by (nonlinear_arith)
        requires
            p == pow2(k) * pow2((height - k) as nat),
    ;
    lemma_div_by_multiple(pow2((height - k) as nat) as int, pow2(k) as int);
    law_node_beside_a_step(p + i, k);
    // Nothing beside the path lies behind the last leaf.
    lemma_div_is_ordered((p + i) as int, (2 * p - 1) as int, pow2(k) as int);
    let wide: int = 2 * pow2((height - k) as nat) as int;
    assert(2 * p - 1 < wide * pow2(k)) by (nonlinear_arith)
        requires
            p == pow2((height - k) as nat) * pow2(k),
            wide == 2 * pow2((height - k) as nat),
    ;
    lemma_multiply_divide_lt(2 * p - 1, pow2(k) as int, wide);
    assert(pow2((height - k) as nat) <= p) by (nonlinear_arith)
        requires
            p == pow2((height - k) as nat) * pow2(k),
            pow2(k) >= 1,
    ;
}

/// Following a path: a leaf hash alone is the root, and one more hash beside it is hashed
/// with it, to its right where the index is even and to its left where it is odd; the path
/// goes on at half the index.
pub proof fn law_one_more_step_of_a_path(
    alg: HashAlg,
    hash: [u8; 32],
    index: nat,
    beside: [u8; 32],
    rest: Seq<[u8; 32]>,
)
    ensures
        merkle::folded_root(alg, hash, index, Seq::empty()) == hash,
        ({
            let input = if index % 2 == 0 {
                seq![1u8] + hash@ + beside@
            } else {
                seq![1u8] + beside@ + hash@
            };
            let above = match alg {
                HashAlg::Sha256 => digest::sha256_digest(input),
                HashAlg::Blake3 => digest::blake3_digest(input),
                HashAlg::K12 => digest::k12_digest(input),
            };
            merkle::folded_root(alg, hash, index, seq![beside] + rest) == merkle::folded_root(
                alg,
                above,
                index / 2,
                rest,
            )
        }),
{
    let siblings = seq![beside] + rest;
    assert(siblings[0] == beside);
    assert(siblings.drop_first() =~= rest);
    law_pair_hash_covers_both(hash, beside);
    law_pair_hash_covers_both(beside, hash);
}

/// What a check of a proof asks: that it is for the index, and that the path from the
/// chunk leads to the root; the tree also asks that the proof is of its hash function and
/// has one hash per level below the root.
pub proof fn law_what_a_check_asks(
    leaves: Seq<[u8; 32]>,
    root: [u8; 32],
    alg: HashAlg,
    leaf_index: usize,
    chunk: Seq<u8>,
    witness: MerkleProof,
)
    ensures
        merkle::leads_to_root(root, leaf_index, chunk, witness) <==> {
            &&& witness.leaf_index == leaf_index
            &&& merkle::folded_root(
                witness.alg,
                merkle::leaf_digest(witness.alg, chunk),
                witness.leaf_index as nat,
                witness.siblings@,
            ) == root
        },
        merkle::proof_accepted(leaves, alg, leaf_index, chunk, witness) <==> {
            &&& witness.alg == alg
            &&& pow2(witness.siblings@.len()) == merkle::padded_len(leaves.len())
            &&& merkle::leads_to_root(
                merkle::tree_nodes(leaves, alg)[0],
                leaf_index,
                chunk,
                witness,
            )
        },
{
    let height: nat = (merkle::levels(leaves.len()) - 1) as nat;
    let n: nat = witness.siblings@.len();
    merkle::lemma_padded_len(leaves.len());
    if n < height {
        lemma_pow2_strictly_increases(n, height);
    } else if height < n {
        lemma_pow2_strictly_increases(height, n);
    }
}

} // verus!
