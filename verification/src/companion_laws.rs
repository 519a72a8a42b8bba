//! What is read from a companion dataset for a proof.

use crate::companion;
use crate::companion::{
    CompanionError, ContiguousLayout, DataLayout, HeaderMessage, ProofSpan,
};
use crate::merkle;
use crate::merkle_laws;
use vstd::arithmetic::div_mod::*;
use vstd::arithmetic::power2::*;
use vstd::prelude::*;

verus! {

/// The first layout message decides: message `k`, where all before it are others.
proof fn lemma_first_layout(messages: Seq<HeaderMessage>, k: int)
    requires
        0 <= k <= messages.len(),
        forall|j: int| 0 <= j < k ==> #[trigger] messages[j] is Other,
    ensures
        k == messages.len() ==> companion::first_layout(messages) is None,
        k < messages.len() && messages[k] is Layout ==> companion::first_layout(messages) == Some(
            messages[k]->Layout_0,
        ),
    decreases k,
{
    if k > 0 {
        let rest = messages.drop_first();
        assert(messages[0] is Other);
        assert forall|j: int| 0 <= j < k - 1 implies #[trigger] rest[j] is Other by {
            assert(rest[j] == messages[j + 1]);
        }
        lemma_first_layout(rest, k - 1);
    }
}

/// Where a dataset is, by the first layout message of its header, message `k`: in one piece
/// at an address, or nowhere yet, or not in one piece, or as the message says why not.
/// Without a layout message it is not known, and metadata that cannot be parsed says why.
pub proof fn law_layout_by_the_first_message(
    messages: Vec<HeaderMessage>,
    k: int,
    text: String,
    path: Seq<char>,
    r: Result<ContiguousLayout, CompanionError>,
)
    requires
        0 <= k <= messages@.len(),
        forall|j: int| 0 <= j < k ==> #[trigger] messages@[j] is Other,
    ensures
        companion::is_layout_of(Err(text), path, r) ==> (r matches Err(CompanionError::Metadata(t))
            && t@ == text@),
        companion::is_layout_of(Ok(messages), path, r) && k == messages@.len() ==> (r matches Err(
            CompanionError::NoLayoutMessage(p),
        ) && p@ == path),
        companion::is_layout_of(Ok(messages), path, r) && k < messages@.len() ==> match messages@[k] {
            HeaderMessage::Layout(Ok(DataLayout::Contiguous { address: Some(address), size })) => {
                r matches Ok(layout) && layout.address == address && layout.size == size
            },
            HeaderMessage::Layout(Ok(DataLayout::Contiguous { address: None, .. })) => {
                r matches Err(CompanionError::UndefinedAddress(p)) && p@ == path
            },
            HeaderMessage::Layout(Ok(DataLayout::Other)) => {
                r matches Err(CompanionError::NotContiguous(p)) && p@ == path
            },
            HeaderMessage::Layout(Err(why)) => {
                r matches Err(CompanionError::Metadata(t)) && t@ == why@
            },
            HeaderMessage::Other => true,
        },
{
    lemma_first_layout(messages@, k);
}

/// The nodes that prove leaf `i` of `2^levels`: the nodes beside its path, from the leaf
/// up, and the leaf itself at the end. Counted from 1, leaf `i` is node `2^levels + i`, and
/// the node beside step `j` of its path differs from it in the last bit.
pub proof fn law_wanted_nodes(levels: nat, i: u64, j: nat)
    requires
        i < pow2(levels),
        j < levels,
        pow2(levels) <= u64::MAX,
    ensures
        ({
            let wanted = companion::wanted_nodes(companion::leaf_node(i, pow2(levels) as u64));
            let at = ((pow2(levels) + i) as nat / pow2(j)) as int;
            &&& wanted.len() == levels + 1
            &&& wanted[levels as int] == pow2(levels) - 1 + i
            &&& wanted[j as int] == (if at % 2 == 0 {
                at + 1
            } else {
                at - 1
            }) - 1
        }),
{
    let h: nat = (pow2(levels) + i) as nat;
    companion::law_path_length(levels, i as nat);
    lemma_pow2_pos(j);
    lemma_pow2_adds(j, (levels - j) as nat);
    lemma_pow2_unfold((levels - j) as nat);
    lemma_pow2_pos((levels - j - 1) as nat);
    assert(pow2(levels) == pow2((levels - j) as nat) * pow2(j)) by (nonlinear_arith)
        requires
            pow2(levels) == pow2(j) * pow2((levels - j) as nat),
    ;
    lemma_div_by_multiple(pow2((levels - j) as nat) as int, pow2(j) as int);
    lemma_div_is_ordered(pow2(levels) as int, h as int, pow2(j) as int);
    merkle_laws::law_node_beside_a_step(h, j);
    let v: int = companion::leaf_node(i, pow2(levels) as u64);
    assert(companion::wanted_nodes(v)[j as int] == merkle::path_siblings(v)[j as int]);
}

/// A span covers every node of its proof, at 32 bytes each, and no more than from the
/// first of them to the last.
pub proof fn law_span_covers_its_nodes(
    span: ProofSpan,
    layout: ContiguousLayout,
    v: int,
    k: int,
) -> (ends: (int, int))
    requires
        companion::is_proof_span(span, layout, v),
        0 <= k < companion::wanted_nodes(v).len(),
    ensures
        ({
            let wanted = companion::wanted_nodes(v);
            &&& span.leaf() == v
            &&& span.wanted() == wanted
            &&& span.offset() <= layout.address + 32 * wanted[k]
            &&& layout.address + 32 * wanted[k] + 32 <= span.offset() + span.size()
            &&& 0 <= ends.0 < wanted.len() && 0 <= ends.1 < wanted.len()
            &&& span.offset() == layout.address + 32 * wanted[ends.0]
            &&& span.offset() == layout.address + 32 * span.first()
            &&& span.offset() + span.size() == layout.address + 32 * wanted[ends.1] + 32
        }),
{
    let wanted = companion::wanted_nodes(v);
    let last = choose|last: int| #[trigger]
        companion::is_greatest(wanted, last) && span.size() == 32 * (last - span.first() + 1);
    assert(wanted.contains(span.first()) && wanted.contains(last));
    let a = choose|a: int| 0 <= a < wanted.len() && wanted[a] == span.first();
    let b = choose|b: int| 0 <= b < wanted.len() && wanted[b] == last;
    (a, b)
}

/// A proof can be fetched that is stored in the dataset: every node of it ends within the
/// size, and where 64 bits reach. Otherwise one of them does not, which comes back.
pub proof fn law_span_fits_if_all_nodes_do(layout: ContiguousLayout, v: int, k: int) -> (miss: int)
    requires
        0 <= k < companion::wanted_nodes(v).len(),
    ensures
        companion::span_fits(layout, v) ==> {
            let end = 32 * companion::wanted_nodes(v)[k] + 32;
            end <= layout.size && layout.address + end <= u64::MAX
        },
        !companion::span_fits(layout, v) ==> 0 <= miss < companion::wanted_nodes(v).len() && {
            let end = 32 * companion::wanted_nodes(v)[miss] + 32;
            end > layout.size || layout.address + end > u64::MAX
        },
{
    let wanted = companion::wanted_nodes(v);
    if companion::span_fits(layout, v) {
        assert(32 * (wanted[k] + 1) <= layout.size);
        0
    } else {
        choose|m: int|
            0 <= m < wanted.len() && !(32 * ((#[trigger] wanted[m]) + 1) <= layout.size
                && layout.address + 32 * (wanted[m] + 1) <= u64::MAX)
    }
}

/// The fetched map has the nodes of the proof and no others, and each has the 32 bytes that
/// the span holds for it.
pub proof fn law_fetched_nodes_have_their_bytes(
    nodes: Map<u64, [u8; 32]>,
    wanted: Seq<int>,
    data: Seq<u8>,
    first: int,
    index: u64,
    b: int,
)
    requires
        companion::holds_nodes(nodes, wanted, wanted.len() as int, data, first),
        0 <= b < 32,
    ensures
        nodes.contains_key(index) <==> exists|j: int|
            0 <= j < wanted.len() && #[trigger] wanted[j] == index,
        nodes.contains_key(index) && 0 <= index - first && 32 * (index - first) + 32 <= data.len()
            ==> nodes[index]@[b] == data[32 * (index - first) + b],
{
    assert(wanted.take(wanted.len() as int) =~= wanted);
    if exists|j: int| 0 <= j < wanted.len() && #[trigger] wanted[j] == index {
        assert(wanted.contains(index as int));
    }
}

/// Where a leaf is among the nodes, and how a dataset error reads.
pub proof fn law_leaf_nodes_and_sentences(i: u64, padded: u64, path: String, why: String)
    ensures
        companion::leaf_node(i, padded) == padded - 1 + i,
        companion::error_text(CompanionError::Metadata(why)) == why@,
        companion::error_text(CompanionError::NoLayoutMessage(path)) == "dataset "@
            + companion::quoted(path@) + " object header has no data layout message"@,
        companion::error_text(CompanionError::UndefinedAddress(path)) == "dataset "@
            + companion::quoted(path@) + " has an undefined address (never written)"@,
{
}

} // verus!
