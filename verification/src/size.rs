//! How large a proof may be: what is refused for its size alone, and what is not.

use crate::honest;
use crate::node;
use crate::node::NodeView;
use crate::proofs;
use crate::proofs::{Asked, PageClaim, ProofView, Refused};
use crate::range;
use crate::range::{PageEnd, RangeView};
use crate::store;
use crate::store::BlockMap;
use crate::tree;
use vstd::prelude::*;

verus! {

/// Does a list of blocks begin with the root of a tree, and is that the node `n`?
pub open spec fn begins_with(nodes: Seq<Seq<u8>>, root: Seq<u8>, n: NodeView) -> bool {
    &&& nodes.len() > 0
    &&& crate::spec_block_id(crate::kind::TREE_NODE, nodes[0]) == root
    &&& node::parse_spec(nodes[0]) == Ok::<NodeView, node::NodeError>(n)
}

/// Gathering the blocks of a proof says nothing of their number.
proof fn lemma_gathering(nodes: Seq<Seq<u8>>, n: nat)
    ensures
        proofs::gathered(nodes, n) matches Err(e) ==> e == Refused::NotANode || e
            == Refused::OutOfOrder,
    decreases n,
{
    if n > 0 {
        lemma_gathering(nodes, (n - 1) as nat);
    }
}

/// A page proof is refused as too large where it holds more blocks than two for each level
/// of the tree and one for each entry that the page may have, and nowhere else.
pub proof fn law_a_page_proof_is_too_large_past_its_blocks(
    root: Seq<u8>,
    r: RangeView,
    p: ProofView,
    n: NodeView,
)
    requires
        p.value is None,
        r.max_entries > 0,
        !range::hopeless(r),
        begins_with(p.nodes, root, n),
    ensures
        (proofs::spec_verify_range(root, r, p) matches Err(Refused::TooLarge(_)))
            <==> p.nodes.len() > 2 * (n.level + 1) + r.max_entries,
{
    lemma_gathering(p.nodes, p.nodes.len());
}

/// A key proof is refused as too large where it holds more blocks than the tree has levels
/// and one, and nowhere else.
pub proof fn law_a_key_proof_is_too_large_past_its_blocks(
    root: Seq<u8>,
    key: Seq<u8>,
    p: ProofView,
    n: NodeView,
)
    requires
        begins_with(p.nodes, root, n),
    ensures
        (proofs::spec_verify(root, key, p) matches Err(Refused::TooLarge(_))) <==> p.nodes.len()
            > n.level + 2,
{
    lemma_gathering(p.nodes, p.nodes.len());
    if let Ok(m) = proofs::gathered(p.nodes, p.nodes.len()) {
        let found = tree::lookup(tree::items(m, root), key);
        let wrong = proofs::uncanonical(p.nodes, m, Asked::Key { root, key });
        assert(wrong matches Some(e) ==> e !is TooLarge);
        if let Ok(v) = found {
            assert(proofs::with_trailer(v, p.value) matches Err(e) ==> e !is TooLarge);
        }
    }
}

/// An aggregate proof is refused as too large where it holds more blocks than two for each
/// level of the tree and one, and nowhere else.
pub proof fn law_a_count_proof_is_too_large_past_its_blocks(
    root: Seq<u8>,
    r: RangeView,
    p: ProofView,
    n: NodeView,
)
    requires
        p.value is None,
        begins_with(p.nodes, root, n),
    ensures
        (proofs::spec_verify_aggregate(root, r, p) matches Err(Refused::TooLarge(_)))
            <==> p.nodes.len() > 2 * (n.level + 1) + 1,
{
    lemma_gathering(p.nodes, p.nodes.len());
}

/// Reading more bodies does not change the ones that were read.
proof fn lemma_taken(b: Seq<u8>, k: nat, n: nat)
    requires
        k <= n,
        proofs::take_nodes(b, n) is Ok,
    ensures
        proofs::take_nodes(b, k) is Ok,
        proofs::take_nodes(b, n)->Ok_0.nodes.len() == n,
        proofs::take_nodes(b, k)->Ok_0.nodes == proofs::take_nodes(b, n)->Ok_0.nodes.take(k as int),
    decreases n,
{
    if n > 0 {
        lemma_taken(b, if k < n { k } else { (n - 1) as nat }, (n - 1) as nat);
    }
    assert(k == n ==> proofs::take_nodes(b, k)->Ok_0.nodes =~= proofs::take_nodes(
        b,
        n,
    )->Ok_0.nodes.take(k as int));
    if k < n {
        assert(proofs::take_nodes(b, k)->Ok_0.nodes =~= proofs::take_nodes(b, n)->Ok_0.nodes.take(
            k as int,
        ));
    }
}

/// What the first bytes of a proof say of it.
proof fn lemma_peeked(b: Seq<u8>, p: ProofView)
    requires
        proofs::spec_decode(b) == Ok::<ProofView, Refused>(p),
        p.nodes.len() > 0,
    ensures
        proofs::head(b) == Ok::<int, Refused>(p.nodes.len() as int),
        proofs::node_len(b, 6) == Ok::<int, Refused>(p.nodes[0].len() as int),
        proofs::short(b, 10, p.nodes[0].len() as int) is None,
        b.subrange(10, 10 + p.nodes[0].len() as int) == p.nodes[0],
{
    let count = proofs::head(b)->Ok_0;
    lemma_taken(b, 1, count as nat);
    reveal_with_fuel(proofs::take_nodes, 2);
    let t = proofs::take_nodes(b, 1)->Ok_0;
    assert(t.nodes[0] == p.nodes[0]);
}

/// A page proof on the wire is refused as too large where the proof it holds would be, and
/// nowhere else.
pub proof fn law_a_sent_page_proof_is_too_large_past_its_blocks(
    root: Seq<u8>,
    r: RangeView,
    p: ProofView,
    n: NodeView,
)
    requires
        proofs::sendable(p),
        p.value is None,
        r.max_entries > 0,
        !range::hopeless(r),
        begins_with(p.nodes, root, n),
    ensures
        (proofs::spec_verify_range_bytes(root, r, proofs::spec_encode(p)) matches Err(
            Refused::TooLarge(_),
        )) <==> p.nodes.len() > 2 * (n.level + 1) + r.max_entries,
{
    proofs::law_decoding_undoes_encoding(p);
    lemma_peeked(proofs::spec_encode(p), p);
    law_a_page_proof_is_too_large_past_its_blocks(root, r, p, n);
}

/// What is sent is checked as what was sent: a page proof is accepted from its wire form
/// where it is accepted as a value, and it claims the same.
pub proof fn law_a_sent_page_proof_says_the_same(root: Seq<u8>, r: RangeView, p: ProofView)
    requires
        proofs::sendable(p),
    ensures
        ({
            let sent = proofs::spec_verify_range_bytes(root, r, proofs::spec_encode(p));
            let said = proofs::spec_verify_range(root, r, p);
            &&& sent is Ok <==> said is Ok
            &&& sent is Ok ==> sent == said
        }),
{
    let b = proofs::spec_encode(p);
    proofs::law_decoding_undoes_encoding(p);
    if range::hopeless(r) {
        let none = ProofView { nodes: Seq::empty(), value: None };
        if b == proofs::spec_encode(none) {
            assert(proofs::spec_encode(none).len() <= usize::MAX);
            proofs::law_decoding_undoes_encoding(none);
        }
        assert(p.nodes.len() == 0 ==> p.nodes =~= Seq::<Seq<u8>>::empty());
    } else if p.nodes.len() > 0 {
        lemma_peeked(b, p);
    }
}

/// A key proof is accepted from its wire form where it is accepted as a value, and it says
/// the same.
pub proof fn law_a_sent_key_proof_says_the_same(root: Seq<u8>, key: Seq<u8>, p: ProofView)
    requires
        proofs::sendable(p),
    ensures
        ({
            let sent = proofs::spec_verify_bytes(root, key, proofs::spec_encode(p));
            let said = proofs::spec_verify(root, key, p);
            &&& sent is Ok <==> said is Ok
            &&& sent is Ok ==> sent == said
        }),
{
    let b = proofs::spec_encode(p);
    proofs::law_decoding_undoes_encoding(p);
    if p.nodes.len() > 0 {
        lemma_peeked(b, p);
    }
}

/// An honest page proof is accepted from its wire form where it holds no more blocks than
/// two for each level of the tree and one for each entry that the page may have.
pub proof fn law_an_honest_page_proof_is_accepted_as_sent(
    m: BlockMap,
    root: Seq<u8>,
    r: RangeView,
    nodes: Seq<Seq<u8>>,
)
    requires
        honest::addressed(m, root),
        r.max_entries > 0,
        proofs::proves(m, Asked::Page { root, range: r }, nodes),
        proofs::sendable(ProofView { nodes, value: None }),
        nodes.len() <= 2 * (store::loaded(m, root)->Ok_0.level + 1) + r.max_entries,
    ensures
        ({
            let page = proofs::page_in(m, root, r);
            let sent = proofs::spec_encode(ProofView { nodes, value: None });
            &&& page is Ok
            &&& page->Ok_0.end != PageEnd::Blocked
            &&& proofs::spec_verify_range_bytes(root, r, sent) == Ok::<PageClaim, Refused>(
                PageClaim { entries: page->Ok_0.entries, next: page->Ok_0.next },
            )
        }),
{
    honest::law_an_honest_page_proof_is_accepted(m, root, r, nodes);
    law_a_sent_page_proof_says_the_same(root, r, ProofView { nodes, value: None });
}

} // verus!
