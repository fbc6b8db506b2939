//! The wire form of a proof is the only one it has, and its blocks are in the only order.

use crate::node;
use crate::order;
use crate::proofs;
use crate::proofs::{ProofView, Refused};
use crate::range::RangeView;
use crate::seqs;
use vstd::prelude::*;

verus! {

/// The bodies that were read are framed by the bytes they were read from.
proof fn lemma_framed_back(b: Seq<u8>, n: nat)
    requires
        proofs::take_nodes(b, n) is Ok,
        b.len() >= 6,
    ensures
        ({
            let t = proofs::take_nodes(b, n)->Ok_0;
            &&& t.nodes.len() == n
            &&& 6 <= t.at <= b.len()
            &&& b.subrange(6, t.at) == proofs::framed_all(t.nodes, n)
            &&& forall|i: int| 0 <= i < n ==> (#[trigger] t.nodes[i]).len() <= 16384
        }),
    decreases n,
{
    let t = proofs::take_nodes(b, n)->Ok_0;
    if n == 0 {
        assert(b.subrange(6, 6) =~= Seq::<u8>::empty());
    } else {
        let k = (n - 1) as nat;
        lemma_framed_back(b, k);
        let u = proofs::take_nodes(b, k)->Ok_0;
        let len = proofs::node_len(b, u.at)->Ok_0;
        let body = b.subrange(u.at + 4, u.at + 4 + len);
        assert(t.nodes == u.nodes.push(body));
        seqs::lemma_bytes32(b, u.at);
        lemma_same_frames(u.nodes, t.nodes, k);
        assert(body.len() == len);
        assert(proofs::framed(body) =~= b.subrange(u.at, u.at + 4) + body);
        assert(b.subrange(6, t.at) =~= b.subrange(6, u.at) + (b.subrange(u.at, u.at + 4) + body));
        assert forall|i: int| 0 <= i < n implies (#[trigger] t.nodes[i]).len() <= 16384 by {
            if i < k {
                assert(t.nodes[i] == u.nodes[i]);
            }
        }
    }
}

/// The frames of the first bodies depend on them alone.
proof fn lemma_same_frames(a: Seq<Seq<u8>>, b: Seq<Seq<u8>>, n: nat)
    requires
        n <= a.len(),
        n <= b.len(),
        forall|i: int| 0 <= i < n ==> a[i] == b[i],
    ensures
        proofs::framed_all(a, n) == proofs::framed_all(b, n),
    decreases n,
{
    if n > 0 {
        lemma_same_frames(a, b, (n - 1) as nat);
    }
}

/// What decodes is the encoding of what it decodes to: no other bytes are taken for a
/// proof, none are left over, and every body and value is within the format's limits.
pub proof fn law_what_decodes_is_the_encoding(b: Seq<u8>, p: ProofView)
    requires
        proofs::spec_decode(b) == Ok::<ProofView, Refused>(p),
    ensures
        proofs::spec_encode(p) == b,
        p.nodes.len() < 65536,
        forall|i: int| 0 <= i < p.nodes.len() ==> (#[trigger] p.nodes[i]).len() <= 16384,
        p.value matches Some(v) ==> v.len() <= 262144,
{
    let count = proofs::head(b)->Ok_0;
    seqs::lemma_bytes16(b, 4);
    lemma_framed_back(b, count as nat);
    let t = proofs::take_nodes(b, count as nat)->Ok_0;
    seqs::lemma_bytes32(b, t.at);
    let front = b.subrange(0, 4) + b.subrange(4, 6) + b.subrange(6, t.at);
    match p.value {
        None => {
            assert(proofs::trailer(None) == b.subrange(t.at, t.at + 4));
            assert(b =~= front + b.subrange(t.at, t.at + 4));
        },
        Some(v) => {
            assert(proofs::framed(v) =~= b.subrange(t.at, t.at + 4) + v);
            assert(b =~= front + (b.subrange(t.at, t.at + 4) + v));
        },
    }
}

/// Two proofs with one wire form are one proof.
pub proof fn law_a_wire_form_is_of_one_proof(p: ProofView, q: ProofView)
    requires
        proofs::sendable(p),
        proofs::sendable(q),
        proofs::spec_encode(p) == proofs::spec_encode(q),
    ensures
        p == q,
{
    proofs::law_decoding_undoes_encoding(p);
    proofs::law_decoding_undoes_encoding(q);
}

/// Does one block come before another in a proof: a higher node first, and of two nodes of
/// one level the one with the lesser first key?
pub open spec fn listed_before(a: Seq<u8>, b: Seq<u8>) -> bool {
    match (node::parse_spec(a), node::parse_spec(b)) {
        (Ok(x), Ok(y)) => x.level > y.level || (x.level == y.level && y.rows.len() > 0 && (
        x.rows.len() == 0 || order::lt(x.rows[0].key, y.rows[0].key))),
        _ => false,
    }
}

/// What comes after one block comes after those before it.
proof fn lemma_listed(nodes: Seq<Seq<u8>>, i: int, j: int)
    requires
        proofs::in_order(nodes),
        0 <= i < j < nodes.len(),
    ensures
        listed_before(nodes[i], nodes[j]),
    decreases j - i,
{
    assert(proofs::ordered_at(nodes, j - 1));
    let x = node::parse_spec(nodes[j - 1])->Ok_0;
    let y = node::parse_spec(nodes[j])->Ok_0;
    if x.level == y.level && y.rows.len() == 0 {
        lemma_not_before_nothing(proofs::opening(x));
    }
    if i + 1 < j {
        lemma_listed(nodes, i, j - 1);
        let w = node::parse_spec(nodes[i])->Ok_0;
        if w.level == x.level && x.level == y.level && w.rows.len() > 0 {
            order::lemma_lt_trans(w.rows[0].key, x.rows[0].key, y.rows[0].key);
        }
    }
}

/// No key comes before the empty one.
proof fn lemma_not_before_nothing(k: Seq<u8>)
    ensures
        !order::lt(k, Seq::empty()),
{
    let none = Seq::<u8>::empty();
    order::lemma_empty_first(k);
    order::lemma_lt_irreflexive(none);
    if order::lt(k, none) && order::lt(none, k) {
        order::lemma_lt_trans(none, k, none);
    }
}

/// An accepted proof lists its blocks in one order: from the top of the tree down, and
/// within a level by first key. No block is listed twice.
pub proof fn law_an_accepted_proof_lists_its_blocks_in_order(
    root: Seq<u8>,
    key: Seq<u8>,
    r: RangeView,
    p: ProofView,
    i: int,
    j: int,
)
    requires
        proofs::spec_verify(root, key, p) is Ok || proofs::spec_verify_aggregate(root, r, p) is Ok
            || proofs::spec_verify_range(root, r, p) is Ok,
        0 <= i < j < p.nodes.len(),
    ensures
        listed_before(p.nodes[i], p.nodes[j]),
        p.nodes[i] != p.nodes[j],
{
    assert(proofs::in_order(p.nodes));
    lemma_listed(p.nodes, i, j);
    if p.nodes[i] == p.nodes[j] {
        let x = node::parse_spec(p.nodes[i])->Ok_0;
        order::lemma_lt_irreflexive(x.rows[0].key);
    }
}

} // verus!
