//! Nothing can be taken out of a proof, and nothing put in.
//!
//! A proof that is accepted holds the blocks its answer needs. Without one of them it
//! is refused, and so it is with one more.

use crate::honest;
use crate::node::Payload;
use crate::proofs;
use crate::proofs::{Asked, ProofView, Refused};
use crate::range;
use crate::range::RangeView;
use crate::store;
use crate::store::{BlockMap, HeldView};
use vstd::prelude::*;

verus! {

// ---------------------------------------------------------------------------
// a list of blocks with one taken out, or one put in
// ---------------------------------------------------------------------------

/// What two lists that begin alike gather.
proof fn lemma_same_start(a: Seq<Seq<u8>>, b: Seq<Seq<u8>>, n: nat)
    requires
        n <= a.len(),
        n <= b.len(),
        forall|i: int| 0 <= i < n ==> a[i] == b[i],
    ensures
        proofs::gathered(a, n) == proofs::gathered(b, n),
    decreases n,
{
    if n > 0 {
        lemma_same_start(a, b, (n - 1) as nat);
    }
}

/// What is gathered is held under its own id, each block once.
proof fn lemma_gathered_holds(nodes: Seq<Seq<u8>>, n: nat, i: int)
    requires
        n <= nodes.len(),
        0 <= i < n,
        proofs::gathered(nodes, n) is Ok,
    ensures
        proofs::gathered(nodes, n)->Ok_0.contains_key(proofs::node_id(nodes[i])),
        i < n - 1 ==> proofs::node_id(nodes[i]) != proofs::node_id(nodes[n - 1]),
    decreases n,
{
    if i < n - 1 {
        lemma_gathered_holds(nodes, (n - 1) as nat, i);
    }
}

/// What a list gathers with one block taken out.
proof fn lemma_gathered_without(nodes: Seq<Seq<u8>>, i: int, n: nat)
    requires
        0 <= i < n <= nodes.len(),
        proofs::gathered(nodes, n) is Ok,
    ensures
        proofs::gathered(nodes.remove(i), (n - 1) as nat) == Ok::<BlockMap, Refused>(
            proofs::gathered(nodes, n)->Ok_0.remove(proofs::node_id(nodes[i])),
        ),
    decreases n,
{
    let rest = nodes.remove(i);
    let id = proofs::node_id(nodes[i]);
    let m = proofs::gathered(nodes, n)->Ok_0;
    let before = proofs::gathered(nodes, (n - 1) as nat)->Ok_0;
    if i == n - 1 {
        lemma_same_start(rest, nodes, i as nat);
        assert(m.remove(id) =~= before);
    } else {
        lemma_gathered_without(nodes, i, (n - 1) as nat);
        lemma_gathered_holds(nodes, n, i);
        let last = proofs::node_id(nodes[n - 1]);
        assert(rest[n - 2] == nodes[n - 1]);
        assert(m.remove(id) =~= before.remove(id).insert(last, nodes[n - 1]));
    }
}

/// What a list gathers with one block put in.
proof fn lemma_gathered_with(nodes: Seq<Seq<u8>>, i: int, b: Seq<u8>, n: nat)
    requires
        0 <= i <= n <= nodes.len(),
        proofs::gathered(nodes.insert(i, b), n + 1) is Ok,
    ensures
        proofs::gathered(nodes, n) is Ok,
        !proofs::gathered(nodes, n)->Ok_0.contains_key(proofs::node_id(b)),
        proofs::gathered(nodes.insert(i, b), n + 1) == Ok::<BlockMap, Refused>(
            proofs::gathered(nodes, n)->Ok_0.insert(proofs::node_id(b), b),
        ),
    decreases n,
{
    let more = nodes.insert(i, b);
    let id = proofs::node_id(b);
    if i == n {
        lemma_same_start(more, nodes, n);
        assert(more[n as int] == b);
    } else {
        assert(proofs::gathered(more, n) is Ok);
        lemma_gathered_with(nodes, i, b, (n - 1) as nat);
        let before = proofs::gathered(nodes, (n - 1) as nat)->Ok_0;
        let last = proofs::node_id(nodes[n - 1]);
        assert(more[n as int] == nodes[n - 1]);
        assert(before.insert(id, b).insert(last, nodes[n - 1]) =~= before.insert(
            last,
            nodes[n - 1],
        ).insert(id, b));
    }
}

/// The first of two blocks of a list is not the other.
proof fn lemma_apart(nodes: Seq<Seq<u8>>, n: nat)
    requires
        1 < n <= nodes.len(),
        proofs::gathered(nodes, n) is Ok,
    ensures
        proofs::node_id(nodes[0]) != proofs::node_id(nodes[1]),
    decreases n,
{
    if n == 2 {
        lemma_gathered_holds(nodes, 2, 0);
    } else {
        lemma_apart(nodes, (n - 1) as nat);
    }
}

// ---------------------------------------------------------------------------
// one block less
// ---------------------------------------------------------------------------

/// A read that fewer blocks do not answer stops at a block that is missing.
proof fn lemma_finds_less(m: BlockMap, w: BlockMap, h: HeldView, key: Seq<u8>)
    requires
        m.submap_of(w),
        honest::finds(w, h, key) is Ok,
    ensures
        honest::finds(m, h, key) matches Err(f) ==> f is Need,
    decreases h.node.level,
{
    let i = honest::way(h.node.rows, key, h.node.rows.len());
    if h.node.level > 0 && i >= 0 {
        let cid = store::child_cid(h.node.rows[i]);
        reveal(store::loaded);
        if m.contains_key(cid) {
            assert(m.dom().contains(cid) && w.dom().contains(cid));
            assert(store::opened(m, h, i) == store::opened(w, h, i));
            if let Ok(c) = store::opened(w, h, i) {
                if c.node.level < h.node.level {
                    lemma_finds_less(m, w, c, key);
                }
            }
        }
    }
}

/// A key proof that is accepted says nothing once a block is taken out of it: it is
/// incomplete, or without its first block, one against another root.
pub proof fn law_a_key_proof_without_a_block_is_refused(
    root: Seq<u8>,
    key: Seq<u8>,
    p: ProofView,
    i: int,
)
    requires
        proofs::spec_verify(root, key, p) is Ok,
        0 <= i < p.nodes.len(),
    ensures
        proofs::spec_verify(root, key, ProofView { nodes: p.nodes.remove(i), value: p.value })
            == Err::<Option<Payload>, Refused>(
            if i == 0 && p.nodes.len() > 1 {
                Refused::WrongRoot
            } else {
                Refused::Incomplete
            },
        ),
{
    let nodes = p.nodes;
    let rest = nodes.remove(i);
    let m = proofs::gathered(nodes, nodes.len())->Ok_0;
    if i == 0 {
        if nodes.len() > 1 {
            lemma_apart(nodes, nodes.len());
            assert(rest[0] == nodes[1]);
        }
    } else {
        let id = proofs::node_id(nodes[i]);
        let s = m.remove(id);
        lemma_gathered_without(nodes, i, nodes.len());
        assert(rest[0] == nodes[0]);
        assert(!proofs::settled(s, Asked::Key { root, key }));
        lemma_gathered_holds(nodes, nodes.len(), i);
        lemma_apart_at(nodes, nodes.len(), i);
        honest::lemma_begins(m, root, key);
        honest::lemma_finds_root(m, root, key);
        assert(store::loaded(s, root) == store::loaded(m, root)) by {
            reveal(store::loaded);
        }
        honest::lemma_finds_root(s, root, key);
        let h = HeldView { node: store::loaded(m, root)->Ok_0, upper: None };
        assert(s.submap_of(m));
        lemma_finds_less(s, m, h, key);
    }
}

/// The first block of a list is not a later one.
proof fn lemma_apart_at(nodes: Seq<Seq<u8>>, n: nat, i: int)
    requires
        0 < i < n <= nodes.len(),
        proofs::gathered(nodes, n) is Ok,
    ensures
        proofs::node_id(nodes[0]) != proofs::node_id(nodes[i]),
    decreases n,
{
    if i == n - 1 {
        lemma_gathered_holds(nodes, n, 0);
    } else {
        lemma_apart_at(nodes, (n - 1) as nat, i);
    }
}

/// A count proof that is accepted is refused once a block is taken out of it.
pub proof fn law_a_count_proof_without_a_block_is_refused(
    root: Seq<u8>,
    r: RangeView,
    p: ProofView,
    i: int,
)
    requires
        proofs::spec_verify_aggregate(root, r, p) is Ok,
        0 <= i < p.nodes.len(),
    ensures
        proofs::spec_verify_aggregate(root, r, ProofView { nodes: p.nodes.remove(i), value: p.value }) is Err,
{
    let nodes = p.nodes;
    lemma_gathered_without(nodes, i, nodes.len());
    assert(!proofs::settled(
        proofs::gathered(nodes, nodes.len())->Ok_0.remove(proofs::node_id(nodes[i])),
        Asked::Count { root, range: r },
    ));
}

/// A page proof that is accepted is refused once a block is taken out of it.
pub proof fn law_a_page_proof_without_a_block_is_refused(
    root: Seq<u8>,
    r: RangeView,
    p: ProofView,
    i: int,
)
    requires
        proofs::spec_verify_range(root, r, p) is Ok,
        0 <= i < p.nodes.len(),
    ensures
        proofs::spec_verify_range(root, r, ProofView { nodes: p.nodes.remove(i), value: p.value }) is Err,
{
    let nodes = p.nodes;
    lemma_gathered_without(nodes, i, nodes.len());
    assert(!proofs::settled(
        proofs::gathered(nodes, nodes.len())->Ok_0.remove(proofs::node_id(nodes[i])),
        Asked::Page { root, range: r },
    ));
}

// ---------------------------------------------------------------------------
// one block more
// ---------------------------------------------------------------------------

/// A block more than a question needs is one too many.
proof fn lemma_one_too_many(nodes: Seq<Seq<u8>>, i: int, b: Seq<u8>, q: Asked)
    requires
        0 <= i <= nodes.len(),
        proofs::gathered(nodes.insert(i, b), nodes.len() + 1) is Ok,
        proofs::gathered(nodes, nodes.len()) matches Ok(m) ==> proofs::settled(m, q),
    ensures
        ({
            let w = proofs::gathered(nodes.insert(i, b), nodes.len() + 1)->Ok_0;
            proofs::settled(w, q) && proofs::uncanonical(nodes.insert(i, b), w, q) == Some(
                Refused::Extra,
            )
        }),
{
    let more = nodes.insert(i, b);
    let id = proofs::node_id(b);
    lemma_gathered_with(nodes, i, b, nodes.len());
    let m = proofs::gathered(nodes, nodes.len())->Ok_0;
    let w = m.insert(id, b);
    assert(w.remove(id) =~= m);
    assert(m.submap_of(w));
    proofs::lemma_settled_stays(m, w, q);
    assert(more[i] == b);
    assert(!proofs::all_needed(more, w, q));
}

/// A key proof that is accepted is refused once a block is put into it, wherever:
/// unless its shape already tells, for the block that is one too many.
pub proof fn law_a_key_proof_with_a_block_more_is_refused(
    root: Seq<u8>,
    key: Seq<u8>,
    p: ProofView,
    i: int,
    b: Seq<u8>,
)
    requires
        proofs::spec_verify(root, key, p) is Ok,
        0 <= i <= p.nodes.len(),
    ensures
        ({
            let nodes = p.nodes.insert(i, b);
            let said = proofs::spec_verify(root, key, ProofView { nodes, value: p.value });
            &&& said is Err
            &&& proofs::misshapen(nodes, root, 1) is None && proofs::gathered(nodes, nodes.len()) is Ok
                ==> said->Err_0 == Refused::Extra
        }),
{
    if proofs::gathered(p.nodes.insert(i, b), p.nodes.len() + 1) is Ok {
        lemma_one_too_many(p.nodes, i, b, Asked::Key { root, key });
    }
}

/// A count proof that is accepted is refused once a block is put into it, wherever:
/// unless its shape already tells, for the block that is one too many.
pub proof fn law_a_count_proof_with_a_block_more_is_refused(
    root: Seq<u8>,
    r: RangeView,
    p: ProofView,
    i: int,
    b: Seq<u8>,
)
    requires
        proofs::spec_verify_aggregate(root, r, p) is Ok,
        0 <= i <= p.nodes.len(),
    ensures
        ({
            let nodes = p.nodes.insert(i, b);
            let said = proofs::spec_verify_aggregate(root, r, ProofView { nodes, value: p.value });
            &&& said is Err
            &&& proofs::misshapen(nodes, root, 2) is None && proofs::gathered(nodes, nodes.len()) is Ok
                ==> said->Err_0 == Refused::Extra
        }),
{
    if proofs::gathered(p.nodes.insert(i, b), p.nodes.len() + 1) is Ok {
        lemma_one_too_many(p.nodes, i, b, Asked::Count { root, range: r });
    }
}

/// A page proof that is accepted is refused once a block is put into it, wherever:
/// unless its shape already tells, for the block that is one too many.
pub proof fn law_a_page_proof_with_a_block_more_is_refused(
    root: Seq<u8>,
    r: RangeView,
    p: ProofView,
    i: int,
    b: Seq<u8>,
)
    requires
        proofs::spec_verify_range(root, r, p) is Ok,
        0 <= i <= p.nodes.len(),
    ensures
        ({
            let nodes = p.nodes.insert(i, b);
            let said = proofs::spec_verify_range(root, r, ProofView { nodes, value: p.value });
            &&& said is Err
            &&& proofs::misshapen_page(nodes, root, r.max_entries as int) is None
                && proofs::gathered(nodes, nodes.len()) is Ok ==> said->Err_0 == Refused::Extra
        }),
{
    if proofs::gathered(p.nodes.insert(i, b), p.nodes.len() + 1) is Ok {
        if !range::hopeless(r) {
            lemma_one_too_many(p.nodes, i, b, Asked::Page { root, range: r });
        }
    }
}

} // verus!
