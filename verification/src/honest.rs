//! An honest proof is accepted.
//!
//! What a prover picks out of a store of honest blocks passes every check of the
//! verifier, and says what the store says. A key proof holds the path of the read and
//! nothing else, and a count proof the two edges of its range, so they are never too
//! large either.

use crate::aggregate;
use crate::align;
use crate::canon;
use crate::edges;
use crate::grow;
use crate::kind;
use crate::node;
use crate::node::{Agg, NodeView, Payload, Row};
use crate::order;
use crate::pick;
use crate::proofs;
use crate::proofs::{Asked, PageClaim, ProofView, Refused};
use crate::range;
use crate::range::{PageEnd, RangeView};
use crate::store;
use crate::store::{BlockMap, Fault, HeldView};
use crate::tree;
use crate::tree::Slot;
use vstd::prelude::*;

verus! {

// ---------------------------------------------------------------------------
// the path of a read
// ---------------------------------------------------------------------------

/// The last of the first `n` rows at or before a key; -1 where all come after it.
pub open spec fn way(rows: Seq<Row>, key: Seq<u8>, n: nat) -> int
    decreases n,
{
    if n == 0 {
        -1
    } else if order::le(rows[n - 1].key, key) {
        n - 1
    } else {
        way(rows, key, (n - 1) as nat)
    }
}

proof fn lemma_way(rows: Seq<Row>, key: Seq<u8>, n: nat)
    requires
        n <= rows.len(),
    ensures
        ({
            let w = way(rows, key, n);
            &&& -1 <= w < n
            &&& w >= 0 ==> order::le(rows[w].key, key)
            &&& forall|j: int| w < j < n ==> order::lt(key, (#[trigger] rows[j]).key)
        }),
    decreases n,
{
    if n > 0 && !order::le(rows[n - 1].key, key) {
        lemma_way(rows, key, (n - 1) as nat);
        order::lemma_lt_total(rows[n - 1].key, key);
    }
}

/// What a leaf holds under a key.
pub open spec fn leaf_says(n: NodeView, key: Seq<u8>) -> Option<Payload> {
    let w = way(n.rows, key, n.rows.len());
    if w >= 0 && n.rows[w].key == key {
        Some(n.rows[w].held)
    } else {
        None
    }
}

/// What a read finds under a node.
pub open spec fn finds(m: BlockMap, h: HeldView, key: Seq<u8>) -> Result<Option<Payload>, Fault>
    decreases h.node.level,
{
    let w = way(h.node.rows, key, h.node.rows.len());
    if h.node.level == 0 {
        Ok(leaf_says(h.node, key))
    } else if w < 0 {
        Ok(None)
    } else {
        match store::opened(m, h, w) {
            Err(f) => Err(f),
            Ok(c) => if c.node.level < h.node.level {
                finds(m, c, key)
            } else {
                Ok(None)
            },
        }
    }
}

/// The ids on the path of a read, from `cid` down.
pub open spec fn trail(m: BlockMap, h: HeldView, cid: Seq<u8>, key: Seq<u8>) -> Seq<Seq<u8>>
    decreases h.node.level,
{
    let w = way(h.node.rows, key, h.node.rows.len());
    if h.node.level == 0 || w < 0 {
        seq![cid]
    } else {
        match store::opened(m, h, w) {
            Err(_) => seq![cid],
            Ok(c) => if c.node.level < h.node.level {
                seq![cid] + trail(m, c, store::child_cid(h.node.rows[w]), key)
            } else {
                seq![cid]
            },
        }
    }
}

/// A lookup is a read.
proof fn lemma_finds(m: BlockMap, h: HeldView, s: Slot, key: Seq<u8>)
    requires
        s.opened == Ok::<HeldView, Fault>(h),
        h.node.valid(),
        store::ends_before(h.node, h.upper),
    ensures
        tree::lookup(tree::flat(tree::level_slots(m, s, 0)), key) == finds(m, h, key),
    decreases h.node.level,
{
    let rows = h.node.rows;
    let n = rows.len();
    let w = way(rows, key, n);
    lemma_way(rows, key, n);
    assert(node::sorted_rows(rows));
    if h.node.level == 0 {
        tree::lemma_flat_one(s);
        let found = w >= 0 && rows[w].key == key;
        let i = if found {
            w
        } else {
            w + 1
        };
        assert forall|j: int| 0 <= j < i implies order::lt((#[trigger] rows[j]).key, key) by {
            if j < w {
                assert(order::lt(rows[j].key, rows[w].key));
                if rows[w].key != key {
                    order::lemma_lt_trans(rows[j].key, rows[w].key, key);
                }
            }
        }
        tree::lemma_lookup_leaf(h, s, key, i, found);
    } else {
        assert(tree::steady(h)) by {
            reveal(tree::steady);
        }
        if w < 0 {
            tree::lemma_child_slots(m, h, 0, n);
            let l = tree::child_slots(m, h, 0, n);
            let lo = rows[0].key;
            tree::lemma_flat_span(l, lo, h.upper);
            tree::lemma_lookup_before(tree::flat(l), lo, h.upper, key);
        } else {
            tree::lemma_lookup_child(m, h, key, w);
            let c = tree::child_slot(m, h, w);
            match store::opened(m, h, w) {
                Err(f) => {
                    tree::lemma_flat_one(c);
                    let its = tree::slot_items(c);
                    tree::lemma_rank_is(its, key, 1);
                },
                Ok(g) => {
                    tree::lemma_loaded(m, store::child_cid(rows[w]));
                    lemma_finds(m, g, c, key);
                },
            }
        }
    }
}

/// A read needs the blocks of its path and no others, and they go down level by level.
proof fn lemma_trail(m: BlockMap, h: HeldView, cid: Seq<u8>, key: Seq<u8>)
    requires
        finds(m, h, key) is Ok,
        store::loaded(m, cid) == Ok::<NodeView, Fault>(h.node),
    ensures
        ({
            let t = trail(m, h, cid, key);
            &&& t.len() > 0
            &&& t[0] == cid
            &&& forall|k: int|
                0 <= k < t.len() ==> (store::loaded(m, #[trigger] t[k]) matches Ok(n) && n.level
                    == h.node.level - k)
            &&& forall|x: Seq<u8>|
                !t.contains(x) ==> finds(#[trigger] m.remove(x), h, key) == finds(m, h, key)
            &&& store::loaded(m, t.last()) matches Ok(n) && finds(m, h, key) == Ok::<
                Option<Payload>,
                Fault,
            >(
                if n.level == 0 {
                    leaf_says(n, key)
                } else {
                    None
                },
            )
        }),
    decreases h.node.level,
{
    let rows = h.node.rows;
    let w = way(rows, key, rows.len());
    lemma_way(rows, key, rows.len());
    let t = trail(m, h, cid, key);
    if h.node.level > 0 && w >= 0 {
        let c = store::opened(m, h, w)->Ok_0;
        let id = store::child_cid(rows[w]);
        assert(c.node.level + 1 == h.node.level);
        lemma_trail(m, c, id, key);
        let rest = trail(m, c, id, key);
        assert(t =~= seq![cid] + rest);
        assert(t.last() == rest.last());
        assert forall|k: int| 0 <= k < t.len() implies (store::loaded(m, #[trigger] t[k]) matches Ok(
            n,
        ) && n.level == h.node.level - k) by {
            if k > 0 {
                assert(t[k] == rest[k - 1]);
            }
        }
        assert forall|x: Seq<u8>| !t.contains(x) implies finds(#[trigger] m.remove(x), h, key)
            == finds(m, h, key) by {
            assert(!rest.contains(x)) by {
                if rest.contains(x) {
                    let j = choose|j: int| 0 <= j < rest.len() && rest[j] == x;
                    assert(t[j + 1] == x);
                }
            }
            assert(id != x) by {
                assert(t[1] == rest[0]);
            }
            assert(store::opened(m.remove(x), h, w) == store::opened(m, h, w)) by {
                reveal(store::loaded);
            }
        }
    } else {
        assert(t =~= seq![cid]);
    }
}

// ---------------------------------------------------------------------------
// what was picked, as a proof
// ---------------------------------------------------------------------------

/// Is every node of a tree that a store holds held under its own id? What else the store
/// holds does not matter.
pub open spec fn addressed(m: BlockMap, root: Seq<u8>) -> bool {
    forall|c: Seq<u8>| #[trigger]
        m.contains_key(c) && align::is_node(m, root, c) ==> proofs::node_id(m[c]) == c
}

/// Is body `i` the node of a store under id `i`?
spec fn fits_at(m: BlockMap, ids: Seq<Seq<u8>>, nodes: Seq<Seq<u8>>, i: int) -> bool {
    &&& m.contains_key(ids[i])
    &&& nodes[i] == m[ids[i]]
    &&& node::parse_spec(nodes[i]) is Ok
    &&& proofs::node_id(nodes[i]) == ids[i]
}

/// One more id, one more block.
proof fn lemma_only_next(m: BlockMap, ids: Seq<Seq<u8>>, k: int)
    requires
        0 <= k < ids.len(),
        ids.no_duplicates(),
        m.contains_key(ids[k]),
    ensures
        !pick::only(m, ids.take(k)).contains_key(ids[k]),
        pick::only(m, ids.take(k + 1)) == pick::only(m, ids.take(k)).insert(ids[k], m[ids[k]]),
{
    let a = ids.take(k);
    let b = ids.take(k + 1);
    let id = ids[k];
    assert(!a.contains(id)) by {
        if a.contains(id) {
            let j = choose|j: int| 0 <= j < a.len() && a[j] == id;
            assert(ids[j] == id);
        }
    }
    assert forall|c: Seq<u8>| b.contains(c) == (a.contains(c) || c == id) by {
        if a.contains(c) {
            let j = choose|j: int| 0 <= j < a.len() && a[j] == c;
            assert(b[j] == c);
        }
        assert(b[k] == id);
        if b.contains(c) {
            let j = choose|j: int| 0 <= j < b.len() && b[j] == c;
            if j < k {
                assert(a[j] == c);
            }
        }
    }
    assert(pick::only(m, b) =~= pick::only(m, a).insert(id, m[id]));
}

/// The blocks of a proof make the store they were picked from.
proof fn lemma_gathers(m: BlockMap, ids: Seq<Seq<u8>>, nodes: Seq<Seq<u8>>, n: nat)
    requires
        ids.len() == nodes.len(),
        ids.no_duplicates(),
        forall|i: int| 0 <= i < ids.len() ==> #[trigger] fits_at(m, ids, nodes, i),
        n <= ids.len(),
    ensures
        proofs::gathered(nodes, n) == Ok::<BlockMap, Refused>(
            pick::only(m, ids.take(n as int)),
        ),
    decreases n,
{
    if n == 0 {
        assert(pick::only(m, ids.take(0)) =~= Map::<Seq<u8>, Seq<u8>>::empty());
    } else {
        lemma_gathers(m, ids, nodes, (n - 1) as nat);
        assert(fits_at(m, ids, nodes, n - 1));
        lemma_only_next(m, ids, n - 1);
    }
}

/// What was picked passes every check but that of its size, and settles the question as
/// the store does.
proof fn lemma_passes(m: BlockMap, q: Asked, ids: Seq<Seq<u8>>, nodes: Seq<Seq<u8>>)
    requires
        addressed(m, pick::root_of(q)),
        pick::picked(m, q, ids, nodes),
    ensures
        ({
            let s = pick::only(m, ids);
            &&& proofs::gathered(nodes, nodes.len()) == Ok::<BlockMap, Refused>(s)
            &&& proofs::uncanonical(nodes, s, q) is None
            &&& proofs::settled(s, q)
            &&& s.submap_of(m)
            &&& nodes.len() > 0 ==> proofs::node_id(nodes[0]) == pick::root_of(q)
                && node::parse_spec(nodes[0]) is Ok
        }),
{
    let s = pick::only(m, ids);
    assert forall|i: int| 0 <= i < ids.len() implies #[trigger] fits_at(m, ids, nodes, i) by {
        assert(m.contains_key(ids[i]));
        assert(align::is_node(m, pick::root_of(q), ids[i]));
    }
    lemma_gathers(m, ids, nodes, ids.len());
    assert(ids.take(ids.len() as int) =~= ids);
    assert forall|i: int| 0 <= i < nodes.len() implies !proofs::settled(
        s.remove(proofs::node_id(#[trigger] nodes[i])),
        q,
    ) by {
        assert(fits_at(m, ids, nodes, i));
    }
    assert forall|c: Seq<u8>| #[trigger] s.dom().contains(c) implies m.dom().contains(c) && s[c]
        == m[c] by {}
    if nodes.len() > 0 {
        assert(m.contains_key(ids[0]));
    }
}

// ---------------------------------------------------------------------------
// keys
// ---------------------------------------------------------------------------

/// What a leaf holds is what its rows hold.
proof fn lemma_leaf_says(body: Seq<u8>, n: NodeView, key: Seq<u8>)
    requires
        node::parse_spec(body) == Ok::<NodeView, node::NodeError>(n),
        n.level == 0,
    ensures
        proofs::said_by(body, key) == leaf_says(n, key),
{
    canon::law_parsed_bytes_are_the_encoding(body);
    assert(node::sorted_rows(n.rows));
    let w = way(n.rows, key, n.rows.len());
    lemma_way(n.rows, key, n.rows.len());
    order::lemma_lt_irreflexive(key);
    if exists|i: int| 0 <= i < n.rows.len() && (#[trigger] n.rows[i]).key == key {
        let i = choose|i: int| 0 <= i < n.rows.len() && (#[trigger] n.rows[i]).key == key;
        assert(i <= w);
        if i < w {
            assert(order::lt(n.rows[i].key, n.rows[w].key));
            if n.rows[w].key != key {
                order::lemma_lt_trans(key, n.rows[w].key, key);
            }
        }
    }
}

/// The level of a body.
spec fn level_at(nodes: Seq<Seq<u8>>, i: int) -> int {
    node::parse_spec(nodes[i])->Ok_0.level as int
}

/// Levels that go down leave at most one block for each.
proof fn lemma_levels(nodes: Seq<Seq<u8>>, i: int)
    requires
        0 <= i < nodes.len(),
        forall|j: int|
            0 <= j && j + 1 < nodes.len() ==> level_at(nodes, j) > #[trigger] level_at(
                nodes,
                j + 1,
            ),
    ensures
        level_at(nodes, i) + i <= level_at(nodes, 0),
    decreases i,
{
    if i > 0 {
        lemma_levels(nodes, i - 1);
        assert(level_at(nodes, i - 1) > level_at(nodes, (i - 1) + 1));
    }
}

/// Levels that go down go down all the way.
proof fn lemma_levels_between(nodes: Seq<Seq<u8>>, i: int, k: int)
    requires
        0 <= i < k < nodes.len(),
        forall|j: int|
            0 <= j && j + 1 < nodes.len() ==> level_at(nodes, j) > #[trigger] level_at(
                nodes,
                j + 1,
            ),
    ensures
        level_at(nodes, i) > level_at(nodes, k),
    decreases k - i,
{
    assert(level_at(nodes, k - 1) > level_at(nodes, (k - 1) + 1));
    if i < k - 1 {
        lemma_levels_between(nodes, i, k - 1);
    }
}

/// A store that answers a key can begin its tree.
pub proof fn lemma_begins(m: BlockMap, root: Seq<u8>, key: Seq<u8>)
    requires
        tree::lookup(tree::items(m, root), key) is Ok,
    ensures
        store::loaded(m, root) is Ok,
        m.contains_key(root),
{
    grow::lemma_root_gap(m, root);
    if store::loaded(m, root) is Err {
        order::lemma_empty_first(key);
        tree::lemma_rank_is(tree::items(m, root), key, 1);
    }
    reveal(store::loaded);
}

/// A lookup in a tree is a read from its root.
pub proof fn lemma_finds_root(m: BlockMap, root: Seq<u8>, key: Seq<u8>)
    requires
        store::loaded(m, root) is Ok,
    ensures
        tree::lookup(tree::items(m, root), key) == finds(
            m,
            HeldView { node: store::loaded(m, root)->Ok_0, upper: None },
            key,
        ),
{
    let h = HeldView { node: store::loaded(m, root)->Ok_0, upper: None };
    tree::lemma_loaded(m, root);
    lemma_finds(m, h, tree::root_slot(m, root), key);
}

/// Every block of a key proof is on the path.
proof fn lemma_on_the_way(
    m: BlockMap,
    root: Seq<u8>,
    key: Seq<u8>,
    ids: Seq<Seq<u8>>,
    nodes: Seq<Seq<u8>>,
    i: int,
)
    requires
        pick::picked(m, Asked::Key { root, key }, ids, nodes),
        0 <= i < ids.len(),
        store::loaded(pick::only(m, ids), root) is Ok,
    ensures
        ({
            let s = pick::only(m, ids);
            let h = HeldView { node: store::loaded(s, root)->Ok_0, upper: None };
            trail(s, h, root, key).contains(ids[i])
        }),
{
    let s = pick::only(m, ids);
    let h = HeldView { node: store::loaded(s, root)->Ok_0, upper: None };
    let x = ids[i];
    lemma_finds_root(s, root, key);
    lemma_trail(s, h, root, key);
    let t = trail(s, h, root, key);
    if !t.contains(x) {
        assert(t[0] == root);
        assert(x != root) by {
            assert(t.contains(t[0]));
        }
        assert(store::loaded(s.remove(x), root) == store::loaded(s, root)) by {
            reveal(store::loaded);
        }
        lemma_finds_root(s.remove(x), root, key);
        assert(proofs::settled(s.remove(x), Asked::Key { root, key }));
    }
}

/// Where on the path a block of a key proof is.
proof fn lemma_rung(
    m: BlockMap,
    root: Seq<u8>,
    key: Seq<u8>,
    ids: Seq<Seq<u8>>,
    nodes: Seq<Seq<u8>>,
    i: int,
) -> (k: int)
    requires
        pick::picked(m, Asked::Key { root, key }, ids, nodes),
        0 <= i < ids.len(),
        store::loaded(pick::only(m, ids), root) is Ok,
    ensures
        ({
            let s = pick::only(m, ids);
            let top = store::loaded(s, root)->Ok_0;
            let t = trail(s, HeldView { node: top, upper: None }, root, key);
            &&& 0 <= k < t.len()
            &&& t[k] == ids[i]
            &&& level_at(nodes, i) == top.level - k
            &&& store::loaded(s, ids[i]) == Ok::<NodeView, Fault>(
                node::parse_spec(nodes[i])->Ok_0,
            )
        }),
{
    let s = pick::only(m, ids);
    let h = HeldView { node: store::loaded(s, root)->Ok_0, upper: None };
    let t = trail(s, h, root, key);
    lemma_on_the_way(m, root, key, ids, nodes, i);
    let k = choose|k: int| 0 <= k < t.len() && t[k] == ids[i];
    assert(store::loaded(s, ids[i]) == Ok::<NodeView, Fault>(node::parse_spec(nodes[i])->Ok_0))
        by {
        reveal(store::loaded);
        assert(m.contains_key(ids[i]));
        assert(ids.contains(ids[i]));
    }
    lemma_finds_root(s, root, key);
    lemma_trail(s, h, root, key);
    assert(store::loaded(s, t[k]) is Ok);
    k
}

/// The blocks of a key proof go down level by level.
proof fn lemma_each_below(
    m: BlockMap,
    root: Seq<u8>,
    key: Seq<u8>,
    ids: Seq<Seq<u8>>,
    nodes: Seq<Seq<u8>>,
    j: int,
)
    requires
        pick::picked(m, Asked::Key { root, key }, ids, nodes),
        0 <= j,
        j + 1 < ids.len(),
        store::loaded(pick::only(m, ids), root) is Ok,
    ensures
        level_at(nodes, j) > level_at(nodes, j + 1),
{
    let a = lemma_rung(m, root, key, ids, nodes, j);
    let b = lemma_rung(m, root, key, ids, nodes, j + 1);
    assert(proofs::ordered_at(nodes, j));
    if level_at(nodes, j) == level_at(nodes, j + 1) {
        assert(a == b);
        assert(ids[j] == ids[j + 1]);
    }
}

/// The last block of a key proof is the end of the path, and there are no more of them
/// than levels.
proof fn lemma_goes_down(
    m: BlockMap,
    root: Seq<u8>,
    key: Seq<u8>,
    ids: Seq<Seq<u8>>,
    nodes: Seq<Seq<u8>>,
)
    requires
        pick::picked(m, Asked::Key { root, key }, ids, nodes),
        store::loaded(pick::only(m, ids), root) is Ok,
    ensures
        nodes.len() > 0,
        nodes.len() <= store::loaded(pick::only(m, ids), root)->Ok_0.level + 1,
        Ok::<Option<Payload>, Fault>(proofs::said_by(nodes.last(), key)) == tree::lookup(
            tree::items(pick::only(m, ids), root),
            key,
        ),
{
    let s = pick::only(m, ids);
    let top = store::loaded(s, root)->Ok_0;
    let h = HeldView { node: top, upper: None };
    let t = trail(s, h, root, key);
    lemma_finds_root(s, root, key);
    lemma_trail(s, h, root, key);
    let end = t.last();
    assert(store::loaded(s, t[t.len() - 1]) is Ok);
    assert(s.contains_key(end)) by {
        reveal(store::loaded);
    }
    let e = choose|e: int| 0 <= e < ids.len() && ids[e] == end;
    assert(ids.contains(end));
    assert forall|j: int| 0 <= j && j + 1 < nodes.len() implies level_at(nodes, j)
        > #[trigger] level_at(nodes, j + 1) by {
        lemma_each_below(m, root, key, ids, nodes, j);
    }
    let last = nodes.len() - 1;
    let first = lemma_rung(m, root, key, ids, nodes, 0);
    let low = lemma_rung(m, root, key, ids, nodes, last);
    let here = lemma_rung(m, root, key, ids, nodes, e);
    lemma_levels(nodes, last);
    assert(level_at(nodes, e) == top.level - (t.len() - 1));
    if e < last {
        lemma_levels_between(nodes, e, last);
    }
    assert(nodes.last() == nodes[e]);
    let n = node::parse_spec(nodes[e])->Ok_0;
    if n.level == 0 {
        lemma_leaf_says(nodes[e], n, key);
    }
}

/// An honest key proof is accepted: what a prover picks out of a store that holds the
/// nodes of the tree under their own ids verifies, and says what the store says. Where it carries the
/// bytes behind a referenced value, they stand for the reference.
pub proof fn law_an_honest_key_proof_is_accepted(m: BlockMap, root: Seq<u8>, key: Seq<u8>, p: ProofView)
    requires
        addressed(m, root),
        proofs::proves(m, Asked::Key { root, key }, p.nodes),
        p.value matches Some(v) ==> (tree::lookup(tree::items(m, root), key) matches Ok(
            Some(Payload::Ref { cid, len }),
        ) && v.len() == len && crate::spec_block_id(kind::RAW, v) == cid),
    ensures
        ({
            let found = tree::lookup(tree::items(m, root), key);
            found is Ok && proofs::spec_verify(root, key, p) == Ok::<Option<Payload>, Refused>(
                match p.value {
                    None => found->Ok_0,
                    Some(v) => Some(Payload::Inline(v)),
                },
            )
        }),
{
    let q = Asked::Key { root, key };
    let nodes = p.nodes;
    let ids = choose|ids: Seq<Seq<u8>>| #[trigger] pick::picked(m, q, ids, nodes);
    lemma_passes(m, q, ids, nodes);
    let s = pick::only(m, ids);
    grow::law_an_answer_stays(s, m, root, key);
    lemma_begins(s, root, key);
    lemma_goes_down(m, root, key, ids, nodes);
    assert(node::parse_spec(nodes[0]) == Ok::<NodeView, node::NodeError>(
        store::loaded(s, root)->Ok_0,
    )) by {
        reveal(store::loaded);
        assert(m.contains_key(ids[0]));
    }
}

// ---------------------------------------------------------------------------
// counts and pages
// ---------------------------------------------------------------------------

/// An honest aggregate proof is accepted, and says what the store says. It holds the two
/// edge paths of its range at most, so it is never too large.
pub proof fn law_an_honest_count_proof_is_accepted(
    m: BlockMap,
    root: Seq<u8>,
    r: RangeView,
    nodes: Seq<Seq<u8>>,
)
    requires
        addressed(m, root),
        aggregate::instruction(r) is None,
        proofs::proves(m, Asked::Count { root, range: r }, nodes),
    ensures
        ({
            let count = aggregate::spec_count(m, root, r, false);
            let said = proofs::spec_verify_aggregate(root, r, ProofView { nodes, value: None });
            count is Ok && said == Ok::<Agg, Refused>(count->Ok_0)
        }),
{
    let q = Asked::Count { root, range: r };
    let ids = choose|ids: Seq<Seq<u8>>| #[trigger] pick::picked(m, q, ids, nodes);
    lemma_passes(m, q, ids, nodes);
    let s = pick::only(m, ids);
    grow::law_a_count_stays(s, m, root, r, false);
    assert forall|i: int| 0 <= i < ids.len() implies aggregate::spec_count(
        s.remove(#[trigger] ids[i]),
        root,
        r,
        false,
    ) is Err by {
        assert(m.contains_key(ids[i]));
        assert(!proofs::settled(s.remove(ids[i]), q));
    }
    edges::lemma_two_per_level(s, root, r, ids);
    reveal(store::loaded);
    assert(nodes.len() > 0) by {
        reveal(store::loaded);
        assert(s.contains_key(root));
        assert(ids.contains(root));
    }
}

/// An honest page proof is accepted, and says what the store says, where it holds no more
/// blocks than two for each level of the tree and one for each entry that the page may
/// have. One that holds more is refused as too large, and for nothing else.
pub proof fn law_an_honest_page_proof_is_accepted(
    m: BlockMap,
    root: Seq<u8>,
    r: RangeView,
    nodes: Seq<Seq<u8>>,
)
    requires
        addressed(m, root),
        r.max_entries > 0,
        proofs::proves(m, Asked::Page { root, range: r }, nodes),
    ensures
        ({
            let page = proofs::page_in(m, root, r);
            let said = proofs::spec_verify_range(root, r, ProofView { nodes, value: None });
            &&& page is Ok
            &&& page->Ok_0.end != PageEnd::Blocked
            &&& nodes.len() <= 2 * (store::loaded(m, root)->Ok_0.level + 1) + r.max_entries ==> said
                == Ok::<PageClaim, Refused>(
                PageClaim { entries: page->Ok_0.entries, next: page->Ok_0.next },
            )
            &&& nodes.len() > 2 * (store::loaded(m, root)->Ok_0.level + 1) + r.max_entries ==> said
                == Err::<PageClaim, Refused>(
                Refused::TooLarge("more blocks than the page can need"@),
            )
        }),
{
    let q = Asked::Page { root, range: r };
    let ids = choose|ids: Seq<Seq<u8>>| #[trigger] pick::picked(m, q, ids, nodes);
    lemma_passes(m, q, ids, nodes);
    let s = pick::only(m, ids);
    grow::law_a_page_stays(
        s,
        m,
        root,
        r,
        range::Options { agg_bound: true, cap_leaf_bytes: true },
    );
    if range::hopeless(r) {
        // Nothing is read, so nothing is needed.
        if nodes.len() > 0 {
            assert(m.contains_key(ids[0]));
            assert(proofs::settled(s.remove(ids[0]), q));
        }
    } else {
        assert(nodes.len() > 0) by {
            assert(s.contains_key(root));
            assert(ids.contains(root));
        }
        assert(store::loaded(m, root) == Ok::<NodeView, Fault>(node::parse_spec(nodes[0])->Ok_0))
            by {
            reveal(store::loaded);
            assert(m.contains_key(ids[0]));
        }
    }
}

} // verus!
