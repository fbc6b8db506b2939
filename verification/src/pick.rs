//! The blocks a question hangs on.
//!
//! A proof carries the blocks that answer a question and no others. They are found from
//! the root down, level by level: a block the answer does not need is left out with all
//! that is under it, and the rest is opened. What is left settles the question, none of
//! it can be spared, and it comes out in the format's own order.

use crate::aggregate;
use crate::aggregate::Tally;
use crate::align;
use crate::grow;
use crate::node;
use crate::node::NodeView;
use crate::order;
use crate::proofs;
use crate::proofs::{settles_without, Asked, Question};
use crate::range;
use crate::range::RangeView;
use crate::seqs;
use crate::store;
use crate::store::{BlockMap, Blocks, Fault, Held, HeldView, MemBlocks};
use crate::tree;
use crate::tree::{Item, Slot};
use crate::Cid;
use vstd::prelude::*;

verus! {

// ---------------------------------------------------------------------------
// two stores alike as far as a tree goes
// ---------------------------------------------------------------------------

/// Is child `i` of `h` the same in both, or missing from both?
pub open spec fn alike_at(m: BlockMap, s: BlockMap, hs: Set<HeldView>, h: HeldView, i: int) -> bool {
    match (store::opened(m, h, i), store::opened(s, h, i)) {
        (Ok(c), Ok(d)) => c == d && hs.contains(c),
        (Err(_), Err(_)) => true,
        _ => false,
    }
}

/// Do two stores open the same children of the nodes `hs`, all of them among `hs`?
pub open spec fn alike(m: BlockMap, s: BlockMap, hs: Set<HeldView>) -> bool {
    forall|h: HeldView, i: int|
        hs.contains(h) && h.node.level > 0 && 0 <= i < h.node.rows.len() ==> #[trigger] alike_at(
            m,
            s,
            hs,
            h,
            i,
        )
}

/// Do two stores begin a tree alike?
pub open spec fn rooted_alike(m: BlockMap, s: BlockMap, hs: Set<HeldView>, root: Seq<u8>) -> bool {
    match (store::loaded(m, root), store::loaded(s, root)) {
        (Ok(n), Ok(o)) => n == o && hs.contains(HeldView { node: n, upper: None }),
        (Err(_), Err(_)) => true,
        _ => false,
    }
}

/// Do two items differ at most in why a gap is one?
pub open spec fn like(x: Item, y: Item) -> bool {
    x.key == y.key && (x == y || x.what is Err && y.what is Err)
}

/// Do two lists differ at most in why their gaps are gaps?
pub open spec fn same_shape(x: Seq<Item>, y: Seq<Item>) -> bool {
    x.len() == y.len() && forall|i: int| 0 <= i < x.len() ==> like(#[trigger] x[i], y[i])
}

proof fn lemma_shapes_join(a: Seq<Item>, b: Seq<Item>, x: Seq<Item>, y: Seq<Item>)
    requires
        same_shape(a, b),
        same_shape(x, y),
    ensures
        same_shape(a + x, b + y),
{
    assert forall|i: int| 0 <= i < (a + x).len() implies like(#[trigger] (a + x)[i], (b + y)[i]) by {
        if i < a.len() {
            assert(like(a[i], b[i]));
        } else {
            assert(like(x[i - a.len()], y[i - a.len()]));
        }
    }
}

/// Are two places the same, or both shut?
pub open spec fn slots_alike(hs: Set<HeldView>, a: Slot, b: Slot) -> bool {
    match (a.opened, b.opened) {
        (Ok(c), Ok(d)) => a == b && hs.contains(c),
        (Err(_), Err(_)) => a.key == b.key,
        _ => false,
    }
}

proof fn lemma_leaves_alike(m: BlockMap, s: BlockMap, hs: Set<HeldView>, a: Slot, b: Slot)
    requires
        alike(m, s, hs),
        slots_alike(hs, a, b),
    ensures
        same_shape(tree::flat(tree::level_slots(m, a, 0)), tree::flat(tree::level_slots(s, b, 0))),
    decreases tree::height_of(a), 1nat, 0nat,
{
    match a.opened {
        Err(_) => {
            tree::lemma_flat_one(a);
            tree::lemma_flat_one(b);
        },
        Ok(h) => if h.node.level <= 0 {
            tree::lemma_flat_one(a);
            tree::lemma_flat_one(b);
        } else {
            lemma_children_alike(m, s, hs, h, h.node.rows.len());
        },
    }
}

proof fn lemma_children_alike(m: BlockMap, s: BlockMap, hs: Set<HeldView>, h: HeldView, n: nat)
    requires
        alike(m, s, hs),
        hs.contains(h),
        n <= h.node.rows.len(),
    ensures
        same_shape(
            tree::flat(tree::child_slots(m, h, 0, n)),
            tree::flat(tree::child_slots(s, h, 0, n)),
        ),
    decreases h.node.level as nat, 0nat, n,
{
    if n > 0 && h.node.level > 0 {
        lemma_children_alike(m, s, hs, h, (n - 1) as nat);
        let a = tree::child_slot(m, h, n - 1);
        let b = tree::child_slot(s, h, n - 1);
        assert(alike_at(m, s, hs, h, n - 1));
        assert(tree::height_of(a) < h.node.level);
        lemma_leaves_alike(m, s, hs, a, b);
        tree::lemma_flat_join(
            tree::child_slots(m, h, 0, (n - 1) as nat),
            tree::level_slots(m, a, 0),
        );
        tree::lemma_flat_join(
            tree::child_slots(s, h, 0, (n - 1) as nat),
            tree::level_slots(s, b, 0),
        );
        lemma_shapes_join(
            tree::flat(tree::child_slots(m, h, 0, (n - 1) as nat)),
            tree::flat(tree::child_slots(s, h, 0, (n - 1) as nat)),
            tree::flat(tree::level_slots(m, a, 0)),
            tree::flat(tree::level_slots(s, b, 0)),
        );
    }
}

/// A list of the same shape has its entries in the same places.
proof fn lemma_shape_fills(a: Seq<Item>, b: Seq<Item>) -> (at: Seq<int>)
    requires
        same_shape(a, b),
        tree::ascending(a),
        tree::ascending(b),
    ensures
        grow::fills(a, b, at),
{
    let at = Seq::new((a.len() + 1) as nat, |i: int| i);
    assert forall|p: int| 0 <= p < a.len() implies #[trigger] grow::filled_at(a, b, at, p) by {
        assert(like(a[p], b[p]));
    }
    reveal(grow::fills);
    at
}

/// The items of two trees alike.
proof fn lemma_items_alike(m: BlockMap, s: BlockMap, hs: Set<HeldView>, root: Seq<u8>) -> (at: Seq<
    int,
>)
    requires
        alike(m, s, hs),
        rooted_alike(m, s, hs, root),
    ensures
        grow::fills(tree::items(m, root), tree::items(s, root), at),
{
    let a = tree::root_slot(m, root);
    let b = tree::root_slot(s, root);
    assert(slots_alike(hs, a, b));
    lemma_leaves_alike(m, s, hs, a, b);
    tree::law_keys_ascend(m, root);
    tree::law_keys_ascend(s, root);
    lemma_shape_fills(tree::items(m, root), tree::items(s, root))
}

// ---------------------------------------------------------------------------
// counts in stores alike
// ---------------------------------------------------------------------------

proof fn lemma_count_node_alike(
    m: BlockMap,
    s: BlockMap,
    hs: Set<HeldView>,
    h: HeldView,
    r: RangeView,
    t: Tally,
)
    requires
        alike(m, s, hs),
        hs.contains(h),
    ensures
        aggregate::count_node(m, h, r, false, t) matches Ok(u) ==> u.need.len() >= t.need.len()
            && (u.need.len() == 0 ==> aggregate::count_node(s, h, r, false, t) == Ok::<
            Tally,
            Fault,
        >(u)),
    decreases h.node.level, 2nat, 0nat,
{
    if h.node.level > 0 {
        lemma_count_children_alike(m, s, hs, h, r, t, h.node.rows.len());
    }
}

proof fn lemma_count_children_alike(
    m: BlockMap,
    s: BlockMap,
    hs: Set<HeldView>,
    h: HeldView,
    r: RangeView,
    t: Tally,
    n: nat,
)
    requires
        alike(m, s, hs),
        hs.contains(h),
        n <= h.node.rows.len(),
    ensures
        aggregate::count_children(m, h, r, false, t, n) matches Ok(u) ==> u.need.len()
            >= t.need.len() && (u.need.len() == 0 ==> aggregate::count_children(
            s,
            h,
            r,
            false,
            t,
            n,
        ) == Ok::<Tally, Fault>(u)),
    decreases h.node.level, 1nat, n,
{
    if n > 0 && h.node.level > 0 {
        lemma_count_children_alike(m, s, hs, h, r, t, (n - 1) as nat);
        if let Ok(u) = aggregate::count_children(m, h, r, false, t, (n - 1) as nat) {
            lemma_count_child_alike(m, s, hs, h, r, u, n - 1);
        }
    }
}

proof fn lemma_count_child_alike(
    m: BlockMap,
    s: BlockMap,
    hs: Set<HeldView>,
    h: HeldView,
    r: RangeView,
    t: Tally,
    i: int,
)
    requires
        alike(m, s, hs),
        hs.contains(h),
        h.node.level > 0,
        0 <= i < h.node.rows.len(),
    ensures
        aggregate::count_child(m, h, r, false, t, i) matches Ok(u) ==> u.need.len()
            >= t.need.len() && (u.need.len() == 0 ==> aggregate::count_child(
            s,
            h,
            r,
            false,
            t,
            i,
        ) == Ok::<Tally, Fault>(u)),
    decreases h.node.level, 0nat, 0nat,
{
    let cid = store::child_cid(h.node.rows[i]);
    assert(alike_at(m, s, hs, h, i));
    if range::intersects(h, i, r) && !range::inside(h, i, r) {
        if m.contains_key(cid) {
            if let Ok(c) = store::opened(m, h, i) {
                assert(s.contains_key(cid)) by {
                    reveal(store::loaded);
                }
                if c.node.level < h.node.level {
                    lemma_count_node_alike(m, s, hs, c, r, t);
                }
            }
        } else {
            let need = aggregate::asked(t.need, cid);
            assert(need.len() > 0) by {
                if t.need.len() == 0 {
                    assert(!t.need.contains(cid));
                }
            }
        }
    }
}

// ---------------------------------------------------------------------------
// questions in stores alike
// ---------------------------------------------------------------------------

/// The root a question is asked of.
pub open spec fn root_of(q: Asked) -> Seq<u8> {
    match q {
        Asked::Key { root, .. } => root,
        Asked::Count { root, .. } => root,
        Asked::Page { root, .. } => root,
    }
}

/// What one of two stores alike settles, the other does.
proof fn lemma_settled_alike(m: BlockMap, s: BlockMap, hs: Set<HeldView>, q: Asked)
    requires
        alike(m, s, hs),
        rooted_alike(m, s, hs, root_of(q)),
        proofs::settled(m, q),
    ensures
        proofs::settled(s, q),
{
    let root = root_of(q);
    let at = lemma_items_alike(m, s, hs, root);
    match q {
        Asked::Key { root, key } => {
            grow::lemma_lookup_fills(tree::items(m, root), tree::items(s, root), at, key);
        },
        Asked::Count { root, range: r } => {
            let n = store::loaded(m, root)->Ok_0;
            let t = Tally { agg: node::Agg { count: 0, bytes: 0 }, need: Seq::empty() };
            lemma_count_node_alike(m, s, hs, HeldView { node: n, upper: None }, r, t);
        },
        Asked::Page { root, range: r } => {
            if !range::hopeless(r) {
                let a = tree::items(m, root);
                assert(!(range::scan(a, r).stop is Gap));
                grow::lemma_root_gap(m, root);
                if store::loaded(m, root) is Err {
                    grow::lemma_gap_stops(a, r);
                }
                assert(s.contains_key(root)) by {
                    reveal(store::loaded);
                }
                grow::lemma_scan_fills(a, tree::items(s, root), at, r);
            }
        },
    }
}

// ---------------------------------------------------------------------------
// what a list of blocks must be
// ---------------------------------------------------------------------------

/// Some blocks of a store, and no others.
pub open spec fn only(m: BlockMap, ids: Seq<Seq<u8>>) -> BlockMap {
    Map::new(|c: Seq<u8>| m.contains_key(c) && ids.contains(c), |c: Seq<u8>| m[c])
}

/// A store without some blocks.
pub open spec fn less(m: BlockMap, gone: BlockMap) -> BlockMap {
    Map::new(|c: Seq<u8>| m.contains_key(c) && !gone.contains_key(c), |c: Seq<u8>| m[c])
}

/// Are `nodes` the bodies of the blocks `ids` of a store, which settle a question
/// between them, none to spare, each once and in the format's order, and all of them
/// nodes of the tree that is asked about?
pub open spec fn picked(m: BlockMap, q: Asked, ids: Seq<Seq<u8>>, nodes: Seq<Seq<u8>>) -> bool {
    &&& ids.len() == nodes.len()
    &&& ids.no_duplicates()
    &&& forall|i: int|
        0 <= i < ids.len() ==> m.contains_key(#[trigger] ids[i]) && nodes[i] == m[ids[i]]
            && node::parse_spec(nodes[i]) is Ok
    &&& proofs::settled(only(m, ids), q)
    &&& forall|i: int|
        0 <= i < ids.len() ==> !proofs::settled(only(m, ids).remove(#[trigger] ids[i]), q)
    &&& proofs::in_order(nodes)
    &&& ids.len() > 0 ==> ids[0] == root_of(q)
    &&& forall|i: int| 0 <= i < ids.len() ==> align::is_node(m, root_of(q), #[trigger] ids[i])
}

/// Is each node of a list a child of the one before it?
pub open spec fn follows_at(m: BlockMap, way: Seq<(Seq<u8>, HeldView)>, k: int) -> bool {
    exists|i: int|
        0 <= i < way[k].1.node.rows.len() && way[k].1.node.level > 0 && way[k + 1].0
            == store::child_cid(#[trigger] way[k].1.node.rows[i]) && store::opened(m, way[k].1, i)
            == Ok::<HeldView, Fault>(way[k + 1].1)
}

/// Is this a way down from a root, child by child?
pub open spec fn is_way(m: BlockMap, root: Seq<u8>, way: Seq<(Seq<u8>, HeldView)>) -> bool {
    &&& way.len() > 0
    &&& way[0].0 == root
    &&& store::loaded(m, root) == Ok::<NodeView, Fault>(way[0].1.node)
    &&& way[0].1.upper is None
    &&& forall|k: int| 0 <= k && k + 1 < way.len() ==> #[trigger] follows_at(m, way, k)
}

/// Does some way down from a root end at this node, under this id?
#[verifier::opaque]
pub open spec fn reached(m: BlockMap, root: Seq<u8>, id: Seq<u8>, h: HeldView) -> bool {
    exists|way: Seq<(Seq<u8>, HeldView)>| #[trigger] is_way(m, root, way) && way.last() == (id, h)
}

/// The root is reached.
proof fn lemma_reached_root(m: BlockMap, root: Seq<u8>, h: HeldView)
    requires
        store::loaded(m, root) == Ok::<NodeView, Fault>(h.node),
        h.upper is None,
    ensures
        reached(m, root, root, h),
{
    reveal(reached);
    let way = seq![(root, h)];
    assert(is_way(m, root, way));
    assert(way.last() == (root, h));
}

/// So is a child of what is reached.
proof fn lemma_reached_child(
    m: BlockMap,
    root: Seq<u8>,
    id: Seq<u8>,
    h: HeldView,
    i: int,
    c: HeldView,
)
    requires
        reached(m, root, id, h),
        h.node.level > 0,
        0 <= i < h.node.rows.len(),
        store::opened(m, h, i) == Ok::<HeldView, Fault>(c),
    ensures
        reached(m, root, store::child_cid(h.node.rows[i]), c),
{
    reveal(reached);
    let way = choose|way: Seq<(Seq<u8>, HeldView)>| #[trigger]
        is_way(m, root, way) && way.last() == (id, h);
    let cid = store::child_cid(h.node.rows[i]);
    let more = way.push((cid, c));
    assert forall|k: int| 0 <= k && k + 1 < more.len() implies #[trigger] follows_at(m, more, k) by {
        if k + 1 < way.len() {
            assert(follows_at(m, way, k));
            let j = choose|j: int|
                0 <= j < way[k].1.node.rows.len() && way[k].1.node.level > 0 && way[k + 1].0
                    == store::child_cid(#[trigger] way[k].1.node.rows[j]) && store::opened(
                    m,
                    way[k].1,
                    j,
                ) == Ok::<HeldView, Fault>(way[k + 1].1);
            assert(store::child_cid(more[k].1.node.rows[j]) == more[k + 1].0);
        } else {
            assert(store::child_cid(more[k].1.node.rows[i]) == more[k + 1].0);
        }
    }
    assert(is_way(m, root, more));
    assert(more.last() == (cid, c));
}

/// A way down goes through nodes of the tree.
proof fn lemma_way_under(m: BlockMap, way: Seq<(Seq<u8>, HeldView)>)
    requires
        way.len() > 1,
        forall|k: int| 0 <= k && k + 1 < way.len() ==> #[trigger] follows_at(m, way, k),
    ensures
        align::under_node(m, way[0].1, way.last().0),
    decreases way.len(),
{
    assert(follows_at(m, way, 0));
    let h = way[0].1;
    let i = choose|i: int|
        0 <= i < h.node.rows.len() && h.node.level > 0 && way[1].0 == store::child_cid(
            #[trigger] h.node.rows[i],
        ) && store::opened(m, h, i) == Ok::<HeldView, Fault>(way[1].1);
    if way.len() > 2 {
        let rest = way.skip(1);
        assert forall|k: int| 0 <= k && k + 1 < rest.len() implies #[trigger] follows_at(m, rest, k) by {
            assert(follows_at(m, way, k + 1));
            assert(rest[k] == way[k + 1] && rest[k + 1] == way[k + 2]);
        }
        lemma_way_under(m, rest);
        assert(rest.last() == way.last());
    }
    assert(h.node.rows[i] == h.node.rows[i]);
}

/// What is reached is a node of the tree.
proof fn lemma_reached_node(m: BlockMap, root: Seq<u8>, id: Seq<u8>, h: HeldView)
    requires
        reached(m, root, id, h),
    ensures
        align::is_node(m, root, id),
{
    reveal(reached);
    let way = choose|way: Seq<(Seq<u8>, HeldView)>| #[trigger]
        is_way(m, root, way) && way.last() == (id, h);
    if way.len() > 1 {
        lemma_way_under(m, way);
        assert(way[0].1 == HeldView { node: way[0].1.node, upper: None });
    }
}

/// A source without some of its blocks.
struct Pruned<'a, B: Blocks> {
    inner: &'a B,
    gone: &'a MemBlocks,
}

impl<'a, B: Blocks> Blocks for Pruned<'a, B> {
    closed spec fn held(&self) -> BlockMap {
        less(self.inner.held(), self.gone.held())
    }

    fn get(&self, cid: &Cid) -> (r: Option<&[u8]>) {
        if self.gone.get(cid).is_some() {
            None
        } else {
            self.inner.get(cid)
        }
    }
}

/// Does a store without `gone` and without `cid` settle the question?
fn spared<B: Blocks>(blocks: &B, gone: &MemBlocks, cid: &Cid, q: &Question<'_>) -> (r: bool)
    requires
        q@ matches Asked::Page { range, .. } ==> range.max_entries > 0,
        q@ matches Asked::Count { range, .. } ==> aggregate::instruction(range) is None,
    ensures
        r == proofs::settled(less(blocks.held(), gone.held()).remove(cid@), q@),
{
    let rest = Pruned { inner: blocks, gone };
    settles_without(&rest, cid, q)
}

// ---------------------------------------------------------------------------
// picking
// ---------------------------------------------------------------------------

/// What has been picked: the ids, the bodies, and what they open to.
spec fn kept_at(m: BlockMap, cur: BlockMap, q: Asked, ids: Seq<Seq<u8>>, nodes: Seq<Seq<u8>>, ks: Seq<HeldView>, a: int) -> bool {
    &&& cur.contains_key(ids[a])
    &&& nodes[a] == m[ids[a]]
    &&& node::parse_spec(nodes[a]) == Ok::<NodeView, node::NodeError>(ks[a].node)
    &&& !proofs::settled(cur.remove(ids[a]), q)
    &&& ks[a].node.valid()
    &&& store::ends_before(ks[a].node, ks[a].upper)
    &&& reached(m, root_of(q), ids[a], ks[a])
}

/// Are all that were picked in order?
spec fn ranked(ks: Seq<HeldView>) -> bool {
    forall|a: int, b: int|
        0 <= a < b < ks.len() ==> proofs::comes_after((#[trigger] ks[a]).node, (#[trigger] ks[b]).node)
}

/// The state of a walk: `cur` is what is left of the store `m`.
spec fn walk(
    m: BlockMap,
    cur: BlockMap,
    q: Asked,
    ids: Seq<Seq<u8>>,
    nodes: Seq<Seq<u8>>,
    ks: Seq<HeldView>,
) -> bool {
    &&& ids.len() == nodes.len() == ks.len()
    &&& cur.submap_of(m)
    &&& proofs::settled(cur, q)
    &&& forall|a: int| 0 <= a < ids.len() ==> #[trigger] kept_at(m, cur, q, ids, nodes, ks, a)
    &&& ranked(ks)
}

/// Is child `i` of `h` settled: either picked, or not to be opened in what is left?
spec fn done_at(cur: BlockMap, ids: Seq<Seq<u8>>, ks: Seq<HeldView>, h: HeldView, i: int) -> bool {
    match store::opened(cur, h, i) {
        Ok(c) => ks.contains(c) && ids.contains(store::child_cid(h.node.rows[i])),
        Err(_) => true,
    }
}

/// Are the first `n` children of `h` settled?
spec fn done(cur: BlockMap, ids: Seq<Seq<u8>>, ks: Seq<HeldView>, h: HeldView, n: int) -> bool {
    h.node.level > 0 ==> forall|i: int|
        0 <= i < n && i < h.node.rows.len() ==> #[trigger] done_at(cur, ids, ks, h, i)
}

/// Are all children of the first `n` picked nodes settled?
spec fn all_done(cur: BlockMap, ids: Seq<Seq<u8>>, ks: Seq<HeldView>, n: int) -> bool {
    forall|a: int|
        0 <= a < n && a < ks.len() ==> #[trigger] done(
            cur,
            ids,
            ks,
            ks[a],
            ks[a].node.rows.len() as int,
        )
}

/// What opens in less of a store opens alike in all of it.
proof fn lemma_opens_less(m: BlockMap, s: BlockMap, h: HeldView, i: int)
    requires
        s.submap_of(m),
    ensures
        store::opened(s, h, i) is Ok ==> store::opened(m, h, i) == store::opened(s, h, i),
        s.contains_key(store::child_cid(h.node.rows[i])) ==> store::opened(m, h, i)
            == store::opened(s, h, i),
        !s.contains_key(store::child_cid(h.node.rows[i])) ==> store::opened(s, h, i) is Err,
{
    reveal(store::loaded);
    let cid = store::child_cid(h.node.rows[i]);
    if s.contains_key(cid) {
        assert(s.dom().contains(cid) && m.dom().contains(cid));
    }
}

/// Leaving out a block that can be spared keeps the walk.
proof fn lemma_walk_less(
    m: BlockMap,
    cur: BlockMap,
    q: Asked,
    ids: Seq<Seq<u8>>,
    nodes: Seq<Seq<u8>>,
    ks: Seq<HeldView>,
    x: Seq<u8>,
)
    requires
        walk(m, cur, q, ids, nodes, ks),
        proofs::settled(cur.remove(x), q),
    ensures
        walk(m, cur.remove(x), q, ids, nodes, ks),
{
    let now = cur.remove(x);
    assert(now.submap_of(m)) by {
        assert forall|k: Seq<u8>| now.dom().contains(k) implies m.dom().contains(k) && now[k]
            == m[k] by {
            assert(cur.dom().contains(k));
        }
    }
    assert forall|a: int| 0 <= a < ids.len() implies #[trigger] kept_at(
        m,
        now,
        q,
        ids,
        nodes,
        ks,
        a,
    ) by {
        assert(kept_at(m, cur, q, ids, nodes, ks, a));
        let without = now.remove(ids[a]);
        if proofs::settled(without, q) {
            assert(without.submap_of(cur.remove(ids[a])));
            proofs::lemma_settled_stays(without, cur.remove(ids[a]), q);
        }
        assert(ids[a] != x);
    }
}

/// Leaving out a block keeps what is settled.
proof fn lemma_done_less(
    cur: BlockMap,
    now: BlockMap,
    ids: Seq<Seq<u8>>,
    ks: Seq<HeldView>,
    h: HeldView,
    n: int,
)
    requires
        now.submap_of(cur),
        done(cur, ids, ks, h, n),
    ensures
        done(now, ids, ks, h, n),
{
    if h.node.level > 0 {
        assert forall|i: int| 0 <= i < n && i < h.node.rows.len() implies #[trigger] done_at(
            now,
            ids,
            ks,
            h,
            i,
        ) by {
            assert(done_at(cur, ids, ks, h, i));
            lemma_opens_less(cur, now, h, i);
        }
    }
}

/// Picking more keeps what is settled.
proof fn lemma_done_more(
    cur: BlockMap,
    ids: Seq<Seq<u8>>,
    ks: Seq<HeldView>,
    id: Seq<u8>,
    k: HeldView,
    h: HeldView,
    n: int,
)
    requires
        done(cur, ids, ks, h, n),
    ensures
        done(cur, ids.push(id), ks.push(k), h, n),
{
    if h.node.level > 0 {
        assert forall|i: int| 0 <= i < n && i < h.node.rows.len() implies #[trigger] done_at(
            cur,
            ids.push(id),
            ks.push(k),
            h,
            i,
        ) by {
            assert(done_at(cur, ids, ks, h, i));
            if let Ok(c) = store::opened(cur, h, i) {
                lemma_push_contains(ks, k, c);
                lemma_push_contains(ids, id, store::child_cid(h.node.rows[i]));
            }
        }
    }
}

proof fn lemma_push_contains<A>(s: Seq<A>, x: A, y: A)
    requires
        s.contains(y),
    ensures
        s.push(x).contains(y),
{
    let i = choose|i: int| 0 <= i < s.len() && s[i] == y;
    assert(s.push(x)[i] == y);
}

/// Both at once, for every node picked so far.
proof fn lemma_all_done_less(
    cur: BlockMap,
    now: BlockMap,
    ids: Seq<Seq<u8>>,
    ks: Seq<HeldView>,
    n: int,
)
    requires
        now.submap_of(cur),
        all_done(cur, ids, ks, n),
    ensures
        all_done(now, ids, ks, n),
{
    assert forall|a: int| 0 <= a < n && a < ks.len() implies #[trigger] done(
        now,
        ids,
        ks,
        ks[a],
        ks[a].node.rows.len() as int,
    ) by {
        assert(done(cur, ids, ks, ks[a], ks[a].node.rows.len() as int));
        lemma_done_less(cur, now, ids, ks, ks[a], ks[a].node.rows.len() as int);
    }
}

proof fn lemma_all_done_more(
    cur: BlockMap,
    ids: Seq<Seq<u8>>,
    ks: Seq<HeldView>,
    id: Seq<u8>,
    k: HeldView,
    n: int,
)
    requires
        n <= ks.len(),
        all_done(cur, ids, ks, n),
    ensures
        all_done(cur, ids.push(id), ks.push(k), n),
{
    assert forall|a: int| 0 <= a < n && a < ks.push(k).len() implies #[trigger] done(
        cur,
        ids.push(id),
        ks.push(k),
        ks.push(k)[a],
        ks.push(k)[a].node.rows.len() as int,
    ) by {
        assert(done(cur, ids, ks, ks[a], ks[a].node.rows.len() as int));
        lemma_done_more(cur, ids, ks, id, k, ks[a], ks[a].node.rows.len() as int);
    }
}

/// What was picked is there.
proof fn lemma_only_within(
    m: BlockMap,
    cur: BlockMap,
    q: Asked,
    ids: Seq<Seq<u8>>,
    nodes: Seq<Seq<u8>>,
    ks: Seq<HeldView>,
)
    requires
        walk(m, cur, q, ids, nodes, ks),
    ensures
        only(m, ids).submap_of(cur),
{
    let s = only(m, ids);
    assert forall|c: Seq<u8>| #[trigger] s.dom().contains(c) implies cur.dom().contains(c) && s[c]
        == cur[c] by {
        assert(ids.contains(c));
        let i = choose|i: int| 0 <= i < ids.len() && ids[i] == c;
        assert(kept_at(m, cur, q, ids, nodes, ks, i));
        assert(cur.dom().contains(c) && m.dom().contains(c));
    }
}

/// A walk that has gone everywhere has picked what it should.
proof fn lemma_walk_ends(
    m: BlockMap,
    cur: BlockMap,
    q: Asked,
    ids: Seq<Seq<u8>>,
    nodes: Seq<Seq<u8>>,
    ks: Seq<HeldView>,
)
    requires
        walk(m, cur, q, ids, nodes, ks),
        all_done(cur, ids, ks, ks.len() as int),
        ks.len() > 0,
        ids[0] == root_of(q),
        ks[0].upper is None,
    ensures
        picked(m, q, ids, nodes),
{
    let s = only(m, ids);
    let hs = ks.to_set();
    assert forall|i: int| 0 <= i < ids.len() implies m.contains_key(#[trigger] ids[i]) && nodes[i]
        == m[ids[i]] && node::parse_spec(nodes[i]) is Ok by {
        assert(kept_at(m, cur, q, ids, nodes, ks, i));
        assert(cur.dom().contains(ids[i]) && m.dom().contains(ids[i]));
    }
    assert forall|i: int| 0 <= i < ids.len() implies align::is_node(
        m,
        root_of(q),
        #[trigger] ids[i],
    ) by {
        assert(kept_at(m, cur, q, ids, nodes, ks, i));
        lemma_reached_node(m, root_of(q), ids[i], ks[i]);
    }
    lemma_only_within(m, cur, q, ids, nodes, ks);
    assert(alike(cur, s, hs)) by {
        assert forall|h: HeldView, i: int|
            hs.contains(h) && h.node.level > 0 && 0 <= i
                < h.node.rows.len() implies #[trigger] alike_at(cur, s, hs, h, i) by {
            let a = choose|a: int| 0 <= a < ks.len() && ks[a] == h;
            assert(done(cur, ids, ks, ks[a], ks[a].node.rows.len() as int));
            assert(done_at(cur, ids, ks, h, i));
            lemma_opens_less(cur, s, h, i);
            if store::opened(cur, h, i) is Ok {
                let cid = store::child_cid(h.node.rows[i]);
                let j = choose|j: int| 0 <= j < ids.len() && ids[j] == cid;
                assert(m.contains_key(ids[j]));
                assert(s.contains_key(cid));
            }
        }
    }
    assert(rooted_alike(cur, s, hs, root_of(q))) by {
        reveal(store::loaded);
        assert(kept_at(m, cur, q, ids, nodes, ks, 0));
        assert(m.contains_key(ids[0]));
        assert(ids.contains(ids[0]));
        assert(s.contains_key(ids[0]) && s.dom().contains(ids[0]) && cur.dom().contains(ids[0])
            && m.dom().contains(ids[0]));
        assert(ks[0] == HeldView { node: ks[0].node, upper: None });
        assert(ks.contains(ks[0]));
    }
    lemma_settled_alike(cur, s, hs, q);
    assert forall|i: int| 0 <= i < ids.len() implies !proofs::settled(
        s.remove(#[trigger] ids[i]),
        q,
    ) by {
        assert(kept_at(m, cur, q, ids, nodes, ks, i));
        if proofs::settled(s.remove(ids[i]), q) {
            assert(s.remove(ids[i]).submap_of(cur.remove(ids[i]))) by {
                assert forall|c: Seq<u8>| s.remove(ids[i]).dom().contains(c) implies cur.remove(
                    ids[i],
                ).dom().contains(c) && s.remove(ids[i])[c] == cur.remove(ids[i])[c] by {
                    assert(s.dom().contains(c) && cur.dom().contains(c));
                }
            }
            proofs::lemma_settled_stays(s.remove(ids[i]), cur.remove(ids[i]), q);
        }
    }
    assert forall|i: int, j: int| 0 <= i < j < ids.len() implies ids[i] != ids[j] by {
        assert(kept_at(m, cur, q, ids, nodes, ks, i));
        assert(kept_at(m, cur, q, ids, nodes, ks, j));
        assert(proofs::comes_after(ks[i].node, ks[j].node));
        order::lemma_lt_irreflexive(proofs::opening(ks[i].node));
    }
    assert(proofs::in_order(nodes)) by {
        assert forall|i: int| 0 <= i && i + 1 < nodes.len() implies #[trigger] proofs::ordered_at(
            nodes,
            i,
        ) by {
            assert(kept_at(m, cur, q, ids, nodes, ks, i));
            assert(kept_at(m, cur, q, ids, nodes, ks, i + 1));
            assert(proofs::comes_after(ks[i].node, ks[i + 1].node));
        }
    }
}

/// Does all of `next` end by the place of child `i` of `h`?
spec fn marked(next: Seq<HeldView>, h: HeldView, i: int) -> bool {
    forall|k: int| 0 <= k < next.len() ==> #[trigger] mark_at(next[k], h, i)
}

/// Does `c` end by the place of child `i` of `h`; after the last, by the end of `h`?
spec fn mark_at(c: HeldView, h: HeldView, i: int) -> bool {
    if i < h.node.rows.len() {
        c.upper is Some && order::le(c.upper->Some_0, h.node.rows[i].key)
    } else {
        c.upper == h.upper || c.upper is Some && order::le(c.upper->Some_0, h.node.rows.last().key)
    }
}

/// Does each node of a level end before the next begins?
spec fn apart(level: Seq<HeldView>) -> bool {
    forall|a: int, b: int|
        0 <= a < b < level.len() ==> apart_at(#[trigger] level[a], #[trigger] level[b])
}

spec fn apart_at(a: HeldView, b: HeldView) -> bool {
    a.upper is Some && order::le(a.upper->Some_0, proofs::opening(b.node))
}

/// What nodes held open to.
spec fn views_of(v: Seq<Held<'_>>) -> Seq<HeldView> {
    v.map_values(|h: Held<'_>| h@)
}

/// The next child of a branch comes after all that has been picked.
proof fn lemma_child_comes_after(ks: Seq<HeldView>, from: int, h: HeldView, c: HeldView, i: int)
    requires
        0 <= from <= ks.len(),
        forall|a: int| 0 <= a < from ==> (#[trigger] ks[a]).node.level >= h.node.level,
        forall|a: int|
            from <= a < ks.len() ==> (#[trigger] ks[a]).node.level == h.node.level - 1
                && ks[a].node.rows.len() > 0 && ks[a].node.valid() && store::ends_before(
                ks[a].node,
                ks[a].upper,
            ),
        marked(ks.skip(from), h, i),
        0 <= i < h.node.rows.len(),
        store::is_child(h, i, c.node),
        ranked(ks),
        h.node.level > 0,
        c.node.level == h.node.level - 1,
    ensures
        ranked(ks.push(c)),
{
    assert forall|a: int, b: int| 0 <= a < b < ks.push(c).len() implies proofs::comes_after(
        (#[trigger] ks.push(c)[a]).node,
        (#[trigger] ks.push(c)[b]).node,
    ) by {
        if b < ks.len() {
            assert(proofs::comes_after(ks[a].node, ks[b].node));
        } else if a >= from {
            let k = ks[a];
            assert(ks.skip(from)[a - from] == k);
            assert(mark_at(ks.skip(from)[a - from], h, i));
            let last = k.node.rows.last().key;
            if k.node.rows.len() > 1 {
                assert(node::sorted_rows(k.node.rows));
                assert(order::lt(k.node.rows[0].key, k.node.rows[k.node.rows.len() - 1].key));
                order::lemma_lt_trans(proofs::opening(k.node), last, k.upper->Some_0);
            }
            if k.upper->Some_0 != h.node.rows[i].key {
                order::lemma_lt_trans(
                    proofs::opening(k.node),
                    k.upper->Some_0,
                    h.node.rows[i].key,
                );
            }
        }
    }
}

/// Past one child, everything picked so far ends by the next.
proof fn lemma_mark_step(next: Seq<HeldView>, h: HeldView, i: int)
    requires
        marked(next, h, i),
        0 <= i < h.node.rows.len(),
        h.node.valid(),
    ensures
        marked(next, h, i + 1),
{
    assert forall|k: int| 0 <= k < next.len() implies #[trigger] mark_at(next[k], h, i + 1) by {
        assert(mark_at(next[k], h, i));
        if i + 1 < h.node.rows.len() {
            assert(node::sorted_rows(h.node.rows));
            assert(order::lt(h.node.rows[i].key, h.node.rows[i + 1].key));
            order::lemma_le_trans(
                next[k].upper->Some_0,
                h.node.rows[i].key,
                h.node.rows[i + 1].key,
            );
        }
    }
}

/// Past one node of a level, everything picked so far ends by the next.
proof fn lemma_mark_over(next: Seq<HeldView>, h: HeldView, g: HeldView)
    requires
        marked(next, h, h.node.rows.len() as int),
        apart_at(h, g),
        h.node.rows.len() > 0,
        g.node.rows.len() > 0,
        store::ends_before(h.node, h.upper),
    ensures
        marked(next, g, 0),
{
    assert forall|k: int| 0 <= k < next.len() implies #[trigger] mark_at(next[k], g, 0) by {
        assert(mark_at(next[k], h, h.node.rows.len() as int));
        if next[k].upper != h.upper {
            order::lemma_le_trans(
                next[k].upper->Some_0,
                h.node.rows.last().key,
                h.upper->Some_0,
            );
            order::lemma_le_trans(next[k].upper->Some_0, h.upper->Some_0, g.node.rows[0].key);
        }
    }
}

/// A picked child keeps its level apart, and ends by the next child.
proof fn lemma_apart_push(next: Seq<HeldView>, h: HeldView, c: HeldView, i: int)
    requires
        apart(next),
        marked(next, h, i),
        0 <= i < h.node.rows.len(),
        h.node.valid(),
        c.node.rows.len() > 0,
        c.node.rows[0].key == h.node.rows[i].key,
        c.upper == store::child_bound(h, i),
    ensures
        apart(next.push(c)),
        marked(next.push(c), h, i + 1),
{
    lemma_mark_step(next, h, i);
    let all = next.push(c);
    assert forall|k: int| 0 <= k < all.len() implies #[trigger] mark_at(all[k], h, i + 1) by {
        if k < next.len() {
            assert(mark_at(next[k], h, i + 1));
        }
    }
    assert forall|a: int, b: int| 0 <= a < b < all.len() implies apart_at(
        #[trigger] all[a],
        #[trigger] all[b],
    ) by {
        if b < next.len() {
            assert(apart_at(next[a], next[b]));
        } else {
            assert(mark_at(next[a], h, i));
        }
    }
}

/// The walk at the nodes of one level: those before `a` are done, and what is picked of
/// the level below, from `from` on, is `next`.
spec fn at_node(
    m: BlockMap,
    cur: BlockMap,
    q: Asked,
    ids: Seq<Seq<u8>>,
    nodes: Seq<Seq<u8>>,
    ks: Seq<HeldView>,
    a: int,
    from: int,
    next: Seq<HeldView>,
    level: int,
) -> bool {
    &&& walk(m, cur, q, ids, nodes, ks)
    &&& all_done(cur, ids, ks, a)
    &&& 0 <= a <= from <= ks.len()
    &&& ks.skip(from) == next
    &&& apart(next)
    &&& level > 0
    &&& forall|b: int| 0 <= b < from ==> (#[trigger] ks[b]).node.level >= level
    &&& forall|b: int|
        from <= b < ks.len() ==> (#[trigger] ks[b]).node.level == level - 1
            && ks[b].node.rows.len() > 0
}

/// Leaving out a block that can be spared.
proof fn lemma_at_node_less(
    m: BlockMap,
    cur: BlockMap,
    q: Asked,
    ids: Seq<Seq<u8>>,
    nodes: Seq<Seq<u8>>,
    ks: Seq<HeldView>,
    a: int,
    from: int,
    next: Seq<HeldView>,
    level: int,
    x: Seq<u8>,
)
    requires
        at_node(m, cur, q, ids, nodes, ks, a, from, next, level),
        proofs::settled(cur.remove(x), q),
    ensures
        at_node(m, cur.remove(x), q, ids, nodes, ks, a, from, next, level),
{
    lemma_walk_less(m, cur, q, ids, nodes, ks, x);
    lemma_all_done_less(cur, cur.remove(x), ids, ks, a);
}

/// Picking a child.
proof fn lemma_at_node_more(
    m: BlockMap,
    cur: BlockMap,
    q: Asked,
    ids: Seq<Seq<u8>>,
    nodes: Seq<Seq<u8>>,
    ks: Seq<HeldView>,
    a: int,
    from: int,
    next: Seq<HeldView>,
    h: HeldView,
    i: int,
    c: HeldView,
)
    requires
        at_node(m, cur, q, ids, nodes, ks, a, from, next, h.node.level as int),
        a < from,
        ks[a] == h,
        0 <= i < h.node.rows.len(),
        marked(next, h, i),
        store::opened(cur, h, i) == Ok::<HeldView, Fault>(c),
        !proofs::settled(cur.remove(store::child_cid(h.node.rows[i])), q),
    ensures
        ({
            let cid = store::child_cid(h.node.rows[i]);
            &&& at_node(
                m,
                cur,
                q,
                ids.push(cid),
                nodes.push(m[cid]),
                ks.push(c),
                a,
                from,
                next.push(c),
                h.node.level as int,
            )
            &&& marked(next.push(c), h, i + 1)
        }),
{
    let cid = store::child_cid(h.node.rows[i]);
    let ids2 = ids.push(cid);
    let nodes2 = nodes.push(m[cid]);
    let ks2 = ks.push(c);
    assert(kept_at(m, cur, q, ids, nodes, ks, a));
    tree::lemma_loaded(cur, cid);
    assert(cur.contains_key(cid) && node::parse_spec(cur[cid]) == Ok::<NodeView, node::NodeError>(
        c.node,
    )) by {
        reveal(store::loaded);
    }
    assert(cur.dom().contains(cid) && m.dom().contains(cid));
    lemma_opens_less(m, cur, h, i);
    lemma_reached_child(m, root_of(q), ids[a], h, i, c);
    assert forall|b: int| from <= b < ks.len() implies (#[trigger] ks[b]).node.level
        == h.node.level - 1 && ks[b].node.rows.len() > 0 && ks[b].node.valid()
        && store::ends_before(ks[b].node, ks[b].upper) by {
        assert(kept_at(m, cur, q, ids, nodes, ks, b));
    }
    lemma_child_comes_after(ks, from, h, c, i);
    assert forall|b: int| 0 <= b < ids2.len() implies #[trigger] kept_at(
        m,
        cur,
        q,
        ids2,
        nodes2,
        ks2,
        b,
    ) by {
        if b < ids.len() {
            assert(kept_at(m, cur, q, ids, nodes, ks, b));
        }
    }
    lemma_all_done_more(cur, ids, ks, cid, c, a);
    lemma_apart_push(next, h, c, i);
    assert(ks2.skip(from) =~= next.push(c));
}

/// Pick among the children of one node.
#[verifier::rlimit(40)]
fn pick_children<'a, B: Blocks>(
    blocks: &'a B,
    q: &Question<'_>,
    h: &Held<'a>,
    gone: &mut MemBlocks,
    ids: &mut Vec<Cid>,
    bodies: &mut Vec<Vec<u8>>,
    next: &mut Vec<Held<'a>>,
    Ghost(ks): Ghost<Seq<HeldView>>,
    Ghost(a): Ghost<int>,
    Ghost(from): Ghost<int>,
) -> (out: Ghost<Seq<HeldView>>)
    requires
        q@ matches Asked::Page { range, .. } ==> range.max_entries > 0,
        q@ matches Asked::Count { range, .. } ==> aggregate::instruction(range) is None,
        at_node(
            blocks.held(),
            less(blocks.held(), old(gone).held()),
            q@,
            node::cids_of(old(ids)@),
            seqs::views(old(bodies)@),
            ks,
            a,
            from,
            views_of(old(next)@),
            h@.node.level as int,
        ),
        a < from,
        ks[a] == h@,
        marked(views_of(old(next)@), h@, 0),
    ensures
        at_node(
            blocks.held(),
            less(blocks.held(), final(gone).held()),
            q@,
            node::cids_of(final(ids)@),
            seqs::views(final(bodies)@),
            out@,
            a + 1,
            from,
            views_of(final(next)@),
            h@.node.level as int,
        ),
        marked(views_of(final(next)@), h@, h@.node.rows.len() as int),
        out@.take(from) == ks.take(from),
        node::cids_of(final(ids)@).take(from) == node::cids_of(old(ids)@).take(from),
{
    let ghost m = blocks.held();
    let ghost hv = h@;
    let ghost mut cur = less(m, gone.held());
    let ghost mut kv = ks;
    let ghost ids0 = node::cids_of(ids@);
    let n = h.node().len();
    let mut i: usize = 0;
    while i < n
        invariant
            i <= n,
            n == hv.node.rows.len(),
            hv == h@,
            m == blocks.held(),
            cur == less(m, gone.held()),
            q@ matches Asked::Page { range, .. } ==> range.max_entries > 0,
            q@ matches Asked::Count { range, .. } ==> aggregate::instruction(range) is None,
            at_node(
                m,
                cur,
                q@,
                node::cids_of(ids@),
                seqs::views(bodies@),
                kv,
                a,
                from,
                views_of(next@),
                hv.node.level as int,
            ),
            0 <= a < from,
            kv[a] == hv,
            done(cur, node::cids_of(ids@), kv, hv, i as int),
            marked(views_of(next@), hv, i as int),
            kv.take(from) == ks.take(from),
            from <= ids0.len(),
            node::cids_of(ids@).take(from) == ids0.take(from),
        decreases n - i,
    {
        let (cid, _) = h.node().child(i);
        let ghost idv = node::cids_of(ids@);
        let ghost bv = seqs::views(bodies@);
        let ghost nv = views_of(next@);
        proof {
            assert(kept_at(m, cur, q@, idv, bv, kv, a));
            lemma_opens_less(m, cur, hv, i as int);
        }
        let mut keep: Option<Held<'a>> = None;
        if gone.get(&cid).is_none() {
            match h.open(blocks, i) {
                Err(_) => {},
                Ok(c) => {
                    assert(cur.contains_key(cid@)) by {
                        reveal(store::loaded);
                    }
                    if spared(blocks, gone, &cid, q) {
                        gone.insert(cid, &[]);
                        proof {
                            let was = cur;
                            assert(less(m, gone.held()) =~= was.remove(cid@));
                            cur = was.remove(cid@);
                            lemma_at_node_less(
                                m,
                                was,
                                q@,
                                idv,
                                bv,
                                kv,
                                a,
                                from,
                                nv,
                                hv.node.level as int,
                                cid@,
                            );
                            assert(cur.submap_of(was));
                            lemma_done_less(was, cur, idv, kv, hv, i as int);
                            lemma_opens_less(m, cur, hv, i as int);
                        }
                    } else {
                        keep = Some(c);
                    }
                },
            }
        }
        match keep {
            None => {
                proof {
                    assert(store::opened(cur, hv, i as int) is Err);
                    assert(done_at(cur, idv, kv, hv, i as int));
                    lemma_mark_step(nv, hv, i as int);
                }
            },
            Some(c) => {
                let body = match blocks.get(&cid) {
                    Some(b) => vstd::slice::slice_to_vec(b),
                    None => Vec::new(),
                };
                proof {
                    lemma_at_node_more(m, cur, q@, idv, bv, kv, a, from, nv, hv, i as int, c@);
                    lemma_done_more(cur, idv, kv, cid@, c@, hv, i as int);
                    assert(cur.dom().contains(cid@) && m.dom().contains(cid@));
                }
                ids.push(cid);
                bodies.push(body);
                next.push(c);
                proof {
                    let was = kv;
                    kv = was.push(c@);
                    assert(node::cids_of(ids@) =~= idv.push(cid@));
                    assert(seqs::views(bodies@) =~= bv.push(m[cid@]));
                    assert(views_of(next@) =~= nv.push(c@));
                    assert(kv[was.len() as int] == c@);
                    assert(node::cids_of(ids@)[idv.len() as int] == cid@);
                    assert(done_at(cur, node::cids_of(ids@), kv, hv, i as int));
                    assert(kv.take(from) =~= was.take(from));
                    assert(node::cids_of(ids@).take(from) =~= idv.take(from));
                }
            },
        }
        i = i + 1;
    }
    proof {
        let idv = node::cids_of(ids@);
        assert(all_done(cur, idv, kv, a + 1)) by {
            assert forall|b: int| 0 <= b < a + 1 && b < kv.len() implies #[trigger] done(
                cur,
                idv,
                kv,
                kv[b],
                kv[b].node.rows.len() as int,
            ) by {
                if b < a {
                    assert(all_done(cur, idv, kv, a));
                }
            }
        }
    }
    Ghost(kv)
}

/// A store that cannot begin a tree is no better than one without its root.
proof fn lemma_rootless(m: BlockMap, s: BlockMap, q: Asked)
    requires
        proofs::settled(m, q),
        store::loaded(m, root_of(q)) is Err,
        store::loaded(s, root_of(q)) is Err,
    ensures
        proofs::settled(s, q),
{
    lemma_settled_alike(m, s, Set::empty(), q);
}

/// Between two levels: the nodes of the current one, `frontier`, are the last picked.
spec fn at_level(
    m: BlockMap,
    cur: BlockMap,
    q: Asked,
    ids: Seq<Seq<u8>>,
    nodes: Seq<Seq<u8>>,
    ks: Seq<HeldView>,
    start: int,
    frontier: Seq<HeldView>,
    level: int,
) -> bool {
    &&& walk(m, cur, q, ids, nodes, ks)
    &&& all_done(cur, ids, ks, start)
    &&& 0 <= start <= ks.len()
    &&& ks.skip(start) == frontier
    &&& apart(frontier)
    &&& ks.len() > 0
    &&& ids[0] == root_of(q)
    &&& ks[0].upper is None
    &&& forall|b: int| 0 <= b < ks.len() ==> (#[trigger] ks[b]).node.level >= level
    &&& forall|b: int| start <= b < ks.len() ==> (#[trigger] ks[b]).node.level == level
}

/// Pick among the children of a whole level.
#[verifier::rlimit(40)]
fn pick_level<'a, B: Blocks>(
    blocks: &'a B,
    q: &Question<'_>,
    frontier: &Vec<Held<'a>>,
    gone: &mut MemBlocks,
    ids: &mut Vec<Cid>,
    bodies: &mut Vec<Vec<u8>>,
    Ghost(ks): Ghost<Seq<HeldView>>,
    Ghost(start): Ghost<int>,
    Ghost(level): Ghost<int>,
) -> (out: (Vec<Held<'a>>, Ghost<Seq<HeldView>>))
    requires
        q@ matches Asked::Page { range, .. } ==> range.max_entries > 0,
        q@ matches Asked::Count { range, .. } ==> aggregate::instruction(range) is None,
        level > 0,
        at_level(
            blocks.held(),
            less(blocks.held(), old(gone).held()),
            q@,
            node::cids_of(old(ids)@),
            seqs::views(old(bodies)@),
            ks,
            start,
            views_of(frontier@),
            level,
        ),
    ensures
        at_level(
            blocks.held(),
            less(blocks.held(), final(gone).held()),
            q@,
            node::cids_of(final(ids)@),
            seqs::views(final(bodies)@),
            out.1@,
            ks.len() as int,
            views_of(out.0@),
            level - 1,
        ),
{
    let ghost m = blocks.held();
    let ghost fv = views_of(frontier@);
    let ghost from = ks.len() as int;
    let ghost ids0 = node::cids_of(ids@);
    let ghost mut kv = ks;
    let mut next: Vec<Held<'a>> = Vec::new();
    proof {
        assert(views_of(next@) =~= Seq::<HeldView>::empty());
        assert(ks.skip(from) =~= Seq::<HeldView>::empty());
    }
    let mut j: usize = 0;
    while j < frontier.len()
        invariant
            j <= frontier@.len(),
            fv == views_of(frontier@),
            m == blocks.held(),
            from == ks.len(),
            start + fv.len() == from,
            0 <= start,
            ks.skip(start) == fv,
            ids0.len() == from,
            apart(fv),
            level > 0,
            forall|b: int| start <= b < ks.len() ==> (#[trigger] ks[b]).node.level == level,
            q@ matches Asked::Page { range, .. } ==> range.max_entries > 0,
            q@ matches Asked::Count { range, .. } ==> aggregate::instruction(range) is None,
            at_node(
                m,
                less(m, gone.held()),
                q@,
                node::cids_of(ids@),
                seqs::views(bodies@),
                kv,
                start + j,
                from,
                views_of(next@),
                level,
            ),
            j < fv.len() ==> marked(views_of(next@), fv[j as int], 0),
            kv.take(from) == ks,
            node::cids_of(ids@).take(from) == ids0,
        decreases frontier@.len() - j,
    {
        let h = &frontier[j];
        let ghost a = start + j;
        proof {
            assert(fv[j as int] == h@);
            assert(ks.skip(start)[j as int] == ks[a]);
            assert(kv[a] == kv.take(from)[a]);
        }
        let out = pick_children(
            blocks,
            q,
            h,
            gone,
            ids,
            bodies,
            &mut next,
            Ghost(kv),
            Ghost(a),
            Ghost(from),
        );
        proof {
            kv = out@;
            let cur = less(m, gone.held());
            let idv = node::cids_of(ids@);
            let bv = seqs::views(bodies@);
            assert(kv[a] == kv.take(from)[a]);
            assert(kept_at(m, cur, q@, idv, bv, kv, a));
            if j + 1 < fv.len() {
                let g = fv[j + 1];
                assert(ks.skip(start)[j + 1] == ks[a + 1]);
                assert(kv[a + 1] == kv.take(from)[a + 1]);
                assert(kept_at(m, cur, q@, idv, bv, kv, a + 1));
                assert(apart_at(fv[j as int], g));
                lemma_mark_over(views_of(next@), h@, g);
            }
        }
        j = j + 1;
    }
    proof {
        assert(kv[0] == kv.take(from)[0]);
        assert(node::cids_of(ids@)[0] == node::cids_of(ids@).take(from)[0]);
    }
    (next, Ghost(kv))
}

/// The bodies of the blocks that a question hangs on, in the format's order. The store
/// must settle the question.
pub fn pick<B: Blocks>(blocks: &B, root: &Cid, q: &Question<'_>) -> (nodes: Vec<Vec<u8>>)
    requires
        q@ matches Asked::Page { range, .. } ==> range.max_entries > 0,
        q@ matches Asked::Count { range, .. } ==> aggregate::instruction(range) is None,
        root_of(q@) == root@,
        proofs::settled(blocks.held(), q@),
    ensures
        exists|ids: Seq<Seq<u8>>| #[trigger]
            picked(blocks.held(), q@, ids, seqs::views(nodes@)),
{
    let ghost m = blocks.held();
    let mut gone = MemBlocks::new();
    let mut bodies: Vec<Vec<u8>> = Vec::new();
    assert(less(m, gone.held()) =~= m);
    if spared(blocks, &gone, root, q) {
        proof {
            let none = Seq::<Seq<u8>>::empty();
            assert(seqs::views(bodies@) =~= none);
            assert(store::loaded(m.remove(root@), root@) is Err && store::loaded(
                only(m, none),
                root@,
            ) is Err) by {
                reveal(store::loaded);
            }
            lemma_rootless(m.remove(root@), only(m, none), q@);
            assert(picked(m, q@, none, seqs::views(bodies@)));
        }
        return bodies;
    }
    let top = match Held::root(blocks, root) {
        Ok(h) => h,
        Err(_) => {
            proof {
                assert(store::loaded(m.remove(root@), root@) is Err) by {
                    reveal(store::loaded);
                }
                lemma_rootless(m, m.remove(root@), q@);
            }
            return bodies;
        },
    };
    let mut ids: Vec<Cid> = Vec::new();
    match blocks.get(root) {
        Some(b) => bodies.push(vstd::slice::slice_to_vec(b)),
        None => {
            assert(!(store::loaded(m, root@) is Ok)) by {
                reveal(store::loaded);
            }
        },
    }
    ids.push(*root);
    let mut level: u8 = top.node().level();
    let mut frontier: Vec<Held<'_>> = Vec::new();
    let ghost mut ks = seq![top@];
    let ghost mut start = 0int;
    frontier.push(top);
    proof {
        tree::lemma_loaded(m, root@);
        assert(node::cids_of(ids@) =~= seq![root@]);
        assert(m.contains_key(root@) && node::parse_spec(m[root@]) == Ok::<
            NodeView,
            node::NodeError,
        >(ks[0].node)) by {
            reveal(store::loaded);
        }
        assert(seqs::views(bodies@) =~= seq![m[root@]]);
        lemma_reached_root(m, root@, ks[0]);
        assert(views_of(frontier@) =~= ks);
        assert(ks.skip(0) =~= ks);
        assert forall|a: int| 0 <= a < 1 implies #[trigger] kept_at(
            m,
            m,
            q@,
            node::cids_of(ids@),
            seqs::views(bodies@),
            ks,
            a,
        ) by {}
        assert(m.submap_of(m));
    }
    while level > 0 && frontier.len() > 0
        invariant
            m == blocks.held(),
            q@ matches Asked::Page { range, .. } ==> range.max_entries > 0,
            q@ matches Asked::Count { range, .. } ==> aggregate::instruction(range) is None,
            at_level(
                m,
                less(m, gone.held()),
                q@,
                node::cids_of(ids@),
                seqs::views(bodies@),
                ks,
                start,
                views_of(frontier@),
                level as int,
            ),
        decreases level,
    {
        let ghost was = ks;
        let (next, out) = pick_level(
            blocks,
            q,
            &frontier,
            &mut gone,
            &mut ids,
            &mut bodies,
            Ghost(ks),
            Ghost(start),
            Ghost(level as int),
        );
        frontier = next;
        level = level - 1;
        proof {
            start = was.len() as int;
            ks = out@;
        }
    }
    proof {
        let cur = less(m, gone.held());
        let idv = node::cids_of(ids@);
        let bv = seqs::views(bodies@);
        assert(all_done(cur, idv, ks, ks.len() as int)) by {
            assert forall|a: int| 0 <= a < ks.len() implies #[trigger] done(
                cur,
                idv,
                ks,
                ks[a],
                ks[a].node.rows.len() as int,
            ) by {
                if a < start {
                    assert(all_done(cur, idv, ks, start));
                } else {
                    assert(ks.skip(start).len() == views_of(frontier@).len());
                    assert(ks[a].node.level == level);
                }
            }
        }
        lemma_walk_ends(m, cur, q@, idv, bv, ks);
    }
    bodies
}

} // verus!
