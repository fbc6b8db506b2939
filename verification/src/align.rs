//! Which nodes two trees share, and where two positions in them stand.
//!
//! A merge of two trees keeps its two positions in line: of the keys that both trees
//! hold, those ahead of one position are those ahead of the other. So when one side is
//! opened at a node, that node is no node of the other tree: the other position would
//! stand on it, or above it, and a comparison of ids would have found it.

use crate::cursor;
use crate::cursor::StepView;
use crate::diff;
use crate::diff::Difference;
use crate::node::NodeView;
use crate::order;
use crate::range;
use crate::range::RangeView;
use crate::slots;
use crate::slots::SlotView;
use crate::store;
use crate::store::{BlockMap, Fault, HeldView};
use crate::tree;
use crate::tree::Item;
use vstd::prelude::*;

verus! {

// ---------------------------------------------------------------------------
// the nodes of a tree
// ---------------------------------------------------------------------------

/// Is this the id of a node under a node?
pub open spec fn under_node(w: BlockMap, h: HeldView, id: Seq<u8>) -> bool
    decreases h.node.level as nat,
{
    h.node.level > 0 && exists|i: int|
        0 <= i < h.node.rows.len() && (store::child_cid(#[trigger] h.node.rows[i]) == id
            || match store::opened(w, h, i) {
            Ok(c) => c.node.level < h.node.level && under_node(w, c, id),
            Err(_) => false,
        })
}

/// Is this the id of child `i` of a node, or of a node under that child?
pub open spec fn under_child(w: BlockMap, h: HeldView, i: int, id: Seq<u8>) -> bool {
    store::child_cid(h.node.rows[i]) == id || match store::opened(w, h, i) {
        Ok(c) => c.node.level < h.node.level && under_node(w, c, id),
        Err(_) => false,
    }
}

/// Is this the id of a node of a tree?
pub open spec fn is_node(w: BlockMap, root: Seq<u8>, id: Seq<u8>) -> bool {
    id == root || match store::loaded(w, root) {
        Ok(n) => under_node(w, HeldView { node: n, upper: None }, id),
        Err(_) => false,
    }
}

/// Does a node begin in a range?
pub open spec fn begins_in(w: BlockMap, id: Seq<u8>, r: RangeView) -> bool {
    store::loaded(w, id) matches Ok(n) && n.rows.len() > 0 && range::within(n.rows[0].key, r)
}

/// Is this the id of a node of both trees that begins in the range?
pub open spec fn shared(
    w: BlockMap,
    a: Seq<u8>,
    b: Seq<u8>,
    r: RangeView,
    id: Seq<u8>,
) -> bool {
    is_node(w, a, id) && is_node(w, b, id) && begins_in(w, id, r)
}

/// Does a range leave nothing out?
pub open spec fn unbounded(r: RangeView) -> bool {
    r.lo is Open && r.hi is Open
}

/// Is there an item with this key?
pub open spec fn keyed(its: Seq<Item>, k: Seq<u8>) -> bool {
    exists|i: int| 0 <= i < its.len() && (#[trigger] its[i]).key == k
}

/// Keys of two runs that ascend.
proof fn lemma_has_split(x: Seq<Item>, y: Seq<Item>, k: Seq<u8>)
    ensures
        keyed(x + y, k) <==> keyed(x, k) || keyed(y, k),
        tree::ascending(x + y) ==> !(keyed(x, k) && keyed(y, k)),
{
    let all = x + y;
    if keyed(all, k) {
        let i = choose|i: int| 0 <= i < all.len() && (#[trigger] all[i]).key == k;
        if i < x.len() {
            assert(x[i].key == k);
        } else {
            assert(y[i - x.len()].key == k);
        }
    }
    if keyed(x, k) {
        let i = choose|i: int| 0 <= i < x.len() && (#[trigger] x[i]).key == k;
        assert(all[i].key == k);
    }
    if keyed(y, k) {
        let j = choose|j: int| 0 <= j < y.len() && (#[trigger] y[j]).key == k;
        assert(all[j + x.len()].key == k);
    }
    if keyed(x, k) && keyed(y, k) && tree::ascending(all) {
        let i = choose|i: int| 0 <= i < x.len() && (#[trigger] x[i]).key == k;
        let j = choose|j: int| 0 <= j < y.len() && (#[trigger] y[j]).key == k;
        assert(order::lt(all[i].key, all[j + x.len()].key));
        order::lemma_lt_irreflexive(k);
    }
}

/// The rows of a steady node ascend, and end before its bound.
proof fn lemma_rows(h: HeldView, i: int, j: int)
    requires
        tree::steady(h),
        0 <= i <= j < h.node.rows.len(),
    ensures
        order::le(h.node.rows[i].key, h.node.rows[j].key),
        i < j ==> order::lt(h.node.rows[i].key, h.node.rows[j].key),
        tree::under(h.node.rows[j].key, h.upper),
{
    reveal(tree::steady);
    let rows = h.node.rows;
    if i < j {
        assert(order::lt(rows[i].key, rows[j].key));
    }
    let n = rows.len() - 1;
    if h.upper is Some && j < n {
        assert(order::lt(rows[j].key, rows[n].key));
        order::lemma_lt_trans(rows[j].key, rows[n].key, h.upper->Some_0);
    }
}

/// What is before a child's bound is before the node's.
proof fn lemma_bound(h: HeldView, i: int, k: Seq<u8>)
    requires
        tree::steady(h),
        0 <= i < h.node.rows.len(),
        tree::under(k, store::child_bound(h, i)),
    ensures
        tree::under(k, h.upper),
{
    if i + 1 < h.node.rows.len() {
        lemma_rows(h, i + 1, i + 1);
        if h.upper is Some {
            order::lemma_lt_trans(k, h.node.rows[i + 1].key, h.upper->Some_0);
        }
    }
}

/// A key lies under one child only.
proof fn lemma_one_child(h: HeldView, i: int, j: int, k: Seq<u8>)
    requires
        tree::steady(h),
        0 <= i < h.node.rows.len(),
        0 <= j < h.node.rows.len(),
        order::le(h.node.rows[i].key, k),
        tree::under(k, store::child_bound(h, i)),
        order::le(h.node.rows[j].key, k),
        tree::under(k, store::child_bound(h, j)),
    ensures
        i == j,
{
    if i < j {
        lemma_apart(h, i, j, k);
    } else if j < i {
        lemma_apart(h, j, i, k);
    }
}

/// A key before the bound of a child is not under a later one.
proof fn lemma_apart(h: HeldView, i: int, j: int, k: Seq<u8>)
    requires
        tree::steady(h),
        0 <= i < j < h.node.rows.len(),
        tree::under(k, store::child_bound(h, i)),
    ensures
        !order::le(h.node.rows[j].key, k),
{
    let rows = h.node.rows;
    lemma_rows(h, i + 1, j);
    order::lemma_le_trans(rows[i + 1].key, rows[j].key, k);
    order::lemma_le_trans(rows[i + 1].key, k, k);
    assert(order::lt(k, rows[i + 1].key));
}

/// The entries of a slot are among those of the node.
proof fn lemma_part(w: BlockMap, h: HeldView, t: int, i: int)
    requires
        0 <= t <= i < h.node.rows.len(),
    ensures
        slots::no_gaps(slots::items_from(w, h, t)) ==> slots::no_gaps(slots::items_at(w, h, i)),
        forall|k: Seq<u8>|
            keyed(slots::items_at(w, h, i), k) ==> #[trigger] keyed(slots::items_from(w, h, t), k),
    decreases i - t,
{
    let x = slots::items_at(w, h, t);
    let y = slots::items_from(w, h, t + 1);
    slots::lemma_gaps_join(x, y);
    if t < i {
        lemma_part(w, h, t + 1, i);
    }
    assert forall|k: Seq<u8>| keyed(slots::items_at(w, h, i), k) implies #[trigger] keyed(
        slots::items_from(w, h, t),
        k,
    ) by {
        lemma_has_split(x, y, k);
        if t < i {
            assert(keyed(slots::items_from(w, h, t + 1), k));
        }
    }
}

/// A child, where there are no gaps.
proof fn lemma_child(w: BlockMap, h: HeldView, i: int)
    requires
        tree::steady(h),
        h.node.level > 0,
        0 <= i < h.node.rows.len(),
        slots::no_gaps(slots::items_at(w, h, i)),
    ensures
        store::opened(w, h, i) is Ok,
        ({
            let c = store::opened(w, h, i)->Ok_0;
            &&& store::loaded(w, store::child_cid(h.node.rows[i])) == Ok::<NodeView, Fault>(c.node)
            &&& tree::steady(c)
            &&& c.node.rows.len() > 0
            &&& c.node.rows[0].key == h.node.rows[i].key
            &&& c.node.level == h.node.level - 1
            &&& c.upper == store::child_bound(h, i)
            &&& slots::items_at(w, h, i) == slots::items_from(w, c, 0)
            &&& slots::no_gaps(slots::items_from(w, c, 0))
        }),
        keyed(slots::items_at(w, h, i), h.node.rows[i].key),
{
    slots::lemma_at_opens(w, h, i);
    tree::lemma_loaded(w, store::child_cid(h.node.rows[i]));
    let c = store::opened(w, h, i)->Ok_0;
    assert(tree::steady(c)) by {
        reveal(tree::steady);
    }
    let s = tree::child_slot(w, h, i);
    let bound = store::child_bound(h, i);
    tree::lemma_child_sound(w, h, i);
    tree::lemma_child_under(h, i);
    tree::lemma_level_slots(w, s, bound, 0);
    tree::lemma_flat_span(tree::level_slots(w, s, 0), s.key, bound);
    assert(slots::items_at(w, h, i)[0].key == h.node.rows[i].key);
}

/// A node at or under a child: where it begins, and how deep it is.
proof fn lemma_under_child(w: BlockMap, h: HeldView, i: int, id: Seq<u8>)
    requires
        tree::steady(h),
        h.node.level > 0,
        0 <= i < h.node.rows.len(),
        slots::no_gaps(slots::items_at(w, h, i)),
        under_child(w, h, i, id),
    ensures
        store::loaded(w, id) is Ok,
        ({
            let n = store::loaded(w, id)->Ok_0;
            &&& n.rows.len() > 0
            &&& n.level < h.node.level
            &&& n.level == h.node.level - 1 ==> id == store::child_cid(h.node.rows[i])
            &&& order::le(h.node.rows[i].key, n.rows[0].key)
            &&& tree::under(n.rows[0].key, store::child_bound(h, i))
            &&& keyed(slots::items_at(w, h, i), n.rows[0].key)
        }),
    decreases h.node.level,
{
    lemma_child(w, h, i);
    tree::lemma_child_under(h, i);
    let c = store::opened(w, h, i)->Ok_0;
    if store::child_cid(h.node.rows[i]) != id {
        let j = choose|j: int|
            0 <= j < c.node.rows.len() && (store::child_cid(#[trigger] c.node.rows[j]) == id
                || match store::opened(w, c, j) {
                Ok(d) => d.node.level < c.node.level && under_node(w, d, id),
                Err(_) => false,
            });
        assert(under_child(w, c, j, id));
        lemma_part(w, c, 0, j);
        lemma_under_child(w, c, j, id);
        let k = store::loaded(w, id)->Ok_0.rows[0].key;
        lemma_rows(c, 0, j);
        order::lemma_le_trans(h.node.rows[i].key, c.node.rows[j].key, k);
        lemma_bound(c, j, k);
        assert(keyed(slots::items_from(w, c, 0), k));
    }
}

/// A node under a node is one at or under a child.
proof fn lemma_some_child(w: BlockMap, h: HeldView, id: Seq<u8>) -> (i: int)
    requires
        under_node(w, h, id),
    ensures
        h.node.level > 0,
        0 <= i < h.node.rows.len(),
        under_child(w, h, i, id),
{
    let i = choose|i: int|
        0 <= i < h.node.rows.len() && (store::child_cid(#[trigger] h.node.rows[i]) == id
            || match store::opened(w, h, i) {
            Ok(c) => c.node.level < h.node.level && under_node(w, c, id),
            Err(_) => false,
        });
    i
}

/// One at or under a child is under the node.
proof fn lemma_child_of(w: BlockMap, h: HeldView, i: int, id: Seq<u8>)
    requires
        h.node.level > 0,
        0 <= i < h.node.rows.len(),
        under_child(w, h, i, id),
    ensures
        under_node(w, h, id),
{
    assert(store::child_cid(h.node.rows[i]) == id || match store::opened(w, h, i) {
        Ok(c) => c.node.level < h.node.level && under_node(w, c, id),
        Err(_) => false,
    });
}

/// The root of a tree that is whole.
proof fn lemma_root(w: BlockMap, root: Seq<u8>)
    requires
        tree::complete(w, root),
    ensures
        store::loaded(w, root) is Ok,
        ({
            let h = HeldView { node: store::loaded(w, root)->Ok_0, upper: None };
            &&& tree::steady(h)
            &&& tree::items(w, root) == slots::items_from(w, h, 0)
            &&& slots::no_gaps(slots::items_from(w, h, 0))
            &&& h.node.rows.len() > 0 ==> keyed(tree::items(w, root), h.node.rows[0].key)
            &&& h.node.rows.len() > 0 <==> tree::items(w, root).len() > 0
        }),
{
    if store::loaded(w, root) is Err {
        diff::lemma_gap_root(w, root);
    }
    tree::lemma_loaded(w, root);
    let h = HeldView { node: store::loaded(w, root)->Ok_0, upper: None };
    assert(tree::steady(h)) by {
        reveal(tree::steady);
    }
    let s = tree::root_slot(w, root);
    slots::lemma_all_items(w, s, h);
    tree::lemma_tree_slots(w, root, 0);
    if h.node.rows.len() > 0 {
        tree::lemma_flat_span(tree::leaves(w, root), s.key, None);
        assert(tree::items(w, root)[0].key == s.key);
    } else {
        assert(slots::items_from(w, h, 0) =~= Seq::<Item>::empty());
    }
}

/// A node of a tree that is whole begins at a key of the tree.
proof fn lemma_node_begins(w: BlockMap, root: Seq<u8>, id: Seq<u8>)
    requires
        tree::complete(w, root),
        is_node(w, root, id),
        tree::items(w, root).len() > 0 || id != root,
    ensures
        store::loaded(w, id) is Ok,
        store::loaded(w, id)->Ok_0.rows.len() > 0,
        keyed(tree::items(w, root), store::loaded(w, id)->Ok_0.rows[0].key),
{
    lemma_root(w, root);
    if id != root {
        let h = HeldView { node: store::loaded(w, root)->Ok_0, upper: None };
        let i = lemma_some_child(w, h, id);
        lemma_part(w, h, 0, i);
        lemma_under_child(w, h, i, id);
    }
}

// ---------------------------------------------------------------------------
// a position in a tree
// ---------------------------------------------------------------------------

/// Does a position stand in this tree?
pub open spec fn stands(v: SlotView, root: Seq<u8>) -> bool {
    v.path.len() > 0 ==> v.path[0].cid == root
}

/// The node of step `p`: what a larger store holds of it.
proof fn lemma_step(m: BlockMap, w: BlockMap, v: SlotView, root: Seq<u8>, p: int)
    requires
        slots::placed(m, v),
        m.submap_of(w),
        stands(v, root),
        tree::complete(w, root),
        0 <= p < v.path.len(),
    ensures
        store::loaded(w, v.path[p].cid) == Ok::<NodeView, Fault>(v.path[p].held.node),
        tree::steady(v.path[p].held),
        0 <= v.path[p].taken < v.path[p].held.node.rows.len(),
        slots::no_gaps(slots::items_from(w, v.path[p].held, 0)),
        p > 0 ==> {
            let up = v.path[p - 1];
            &&& up.held.node.level > 0
            &&& store::opened(w, up.held, up.taken) == Ok::<HeldView, Fault>(v.path[p].held)
            &&& v.path[p].cid == store::child_cid(up.held.node.rows[up.taken])
            &&& v.path[p].held.node.level == up.held.node.level - 1
            &&& v.path[p].held.upper == store::child_bound(up.held, up.taken)
            &&& v.path[p].held.node.rows[0].key == up.held.node.rows[up.taken].key
            &&& m.contains_key(v.path[p].cid)
        },
    decreases p,
{
    assert(tree::steady(v.path[p].held));
    if p == 0 {
        assert(m.contains_key(root)) by {
            reveal(store::loaded);
        }
        diff::lemma_root_grows(m, w, root);
        lemma_root(w, root);
    } else {
        let up = v.path[p - 1];
        lemma_step(m, w, v, root, p - 1);
        assert(cursor::links(m, up, v.path[p]));
        slots::lemma_opened_held(m, up.held, up.taken);
        slots::lemma_opened_grows(m, w, up.held, up.taken);
        lemma_part(w, up.held, 0, up.taken);
        lemma_child(w, up.held, up.taken);
    }
}

/// Nodes get less deep along a path.
proof fn lemma_levels(m: BlockMap, w: BlockMap, v: SlotView, root: Seq<u8>, q: int, p: int)
    requires
        slots::placed(m, v),
        m.submap_of(w),
        stands(v, root),
        tree::complete(w, root),
        0 <= q <= p < v.path.len(),
    ensures
        v.path[p].held.node.level <= v.path[q].held.node.level,
    decreases p - q,
{
    if q < p {
        lemma_step(m, w, v, root, p);
        lemma_levels(m, w, v, root, q, p - 1);
    }
}

/// What is under a node on a path is a node of the tree.
proof fn lemma_path_under(
    m: BlockMap,
    w: BlockMap,
    v: SlotView,
    root: Seq<u8>,
    p: int,
    id: Seq<u8>,
)
    requires
        slots::placed(m, v),
        m.submap_of(w),
        stands(v, root),
        tree::complete(w, root),
        0 <= p < v.path.len(),
        under_node(w, v.path[p].held, id) || v.path[p].cid == id,
    ensures
        is_node(w, root, id),
    decreases p,
{
    lemma_step(m, w, v, root, p);
    if p > 0 {
        let up = v.path[p - 1];
        lemma_step(m, w, v, root, p - 1);
        assert(under_child(w, up.held, up.taken, id));
        lemma_child_of(w, up.held, up.taken, id);
        lemma_path_under(m, w, v, root, p - 1, id);
    }
}

/// A node of the tree that begins in the span of a step, and is no step above, is under
/// that step.
proof fn lemma_walk(
    m: BlockMap,
    w: BlockMap,
    v: SlotView,
    root: Seq<u8>,
    p: int,
    id: Seq<u8>,
)
    requires
        slots::placed(m, v),
        m.submap_of(w),
        stands(v, root),
        tree::complete(w, root),
        0 <= p < v.path.len(),
        is_node(w, root, id),
        forall|q: int| 0 <= q <= p ==> (#[trigger] v.path[q]).cid != id,
        store::loaded(w, id) is Ok,
        store::loaded(w, id)->Ok_0.rows.len() > 0,
        order::le(v.path[p].held.node.rows[0].key, store::loaded(w, id)->Ok_0.rows[0].key),
        tree::under(store::loaded(w, id)->Ok_0.rows[0].key, v.path[p].held.upper),
    ensures
        under_node(w, v.path[p].held, id),
    decreases p,
{
    let k = store::loaded(w, id)->Ok_0.rows[0].key;
    lemma_step(m, w, v, root, p);
    if p == 0 {
        assert(v.path[0].cid != id);
        assert(v.path[0].held == (HeldView { node: v.path[0].held.node, upper: None }));
    } else {
        let up = v.path[p - 1];
        lemma_step(m, w, v, root, p - 1);
        lemma_rows(up.held, 0, up.taken);
        order::lemma_le_trans(up.held.node.rows[0].key, up.held.node.rows[up.taken].key, k);
        lemma_bound(up.held, up.taken, k);
        lemma_walk(m, w, v, root, p - 1, id);
        let j = lemma_some_child(w, up.held, id);
        lemma_part(w, up.held, 0, j);
        lemma_under_child(w, up.held, j, id);
        lemma_one_child(up.held, j, up.taken, k);
        assert(v.path[p].cid != id);
    }
}

/// The node a slot stands for.
pub open spec fn slot_held(w: BlockMap, v: SlotView) -> HeldView {
    if v.at_root {
        v.path[0].held
    } else {
        store::opened(w, v.path.last().held, v.path.last().taken)->Ok_0
    }
}

/// A slot of a whole tree: the node it stands for.
proof fn lemma_slot(m: BlockMap, w: BlockMap, v: SlotView, root: Seq<u8>)
    requires
        slots::placed(m, v),
        m.submap_of(w),
        stands(v, root),
        tree::complete(w, root),
        v.path.len() > 0,
        slots::place_of(v) is Sub,
    ensures
        ({
            let h = slot_held(w, v);
            &&& store::loaded(w, slots::place_of(v)->id) == Ok::<NodeView, Fault>(h.node)
            &&& h.node.rows.len() > 0
            &&& h.node.rows[0].key == slots::key_of(v)
            &&& h.node.level == slots::place_of(v)->level
            &&& slots::no_gaps(slots::items_from(w, h, 0))
            &&& !v.at_root ==> store::opened(w, v.path.last().held, v.path.last().taken) is Ok
                && h.node.level < v.path.last().held.node.level
        }),
        is_node(w, root, slots::place_of(v)->id),
{
    let p = v.path.len() - 1;
    let s = v.path[p];
    lemma_step(m, w, v, root, p);
    if !v.at_root {
        lemma_part(w, s.held, 0, s.taken);
        lemma_child(w, s.held, s.taken);
        let id = slots::place_of(v)->id;
        assert(under_child(w, s.held, s.taken, id));
        lemma_child_of(w, s.held, s.taken, id);
        lemma_path_under(m, w, v, root, p, id);
    }
}

/// A node of the tree that begins where a position stands, and is not open there: the
/// slot is that node, or reaches deeper.
proof fn lemma_at_slot(m: BlockMap, w: BlockMap, v: SlotView, root: Seq<u8>, id: Seq<u8>)
    requires
        slots::placed(m, v),
        m.submap_of(w),
        stands(v, root),
        tree::complete(w, root),
        v.path.len() > 0,
        is_node(w, root, id),
        store::loaded(w, id) is Ok,
        store::loaded(w, id)->Ok_0.rows.len() > 0,
        store::loaded(w, id)->Ok_0.rows[0].key == slots::key_of(v),
        v.at_root || forall|q: int| 0 <= q < v.path.len() ==> (#[trigger] v.path[q]).cid != id,
    ensures
        slots::place_of(v) is Sub,
        slots::place_of(v)->level >= store::loaded(w, id)->Ok_0.level,
        slots::place_of(v)->level == store::loaded(w, id)->Ok_0.level ==> slots::place_of(v)->id
            == id,
{
    let p = v.path.len() - 1;
    let s = v.path[p];
    let k = slots::key_of(v);
    lemma_step(m, w, v, root, p);
    if v.at_root {
        if id != root {
            assert(s.held == (HeldView { node: s.held.node, upper: None }));
            let i = lemma_some_child(w, s.held, id);
            lemma_part(w, s.held, 0, i);
            lemma_under_child(w, s.held, i, id);
        }
    } else {
        lemma_rows(s.held, 0, s.taken);
        lemma_walk(m, w, v, root, p, id);
        let j = lemma_some_child(w, s.held, id);
        lemma_part(w, s.held, 0, j);
        lemma_under_child(w, s.held, j, id);
        tree::lemma_child_under(s.held, s.taken);
        lemma_one_child(s.held, j, s.taken, k);
    }
}

// ---------------------------------------------------------------------------
// two positions in line
// ---------------------------------------------------------------------------

/// Of the keys in the range that both trees hold, are those ahead of one position those
/// ahead of the other?
pub open spec fn aligned(
    w: BlockMap,
    a: Seq<u8>,
    b: Seq<u8>,
    r: RangeView,
    va: SlotView,
    vb: SlotView,
) -> bool {
    forall|k: Seq<u8>|
        #![trigger keyed(slots::left(w, va), k)]
        #![trigger keyed(slots::left(w, vb), k)]
        range::within(k, r) && keyed(tree::items(w, a), k) && keyed(tree::items(w, b), k) ==> (keyed(
            slots::left(w, va),
            k,
        ) <==> keyed(slots::left(w, vb), k))
}

/// Is no node that a position has opened one of both trees?
pub open spec fn fresh(
    w: BlockMap,
    a: Seq<u8>,
    b: Seq<u8>,
    r: RangeView,
    v: SlotView,
) -> bool {
    !v.at_root ==> forall|i: int|
        0 <= i < v.path.len() ==> !shared(w, a, b, r, (#[trigger] v.path[i]).cid)
}

/// Where one side is opened, the node is not one of both trees.
proof fn lemma_opening(
    m: BlockMap,
    w: BlockMap,
    x: Seq<u8>,
    y: Seq<u8>,
    r: RangeView,
    vx: SlotView,
    vy: SlotView,
)
    requires
        slots::placed(m, vx),
        slots::placed(m, vy),
        m.submap_of(w),
        tree::complete(w, x),
        tree::complete(w, y),
        stands(vx, x),
        stands(vy, y),
        aligned(w, x, y, r, vx, vy),
        fresh(w, x, y, r, vy),
        tree::ascending(slots::left(w, vy)),
        !vx.done,
        slots::place_of(vx) is Sub,
        vy.done || order::lt(slots::key_of(vx), slots::key_of(vy)) || (slots::key_of(vx)
            == slots::key_of(vy) && (slots::place_of(vy) is Entry || (slots::place_of(vx)->level
            >= slots::place_of(vy)->level && slots::place_of(vx) != slots::place_of(vy)))),
    ensures
        !shared(w, x, y, r, slots::place_of(vx)->id),
{
    let id = slots::place_of(vx)->id;
    let k = slots::key_of(vx);
    lemma_slot(m, w, vx, x);
    if shared(w, x, y, r, id) {
        lemma_root(w, x);
        lemma_root(w, y);
        lemma_node_begins(w, x, id);
        lemma_node_begins(w, y, id);
        slots::lemma_left_first(m, w, vx);
        assert(slots::left(w, vx)[0].key == k);
        assert(keyed(slots::left(w, vx), k));
        assert(keyed(slots::left(w, vy), k));
        assert(!vy.done);
        slots::lemma_left_first(m, w, vy);
        let l = slots::left(w, vy);
        let j = choose|j: int| 0 <= j < l.len() && (#[trigger] l[j]).key == k;
        if j > 0 {
            assert(order::lt(l[0].key, l[j].key));
        }
        order::lemma_lt_total(slots::key_of(vy), k);
        order::lemma_lt_irreflexive(k);
        if !vy.at_root {
            assert forall|q: int| 0 <= q < vy.path.len() implies (#[trigger] vy.path[q]).cid != id by {
                assert(!shared(w, x, y, r, vy.path[q].cid));
            }
        }
        assert(slots::key_of(vx) == slots::key_of(vy));
        lemma_at_slot(m, w, vy, y, id);
        assert(slots::place_of(vx) =~= slots::place_of(vy));
    }
}

/// What is after a step of a path is left.
proof fn lemma_after_part(w: BlockMap, path: Seq<StepView>, p: int, i: int, k: Seq<u8>)
    requires
        0 <= p < path.len(),
        path[p].taken < i < path[p].held.node.rows.len(),
        0 <= path[p].taken,
        keyed(slots::items_at(w, path[p].held, i), k),
    ensures
        keyed(slots::items_after(w, path), k),
    decreases path.len(),
{
    let s = path.last();
    let x = slots::items_from(w, s.held, s.taken + 1);
    let y = slots::items_after(w, path.drop_last());
    lemma_has_split(x, y, k);
    if p == path.len() - 1 {
        lemma_part(w, s.held, s.taken + 1, i);
    } else {
        assert(path.drop_last()[p] == path[p]);
        lemma_after_part(w, path.drop_last(), p, i, k);
    }
}

/// The entries of a slot that is not passed are left.
proof fn lemma_left_part(m: BlockMap, w: BlockMap, v: SlotView, p: int, i: int, k: Seq<u8>)
    requires
        slots::placed(m, v),
        !v.done,
        0 <= p < v.path.len(),
        v.path[p].taken <= i < v.path[p].held.node.rows.len(),
        i == v.path[p].taken ==> p == v.path.len() - 1,
        keyed(slots::items_at(w, v.path[p].held, i), k),
    ensures
        keyed(slots::left(w, v), k),
{
    assert(0 <= v.path[p].taken);
    if v.at_root {
        lemma_part(w, v.path[0].held, 0, i);
    } else {
        let s = v.path.last();
        let x = slots::items_from(w, s.held, s.taken);
        let y = slots::items_after(w, v.path.drop_last());
        lemma_has_split(x, y, k);
        if p == v.path.len() - 1 {
            lemma_part(w, s.held, s.taken, i);
        } else {
            assert(v.path.drop_last()[p] == v.path[p]);
            lemma_after_part(w, v.path.drop_last(), p, i, k);
        }
    }
}

/// A position stands no earlier than the nodes on its path begin.
proof fn lemma_low(m: BlockMap, w: BlockMap, v: SlotView, root: Seq<u8>, p: int)
    requires
        slots::placed(m, v),
        m.submap_of(w),
        stands(v, root),
        tree::complete(w, root),
        0 <= p < v.path.len(),
    ensures
        order::le(v.path[p].held.node.rows[0].key, slots::key_of(v)),
    decreases v.path.len() - p,
{
    let s = v.path[p];
    lemma_step(m, w, v, root, p);
    lemma_rows(s.held, 0, s.taken);
    if p + 1 < v.path.len() {
        lemma_step(m, w, v, root, p + 1);
        lemma_low(m, w, v, root, p + 1);
        order::lemma_le_trans(
            s.held.node.rows[0].key,
            s.held.node.rows[s.taken].key,
            slots::key_of(v),
        );
    }
}

/// A missing child that is not passed, and is no child of the node of the same level on
/// the other side, within what that node spans: it is not one of both trees.
proof fn lemma_sibling(
    m: BlockMap,
    w: BlockMap,
    x: Seq<u8>,
    y: Seq<u8>,
    r: RangeView,
    vx: SlotView,
    vy: SlotView,
    p: int,
    q: int,
    i: int,
)
    requires
        slots::placed(m, vx),
        slots::placed(m, vy),
        m.submap_of(w),
        tree::complete(w, x),
        tree::complete(w, y),
        stands(vx, x),
        stands(vy, y),
        aligned(w, x, y, r, vx, vy),
        tree::ascending(slots::left(w, vy)),
        !vx.done,
        !vy.done,
        0 <= p < vx.path.len(),
        0 <= q < vy.path.len(),
        vx.path[p].held.node.level > 0,
        vx.path[p].held.node.level == vy.path[q].held.node.level,
        vx.path[p].taken <= i < vx.path[p].held.node.rows.len(),
        !m.contains_key(store::child_cid(vx.path[p].held.node.rows[i])),
        order::le(vx.path[p].held.node.rows[i].key, vy.path[q].held.node.rows.last().key),
        forall|j: int|
            0 <= j < vy.path[q].held.node.rows.len() ==> store::child_cid(
                #[trigger] vy.path[q].held.node.rows[j],
            ) != store::child_cid(vx.path[p].held.node.rows[i]),
    ensures
        ({
            let id = store::child_cid(vx.path[p].held.node.rows[i]);
            is_node(w, x, id) && !shared(w, x, y, r, id)
        }),
{
    let s = vx.path[p];
    let t = vy.path[q];
    let id = store::child_cid(s.held.node.rows[i]);
    let k = s.held.node.rows[i].key;
    lemma_step(m, w, vx, x, p);
    lemma_step(m, w, vy, y, q);
    lemma_part(w, s.held, 0, i);
    lemma_child(w, s.held, i);
    assert(under_child(w, s.held, i, id));
    lemma_child_of(w, s.held, i, id);
    lemma_path_under(m, w, vx, x, p, id);
    if shared(w, x, y, r, id) {
        if i == s.taken && p + 1 < vx.path.len() {
            lemma_step(m, w, vx, x, p + 1);
        }
        lemma_root(w, x);
        lemma_root(w, y);
        assert(id != y) by {
            if id == y {
                lemma_step(m, w, vy, y, 0);
                assert(m.contains_key(y)) by {
                    reveal(store::loaded);
                }
            }
        }
        assert(id != x) by {
            if id == x {
                assert(m.contains_key(x)) by {
                    assert(vx.path[0].cid == x);
                    reveal(store::loaded);
                }
            }
        }
        lemma_node_begins(w, x, id);
        lemma_node_begins(w, y, id);
        lemma_left_part(m, w, vx, p, i, k);
        assert(keyed(slots::left(w, vx), k));
        assert(keyed(slots::left(w, vy), k));
        slots::lemma_left_first(m, w, vy);
        let l = slots::left(w, vy);
        let j = choose|j: int| 0 <= j < l.len() && (#[trigger] l[j]).key == k;
        if j > 0 {
            assert(order::lt(l[0].key, l[j].key));
        }
        lemma_low(m, w, vy, y, q);
        order::lemma_le_trans(t.held.node.rows[0].key, slots::key_of(vy), k);
        let n = t.held.node.rows.len() - 1;
        lemma_rows(t.held, n, n);
        if t.held.upper is Some {
            order::lemma_le_trans(k, t.held.node.rows[n].key, t.held.upper->Some_0);
        }
        assert forall|z: int| 0 <= z <= q implies (#[trigger] vy.path[z]).cid != id by {
            lemma_step(m, w, vy, y, z);
            lemma_levels(m, w, vy, y, z, q);
        }
        lemma_walk(m, w, vy, y, q, id);
        let c = lemma_some_child(w, t.held, id);
        lemma_part(w, t.held, 0, c);
        lemma_under_child(w, t.held, c, id);
        assert(store::child_cid(t.held.node.rows[c]) == id);
    }
}

// ---------------------------------------------------------------------------
// what is ahead
// ---------------------------------------------------------------------------

/// Is this the id of a node at or under a child of a node, from `t` on?
pub open spec fn from_has(w: BlockMap, h: HeldView, t: int, id: Seq<u8>) -> bool {
    h.node.level > 0 && exists|i: int|
        t <= i < h.node.rows.len() && 0 <= i && #[trigger] under_child(w, h, i, id)
}

/// Is this the id of a node after the slots a path takes?
pub open spec fn after_has(w: BlockMap, path: Seq<StepView>, id: Seq<u8>) -> bool
    decreases path.len(),
{
    path.len() > 0 && (from_has(w, path.last().held, path.last().taken + 1, id) || after_has(
        w,
        path.drop_last(),
        id,
    ))
}

/// Is this the id of a node from a position on?
pub open spec fn ahead(w: BlockMap, v: SlotView, id: Seq<u8>) -> bool {
    &&& !v.done
    &&& v.path.len() > 0
    &&& if v.at_root {
        v.path[0].cid == id || under_node(w, v.path[0].held, id)
    } else {
        from_has(w, v.path.last().held, v.path.last().taken, id) || after_has(
            w,
            v.path.drop_last(),
            id,
        )
    }
}

/// Is this the id of a node at or under the current slot?
pub open spec fn at_slot(w: BlockMap, v: SlotView, id: Seq<u8>) -> bool {
    slots::place_of(v) is Sub && (id == slots::place_of(v)->id || under_node(
        w,
        slot_held(w, v),
        id,
    ))
}

/// What comes after the slots of a path is what is from the next path on.
proof fn lemma_after_next(w: BlockMap, path: Seq<StepView>, id: Seq<u8>)
    requires
        after_has(w, path, id),
        forall|i: int| 0 <= i < path.len() ==> 0 <= (#[trigger] path[i]).taken,
    ensures
        slots::next_path(path).len() > 0,
        ({
            let p = slots::next_path(path);
            from_has(w, p.last().held, p.last().taken, id) || after_has(w, p.drop_last(), id)
        }),
    decreases path.len(),
{
    let s = path.last();
    let rest = path.drop_last();
    let p = slots::next_path(path);
    if s.taken + 1 < s.held.node.rows.len() {
        assert(p.drop_last() =~= rest);
    } else {
        assert(!from_has(w, s.held, s.taken + 1, id));
        assert forall|i: int| 0 <= i < rest.len() implies 0 <= (#[trigger] rest[i]).taken by {
            assert(rest[i] == path[i]);
        }
        lemma_after_next(w, rest, id);
    }
}

/// What is ahead is at the current slot, or ahead past it.
proof fn lemma_ahead_advanced(m: BlockMap, w: BlockMap, v: SlotView, id: Seq<u8>)
    requires
        slots::placed(m, v),
        ahead(w, v, id),
    ensures
        at_slot(w, v, id) || ahead(w, slots::advanced(v), id),
{
    if !v.at_root {
        let s = v.path.last();
        let k = v.path.len() - 1;
        assert(v.path[k] == s);
        if !at_slot(w, v, id) {
            assert(after_has(w, v.path, id)) by {
                if from_has(w, s.held, s.taken, id) {
                    let i = choose|i: int|
                        s.taken <= i < s.held.node.rows.len() && 0 <= i && #[trigger] under_child(
                            w,
                            s.held,
                            i,
                            id,
                        );
                    assert(i != s.taken);
                    assert(from_has(w, s.held, s.taken + 1, id));
                }
            }
            assert forall|i: int| 0 <= i < v.path.len() implies 0 <= (#[trigger] v.path[i]).taken by {
                assert(tree::steady(v.path[i].held));
            }
            lemma_after_next(w, v.path, id);
        }
    }
}

/// What is ahead is the node that is opened, or ahead within it.
proof fn lemma_ahead_descended(m: BlockMap, w: BlockMap, v: SlotView, id: Seq<u8>)
    requires
        slots::placed(m, v),
        m.submap_of(w),
        ahead(w, v, id),
        slots::place_of(v) is Sub,
        slots::descended(m, v) is Ok,
    ensures
        id == slots::place_of(v)->id || ahead(w, slots::descended(m, v)->Ok_0, id),
{
    let d = slots::descended(m, v)->Ok_0;
    let s = v.path.last();
    let k = v.path.len() - 1;
    assert(v.path[k] == s);
    if id != slots::place_of(v)->id {
        if v.at_root {
            let i = lemma_some_child(w, s.held, id);
            assert(under_child(w, s.held, i, id));
            assert(from_has(w, d.path.last().held, d.path.last().taken, id));
        } else {
            slots::lemma_opened_held(m, s.held, s.taken);
            slots::lemma_opened_grows(m, w, s.held, s.taken);
            let c = store::opened(m, s.held, s.taken)->Ok_0;
            assert(d.path.drop_last() =~= v.path);
            if from_has(w, s.held, s.taken, id) {
                let i = choose|i: int|
                    s.taken <= i < s.held.node.rows.len() && 0 <= i && #[trigger] under_child(
                        w,
                        s.held,
                        i,
                        id,
                    );
                if i == s.taken {
                    let j = lemma_some_child(w, c, id);
                    assert(under_child(w, c, j, id));
                    assert(from_has(w, d.path.last().held, d.path.last().taken, id));
                } else {
                    assert(from_has(w, s.held, s.taken + 1, id));
                    assert(after_has(w, v.path, id));
                }
            } else {
                assert(after_has(w, v.path, id));
            }
        }
    }
}

/// What is under a node is under the same node wherever it is reached, where there are
/// no gaps.
proof fn lemma_same_under(w: BlockMap, x: HeldView, y: HeldView, id: Seq<u8>)
    requires
        x.node == y.node,
        slots::no_gaps(slots::items_from(w, x, 0)),
        slots::no_gaps(slots::items_from(w, y, 0)),
        under_node(w, x, id),
    ensures
        under_node(w, y, id),
    decreases x.node.level,
{
    let i = lemma_some_child(w, x, id);
    lemma_part(w, x, 0, i);
    lemma_part(w, y, 0, i);
    slots::lemma_at_opens(w, x, i);
    slots::lemma_at_opens(w, y, i);
    let c = store::opened(w, x, i)->Ok_0;
    let d = store::opened(w, y, i)->Ok_0;
    if store::child_cid(x.node.rows[i]) != id {
        lemma_same_under(w, c, d, id);
    }
    assert(under_child(w, y, i, id));
    lemma_child_of(w, y, i, id);
}

/// What is at or under a slot with the same id on the other side is a node of both.
proof fn lemma_slot_shared(
    m: BlockMap,
    w: BlockMap,
    a: Seq<u8>,
    b: Seq<u8>,
    va: SlotView,
    vb: SlotView,
    id: Seq<u8>,
)
    requires
        slots::placed(m, va),
        slots::placed(m, vb),
        m.submap_of(w),
        stands(va, a),
        stands(vb, b),
        tree::complete(w, a),
        tree::complete(w, b),
        va.path.len() > 0,
        vb.path.len() > 0,
        slots::place_of(va) is Sub,
        slots::place_of(va) == slots::place_of(vb),
        at_slot(w, vb, id),
    ensures
        is_node(w, a, id),
{
    lemma_slot(m, w, va, a);
    lemma_slot(m, w, vb, b);
    if id != slots::place_of(vb)->id {
        lemma_same_under(w, slot_held(w, vb), slot_held(w, va), id);
        let p = va.path.len() - 1;
        let s = va.path[p];
        if va.at_root {
            lemma_path_under(m, w, va, a, 0, id);
        } else {
            lemma_step(m, w, va, a, p);
            assert(under_child(w, s.held, s.taken, id));
            lemma_child_of(w, s.held, s.taken, id);
            lemma_path_under(m, w, va, a, p, id);
        }
    }
}

// ---------------------------------------------------------------------------
// a merge in line
// ---------------------------------------------------------------------------

/// Is every node of the new tree opened, a node of the old tree, or ahead?
pub open spec fn covered(
    w: BlockMap,
    a: Seq<u8>,
    b: Seq<u8>,
    vb: SlotView,
    ids: Seq<Seq<u8>>,
) -> bool {
    forall|id: Seq<u8>| #[trigger]
        is_node(w, b, id) ==> ids.contains(id) || is_node(w, a, id) || ahead(w, vb, id)
}

/// Is every id that of a node of the new tree that is not one of both?
pub open spec fn all_new(
    w: BlockMap,
    a: Seq<u8>,
    b: Seq<u8>,
    r: RangeView,
    ids: Seq<Seq<u8>>,
) -> bool {
    forall|id: Seq<u8>| #[trigger]
        ids.contains(id) ==> is_node(w, b, id) && !shared(w, a, b, r, id)
}

/// A merge in line, in a store where both trees are whole.
pub open spec fn in_line(
    w: BlockMap,
    a: Seq<u8>,
    b: Seq<u8>,
    r: RangeView,
    va: SlotView,
    vb: SlotView,
    ids: Seq<Seq<u8>>,
) -> bool {
    &&& aligned(w, a, b, r, va, vb)
    &&& fresh(w, a, b, r, va)
    &&& fresh(w, a, b, r, vb)
    &&& stands(va, a)
    &&& stands(vb, b)
    &&& all_new(w, a, b, r, ids)
    &&& unbounded(r) && tree::items(w, b).len() > 0 ==> covered(w, a, b, vb, ids)
}

/// A merge in line, in every store where both trees are whole.
#[verifier::opaque]
pub open spec fn lined_up(
    m: BlockMap,
    a: Seq<u8>,
    b: Seq<u8>,
    r: RangeView,
    va: SlotView,
    vb: SlotView,
    ids: Seq<Seq<u8>>,
) -> bool {
    forall|w: BlockMap| #[trigger]
        diff::completes(w, m, a, b) ==> in_line(w, a, b, r, va, vb, ids)
}

/// Does a cursor stand at the start of a tree?
pub open spec fn at_start(m: BlockMap, root: Seq<u8>, v: SlotView) -> bool {
    if v.path.len() == 0 {
        store::loaded(m, root) matches Ok(n) && n.rows.len() == 0
    } else {
        v.at_root && !v.done && v.path[0].cid == root && v.path[0].held.upper is None
    }
}

/// A merge at its start is in line.
pub proof fn lemma_line_start(
    m: BlockMap,
    a: Seq<u8>,
    b: Seq<u8>,
    r: RangeView,
    va: SlotView,
    vb: SlotView,
)
    requires
        slots::placed(m, va),
        slots::placed(m, vb),
        at_start(m, a, va),
        at_start(m, b, vb),
        forall|w: BlockMap| #[trigger]
            m.submap_of(w) ==> slots::left(w, va) == tree::items(w, a) && slots::left(w, vb)
                == tree::items(w, b),
    ensures
        lined_up(m, a, b, r, va, vb, Seq::empty()),
{
    reveal(lined_up);
    assert forall|w: BlockMap| #[trigger] diff::completes(w, m, a, b) implies in_line(
        w,
        a,
        b,
        r,
        va,
        vb,
        Seq::empty(),
    ) by {
        assert(m.submap_of(w));
        if tree::items(w, b).len() > 0 {
            lemma_root(w, b);
            if vb.path.len() == 0 {
                assert(m.contains_key(b)) by {
                    reveal(store::loaded);
                }
                diff::lemma_root_grows(m, w, b);
            }
            lemma_step(m, w, vb, b, 0);
            assert(vb.path[0].held == (HeldView { node: vb.path[0].held.node, upper: None }));
        }
    }
}

/// A cursor that moved past nothing but entries outside the range keeps the line.
proof fn lemma_aligned_trim(
    w: BlockMap,
    a: Seq<u8>,
    b: Seq<u8>,
    r: RangeView,
    va: SlotView,
    ta: SlotView,
    vb: SlotView,
    n: int,
)
    requires
        aligned(w, a, b, r, va, vb),
        diff::drops(slots::left(w, va), slots::left(w, ta), r, n),
    ensures
        aligned(w, a, b, r, ta, vb),
{
    let l = slots::left(w, va);
    let t = slots::left(w, ta);
    assert forall|k: Seq<u8>|
        #![trigger keyed(slots::left(w, ta), k)]
        #![trigger keyed(slots::left(w, vb), k)]
        range::within(k, r) && keyed(tree::items(w, a), k) && keyed(tree::items(w, b), k) implies (keyed(
        slots::left(w, ta),
        k,
    ) <==> keyed(slots::left(w, vb), k)) by {
        let x = l.take(n);
        assert(x + t =~= l);
        lemma_has_split(x, t, k);
        if keyed(x, k) {
            let i = choose|i: int| 0 <= i < x.len() && (#[trigger] x[i]).key == k;
            assert(!range::within(l[i].key, r));
        }
        assert(keyed(slots::left(w, va), k) <==> keyed(slots::left(w, vb), k));
    }
}

/// The line the other way round.
proof fn lemma_aligned_turn(
    w: BlockMap,
    a: Seq<u8>,
    b: Seq<u8>,
    r: RangeView,
    va: SlotView,
    vb: SlotView,
)
    requires
        aligned(w, a, b, r, va, vb),
    ensures
        aligned(w, b, a, r, vb, va),
{
    assert forall|k: Seq<u8>|
        #![trigger keyed(slots::left(w, va), k)]
        #![trigger keyed(slots::left(w, vb), k)]
        range::within(k, r) && keyed(tree::items(w, b), k) && keyed(tree::items(w, a), k) implies (keyed(
        slots::left(w, vb),
        k,
    ) <==> keyed(slots::left(w, va), k)) by {
        assert(keyed(slots::left(w, va), k) <==> keyed(slots::left(w, vb), k));
    }
}

/// The old side after a trim.
pub proof fn lemma_line_trim_a(
    m: BlockMap,
    a: Seq<u8>,
    b: Seq<u8>,
    r: RangeView,
    va: SlotView,
    ta: SlotView,
    vb: SlotView,
    got: Seq<Difference>,
    last: Option<Seq<u8>>,
    ids: Seq<Seq<u8>>,
)
    requires
        lined_up(m, a, b, r, va, vb, ids),
        diff::on_track(m, a, b, r, va, vb, got, last),
        diff::trims(m, va, ta, r),
        diff::stays_on(va, ta),
    ensures
        lined_up(m, a, b, r, ta, vb, ids),
{
    reveal(lined_up);
    reveal(diff::on_track);
    reveal(diff::trims);
    assert forall|w: BlockMap| #[trigger] diff::completes(w, m, a, b) implies in_line(
        w,
        a,
        b,
        r,
        ta,
        vb,
        ids,
    ) by {
        assert(m.submap_of(w) && tree::ascending(slots::left(w, va)));
        let n = choose|n: int| diff::drops(slots::left(w, va), slots::left(w, ta), r, n);
        lemma_aligned_trim(w, a, b, r, va, ta, vb, n);
        lemma_fresh_on(w, a, b, r, va, ta);
    }
}

/// The new side after a trim.
pub proof fn lemma_line_trim_b(
    m: BlockMap,
    a: Seq<u8>,
    b: Seq<u8>,
    r: RangeView,
    va: SlotView,
    vb: SlotView,
    tb: SlotView,
    got: Seq<Difference>,
    last: Option<Seq<u8>>,
    ids: Seq<Seq<u8>>,
)
    requires
        lined_up(m, a, b, r, va, vb, ids),
        diff::on_track(m, a, b, r, va, vb, got, last),
        diff::trims(m, vb, tb, r),
        diff::stays_on(vb, tb),
        unbounded(r) ==> tb == vb,
    ensures
        lined_up(m, a, b, r, va, tb, ids),
{
    reveal(lined_up);
    reveal(diff::on_track);
    reveal(diff::trims);
    assert forall|w: BlockMap| #[trigger] diff::completes(w, m, a, b) implies in_line(
        w,
        a,
        b,
        r,
        va,
        tb,
        ids,
    ) by {
        assert(m.submap_of(w) && tree::ascending(slots::left(w, vb)));
        let n = choose|n: int| diff::drops(slots::left(w, vb), slots::left(w, tb), r, n);
        lemma_aligned_turn(w, a, b, r, va, vb);
        lemma_aligned_trim(w, b, a, r, vb, tb, va, n);
        lemma_aligned_turn(w, b, a, r, tb, va);
        lemma_fresh_on(w, a, b, r, vb, tb);
    }
}

/// A position on nodes that are open.
proof fn lemma_fresh_on(
    w: BlockMap,
    a: Seq<u8>,
    b: Seq<u8>,
    r: RangeView,
    v: SlotView,
    t: SlotView,
)
    requires
        fresh(w, a, b, r, v),
        diff::stays_on(v, t),
    ensures
        fresh(w, a, b, r, t),
{
    if !t.at_root {
        assert forall|i: int| 0 <= i < t.path.len() implies !shared(
            w,
            a,
            b,
            r,
            (#[trigger] t.path[i]).cid,
        ) by {
            assert(!shared(w, a, b, r, v.path[i].cid));
        }
    }
}

/// A position that opened a node that is not one of both trees.
proof fn lemma_fresh_open(
    m: BlockMap,
    w: BlockMap,
    a: Seq<u8>,
    b: Seq<u8>,
    r: RangeView,
    v: SlotView,
)
    requires
        slots::placed(m, v),
        v.path.len() > 0,
        fresh(w, a, b, r, v),
        slots::place_of(v) is Sub,
        slots::descended(m, v) is Ok,
        !shared(w, a, b, r, slots::place_of(v)->id),
    ensures
        fresh(w, a, b, r, slots::descended(m, v)->Ok_0),
{
    let d = slots::descended(m, v)->Ok_0;
    assert forall|i: int| 0 <= i < d.path.len() implies !shared(
        w,
        a,
        b,
        r,
        (#[trigger] d.path[i]).cid,
    ) by {
        if v.at_root {
            assert(d.path[i] == v.path.last());
        } else if i < v.path.len() {
            assert(d.path[i] == v.path[i]);
        }
    }
}

/// A step past an entry on one side that the other side does not hold.
proof fn lemma_aligned_drain(
    m: BlockMap,
    w: BlockMap,
    a: Seq<u8>,
    b: Seq<u8>,
    r: RangeView,
    va: SlotView,
    vb: SlotView,
)
    requires
        slots::placed(m, va),
        slots::placed(m, vb),
        m.submap_of(w),
        aligned(w, a, b, r, va, vb),
        tree::ascending(slots::left(w, va)),
        tree::ascending(slots::left(w, vb)),
        !va.done,
        slots::place_of(va) is Entry,
        vb.done || order::lt(slots::key_of(va), slots::key_of(vb)),
    ensures
        aligned(w, a, b, r, slots::advanced(va), vb),
{
    let la = slots::left(w, va);
    let lb = slots::left(w, vb);
    let ka = slots::key_of(va);
    slots::lemma_left_first(m, w, va);
    let x = la.take(1);
    let t = slots::left(w, slots::advanced(va));
    assert(x + t =~= la);
    if !vb.done {
        slots::lemma_left_first(m, w, vb);
    }
    assert(!keyed(lb, ka)) by {
        if keyed(lb, ka) {
            let j = choose|j: int| 0 <= j < lb.len() && (#[trigger] lb[j]).key == ka;
            if j > 0 {
                assert(order::lt(lb[0].key, lb[j].key));
            }
            order::lemma_lt_total(slots::key_of(vb), ka);
            order::lemma_lt_irreflexive(ka);
        }
    }
    assert forall|k: Seq<u8>|
        #![trigger keyed(slots::left(w, slots::advanced(va)), k)]
        #![trigger keyed(slots::left(w, vb), k)]
        range::within(k, r) && keyed(tree::items(w, a), k) && keyed(tree::items(w, b), k) implies (keyed(
        slots::left(w, slots::advanced(va)),
        k,
    ) <==> keyed(slots::left(w, vb), k)) by {
        lemma_has_split(x, t, k);
        assert(keyed(slots::left(w, va), k) <==> keyed(slots::left(w, vb), k));
        if keyed(x, k) {
            let i = choose|i: int| 0 <= i < x.len() && (#[trigger] x[i]).key == k;
            assert(x[0] == la[0]);
        }
    }
}

/// A step past the same keys on both sides.
proof fn lemma_aligned_both(
    m: BlockMap,
    w: BlockMap,
    a: Seq<u8>,
    b: Seq<u8>,
    r: RangeView,
    va: SlotView,
    vb: SlotView,
)
    requires
        slots::placed(m, va),
        slots::placed(m, vb),
        m.submap_of(w),
        aligned(w, a, b, r, va, vb),
        tree::ascending(slots::left(w, va)),
        tree::ascending(slots::left(w, vb)),
        !va.done,
        !vb.done,
        forall|k: Seq<u8>| #[trigger]
            keyed(slots::here(w, va), k) <==> keyed(slots::here(w, vb), k),
    ensures
        aligned(w, a, b, r, slots::advanced(va), slots::advanced(vb)),
{
    slots::lemma_left_advanced(m, w, va);
    slots::lemma_left_advanced(m, w, vb);
    let ta = slots::left(w, slots::advanced(va));
    let tb = slots::left(w, slots::advanced(vb));
    assert forall|k: Seq<u8>|
        #![trigger keyed(slots::left(w, slots::advanced(va)), k)]
        #![trigger keyed(slots::left(w, slots::advanced(vb)), k)]
        range::within(k, r) && keyed(tree::items(w, a), k) && keyed(tree::items(w, b), k) implies (keyed(
        slots::left(w, slots::advanced(va)),
        k,
    ) <==> keyed(slots::left(w, slots::advanced(vb)), k)) by {
        lemma_has_split(slots::here(w, va), ta, k);
        lemma_has_split(slots::here(w, vb), tb, k);
        assert(keyed(slots::left(w, va), k) <==> keyed(slots::left(w, vb), k));
        assert(keyed(slots::here(w, va), k) <==> keyed(slots::here(w, vb), k));
    }
}

/// The new side after a step past an entry: what is ahead stays ahead.
proof fn lemma_covered_entry(
    m: BlockMap,
    w: BlockMap,
    a: Seq<u8>,
    b: Seq<u8>,
    vb: SlotView,
    ids: Seq<Seq<u8>>,
)
    requires
        slots::placed(m, vb),
        slots::place_of(vb) is Entry,
        covered(w, a, b, vb, ids),
    ensures
        covered(w, a, b, slots::advanced(vb), ids),
{
    assert forall|id: Seq<u8>| #[trigger] is_node(w, b, id) implies ids.contains(id) || is_node(
        w,
        a,
        id,
    ) || ahead(w, slots::advanced(vb), id) by {
        if ahead(w, vb, id) {
            lemma_ahead_advanced(m, w, vb, id);
        }
    }
}

/// An entry of the old side that the new side has passed.
pub proof fn lemma_line_drain_a(
    m: BlockMap,
    a: Seq<u8>,
    b: Seq<u8>,
    r: RangeView,
    va: SlotView,
    vb: SlotView,
    got: Seq<Difference>,
    last: Option<Seq<u8>>,
    ids: Seq<Seq<u8>>,
)
    requires
        lined_up(m, a, b, r, va, vb, ids),
        diff::on_track(m, a, b, r, va, vb, got, last),
        slots::placed(m, va),
        slots::placed(m, vb),
        !va.done,
        slots::place_of(va) is Entry,
        vb.done || order::lt(slots::key_of(va), slots::key_of(vb)),
    ensures
        lined_up(m, a, b, r, slots::advanced(va), vb, ids),
{
    reveal(lined_up);
    reveal(diff::on_track);
    diff::lemma_advanced_on(va);
    assert forall|w: BlockMap| #[trigger] diff::completes(w, m, a, b) implies in_line(
        w,
        a,
        b,
        r,
        slots::advanced(va),
        vb,
        ids,
    ) by {
        lemma_aligned_drain(m, w, a, b, r, va, vb);
        lemma_fresh_on(w, a, b, r, va, slots::advanced(va));
    }
}

/// An entry of the new side that the old side has passed.
pub proof fn lemma_line_drain_b(
    m: BlockMap,
    a: Seq<u8>,
    b: Seq<u8>,
    r: RangeView,
    va: SlotView,
    vb: SlotView,
    got: Seq<Difference>,
    last: Option<Seq<u8>>,
    ids: Seq<Seq<u8>>,
)
    requires
        lined_up(m, a, b, r, va, vb, ids),
        diff::on_track(m, a, b, r, va, vb, got, last),
        slots::placed(m, va),
        slots::placed(m, vb),
        !vb.done,
        slots::place_of(vb) is Entry,
        va.done || order::lt(slots::key_of(vb), slots::key_of(va)),
    ensures
        lined_up(m, a, b, r, va, slots::advanced(vb), ids),
{
    reveal(lined_up);
    reveal(diff::on_track);
    diff::lemma_advanced_on(vb);
    assert forall|w: BlockMap| #[trigger] diff::completes(w, m, a, b) implies in_line(
        w,
        a,
        b,
        r,
        va,
        slots::advanced(vb),
        ids,
    ) by {
        lemma_aligned_turn(w, a, b, r, va, vb);
        lemma_aligned_drain(m, w, b, a, r, vb, va);
        lemma_aligned_turn(w, b, a, r, slots::advanced(vb), va);
        lemma_fresh_on(w, a, b, r, vb, slots::advanced(vb));
        if unbounded(r) && tree::items(w, b).len() > 0 {
            lemma_covered_entry(m, w, a, b, vb, ids);
        }
    }
}

/// An entry of both sides.
pub proof fn lemma_line_matched(
    m: BlockMap,
    a: Seq<u8>,
    b: Seq<u8>,
    r: RangeView,
    va: SlotView,
    vb: SlotView,
    got: Seq<Difference>,
    last: Option<Seq<u8>>,
    ids: Seq<Seq<u8>>,
)
    requires
        lined_up(m, a, b, r, va, vb, ids),
        diff::on_track(m, a, b, r, va, vb, got, last),
        slots::placed(m, va),
        slots::placed(m, vb),
        !va.done,
        !vb.done,
        slots::place_of(va) is Entry,
        slots::place_of(vb) is Entry,
        slots::key_of(va) == slots::key_of(vb),
    ensures
        lined_up(m, a, b, r, slots::advanced(va), slots::advanced(vb), ids),
{
    reveal(lined_up);
    reveal(diff::on_track);
    diff::lemma_advanced_on(va);
    diff::lemma_advanced_on(vb);
    assert forall|w: BlockMap| #[trigger] diff::completes(w, m, a, b) implies in_line(
        w,
        a,
        b,
        r,
        slots::advanced(va),
        slots::advanced(vb),
        ids,
    ) by {
        let ha = slots::here(w, va);
        let hb = slots::here(w, vb);
        assert(ha.len() == 1 && hb.len() == 1 && ha[0].key == hb[0].key);
        assert forall|k: Seq<u8>| #[trigger]
            keyed(slots::here(w, va), k) <==> keyed(slots::here(w, vb), k) by {
            if keyed(ha, k) {
                assert(hb[0].key == k);
            }
            if keyed(hb, k) {
                assert(ha[0].key == k);
            }
        }
        lemma_aligned_both(m, w, a, b, r, va, vb);
        lemma_fresh_on(w, a, b, r, va, slots::advanced(va));
        lemma_fresh_on(w, a, b, r, vb, slots::advanced(vb));
        if unbounded(r) && tree::items(w, b).len() > 0 {
            lemma_covered_entry(m, w, a, b, vb, ids);
        }
    }
}

/// The same subtree on both sides.
pub proof fn lemma_line_skipped(
    m: BlockMap,
    a: Seq<u8>,
    b: Seq<u8>,
    r: RangeView,
    va: SlotView,
    vb: SlotView,
    got: Seq<Difference>,
    last: Option<Seq<u8>>,
    ids: Seq<Seq<u8>>,
)
    requires
        lined_up(m, a, b, r, va, vb, ids),
        diff::on_track(m, a, b, r, va, vb, got, last),
        slots::placed(m, va),
        slots::placed(m, vb),
        !va.done,
        !vb.done,
        slots::place_of(va) is Sub,
        slots::place_of(va) == slots::place_of(vb),
    ensures
        lined_up(m, a, b, r, slots::advanced(va), slots::advanced(vb), ids),
{
    reveal(lined_up);
    reveal(diff::on_track);
    diff::lemma_advanced_on(va);
    diff::lemma_advanced_on(vb);
    assert forall|w: BlockMap| #[trigger] diff::completes(w, m, a, b) implies in_line(
        w,
        a,
        b,
        r,
        slots::advanced(va),
        slots::advanced(vb),
        ids,
    ) by {
        slots::lemma_left_advanced(m, w, va);
        slots::lemma_left_advanced(m, w, vb);
        slots::lemma_gaps_join(slots::here(w, va), slots::left(w, slots::advanced(va)));
        slots::lemma_gaps_join(slots::here(w, vb), slots::left(w, slots::advanced(vb)));
        slots::lemma_same_slot(m, w, va, vb);
        lemma_aligned_both(m, w, a, b, r, va, vb);
        lemma_fresh_on(w, a, b, r, va, slots::advanced(va));
        lemma_fresh_on(w, a, b, r, vb, slots::advanced(vb));
        if unbounded(r) && tree::items(w, b).len() > 0 {
            assert forall|id: Seq<u8>| #[trigger] is_node(w, b, id) implies ids.contains(id)
                || is_node(w, a, id) || ahead(w, slots::advanced(vb), id) by {
                if ahead(w, vb, id) {
                    lemma_ahead_advanced(m, w, vb, id);
                    if at_slot(w, vb, id) {
                        lemma_slot_shared(m, w, a, b, va, vb, id);
                    }
                }
            }
        }
    }
}

/// May the first side be opened here, as the other stands?
pub open spec fn may_open(vx: SlotView, vy: SlotView) -> bool {
    ||| vy.done
    ||| order::lt(slots::key_of(vx), slots::key_of(vy))
    ||| slots::key_of(vx) == slots::key_of(vy) && (slots::place_of(vy) is Entry || (
    slots::place_of(vx)->level >= slots::place_of(vy)->level && slots::place_of(vx)
        != slots::place_of(vy)))
}

/// What is asked for: a root, or a node of one of the trees that is not one of both.
pub open spec fn asked(
    w: BlockMap,
    a: Seq<u8>,
    b: Seq<u8>,
    r: RangeView,
    id: Seq<u8>,
) -> bool {
    ||| id == a
    ||| id == b
    ||| (is_node(w, a, id) || is_node(w, b, id)) && !shared(w, a, b, r, id)
}

/// Is this asked for, in every store where both trees are whole?
#[verifier::opaque]
pub open spec fn asked_for(
    m: BlockMap,
    a: Seq<u8>,
    b: Seq<u8>,
    r: RangeView,
    id: Seq<u8>,
) -> bool {
    forall|w: BlockMap| #[trigger] diff::completes(w, m, a, b) ==> asked(w, a, b, r, id)
}

/// The old side is opened at a node that is not one of both.
pub proof fn lemma_line_open_a(
    m: BlockMap,
    a: Seq<u8>,
    b: Seq<u8>,
    r: RangeView,
    va: SlotView,
    vb: SlotView,
    got: Seq<Difference>,
    last: Option<Seq<u8>>,
    ids: Seq<Seq<u8>>,
)
    requires
        lined_up(m, a, b, r, va, vb, ids),
        diff::on_track(m, a, b, r, va, vb, got, last),
        slots::placed(m, va),
        slots::placed(m, vb),
        !va.done,
        slots::place_of(va) is Sub,
        may_open(va, vb),
    ensures
        asked_for(m, a, b, r, slots::place_of(va)->id),
        slots::descended(m, va) is Ok ==> lined_up(
            m,
            a,
            b,
            r,
            slots::descended(m, va)->Ok_0,
            vb,
            ids,
        ),
{
    reveal(lined_up);
    reveal(diff::on_track);
    reveal(asked_for);
    let id = slots::place_of(va)->id;
    assert forall|w: BlockMap| #[trigger] diff::completes(w, m, a, b) implies asked(w, a, b, r, id)
        && !shared(w, a, b, r, id) by {
        lemma_opening(m, w, a, b, r, va, vb);
        lemma_slot(m, w, va, a);
    }
    if slots::descended(m, va) is Ok {
        let d = slots::descended(m, va)->Ok_0;
        assert forall|w: BlockMap| #[trigger] diff::completes(w, m, a, b) implies in_line(
            w,
            a,
            b,
            r,
            d,
            vb,
            ids,
        ) by {
            assert(!shared(w, a, b, r, id));
            slots::lemma_left_descended(m, w, va);
            lemma_fresh_open(m, w, a, b, r, va);
        }
    }
}

/// The new side is opened at a node that is not one of both, and that node is listed.
pub proof fn lemma_line_open_b(
    m: BlockMap,
    a: Seq<u8>,
    b: Seq<u8>,
    r: RangeView,
    va: SlotView,
    vb: SlotView,
    got: Seq<Difference>,
    last: Option<Seq<u8>>,
    ids: Seq<Seq<u8>>,
)
    requires
        lined_up(m, a, b, r, va, vb, ids),
        diff::on_track(m, a, b, r, va, vb, got, last),
        slots::placed(m, va),
        slots::placed(m, vb),
        !vb.done,
        slots::place_of(vb) is Sub,
        may_open(vb, va),
    ensures
        asked_for(m, a, b, r, slots::place_of(vb)->id),
        slots::descended(m, vb) is Ok ==> lined_up(
            m,
            a,
            b,
            r,
            va,
            slots::descended(m, vb)->Ok_0,
            ids.push(slots::place_of(vb)->id),
        ),
        // and the other side can be opened at the same time
        !va.done && slots::place_of(va) is Sub && may_open(va, vb) && slots::descended(m, va) is Ok
            && slots::descended(m, vb) is Ok ==> lined_up(
            m,
            a,
            b,
            r,
            slots::descended(m, va)->Ok_0,
            slots::descended(m, vb)->Ok_0,
            ids.push(slots::place_of(vb)->id),
        ),
{
    reveal(lined_up);
    reveal(diff::on_track);
    reveal(asked_for);
    let id = slots::place_of(vb)->id;
    let more = ids.push(id);
    assert(more[ids.len() as int] == id);
    assert forall|w: BlockMap| #[trigger] diff::completes(w, m, a, b) implies asked(w, a, b, r, id)
        && !shared(w, a, b, r, id) && is_node(w, b, id) by {
        lemma_aligned_turn(w, a, b, r, va, vb);
        lemma_opening(m, w, b, a, r, vb, va);
        lemma_slot(m, w, vb, b);
    }
    if slots::descended(m, vb) is Ok {
        let d = slots::descended(m, vb)->Ok_0;
        assert forall|w: BlockMap| #[trigger] diff::completes(w, m, a, b) implies in_line(
            w,
            a,
            b,
            r,
            va,
            d,
            more,
        ) by {
            assert(!shared(w, a, b, r, id));
            slots::lemma_left_descended(m, w, vb);
            lemma_fresh_open(m, w, a, b, r, vb);
            lemma_listed(m, w, a, b, r, vb, ids);
        }
    }
    if !va.done && slots::place_of(va) is Sub && may_open(va, vb) && slots::descended(m, va) is Ok
        && slots::descended(m, vb) is Ok {
        let e = slots::descended(m, va)->Ok_0;
        let d = slots::descended(m, vb)->Ok_0;
        lemma_line_open_a(m, a, b, r, va, vb, got, last, ids);
        assert forall|w: BlockMap| #[trigger] diff::completes(w, m, a, b) implies in_line(
            w,
            a,
            b,
            r,
            e,
            d,
            more,
        ) by {
            assert(in_line(w, a, b, r, va, d, more));
            assert(in_line(w, a, b, r, e, vb, ids));
            slots::lemma_left_descended(m, w, va);
            slots::lemma_left_descended(m, w, vb);
        }
    }
}

/// The new side after it is opened: what is listed is new, and nothing is left out.
proof fn lemma_listed(
    m: BlockMap,
    w: BlockMap,
    a: Seq<u8>,
    b: Seq<u8>,
    r: RangeView,
    vb: SlotView,
    ids: Seq<Seq<u8>>,
)
    requires
        slots::placed(m, vb),
        m.submap_of(w),
        !vb.done,
        slots::place_of(vb) is Sub,
        slots::descended(m, vb) is Ok,
        all_new(w, a, b, r, ids),
        is_node(w, b, slots::place_of(vb)->id),
        !shared(w, a, b, r, slots::place_of(vb)->id),
    ensures
        all_new(w, a, b, r, ids.push(slots::place_of(vb)->id)),
        covered(w, a, b, vb, ids) ==> covered(
            w,
            a,
            b,
            slots::descended(m, vb)->Ok_0,
            ids.push(slots::place_of(vb)->id),
        ),
{
    let x = slots::place_of(vb)->id;
    let d = slots::descended(m, vb)->Ok_0;
    let more = ids.push(x);
    assert(more[ids.len() as int] == x);
    assert forall|id: Seq<u8>| #[trigger] more.contains(id) implies is_node(w, b, id) && !shared(
        w,
        a,
        b,
        r,
        id,
    ) by {
        let i = choose|i: int| 0 <= i < more.len() && more[i] == id;
        if i < ids.len() {
            assert(ids[i] == id);
            assert(ids.contains(id));
        }
    }
    if covered(w, a, b, vb, ids) {
        assert forall|id: Seq<u8>| #[trigger] is_node(w, b, id) implies more.contains(id)
            || is_node(w, a, id) || ahead(w, d, id) by {
            if ids.contains(id) {
                let i = choose|i: int| 0 <= i < ids.len() && ids[i] == id;
                assert(more[i] == id);
            } else if ahead(w, vb, id) {
                lemma_ahead_descended(m, w, vb, id);
            }
        }
    }
}

/// The missing children of a node from a slot on that are no children of the other, and
/// begin no later than a key: is each asked for?
#[verifier::opaque]
pub open spec fn siblings_asked(
    m: BlockMap,
    a: Seq<u8>,
    b: Seq<u8>,
    r: RangeView,
    n: NodeView,
    from: int,
    other: NodeView,
    hi: Seq<u8>,
) -> bool {
    forall|i: int|
        from <= i < n.rows.len() && !m.contains_key(store::child_cid(#[trigger] n.rows[i]))
            && order::le(n.rows[i].key, hi) && (forall|j: int|
            0 <= j < other.rows.len() ==> store::child_cid(#[trigger] other.rows[j])
                != store::child_cid(n.rows[i])) ==> asked_for(
            m,
            a,
            b,
            r,
            store::child_cid(n.rows[i]),
        )
}

/// What can be named beside a position: the children of the two nodes of one level.
pub proof fn lemma_siblings(
    m: BlockMap,
    a: Seq<u8>,
    b: Seq<u8>,
    r: RangeView,
    va: SlotView,
    vb: SlotView,
    got: Seq<Difference>,
    last: Option<Seq<u8>>,
    ids: Seq<Seq<u8>>,
    p: int,
    q: int,
    hi: Seq<u8>,
)
    requires
        lined_up(m, a, b, r, va, vb, ids),
        diff::on_track(m, a, b, r, va, vb, got, last),
        slots::placed(m, va),
        slots::placed(m, vb),
        !va.done,
        !vb.done,
        0 <= p < va.path.len(),
        0 <= q < vb.path.len(),
        va.path[p].held.node.level > 0,
        va.path[p].held.node.level == vb.path[q].held.node.level,
        order::le(hi, va.path[p].held.node.rows.last().key),
        order::le(hi, vb.path[q].held.node.rows.last().key),
    ensures
        siblings_asked(
            m,
            a,
            b,
            r,
            va.path[p].held.node,
            va.path[p].taken,
            vb.path[q].held.node,
            hi,
        ),
        siblings_asked(
            m,
            a,
            b,
            r,
            vb.path[q].held.node,
            vb.path[q].taken,
            va.path[p].held.node,
            hi,
        ),
{
    reveal(lined_up);
    reveal(diff::on_track);
    reveal(asked_for);
    reveal(siblings_asked);
    let s = va.path[p];
    let t = vb.path[q];
    assert forall|i: int|
        s.taken <= i < s.held.node.rows.len() && !m.contains_key(
            store::child_cid(#[trigger] s.held.node.rows[i]),
        ) && order::le(s.held.node.rows[i].key, hi) && (forall|j: int|
            0 <= j < t.held.node.rows.len() ==> store::child_cid(#[trigger] t.held.node.rows[j])
                != store::child_cid(s.held.node.rows[i])) implies asked_for(
        m,
        a,
        b,
        r,
        store::child_cid(s.held.node.rows[i]),
    ) by {
        let id = store::child_cid(s.held.node.rows[i]);
        order::lemma_le_trans(s.held.node.rows[i].key, hi, t.held.node.rows.last().key);
        assert forall|w: BlockMap| #[trigger] diff::completes(w, m, a, b) implies asked(
            w,
            a,
            b,
            r,
            id,
        ) by {
            lemma_sibling(m, w, a, b, r, va, vb, p, q, i);
        }
    }
    assert forall|i: int|
        t.taken <= i < t.held.node.rows.len() && !m.contains_key(
            store::child_cid(#[trigger] t.held.node.rows[i]),
        ) && order::le(t.held.node.rows[i].key, hi) && (forall|j: int|
            0 <= j < s.held.node.rows.len() ==> store::child_cid(#[trigger] s.held.node.rows[j])
                != store::child_cid(t.held.node.rows[i])) implies asked_for(
        m,
        a,
        b,
        r,
        store::child_cid(t.held.node.rows[i]),
    ) by {
        let id = store::child_cid(t.held.node.rows[i]);
        order::lemma_le_trans(t.held.node.rows[i].key, hi, s.held.node.rows.last().key);
        assert forall|w: BlockMap| #[trigger] diff::completes(w, m, a, b) implies asked(
            w,
            a,
            b,
            r,
            id,
        ) by {
            lemma_aligned_turn(w, a, b, r, va, vb);
            lemma_sibling(m, w, b, a, r, vb, va, q, p, i);
        }
    }
}

// ---------------------------------------------------------------------------
// what a page lists
// ---------------------------------------------------------------------------

/// Are some ids those of the nodes of the new tree that are no nodes of the old one?
pub open spec fn exactly_new(w: BlockMap, a: Seq<u8>, b: Seq<u8>, ids: Seq<Seq<u8>>) -> bool {
    forall|id: Seq<u8>| #[trigger] ids.contains(id) <==> is_node(w, b, id) && !is_node(w, a, id)
}

/// Where a whole merge ends, the nodes that were opened are the new ones.
pub proof fn lemma_line_end(
    m: BlockMap,
    w: BlockMap,
    a: Seq<u8>,
    b: Seq<u8>,
    r: RangeView,
    va: SlotView,
    vb: SlotView,
    ids: Seq<Seq<u8>>,
)
    requires
        lined_up(m, a, b, r, va, vb, ids),
        diff::completes(w, m, a, b),
    ensures
        all_new(w, a, b, r, ids),
        unbounded(r) && vb.done && tree::items(w, b).len() > 0 ==> exactly_new(w, a, b, ids),
{
    reveal(lined_up);
    assert(in_line(w, a, b, r, va, vb, ids));
    if unbounded(r) && vb.done && tree::items(w, b).len() > 0 {
        assert forall|id: Seq<u8>| #[trigger] ids.contains(id) <==> is_node(w, b, id) && !is_node(
            w,
            a,
            id,
        ) by {
            if ids.contains(id) {
                lemma_node_begins(w, b, id);
            }
        }
    }
}

/// The slot a merge is stuck on.
pub proof fn lemma_stuck_slot(
    m: BlockMap,
    w: BlockMap,
    a: Seq<u8>,
    b: Seq<u8>,
    r: RangeView,
    va: SlotView,
    vb: SlotView,
    ids: Seq<Seq<u8>>,
    first: bool,
)
    requires
        lined_up(m, a, b, r, va, vb, ids),
        diff::completes(w, m, a, b),
        slots::placed(m, va),
        slots::placed(m, vb),
        ({
            let v = if first {
                va
            } else {
                vb
            };
            !v.done && slots::place_of(v) is Sub
        }),
    ensures
        ({
            let v = if first {
                va
            } else {
                vb
            };
            let id = slots::place_of(v)->id;
            &&& store::loaded(w, id) is Ok
            &&& store::loaded(w, id)->Ok_0.rows.len() > 0
            &&& store::loaded(w, id)->Ok_0.rows[0].key == slots::key_of(v)
        }),
{
    reveal(lined_up);
    assert(in_line(w, a, b, r, va, vb, ids));
    if first {
        lemma_slot(m, w, va, a);
    } else {
        lemma_slot(m, w, vb, b);
    }
}

/// The block that a position cannot go down without is that of its slot.
pub proof fn lemma_need_slot(m: BlockMap, v: SlotView, f: Fault)
    requires
        slots::placed(m, v),
        f is Need,
    ensures
        !v.done && slots::place_of(v) is Sub && slots::descended(m, v) == Err::<SlotView, Fault>(f)
            ==> f->Need_0 == seq![slots::place_of(v)->id],
{
    reveal(store::loaded);
}

} // verus!
