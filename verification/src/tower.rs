//! The tree that belongs to a list of entries.
//!
//! Every level is cut by the same rule, and each node is an entry of the level
//! above: level over level, up to the lowest one with a single node, which is the
//! root. What a node lists of parity follows from its members. So the entries alone,
//! with the blocks they refer to, settle every byte of the tree.

use crate::canon;
use crate::chunk;
use crate::chunk::{Cut, Pushed, Rule};
use crate::node;
use crate::node::{NodeView, Row};
use crate::order;
use crate::parity;
use crate::parity::Known;
use crate::store;
use crate::store::{BlockMap, Fault, HeldView};
use crate::tree;
use crate::tree::{Item, Slot};
use vstd::prelude::*;

verus! {

/// The parity ids of the first `n` groups of a node with these rows.
pub open spec fn parity_of(w: BlockMap, level: u8, rows: Seq<Row>, n: nat) -> Seq<Seq<u8>>
    decreases n,
{
    if n == 0 {
        Seq::empty()
    } else {
        parity_of(w, level, rows, (n - 1) as nat) + chunk::parity_ids(
            parity::group_parity(
                chunk::states_of(w, level == 0, parity::groups(level, rows)[n - 1].members),
            ),
        )
    }
}

/// The node with these rows. Its members' bytes are those of `w`.
pub open spec fn node_of(w: BlockMap, level: u8, rows: Seq<Row>) -> NodeView {
    NodeView { level, rows, parity: parity_of(w, level, rows, parity::groups(level, rows).len()) }
}

/// The nodes with these runs of rows.
pub open spec fn nodes_of(w: BlockMap, level: u8, runs: Seq<Seq<Row>>) -> Seq<NodeView> {
    runs.map_values(|rows: Seq<Row>| node_of(w, level, rows))
}

/// Nodes as entries of the level above.
pub open spec fn child_rows(nodes: Seq<NodeView>) -> Seq<Row> {
    nodes.map_values(|n: NodeView| chunk::child_row(n))
}

/// The nodes of a level with these rows.
pub open spec fn level_nodes(w: BlockMap, rule: Rule, level: u8, rows: Seq<Row>) -> Seq<NodeView> {
    nodes_of(w, level, chunk::chunks(level, rule, rows))
}

/// The root over a level with these rows: its single node, or the root over the
/// level above. None where there are more levels than can be numbered.
pub open spec fn top_from(w: BlockMap, rule: Rule, rows: Seq<Row>, level: nat) -> Option<NodeView>
    decreases 256 - level,
{
    if level > 255 {
        None
    } else {
        let ns = level_nodes(w, rule, level as u8, rows);
        if ns.len() == 0 {
            Some(chunk::empty_node())
        } else if ns.len() == 1 {
            Some(ns[0])
        } else {
            top_from(w, rule, child_rows(ns), level + 1)
        }
    }
}

/// The root of the tree that holds these entries.
pub open spec fn top(w: BlockMap, rule: Rule, rows: Seq<Row>) -> Option<NodeView> {
    top_from(w, rule, rows, 0)
}

/// Is this node held, and is it a node?
#[verifier::opaque]
pub open spec fn kept(w: BlockMap, n: NodeView) -> bool {
    &&& n.valid()
    &&& w.contains_key(chunk::node_id(n))
    &&& w[chunk::node_id(n)] == node::encode(n)
}

/// Is every node over a level with these rows held?
pub open spec fn stands_from(w: BlockMap, rule: Rule, rows: Seq<Row>, level: nat) -> bool
    decreases 256 - level,
{
    if level > 255 {
        false
    } else {
        let ns = level_nodes(w, rule, level as u8, rows);
        &&& forall|i: int| 0 <= i < ns.len() ==> kept(w, #[trigger] ns[i])
        &&& ns.len() == 0 ==> kept(w, chunk::empty_node())
        &&& ns.len() > 1 ==> stands_from(w, rule, child_rows(ns), level + 1)
    }
}

/// Is every node of the tree that holds these entries held?
pub open spec fn stands(w: BlockMap, rule: Rule, rows: Seq<Row>) -> bool {
    stands_from(w, rule, rows, 0)
}

// ---------------------------------------------------------------------------
// cutting loses nothing
// ---------------------------------------------------------------------------

/// Runs of rows, one after the other.
pub open spec fn joined(runs: Seq<Seq<Row>>) -> Seq<Row>
    decreases runs.len(),
{
    if runs.len() == 0 {
        Seq::empty()
    } else {
        joined(runs.drop_last()) + runs.last()
    }
}

/// A row that fits a node of its own.
pub open spec fn small(row: Row) -> bool {
    !chunk::overflows(Seq::empty(), row)
}

/// Rows that each fit a node of their own.
pub open spec fn all_small(rows: Seq<Row>) -> bool {
    forall|i: int| 0 <= i < rows.len() ==> small(#[trigger] rows[i])
}

/// What is cut is all of the rows, in order, and no run is empty.
pub proof fn lemma_cut(level: u8, rule: Rule, rows: Seq<Row>)
    requires
        all_small(rows),
    ensures
        ({
            let c = chunk::cut_from(level, rule, chunk::uncut(), rows);
            &&& joined(c.closed) + c.open == rows
            &&& forall|i: int| 0 <= i < c.closed.len() ==> (#[trigger] c.closed[i]).len() > 0
        }),
    decreases rows.len(),
{
    if rows.len() > 0 {
        let row = rows.last();
        let rest = rows.drop_last();
        assert forall|i: int| 0 <= i < rest.len() implies small(#[trigger] rest[i]) by {
            assert(rest[i] == rows[i]);
        }
        lemma_cut(level, rule, rest);
        let c = chunk::cut_from(level, rule, chunk::uncut(), rest);
        let d = chunk::made_room(c, row);
        assert(small(rows[rows.len() - 1]));
        assert(rows =~= rest.push(row));
        if chunk::overflows(c.open, row) {
            assert(c.open.len() > 0) by {
                if c.open.len() == 0 {
                    assert(c.open =~= Seq::<Row>::empty());
                }
            }
            assert(d.closed.drop_last() =~= c.closed);
            assert(joined(d.closed) =~= joined(c.closed) + c.open);
        }
        assert(joined(d.closed) + d.open =~= rest);
        let open = d.open.push(row);
        assert(d.closed.push(open).drop_last() =~= d.closed);
        assert(joined(d.closed.push(open)) =~= joined(d.closed) + open);
        assert(joined(d.closed) + open =~= rest.push(row));
    } else {
        let c = chunk::cut_from(level, rule, chunk::uncut(), rows);
        assert(joined(c.closed) + c.open =~= rows);
    }
}

/// The runs of a level are its rows, in order, and none is empty.
pub proof fn lemma_chunks(level: u8, rule: Rule, rows: Seq<Row>)
    requires
        all_small(rows),
    ensures
        joined(chunk::chunks(level, rule, rows)) == rows,
        forall|i: int|
            0 <= i < chunk::chunks(level, rule, rows).len() ==> (#[trigger] chunk::chunks(
                level,
                rule,
                rows,
            )[i]).len() > 0,
{
    lemma_cut(level, rule, rows);
    let c = chunk::cut_from(level, rule, chunk::uncut(), rows);
    let cs = chunk::chunks(level, rule, rows);
    if c.open.len() > 0 {
        assert(cs.drop_last() =~= c.closed);
        assert(joined(cs) == rows);
    } else {
        assert(joined(c.closed) + c.open =~= joined(c.closed));
    }
}

/// How many rows the first `j` runs have.
pub open spec fn offset(runs: Seq<Seq<Row>>, j: int) -> int
    decreases j,
{
    if j <= 0 {
        0
    } else {
        offset(runs, j - 1) + runs[j - 1].len()
    }
}

/// The rows of run `j`.
pub proof fn lemma_offset(runs: Seq<Seq<Row>>, j: int)
    requires
        0 <= j < runs.len(),
    ensures
        0 <= offset(runs, j),
        offset(runs, j) + runs[j].len() <= joined(runs).len(),
        runs[j] == joined(runs).subrange(offset(runs, j), offset(runs, j) + runs[j].len()),
        j == runs.len() - 1 ==> offset(runs, j) + runs[j].len() == joined(runs).len(),
    decreases runs.len(),
{
    let rest = runs.drop_last();
    let all = joined(runs);
    lemma_offset_len(runs, runs.len() - 1);
    if j == runs.len() - 1 {
        lemma_offset_take(runs, rest, j);
        lemma_offset_len(rest, rest.len() as int);
        assert(all.subrange(offset(runs, j), offset(runs, j) + runs[j].len()) =~= runs[j]);
    } else {
        lemma_offset(rest, j);
        lemma_offset_take(runs, rest, j);
        assert(rest[j] == runs[j]);
        let a = offset(runs, j);
        let b = a + runs[j].len();
        assert(all.subrange(a, b) =~= joined(rest).subrange(a, b));
    }
}

/// An offset looks only at the runs before it.
proof fn lemma_offset_take(a: Seq<Seq<Row>>, b: Seq<Seq<Row>>, j: int)
    requires
        0 <= j <= a.len(),
        j <= b.len(),
        forall|i: int| 0 <= i < j ==> a[i] == b[i],
    ensures
        offset(a, j) == offset(b, j),
    decreases j,
{
    if j > 0 {
        lemma_offset_take(a, b, j - 1);
    }
}

/// The offset after the last run is the number of rows.
proof fn lemma_offset_len(runs: Seq<Seq<Row>>, j: int)
    requires
        0 <= j <= runs.len(),
    ensures
        0 <= offset(runs, j),
        j == runs.len() ==> offset(runs, j) == joined(runs).len(),
    decreases runs.len(), j,
{
    if j > 0 {
        lemma_offset_len(runs, j - 1);
        if j == runs.len() {
            let rest = runs.drop_last();
            lemma_offset_len(rest, rest.len() as int);
            lemma_offset_take(runs, rest, j - 1);
        }
    }
}

// ---------------------------------------------------------------------------
// a closed node is the node of its rows
// ---------------------------------------------------------------------------

/// Listing ids adds them.
proof fn lemma_with_ids(n: NodeView, ids: Seq<Seq<u8>>, count: nat)
    requires
        count <= ids.len(),
        chunk::with_ids(n, ids, count) is Ok,
    ensures
        chunk::with_ids(n, ids, count)->Ok_0 == (NodeView {
            level: n.level,
            rows: n.rows,
            parity: n.parity + ids.take(count as int),
        }),
    decreases count,
{
    if count > 0 {
        lemma_with_ids(n, ids, (count - 1) as nat);
        assert(n.parity + ids.take(count as int) =~= (n.parity + ids.take(count - 1)).push(
            ids[count - 1],
        ));
    } else {
        assert(n.parity + ids.take(0) =~= n.parity);
    }
}

/// Is the parity of a group what coding its members gives?
pub open spec fn codes(w: BlockMap, leaf: bool, members: Seq<Seq<u8>>, ids: Seq<Seq<u8>>) -> bool {
    ids == chunk::parity_ids(parity::group_parity(chunk::states_of(w, leaf, members)))
}

/// Does coding a group, wherever its parity comes from, give what coding its
/// members in `w` gives?
pub open spec fn coded_truly(
    m: BlockMap,
    w: BlockMap,
    index: Seq<Known>,
    leaf: bool,
    g: parity::Group,
) -> bool {
    chunk::group_code(m, index, leaf, g) is Ok ==> codes(
        w,
        leaf,
        g.members,
        chunk::group_code(m, index, leaf, g)->Ok_0.ids,
    )
}

/// A node whose groups are truly coded is the node of its rows.
pub proof fn lemma_made_truly(
    m: BlockMap,
    w: BlockMap,
    index: Seq<Known>,
    level: u8,
    rows: Seq<Row>,
    n: nat,
)
    requires
        n <= parity::groups(level, rows).len(),
        forall|i: int|
            0 <= i < parity::groups(level, rows).len() ==> coded_truly(
                m,
                w,
                index,
                level == 0,
                #[trigger] parity::groups(level, rows)[i],
            ),
        chunk::made(m, index, level, rows, n) is Ok,
    ensures
        chunk::made(m, index, level, rows, n)->Ok_0.node == (NodeView {
            level,
            rows,
            parity: parity_of(w, level, rows, n),
        }),
    decreases n,
{
    if n > 0 {
        lemma_made_truly(m, w, index, level, rows, (n - 1) as nat);
        let d = chunk::made(m, index, level, rows, (n - 1) as nat)->Ok_0;
        let g = parity::groups(level, rows)[n - 1];
        let code = chunk::group_code(m, index, level == 0, g)->Ok_0;
        assert(coded_truly(m, w, index, level == 0, parity::groups(level, rows)[n - 1]));
        lemma_with_ids(d.node, code.ids, code.ids.len());
        assert(code.ids.take(code.ids.len() as int) =~= code.ids);
    }
}

/// Nothing is missing from a group that was coded.
pub proof fn lemma_none_missing(m: BlockMap, members: Seq<Seq<u8>>, i: int)
    requires
        0 <= i,
        chunk::first_missing(m, members, i) is None,
    ensures
        forall|j: int| i <= j < members.len() ==> m.contains_key(#[trigger] members[j]),
    decreases members.len() - i,
{
    if i < members.len() {
        lemma_none_missing(m, members, i + 1);
    }
}

/// The states of members are the same in a larger store.
pub proof fn lemma_states_grow(m: BlockMap, w: BlockMap, leaf: bool, members: Seq<Seq<u8>>)
    requires
        m.submap_of(w),
        forall|j: int| 0 <= j < members.len() ==> m.contains_key(#[trigger] members[j]),
    ensures
        chunk::states_of(m, leaf, members) == chunk::states_of(w, leaf, members),
{
    assert forall|j: int| 0 <= j < members.len() implies chunk::states_of(m, leaf, members)[j]
        == chunk::states_of(w, leaf, members)[j] by {
        assert(m.contains_key(members[j]));
        assert(w.dom().contains(members[j]));
    }
    assert(chunk::states_of(m, leaf, members) =~= chunk::states_of(w, leaf, members));
}

/// With nothing to reuse, a node closes as the node of its rows.
pub proof fn lemma_fresh_close(m: BlockMap, w: BlockMap, level: u8, rows: Seq<Row>)
    requires
        m.submap_of(w),
        chunk::closing(m, Seq::empty(), level, rows) is Ok,
    ensures
        chunk::closing(m, Seq::empty(), level, rows)->Ok_0.node == node_of(w, level, rows),
{
    let gs = parity::groups(level, rows);
    let none = Seq::<Known>::empty();
    assert forall|i: int| 0 <= i < gs.len() implies coded_truly(
        m,
        w,
        none,
        level == 0,
        #[trigger] gs[i],
    ) by {
        let g = gs[i];
        assert(parity::find_exact(none, g.class, g.members, 0) is None);
        assert(parity::find_one_off(none, g.class, g.members, 0) is None);
        if chunk::group_code(m, none, level == 0, g) is Ok {
            lemma_none_missing(m, g.members, 0);
            lemma_states_grow(m, w, level == 0, g.members);
        }
    }
    lemma_made_truly(m, w, none, level, rows, gs.len());
}

// ---------------------------------------------------------------------------
// the places of a level
// ---------------------------------------------------------------------------

/// The key before which node `i` of a level ends.
pub open spec fn bound_after(nodes: Seq<NodeView>, i: int) -> Option<Seq<u8>> {
    if i + 1 < nodes.len() {
        Some(chunk::first_key(nodes[i + 1].rows))
    } else {
        None
    }
}

/// Node `i` of a level, reached from the root.
pub open spec fn held_at(nodes: Seq<NodeView>, i: int) -> HeldView {
    HeldView { node: nodes[i], upper: bound_after(nodes, i) }
}

/// The places of a level whose nodes are these.
pub open spec fn places(nodes: Seq<NodeView>) -> Seq<Slot> {
    Seq::new(
        nodes.len(),
        |i: int|
            Slot {
                key: chunk::first_key(nodes[i].rows),
                cid: chunk::node_id(nodes[i]),
                agg: nodes[i].agg(),
                level: nodes[i].level as int,
                opened: Ok(held_at(nodes, i)),
            },
    )
}

/// The places of level `floor` under some places, one after the other.
pub open spec fn spread(m: BlockMap, slots: Seq<Slot>, floor: int) -> Seq<Slot>
    decreases slots.len(),
{
    if slots.len() == 0 {
        Seq::empty()
    } else {
        spread(m, slots.drop_last(), floor) + tree::level_slots(m, slots.last(), floor)
    }
}

/// Under two runs of places.
pub proof fn lemma_spread_join(m: BlockMap, a: Seq<Slot>, b: Seq<Slot>, floor: int)
    ensures
        spread(m, a + b, floor) == spread(m, a, floor) + spread(m, b, floor),
    decreases b.len(),
{
    if b.len() == 0 {
        assert(a + b =~= a);
        assert(spread(m, a, floor) + spread(m, b, floor) =~= spread(m, a, floor));
    } else {
        lemma_spread_join(m, a, b.drop_last(), floor);
        assert((a + b).drop_last() =~= a + b.drop_last());
        assert((a + b).last() == b.last());
        assert(spread(m, a + b, floor) =~= spread(m, a, floor) + spread(m, b, floor));
    }
}

/// Places that are on the level already.
pub proof fn lemma_spread_here(m: BlockMap, slots: Seq<Slot>, floor: int)
    requires
        forall|i: int|
            0 <= i < slots.len() ==> (#[trigger] slots[i]).opened is Ok
                && slots[i].opened->Ok_0.node.level <= floor,
    ensures
        spread(m, slots, floor) == slots,
    decreases slots.len(),
{
    if slots.len() > 0 {
        let k = slots.len() - 1;
        assert(slots[k].opened is Ok);
        assert forall|i: int| 0 <= i < k implies (#[trigger] slots.drop_last()[i]).opened is Ok
            && slots.drop_last()[i].opened->Ok_0.node.level <= floor by {
            assert(slots.drop_last()[i] == slots[i]);
        }
        lemma_spread_here(m, slots.drop_last(), floor);
        assert(tree::level_slots(m, slots.last(), floor) =~= seq![slots.last()]);
        assert(spread(m, slots, floor) =~= slots);
    } else {
        assert(spread(m, slots, floor) =~= slots);
    }
}

/// A level whose nodes are all held, none of them empty, with their rows ascending
/// over the whole of it.
#[verifier::opaque]
pub open spec fn ordered_level(w: BlockMap, nodes: Seq<NodeView>, level: u8) -> bool {
    &&& forall|i: int| 0 <= i < nodes.len() ==> kept(w, #[trigger] nodes[i])
    &&& forall|i: int|
        0 <= i < nodes.len() ==> (#[trigger] nodes[i]).level == level && nodes[i].rows.len() > 0
    &&& forall|i: int|
        #![trigger bound_after(nodes, i)]
        0 <= i < nodes.len() ==> store::ends_before(nodes[i], bound_after(nodes, i))
}

/// A kept node is what loading it gives.
pub proof fn lemma_kept(w: BlockMap, n: NodeView)
    requires
        kept(w, n),
    ensures
        store::loaded(w, chunk::node_id(n)) == Ok::<NodeView, Fault>(n),
{
    reveal(kept);
    canon::law_the_encoding_parses(n);
    reveal(store::loaded);
}

/// Node `i` of an ordered level.
proof fn lemma_ordered_at(w: BlockMap, nodes: Seq<NodeView>, level: u8, i: int)
    requires
        ordered_level(w, nodes, level),
        0 <= i < nodes.len(),
    ensures
        store::loaded(w, chunk::node_id(nodes[i])) == Ok::<NodeView, Fault>(nodes[i]),
        nodes[i].level == level,
        nodes[i].rows.len() > 0,
        store::ends_before(nodes[i], bound_after(nodes, i)),
{
    reveal(ordered_level);
    assert(kept(w, nodes[i]));
    lemma_kept(w, nodes[i]);
    let b = bound_after(nodes, i);
}

/// The place of a child that is what its parent says.
proof fn lemma_opened_place(w: BlockMap, h: HeldView, i: int, n: NodeView)
    requires
        0 <= i < h.node.rows.len(),
        h.node.rows[i] == chunk::child_row(n),
        store::loaded(w, chunk::node_id(n)) == Ok::<NodeView, Fault>(n),
        n.level + 1 == h.node.level,
        n.rows.len() > 0,
        store::ends_before(n, store::child_bound(h, i)),
    ensures
        tree::child_slot(w, h, i) == (Slot {
            key: chunk::first_key(n.rows),
            cid: chunk::node_id(n),
            agg: n.agg(),
            level: n.level as int,
            opened: Ok(HeldView { node: n, upper: store::child_bound(h, i) }),
        }),
{
    let id = chunk::node_id(n);
    assert(store::child_cid(h.node.rows[i]) == id);
    assert(store::child_agg(h.node.rows[i]) == n.agg());
    assert(store::is_child(h, i, n));
}

/// The place of a child of a node is its place in the level below.
proof fn lemma_child_place(
    w: BlockMap,
    below: Seq<NodeView>,
    level: u8,
    h: HeldView,
    off: int,
    i: int,
)
    requires
        spans(w, below, level, h, off),
        0 <= i < h.node.rows.len(),
    ensures
        tree::child_slot(w, h, i) == places(below)[off + i],
{
    let rows = h.node.rows;
    lemma_ordered_at(w, below, level, off + i);
    assert(rows[i] == child_rows(below)[off + i]);
    if i + 1 < rows.len() {
        assert(rows[i + 1] == child_rows(below)[off + i + 1]);
    }
    assert(store::child_bound(h, i) == bound_after(below, off + i));
    lemma_opened_place(w, h, i, below[off + i]);
}

/// Are the children of a node the nodes of the level below from `off` on?
pub open spec fn spans(w: BlockMap, below: Seq<NodeView>, level: u8, h: HeldView, off: int) -> bool {
    &&& level < 255
    &&& ordered_level(w, below, level)
    &&& h.node.level == level + 1
    &&& 0 <= off
    &&& off + h.node.rows.len() <= below.len()
    &&& h.node.rows == child_rows(below).subrange(off, off + h.node.rows.len())
    &&& h.node.rows.len() > 0
    &&& h.upper == bound_after(below, off + h.node.rows.len() - 1)
}

/// The places under the first children of a node.
proof fn lemma_children_spread(
    w: BlockMap,
    below: Seq<NodeView>,
    level: u8,
    h: HeldView,
    off: int,
    floor: int,
    n: nat,
)
    requires
        floor <= level,
        spans(w, below, level, h, off),
        n <= h.node.rows.len(),
    ensures
        tree::child_slots(w, h, floor, n) == spread(
            w,
            places(below).subrange(off, off + n),
            floor,
        ),
    decreases n,
{
    let ps = places(below).subrange(off, off + n);
    if n > 0 {
        lemma_children_spread(w, below, level, h, off, floor, (n - 1) as nat);
        lemma_child_place(w, below, level, h, off, n - 1);
        assert(ps.drop_last() =~= places(below).subrange(off, off + n - 1));
        assert(ps.last() == places(below)[off + n - 1]);
    } else {
        assert(ps =~= Seq::<Slot>::empty());
    }
}

/// The rows of the runs before run `j`, and those of run `j`.
proof fn lemma_upper_place(w: BlockMap, below: Seq<NodeView>, level: u8, runs: Seq<Seq<Row>>, j: int)
    requires
        level < 255,
        joined(runs) == child_rows(below),
        forall|i: int| 0 <= i < runs.len() ==> (#[trigger] runs[i]).len() > 0,
        0 <= j < runs.len(),
    ensures
        bound_after(nodes_of(w, (level + 1) as u8, runs), j) == bound_after(
            below,
            offset(runs, j) + runs[j].len() - 1,
        ),
        offset(runs, j + 1) == offset(runs, j) + runs[j].len(),
{
    let up = nodes_of(w, (level + 1) as u8, runs);
    lemma_offset(runs, j);
    assert(child_rows(below).len() == below.len());
    if j + 1 < runs.len() {
        lemma_offset(runs, j + 1);
        let o = offset(runs, j + 1);
        assert(runs[j + 1].len() > 0);
        assert(up[j + 1].rows == runs[j + 1]);
        assert(runs[j + 1][0] == joined(runs)[o]);
        assert(joined(runs)[o] == chunk::child_row(below[o]));
    }
}

/// What lies under a node lies under its children.
proof fn lemma_node_spread(
    w: BlockMap,
    below: Seq<NodeView>,
    level: u8,
    runs: Seq<Seq<Row>>,
    floor: int,
    k: int,
)
    requires
        level < 255,
        floor <= level,
        ordered_level(w, below, level),
        joined(runs) == child_rows(below),
        forall|i: int| 0 <= i < runs.len() ==> (#[trigger] runs[i]).len() > 0,
        0 <= k < runs.len(),
    ensures
        tree::level_slots(w, places(nodes_of(w, (level + 1) as u8, runs))[k], floor) == spread(
            w,
            places(below).subrange(offset(runs, k), offset(runs, k) + runs[k].len()),
            floor,
        ),
{
    let up = nodes_of(w, (level + 1) as u8, runs);
    lemma_offset(runs, k);
    lemma_upper_place(w, below, level, runs, k);
    let off = offset(runs, k);
    let h = held_at(up, k);
    assert(child_rows(below).len() == below.len());
    assert(h.node.rows == runs[k]);
    assert(runs[k].len() > 0);
    assert(spans(w, below, level, h, off));
    lemma_children_spread(w, below, level, h, off, floor, runs[k].len());
    let s = places(up)[k];
    assert(s.opened == Ok::<HeldView, Fault>(h));
    assert(tree::level_slots(w, s, floor) == tree::child_slots(w, h, floor, h.node.rows.len()));
}

/// What lies under the first nodes of a level lies under their children.
#[verifier::rlimit(60)]
#[verifier::spinoff_prover]
proof fn lemma_level_spread(
    w: BlockMap,
    below: Seq<NodeView>,
    level: u8,
    runs: Seq<Seq<Row>>,
    floor: int,
    j: nat,
)
    requires
        level < 255,
        floor <= level,
        ordered_level(w, below, level),
        joined(runs) == child_rows(below),
        forall|i: int| 0 <= i < runs.len() ==> (#[trigger] runs[i]).len() > 0,
        j <= runs.len(),
    ensures
        0 <= offset(runs, j as int) <= below.len(),
        spread(w, places(nodes_of(w, (level + 1) as u8, runs)).take(j as int), floor) == spread(
            w,
            places(below).take(offset(runs, j as int)),
            floor,
        ),
    decreases j,
{
    let up = nodes_of(w, (level + 1) as u8, runs);
    let ps = places(up);
    assert(child_rows(below).len() == below.len());
    if j == 0 {
        assert(ps.take(0) =~= Seq::<Slot>::empty());
        assert(places(below).take(0) =~= Seq::<Slot>::empty());
    } else {
        let k = j - 1;
        lemma_level_spread(w, below, level, runs, floor, k as nat);
        lemma_offset(runs, k);
        lemma_upper_place(w, below, level, runs, k);
        let off = offset(runs, k);
        lemma_node_spread(w, below, level, runs, floor, k);
        let here = places(below).subrange(off, off + runs[k].len());
        assert(ps.take(j as int).drop_last() =~= ps.take(k));
        assert(ps.take(j as int).last() == ps[k]);
        assert(places(below).take(offset(runs, j as int)) =~= places(below).take(off) + here);
        lemma_spread_join(w, places(below).take(off), here, floor);
    }
}

/// Node rows that ascend over a whole level, cut into runs, end one before the next.
pub proof fn lemma_ordered(w: BlockMap, level: u8, rows: Seq<Row>, runs: Seq<Seq<Row>>)
    requires
        joined(runs) == rows,
        node::sorted_rows(rows),
        forall|i: int| 0 <= i < runs.len() ==> (#[trigger] runs[i]).len() > 0,
        forall|i: int|
            0 <= i < runs.len() ==> kept(w, #[trigger] nodes_of(w, level, runs)[i]),
    ensures
        ordered_level(w, nodes_of(w, level, runs), level),
        node::sorted_rows(child_rows(nodes_of(w, level, runs))),
{
    reveal(ordered_level);
    let ns = nodes_of(w, level, runs);
    assert forall|i: int| 0 <= i < ns.len() implies (#[trigger] ns[i]).level == level
        && ns[i].rows.len() > 0 by {
        assert(runs[i].len() > 0);
    }
    assert forall|i: int|
        #![trigger bound_after(ns, i)]
        0 <= i < ns.len() implies store::ends_before(ns[i], bound_after(ns, i)) by {
        if i + 1 < ns.len() {
            lemma_offset(runs, i);
            lemma_offset(runs, i + 1);
            assert(runs[i].len() > 0 && runs[i + 1].len() > 0);
            let a = offset(runs, i) + runs[i].len() - 1;
            let b = offset(runs, i + 1);
            assert(runs[i].last() == rows[a]);
            assert(runs[i + 1][0] == rows[b]);
            assert(order::lt(rows[a].key, rows[b].key));
        }
    }
    let up = child_rows(ns);
    assert forall|i: int, j: int| 0 <= i < j < up.len() implies order::lt(
        (#[trigger] up[i]).key,
        (#[trigger] up[j]).key,
    ) by {
        lemma_offset(runs, i);
        lemma_offset(runs, j);
        assert(runs[i].len() > 0 && runs[j].len() > 0);
        assert(runs[i][0] == rows[offset(runs, i)]);
        assert(runs[j][0] == rows[offset(runs, j)]);
        lemma_offset_below(runs, i, j);
        assert(order::lt(rows[offset(runs, i)].key, rows[offset(runs, j)].key));
    }
}

/// Offsets ascend over runs that are not empty.
proof fn lemma_offset_below(runs: Seq<Seq<Row>>, i: int, j: int)
    requires
        0 <= i < j <= runs.len(),
        forall|k: int| 0 <= k < runs.len() ==> (#[trigger] runs[k]).len() > 0,
    ensures
        offset(runs, i) < offset(runs, j),
    decreases j,
{
    assert(runs[j - 1].len() > 0);
    if i < j - 1 {
        lemma_offset_below(runs, i, j - 1);
    }
}

/// A child's entry fits a node of its own.
pub proof fn lemma_child_small(n: NodeView)
    requires
        n.valid(),
    ensures
        small(chunk::child_row(n)),
{
    if n.rows.len() > 0 {
        assert(node::row_fits(n.level, n.rows[0]));
    }
    assert(node::logical(Seq::<Row>::empty()) == node::HEADER);
}

/// The entries of children fit.
pub proof fn lemma_children_small(w: BlockMap, nodes: Seq<NodeView>)
    requires
        forall|i: int| 0 <= i < nodes.len() ==> kept(w, #[trigger] nodes[i]),
    ensures
        all_small(child_rows(nodes)),
{
    reveal(kept);
    let rows = child_rows(nodes);
    assert forall|i: int| 0 <= i < rows.len() implies small(#[trigger] rows[i]) by {
        assert(kept(w, nodes[i]));
        lemma_child_small(nodes[i]);
    }
}

/// The root of a standing tree is held.
pub proof fn lemma_top_kept(w: BlockMap, rule: Rule, rows: Seq<Row>, level: nat)
    requires
        stands_from(w, rule, rows, level),
    ensures
        top_from(w, rule, rows, level) is Some,
        kept(w, top_from(w, rule, rows, level)->Some_0),
    decreases 256 - level,
{
    let ns = level_nodes(w, rule, level as u8, rows);
    if ns.len() == 1 {
        assert(kept(w, ns[0]));
    } else if ns.len() > 1 {
        lemma_top_kept(w, rule, child_rows(ns), level + 1);
    }
}

/// What lies under the root of a standing tree lies under the nodes of any of its
/// levels.
pub proof fn lemma_under_top(w: BlockMap, rule: Rule, rows: Seq<Row>, level: nat, floor: int)
    requires
        stands_from(w, rule, rows, level),
        rows.len() > 0,
        all_small(rows),
        node::sorted_rows(rows),
        floor <= level,
    ensures
        ({
            let n = top_from(w, rule, rows, level)->Some_0;
            &&& n.rows.len() > 0
            &&& n.level >= level
            &&& tree::level_slots(
                w,
                tree::root_slot(w, chunk::node_id(n)),
                floor,
            ) == spread(w, places(level_nodes(w, rule, level as u8, rows)), floor)
        }),
    decreases 256 - level,
{
    let lv = level as u8;
    let runs = chunk::chunks(lv, rule, rows);
    let ns = level_nodes(w, rule, lv, rows);
    lemma_chunks(lv, rule, rows);
    assert(ns == nodes_of(w, lv, runs));
    lemma_ordered(w, lv, rows, runs);
    if ns.len() == 0 {
        assert(runs.len() == 0);
        assert(joined(runs) =~= Seq::<Row>::empty());
    } else if ns.len() == 1 {
        let n = ns[0];
        assert(kept(w, n));
        lemma_kept(w, n);
        assert(runs[0].len() > 0);
        let s = tree::root_slot(w, chunk::node_id(n));
        assert(s == places(ns)[0]);
        assert(places(ns) =~= seq![s]);
        assert(seq![s].drop_last() =~= Seq::<Slot>::empty());
        reveal_with_fuel(spread, 2);
        assert(spread(w, seq![s], floor) =~= tree::level_slots(w, s, floor));
    } else {
        let up = child_rows(ns);
        lemma_children_small(w, ns);
        assert(stands_from(w, rule, up, level + 1));
        lemma_under_top(w, rule, up, level + 1, floor);
        let above = chunk::chunks((level + 1) as u8, rule, up);
        lemma_chunks((level + 1) as u8, rule, up);
        lemma_level_spread(w, ns, lv, above, floor, above.len());
        let ps = places(nodes_of(w, (level + 1) as u8, above));
        assert(ps.take(above.len() as int) =~= ps);
        lemma_offset_len(above, above.len() as int);
        assert(places(ns).take(ns.len() as int) =~= places(ns));
    }
}

/// The rows of a level of a tree.
pub open spec fn level_rows(w: BlockMap, rule: Rule, rows: Seq<Row>, level: nat) -> Seq<Row>
    decreases level,
{
    if level == 0 {
        rows
    } else {
        let below = level_rows(w, rule, rows, (level - 1) as nat);
        child_rows(level_nodes(w, rule, (level - 1) as u8, below))
    }
}

/// The nodes of the leaves hold the entries.
proof fn lemma_flat_places(w: BlockMap, runs: Seq<Seq<Row>>, n: nat)
    requires
        n <= runs.len(),
    ensures
        tree::flat(places(nodes_of(w, 0, runs)).take(n as int)) == joined(
            runs.take(n as int),
        ).map_values(|r: Row| tree::entry(r)),
    decreases n,
{
    let f = |r: Row| tree::entry(r);
    let ns = nodes_of(w, 0, runs);
    let ps = places(ns);
    if n == 0 {
        assert(ps.take(0) =~= Seq::<Slot>::empty());
        assert(joined(runs.take(0)).map_values(f) =~= Seq::<Item>::empty());
    } else {
        lemma_flat_places(w, runs, (n - 1) as nat);
        assert(ps.take(n as int).drop_last() =~= ps.take(n - 1));
        assert(runs.take(n as int).drop_last() =~= runs.take(n - 1));
        assert(ps.take(n as int).last() == ps[n - 1]);
        let a = joined(runs.take(n - 1));
        let b = runs[n - 1];
        assert(tree::slot_items(ps[n - 1]) =~= b.map_values(f));
        assert((a + b).map_values(f) =~= a.map_values(f) + b.map_values(f));
    }
}

/// A tree gives back what it was built from: where every node is held, the entries
/// read under the root are the rows, all of them and in order.
pub proof fn law_a_standing_tree_holds_its_rows(w: BlockMap, rule: Rule, rows: Seq<Row>)
    requires
        stands(w, rule, rows),
        all_small(rows),
        node::sorted_rows(rows),
    ensures
        top(w, rule, rows) is Some,
        tree::items(w, chunk::node_id(top(w, rule, rows)->Some_0)) == rows.map_values(
            |r: Row| tree::entry(r),
        ),
{
    let n = top(w, rule, rows)->Some_0;
    let id = chunk::node_id(n);
    lemma_top_kept(w, rule, rows, 0);
    if rows.len() == 0 {
        let cs = chunk::chunks(0, rule, rows);
        assert(cs =~= Seq::<Seq<Row>>::empty());
        lemma_kept(w, n);
        let s = tree::root_slot(w, id);
        assert(tree::leaves(w, id) =~= seq![s]);
        tree::lemma_flat_one(s);
        assert(tree::items(w, id) =~= rows.map_values(|r: Row| tree::entry(r)));
    } else {
        lemma_under_top(w, rule, rows, 0, 0);
        let runs = chunk::chunks(0, rule, rows);
        let ps = places(nodes_of(w, 0, runs));
        lemma_spread_here(w, ps, 0);
        lemma_chunks(0, rule, rows);
        lemma_flat_places(w, runs, runs.len());
        assert(ps.take(runs.len() as int) =~= ps);
        assert(runs.take(runs.len() as int) =~= runs);
    }
}

// ---------------------------------------------------------------------------
// a series of pushes
// ---------------------------------------------------------------------------

/// What pushing rows one after the other into a clean chunker closes and leaves open.
/// None where one of them is refused.
pub open spec fn series(
    m: BlockMap,
    index: Seq<Known>,
    level: u8,
    rule: Rule,
    rows: Seq<Row>,
) -> Option<(Seq<NodeView>, Seq<Row>)>
    decreases rows.len(),
{
    if rows.len() == 0 {
        Some((Seq::empty(), Seq::empty()))
    } else {
        match series(m, index, level, rule, rows.drop_last()) {
            None => None,
            Some(s) => match chunk::pushed(m, index, level, rule, s.1, rows.last()) {
                Pushed::Done { closed, open, .. } => Some((s.0 + closed, open)),
                _ => None,
            },
        }
    }
}

/// The rows of some nodes.
pub open spec fn runs_of(nodes: Seq<NodeView>) -> Seq<Seq<Row>> {
    nodes.map_values(|n: NodeView| n.rows)
}

/// One push is one step of the cut.
proof fn lemma_push_cuts(
    m: BlockMap,
    index: Seq<Known>,
    level: u8,
    rule: Rule,
    c: Cut,
    row: Row,
)
    requires
        chunk::pushed(m, index, level, rule, c.open, row) is Done,
    ensures
        chunk::pushed(m, index, level, rule, c.open, row) matches Pushed::Done { closed, open, .. }
            && chunk::step(level, rule, c, row) == (Cut {
            closed: c.closed + runs_of(closed),
            open,
        }),
{
    let d = chunk::made_room(c, row);
    let next = d.open.push(row);
    let old = parity::groups(level, c.open).len();
    let new = parity::groups(level, next).len();
    chunk::lemma_made_node(m, index, level, c.open, old);
    chunk::lemma_made_node(m, index, level, next, new);
    if let Pushed::Done { closed, open, .. } = chunk::pushed(m, index, level, rule, c.open, row) {
        assert(chunk::step(level, rule, c, row).closed =~= c.closed + runs_of(closed));
    }
}

/// A chunker loses nothing and reorders nothing. The rows pushed are the rows of the nodes
/// it closed, in order, and then those it holds open; it closes where the cut closes, and
/// it is clean exactly when nothing was pushed or the rule fired on the last row.
pub proof fn law_a_series_of_pushes_keeps_every_entry(
    m: BlockMap,
    index: Seq<Known>,
    level: u8,
    rule: Rule,
    rows: Seq<Row>,
)
    requires
        all_small(rows),
        series(m, index, level, rule, rows) is Some,
    ensures
        ({
            let s = series(m, index, level, rule, rows)->Some_0;
            let c = chunk::cut_from(level, rule, chunk::uncut(), rows);
            &&& joined(runs_of(s.0)) + s.1 == rows
            &&& c == Cut { closed: runs_of(s.0), open: s.1 }
            &&& rows.len() > 0 ==> {
                let before = chunk::cut_from(level, rule, chunk::uncut(), rows.drop_last());
                let last = chunk::made_room(before, rows.last()).open.push(rows.last());
                s.1.len() == 0 <==> chunk::fires(level, rule, last)
            }
        }),
    decreases rows.len(),
{
    let s = series(m, index, level, rule, rows)->Some_0;
    lemma_cut(level, rule, rows);
    if rows.len() > 0 {
        let rest = rows.drop_last();
        assert forall|i: int| 0 <= i < rest.len() implies small(#[trigger] rest[i]) by {
            assert(rest[i] == rows[i]);
        }
        law_a_series_of_pushes_keeps_every_entry(m, index, level, rule, rest);
        let t = series(m, index, level, rule, rest)->Some_0;
        let c = Cut { closed: runs_of(t.0), open: t.1 };
        lemma_push_cuts(m, index, level, rule, c, rows.last());
        if let Pushed::Done { closed, open, .. } = chunk::pushed(
            m,
            index,
            level,
            rule,
            t.1,
            rows.last(),
        ) {
            assert(runs_of(t.0 + closed) =~= runs_of(t.0) + runs_of(closed));
        }
    } else {
        assert(runs_of(s.0) =~= Seq::<Seq<Row>>::empty());
    }
}

} // verus!
