//! A position that stands on a child slot, an id and a first key read out of the
//! parent, without the child being loaded.
//!
//! This is what makes a structural diff cheap: a slot carries everything a
//! comparison needs, the child's id and where its keys begin, and the child is
//! loaded only when the ids disagree.

use crate::cursor;
use crate::cursor::StepView;
use crate::merge;
use crate::node::{Node, NodeView, Payload, Row, Value};
use crate::store;
use crate::store::{BlockMap, Blocks, Fault, Held, HeldView, ReadError};
use crate::tree;
use crate::tree::{Item, Slot as Spot};
use crate::Cid;
use vstd::prelude::*;

verus! {

/// What a slot is: how deep it goes, and what it holds.
#[derive(Clone, Copy, PartialEq, Eq, Debug)]
pub enum Slot<'a> {
    /// A child subtree of `level`, not loaded.
    Sub { level: u8, id: Cid },
    /// An entry of a leaf: there is nothing below this.
    Entry(Value<'a>),
}

/// What a slot is, as a mathematical value.
#[verifier::ext_equal]
pub enum Place {
    Sub { level: int, id: Seq<u8> },
    Entry(Payload),
}

impl<'a> View for Slot<'a> {
    type V = Place;

    open spec fn view(&self) -> Place {
        match *self {
            Slot::Sub { level, id } => Place::Sub { level: level as int, id: id@ },
            Slot::Entry(v) => Place::Entry(v@),
        }
    }
}

/// A slot cursor as a mathematical value: the loaded nodes, root first, each with
/// the slot it takes; whether it stands on the root itself; and whether it is past
/// the last slot.
#[verifier::ext_equal]
pub struct SlotView {
    pub path: Seq<StepView>,
    pub at_root: bool,
    pub done: bool,
}

/// A path of loaded nodes, each opened from the one before.
pub open spec fn chain(m: BlockMap, path: Seq<StepView>) -> bool {
    &&& forall|i: int|
        0 <= i < path.len() ==> tree::steady((#[trigger] path[i]).held) && 0 <= path[i].taken
            < path[i].held.node.rows.len()
    &&& forall|i: int|
        #![trigger path[i]]
        0 <= i && i + 1 < path.len() ==> path[i].held.node.level > 0 && cursor::links(
            m,
            path[i],
            path[i + 1],
        )
}

/// What holds of every slot cursor.
pub open spec fn placed(m: BlockMap, v: SlotView) -> bool {
    &&& chain(m, v.path)
    &&& v.path.len() == 0 ==> v.done && !v.at_root
    &&& v.at_root ==> v.path.len() == 1 && v.path[0].taken == 0
    &&& v.path.len() > 0 ==> v.path[0].held.upper is None && store::loaded(m, v.path[0].cid)
        == Ok::<NodeView, Fault>(v.path[0].held.node)
}

/// The first key of the current slot.
pub open spec fn key_of(v: SlotView) -> Seq<u8> {
    let s = v.path.last();
    if v.at_root {
        s.held.node.rows[0].key
    } else {
        s.held.node.rows[s.taken].key
    }
}

/// What the current slot is.
pub open spec fn place_of(v: SlotView) -> Place {
    let s = v.path.last();
    if v.at_root {
        Place::Sub { level: s.held.node.level as int, id: s.cid }
    } else if s.held.node.level == 0 {
        Place::Entry(s.held.node.rows[s.taken].held)
    } else {
        Place::Sub {
            level: s.held.node.level - 1,
            id: store::child_cid(s.held.node.rows[s.taken]),
        }
    }
}

/// The first key after the current slot.
pub open spec fn end_of(v: SlotView) -> Option<Seq<u8>> {
    if v.at_root {
        None
    } else {
        store::child_bound(v.path.last().held, v.path.last().taken)
    }
}

/// The path to the next slot, as high as it can be; empty where there is none.
pub open spec fn next_path(path: Seq<StepView>) -> Seq<StepView>
    decreases path.len(),
{
    if path.len() == 0 {
        path
    } else {
        let s = path.last();
        if s.taken + 1 < s.held.node.rows.len() {
            path.drop_last().push(StepView { cid: s.cid, held: s.held, taken: s.taken + 1 })
        } else {
            next_path(path.drop_last())
        }
    }
}

/// Past the current slot.
pub open spec fn advanced(v: SlotView) -> SlotView {
    if v.at_root {
        SlotView { path: v.path, at_root: true, done: true }
    } else {
        let p = next_path(v.path);
        SlotView { path: p, at_root: false, done: v.done || p.len() == 0 }
    }
}

/// Into the current slot.
pub open spec fn descended(m: BlockMap, v: SlotView) -> Result<SlotView, Fault> {
    if v.at_root {
        Ok(SlotView { path: v.path, at_root: false, done: v.done })
    } else {
        let s = v.path.last();
        match store::opened(m, s.held, s.taken) {
            Err(f) => Err(f),
            Ok(c) => Ok(
                SlotView {
                    path: v.path.push(
                        StepView {
                            cid: store::child_cid(s.held.node.rows[s.taken]),
                            held: c,
                            taken: 0,
                        },
                    ),
                    at_root: false,
                    done: v.done,
                },
            ),
        }
    }
}

/// A path to the next slot is a path.
proof fn lemma_next_chain(m: BlockMap, path: Seq<StepView>)
    requires
        chain(m, path),
    ensures
        chain(m, next_path(path)),
        next_path(path).len() <= path.len(),
        next_path(path).len() > 0 ==> next_path(path)[0].held == path[0].held
            && next_path(path)[0].cid == path[0].cid,
    decreases path.len(),
{
    if path.len() > 0 {
        let s = path.last();
        let rest = path.drop_last();
        assert(chain(m, rest)) by {
            assert forall|i: int| 0 <= i < rest.len() implies tree::steady((#[trigger] rest[i]).held)
                && 0 <= rest[i].taken < rest[i].held.node.rows.len() by {
                assert(rest[i] == path[i]);
            }
            assert forall|i: int|
                #![trigger rest[i]]
                0 <= i && i + 1 < rest.len() implies rest[i].held.node.level > 0 && cursor::links(
                m,
                rest[i],
                rest[i + 1],
            ) by {
                assert(rest[i] == path[i] && rest[i + 1] == path[i + 1]);
            }
        }
        if s.taken + 1 < s.held.node.rows.len() {
            let p = next_path(path);
            let k = path.len() - 1;
            assert(path[k] == s);
            assert forall|i: int| 0 <= i < p.len() implies tree::steady((#[trigger] p[i]).held) && 0
                <= p[i].taken < p[i].held.node.rows.len() by {
                if i < k {
                    assert(p[i] == path[i]);
                }
            }
            assert forall|i: int|
                #![trigger p[i]]
                0 <= i && i + 1 < p.len() implies p[i].held.node.level > 0 && cursor::links(
                m,
                p[i],
                p[i + 1],
            ) by {
                assert(p[i] == path[i]);
                assert(p[i + 1].held == path[i + 1].held && p[i + 1].cid == path[i + 1].cid);
            }
        } else {
            lemma_next_chain(m, rest);
        }
    }
}

/// A cursor past its slot is a cursor.
pub proof fn lemma_advanced(m: BlockMap, v: SlotView)
    requires
        placed(m, v),
    ensures
        placed(m, advanced(v)),
{
    if !v.at_root {
        lemma_next_chain(m, v.path);
    }
}

/// A cursor in its slot is a cursor.
pub proof fn lemma_descended(m: BlockMap, v: SlotView)
    requires
        placed(m, v),
        v.path.len() > 0,
        place_of(v) is Sub,
        descended(m, v) is Ok,
    ensures
        placed(m, descended(m, v)->Ok_0),
{
    if !v.at_root {
        let s = v.path.last();
        let k = v.path.len() - 1;
        assert(v.path[k] == s);
        let c = store::opened(m, s.held, s.taken)->Ok_0;
        tree::lemma_loaded(m, store::child_cid(s.held.node.rows[s.taken]));
        assert(tree::steady(c)) by {
            reveal(tree::steady);
        }
        let p = descended(m, v)->Ok_0.path;
        assert forall|i: int| 0 <= i < p.len() implies tree::steady((#[trigger] p[i]).held) && 0
            <= p[i].taken < p[i].held.node.rows.len() by {
            if i < v.path.len() {
                assert(p[i] == v.path[i]);
            }
        }
        assert forall|i: int|
            #![trigger p[i]]
            0 <= i && i + 1 < p.len() implies p[i].held.node.level > 0 && cursor::links(
            m,
            p[i],
            p[i + 1],
        ) by {
            assert(p[i] == v.path[i]);
            if i + 1 < v.path.len() {
                assert(p[i + 1] == v.path[i + 1]);
            }
        }
    }
}

// ---------------------------------------------------------------------------
// what is left
// ---------------------------------------------------------------------------

/// The entries of slot `t` of a node.
pub open spec fn items_at(w: BlockMap, h: HeldView, t: int) -> Seq<Item> {
    if h.node.level == 0 {
        seq![tree::entry(h.node.rows[t])]
    } else {
        tree::flat(tree::level_slots(w, tree::child_slot(w, h, t), 0))
    }
}

/// The entries of a node from slot `t` on.
pub open spec fn items_from(w: BlockMap, h: HeldView, t: int) -> Seq<Item>
    decreases h.node.rows.len() - t,
{
    if t >= h.node.rows.len() {
        Seq::empty()
    } else {
        items_at(w, h, t) + items_from(w, h, t + 1)
    }
}

/// The entries after the slots a path takes.
pub open spec fn items_after(w: BlockMap, path: Seq<StepView>) -> Seq<Item>
    decreases path.len(),
{
    if path.len() == 0 {
        Seq::empty()
    } else {
        items_from(w, path.last().held, path.last().taken + 1) + items_after(w, path.drop_last())
    }
}

/// The entries of the current slot.
pub open spec fn here(w: BlockMap, v: SlotView) -> Seq<Item> {
    if v.at_root {
        items_from(w, v.path[0].held, 0)
    } else {
        items_at(w, v.path.last().held, v.path.last().taken)
    }
}

/// The entries from the current slot on.
pub open spec fn left(w: BlockMap, v: SlotView) -> Seq<Item> {
    if v.done {
        Seq::empty()
    } else if v.at_root {
        items_from(w, v.path[0].held, 0)
    } else {
        items_from(w, v.path.last().held, v.path.last().taken) + items_after(
            w,
            v.path.drop_last(),
        )
    }
}

/// What comes after the slots of a path is what is left on the next path.
proof fn lemma_after_next(w: BlockMap, path: Seq<StepView>)
    ensures
        ({
            let p = next_path(path);
            items_after(w, path) == if p.len() == 0 {
                Seq::empty()
            } else {
                items_from(w, p.last().held, p.last().taken) + items_after(w, p.drop_last())
            }
        }),
    decreases path.len(),
{
    if path.len() > 0 {
        let s = path.last();
        let p = next_path(path);
        if s.taken + 1 < s.held.node.rows.len() {
            assert(p.drop_last() =~= path.drop_last());
        } else {
            lemma_after_next(w, path.drop_last());
            let rest = items_after(w, path.drop_last());
            assert(items_from(w, s.held, s.taken + 1) + rest =~= rest);
        }
    }
}

/// What is left is the current slot, and what is left past it.
pub proof fn lemma_left_advanced(m: BlockMap, w: BlockMap, v: SlotView)
    requires
        placed(m, v),
        !v.done,
    ensures
        left(w, v) == here(w, v) + left(w, advanced(v)),
{
    if v.at_root {
        assert(here(w, v) + left(w, advanced(v)) =~= here(w, v));
    } else {
        let s = v.path.last();
        let k = v.path.len() - 1;
        assert(v.path[k] == s);
        lemma_after_next(w, v.path);
        let a = items_at(w, s.held, s.taken);
        let b = items_from(w, s.held, s.taken + 1);
        let c = items_after(w, v.path.drop_last());
        assert(a + b + c =~= a + (b + c));
        assert(items_after(w, v.path) == b + c);
    }
}

/// The entries under the first slots of a branch, and from there on.
proof fn lemma_from_children(w: BlockMap, h: HeldView, t: int)
    requires
        h.node.level > 0,
        0 <= t <= h.node.rows.len(),
    ensures
        tree::flat(tree::child_slots(w, h, 0, t as nat)) + items_from(w, h, t) == items_from(
            w,
            h,
            0,
        ),
    decreases t,
{
    if t == 0 {
        assert(tree::flat(tree::child_slots(w, h, 0, 0)) =~= Seq::<Item>::empty());
        assert(Seq::<Item>::empty() + items_from(w, h, 0) =~= items_from(w, h, 0));
    } else {
        lemma_from_children(w, h, t - 1);
        let slots = tree::child_slots(w, h, 0, (t - 1) as nat);
        let more = tree::level_slots(w, tree::child_slot(w, h, t - 1), 0);
        tree::lemma_flat_join(slots, more);
        assert(tree::flat(slots) + (tree::flat(more) + items_from(w, h, t)) =~= tree::flat(slots)
            + tree::flat(more) + items_from(w, h, t));
    }
}

/// The entries of a leaf from a row on.
proof fn lemma_from_rows(w: BlockMap, h: HeldView, t: int)
    requires
        h.node.level == 0,
        0 <= t <= h.node.rows.len(),
    ensures
        items_from(w, h, t) == h.node.rows.skip(t).map_values(|r: Row| tree::entry(r)),
    decreases h.node.rows.len() - t,
{
    let f = |r: Row| tree::entry(r);
    let want = h.node.rows.skip(t).map_values(f);
    if t == h.node.rows.len() {
        assert(want =~= Seq::<Item>::empty());
    } else {
        lemma_from_rows(w, h, t + 1);
        assert(want =~= seq![tree::entry(h.node.rows[t])] + h.node.rows.skip(t + 1).map_values(f));
    }
}

/// The entries of a node are those under its place.
pub proof fn lemma_all_items(w: BlockMap, s: Spot, h: HeldView)
    requires
        s.opened == Ok::<HeldView, Fault>(h),
    ensures
        tree::flat(tree::level_slots(w, s, 0)) == items_from(w, h, 0),
{
    if h.node.level == 0 {
        assert(tree::level_slots(w, s, 0) =~= seq![s]);
        tree::lemma_flat_one(s);
        lemma_from_rows(w, h, 0);
        assert(h.node.rows.skip(0) =~= h.node.rows);
    } else {
        let n = h.node.rows.len();
        lemma_from_children(w, h, n as int);
        let all = tree::flat(tree::child_slots(w, h, 0, n));
        assert(all + items_from(w, h, n as int) =~= all);
    }
}

/// What opens in a store opens in a larger one.
pub proof fn lemma_opened_grows(m: BlockMap, w: BlockMap, h: HeldView, t: int)
    requires
        m.submap_of(w),
        m.contains_key(store::child_cid(h.node.rows[t])),
    ensures
        store::opened(w, h, t) == store::opened(m, h, t),
{
    reveal(store::loaded);
    let cid = store::child_cid(h.node.rows[t]);
    assert(m.dom().contains(cid));
    assert(w.dom().contains(cid));
}

/// What opens is held.
pub proof fn lemma_opened_held(m: BlockMap, h: HeldView, t: int)
    ensures
        store::opened(m, h, t) is Ok ==> m.contains_key(store::child_cid(h.node.rows[t])),
        m.contains_key(store::child_cid(h.node.rows[t])) ==> !(store::opened(m, h, t) matches Err(
            Fault::Need(_),
        )),
{
    reveal(store::loaded);
}

/// Going into a slot leaves what is left.
pub proof fn lemma_left_descended(m: BlockMap, w: BlockMap, v: SlotView)
    requires
        placed(m, v),
        m.submap_of(w),
        !v.done,
        place_of(v) is Sub,
        descended(m, v) is Ok,
    ensures
        left(w, descended(m, v)->Ok_0) == left(w, v),
{
    let d = descended(m, v)->Ok_0;
    if v.at_root {
        assert(v.path.drop_last() =~= Seq::<StepView>::empty());
        let all = items_from(w, v.path[0].held, 0);
        assert(all + items_after(w, v.path.drop_last()) =~= all);
    } else {
        let s = v.path.last();
        let k = v.path.len() - 1;
        assert(v.path[k] == s);
        lemma_opened_held(m, s.held, s.taken);
        lemma_opened_grows(m, w, s.held, s.taken);
        let c = store::opened(m, s.held, s.taken)->Ok_0;
        lemma_all_items(w, tree::child_slot(w, s.held, s.taken), c);
        assert(d.path.drop_last() =~= v.path);
        let a = items_at(w, s.held, s.taken);
        let b = items_from(w, s.held, s.taken + 1);
        let e = items_after(w, v.path.drop_last());
        assert(a + b + e =~= a + (b + e));
        assert(items_after(w, v.path) == b + e);
    }
}

/// The current slot's entries ascend from its key to its end, in any store.
pub proof fn lemma_here_span(m: BlockMap, w: BlockMap, v: SlotView)
    requires
        placed(m, v),
        m.submap_of(w),
        v.path.len() > 0,
    ensures
        tree::item_span(here(w, v), key_of(v), end_of(v)),
{
    let s = v.path.last();
    let k = v.path.len() - 1;
    assert(v.path[k] == s);
    assert(tree::steady(s.held));
    if v.at_root {
        let cid = s.cid;
        assert(store::loaded(w, cid) == store::loaded(m, cid)) by {
            reveal(store::loaded);
            assert(m.dom().contains(cid));
            assert(w.dom().contains(cid));
        }
        let root = tree::root_slot(w, cid);
        assert(root.opened == Ok::<HeldView, Fault>(s.held));
        lemma_all_items(w, root, s.held);
        tree::lemma_tree_slots(w, cid, 0);
        tree::lemma_flat_span(tree::leaves(w, cid), root.key, None);
    } else if s.held.node.level == 0 {
        tree::lemma_child_under(s.held, s.taken);
        let one = here(w, v);
        assert(one.len() == 1);
    } else {
        let c = tree::child_slot(w, s.held, s.taken);
        let bound = store::child_bound(s.held, s.taken);
        tree::lemma_child_sound(w, s.held, s.taken);
        tree::lemma_child_under(s.held, s.taken);
        tree::lemma_level_slots(w, c, bound, 0);
        tree::lemma_flat_span(tree::level_slots(w, c, 0), c.key, bound);
    }
}

/// The first item of what is left at an entry or before a subtree.
pub proof fn lemma_left_first(m: BlockMap, w: BlockMap, v: SlotView)
    requires
        placed(m, v),
        m.submap_of(w),
        !v.done,
    ensures
        left(w, v).len() > 0,
        left(w, v)[0].key == key_of(v),
        place_of(v) matches Place::Entry(p) ==> left(w, v)[0].what == Ok::<
            Payload,
            Fault,
        >(p) && left(w, v).skip(1) == left(w, advanced(v)),
{
    lemma_left_advanced(m, w, v);
    lemma_here_span(m, w, v);
    let h = here(w, v);
    assert(left(w, v)[0] == h[0]);
    if place_of(v) is Entry {
        assert(h.len() == 1);
        assert(left(w, v).skip(1) =~= left(w, advanced(v)));
    }
}

/// Going into a slot stays at its key.
pub proof fn lemma_descended_key(m: BlockMap, v: SlotView)
    requires
        placed(m, v),
        v.path.len() > 0,
        place_of(v) is Sub,
        descended(m, v) is Ok,
    ensures
        key_of(descended(m, v)->Ok_0) == key_of(v),
        descended(m, v)->Ok_0.done == v.done,
{
    assert(v.path[v.path.len() - 1] == v.path.last());
}

/// Is every item an entry?
pub open spec fn no_gaps(its: Seq<Item>) -> bool {
    forall|i: int| 0 <= i < its.len() ==> (#[trigger] its[i]).what is Ok
}

/// Where there are no gaps, the slot of a branch opens.
pub proof fn lemma_at_opens(w: BlockMap, h: HeldView, t: int)
    requires
        h.node.level > 0,
        no_gaps(items_at(w, h, t)),
    ensures
        store::opened(w, h, t) is Ok,
        items_at(w, h, t) == items_from(w, store::opened(w, h, t)->Ok_0, 0),
{
    let s = tree::child_slot(w, h, t);
    match store::opened(w, h, t) {
        Err(f) => {
            assert(tree::level_slots(w, s, 0) =~= seq![s]);
            tree::lemma_flat_one(s);
            assert(items_at(w, h, t)[0].what is Err);
        },
        Ok(c) => {
            lemma_all_items(w, s, c);
        },
    }
}

/// The same node has the same entries wherever it is reached, where there are no
/// gaps.
pub proof fn lemma_same_node(w: BlockMap, a: HeldView, b: HeldView, t: int)
    requires
        a.node == b.node,
        0 <= t,
        no_gaps(items_from(w, a, t)),
        no_gaps(items_from(w, b, t)),
    ensures
        items_from(w, a, t) == items_from(w, b, t),
    decreases a.node.level, a.node.rows.len() - t,
{
    if t < a.node.rows.len() {
        let xa = items_at(w, a, t);
        let xb = items_at(w, b, t);
        lemma_gaps_join(xa, items_from(w, a, t + 1));
        lemma_gaps_join(xb, items_from(w, b, t + 1));
        lemma_same_node(w, a, b, t + 1);
        if a.node.level > 0 {
            lemma_at_opens(w, a, t);
            lemma_at_opens(w, b, t);
            let ca = store::opened(w, a, t)->Ok_0;
            let cb = store::opened(w, b, t)->Ok_0;
            assert(ca.node == cb.node);
            lemma_same_node(w, ca, cb, 0);
        }
    }
}

/// Gaps of two runs.
pub proof fn lemma_gaps_join(a: Seq<Item>, b: Seq<Item>)
    ensures
        no_gaps(a + b) <==> no_gaps(a) && no_gaps(b),
{
    if no_gaps(a + b) {
        assert forall|i: int| 0 <= i < a.len() implies (#[trigger] a[i]).what is Ok by {
            assert((a + b)[i] == a[i]);
        }
        assert forall|i: int| 0 <= i < b.len() implies (#[trigger] b[i]).what is Ok by {
            assert((a + b)[a.len() + i] == b[i]);
        }
    }
    if no_gaps(a) && no_gaps(b) {
        assert forall|i: int| 0 <= i < (a + b).len() implies (#[trigger] (a + b)[i]).what is Ok by {
            if i < a.len() {
                assert((a + b)[i] == a[i]);
            } else {
                assert((a + b)[i] == b[i - a.len()]);
            }
        }
    }
}

/// Slots with the same id and level hold the same entries, where there are no gaps.
pub proof fn lemma_same_slot(m: BlockMap, w: BlockMap, a: SlotView, b: SlotView)
    requires
        placed(m, a),
        placed(m, b),
        m.submap_of(w),
        a.path.len() > 0,
        b.path.len() > 0,
        place_of(a) is Sub,
        place_of(a) == place_of(b),
        no_gaps(here(w, a)),
        no_gaps(here(w, b)),
    ensures
        here(w, a) == here(w, b),
{
    let ha = lemma_slot_node(m, w, a);
    let hb = lemma_slot_node(m, w, b);
    lemma_same_node(w, ha, hb, 0);
}

/// The node of a slot without gaps.
proof fn lemma_slot_node(m: BlockMap, w: BlockMap, v: SlotView) -> (h: HeldView)
    requires
        placed(m, v),
        m.submap_of(w),
        v.path.len() > 0,
        place_of(v) is Sub,
        no_gaps(here(w, v)),
    ensures
        here(w, v) == items_from(w, h, 0),
        store::loaded(w, place_of(v)->id) == Ok::<NodeView, Fault>(h.node),
{
    let s = v.path.last();
    let k = v.path.len() - 1;
    assert(v.path[k] == s);
    if v.at_root {
        let cid = s.cid;
        assert(store::loaded(w, cid) == store::loaded(m, cid)) by {
            reveal(store::loaded);
            assert(m.dom().contains(cid));
            assert(w.dom().contains(cid));
        }
        s.held
    } else {
        lemma_at_opens(w, s.held, s.taken);
        store::opened(w, s.held, s.taken)->Ok_0
    }
}

// ---------------------------------------------------------------------------
// moving ends
// ---------------------------------------------------------------------------

/// How many slots there are at and below slot `t` of a node.
pub open spec fn mass_at(m: BlockMap, h: HeldView, t: int) -> nat
    decreases h.node.level, 0nat, 0nat,
{
    if h.node.level == 0 {
        1
    } else {
        match store::opened(m, h, t) {
            Err(_) => 1,
            Ok(c) => if c.node.level < h.node.level {
                1 + mass_from(m, c, 0)
            } else {
                1
            },
        }
    }
}

/// How many slots there are in a node from slot `t` on.
pub open spec fn mass_from(m: BlockMap, h: HeldView, t: int) -> nat
    decreases h.node.level, 1nat, h.node.rows.len() - t,
{
    if t >= h.node.rows.len() || t < 0 {
        0
    } else {
        mass_at(m, h, t) + mass_from(m, h, t + 1)
    }
}

/// How many slots come after those a path takes.
pub open spec fn mass_after(m: BlockMap, path: Seq<StepView>) -> nat
    decreases path.len(),
{
    if path.len() == 0 {
        0
    } else {
        mass_from(m, path.last().held, path.last().taken + 1) + mass_after(m, path.drop_last())
    }
}

/// How many slots are left.
pub open spec fn mass(m: BlockMap, v: SlotView) -> nat {
    if v.done || v.path.len() == 0 {
        0
    } else if v.at_root {
        1 + mass_from(m, v.path[0].held, 0)
    } else {
        mass_from(m, v.path.last().held, v.path.last().taken) + mass_after(m, v.path.drop_last())
    }
}

/// The slots after those of a path are those left on the next path.
proof fn lemma_mass_next(m: BlockMap, path: Seq<StepView>)
    requires
        chain(m, path),
    ensures
        ({
            let p = next_path(path);
            mass_after(m, path) == if p.len() == 0 {
                0
            } else {
                mass_from(m, p.last().held, p.last().taken) + mass_after(m, p.drop_last())
            }
        }),
    decreases path.len(),
{
    if path.len() > 0 {
        let s = path.last();
        let p = next_path(path);
        let rest = path.drop_last();
        if s.taken + 1 < s.held.node.rows.len() {
            assert(p.drop_last() =~= rest);
        } else {
            assert forall|i: int| 0 <= i < rest.len() implies tree::steady((#[trigger] rest[i]).held)
                && 0 <= rest[i].taken < rest[i].held.node.rows.len() by {
                assert(rest[i] == path[i]);
            }
            assert forall|i: int|
                #![trigger rest[i]]
                0 <= i && i + 1 < rest.len() implies rest[i].held.node.level > 0 && cursor::links(
                m,
                rest[i],
                rest[i + 1],
            ) by {
                assert(rest[i] == path[i] && rest[i + 1] == path[i + 1]);
            }
            lemma_mass_next(m, rest);
        }
    }
}

/// Every move leaves fewer slots.
pub proof fn lemma_mass_advanced(m: BlockMap, v: SlotView)
    requires
        placed(m, v),
        !v.done,
    ensures
        mass(m, advanced(v)) < mass(m, v),
{
    if !v.at_root {
        let s = v.path.last();
        let k = v.path.len() - 1;
        assert(v.path[k] == s);
        lemma_mass_next(m, v.path);
        assert(mass_from(m, s.held, s.taken) == mass_at(m, s.held, s.taken) + mass_from(
            m,
            s.held,
            s.taken + 1,
        ));
        assert(mass_at(m, s.held, s.taken) > 0);
    }
}

/// Going down leaves fewer slots.
pub proof fn lemma_mass_descended(m: BlockMap, v: SlotView)
    requires
        placed(m, v),
        !v.done,
        place_of(v) is Sub,
        descended(m, v) is Ok,
    ensures
        mass(m, descended(m, v)->Ok_0) < mass(m, v),
{
    let d = descended(m, v)->Ok_0;
    let s = v.path.last();
    let k = v.path.len() - 1;
    assert(v.path[k] == s);
    if v.at_root {
        assert(v.path.drop_last() =~= Seq::<StepView>::empty());
    } else {
        assert(d.path.drop_last() =~= v.path);
        let c = store::opened(m, s.held, s.taken)->Ok_0;
        assert(c.node.level < s.held.node.level);
        assert(mass_at(m, s.held, s.taken) == 1 + mass_from(m, c, 0));
        assert(mass_from(m, s.held, s.taken) == mass_at(m, s.held, s.taken) + mass_from(
            m,
            s.held,
            s.taken + 1,
        ));
        assert(mass_after(m, v.path) == mass_from(m, s.held, s.taken + 1) + mass_after(
            m,
            v.path.drop_last(),
        ));
    }
}

// ---------------------------------------------------------------------------
// the cursor
// ---------------------------------------------------------------------------

struct Frame<'a> {
    id: Cid,
    node: Held<'a>,
    taken: usize,
}

impl<'a> View for Frame<'a> {
    type V = StepView;

    closed spec fn view(&self) -> StepView {
        StepView { cid: self.id@, held: self.node@, taken: self.taken as int }
    }
}

/// The path of some frames.
spec fn steps(path: Seq<Frame<'_>>) -> Seq<StepView> {
    path.map_values(|f: Frame<'_>| f@)
}

/// A position that stands on a child slot.
///
/// The floor moves down lazily and back up on its own: finishing a descended
/// subtree pops the path to the shallowest node that still has a sibling, so the
/// next comparison happens as high in the tree as it can.
pub struct SlotCursor<'a, B: Blocks> {
    blocks: &'a B,
    /// Loaded nodes, root first. `taken` is the slot the cursor is on; the last
    /// element's `taken` is the current slot and its child is not loaded.
    path: Vec<Frame<'a>>,
    /// Past the last slot of the tree.
    done: bool,
    /// The cursor stands on the root itself, as a slot: the root is loaded, for its
    /// level and first key, but the cursor has not entered it. So a tree that is a
    /// child of the other is skipped by one comparison.
    at_root: bool,
}

impl<'a, B: Blocks> View for SlotCursor<'a, B> {
    type V = SlotView;

    closed spec fn view(&self) -> SlotView {
        SlotView { path: steps(self.path@), at_root: self.at_root, done: self.done }
    }
}

impl<'a, B: Blocks> SlotCursor<'a, B> {
    /// The source it reads.
    pub closed spec fn source(&self) -> BlockMap {
        self.blocks.held()
    }

    /// A cursor is on a path of its source.
    pub closed spec fn wf(&self) -> bool {
        placed(self.blocks.held(), self@)
    }

    /// What a cursor's invariant says.
    pub proof fn lemma_wf(&self)
        requires
            self.wf(),
        ensures
            placed(self.source(), self@),
    {
    }

    /// Open at the first slot of the tree. `None` if the tree is empty.
    ///
    /// Loads the root and nothing else, so two trees are compared for equality at a
    /// cost of one block each.
    pub fn open(blocks: &'a B, root: &Cid) -> (r: Result<Option<Self>, ReadError>)
        ensures
            match r {
                Err(e) => store::loaded(blocks.held(), root@) == Err::<NodeView, Fault>(e@),
                Ok(None) => store::loaded(blocks.held(), root@) is Ok && store::loaded(
                    blocks.held(),
                    root@,
                )->Ok_0.rows.len() == 0,
                Ok(Some(c)) => {
                    &&& c.wf()
                    &&& c.source() == blocks.held()
                    &&& store::loaded(blocks.held(), root@) is Ok
                    &&& ({
                        let n = store::loaded(blocks.held(), root@)->Ok_0;
                        &&& n.rows.len() > 0
                        &&& c@ == (SlotView {
                            path: seq![
                                StepView {
                                    cid: root@,
                                    held: HeldView { node: n, upper: None },
                                    taken: 0,
                                },
                            ],
                            at_root: true,
                            done: false,
                        })
                    })
                },
            },
    {
        let node = match Held::root(blocks, root) {
            Err(e) => return Err(e),
            Ok(h) => h,
        };
        proof {
            tree::lemma_loaded(blocks.held(), root@);
            reveal(tree::steady);
        }
        if node.node().is_empty() {
            return Ok(None);
        }
        let mut path: Vec<Frame<'a>> = Vec::new();
        let f = Frame { id: *root, node, taken: 0 };
        path.push(f);
        assert(steps(path@) =~= seq![f@]);
        Ok(Some(SlotCursor { blocks, path, done: false, at_root: true }))
    }

    /// A cursor with no slot at all, as there is none in an empty tree.
    pub(crate) fn nowhere(blocks: &'a B) -> (r: Self)
        ensures
            r.wf(),
            r.source() == blocks.held(),
            r@ == (SlotView { path: Seq::empty(), at_root: false, done: true }),
    {
        let r = SlotCursor { blocks, path: Vec::new(), done: true, at_root: false };
        assert(steps(r.path@) =~= Seq::<StepView>::empty());
        r
    }

    /// Is it past the last slot?
    pub fn finished(&self) -> (r: bool)
        ensures
            r == self@.done,
    {
        self.done
    }

    /// The node the current slot is in.
    fn top(&self) -> (r: &Frame<'a>)
        requires
            self@.path.len() > 0,
        ensures
            r@ == self@.path.last(),
    {
        assert(self@.path.len() == self.path@.len());
        let n = self.path.len();
        &self.path[n - 1]
    }

    /// The first key of the current slot. For an entry, the entry's key; for the
    /// root, the smallest key in the tree.
    pub fn key(&self) -> (r: Vec<u8>)
        requires
            self.wf(),
            self@.path.len() > 0,
        ensures
            r@ == key_of(self@),
    {
        let s = self.top();
        assert(self@.path[self@.path.len() - 1] == s@);
        if self.at_root {
            return s.node.node().key(0);
        }
        s.node.node().key(s.taken)
    }

    /// What the current slot is.
    pub fn slot(&self) -> (r: Slot<'a>)
        requires
            self.wf(),
            self@.path.len() > 0,
        ensures
            r@ == place_of(self@),
    {
        let s = self.top();
        assert(self@.path[self@.path.len() - 1] == s@);
        if self.at_root {
            return Slot::Sub { level: s.node.node().level(), id: s.id };
        }
        if s.node.node().is_leaf() {
            Slot::Entry(s.node.node().value(s.taken))
        } else {
            let (id, _) = s.node.node().child(s.taken);
            Slot::Sub { level: s.node.node().level() - 1, id }
        }
    }

    /// How deep this slot reaches: the child's level, or `None` for an entry. Equal
    /// ids imply equal levels, so a comparison is only meaningful between slots of
    /// the same depth.
    pub fn level(&self) -> (r: Option<u8>)
        requires
            self.wf(),
            self@.path.len() > 0,
        ensures
            match r {
                Some(l) => place_of(self@) matches Place::Sub { level, .. } && level == l,
                None => place_of(self@) is Entry,
            },
    {
        match self.slot() {
            Slot::Sub { level, .. } => Some(level),
            Slot::Entry(_) => None,
        }
    }

    /// The first key after this slot, never by loading anything. `None` at the end
    /// of the tree. The slot's next sibling, else the bound its node was opened
    /// under: so a whole subtree can be dismissed without opening it.
    pub fn end_key(&self) -> (r: Option<Vec<u8>>)
        requires
            self.wf(),
            self@.path.len() > 0,
        ensures
            r is Some <==> end_of(self@) is Some,
            r is Some ==> r->Some_0@ == end_of(self@)->Some_0,
    {
        if self.at_root {
            // Nothing follows the whole tree.
            return None;
        }
        let s = self.top();
        assert(self@.path[self@.path.len() - 1] == s@);
        s.node.child_upper(s.taken)
    }

    /// Load the current slot's child and stand on its first slot. The one call that
    /// costs a block, so every read this cursor makes is a comparison that failed or
    /// a position that had to be reached.
    pub fn descend(&mut self) -> (r: Result<Cid, ReadError>)
        requires
            old(self).wf(),
            old(self)@.path.len() > 0,
            place_of(old(self)@) is Sub,
        ensures
            final(self).wf(),
            final(self).source() == old(self).source(),
            match r {
                Ok(id) => id@ == place_of(old(self)@)->id && descended(
                    old(self).source(),
                    old(self)@,
                ) == Ok::<SlotView, Fault>(final(self)@),
                Err(e) => final(self)@ == old(self)@ && descended(old(self).source(), old(self)@)
                    == Err::<SlotView, Fault>(e@),
            },
    {
        let ghost v = self@;
        let ghost m = self.blocks.held();
        proof {
            assert(v.path[v.path.len() - 1] == v.path.last());
            if descended(m, v) is Ok {
                lemma_descended(m, v);
            }
        }
        if self.at_root {
            // The root is already loaded; entering it costs nothing.
            let id = self.top().id;
            self.at_root = false;
            return Ok(id);
        }
        let (id, opened) = {
            let s = self.top();
            let (id, _) = s.node.node().child(s.taken);
            (id, s.node.open(self.blocks, s.taken))
        };
        match opened {
            Err(e) => Err(e),
            Ok(node) => {
                let ghost before = self.path@;
                let f = Frame { id, node, taken: 0 };
                self.path.push(f);
                assert(steps(self.path@) =~= steps(before).push(f@));
                Ok(id)
            },
        }
    }

    /// Move past the current slot, rising to the shallowest node that still has a
    /// slot left, so the next comparison is made as high as it can be.
    #[verifier::rlimit(60)]
    #[verifier::spinoff_prover]
    pub fn advance(&mut self)
        requires
            old(self).wf(),
        ensures
            final(self).wf(),
            final(self).source() == old(self).source(),
            final(self)@ == advanced(old(self)@),
    {
        let ghost v = self@;
        proof {
            lemma_advanced(self.blocks.held(), v);
        }
        if self.at_root {
            self.done = true;
            return;
        }
        assert forall|i: int| 0 <= i < self.path@.len() implies (#[trigger] self.path@[i]).taken
            < self.path@[i].node@.node.rows.len() by {
            assert(v.path[i] == self.path@[i]@);
        }
        loop
            invariant
                !self.at_root,
                self.done == v.done,
                self.blocks == old(self).blocks,
                v == old(self)@,
                !v.at_root,
                placed(self.blocks.held(), advanced(v)),
                next_path(steps(self.path@)) == next_path(v.path),
                forall|i: int|
                    0 <= i < self.path@.len() ==> (#[trigger] self.path@[i]).taken
                        < self.path@[i].node@.node.rows.len(),
            decreases self.path@.len(),
        {
            let n = self.path.len();
            if n == 0 {
                assert(steps(self.path@) =~= Seq::<StepView>::empty());
                self.done = true;
                return;
            }
            let ghost before = self.path@;
            let k = n - 1;
            assert(steps(before).last() == before[k as int]@);
            let t = self.path[k].taken;
            let len = self.path[k].node.node().len();
            if t + 1 < len {
                self.path[k].taken = t + 1;
                proof {
                    let s = steps(before).last();
                    assert(steps(self.path@) =~= steps(before).drop_last().push(
                        StepView { cid: s.cid, held: s.held, taken: s.taken + 1 },
                    ));
                    assert(self@.path == next_path(v.path));
                }
                return;
            }
            self.path.pop();
            assert(steps(self.path@) =~= steps(before).drop_last());
        }
    }

    /// The largest key under the current slot, when it can be known without loading
    /// anything: only at the root, and only when the root is a leaf. Everywhere else
    /// a slot is bounded by the key that follows it ([`SlotCursor::end_key`]), which
    /// the root has not got.
    pub fn last_key_if_known(&self) -> (r: Option<Vec<u8>>)
        requires
            self.wf(),
            self@.path.len() > 0,
        ensures
            r is Some <==> self@.at_root && self@.path.last().held.node.level == 0,
            r is Some ==> r->Some_0@ == self@.path.last().held.node.rows.last().key,
    {
        let s = self.top();
        assert(self@.path[self@.path.len() - 1] == s@);
        if self.at_root && s.node.node().is_leaf() {
            let n = s.node.node().len();
            Some(s.node.node().key(n - 1))
        } else {
            None
        }
    }

    /// The current node and the index within it.
    pub fn parent(&self) -> (r: (&Node<'a>, usize))
        requires
            self.wf(),
            self@.path.len() > 0,
        ensures
            r.0@ == self@.path.last().held.node,
            r.1 == self@.path.last().taken,
    {
        let s = self.top();
        (s.node.node(), s.taken)
    }

    /// The loaded node of exactly `level` on this cursor's path, and the slot it is
    /// currently taking.
    ///
    /// Two cursors can sit at different depths, and child-id sets from two different
    /// levels are disjoint whatever the trees hold. This is how a caller finds the
    /// level the two sides can be compared at.
    pub fn node_at_level(&self, level: u8) -> (r: Option<(&Node<'a>, usize)>)
        requires
            self.wf(),
        ensures
            match r {
                None => forall|i: int|
                    0 <= i < self@.path.len() ==> (#[trigger] self@.path[i]).held.node.level
                        != level,
                Some((n, t)) => exists|i: int|
                    0 <= i < self@.path.len() && (#[trigger] self@.path[i]).held.node == n@
                        && self@.path[i].taken == t && n@.level == level && forall|j: int|
                        0 <= j < i ==> (#[trigger] self@.path[j]).held.node.level != level,
            },
            match merge::at_level(self@.path, level as int, 0) {
                None => r is None,
                Some(s) => r matches Some((n, t)) && (n@ == s.held.node && t == s.taken),
            },
    {
        let mut i: usize = 0;
        while i < self.path.len()
            invariant
                i <= self.path@.len(),
                self@.path == steps(self.path@),
                merge::at_level(self@.path, level as int, 0) == merge::at_level(
                    self@.path,
                    level as int,
                    i as int,
                ),
                forall|j: int|
                    0 <= j < i ==> (#[trigger] self@.path[j]).held.node.level != level,
            decreases self.path@.len() - i,
        {
            let s = &self.path[i];
            assert(self@.path[i as int] == s@);
            if s.node.node().level() == level {
                return Some((s.node.node(), s.taken));
            }
            i = i + 1;
        }
        None
    }
}

} // verus!
