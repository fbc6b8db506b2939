//! A position in one level of a tree: the path from the root down to a node at the
//! floor level, with moves to the neighbouring nodes of that level.
//!
//! A move either completes or fails leaving the cursor where it was, so after a
//! [`ReadError::Need`] the caller supplies the block and repeats it.

use crate::node;
use crate::node::{Agg, Node, NodeView, Row, Value};
use crate::order;
pub use crate::slots::{Slot, SlotCursor};
use crate::store;
use crate::store::{BlockMap, Blocks, Fault, Held, HeldView, ReadError};
use crate::tree;
use crate::Cid;
use vstd::prelude::*;

verus! {

// ---------------------------------------------------------------------------
// paths
// ---------------------------------------------------------------------------

/// A node on a path, and the child the path takes below it.
#[verifier::ext_equal]
pub struct StepView {
    pub cid: Seq<u8>,
    pub held: HeldView,
    pub taken: int,
}

/// The place of a node on a path.
pub open spec fn slot_at(s: StepView) -> tree::Slot {
    tree::Slot {
        key: if s.held.node.rows.len() > 0 {
            s.held.node.rows[0].key
        } else {
            Seq::empty()
        },
        cid: s.cid,
        agg: s.held.node.agg(),
        level: s.held.node.level as int,
        opened: Ok(s.held),
    }
}

/// `b` is the child that `a` takes.
pub open spec fn links(m: BlockMap, a: StepView, b: StepView) -> bool {
    &&& 0 <= a.taken < a.held.node.rows.len()
    &&& store::opened(m, a.held, a.taken) == Ok::<HeldView, Fault>(b.held)
    &&& b.cid == store::child_cid(a.held.node.rows[a.taken])
}

/// A path down to level `floor`.
pub open spec fn valid_path(m: BlockMap, floor: int, path: Seq<StepView>) -> bool
    decreases path.len(),
{
    &&& path.len() > 0
    &&& tree::steady(path[0].held)
    &&& if path.len() == 1 {
        path[0].held.node.level == floor
    } else {
        &&& path[0].held.node.level > floor
        &&& links(m, path[0], path[1])
        &&& valid_path(m, floor, path.drop_first())
    }
}

/// How many slots of level `floor` under the path's first node come before the one
/// the path leads to.
pub open spec fn pos(m: BlockMap, floor: int, path: Seq<StepView>) -> int
    decreases path.len(),
{
    if path.len() <= 1 {
        0
    } else {
        tree::child_slots(m, path[0].held, floor, path[0].taken as nat).len() + pos(
            m,
            floor,
            path.drop_first(),
        )
    }
}

/// The slots of level `floor` under a node on a path.
pub open spec fn slots_under(m: BlockMap, floor: int, s: StepView) -> Seq<tree::Slot> {
    tree::level_slots(m, slot_at(s), floor)
}

/// A child on a path is its parent's child.
proof fn lemma_slot_at(m: BlockMap, a: StepView, b: StepView)
    requires
        links(m, a, b),
        a.held.node.level > 0,
    ensures
        slot_at(b) == tree::child_slot(m, a.held, a.taken),
        tree::steady(b.held),
        b.held.node.level + 1 == a.held.node.level,
        b.held.node.rows.len() > 0,
{
    let cid = store::child_cid(a.held.node.rows[a.taken]);
    tree::lemma_loaded(m, cid);
    reveal(tree::steady);
}

/// The slots under a node on a path: those before the child it takes, those under
/// that child, and those after it.
proof fn lemma_split(m: BlockMap, floor: int, a: StepView, b: StepView)
    requires
        links(m, a, b),
        tree::steady(a.held),
        a.held.node.level > floor >= 0,
    ensures
        ({
            let rows = a.held.node.rows;
            let before = tree::child_slots(m, a.held, floor, a.taken as nat);
            let after = tree::after_child(m, a.held, floor, a.taken, rows.len());
            &&& slots_under(m, floor, a) == before + slots_under(m, floor, b) + after
            &&& before.len() > 0 <==> a.taken > 0
            &&& after.len() > 0 <==> a.taken + 1 < rows.len()
            &&& a.taken + 1 < rows.len() ==> after[0].key == rows[a.taken + 1].key
        }),
{
    let rows = a.held.node.rows;
    let n = rows.len();
    lemma_slot_at(m, a, b);
    tree::lemma_split_at_child(m, a.held, floor, a.taken, n);
    if a.taken > 0 {
        tree::lemma_child_slots(m, a.held, floor, a.taken as nat);
    }
    if a.taken + 1 < n {
        tree::lemma_after_child(m, a.held, floor, a.taken, n);
    }
}

/// The slot a path leads to.
pub proof fn lemma_pos(m: BlockMap, floor: int, path: Seq<StepView>)
    requires
        valid_path(m, floor, path),
        floor >= 0,
    ensures
        0 <= pos(m, floor, path) < slots_under(m, floor, path[0]).len(),
        slots_under(m, floor, path[0])[pos(m, floor, path)] == slot_at(path.last()),
    decreases path.len(),
{
    if path.len() == 1 {
    } else {
        let rest = path.drop_first();
        assert(rest[0] == path[1]);
        assert(rest.last() == path.last());
        lemma_pos(m, floor, rest);
        lemma_split(m, floor, path[0], path[1]);
    }
}

/// The first key after the slot a path leads to, as far as the path knows: the
/// next sibling's, at the deepest place that has one.
pub open spec fn next_by_path(path: Seq<StepView>) -> Option<Seq<u8>>
    decreases path.len(),
{
    if path.len() <= 1 {
        None
    } else {
        match next_by_path(path.drop_first()) {
            Some(k) => Some(k),
            None => if path[0].taken + 1 < path[0].held.node.rows.len() {
                Some(path[0].held.node.rows[path[0].taken + 1].key)
            } else {
                None
            },
        }
    }
}

/// What a path knows of the next slot is what there is.
pub proof fn lemma_next(m: BlockMap, floor: int, path: Seq<StepView>)
    requires
        valid_path(m, floor, path),
        floor >= 0,
    ensures
        ({
            let slots = slots_under(m, floor, path[0]);
            let p = pos(m, floor, path);
            match next_by_path(path) {
                Some(k) => p + 1 < slots.len() && slots[p + 1].key == k,
                None => p + 1 == slots.len(),
            }
        }),
    decreases path.len(),
{
    if path.len() > 1 {
        let rest = path.drop_first();
        assert(rest[0] == path[1]);
        lemma_next(m, floor, rest);
        lemma_pos(m, floor, rest);
        lemma_split(m, floor, path[0], path[1]);
    }
}

/// Does the path lead to the first slot, as far as it knows?
pub open spec fn first_by_path(path: Seq<StepView>) -> bool
    decreases path.len(),
{
    path.len() <= 1 || (path[0].taken == 0 && first_by_path(path.drop_first()))
}

/// A path that never takes another child than the first leads to the first slot.
pub proof fn lemma_first(m: BlockMap, floor: int, path: Seq<StepView>)
    requires
        valid_path(m, floor, path),
        floor >= 0,
    ensures
        first_by_path(path) == (pos(m, floor, path) == 0),
    decreases path.len(),
{
    if path.len() > 1 {
        let rest = path.drop_first();
        assert(rest[0] == path[1]);
        lemma_first(m, floor, rest);
        lemma_pos(m, floor, rest);
        lemma_split(m, floor, path[0], path[1]);
    }
}

/// A path is one in every source that holds more.
pub proof fn lemma_path_grows(m: BlockMap, w: BlockMap, floor: int, path: Seq<StepView>)
    requires
        valid_path(m, floor, path),
        m.submap_of(w),
    ensures
        valid_path(w, floor, path),
    decreases path.len(),
{
    reveal(store::loaded);
    if path.len() > 1 {
        let rest = path.drop_first();
        assert(rest[0] == path[1]);
        let cid = store::child_cid(path[0].held.node.rows[path[0].taken]);
        assert(m.contains_key(cid) ==> w.contains_key(cid) && w[cid] == m[cid]);
        lemma_path_grows(m, w, floor, rest);
    }
}

// ---------------------------------------------------------------------------
// choosing a slot
// ---------------------------------------------------------------------------

/// Which slot of a level to go to.
#[derive(Clone, Copy, Debug)]
pub enum Pick<'a> {
    /// The first.
    First,
    /// The last.
    Last,
    /// The last whose key is at or before this one, else the first.
    Key(&'a [u8]),
    /// The last whose key is before this one, else the first.
    Below(&'a [u8]),
}

impl<'a> Pick<'a> {
    /// Is a slot with this key one to go to, or to go past?
    pub open spec fn takes(&self, key: Seq<u8>) -> bool {
        match *self {
            Pick::First => false,
            Pick::Last => true,
            Pick::Key(k) => order::le(key, k@),
            Pick::Below(k) => order::lt(key, k@),
        }
    }
}

/// What is taken at a key is taken before it.
proof fn lemma_takes(pick: Pick<'_>, a: Seq<u8>, b: Seq<u8>)
    requires
        order::lt(a, b),
        pick.takes(b),
    ensures
        pick.takes(a),
{
    match pick {
        Pick::Key(k) => order::lemma_le_trans(a, b, k@),
        Pick::Below(k) => order::lemma_lt_trans(a, b, k@),
        _ => {},
    }
}

/// How many of the first `n` slots are taken.
pub open spec fn taken_of(slots: Seq<tree::Slot>, pick: Pick<'_>, n: nat) -> nat
    decreases n,
{
    if n == 0 {
        0
    } else if pick.takes(slots[n - 1].key) {
        n
    } else {
        taken_of(slots, pick, (n - 1) as nat)
    }
}

/// The slot to go to.
pub open spec fn target(slots: Seq<tree::Slot>, pick: Pick<'_>) -> int {
    let n = taken_of(slots, pick, slots.len());
    if n == 0 {
        0
    } else {
        n - 1
    }
}

/// Slots up to the count are what is taken.
pub proof fn lemma_taken(slots: Seq<tree::Slot>, pick: Pick<'_>, n: nat)
    requires
        n <= slots.len(),
    ensures
        taken_of(slots, pick, n) <= n,
        taken_of(slots, pick, n) > 0 ==> pick.takes(slots[taken_of(slots, pick, n) - 1].key),
        forall|i: int|
            taken_of(slots, pick, n) <= i < n ==> !pick.takes((#[trigger] slots[i]).key),
    decreases n,
{
    if n > 0 && !pick.takes(slots[n - 1].key) {
        lemma_taken(slots, pick, (n - 1) as nat);
    }
}

/// A count is what splits the slots there.
pub proof fn lemma_taken_is(slots: Seq<tree::Slot>, pick: Pick<'_>, p: nat)
    requires
        p <= slots.len(),
        p > 0 ==> pick.takes(slots[p - 1].key),
        forall|i: int| p <= i < slots.len() ==> !pick.takes((#[trigger] slots[i]).key),
    ensures
        taken_of(slots, pick, slots.len()) == p,
{
    lemma_taken(slots, pick, slots.len());
    let q = taken_of(slots, pick, slots.len());
    if q > p {
        assert(!pick.takes(slots[q - 1].key));
    }
    if q < p {
        assert(!pick.takes(slots[p - 1].key));
    }
}

/// The child to go through, by the keys of a node's rows.
pub open spec fn is_child_for(rows: Seq<Row>, pick: Pick<'_>, i: int) -> bool {
    &&& 0 <= i < rows.len()
    &&& i > 0 ==> pick.takes(rows[i].key)
    &&& i + 1 < rows.len() ==> !pick.takes(rows[i + 1].key)
}

/// Going through the right child leads to the right slot, whether or not the child
/// can be opened.
proof fn lemma_target_slot(m: BlockMap, floor: int, h: HeldView, i: int, pick: Pick<'_>)
    requires
        tree::steady(h),
        h.node.level > floor >= 0,
        is_child_for(h.node.rows, pick, i),
    ensures
        ({
            let all = tree::child_slots(m, h, floor, h.node.rows.len());
            let before = tree::child_slots(m, h, floor, i as nat);
            let mid = tree::level_slots(m, tree::child_slot(m, h, i), floor);
            &&& target(all, pick) == before.len() + target(mid, pick)
            &&& 0 <= target(mid, pick) < mid.len()
            &&& all.len() >= before.len() + mid.len()
            &&& all[before.len() + target(mid, pick)] == mid[target(mid, pick)]
        }),
{
    let rows = h.node.rows;
    let n = rows.len();
    let s = tree::child_slot(m, h, i);
    let before = tree::child_slots(m, h, floor, i as nat);
    let mid = tree::level_slots(m, s, floor);
    let after = tree::after_child(m, h, floor, i, n);
    let all = tree::child_slots(m, h, floor, n);
    tree::lemma_split_at_child(m, h, floor, i, n);
    tree::lemma_child_sound(m, h, i);
    tree::lemma_child_under(h, i);
    tree::lemma_level_slots(m, s, store::child_bound(h, i), floor);
    let q = taken_of(mid, pick, mid.len());
    lemma_taken(mid, pick, mid.len());
    assert forall|j: int| 0 <= j < after.len() implies !pick.takes((#[trigger] after[j]).key) by {
        if i + 1 < n {
            tree::lemma_after_child(m, h, floor, i, n);
            if j > 0 && pick.takes(after[j].key) {
                assert(order::lt(after[0].key, after[j].key));
                lemma_takes(pick, after[0].key, after[j].key);
            }
        } else {
            assert(after =~= Seq::<tree::Slot>::empty());
        }
    }
    if q == 0 {
        assert(!pick.takes(mid[0].key));
        assert(i == 0);
        assert(before =~= Seq::<tree::Slot>::empty());
        assert forall|j: int| 0 <= j < all.len() implies !pick.takes((#[trigger] all[j]).key) by {
            if j < mid.len() {
                assert(all[j] == mid[j]);
            } else {
                assert(all[j] == after[j - mid.len()]);
            }
        }
        lemma_taken_is(all, pick, 0);
        assert(all[0] == mid[0]);
    } else {
        let p = before.len() + q;
        assert(all[p - 1] == mid[q - 1]);
        assert forall|j: int| p <= j < all.len() implies !pick.takes((#[trigger] all[j]).key) by {
            if j < before.len() + mid.len() {
                assert(all[j] == mid[j - before.len()]);
            } else {
                assert(all[j] == after[j - before.len() - mid.len()]);
            }
        }
        lemma_taken_is(all, pick, p);
    }
}

/// Which child of a branch to go through.
#[verifier::rlimit(60)]
#[verifier::spinoff_prover]
fn child_for(node: &Node<'_>, pick: &Pick<'_>) -> (i: usize)
    requires
        node@.rows.len() > 0,
    ensures
        is_child_for(node@.rows, *pick, i as int),
{
    let n = node.len();
    node.known_valid();
    match pick {
        Pick::First => 0,
        Pick::Last => n - 1,
        Pick::Key(k) => match node.search(k) {
            Ok(i) => {
                proof {
                    if i + 1 < n {
                        assert(order::lt(node@.rows[i as int].key, node@.rows[i + 1].key));
                        order::lemma_lt_total(k@, node@.rows[i + 1].key);
                    }
                }
                i
            },
            Err(i) => {
                proof {
                    if i < n {
                        assert(order::lt(k@, node@.rows[i as int].key));
                        order::lemma_lt_total(k@, node@.rows[i as int].key);
                        if i == 0 && n > 1 {
                            assert(order::lt(k@, node@.rows[1].key));
                            order::lemma_lt_total(k@, node@.rows[1].key);
                        }
                    }
                }
                if i == 0 {
                    0
                } else {
                    i - 1
                }
            },
        },
        Pick::Below(k) => match node.search(k) {
            Ok(i) => {
                proof {
                    order::lemma_lt_irreflexive(k@);
                    if i > 0 {
                        assert(order::lt(node@.rows[i - 1].key, node@.rows[i as int].key));
                    }
                    if i == 0 && n > 1 {
                        assert(order::lt(node@.rows[0].key, node@.rows[1].key));
                        order::lemma_lt_total(k@, node@.rows[1].key);
                    }
                }
                if i == 0 {
                    0
                } else {
                    i - 1
                }
            },
            Err(i) => {
                proof {
                    if i < n {
                        assert(order::lt(k@, node@.rows[i as int].key));
                        order::lemma_lt_total(k@, node@.rows[i as int].key);
                        if i == 0 && n > 1 {
                            assert(order::lt(k@, node@.rows[1].key));
                            order::lemma_lt_total(k@, node@.rows[1].key);
                        }
                    }
                }
                if i == 0 {
                    0
                } else {
                    i - 1
                }
            },
        },
    }
}

// ---------------------------------------------------------------------------
// descending
// ---------------------------------------------------------------------------

struct Step<'a> {
    id: Cid,
    /// Held, not bare: the bound this node's keys must stay under travels with it.
    node: Held<'a>,
    /// Which child the path takes below this node (unused at the floor).
    taken: usize,
}

impl<'a> View for Step<'a> {
    type V = StepView;

    closed spec fn view(&self) -> StepView {
        StepView { cid: self.id@, held: self.node@, taken: self.taken as int }
    }
}

spec fn steps(path: Seq<Step<'_>>) -> Seq<StepView> {
    path.map_values(|s: Step<'_>| s@)
}

/// Extend a path from a node down to the floor, choosing a child at each branch.
fn descend<'a, B: Blocks>(
    blocks: &'a B,
    floor: u8,
    id: Cid,
    held: Held<'a>,
    pick: &Pick<'_>,
    path: &mut Vec<Step<'a>>,
) -> (r: Result<(), ReadError>)
    requires
        tree::steady(held@),
        held@.node.level >= floor,
    ensures
        ({
            let m = blocks.held();
            let s = StepView { cid: id@, held: held@, taken: 0 };
            let slots = slots_under(m, floor as int, s);
            let was = steps(old(path)@);
            let now = steps(final(path)@);
            let n = was.len() as int;
            &&& now.len() >= n
            &&& now.take(n) == was
            &&& 0 <= target(slots, *pick) < slots.len()
            &&& match r {
                Ok(_) => {
                    let tail = now.skip(n);
                    &&& valid_path(m, floor as int, tail)
                    &&& tail[0].cid == id@
                    &&& tail[0].held == held@
                    &&& pos(m, floor as int, tail) == target(slots, *pick)
                },
                Err(e) => slots[target(slots, *pick)].opened == Err::<HeldView, Fault>(e@),
            }
        }),
    decreases held@.node.level,
{
    let ghost m = blocks.held();
    let ghost was = steps(path@);
    let ghost n = was.len() as int;
    let ghost f = floor as int;
    let ghost top = StepView { cid: id@, held: held@, taken: 0 };
    if held.node().level() == floor {
        let ghost step = StepView { cid: id@, held: held@, taken: 0 };
        path.push(Step { id, node: held, taken: 0 });
        proof {
            assert(steps(path@) =~= was.push(step));
            assert(steps(path@).skip(n) =~= seq![step]);
            assert(steps(path@).take(n) =~= was);
            let one = slots_under(m, f, top);
            assert(one =~= seq![slot_at(top)]);
            lemma_taken(one, *pick, 1);
        }
        return Ok(());
    }
    proof {
        assert(held@.node.valid()) by {
            reveal(tree::steady);
        }
    }
    let i = child_for(held.node(), pick);
    let ghost h = held@;
    let ghost step = StepView { cid: id@, held: h, taken: i as int };
    proof {
        lemma_target_slot(m, f, h, i as int, *pick);
        assert(slots_under(m, f, top) == tree::child_slots(m, h, f, h.node.rows.len()));
    }
    let child = match held.open(blocks, i) {
        Err(e) => {
            proof {
                assert(steps(path@).take(n) =~= was);
                let mid = tree::level_slots(m, tree::child_slot(m, h, i as int), f);
                assert(mid =~= seq![tree::child_slot(m, h, i as int)]);
            }
            return Err(e);
        },
        Ok(c) => c,
    };
    let (cid, _) = held.node().child(i);
    let ghost below = StepView { cid: cid@, held: child@, taken: 0 };
    proof {
        lemma_slot_at(m, step, below);
    }
    path.push(Step { id, node: held, taken: i });
    let ghost mid_path = steps(path@);
    proof {
        assert(mid_path =~= was.push(step));
    }
    let r = descend(blocks, floor, cid, child, pick, path);
    proof {
        let now = steps(path@);
        assert(now.take(n) =~= now.take(n + 1).take(n));
        assert(was.push(step).take(n) =~= was);
        if r is Ok {
            let tail = now.skip(n);
            let rest = now.skip(n + 1);
            assert(tail.drop_first() =~= rest);
            assert(tail[0] == now.take(n + 1)[n]);
            assert(tail[1] == rest[0]);
            assert(links(m, tail[0], tail[1]));
        }
    }
    r
}

// ---------------------------------------------------------------------------
// a position in one level
// ---------------------------------------------------------------------------

/// Where the slots of a level are.
pub open spec fn level_of(m: BlockMap, root: Seq<u8>, floor: int) -> Seq<tree::Slot> {
    tree::level_slots(m, tree::root_slot(m, root), floor)
}

/// A path from a root.
pub open spec fn from_root(m: BlockMap, floor: int, path: Seq<StepView>) -> bool {
    &&& valid_path(m, floor, path)
    &&& store::loaded(m, path[0].cid) == Ok::<NodeView, Fault>(path[0].held.node)
    &&& path[0].held.upper is None
}

/// The first node of a path from a root is the root.
pub proof fn lemma_root_slot(m: BlockMap, floor: int, path: Seq<StepView>)
    requires
        from_root(m, floor, path),
    ensures
        slot_at(path[0]) == tree::root_slot(m, path[0].cid),
        slots_under(m, floor, path[0]) == level_of(m, path[0].cid, floor),
{
}

/// A cursor on one node of a level.
pub struct LevelCursor<'a, B: Blocks> {
    blocks: &'a B,
    floor: u8,
    path: Vec<Step<'a>>,
}

/// Move one slot to the right under the node at depth `d` of a path.
fn step_right<'a, B: Blocks>(blocks: &'a B, floor: u8, path: &mut Vec<Step<'a>>, d: usize) -> (r:
    Result<bool, ReadError>)
    requires
        d < old(path)@.len(),
        valid_path(blocks.held(), floor as int, steps(old(path)@).skip(d as int)),
    ensures
        ({
            let m = blocks.held();
            let f = floor as int;
            let was = steps(old(path)@);
            let now = steps(final(path)@);
            let slots = slots_under(m, f, was[d as int]);
            let p = pos(m, f, was.skip(d as int));
            match r {
                Ok(true) => {
                    &&& d < now.len()
                    &&& now.take(d as int) == was.take(d as int)
                    &&& now[d as int].cid == was[d as int].cid
                    &&& now[d as int].held == was[d as int].held
                    &&& valid_path(m, f, now.skip(d as int))
                    &&& pos(m, f, now.skip(d as int)) == p + 1
                    &&& p + 1 < slots.len()
                },
                Ok(false) => now == was && p + 1 == slots.len(),
                Err(e) => now == was && p + 1 < slots.len() && slots[p + 1].opened == Err::<
                    HeldView,
                    Fault,
                >(e@),
            }
        }),
    decreases old(path)@.len() - d,
{
    let ghost m = blocks.held();
    let ghost f = floor as int;
    let ghost was = steps(path@);
    let ghost sub = was.skip(d as int);
    let n = path.len();
    assert(sub[0] == was[d as int]);
    if d + 1 == n {
        proof {
            lemma_pos(m, f, sub);
        }
        return Ok(false);
    }
    proof {
        assert(sub.drop_first() =~= was.skip(d + 1));
        assert(sub[1] == was[d + 1]);
        lemma_split(m, f, was[d as int], was[d + 1]);
        lemma_pos(m, f, was.skip(d + 1));
        assert(was.skip(d + 1)[0] == was[d + 1]);
    }
    match step_right(blocks, floor, path, d + 1) {
        Err(e) => return Err(e),
        Ok(true) => {
            proof {
                let now = steps(path@);
                assert(now[d as int] == now.take(d + 1)[d as int]);
                assert(was[d as int] == was.take(d + 1)[d as int]);
                assert(now.take(d as int) =~= now.take(d + 1).take(d as int));
                assert(was.take(d as int) =~= was.take(d + 1).take(d as int));
                assert(now.skip(d as int).drop_first() =~= now.skip(d + 1));
                assert(now.skip(d as int)[1] == now[d + 1]);
                assert(now.skip(d + 1)[0] == now[d + 1]);
                assert(was.skip(d + 1)[0] == was[d + 1]);
            }
            return Ok(true);
        },
        Ok(false) => {},
    }
    assert(steps(path@)[d as int] == path@[d as int]@);
    let t = path[d].taken;
    let len = path[d].node.node().len();
    if t + 1 >= len {
        return Ok(false);
    }
    let ghost h = was[d as int].held;
    let ghost s = tree::child_slot(m, h, t + 1);
    let ghost after = tree::after_child(m, h, f, t as int, h.node.rows.len());
    proof {
        lemma_after_first(m, f, h, t as int);
        lemma_pos(m, f, sub);
    }
    let child = match path[d].node.open(blocks, t + 1) {
        Err(e) => {
            assert(tree::level_slots(m, s, f) =~= seq![s]);
            return Err(e);
        },
        Ok(c) => c,
    };
    let (cid, _) = path[d].node.node().child(t + 1);
    let ghost moved = StepView { cid: was[d as int].cid, held: h, taken: t + 1 };
    let ghost below = StepView { cid: cid@, held: child@, taken: 0 };
    proof {
        lemma_slot_at(m, moved, below);
    }
    let mut tail: Vec<Step<'a>> = Vec::new();
    match descend(blocks, floor, cid, child, &Pick::First, &mut tail) {
        Err(e) => {
            proof {
                let under = slots_under(m, f, below);
                lemma_taken_is(under, Pick::First, 0);
            }
            return Err(e);
        },
        Ok(_) => {},
    }
    proof {
        let under = slots_under(m, f, below);
        lemma_taken_is(under, Pick::First, 0);
        assert(steps(tail@).skip(0) =~= steps(tail@));
    }
    let ghost ts = steps(tail@);
    graft(path, d, t + 1, tail);
    proof {
        let now = steps(path@);
        lemma_grafted(was, d as int, moved, ts, now);
        lemma_moved_right(m, f, was[d as int], was[d + 1], moved, now[d + 1]);
    }
    Ok(true)
}

/// The slots after a child start with those of the next child.
proof fn lemma_after_first(m: BlockMap, floor: int, h: HeldView, i: int)
    requires
        tree::steady(h),
        h.node.level > floor >= 0,
        0 <= i,
        i + 1 < h.node.rows.len(),
    ensures
        ({
            let after = tree::after_child(m, h, floor, i, h.node.rows.len());
            let next = tree::level_slots(m, tree::child_slot(m, h, i + 1), floor);
            &&& next.len() > 0
            &&& after.len() >= next.len()
            &&& after[0] == next[0]
        }),
{
    lemma_after_prefix(m, floor, h, i, h.node.rows.len());
}

proof fn lemma_after_prefix(m: BlockMap, floor: int, h: HeldView, i: int, n: nat)
    requires
        tree::steady(h),
        h.node.level > floor >= 0,
        0 <= i,
        i + 1 < n <= h.node.rows.len(),
    ensures
        ({
            let after = tree::after_child(m, h, floor, i, n);
            let next = tree::level_slots(m, tree::child_slot(m, h, i + 1), floor);
            &&& next.len() > 0
            &&& after.len() >= next.len()
            &&& after[0] == next[0]
        }),
    decreases n,
{
    let s = tree::child_slot(m, h, i + 1);
    tree::lemma_child_sound(m, h, i + 1);
    tree::lemma_child_under(h, i + 1);
    tree::lemma_level_slots(m, s, store::child_bound(h, i + 1), floor);
    if n == i + 2 {
        assert(tree::after_child(m, h, floor, i, (i + 1) as nat) =~= Seq::<tree::Slot>::empty());
        assert(tree::after_child(m, h, floor, i, n) =~= tree::level_slots(m, s, floor));
    } else {
        lemma_after_prefix(m, floor, h, i, (n - 1) as nat);
    }
}

/// What a grafted path is.
proof fn lemma_grafted(
    was: Seq<StepView>,
    d: int,
    moved: StepView,
    tail: Seq<StepView>,
    now: Seq<StepView>,
)
    requires
        0 <= d < was.len(),
        tail.len() > 0,
        now == was.take(d).push(moved) + tail,
    ensures
        now.take(d) == was.take(d),
        now[d] == moved,
        now.skip(d).drop_first() == tail,
        now.skip(d)[0] == moved,
        now.skip(d)[1] == tail[0],
        now[d + 1] == tail[0],
        now.skip(d).len() == tail.len() + 1,
{
    assert(now.take(d) =~= was.take(d));
    assert(now.skip(d).drop_first() =~= tail);
}

/// Taking the child before, and its last slot, moves one slot back from the first
/// slot of the child taken before.
proof fn lemma_moved_left(
    m: BlockMap,
    floor: int,
    a: StepView,
    b: StepView,
    moved: StepView,
    below: StepView,
)
    requires
        links(m, a, b),
        tree::steady(a.held),
        a.held.node.level > floor >= 0,
        moved.held == a.held,
        moved.cid == a.cid,
        moved.taken == a.taken - 1,
        links(m, moved, below),
    ensures
        tree::child_slots(m, a.held, floor, a.taken as nat).len() == tree::child_slots(
            m,
            a.held,
            floor,
            moved.taken as nat,
        ).len() + slots_under(m, floor, below).len(),
{
    lemma_slot_at(m, moved, below);
}

/// Taking the next child, and its first slot, moves one slot on from the last slot
/// of the child taken before.
proof fn lemma_moved_right(
    m: BlockMap,
    floor: int,
    a: StepView,
    b: StepView,
    moved: StepView,
    below: StepView,
)
    requires
        links(m, a, b),
        tree::steady(a.held),
        a.held.node.level > floor >= 0,
        moved.held == a.held,
        moved.cid == a.cid,
        moved.taken == a.taken + 1,
        links(m, moved, below),
    ensures
        tree::child_slots(m, a.held, floor, moved.taken as nat).len() == tree::child_slots(
            m,
            a.held,
            floor,
            a.taken as nat,
        ).len() + slots_under(m, floor, b).len(),
{
    lemma_slot_at(m, a, b);
}

/// Make the step at depth `d` take another child, with a new path below it.
fn graft<'a>(path: &mut Vec<Step<'a>>, d: usize, t: usize, tail: Vec<Step<'a>>)
    requires
        d < old(path)@.len(),
    ensures
        steps(final(path)@) == steps(old(path)@).take(d as int).push(
            StepView { taken: t as int, ..steps(old(path)@)[d as int] },
        ) + steps(tail@),
{
    let ghost was = path@;
    let n = path.len();
    path.truncate(d + 1);
    let ghost cut = path@;
    assert(cut =~= was.take(d + 1));
    match path.pop() {
        Some(s) => {
            let Step { id, node, taken } = s;
            path.push(Step { id, node, taken: t });
            let mut rest = tail;
            path.append(&mut rest);
            proof {
                let moved = StepView { taken: t as int, ..steps(was)[d as int] };
                assert(steps(path@) =~= steps(was).take(d as int).push(moved) + steps(tail@));
            }
        },
        None => {},
    }
}

/// Move one slot to the left under the node at depth `d` of a path.
fn step_left<'a, B: Blocks>(blocks: &'a B, floor: u8, path: &mut Vec<Step<'a>>, d: usize) -> (r:
    Result<bool, ReadError>)
    requires
        d < old(path)@.len(),
        valid_path(blocks.held(), floor as int, steps(old(path)@).skip(d as int)),
    ensures
        ({
            let m = blocks.held();
            let f = floor as int;
            let was = steps(old(path)@);
            let now = steps(final(path)@);
            let slots = slots_under(m, f, was[d as int]);
            let p = pos(m, f, was.skip(d as int));
            match r {
                Ok(true) => {
                    &&& d < now.len()
                    &&& now.take(d as int) == was.take(d as int)
                    &&& now[d as int].cid == was[d as int].cid
                    &&& now[d as int].held == was[d as int].held
                    &&& valid_path(m, f, now.skip(d as int))
                    &&& pos(m, f, now.skip(d as int)) == p - 1
                },
                Ok(false) => now == was && p == 0,
                Err(e) => now == was && p > 0 && slots[p - 1].opened == Err::<HeldView, Fault>(
                    e@,
                ),
            }
        }),
    decreases old(path)@.len() - d,
{
    let ghost m = blocks.held();
    let ghost f = floor as int;
    let ghost was = steps(path@);
    let ghost sub = was.skip(d as int);
    let n = path.len();
    assert(sub[0] == was[d as int]);
    if d + 1 == n {
        return Ok(false);
    }
    proof {
        assert(sub.drop_first() =~= was.skip(d + 1));
        assert(sub[1] == was[d + 1]);
        lemma_split(m, f, was[d as int], was[d + 1]);
        lemma_pos(m, f, was.skip(d + 1));
        assert(was.skip(d + 1)[0] == was[d + 1]);
    }
    match step_left(blocks, floor, path, d + 1) {
        Err(e) => return Err(e),
        Ok(true) => {
            proof {
                let now = steps(path@);
                assert(now[d as int] == now.take(d + 1)[d as int]);
                assert(was[d as int] == was.take(d + 1)[d as int]);
                assert(now.take(d as int) =~= now.take(d + 1).take(d as int));
                assert(was.take(d as int) =~= was.take(d + 1).take(d as int));
                assert(now.skip(d as int).drop_first() =~= now.skip(d + 1));
                assert(now.skip(d as int)[1] == now[d + 1]);
                assert(now.skip(d + 1)[0] == now[d + 1]);
                assert(was.skip(d + 1)[0] == was[d + 1]);
            }
            return Ok(true);
        },
        Ok(false) => {},
    }
    assert(steps(path@)[d as int] == path@[d as int]@);
    let t = path[d].taken;
    if t == 0 {
        return Ok(false);
    }
    let ghost h = was[d as int].held;
    let ghost s = tree::child_slot(m, h, t - 1);
    proof {
        tree::lemma_child_sound(m, h, t - 1);
        tree::lemma_child_under(h, t - 1);
        tree::lemma_level_slots(m, s, store::child_bound(h, t - 1), f);
    }
    let child = match path[d].node.open(blocks, t - 1) {
        Err(e) => {
            assert(tree::level_slots(m, s, f) =~= seq![s]);
            return Err(e);
        },
        Ok(c) => c,
    };
    let (cid, _) = path[d].node.node().child(t - 1);
    let ghost moved = StepView { cid: was[d as int].cid, held: h, taken: t - 1 };
    let ghost below = StepView { cid: cid@, held: child@, taken: 0 };
    proof {
        lemma_slot_at(m, moved, below);
    }
    let mut tail: Vec<Step<'a>> = Vec::new();
    match descend(blocks, floor, cid, child, &Pick::Last, &mut tail) {
        Err(e) => {
            proof {
                let under = slots_under(m, f, below);
                lemma_taken_is(under, Pick::Last, under.len());
            }
            return Err(e);
        },
        Ok(_) => {},
    }
    proof {
        let under = slots_under(m, f, below);
        lemma_taken_is(under, Pick::Last, under.len());
        assert(steps(tail@).skip(0) =~= steps(tail@));
    }
    let ghost ts = steps(tail@);
    graft(path, d, t - 1, tail);
    proof {
        let now = steps(path@);
        lemma_grafted(was, d as int, moved, ts, now);
        lemma_moved_left(m, f, was[d as int], was[d + 1], moved, now[d + 1]);
    }
    Ok(true)
}

/// The next key that a path knows of, from depth `d` on.
fn next_key_at<'a>(path: &Vec<Step<'a>>, d: usize) -> (r: Option<Vec<u8>>)
    requires
        d < path@.len(),
        forall|e: int|
            d <= e < path@.len() - 1 ==> 0 <= (#[trigger] steps(path@)[e]).taken < steps(
                path@,
            )[e].held.node.rows.len(),
    ensures
        r is Some <==> next_by_path(steps(path@).skip(d as int)) is Some,
        r is Some ==> r->Some_0@ == next_by_path(steps(path@).skip(d as int))->Some_0,
    decreases path@.len() - d,
{
    let ghost sub = steps(path@).skip(d as int);
    let n = path.len();
    if d + 1 == n {
        return None;
    }
    proof {
        assert(sub.drop_first() =~= steps(path@).skip(d + 1));
        assert(sub[0] == steps(path@)[d as int]);
        assert(steps(path@)[d as int] == path@[d as int]@);
    }
    match next_key_at(path, d + 1) {
        Some(k) => Some(k),
        None => {
            let s = &path[d];
            let len = s.node.node().len();
            if s.taken + 1 < len {
                Some(s.node.node().key(s.taken + 1))
            } else {
                None
            }
        },
    }
}

/// The children that a path takes are there.
proof fn lemma_path_taken(m: BlockMap, floor: int, path: Seq<StepView>)
    requires
        valid_path(m, floor, path),
    ensures
        forall|e: int|
            0 <= e < path.len() - 1 ==> 0 <= (#[trigger] path[e]).taken
                < path[e].held.node.rows.len(),
    decreases path.len(),
{
    if path.len() > 1 {
        let rest = path.drop_first();
        assert(rest[0] == path[1]);
        lemma_path_taken(m, floor, rest);
        assert forall|e: int| 0 <= e < path.len() - 1 implies 0 <= (#[trigger] path[e]).taken
            < path[e].held.node.rows.len() by {
            if e > 0 {
                assert(path[e] == rest[e - 1]);
            }
        }
    }
}

/// The last node of a path is at the floor.
proof fn lemma_path_last(m: BlockMap, floor: int, path: Seq<StepView>)
    requires
        valid_path(m, floor, path),
    ensures
        path.last().held.node.level == floor,
        tree::steady(path.last().held),
    decreases path.len(),
{
    if path.len() > 1 {
        let rest = path.drop_first();
        assert(rest.last() == path.last());
        lemma_path_last(m, floor, rest);
    }
}

/// Does a path from depth `d` on only take first children?
fn is_first_at<'a>(path: &Vec<Step<'a>>, d: usize) -> (r: bool)
    requires
        d < path@.len(),
    ensures
        r == first_by_path(steps(path@).skip(d as int)),
    decreases path@.len() - d,
{
    let ghost sub = steps(path@).skip(d as int);
    let n = path.len();
    if d + 1 == n {
        return true;
    }
    proof {
        assert(sub.drop_first() =~= steps(path@).skip(d + 1));
        assert(sub[0] == path@[d as int]@);
    }
    path[d].taken == 0 && is_first_at(path, d + 1)
}

/// The last slot under a node: what its parent records of it, without loading it.
fn last_slot<'a, B: Blocks>(blocks: &'a B, floor: u8, h: &Held<'a>, i: usize) -> (r: Result<
    (Cid, Agg),
    ReadError,
>)
    requires
        tree::steady(h@),
        h@.node.level > floor,
        i < h@.node.rows.len(),
    ensures
        ({
            let m = blocks.held();
            let slots = tree::level_slots(
                m,
                tree::child_slot(m, h@, i as int),
                floor as int,
            );
            &&& slots.len() > 0
            &&& match r {
                Ok(x) => slots.last().cid == x.0@ && slots.last().agg == x.1 && slots.last().level
                    == floor,
                Err(e) => slots.last().opened == Err::<HeldView, Fault>(e@) && slots.last().level
                    > floor,
            }
        }),
    decreases h@.node.level,
{
    let ghost m = blocks.held();
    let ghost f = floor as int;
    let ghost s = tree::child_slot(m, h@, i as int);
    proof {
        assert(h@.node.valid()) by {
            reveal(tree::steady);
        }
        assert(node::row_fits(h@.node.level, h@.node.rows[i as int]));
        tree::lemma_child_sound(m, h@, i as int);
        tree::lemma_child_under(h@, i as int);
        tree::lemma_level_slots(m, s, store::child_bound(h@, i as int), f);
    }
    if h.node().level() == floor + 1 {
        let (cid, agg) = h.node().child(i);
        proof {
            assert(tree::level_slots(m, s, f) =~= seq![s]);
        }
        return Ok((cid, agg));
    }
    let c = match h.open(blocks, i) {
        Err(e) => {
            assert(tree::level_slots(m, s, f) =~= seq![s]);
            return Err(e);
        },
        Ok(c) => c,
    };
    let n = c.node().len();
    proof {
        let a = StepView { cid: s.cid, held: h@, taken: i as int };
        let b = StepView { cid: s.cid, held: c@, taken: 0 };
        lemma_slot_at(m, a, b);
        let last = tree::level_slots(m, tree::child_slot(m, c@, n - 1), f);
        tree::lemma_child_sound(m, c@, n - 1);
        tree::lemma_child_under(c@, n - 1);
        tree::lemma_level_slots(
            m,
            tree::child_slot(m, c@, n - 1),
            store::child_bound(c@, n - 1),
            f,
        );
        assert(tree::level_slots(m, s, f) == tree::child_slots(m, c@, f, c@.node.rows.len()));
    }
    last_slot(blocks, floor, &c, n - 1)
}

/// What is recorded of the slot before the one a path leads to, from depth `d` on.
fn prev_info_at<'a, B: Blocks>(blocks: &'a B, floor: u8, path: &Vec<Step<'a>>, d: usize) -> (r:
    Result<Option<(Cid, Agg)>, ReadError>)
    requires
        d < path@.len(),
        valid_path(blocks.held(), floor as int, steps(path@).skip(d as int)),
    ensures
        ({
            let m = blocks.held();
            let f = floor as int;
            let slots = slots_under(m, f, steps(path@)[d as int]);
            let p = pos(m, f, steps(path@).skip(d as int));
            match r {
                Ok(None) => p == 0,
                Ok(Some(x)) => p > 0 && slots[p - 1].cid == x.0@ && slots[p - 1].agg == x.1
                    && slots[p - 1].level == floor,
                Err(e) => p > 0 && slots[p - 1].opened == Err::<HeldView, Fault>(e@) && slots[p
                    - 1].level > floor,
            }
        }),
    decreases path@.len() - d,
{
    let ghost m = blocks.held();
    let ghost f = floor as int;
    let ghost all = steps(path@);
    let ghost sub = all.skip(d as int);
    let n = path.len();
    assert(sub[0] == all[d as int]);
    if d + 1 == n {
        return Ok(None);
    }
    proof {
        assert(sub.drop_first() =~= all.skip(d + 1));
        assert(sub[1] == all[d + 1]);
        lemma_split(m, f, all[d as int], all[d + 1]);
        lemma_pos(m, f, all.skip(d + 1));
        assert(all.skip(d + 1)[0] == all[d + 1]);
    }
    match prev_info_at(blocks, floor, path, d + 1) {
        Err(e) => return Err(e),
        Ok(Some(x)) => return Ok(Some(x)),
        Ok(None) => {},
    }
    assert(all[d as int] == path@[d as int]@);
    let t = path[d].taken;
    if t == 0 {
        return Ok(None);
    }
    match last_slot(blocks, floor, &path[d].node, t - 1) {
        Err(e) => Err(e),
        Ok(x) => Ok(Some(x)),
    }
}

impl<'a, B: Blocks> LevelCursor<'a, B> {
    /// The source it reads.
    pub closed spec fn source(&self) -> BlockMap {
        self.blocks.held()
    }

    /// The level it moves on.
    pub closed spec fn floor(&self) -> int {
        self.floor as int
    }

    /// The path it has taken.
    pub closed spec fn path(&self) -> Seq<StepView> {
        steps(self.path@)
    }

    /// A path from a root down to the floor.
    pub open spec fn wf(&self) -> bool {
        from_root(self.source(), self.floor(), self.path()) && 0 <= self.floor() <= 255
    }

    /// The root it started from.
    pub open spec fn root(&self) -> Seq<u8> {
        self.path()[0].cid
    }

    /// The slots of its level.
    pub open spec fn slots(&self) -> Seq<tree::Slot> {
        level_of(self.source(), self.root(), self.floor())
    }

    /// Which of them it is on.
    pub open spec fn at(&self) -> int {
        pos(self.source(), self.floor(), self.path())
    }

    /// The node it is on.
    pub open spec fn here(&self) -> HeldView {
        self.path().last().held
    }

    /// It is on a node of its level.
    pub proof fn lemma_here(&self)
        requires
            self.wf(),
        ensures
            0 <= self.at() < self.slots().len(),
            self.slots()[self.at()].opened == Ok::<HeldView, Fault>(self.here()),
            self.slots()[self.at()].cid == self.path().last().cid,
            self.here().node.level == self.floor(),
            tree::steady(self.here()),
    {
        lemma_pos(self.source(), self.floor(), self.path());
        lemma_root_slot(self.source(), self.floor(), self.path());
        lemma_path_last(self.source(), self.floor(), self.path());
    }

    /// A cursor on the slot of the floor level that `pick` chooses. `None` if the
    /// tree is not that tall.
    pub fn seek_pick(blocks: &'a B, root: &Cid, floor: u8, pick: Pick<'_>) -> (r: Result<
        Option<Self>,
        ReadError,
    >)
        ensures
            ({
                let m = blocks.held();
                let slots = level_of(m, root@, floor as int);
                match store::loaded(m, root@) {
                    Err(f) => r matches Err(e) && e@ == f,
                    Ok(n) => if n.level < floor {
                        r matches Ok(None)
                    } else {
                        let t = target(slots, pick);
                        &&& 0 <= t < slots.len()
                        &&& match slots[t].opened {
                            Err(f) => r matches Err(e) && e@ == f,
                            Ok(_) => {
                                &&& r matches Ok(Some(c))
                                &&& c.wf()
                                &&& c.source() == m
                                &&& c.floor() == floor
                                &&& c.root() == root@
                                &&& c.at() == t
                            },
                        }
                    },
                }
            }),
    {
        let ghost m = blocks.held();
        let node = match Held::root(blocks, root) {
            Err(e) => return Err(e),
            Ok(h) => h,
        };
        if node.node().level() < floor {
            return Ok(None);
        }
        proof {
            tree::lemma_loaded(m, root@);
            reveal(tree::steady);
        }
        let ghost top = StepView { cid: root@, held: node@, taken: 0 };
        assert(slot_at(top) == tree::root_slot(m, root@));
        let mut path: Vec<Step<'a>> = Vec::new();
        match descend(blocks, floor, *root, node, &pick, &mut path) {
            Err(e) => Err(e),
            Ok(_) => {
                let c = LevelCursor { blocks, floor, path };
                proof {
                    assert(steps(path@).skip(0) =~= steps(path@));
                    lemma_pos(m, floor as int, c.path());
                    lemma_root_slot(m, floor as int, c.path());
                }
                Ok(Some(c))
            },
        }
    }

    /// A cursor on the last node of the floor level.
    pub fn seek_last(blocks: &'a B, root: &Cid, floor: u8) -> (r: Result<Option<Self>, ReadError>)
        ensures
            ({
                let m = blocks.held();
                let slots = level_of(m, root@, floor as int);
                match store::loaded(m, root@) {
                    Err(f) => r matches Err(e) && e@ == f,
                    Ok(n) => if n.level < floor {
                        r matches Ok(None)
                    } else {
                        &&& slots.len() > 0
                        &&& match slots.last().opened {
                            Err(f) => r matches Err(e) && e@ == f,
                            Ok(_) => {
                                &&& r matches Ok(Some(c))
                                &&& c.wf()
                                &&& c.source() == m
                                &&& c.floor() == floor
                                &&& c.root() == root@
                                &&& c.at() == slots.len() - 1
                            },
                        }
                    },
                }
            }),
    {
        proof {
            let slots = level_of(blocks.held(), root@, floor as int);
            lemma_taken_is(slots, Pick::Last, slots.len());
        }
        Self::seek_pick(blocks, root, floor, Pick::Last)
    }

    /// A cursor on the floor-level node that can hold `key`: the last whose first
    /// key is at or before it, else the first. `None` if the tree is not that tall.
    pub fn seek(blocks: &'a B, root: &Cid, floor: u8, key: &[u8]) -> (r: Result<
        Option<Self>,
        ReadError,
    >)
        ensures
            ({
                let m = blocks.held();
                let slots = level_of(m, root@, floor as int);
                match store::loaded(m, root@) {
                    Err(f) => r matches Err(e) && e@ == f,
                    Ok(n) => if n.level < floor {
                        r matches Ok(None)
                    } else {
                        let t = target(slots, Pick::Key(key));
                        &&& 0 <= t < slots.len()
                        &&& match slots[t].opened {
                            Err(f) => r matches Err(e) && e@ == f,
                            Ok(_) => {
                                &&& r matches Ok(Some(c))
                                &&& c.wf()
                                &&& c.source() == m
                                &&& c.floor() == floor
                                &&& c.root() == root@
                                &&& c.at() == t
                            },
                        }
                    },
                }
            }),
    {
        Self::seek_pick(blocks, root, floor, Pick::Key(key))
    }

    /// The node the cursor is on.
    pub fn node(&self) -> (n: &Node<'a>)
        requires
            self.wf(),
        ensures
            n@ == self.here().node,
    {
        let n = self.path.len();
        assert(self.path().last() == self.path@[n - 1]@);
        self.path[n - 1].node.node()
    }

    /// The id of the node the cursor is on.
    pub fn id(&self) -> (cid: Cid)
        requires
            self.wf(),
        ensures
            cid@ == self.slots()[self.at()].cid,
            cid@ == self.path().last().cid,
    {
        proof {
            self.lemma_here();
        }
        let n = self.path.len();
        assert(self.path().last() == self.path@[n - 1]@);
        self.path[n - 1].id
    }

    /// Smallest key of the next node on this level, if there is one. Read from an
    /// ancestor: a branch key is its subtree's smallest key.
    pub fn next_min_key(&self) -> (r: Option<Vec<u8>>)
        requires
            self.wf(),
        ensures
            match r {
                None => self.at() + 1 == self.slots().len(),
                Some(k) => self.at() + 1 < self.slots().len() && k@ == self.slots()[self.at()
                    + 1].key,
            },
            r is Some <==> next_by_path(self.path()) is Some,
            r is Some ==> r->Some_0@ == next_by_path(self.path())->Some_0,
    {
        proof {
            lemma_next(self.source(), self.floor(), self.path());
            lemma_root_slot(self.source(), self.floor(), self.path());
            lemma_path_taken(self.source(), self.floor(), self.path());
            assert(steps(self.path@).skip(0) =~= self.path());
        }
        next_key_at(&self.path, 0)
    }

    /// Is this the first node of the level?
    pub fn is_first(&self) -> (r: bool)
        requires
            self.wf(),
        ensures
            r == (self.at() == 0),
            r == first_by_path(self.path()),
    {
        proof {
            lemma_first(self.source(), self.floor(), self.path());
            assert(steps(self.path@).skip(0) =~= self.path());
        }
        is_first_at(&self.path, 0)
    }

    /// Move to the next node on this level. `false` at the end of the level.
    pub fn advance(&mut self) -> (r: Result<bool, ReadError>)
        requires
            old(self).wf(),
        ensures
            final(self).wf(),
            final(self).source() == old(self).source(),
            final(self).floor() == old(self).floor(),
            final(self).root() == old(self).root(),
            match r {
                Ok(true) => final(self).at() == old(self).at() + 1 && final(self).at() < old(
                    self,
                ).slots().len(),
                Ok(false) => final(self).path() == old(self).path() && old(self).at() + 1 == old(
                    self,
                ).slots().len(),
                Err(e) => {
                    &&& final(self).path() == old(self).path()
                    &&& old(self).at() + 1 < old(self).slots().len()
                    &&& old(self).slots()[old(self).at() + 1].opened == Err::<HeldView, Fault>(e@)
                },
            },
    {
        proof {
            lemma_root_slot(self.source(), self.floor(), self.path());
            assert(steps(self.path@).skip(0) =~= self.path());
        }
        let r = step_right(self.blocks, self.floor, &mut self.path, 0);
        proof {
            assert(steps(self.path@).skip(0) =~= self.path());
            assert(steps(old(self).path@).skip(0) =~= old(self).path());
        }
        r
    }

    /// Move to the previous node on this level. `false` at the start.
    pub fn retreat(&mut self) -> (r: Result<bool, ReadError>)
        requires
            old(self).wf(),
        ensures
            final(self).wf(),
            final(self).source() == old(self).source(),
            final(self).floor() == old(self).floor(),
            final(self).root() == old(self).root(),
            match r {
                Ok(true) => final(self).at() == old(self).at() - 1,
                Ok(false) => final(self).path() == old(self).path() && old(self).at() == 0,
                Err(e) => {
                    &&& final(self).path() == old(self).path()
                    &&& old(self).at() > 0
                    &&& old(self).slots()[old(self).at() - 1].opened == Err::<HeldView, Fault>(e@)
                },
            },
    {
        proof {
            lemma_root_slot(self.source(), self.floor(), self.path());
            assert(steps(self.path@).skip(0) =~= self.path());
        }
        let r = step_left(self.blocks, self.floor, &mut self.path, 0);
        proof {
            assert(steps(self.path@).skip(0) =~= self.path());
            assert(steps(old(self).path@).skip(0) =~= old(self).path());
        }
        r
    }

    /// Id and recorded aggregate of the previous node on this level, without
    /// loading it (only the branches above it).
    pub fn prev_info(&self) -> (r: Result<Option<(Cid, Agg)>, ReadError>)
        requires
            self.wf(),
        ensures
            match r {
                Ok(None) => self.at() == 0,
                Ok(Some(x)) => {
                    &&& self.at() > 0
                    &&& self.slots()[self.at() - 1].cid == x.0@
                    &&& self.slots()[self.at() - 1].agg == x.1
                    &&& self.slots()[self.at() - 1].level == self.floor()
                },
                Err(e) => {
                    &&& self.at() > 0
                    &&& self.slots()[self.at() - 1].opened == Err::<HeldView, Fault>(e@)
                    &&& self.slots()[self.at() - 1].level > self.floor()
                },
            },
    {
        proof {
            lemma_root_slot(self.source(), self.floor(), self.path());
            assert(steps(self.path@).skip(0) =~= self.path());
        }
        prev_info_at(self.blocks, self.floor, &self.path, 0)
    }

    /// Ids of every node on the path above the floor node, root first.
    pub fn ancestors(&self) -> (r: Vec<Cid>)
        requires
            self.wf(),
        ensures
            r@.len() == self.path().len() - 1,
            forall|i: int| 0 <= i < r@.len() ==> (#[trigger] r@[i])@ == self.path()[i].cid,
    {
        let mut out: Vec<Cid> = Vec::new();
        let mut i: usize = 0;
        let n = self.path.len();
        while i + 1 < n
            invariant
                n == self.path@.len(),
                n > 0,
                i < n,
                out@.len() == i,
                forall|j: int| 0 <= j < i ==> (#[trigger] out@[j])@ == self.path()[j].cid,
            decreases n - i,
        {
            assert(self.path()[i as int] == self.path@[i as int]@);
            out.push(self.path[i].id);
            i = i + 1;
        }
        out
    }
}

// ---------------------------------------------------------------------------
// a position at one entry
// ---------------------------------------------------------------------------

/// How many items come before leaf `p`.
pub open spec fn offset(leaves: Seq<tree::Slot>, p: int) -> int {
    tree::flat(leaves.take(p)).len() as int
}

/// The items of a leaf among those of all leaves.
pub proof fn lemma_offset(leaves: Seq<tree::Slot>, p: int)
    requires
        0 <= p < leaves.len(),
    ensures
        offset(leaves, p + 1) == offset(leaves, p) + tree::slot_items(leaves[p]).len(),
        offset(leaves, p + 1) <= tree::flat(leaves).len(),
        p + 1 == leaves.len() ==> offset(leaves, p + 1) == tree::flat(leaves).len(),
        p == 0 ==> offset(leaves, p) == 0,
        forall|i: int|
            0 <= i < tree::slot_items(leaves[p]).len() ==> tree::flat(leaves)[offset(leaves, p)
                + i] == #[trigger] tree::slot_items(leaves[p])[i],
{
    let a = leaves.take(p);
    let b = seq![leaves[p]];
    let c = leaves.skip(p + 1);
    assert(leaves =~= a + b + c);
    assert(leaves.take(p + 1) =~= a + b);
    tree::lemma_flat_join(a + b, c);
    tree::lemma_flat_join(a, b);
    tree::lemma_flat_one(leaves[p]);
    if p + 1 == leaves.len() {
        assert(leaves.take(p + 1) =~= leaves);
    }
    if p == 0 {
        assert(a =~= Seq::<tree::Slot>::empty());
    }
}

/// How many items are before `key`, or at it too.
pub open spec fn count_before(items: Seq<tree::Item>, key: Seq<u8>, included: bool) -> int {
    if included {
        tree::rank(items, key, items.len()) as int
    } else {
        below(items, key, items.len()) as int
    }
}

/// How many of the first `n` items are before `key`: those of an ascending list.
pub open spec fn below(items: Seq<tree::Item>, key: Seq<u8>, n: nat) -> nat
    decreases n,
{
    if n == 0 {
        0
    } else if order::lt(items[n - 1].key, key) {
        n
    } else {
        below(items, key, (n - 1) as nat)
    }
}

/// A count of items before a key is what splits the list there.
pub proof fn lemma_below_is(items: Seq<tree::Item>, key: Seq<u8>, p: int)
    requires
        tree::ascending(items),
        0 <= p <= items.len(),
        p > 0 ==> order::lt(items[p - 1].key, key),
        p < items.len() ==> !order::lt(items[p].key, key),
    ensures
        below(items, key, items.len()) == p,
{
    lemma_below(items, key, p, items.len());
}

proof fn lemma_below(items: Seq<tree::Item>, key: Seq<u8>, p: int, n: nat)
    requires
        tree::ascending(items),
        0 <= p <= n <= items.len(),
        p > 0 ==> order::lt(items[p - 1].key, key),
        p < items.len() ==> !order::lt(items[p].key, key),
    ensures
        below(items, key, n) == p,
    decreases n,
{
    if n > p {
        if n - 1 > p && order::lt(items[n - 1].key, key) {
            assert(order::lt(items[p].key, items[n - 1].key));
            order::lemma_lt_trans(items[p].key, items[n - 1].key, key);
        }
        lemma_below(items, key, p, (n - 1) as nat);
    }
}

/// The same for items at the key too.
pub proof fn lemma_rank_at(items: Seq<tree::Item>, key: Seq<u8>, p: int)
    requires
        tree::ascending(items),
        0 <= p <= items.len(),
        p > 0 ==> order::le(items[p - 1].key, key),
        p < items.len() ==> order::lt(key, items[p].key),
    ensures
        tree::rank(items, key, items.len()) == p,
{
    assert forall|i: int| p <= i < items.len() implies order::lt(key, (#[trigger] items[i]).key) by {
        if i > p {
            assert(order::lt(items[p].key, items[i].key));
            order::lemma_lt_trans(key, items[p].key, items[i].key);
        }
    }
    tree::lemma_rank_is(items, key, p as nat);
}

/// What the leaf chosen by a key tells of the items around it.
proof fn lemma_chosen(m: BlockMap, root: Seq<u8>, pick: Pick<'_>)
    requires
        tree::leaves(m, root).len() > 0,
    ensures
        ({
            let leaves = tree::leaves(m, root);
            let its = tree::items(m, root);
            let t = target(leaves, pick);
            let o = offset(leaves, t);
            let e = offset(leaves, t + 1);
            let here = tree::slot_items(leaves[t]);
            &&& 0 <= t < leaves.len()
            &&& its == tree::flat(leaves)
            &&& tree::ascending(its)
            &&& e == o + here.len()
            &&& 0 <= o <= e <= its.len()
            &&& forall|i: int| 0 <= i < here.len() ==> its[o + i] == #[trigger] here[i]
            &&& t == 0 ==> o == 0
            &&& t > 0 ==> pick.takes(leaves[t].key)
            &&& o > 0 ==> t > 0 && order::lt(its[o - 1].key, leaves[t].key)
            &&& t + 1 < leaves.len() ==> e < its.len() && !pick.takes(its[e].key)
            &&& t + 1 == leaves.len() ==> e == its.len()
            &&& e < its.len() ==> !pick.takes(its[e].key)
            &&& here.len() > 0 ==> here[0].key == leaves[t].key
            &&& here.len() == 0 ==> its.len() == 0
        }),
{
    let leaves = tree::leaves(m, root);
    let its = tree::items(m, root);
    let t = target(leaves, pick);
    let o = offset(leaves, t);
    let e = offset(leaves, t + 1);
    let here = tree::slot_items(leaves[t]);
    tree::law_keys_ascend(m, root);
    tree::lemma_tree_slots(m, root, 0);
    lemma_taken(leaves, pick, leaves.len());
    lemma_offset(leaves, t);
    if tree::rooted(m, root) {
        assert(tree::sound(leaves[t], tree::next_key(leaves, None, t)));
        assert(here.len() > 0 && here[0].key == leaves[t].key) by {
            reveal(tree::sound);
        }
        assert(its[o + 0] == here[0]);
        if o > 0 {
            assert(order::lt(its[o - 1].key, its[o].key));
            if t == 0 {
                assert(false);
            }
        }
        if t + 1 < leaves.len() {
            lemma_offset(leaves, t + 1);
            let next = tree::slot_items(leaves[t + 1]);
            assert(tree::sound(leaves[t + 1], tree::next_key(leaves, None, t + 1)));
            assert(next.len() > 0 && next[0].key == leaves[t + 1].key) by {
                reveal(tree::sound);
            }
            assert(its[e + 0] == next[0]);
            assert(!pick.takes(leaves[t + 1].key));
        }
    } else {
        assert(leaves[t].opened is Ok);
        assert(here.len() == 0);
    }
}

/// Before what is at or before a key is before it.
proof fn lemma_lt_le(a: Seq<u8>, b: Seq<u8>, c: Seq<u8>)
    requires
        order::lt(a, b),
        order::le(b, c),
    ensures
        order::lt(a, c),
{
    if b != c {
        order::lemma_lt_trans(a, b, c);
    }
}

/// A root that cannot be loaded is one gap; any other tree has leaves.
proof fn lemma_root_leaves(m: BlockMap, root: Seq<u8>)
    ensures
        tree::leaves(m, root).len() > 0,
        store::loaded(m, root) is Err ==> tree::leaves(m, root) == seq![tree::root_slot(m, root)],
{
    tree::lemma_tree_slots(m, root, 0);
}

/// A gap where the leaf for a key should be.
proof fn lemma_cover(m: BlockMap, root: Seq<u8>, key: &[u8])
    requires
        tree::leaves(m, root).len() > 0,
    ensures
        cover_fault(tree::items(m, root), key@) == (match tree::leaves(m, root)[target(
            tree::leaves(m, root),
            Pick::Key(key),
        )].opened {
            Err(f) => Some(f),
            Ok(_) => None,
        }),
{
    let pick = Pick::Key(key);
    lemma_chosen(m, root, pick);
    let leaves = tree::leaves(m, root);
    let its = tree::items(m, root);
    let t = target(leaves, pick);
    let o = offset(leaves, t);
    let e = offset(leaves, t + 1);
    let here = tree::slot_items(leaves[t]);
    let r = tree::rank(its, key@, its.len());
    tree::lemma_rank(its, key@, its.len());
    if here.len() > 0 {
        assert(its[o + 0] == here[0]);
        // The rank is within this leaf, or nothing is at or before the key.
        if r > e {
            assert(order::le(its[r - 1].key, key@));
            if r - 1 > e {
                assert(order::lt(its[e].key, its[r - 1].key));
                order::lemma_le_trans(its[e].key, its[r - 1].key, key@);
            }
            assert(pick.takes(its[e].key));
        }
        if r <= o {
            assert(order::lt(key@, its[o].key));
            if pick.takes(leaves[t].key) {
                order::lemma_le_trans(its[o].key, key@, its[o].key);
                order::lemma_lt_trans(key@, its[o].key, key@);
                order::lemma_lt_irreflexive(key@);
            }
        }
        let c = if r > 0 {
            r - 1
        } else {
            0
        };
        assert(o <= c < e);
        assert(its[o + (c - o)] == here[c - o]);
    }
}

/// Where a cursor stands among the items of a tree.
pub enum Spot {
    At(int),
    AfterEnd,
    BeforeStart,
}

/// The outcome of a seek that wants item `q`.
pub open spec fn lands(items: Seq<tree::Item>, q: int, else_spot: Spot) -> Result<Spot, Fault> {
    if 0 <= q < items.len() {
        match items[q].what {
            Err(f) => Err(f),
            Ok(_) => Ok(Spot::At(q)),
        }
    } else {
        Ok(else_spot)
    }
}

/// A gap where the leaf for `key` should be.
pub open spec fn cover_fault(items: Seq<tree::Item>, key: Seq<u8>) -> Option<Fault> {
    let r = tree::rank(items, key, items.len());
    let c = if r > 0 {
        r - 1
    } else {
        0
    };
    if c < items.len() && items[c].what is Err {
        Some(items[c].what->Err_0)
    } else {
        None
    }
}

/// Where [`Cursor::seek`] goes: the first item at or after `key`.
pub open spec fn seek_spot(items: Seq<tree::Item>, key: Seq<u8>) -> Result<Spot, Fault> {
    match cover_fault(items, key) {
        Some(f) => Err(f),
        None => lands(items, count_before(items, key, false), Spot::AfterEnd),
    }
}

/// Where [`Cursor::seek_back`] goes: the last item before `key`, or at it.
pub open spec fn back_spot(items: Seq<tree::Item>, key: Seq<u8>, included: bool) -> Result<
    Spot,
    Fault,
> {
    let b = count_before(items, key, included);
    if b > 0 {
        lands(items, b - 1, Spot::BeforeStart)
    } else if items.len() > 0 && items[0].what is Err {
        Err(items[0].what->Err_0)
    } else {
        Ok(Spot::BeforeStart)
    }
}

/// Where [`Cursor::seek_before`] goes: the last item before `key`.
pub open spec fn before_spot(items: Seq<tree::Item>, key: Seq<u8>) -> Result<Spot, Fault> {
    match cover_fault(items, key) {
        Some(f) => Err(f),
        None => lands(items, count_before(items, key, false) - 1, Spot::BeforeStart),
    }
}

/// Where a step to the right goes.
pub open spec fn next_spot(items: Seq<tree::Item>, at: Spot) -> Result<Spot, Fault> {
    match at {
        Spot::AfterEnd => Ok(Spot::AfterEnd),
        Spot::BeforeStart => lands(items, 0, Spot::AfterEnd),
        Spot::At(q) => lands(items, q + 1, Spot::AfterEnd),
    }
}

/// Where a step to the left goes.
pub open spec fn prev_spot(items: Seq<tree::Item>, at: Spot) -> Result<Spot, Fault> {
    match at {
        Spot::BeforeStart => Ok(Spot::BeforeStart),
        Spot::AfterEnd => lands(items, items.len() - 1, Spot::BeforeStart),
        Spot::At(q) => lands(items, q - 1, Spot::BeforeStart),
    }
}

#[derive(Clone, Copy, Debug, PartialEq, Eq)]
enum Pos {
    /// On entry `i` of the floor node.
    At(usize),
    /// Past the last entry of the tree. The level cursor is on the last leaf.
    AfterEnd,
    /// Before the first entry of the tree. The level cursor is on the first leaf.
    BeforeStart,
}

/// A position at one entry of the tree, and the moves a scan needs.
///
/// Every move is atomic. On [`ReadError::Need`] the cursor is exactly where it was,
/// so the caller fetches the block and repeats the same call. Whether a further
/// leaf exists is read from the ancestors, never by loading it.
pub struct Cursor<'a, B: Blocks> {
    level: LevelCursor<'a, B>,
    pos: Pos,
}

impl<'a, B: Blocks> Cursor<'a, B> {
    /// The source it reads.
    pub closed spec fn source(&self) -> BlockMap {
        self.level.source()
    }

    /// The root of the tree.
    pub closed spec fn root(&self) -> Seq<u8> {
        self.level.root()
    }

    /// The items of the tree.
    pub open spec fn items(&self) -> Seq<tree::Item> {
        tree::items(self.source(), self.root())
    }

    /// Where it stands.
    pub closed spec fn spot(&self) -> Spot {
        match self.pos {
            Pos::At(i) => Spot::At(offset(self.level.slots(), self.level.at()) + i),
            Pos::AfterEnd => Spot::AfterEnd,
            Pos::BeforeStart => Spot::BeforeStart,
        }
    }

    pub closed spec fn wf(&self) -> bool {
        &&& self.level.wf()
        &&& self.level.floor() == 0
        &&& match self.pos {
            Pos::At(i) => i < self.level.here().node.rows.len(),
            Pos::AfterEnd => self.level.at() + 1 == self.level.slots().len(),
            Pos::BeforeStart => self.level.at() == 0,
        }
    }

    /// What a cursor on a leaf knows of the items around it.
    proof fn lemma_leaf(&self)
        requires
            self.level.wf(),
            self.level.floor() == 0,
        ensures
            ({
                let leaves = self.level.slots();
                let p = self.level.at();
                let rows = self.level.here().node.rows;
                let its = self.items();
                let o = offset(leaves, p);
                &&& its == tree::flat(leaves)
                &&& tree::ascending(its)
                &&& 0 <= p < leaves.len()
                &&& 0 <= o
                &&& o + rows.len() <= its.len()
                &&& p == 0 ==> o == 0
                &&& p + 1 == leaves.len() ==> o + rows.len() == its.len()
                &&& forall|i: int|
                    0 <= i < rows.len() ==> #[trigger] its[o + i] == tree::entry(rows[i])
                &&& p + 1 < leaves.len() ==> {
                    let next = tree::slot_items(leaves[p + 1]);
                    &&& offset(leaves, p + 1) == o + rows.len()
                    &&& next.len() > 0
                    &&& o + rows.len() < its.len()
                    &&& its[o + rows.len()] == next[0]
                    &&& its[o + rows.len()].key == leaves[p + 1].key
                }
                &&& p > 0 ==> {
                    let prev = tree::slot_items(leaves[p - 1]);
                    &&& prev.len() > 0
                    &&& o == offset(leaves, p - 1) + prev.len()
                    &&& o >= prev.len()
                    &&& its[o - 1] == prev.last()
                }
                &&& leaves.len() > 1 ==> rows.len() > 0
                &&& node::sorted_rows(rows)
                &&& rows.len() > 0 ==> leaves[p].key == rows[0].key
            }),
    {
        self.level.lemma_here();
        let m = self.source();
        let root = self.root();
        let leaves = self.level.slots();
        let p = self.level.at();
        let h = self.level.here();
        let rows = h.node.rows;
        let its = self.items();
        tree::law_keys_ascend(m, root);
        tree::lemma_tree_slots(m, root, 0);
        lemma_offset(leaves, p);
        reveal(tree::steady);
        assert forall|i: int| 0 <= i < rows.len() implies #[trigger] its[offset(leaves, p) + i]
            == tree::entry(rows[i]) by {
            assert(tree::slot_items(leaves[p])[i] == tree::entry(rows[i]));
        }
        if tree::rooted(m, root) {
            reveal(tree::sound);
            assert(tree::sound(leaves[p], tree::next_key(leaves, None, p)));
            if p + 1 < leaves.len() {
                assert(tree::sound(leaves[p + 1], tree::next_key(leaves, None, p + 1)));
                lemma_offset(leaves, p + 1);
                assert(tree::slot_items(leaves[p + 1])[0] == its[offset(leaves, p + 1) + 0]);
            }
            if p > 0 {
                assert(tree::sound(leaves[p - 1], tree::next_key(leaves, None, p - 1)));
                lemma_offset(leaves, p - 1);
                let prev = tree::slot_items(leaves[p - 1]);
                assert(prev[prev.len() - 1] == its[offset(leaves, p - 1) + (prev.len() - 1)]);
            }
        }
    }

    /// The first entry with a key at or after `key`, or past the end if there is
    /// none.
    pub fn seek(blocks: &'a B, root: &Cid, key: &[u8]) -> (r: Result<Self, ReadError>)
        ensures
            ({
                let its = tree::items(blocks.held(), root@);
                match r {
                    Ok(c) => {
                        &&& c.wf()
                        &&& c.source() == blocks.held()
                        &&& c.root() == root@
                        &&& seek_spot(its, key@) == Ok::<Spot, Fault>(c.spot())
                    },
                    Err(e) => seek_spot(its, key@) == Err::<Spot, Fault>(e@),
                }
            }),
    {
        let ghost m = blocks.held();
        let ghost its = tree::items(m, root@);
        let ghost leaves = tree::leaves(m, root@);
        let ghost t = target(leaves, Pick::Key(key));
        proof {
            lemma_root_leaves(m, root@);
            lemma_cover(m, root@, key);
            lemma_chosen(m, root@, Pick::Key(key));
        }
        let level = match LevelCursor::seek(blocks, root, 0, key) {
            Err(e) => return Err(e),
            Ok(None) => {
                assert(false);
                return Err(store::need_one(root));
            },
            Ok(Some(c)) => c,
        };
        let mut c = Cursor { level, pos: Pos::AfterEnd };
        proof {
            c.lemma_leaf();
        }
        let ghost rows = c.level.here().node.rows;
        let ghost o = offset(leaves, t);
        let n = c.level.node().len();
        let i = match c.level.node().search(key) {
            Ok(i) => {
                proof {
                    order::lemma_lt_irreflexive(key@);
                    if i > 0 {
                        assert(order::lt(rows[i - 1].key, rows[i as int].key));
                        assert(its[o + (i - 1)] == tree::entry(rows[i - 1]));
                    }
                }
                i
            },
            Err(i) => {
                proof {
                    if i > 0 {
                        assert(order::lt(rows[i - 1].key, key@));
                        assert(its[o + (i - 1)] == tree::entry(rows[i - 1]));
                    }
                    if i < n {
                        assert(order::lt(key@, rows[i as int].key));
                        order::lemma_lt_total(key@, rows[i as int].key);
                    }
                }
                i
            },
        };
        if i < n {
            c.pos = Pos::At(i);
            proof {
                assert(its[o + i] == tree::entry(rows[i as int]));
                if i == 0 && o > 0 {
                    lemma_lt_le(its[o - 1].key, leaves[t].key, key@);
                }
                lemma_below_is(its, key@, o + i);
            }
            return Ok(c);
        }
        // Every entry of this leaf is before `key`. The next leaf's first entry is
        // the answer, if there is a next leaf, which the ancestors know.
        let ghost c0 = c;
        let next = c.level.next_min_key();
        if next.is_none() {
            proof {
                if n == 0 {
                    assert(o == 0);
                }
                lemma_below_is(its, key@, o + n);
            }
            return Ok(c);
        }
        proof {
            order::lemma_lt_total(its[o + n].key, key@);
            lemma_below_is(its, key@, o + n);
        }
        match c.level.advance() {
            Err(e) => Err(e),
            Ok(_) => {
                proof {
                    c.level.lemma_here();
                    c.lemma_leaf();
                    let r1 = c.level.here().node.rows;
                    assert(its[offset(leaves, t + 1) + 0] == tree::entry(r1[0]));
                }
                c.pos = Pos::At(0);
                Ok(c)
            },
        }
    }

    /// The entry the cursor is on, if it is on one.
    pub fn peek(&self) -> (r: Option<(Vec<u8>, Value<'a>)>)
        requires
            self.wf(),
        ensures
            match r {
                None => !(self.spot() is At),
                Some(e) => {
                    &&& self.spot() is At
                    &&& 0 <= self.spot()->At_0 < self.items().len()
                    &&& self.items()[self.spot()->At_0] == (tree::Item {
                        key: e.0@,
                        what: Ok(e.1@),
                    })
                },
            },
    {
        proof {
            self.lemma_leaf();
            self.level.lemma_here();
        }
        match self.pos {
            Pos::At(i) => {
                let n = self.level.node();
                proof {
                    let o = offset(self.level.slots(), self.level.at());
                    assert(self.items()[o + i] == tree::entry(self.level.here().node.rows[i as int]));
                }
                Some((n.key(i), n.value(i)))
            },
            _ => None,
        }
    }
}

impl<'a, B: Blocks> Cursor<'a, B> {
    /// The last entry at or below `key` (`included`) or strictly below it,
    /// positioned without loading a leaf outside that bound.
    #[verifier::rlimit(60)]
    #[verifier::spinoff_prover]
    pub fn seek_back(blocks: &'a B, root: &Cid, key: &[u8], included: bool) -> (r: Result<
        Self,
        ReadError,
    >)
        ensures
            ({
                let its = tree::items(blocks.held(), root@);
                match r {
                    Ok(c) => {
                        &&& c.wf()
                        &&& c.source() == blocks.held()
                        &&& c.root() == root@
                        &&& back_spot(its, key@, included) == Ok::<Spot, Fault>(c.spot())
                    },
                    Err(e) => back_spot(its, key@, included) == Err::<Spot, Fault>(e@),
                }
            }),
    {
        let ghost m = blocks.held();
        let ghost its = tree::items(m, root@);
        let ghost leaves = tree::leaves(m, root@);
        let pick = if included {
            Pick::Key(key)
        } else {
            Pick::Below(key)
        };
        let ghost t = target(leaves, pick);
        let ghost o = offset(leaves, t);
        let ghost e = offset(leaves, t + 1);
        let ghost here = tree::slot_items(leaves[t]);
        proof {
            lemma_root_leaves(m, root@);
            lemma_chosen(m, root@, pick);
        }
        let level = match LevelCursor::seek_pick(blocks, root, 0, pick) {
            Err(x) => {
                proof {
                    assert(its[o + 0] == here[0]);
                    if pick.takes(leaves[t].key) {
                        lemma_count(its, key@, included, pick, o + 1);
                    } else {
                        lemma_count(its, key@, included, pick, 0);
                    }
                }
                return Err(x);
            },
            Ok(None) => {
                assert(false);
                return Err(store::need_one(root));
            },
            Ok(Some(c)) => c,
        };
        let mut c = Cursor { level, pos: Pos::BeforeStart };
        proof {
            c.lemma_leaf();
        }
        let ghost rows = c.level.here().node.rows;
        let n = c.level.node().len();
        // Within the leaf, the last entry satisfying the bound.
        let b = match c.level.node().search(key) {
            Ok(i) => {
                proof {
                    order::lemma_lt_irreflexive(key@);
                    assert(its[o + i] == tree::entry(rows[i as int]));
                    if i > 0 {
                        assert(order::lt(rows[i - 1].key, rows[i as int].key));
                        assert(its[o + (i - 1)] == tree::entry(rows[i - 1]));
                    }
                    if i + 1 < n {
                        assert(order::lt(rows[i as int].key, rows[i + 1].key));
                        assert(its[o + (i + 1)] == tree::entry(rows[i + 1]));
                        order::lemma_lt_total(rows[i as int].key, rows[i + 1].key);
                    }
                }
                if included {
                    i + 1
                } else {
                    i
                }
            },
            Err(i) => {
                proof {
                    if i > 0 {
                        assert(order::lt(rows[i - 1].key, key@));
                        assert(its[o + (i - 1)] == tree::entry(rows[i - 1]));
                    }
                    if i < n {
                        assert(order::lt(key@, rows[i as int].key));
                        order::lemma_lt_total(key@, rows[i as int].key);
                        assert(its[o + i] == tree::entry(rows[i as int]));
                    }
                }
                i
            },
        };
        proof {
            if b == 0 && o > 0 {
                assert(its[o + 0] == here[0]);
                assert(pick.takes(leaves[t].key));
                assert(false);
            }
            lemma_count(its, key@, included, pick, o + b);
        }
        if b > 0 {
            c.pos = Pos::At(b - 1);
        } else {
            proof {
                if its.len() > 0 {
                    assert(its[o + 0] == here[0]);
                }
            }
        }
        Ok(c)
    }

    /// The last entry with a key before `key`, or before the start if there is
    /// none.
    pub fn seek_before(blocks: &'a B, root: &Cid, key: &[u8]) -> (r: Result<Self, ReadError>)
        ensures
            ({
                let its = tree::items(blocks.held(), root@);
                match r {
                    Ok(c) => {
                        &&& c.wf()
                        &&& c.source() == blocks.held()
                        &&& c.root() == root@
                        &&& before_spot(its, key@) == Ok::<Spot, Fault>(c.spot())
                    },
                    Err(e) => before_spot(its, key@) == Err::<Spot, Fault>(e@),
                }
            }),
    {
        let ghost m = blocks.held();
        let ghost its = tree::items(m, root@);
        let ghost leaves = tree::leaves(m, root@);
        let ghost t = target(leaves, Pick::Key(key));
        let ghost o = offset(leaves, t);
        proof {
            lemma_root_leaves(m, root@);
            lemma_cover(m, root@, key);
            lemma_chosen(m, root@, Pick::Key(key));
        }
        let level = match LevelCursor::seek(blocks, root, 0, key) {
            Err(e) => return Err(e),
            Ok(None) => {
                assert(false);
                return Err(store::need_one(root));
            },
            Ok(Some(c)) => c,
        };
        let mut c = Cursor { level, pos: Pos::BeforeStart };
        proof {
            c.lemma_leaf();
        }
        let ghost rows = c.level.here().node.rows;
        let n = c.level.node().len();
        let first_ge = match c.level.node().search(key) {
            Ok(i) => {
                proof {
                    order::lemma_lt_irreflexive(key@);
                    assert(its[o + i] == tree::entry(rows[i as int]));
                    if i > 0 {
                        assert(order::lt(rows[i - 1].key, rows[i as int].key));
                        assert(its[o + (i - 1)] == tree::entry(rows[i - 1]));
                    }
                }
                i
            },
            Err(i) => {
                proof {
                    if i > 0 {
                        assert(order::lt(rows[i - 1].key, key@));
                        assert(its[o + (i - 1)] == tree::entry(rows[i - 1]));
                    }
                    if i < n {
                        assert(order::lt(key@, rows[i as int].key));
                        order::lemma_lt_total(key@, rows[i as int].key);
                        assert(its[o + i] == tree::entry(rows[i as int]));
                    }
                }
                i
            },
        };
        proof {
            if first_ge == n && o + n < its.len() {
                order::lemma_lt_total(its[o + n].key, key@);
            }
            if first_ge == 0 && o > 0 {
                lemma_lt_le(its[o - 1].key, leaves[t].key, key@);
            }
            lemma_below_is(its, key@, o + first_ge);
        }
        if first_ge > 0 {
            c.pos = Pos::At(first_ge - 1);
            return Ok(c);
        }
        if !c.level.is_first() {
            match c.level.retreat() {
                Err(e) => {
                    return Err(e);
                },
                Ok(_) => {},
            }
            proof {
                c.level.lemma_here();
                c.lemma_leaf();
            }
            let len = c.level.node().len();
            proof {
                let r1 = c.level.here().node.rows;
                assert(its[offset(leaves, t - 1) + (len - 1)] == tree::entry(r1[len - 1]));
            }
            c.pos = Pos::At(len - 1);
        }
        Ok(c)
    }

    /// The last entry of the tree, or before the start if it is empty.
    pub fn seek_last(blocks: &'a B, root: &Cid) -> (r: Result<Self, ReadError>)
        ensures
            ({
                let its = tree::items(blocks.held(), root@);
                match r {
                    Ok(c) => {
                        &&& c.wf()
                        &&& c.source() == blocks.held()
                        &&& c.root() == root@
                        &&& lands(its, its.len() - 1, Spot::BeforeStart) == Ok::<Spot, Fault>(
                            c.spot(),
                        )
                    },
                    Err(e) => lands(its, its.len() - 1, Spot::BeforeStart) == Err::<Spot, Fault>(
                        e@,
                    ),
                }
            }),
    {
        let ghost m = blocks.held();
        let ghost its = tree::items(m, root@);
        let ghost leaves = tree::leaves(m, root@);
        proof {
            lemma_root_leaves(m, root@);
            lemma_chosen(m, root@, Pick::Last);
            lemma_taken_is(leaves, Pick::Last, leaves.len());
        }
        let level = match LevelCursor::seek_last(blocks, root, 0) {
            Err(e) => {
                proof {
                    let here = tree::slot_items(leaves.last());
                    assert(its[offset(leaves, leaves.len() - 1) + 0] == here[0]);
                }
                return Err(e);
            },
            Ok(None) => {
                assert(false);
                return Err(store::need_one(root));
            },
            Ok(Some(c)) => c,
        };
        let mut c = Cursor { level, pos: Pos::BeforeStart };
        proof {
            c.lemma_leaf();
        }
        let len = c.level.node().len();
        if len > 0 {
            proof {
                let rows = c.level.here().node.rows;
                assert(its[offset(leaves, leaves.len() - 1) + (len - 1)] == tree::entry(
                    rows[len - 1],
                ));
            }
            c.pos = Pos::At(len - 1);
        }
        Ok(c)
    }

    /// Is the cursor on an entry?
    pub fn on_entry(&self) -> (r: bool)
        requires
            self.wf(),
        ensures
            r == (self.spot() is At),
    {
        match self.pos {
            Pos::At(_) => true,
            _ => false,
        }
    }

    /// What a page carries for the entry the cursor is on: its key, and its value
    /// as a leaf stores it.
    pub fn entry_cost(&self) -> (n: usize)
        requires
            self.wf(),
            self.spot() is At,
        ensures
            0 <= self.spot()->At_0 < self.items().len(),
            self.items()[self.spot()->At_0].what is Ok,
            n == self.items()[self.spot()->At_0].key.len() + node::stored(
                self.items()[self.spot()->At_0].what->Ok_0,
            ).len(),
            n <= 32768,
    {
        proof {
            self.lemma_leaf();
            self.level.lemma_here();
        }
        match self.pos {
            Pos::At(i) => {
                let n = self.level.node();
                n.known_valid();
                proof {
                    let o = offset(self.level.slots(), self.level.at());
                    let rows = self.level.here().node.rows;
                    assert(self.items()[o + i] == tree::entry(rows[i as int]));
                    assert(node::row_fits(n@.level, rows[i as int]));
                }
                let key = n.key(i);
                match n.value(i) {
                    Value::Inline(b) => key.len() + b.len(),
                    Value::Ref { .. } => key.len() + 32,
                }
            },
            _ => 0,
        }
    }

    /// Id of the leaf the cursor is on.
    pub fn leaf(&self) -> (cid: Cid)
        requires
            self.wf(),
        ensures
            cid@ == tree::leaves(self.source(), self.root())[self.leaf_index()].cid,
    {
        self.level.id()
    }

    /// Which leaf of the tree the cursor is on.
    pub closed spec fn leaf_index(&self) -> int {
        self.level.at()
    }

    /// Smallest key of the leaf after this one, if there is one. Read from the
    /// ancestors, so it costs nothing.
    pub fn next_min_key(&self) -> (r: Option<Vec<u8>>)
        requires
            self.wf(),
        ensures
            ({
                let leaves = tree::leaves(self.source(), self.root());
                match r {
                    None => self.leaf_index() + 1 == leaves.len(),
                    Some(k) => self.leaf_index() + 1 < leaves.len() && k@
                        == leaves[self.leaf_index() + 1].key,
                }
            }),
    {
        self.level.next_min_key()
    }

    /// The key of the item after the entry the cursor is on, without loading
    /// anything.
    pub fn next_key(&self) -> (r: Option<Vec<u8>>)
        requires
            self.wf(),
            self.spot() is At,
        ensures
            match r {
                None => self.spot()->At_0 + 1 == self.items().len(),
                Some(k) => self.spot()->At_0 + 1 < self.items().len() && k@
                    == self.items()[self.spot()->At_0 + 1].key,
            },
    {
        proof {
            self.lemma_leaf();
            self.level.lemma_here();
        }
        let ghost o = offset(self.level.slots(), self.level.at());
        let ghost rows = self.level.here().node.rows;
        match self.pos {
            Pos::At(i) => {
                let n = self.level.node();
                let len = n.len();
                if i + 1 < len {
                    assert(self.items()[o + (i + 1)] == tree::entry(rows[i + 1]));
                    Some(n.key(i + 1))
                } else {
                    self.level.next_min_key()
                }
            },
            _ => None,
        }
    }

    /// Smallest key of the leaf the cursor is on.
    pub fn leaf_min_key(&self) -> (r: Option<Vec<u8>>)
        requires
            self.wf(),
        ensures
            match r {
                None => self.items().len() == 0,
                Some(k) => self.items().len() > 0 && k@ == tree::leaves(
                    self.source(),
                    self.root(),
                )[self.leaf_index()].key,
            },
    {
        proof {
            self.lemma_leaf();
            self.level.lemma_here();
            tree::lemma_tree_slots(self.source(), self.root(), 0);
        }
        let n = self.level.node();
        if n.is_empty() {
            None
        } else {
            Some(n.key(0))
        }
    }

    /// Is this the first leaf of the tree?
    pub fn is_first_leaf(&self) -> (r: bool)
        requires
            self.wf(),
        ensures
            r == (self.leaf_index() == 0),
    {
        self.level.is_first()
    }

    /// Is the cursor on the last entry of its leaf, so that [`Self::next`] would
    /// have to load another block?
    pub fn at_leaf_end(&self) -> (r: bool)
        requires
            self.wf(),
        ensures
            r == (self.spot() is At && self.spot()->At_0 + 1 == offset(
                tree::leaves(self.source(), self.root()),
                self.leaf_index() + 1,
            )),
    {
        proof {
            self.level.lemma_here();
            lemma_offset(self.level.slots(), self.level.at());
        }
        match self.pos {
            Pos::At(i) => {
                let n = self.level.node().len();
                i + 1 >= n
            },
            _ => false,
        }
    }

    /// Is the cursor on the first entry of its leaf, so that [`Self::prev`] would
    /// have to load another block?
    pub fn at_leaf_start(&self) -> (r: bool)
        requires
            self.wf(),
        ensures
            r == (self.spot() is At && self.spot()->At_0 == offset(
                tree::leaves(self.source(), self.root()),
                self.leaf_index(),
            )),
    {
        match self.pos {
            Pos::At(i) => i == 0,
            _ => false,
        }
    }

    /// Move to the next entry. `false` if there is none, leaving the cursor past
    /// the end.
    pub fn next(&mut self) -> (r: Result<bool, ReadError>)
        requires
            old(self).wf(),
        ensures
            final(self).wf(),
            final(self).source() == old(self).source(),
            final(self).root() == old(self).root(),
            match r {
                Ok(moved) => {
                    &&& next_spot(old(self).items(), old(self).spot()) == Ok::<Spot, Fault>(
                        final(self).spot(),
                    )
                    &&& moved == (final(self).spot() is At)
                },
                Err(e) => {
                    &&& next_spot(old(self).items(), old(self).spot()) == Err::<Spot, Fault>(e@)
                    &&& final(self).spot() == old(self).spot()
                },
            },
    {
        proof {
            self.lemma_leaf();
            self.level.lemma_here();
        }
        let ghost leaves = self.level.slots();
        let ghost p = self.level.at();
        let ghost o = offset(leaves, p);
        let ghost its = self.items();
        let ghost rows = self.level.here().node.rows;
        let n = self.level.node().len();
        match self.pos {
            Pos::AfterEnd => Ok(false),
            Pos::BeforeStart => {
                if n == 0 {
                    self.pos = Pos::AfterEnd;
                    assert(leaves.len() <= 1);
                    Ok(false)
                } else {
                    assert(its[o + 0] == tree::entry(rows[0]));
                    self.pos = Pos::At(0);
                    Ok(true)
                }
            },
            Pos::At(i) => {
                if i + 1 < n {
                    assert(its[o + (i + 1)] == tree::entry(rows[i + 1]));
                    self.pos = Pos::At(i + 1);
                    return Ok(true);
                }
                if self.level.next_min_key().is_none() {
                    self.pos = Pos::AfterEnd;
                    return Ok(false);
                }
                match self.level.advance() {
                    Err(e) => {
                        proof {
                            self.level.lemma_here();
                        }
                        Err(e)
                    },
                    Ok(_) => {
                        proof {
                            self.level.lemma_here();
                            self.lemma_leaf();
                            let r1 = self.level.here().node.rows;
                            assert(its[offset(leaves, p + 1) + 0] == tree::entry(r1[0]));
                        }
                        self.pos = Pos::At(0);
                        Ok(true)
                    },
                }
            },
        }
    }

    /// Move to the previous entry. `false` if there is none, leaving the cursor
    /// before the start.
    pub fn prev(&mut self) -> (r: Result<bool, ReadError>)
        requires
            old(self).wf(),
        ensures
            final(self).wf(),
            final(self).source() == old(self).source(),
            final(self).root() == old(self).root(),
            match r {
                Ok(moved) => {
                    &&& prev_spot(old(self).items(), old(self).spot()) == Ok::<Spot, Fault>(
                        final(self).spot(),
                    )
                    &&& moved == (final(self).spot() is At)
                },
                Err(e) => {
                    &&& prev_spot(old(self).items(), old(self).spot()) == Err::<Spot, Fault>(e@)
                    &&& final(self).spot() == old(self).spot()
                },
            },
    {
        proof {
            self.lemma_leaf();
            self.level.lemma_here();
        }
        let ghost leaves = self.level.slots();
        let ghost p = self.level.at();
        let ghost o = offset(leaves, p);
        let ghost its = self.items();
        let ghost rows = self.level.here().node.rows;
        let n = self.level.node().len();
        match self.pos {
            Pos::BeforeStart => Ok(false),
            Pos::AfterEnd => {
                if n == 0 {
                    self.pos = Pos::BeforeStart;
                    assert(leaves.len() <= 1);
                    Ok(false)
                } else {
                    assert(its[o + (n - 1)] == tree::entry(rows[n - 1]));
                    self.pos = Pos::At(n - 1);
                    Ok(true)
                }
            },
            Pos::At(i) => {
                if i > 0 {
                    assert(its[o + (i - 1)] == tree::entry(rows[i - 1]));
                    self.pos = Pos::At(i - 1);
                    return Ok(true);
                }
                if self.level.is_first() {
                    self.pos = Pos::BeforeStart;
                    return Ok(false);
                }
                match self.level.retreat() {
                    Err(e) => {
                        proof {
                            self.level.lemma_here();
                        }
                        Err(e)
                    },
                    Ok(_) => {
                        proof {
                            self.level.lemma_here();
                            self.lemma_leaf();
                        }
                        let len = self.level.node().len();
                        proof {
                            let r1 = self.level.here().node.rows;
                            assert(its[offset(leaves, p - 1) + (len - 1)] == tree::entry(
                                r1[len - 1],
                            ));
                        }
                        self.pos = Pos::At(len - 1);
                        Ok(true)
                    },
                }
            },
        }
    }
}

/// Where a key splits a list, by the choice it makes.
proof fn lemma_count(its: Seq<tree::Item>, key: Seq<u8>, included: bool, pick: Pick<'_>, p: int)
    requires
        tree::ascending(its),
        pick matches Pick::Key(k) ==> included && k@ == key,
        pick matches Pick::Below(k) ==> !included && k@ == key,
        pick is Key || pick is Below,
        0 <= p <= its.len(),
        p > 0 ==> pick.takes(its[p - 1].key),
        p < its.len() ==> !pick.takes(its[p].key),
    ensures
        count_before(its, key, included) == p,
{
    if included {
        if p < its.len() {
            order::lemma_lt_total(its[p].key, key);
        }
        lemma_rank_at(its, key, p);
    } else {
        lemma_below_is(its, key, p);
    }
}

} // verus!
