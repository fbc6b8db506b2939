//! What a scan asks for: the blocks that stop it, in the order the scan comes to them, the
//! one it stopped at first, and no more of them than the caller can use.

use crate::order;
use crate::range;
use crate::range::{End, Front, Options, RangeView};
use crate::store;
use crate::store::{BlockMap, HeldView};
use crate::tree;
use crate::tree::Slot;
use vstd::prelude::*;

verus! {

// ---------------------------------------------------------------------------
// the places a scan comes to
// ---------------------------------------------------------------------------

/// Can a place hold a key of the range: it begins no later than the range ends, and what
/// follows it begins after the range does?
pub open spec fn in_reach(slots: Seq<Slot>, upper: Option<Seq<u8>>, r: RangeView, i: int) -> bool {
    &&& match r.hi {
        End::Open => true,
        End::At(k) => order::le(slots[i].key, k),
        End::Past(k) => order::lt(slots[i].key, k),
    }
    &&& match (tree::next_key(slots, upper, i), r.lo) {
        (Some(next), End::At(k)) => !order::le(next, k),
        (Some(next), End::Past(k)) => !order::le(next, k),
        _ => true,
    }
}

/// Those of the first `n` places that can hold a key of the range.
pub open spec fn reached(slots: Seq<Slot>, upper: Option<Seq<u8>>, r: RangeView, n: nat) -> Seq<Slot>
    decreases n,
{
    if n == 0 {
        Seq::empty()
    } else {
        let front = reached(slots, upper, r, (n - 1) as nat);
        if in_reach(slots, upper, r, n - 1) {
            front.push(slots[n - 1])
        } else {
            front
        }
    }
}

/// Places in the order a scan comes to them.
pub open spec fn in_order(slots: Seq<Slot>, reverse: bool) -> Seq<Slot> {
    if reverse {
        slots.reverse()
    } else {
        slots
    }
}

/// The places of a tree that a scan of a range can come to, in its order.
pub open spec fn places(m: BlockMap, root: Seq<u8>, r: RangeView) -> Seq<Slot> {
    let all = tree::leaves(m, root);
    in_order(reached(all, None, r, all.len()), r.reverse)
}

/// The first places are not changed by those after, but for what follows the last.
proof fn lemma_reached_front(
    a: Seq<Slot>,
    b: Seq<Slot>,
    upper: Option<Seq<u8>>,
    r: RangeView,
    n: nat,
)
    requires
        b.len() > 0,
        n <= a.len(),
    ensures
        reached(a + b, upper, r, n) == reached(a, Some(b[0].key), r, n),
    decreases n,
{
    if n > 0 {
        lemma_reached_front(a, b, upper, r, (n - 1) as nat);
        let i = n - 1;
        assert((a + b)[i] == a[i]);
        if i + 1 < a.len() {
            assert((a + b)[i + 1] == a[i + 1]);
        } else {
            assert((a + b)[i + 1] == b[0]);
        }
    }
}

/// Two runs of places.
proof fn lemma_reached_join(
    a: Seq<Slot>,
    b: Seq<Slot>,
    upper: Option<Seq<u8>>,
    r: RangeView,
    n: nat,
)
    requires
        b.len() > 0,
        n <= b.len(),
    ensures
        reached(a + b, upper, r, a.len() + n) == reached(a, Some(b[0].key), r, a.len()) + reached(
            b,
            upper,
            r,
            n,
        ),
    decreases n,
{
    let head = reached(a, Some(b[0].key), r, a.len());
    if n == 0 {
        lemma_reached_front(a, b, upper, r, a.len());
        assert(head + reached(b, upper, r, 0) =~= head);
    } else {
        lemma_reached_join(a, b, upper, r, (n - 1) as nat);
        let i = n - 1;
        let all = a + b;
        assert(all[a.len() + i] == b[i]);
        if i + 1 < b.len() {
            assert(all[a.len() + i + 1] == b[i + 1]);
        }
        assert((a.len() + n - 1) as nat == a.len() + (n - 1) as nat);
        assert(in_reach(all, upper, r, a.len() + i) == in_reach(b, upper, r, i));
        assert(reached(all, upper, r, a.len() + n) =~= head + reached(b, upper, r, n));
    }
}

/// The other way round.
proof fn lemma_reverse_join(a: Seq<Slot>, b: Seq<Slot>)
    ensures
        (a + b).reverse() == b.reverse() + a.reverse(),
{
    assert((a + b).reverse() =~= b.reverse() + a.reverse());
}

// ---------------------------------------------------------------------------
// naming them one after the other
// ---------------------------------------------------------------------------

/// One place more: a block that is not held is named, a leaf that is held fills the limit.
spec fn taken(m: BlockMap, r: RangeView, o: Options, f: Front, s: Slot) -> Front {
    if f.covered {
        f
    } else if !m.contains_key(s.cid) {
        range::named(f, s.cid, s.agg, s.level == 0, r, o)
    } else {
        range::passed(f, s.agg, r, o)
    }
}

/// Some places more.
spec fn all_taken(m: BlockMap, r: RangeView, o: Options, f: Front, w: Seq<Slot>) -> Front
    decreases w.len(),
{
    if w.len() == 0 {
        f
    } else {
        taken(m, r, o, all_taken(m, r, o, f, w.drop_last()), w.last())
    }
}

proof fn lemma_taken_join(m: BlockMap, r: RangeView, o: Options, f: Front, a: Seq<Slot>, b: Seq<Slot>)
    ensures
        all_taken(m, r, o, f, a + b) == all_taken(m, r, o, all_taken(m, r, o, f, a), b),
    decreases b.len(),
{
    if b.len() == 0 {
        assert(a + b =~= a);
    } else {
        lemma_taken_join(m, r, o, f, a, b.drop_last());
        assert((a + b).drop_last() =~= a + b.drop_last());
        assert((a + b).last() == b.last());
    }
}

/// Enough stays enough.
proof fn lemma_covered(m: BlockMap, r: RangeView, o: Options, f: Front, w: Seq<Slot>)
    requires
        f.covered,
    ensures
        all_taken(m, r, o, f, w) == f,
    decreases w.len(),
{
    if w.len() > 0 {
        lemma_covered(m, r, o, f, w.drop_last());
    }
}

/// The places under child `i` that a scan can come to, in its order.
spec fn under(m: BlockMap, h: HeldView, r: RangeView, i: int) -> Seq<Slot> {
    let here = tree::level_slots(m, tree::child_slot(m, h, i), 0);
    in_order(reached(here, store::child_bound(h, i), r, here.len()), r.reverse)
}

/// The places under the first `n` children in scan order.
spec fn walked(m: BlockMap, h: HeldView, r: RangeView, n: nat) -> Seq<Slot>
    decreases n,
{
    if n == 0 {
        Seq::empty()
    } else {
        walked(m, h, r, (n - 1) as nat) + under(
            m,
            h,
            r,
            if r.reverse {
                h.node.rows.len() - n
            } else {
                n - 1
            },
        )
    }
}

/// Does nothing that follows a node begin before the range does?
spec fn open_above(h: HeldView, r: RangeView) -> bool {
    match (h.upper, r.lo) {
        (Some(u), End::At(k)) => !order::le(u, k),
        (Some(u), End::Past(k)) => !order::le(u, k),
        _ => true,
    }
}

/// Nothing under a child that cannot hold a key of the range can.
#[verifier::rlimit(60)]
proof fn lemma_none_under(m: BlockMap, h: HeldView, r: RangeView, i: int, n: nat)
    requires
        tree::steady(h),
        h.node.level > 0,
        0 <= i < h.node.rows.len(),
        !range::intersects(h, i, r),
        n <= tree::level_slots(m, tree::child_slot(m, h, i), 0).len(),
    ensures
        reached(
            tree::level_slots(m, tree::child_slot(m, h, i), 0),
            store::child_bound(h, i),
            r,
            n,
        ).len() == 0,
    decreases n,
{
    if n > 0 {
        lemma_none_under(m, h, r, i, (n - 1) as nat);
        let s = tree::child_slot(m, h, i);
        let here = tree::level_slots(m, s, 0);
        let bound = store::child_bound(h, i);
        tree::lemma_child_sound(m, h, i);
        tree::lemma_child_under(h, i);
        tree::lemma_level_slots(m, s, bound, 0);
        let j = n - 1;
        let low = h.node.rows[i].key;
        assert(here[0].key == low);
        if j > 0 {
            assert(order::lt(here[0].key, here[j].key));
        }
        if in_reach(here, bound, r, j) {
            match r.hi {
                End::Open => {},
                End::At(k) => order::lemma_le_trans(low, here[j].key, k),
                End::Past(k) => {
                    if low != here[j].key {
                        order::lemma_lt_trans(low, here[j].key, k);
                    }
                },
            }
            assert(range::under(low, r.hi));
            let top = h.node.rows[i + 1].key;
            assert(bound == Some(top));
            let next = tree::next_key(here, bound, j)->Some_0;
            if j + 1 < here.len() {
                assert(tree::under(here[j + 1].key, bound));
            }
            assert(order::le(next, top));
            match r.lo {
                End::Open => {},
                End::At(k) => order::lemma_le_trans(next, top, k),
                End::Past(k) => order::lemma_le_trans(next, top, k),
            }
        }
    }
}

/// A walk over the children of a branch takes the places under them, one after the other.
#[verifier::rlimit(60)]
proof fn lemma_front_children(
    m: BlockMap,
    h: HeldView,
    r: RangeView,
    o: Options,
    f: Front,
    n: nat,
)
    requires
        tree::steady(h),
        h.node.level > 0,
        n <= h.node.rows.len(),
        open_above(h, r),
        range::front_children(m, h, r, o, f, n) is Ok,
    ensures
        range::front_children(m, h, r, o, f, n)->Ok_0 == all_taken(m, r, o, f, walked(m, h, r, n)),
    decreases h.node.level, 1nat, n,
{
    if n > 0 {
        lemma_front_children(m, h, r, o, f, (n - 1) as nat);
        let g = range::front_children(m, h, r, o, f, (n - 1) as nat)->Ok_0;
        let i = if r.reverse {
            h.node.rows.len() - n
        } else {
            n - 1
        };
        assert(range::front_children(m, h, r, o, f, n) == range::front_child(m, h, r, o, g, i));
        lemma_front_child(m, h, r, o, g, i);
        lemma_taken_join(m, r, o, f, walked(m, h, r, (n - 1) as nat), under(m, h, r, i));
    }
}

/// The same of one child.
#[verifier::rlimit(60)]
proof fn lemma_front_child(m: BlockMap, h: HeldView, r: RangeView, o: Options, g: Front, i: int)
    requires
        tree::steady(h),
        h.node.level > 0,
        0 <= i < h.node.rows.len(),
        open_above(h, r),
        range::front_child(m, h, r, o, g, i) is Ok,
    ensures
        range::front_child(m, h, r, o, g, i)->Ok_0 == all_taken(m, r, o, g, under(m, h, r, i)),
    decreases h.node.level, 0nat, 0nat,
{
    let s = tree::child_slot(m, h, i);
    let here = tree::level_slots(m, s, 0);
    let bound = store::child_bound(h, i);
    let w = under(m, h, r, i);
    if !range::intersects(h, i, r) {
        lemma_none_under(m, h, r, i, here.len());
        assert(w =~= Seq::<Slot>::empty());
    } else if g.covered {
        lemma_covered(m, r, o, g, w);
    } else {
        assert(bound is Some ==> open_above(HeldView { node: h.node, upper: bound }, r));
        if !m.contains_key(s.cid) || h.node.level == 1 {
            assert(here =~= seq![s]) by {
                reveal(store::loaded);
                if s.opened is Ok {
                    assert(tree::height_of(s) == 0) by {
                        tree::lemma_child_sound(m, h, i);
                        reveal(tree::sound);
                    }
                }
            }
            assert(in_reach(here, bound, r, 0));
            reveal_with_fuel(reached, 2);
            assert(reached(here, bound, r, 1) =~= seq![s]);
            assert(w =~= seq![s]);
            assert(w.drop_last() =~= Seq::<Slot>::empty());
            reveal_with_fuel(all_taken, 2);
        } else {
            let c = store::opened(m, h, i)->Ok_0;
            assert(tree::steady(c)) by {
                reveal(tree::steady);
                tree::lemma_loaded(m, s.cid);
            }
            assert(c.node.level > 0);
            assert(here == tree::child_slots(m, c, 0, c.node.rows.len()));
            lemma_front_children(m, c, r, o, g, c.node.rows.len());
            lemma_walked(m, c, r);
        }
    }
}

/// The places under the children after one begin with those under the next.
proof fn lemma_after_first(m: BlockMap, h: HeldView, i: int, n: nat)
    requires
        -1 <= i,
        i + 1 < n <= h.node.rows.len(),
    ensures
        tree::after_child(m, h, 0, i, n) == tree::level_slots(m, tree::child_slot(m, h, i + 1), 0)
            + tree::after_child(m, h, 0, i + 1, n),
    decreases n,
{
    let here = tree::level_slots(m, tree::child_slot(m, h, i + 1), 0);
    if i + 2 == n {
        assert(tree::after_child(m, h, 0, i, (n - 1) as nat) =~= Seq::<Slot>::empty());
        assert(tree::after_child(m, h, 0, i + 1, n) =~= Seq::<Slot>::empty());
        assert(tree::after_child(m, h, 0, i, n) =~= here + Seq::<Slot>::empty());
    } else {
        lemma_after_first(m, h, i, (n - 1) as nat);
        let last = tree::level_slots(m, tree::child_slot(m, h, n - 1), 0);
        assert(here + tree::after_child(m, h, 0, i + 1, (n - 1) as nat) + last =~= here + (
        tree::after_child(m, h, 0, i + 1, (n - 1) as nat) + last));
    }
}

/// All children are those after none.
proof fn lemma_after_none(m: BlockMap, h: HeldView, n: nat)
    requires
        h.node.level > 0,
    ensures
        tree::after_child(m, h, 0, -1, n) == tree::child_slots(m, h, 0, n),
    decreases n,
{
    if n > 0 {
        lemma_after_none(m, h, (n - 1) as nat);
    }
}

/// The places under the first children, forward.
proof fn lemma_walked_forward(m: BlockMap, h: HeldView, r: RangeView, n: nat)
    requires
        tree::steady(h),
        h.node.level > 0,
        !r.reverse,
        0 < n <= h.node.rows.len(),
    ensures
        ({
            let all = tree::child_slots(m, h, 0, n);
            walked(m, h, r, n) == reached(all, store::child_bound(h, n - 1), r, all.len())
        }),
    decreases n,
{
    let i = n - 1;
    let s = tree::child_slot(m, h, i);
    let here = tree::level_slots(m, s, 0);
    let bound = store::child_bound(h, i);
    tree::lemma_child_sound(m, h, i);
    tree::lemma_child_under(h, i);
    tree::lemma_level_slots(m, s, bound, 0);
    let front = tree::child_slots(m, h, 0, i as nat);
    assert(tree::child_slots(m, h, 0, n) == front + here);
    if i > 0 {
        lemma_walked_forward(m, h, r, i as nat);
        assert(here[0].key == h.node.rows[i].key);
        lemma_reached_join(front, here, bound, r, here.len());
    } else {
        assert(front =~= Seq::<Slot>::empty());
        assert(front + here =~= here);
        assert(walked(m, h, r, 0) + under(m, h, r, 0) =~= under(m, h, r, 0));
    }
}

/// The places under the last children, in reverse.
proof fn lemma_walked_back(m: BlockMap, h: HeldView, r: RangeView, n: nat)
    requires
        tree::steady(h),
        h.node.level > 0,
        r.reverse,
        0 < n <= h.node.rows.len(),
    ensures
        ({
            let len = h.node.rows.len();
            let all = tree::after_child(m, h, 0, len - n - 1, len);
            walked(m, h, r, n) == reached(all, h.upper, r, all.len()).reverse()
        }),
    decreases n,
{
    let len = h.node.rows.len();
    let i = len - n;
    let s = tree::child_slot(m, h, i);
    let here = tree::level_slots(m, s, 0);
    let bound = store::child_bound(h, i);
    lemma_after_first(m, h, i - 1, len);
    let rest = tree::after_child(m, h, 0, i, len);
    let all = tree::after_child(m, h, 0, i - 1, len);
    if n > 1 {
        lemma_walked_back(m, h, r, (n - 1) as nat);
        tree::lemma_after_child(m, h, 0, i, len);
        assert(rest[0].key == h.node.rows[i + 1].key);
        lemma_reached_join(here, rest, h.upper, r, rest.len());
        lemma_reverse_join(
            reached(here, bound, r, here.len()),
            reached(rest, h.upper, r, rest.len()),
        );
    } else {
        assert(rest =~= Seq::<Slot>::empty());
        assert(here + rest =~= here);
        assert(walked(m, h, r, 0) + under(m, h, r, i) =~= under(m, h, r, i));
    }
}

/// All of them.
proof fn lemma_walked(m: BlockMap, h: HeldView, r: RangeView)
    requires
        tree::steady(h),
        h.node.level > 0,
    ensures
        ({
            let len = h.node.rows.len();
            let all = tree::child_slots(m, h, 0, len);
            walked(m, h, r, len) == in_order(reached(all, h.upper, r, all.len()), r.reverse)
        }),
{
    let len = h.node.rows.len();
    assert(len > 0) by {
        reveal(tree::steady);
    }
    if r.reverse {
        lemma_walked_back(m, h, r, len);
        lemma_after_none(m, h, len);
    } else {
        lemma_walked_forward(m, h, r, len);
    }
}

/// A frontier takes the places of the tree that its scan comes to, in order.
proof fn lemma_frontier(m: BlockMap, root: Seq<u8>, r: RangeView, o: Options)
    requires
        range::spec_frontier(m, root, r, o) is Ok,
        store::loaded(m, root)->Ok_0.level > 0,
    ensures
        range::spec_frontier(m, root, r, o)->Ok_0 == all_taken(
            m,
            r,
            o,
            Front { out: Seq::empty(), entries: 0, bytes: 0, covered: false },
            places(m, root, r),
        ).out,
{
    let n = store::loaded(m, root)->Ok_0;
    let h = HeldView { node: n, upper: None };
    let f = Front { out: Seq::empty(), entries: 0, bytes: 0, covered: false };
    tree::lemma_loaded(m, root);
    assert(tree::steady(h)) by {
        reveal(tree::steady);
    }
    lemma_front_children(m, h, r, o, f, n.rows.len());
    lemma_walked(m, h, r);
}

// ---------------------------------------------------------------------------
// what is named
// ---------------------------------------------------------------------------

/// The ids of some places.
pub open spec fn ids_of(w: Seq<Slot>) -> Seq<Seq<u8>> {
    w.map_values(|s: Slot| s.cid)
}

/// Those of the first `n` places whose blocks are not held, each block once.
pub open spec fn missing_once(m: BlockMap, w: Seq<Slot>, n: nat) -> Seq<Slot>
    decreases n,
{
    if n == 0 {
        Seq::empty()
    } else {
        let front = missing_once(m, w, (n - 1) as nat);
        let s = w[n - 1];
        if !m.contains_key(s.cid) && !ids_of(front).contains(s.cid) {
            front.push(s)
        } else {
            front
        }
    }
}

/// The first `n` places, from the first on whose block is not held.
pub open spec fn from_first(m: BlockMap, w: Seq<Slot>, n: nat) -> Seq<Slot>
    decreases n,
{
    if n == 0 {
        Seq::empty()
    } else {
        let front = from_first(m, w, (n - 1) as nat);
        if front.len() > 0 || !m.contains_key(w[n - 1].cid) {
            front.push(w[n - 1])
        } else {
            front
        }
    }
}

/// How many entries the branches record for some places.
pub open spec fn entries_of(w: Seq<Slot>) -> int
    decreases w.len(),
{
    if w.len() == 0 {
        0
    } else {
        entries_of(w.drop_last()) + w.last().agg.count
    }
}

/// How many bytes a page can take from a place: what is recorded for it, and of a leaf no
/// more than a leaf can hold, where that is asked for.
pub open spec fn size_of(m: BlockMap, s: Slot, o: Options) -> int {
    if (s.level == 0 || m.contains_key(s.cid)) && o.cap_leaf_bytes && s.agg.bytes > 12288 {
        12288
    } else {
        s.agg.bytes as int
    }
}

/// How many bytes a page can take from some places.
pub open spec fn bytes_of(m: BlockMap, w: Seq<Slot>, o: Options) -> int
    decreases w.len(),
{
    if w.len() == 0 {
        0
    } else {
        bytes_of(m, w.drop_last(), o) + size_of(m, w.last(), o)
    }
}

/// What is known after the first `n` places, of which `k` were looked at.
spec fn so_far(
    m: BlockMap,
    r: RangeView,
    o: Options,
    w: Seq<Slot>,
    n: nat,
    k: nat,
    g: Front,
) -> bool {
    let named = missing_once(m, w, k);
    let seen = from_first(m, w, k);
    &&& k <= n
    &&& g.out == ids_of(named)
    &&& g.out.len() <= 64
    &&& !g.covered ==> k == n && g.out.len() < 64 && (g.out.len() > 0 && o.agg_bound ==> g.entries
        < r.max_entries && g.bytes < r.max_bytes)
    &&& g.out.len() == 0 ==> g.entries == 0 && g.bytes == 0 && !g.covered && seen.len() == 0
    &&& g.out.len() > 0 ==> seen.len() > 0
    &&& 0 <= g.entries <= entries_of(seen)
    &&& 0 <= g.bytes <= bytes_of(m, seen, o)
    &&& entries_of(named) <= g.entries || g.entries == u64::MAX
    &&& bytes_of(m, named, o) <= g.bytes || g.bytes == u64::MAX
    &&& g.covered ==> g.out.len() == 64 || o.agg_bound && (g.entries >= r.max_entries || g.bytes
        >= r.max_bytes)
    &&& o.agg_bound && named.len() > 1 ==> entries_of(named.drop_last()) < r.max_entries
        && bytes_of(m, named.drop_last(), o) < r.max_bytes
}

/// Sums are not negative.
proof fn lemma_sums(m: BlockMap, w: Seq<Slot>, o: Options)
    ensures
        0 <= entries_of(w),
        0 <= bytes_of(m, w, o),
    decreases w.len(),
{
    if w.len() > 0 {
        lemma_sums(m, w.drop_last(), o);
    }
}

/// One place more.
#[verifier::rlimit(60)]
#[verifier::spinoff_prover]
proof fn lemma_so_far(
    m: BlockMap,
    r: RangeView,
    o: Options,
    w: Seq<Slot>,
    n: nat,
    k: nat,
    g: Front,
) -> (j: nat)
    requires
        n < w.len(),
        so_far(m, r, o, w, n, k, g),
    ensures
        so_far(m, r, o, w, n + 1, j, taken(m, r, o, g, w[n as int])),
{
    let s = w[n as int];
    let named = missing_once(m, w, k);
    let seen = from_first(m, w, k);
    if g.covered {
        k
    } else {
        let j = (n + 1) as nat;
        assert((j - 1) as nat == n);
        let more = missing_once(m, w, j);
        let after = from_first(m, w, j);
        let h = taken(m, r, o, g, s);
        assert(ids_of(named).len() == named.len());
        if after != seen {
            assert(after == seen.push(s));
            assert(after.drop_last() =~= seen);
        }
        if !m.contains_key(s.cid) {
            if !g.out.contains(s.cid) {
                assert(more == named.push(s));
                assert(more.drop_last() =~= named);
                assert(ids_of(more) =~= ids_of(named).push(s.cid));
            }
        }
        assert(size_of(m, s, o) >= 0);
        assert(0 <= entries_of(named) && 0 <= bytes_of(m, named, o)) by {
            lemma_sums(m, named, o);
        }
        assert(h.out == ids_of(more));
        assert(h.out.len() <= 64);
        assert(0 <= h.entries <= entries_of(after));
        assert(0 <= h.bytes <= bytes_of(m, after, o));
        assert(entries_of(more) <= h.entries || h.entries == u64::MAX);
        assert(bytes_of(m, more, o) <= h.bytes || h.bytes == u64::MAX);
        assert(h.out.len() == 0 ==> after.len() == 0);
        assert(!h.covered ==> h.out.len() < 64);
        assert(h.covered ==> h.out.len() == 64 || o.agg_bound && (h.entries >= r.max_entries
            || h.bytes >= r.max_bytes));
        assert(o.agg_bound && more.len() > 1 ==> entries_of(more.drop_last()) < r.max_entries
            && bytes_of(m, more.drop_last(), o) < r.max_bytes);
        j
    }
}

/// All of them.
proof fn lemma_all_so_far(m: BlockMap, r: RangeView, o: Options, w: Seq<Slot>, n: nat) -> (k: nat)
    requires
        n <= w.len(),
    ensures
        so_far(
            m,
            r,
            o,
            w,
            n,
            k,
            all_taken(
                m,
                r,
                o,
                Front { out: Seq::empty(), entries: 0, bytes: 0, covered: false },
                w.take(n as int),
            ),
        ),
    decreases n,
{
    let f = Front { out: Seq::empty(), entries: 0, bytes: 0, covered: false };
    if n == 0 {
        assert(ids_of(missing_once(m, w, 0)) =~= Seq::<Seq<u8>>::empty());
        0
    } else {
        let i = (n - 1) as nat;
        let k = lemma_all_so_far(m, r, o, w, i);
        let g = all_taken(m, r, o, f, w.take(i as int));
        assert(w.take(n as int).drop_last() =~= w.take(i as int));
        assert(w.take(n as int).last() == w[i as int]);
        lemma_so_far(m, r, o, w, i, k, g)
    }
}

/// The places that are missing begin with the first.
proof fn lemma_first_missing(m: BlockMap, w: Seq<Slot>, j: int, k: nat)
    requires
        0 <= j < k <= w.len(),
        !m.contains_key(w[j].cid),
        forall|i: int| 0 <= i < j ==> m.contains_key((#[trigger] w[i]).cid),
    ensures
        missing_once(m, w, k).len() > 0,
        missing_once(m, w, k)[0] == w[j],
    decreases k,
{
    if k == j + 1 {
        lemma_none_missing(m, w, j as nat);
        assert(ids_of(missing_once(m, w, j as nat)) =~= Seq::<Seq<u8>>::empty());
    } else {
        lemma_first_missing(m, w, j, (k - 1) as nat);
    }
}

/// Where all are held, none is missing.
proof fn lemma_none_missing(m: BlockMap, w: Seq<Slot>, k: nat)
    requires
        k <= w.len(),
        forall|i: int| 0 <= i < k ==> m.contains_key((#[trigger] w[i]).cid),
    ensures
        missing_once(m, w, k).len() == 0,
        from_first(m, w, k).len() == 0,
    decreases k,
{
    if k > 0 {
        lemma_none_missing(m, w, (k - 1) as nat);
        assert(m.contains_key(w[k - 1].cid));
    }
}

/// The ids that are named are those of missing places, each once.
proof fn lemma_named_once(m: BlockMap, w: Seq<Slot>, k: nat)
    requires
        k <= w.len(),
    ensures
        ids_of(missing_once(m, w, k)).no_duplicates(),
        forall|i: int|
            0 <= i < missing_once(m, w, k).len() ==> w.contains(#[trigger] missing_once(m, w, k)[i])
                && !m.contains_key(missing_once(m, w, k)[i].cid),
        forall|i: int|
            0 <= i < k && !m.contains_key((#[trigger] w[i]).cid) ==> ids_of(
                missing_once(m, w, k),
            ).contains(w[i].cid),
    decreases k,
{
    if k > 0 {
        lemma_named_once(m, w, (k - 1) as nat);
        let front = missing_once(m, w, (k - 1) as nat);
        let all = missing_once(m, w, k);
        let s = w[k - 1];
        if all != front {
            assert(all == front.push(s));
            assert(ids_of(all) =~= ids_of(front).push(s.cid));
        }
        assert forall|i: int| 0 <= i < all.len() implies w.contains(#[trigger] all[i])
            && !m.contains_key(all[i].cid) by {
            if i < front.len() {
                assert(all[i] == front[i]);
            }
        }
        assert forall|i: int| 0 <= i < k && !m.contains_key((#[trigger] w[i]).cid) implies ids_of(
            all,
        ).contains(w[i].cid) by {
            if i < k - 1 || all == front {
                assert(ids_of(front).contains(w[i].cid));
                let x = choose|x: int| 0 <= x < ids_of(front).len() && ids_of(front)[x] == w[i].cid;
                assert(ids_of(all)[x] == w[i].cid);
            } else {
                assert(ids_of(all)[front.len() as int] == s.cid);
            }
        }
    }
}

/// A frontier names the blocks that a scan lacks, as it would come to them: of the places
/// that can hold a key of the range, in scan order, the first so many whose blocks are not
/// held, each block once, from the first such place on and without leaving one out.
///
/// It stops short of the end only with good reason: sixty-four blocks are
/// named, or the places from the first missing one on hold as many entries or bytes as the
/// caller asked for. And it goes no further than that: without the last block named, they
/// would not.
pub proof fn law_the_frontier_names_what_the_scan_lacks(
    m: BlockMap,
    root: Seq<u8>,
    r: RangeView,
    o: Options,
)
    requires
        range::spec_frontier(m, root, r, o) is Ok,
    ensures
        ({
            let out = range::spec_frontier(m, root, r, o)->Ok_0;
            let w = places(m, root, r);
            &&& out.no_duplicates()
            &&& forall|i: int| 0 <= i < out.len() ==> !m.contains_key(#[trigger] out[i])
            &&& forall|j: int|
                #![trigger w[j]]
                0 <= j < w.len() && !m.contains_key(w[j].cid) && (forall|i: int|
                    0 <= i < j ==> m.contains_key((#[trigger] w[i]).cid)) ==> out.len() > 0
                    && out[0] == w[j].cid
            &&& exists|k: nat|
                {
                    let named = #[trigger] missing_once(m, w, k);
                    let seen = from_first(m, w, k);
                    &&& k <= w.len()
                    &&& out == ids_of(named)
                    &&& out.len() <= 64
                    &&& k < w.len() ==> out.len() == 64 || o.agg_bound && (entries_of(seen)
                        >= r.max_entries || bytes_of(m, seen, o) >= r.max_bytes)
                    &&& o.agg_bound && named.len() > 1 ==> entries_of(named.drop_last())
                        < r.max_entries && bytes_of(m, named.drop_last(), o) < r.max_bytes
                }
        }),
{
    let w = places(m, root, r);
    let out = range::spec_frontier(m, root, r, o)->Ok_0;
    let n = store::loaded(m, root)->Ok_0;
    let f = Front { out: Seq::empty(), entries: 0, bytes: 0, covered: false };
    let k = if n.level > 0 {
        lemma_frontier(m, root, r, o);
        assert(w.take(w.len() as int) =~= w);
        lemma_all_so_far(m, r, o, w, w.len())
    } else {
        let s = tree::root_slot(m, root);
        assert(tree::leaves(m, root) =~= seq![s]);
        assert(m.contains_key(root)) by {
            reveal(store::loaded);
        }
        assert forall|i: int| 0 <= i < w.len() implies m.contains_key((#[trigger] w[i]).cid) by {
            let all = tree::leaves(m, root);
            reveal_with_fuel(reached, 2);
            assert(reached(all, None, r, 1).len() <= 1);
            if reached(all, None, r, 1).len() == 1 {
                assert(reached(all, None, r, 1)[0] == s);
            }
            assert(w[i] == s);
        }
        lemma_none_missing(m, w, w.len());
        assert(ids_of(missing_once(m, w, w.len())) =~= Seq::<Seq<u8>>::empty());
        w.len()
    };
    let named = missing_once(m, w, k);
    assert(out == ids_of(named));
    lemma_named_once(m, w, k);
    assert forall|i: int| 0 <= i < out.len() implies !m.contains_key(#[trigger] out[i]) by {
        assert(out[i] == named[i].cid);
    }
    assert forall|j: int|
        #![trigger w[j]]
        0 <= j < w.len() && !m.contains_key(w[j].cid) && (forall|i: int|
            0 <= i < j ==> m.contains_key((#[trigger] w[i]).cid)) implies out.len() > 0 && out[0]
        == w[j].cid by {
        if k <= j {
            lemma_none_missing(m, w, k);
            assert(ids_of(named).len() == 0);
        } else {
            lemma_first_missing(m, w, j, k);
        }
    }
}

/// Where all the places in reach are held, nothing is named.
pub proof fn lemma_none_named(m: BlockMap, root: Seq<u8>, r: RangeView, o: Options)
    requires
        range::spec_frontier(m, root, r, o) is Ok,
        forall|i: int|
            0 <= i < places(m, root, r).len() ==> m.contains_key((#[trigger] places(m, root, r)[i]).cid),
    ensures
        range::spec_frontier(m, root, r, o)->Ok_0.len() == 0,
{
    law_the_frontier_names_what_the_scan_lacks(m, root, r, o);
    let w = places(m, root, r);
    let out = range::spec_frontier(m, root, r, o)->Ok_0;
    let k = choose|k: nat| k <= w.len() && out == ids_of(#[trigger] missing_once(m, w, k));
    lemma_none_missing(m, w, k);
}

} // verus!
