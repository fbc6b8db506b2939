//! The same level, seen with fewer blocks and with more.
//!
//! Where a block is missing, a level has one gap in the place of everything under it.
//! With more blocks the gap opens up, and what was there before stays where it was.

use crate::slots;
use crate::store;
use crate::store::{BlockMap, HeldView};
use crate::tree;
use crate::tree::Slot;
use vstd::prelude::*;

verus! {

/// Is a place one that cannot open up into more?
pub open spec fn settled(s: Slot, floor: int) -> bool {
    s.opened is Ok || s.level == floor
}

/// Does `b` have the places of `a`, place `p` of them at `at[p]`, with gaps opened up?
pub open spec fn grows(a: Seq<Slot>, b: Seq<Slot>, at: Seq<int>, floor: int) -> bool {
    &&& at.len() == a.len() + 1
    &&& at[0] == 0
    &&& at[a.len() as int] == b.len()
    &&& forall|p: int|
        0 <= p < a.len() ==> grown_at(a, b, at, floor, #[trigger] at[p], at[p + 1], p)
}

/// Place `p` of `a` is at `i`, and what was there ends at `j`.
pub open spec fn grown_at(
    a: Seq<Slot>,
    b: Seq<Slot>,
    at: Seq<int>,
    floor: int,
    i: int,
    j: int,
    p: int,
) -> bool {
    &&& 0 <= i < j <= b.len()
    &&& b[i].key == a[p].key
    &&& settled(a[p], floor) ==> {
        &&& j == i + 1
        &&& b[i].cid == a[p].cid
        &&& b[i].agg == a[p].agg
        &&& b[i].level == a[p].level
        &&& a[p].opened is Ok ==> b[i] == a[p]
    }
}

/// Two stretches of places.
proof fn lemma_grows_join(
    a: Seq<Slot>,
    b: Seq<Slot>,
    at: Seq<int>,
    c: Seq<Slot>,
    d: Seq<Slot>,
    on: Seq<int>,
    floor: int,
) -> (all: Seq<int>)
    requires
        grows(a, b, at, floor),
        grows(c, d, on, floor),
    ensures
        grows(a + c, b + d, all, floor),
{
    let n = a.len() as int;
    let k = b.len() as int;
    let all = at.drop_last() + Seq::new(on.len(), |i: int| on[i] + k);
    assert(all[n] == k);
    assert forall|p: int| 0 <= p < (a + c).len() implies grown_at(
        a + c,
        b + d,
        all,
        floor,
        #[trigger] all[p],
        all[p + 1],
        p,
    ) by {
        if p < n {
            assert(all[p] == at[p]);
            assert(all[p + 1] == at[p + 1]);
            assert(grown_at(a, b, at, floor, at[p], at[p + 1], p));
        } else {
            assert(all[p] == on[p - n] + k);
            assert(all[p + 1] == on[p - n + 1] + k);
            assert(grown_at(c, d, on, floor, on[p - n], on[p - n + 1], p - n));
        }
    }
    if n == 0 {
        assert(all[0] == on[0] + k);
    } else {
        assert(all[0] == at[0]);
    }
    assert(all[(a + c).len() as int] == on[c.len() as int] + k);
    all
}

/// The places under a place, with more blocks.
proof fn lemma_expand_slot(
    m: BlockMap,
    w: BlockMap,
    s: Slot,
    t: Slot,
    upper: Option<Seq<u8>>,
    floor: int,
) -> (at: Seq<int>)
    requires
        m.submap_of(w),
        floor >= 0,
        tree::sound(s, upper),
        tree::sound(t, upper),
        tree::under(t.key, upper),
        s.key == t.key,
        s.cid == t.cid,
        s.agg == t.agg,
        s.level == t.level,
        s.opened is Ok ==> t == s,
    ensures
        grows(tree::level_slots(m, s, floor), tree::level_slots(w, t, floor), at, floor),
    decreases tree::height_of(s), 1nat, 0nat,
{
    let b = tree::level_slots(w, t, floor);
    tree::lemma_level_slots(w, t, upper, floor);
    match s.opened {
        Err(_) => {
            let at = seq![0int, b.len() as int];
            let a = seq![s];
            if s.level == floor {
                assert(b == seq![t]) by {
                    reveal(tree::sound);
                }
            }
            assert(grown_at(a, b, at, floor, at[0], at[1], 0));
            assert(tree::level_slots(m, s, floor) == a);
            at
        },
        Ok(h) => {
            if h.node.level <= floor {
                let at = seq![0int, 1];
                let a = seq![s];
                assert(b == seq![t]);
                assert(grown_at(a, b, at, floor, at[0], at[1], 0));
                at
            } else {
                assert(tree::steady(h)) by {
                    reveal(tree::sound);
                    reveal(tree::steady);
                }
                lemma_expand_children(m, w, h, floor, h.node.rows.len())
            }
        },
    }
}

/// The places under the first children, with more blocks.
proof fn lemma_expand_children(m: BlockMap, w: BlockMap, h: HeldView, floor: int, n: nat) -> (at: Seq<
    int,
>)
    requires
        m.submap_of(w),
        floor >= 0,
        tree::steady(h),
        h.node.level > floor,
        n <= h.node.rows.len(),
    ensures
        grows(
            tree::child_slots(m, h, floor, n),
            tree::child_slots(w, h, floor, n),
            at,
            floor,
        ),
    decreases h.node.level as nat, 0nat, n,
{
    if n == 0 {
        seq![0int]
    } else {
        let i = n - 1;
        let before = lemma_expand_children(m, w, h, floor, i as nat);
        let s = tree::child_slot(m, h, i);
        let t = tree::child_slot(w, h, i);
        let bound = store::child_bound(h, i);
        tree::lemma_child_sound(m, h, i);
        tree::lemma_child_sound(w, h, i);
        tree::lemma_child_under(h, i);
        if s.opened is Ok {
            slots::lemma_opened_held(m, h, i);
            slots::lemma_opened_grows(m, w, h, i);
        }
        let here = lemma_expand_slot(m, w, s, t, bound, floor);
        lemma_grows_join(
            tree::child_slots(m, h, floor, i as nat),
            tree::child_slots(w, h, floor, i as nat),
            before,
            tree::level_slots(m, s, floor),
            tree::level_slots(w, t, floor),
            here,
            floor,
        )
    }
}

/// A level of a tree whose root is held, with more blocks.
pub proof fn lemma_expand(m: BlockMap, w: BlockMap, root: Seq<u8>, floor: int) -> (at: Seq<int>)
    requires
        m.submap_of(w),
        floor >= 0,
        store::loaded(m, root) is Ok,
    ensures
        store::loaded(w, root) == store::loaded(m, root),
        grows(
            tree::level_slots(m, tree::root_slot(m, root), floor),
            tree::level_slots(w, tree::root_slot(w, root), floor),
            at,
            floor,
        ),
{
    assert(store::loaded(w, root) == store::loaded(m, root)) by {
        reveal(store::loaded);
        assert(m.dom().contains(root));
        assert(w.dom().contains(root));
    }
    let n = store::loaded(m, root)->Ok_0;
    tree::lemma_loaded(m, root);
    let s = tree::root_slot(m, root);
    if n.rows.len() > 0 {
        assert(tree::sound(s, None)) by {
            reveal(tree::sound);
        }
        lemma_expand_slot(m, w, s, s, None, floor)
    } else {
        let at = seq![0int, 1];
        let a = seq![s];
        assert(grown_at(a, a, at, floor, at[0], at[1], 0));
        at
    }
}

/// Settled places that follow on one another still do.
pub proof fn lemma_grown_run(
    a: Seq<Slot>,
    b: Seq<Slot>,
    at: Seq<int>,
    floor: int,
    i: int,
    j: int,
)
    requires
        grows(a, b, at, floor),
        0 <= i <= j <= a.len(),
        forall|p: int| i <= p < j ==> settled(#[trigger] a[p], floor),
    ensures
        at[j] == at[i] + (j - i),
    decreases j - i,
{
    if i < j {
        lemma_grown_run(a, b, at, floor, i, j - 1);
        assert(settled(a[j - 1], floor));
        assert(grown_at(a, b, at, floor, at[j - 1], at[j - 1 + 1], j - 1));
    }
}

/// Places keep their order.
pub proof fn lemma_grown_order(
    a: Seq<Slot>,
    b: Seq<Slot>,
    at: Seq<int>,
    floor: int,
    i: int,
    j: int,
)
    requires
        grows(a, b, at, floor),
        0 <= i <= j <= a.len(),
    ensures
        at[i] <= at[j],
        i < j ==> at[i] < at[j],
        0 <= at[i],
        at[j] <= b.len(),
    decreases j - i,
{
    if i < j {
        lemma_grown_order(a, b, at, floor, i, j - 1);
        assert(grown_at(a, b, at, floor, at[j - 1], at[j - 1 + 1], j - 1));
    } else if i < a.len() {
        assert(grown_at(a, b, at, floor, at[i], at[i + 1], i));
    }
}

} // verus!
