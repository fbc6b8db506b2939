//! Where a cursor goes, and which children a range touches.

use crate::cursor;
use crate::cursor::{Pick, Spot};
use crate::node::Payload;
use crate::order;
use crate::range;
use crate::range::{End, RangeView};
use crate::store;
use crate::store::{Fault, HeldView};
use crate::tree;
use crate::tree::{Item, Slot};
use vstd::prelude::*;

verus! {

/// Is there an entry at every place of a list?
pub open spec fn unbroken(its: Seq<Item>) -> bool {
    forall|i: int| 0 <= i < its.len() ==> (#[trigger] its[i]).what is Ok
}

/// Is this what is wrong with a gap of the list?
pub open spec fn from_a_gap(its: Seq<Item>, f: Fault) -> bool {
    exists|i: int| 0 <= i < its.len() && (#[trigger] its[i]).what == Err::<Payload, Fault>(f)
}

/// Where a list is parted by a key.
proof fn lemma_below(its: Seq<Item>, key: Seq<u8>, n: nat)
    requires
        n <= its.len(),
        tree::ascending(its),
    ensures
        cursor::below(its, key, n) <= n,
        forall|i: int| 0 <= i < cursor::below(its, key, n) ==> order::lt((#[trigger] its[i]).key, key),
        forall|i: int|
            cursor::below(its, key, n) <= i < n ==> !order::lt((#[trigger] its[i]).key, key),
    decreases n,
{
    if n > 0 {
        if order::lt(its[n - 1].key, key) {
            assert forall|i: int| 0 <= i < n implies order::lt((#[trigger] its[i]).key, key) by {
                if i < n - 1 {
                    order::lemma_lt_trans(its[i].key, its[n - 1].key, key);
                }
            }
        } else {
            lemma_below(its, key, (n - 1) as nat);
        }
    }
}

/// Where a list is parted by a key, which itself goes to the front.
proof fn lemma_ranked(its: Seq<Item>, key: Seq<u8>)
    requires
        tree::ascending(its),
    ensures
        ({
            let p = tree::rank(its, key, its.len());
            &&& p <= its.len()
            &&& forall|i: int| 0 <= i < p ==> order::le((#[trigger] its[i]).key, key)
            &&& forall|i: int| p <= i < its.len() ==> order::lt(key, (#[trigger] its[i]).key)
        }),
{
    tree::lemma_rank(its, key, its.len());
    let p = tree::rank(its, key, its.len());
    assert forall|i: int| 0 <= i < p implies order::le((#[trigger] its[i]).key, key) by {
        if i < p - 1 {
            assert(order::lt(its[i].key, its[p - 1].key));
            order::lemma_le_trans(its[i].key, its[p - 1].key, key);
        }
    }
}

/// A seek lands on the first entry at or after its key, and past the end where there is
/// none. It fails only on a gap.
pub proof fn law_a_seek_lands_on_the_first_at_or_after(its: Seq<Item>, key: Seq<u8>)
    requires
        tree::ascending(its),
    ensures
        match cursor::seek_spot(its, key) {
            Ok(Spot::At(q)) => {
                &&& 0 <= q < its.len()
                &&& its[q].what is Ok
                &&& !order::lt(its[q].key, key)
                &&& forall|i: int| 0 <= i < q ==> order::lt((#[trigger] its[i]).key, key)
            },
            Ok(Spot::AfterEnd) => forall|i: int|
                0 <= i < its.len() ==> order::lt((#[trigger] its[i]).key, key),
            Ok(Spot::BeforeStart) => false,
            Err(f) => from_a_gap(its, f),
        },
{
    lemma_below(its, key, its.len());
    tree::lemma_rank(its, key, its.len());
}

/// A seek back lands on the last entry before its key, or at it where that is included,
/// and before the start where there is none. It fails only on a gap.
pub proof fn law_a_seek_back_lands_on_the_last_before(
    its: Seq<Item>,
    key: Seq<u8>,
    included: bool,
)
    requires
        tree::ascending(its),
    ensures
        match cursor::back_spot(its, key, included) {
            Ok(Spot::At(q)) => {
                &&& 0 <= q < its.len()
                &&& its[q].what is Ok
                &&& order::lt(its[q].key, key) || (included && its[q].key == key)
                &&& forall|i: int|
                    q < i < its.len() ==> !order::lt((#[trigger] its[i]).key, key) && (included
                        ==> its[i].key != key)
            },
            Ok(Spot::BeforeStart) => forall|i: int|
                0 <= i < its.len() ==> !order::lt((#[trigger] its[i]).key, key) && (included
                    ==> its[i].key != key),
            Ok(Spot::AfterEnd) => false,
            Err(f) => from_a_gap(its, f),
        },
{
    lemma_below(its, key, its.len());
    lemma_ranked(its, key);
    order::lemma_lt_irreflexive(key);
    assert forall|k: Seq<u8>| order::lt(key, k) implies !order::lt(k, key) && k != key by {
        if order::lt(k, key) {
            order::lemma_lt_trans(key, k, key);
        }
    }
}

/// A seek before a key lands on the last entry before it, and before the start where there
/// is none. It fails only on a gap.
pub proof fn law_a_seek_before_lands_on_the_last_before(its: Seq<Item>, key: Seq<u8>)
    requires
        tree::ascending(its),
    ensures
        match cursor::before_spot(its, key) {
            Ok(Spot::At(q)) => {
                &&& 0 <= q < its.len()
                &&& its[q].what is Ok
                &&& order::lt(its[q].key, key)
                &&& forall|i: int| q < i < its.len() ==> !order::lt((#[trigger] its[i]).key, key)
            },
            Ok(Spot::BeforeStart) => forall|i: int|
                0 <= i < its.len() ==> !order::lt((#[trigger] its[i]).key, key),
            Ok(Spot::AfterEnd) => false,
            Err(f) => from_a_gap(its, f),
        },
{
    lemma_below(its, key, its.len());
    tree::lemma_rank(its, key, its.len());
}

/// In a tree that is all there no seek fails and no step does.
pub proof fn law_a_cursor_moves_freely_where_all_is_there(
    its: Seq<Item>,
    key: Seq<u8>,
    included: bool,
    s: Spot,
)
    requires
        tree::ascending(its),
        unbroken(its),
        s matches Spot::At(q) ==> 0 <= q < its.len(),
    ensures
        cursor::seek_spot(its, key) is Ok,
        cursor::back_spot(its, key, included) is Ok,
        cursor::before_spot(its, key) is Ok,
        cursor::next_spot(its, s) is Ok,
        cursor::prev_spot(its, s) is Ok,
        cursor::lands(its, its.len() - 1, Spot::BeforeStart) == Ok::<Spot, Fault>(
            if its.len() > 0 {
                Spot::At(its.len() - 1)
            } else {
                Spot::BeforeStart
            },
        ),
{
    lemma_below(its, key, its.len());
    tree::lemma_rank(its, key, its.len());
}

/// A step to the right goes to the next entry, and past the end after the last: nothing
/// lies between. A step back undoes it. Past the end it stays.
pub proof fn law_a_step_goes_to_the_next_and_back(its: Seq<Item>, s: Spot, t: Spot)
    requires
        tree::ascending(its),
        s matches Spot::At(q) ==> 0 <= q < its.len() && its[q].what is Ok,
        cursor::next_spot(its, s) == Ok::<Spot, Fault>(t),
    ensures
        s is AfterEnd ==> t is AfterEnd,
        !(s is AfterEnd) ==> cursor::prev_spot(its, t) == Ok::<Spot, Fault>(s),
        t matches Spot::At(q) ==> 0 <= q < its.len() && its[q].what is Ok && forall|i: int|
            0 <= i < its.len() ==> (order::lt((#[trigger] its[i]).key, its[q].key) <==> (
            s matches Spot::At(p) && i <= p)),
        t is AfterEnd && s is At ==> s->At_0 + 1 == its.len(),
        t is AfterEnd && s is BeforeStart ==> its.len() == 0,
        !(t is BeforeStart),
{
    if let Spot::At(q) = t {
        assert forall|i: int| 0 <= i < its.len() implies (order::lt(
            (#[trigger] its[i]).key,
            its[q].key,
        ) <==> (s matches Spot::At(p) && i <= p)) by {
            order::lemma_lt_irreflexive(its[q].key);
            if i < q {
                assert(order::lt(its[i].key, its[q].key));
            } else if i > q {
                assert(order::lt(its[q].key, its[i].key));
                if order::lt(its[i].key, its[q].key) {
                    order::lemma_lt_trans(its[q].key, its[i].key, its[q].key);
                }
            }
        }
    }
}

/// A step to the left goes to the entry before, and before the start ahead of the first. A
/// step on undoes it. Before the start it stays.
pub proof fn law_a_step_goes_back_and_on(its: Seq<Item>, s: Spot, t: Spot)
    requires
        s matches Spot::At(q) ==> 0 <= q < its.len() && its[q].what is Ok,
        cursor::prev_spot(its, s) == Ok::<Spot, Fault>(t),
    ensures
        s is BeforeStart ==> t is BeforeStart,
        !(s is BeforeStart) ==> cursor::next_spot(its, t) == Ok::<Spot, Fault>(s),
        t matches Spot::At(q) ==> 0 <= q < its.len() && its[q].what is Ok,
        !(t is AfterEnd),
{
}

/// A level cursor goes to the first place, to the last, to the last that begins at or
/// before a key, or to the last that begins before it; to the first where none does.
pub proof fn law_a_level_cursor_goes_where_it_is_sent(slots: Seq<Slot>, key: &[u8])
    requires
        slots.len() > 0,
        forall|i: int, j: int|
            0 <= i < j < slots.len() ==> order::lt((#[trigger] slots[i]).key, (#[trigger] slots[j]).key),
    ensures
        cursor::target(slots, Pick::First) == 0,
        cursor::target(slots, Pick::Last) == slots.len() - 1,
        ({
            let p = cursor::target(slots, Pick::Key(key));
            &&& 0 <= p < slots.len()
            &&& p > 0 ==> !order::lt(key@, slots[p].key)
            &&& forall|i: int| p < i < slots.len() ==> order::lt(key@, (#[trigger] slots[i]).key)
        }),
        ({
            let p = cursor::target(slots, Pick::Below(key));
            &&& 0 <= p < slots.len()
            &&& p > 0 ==> order::lt(slots[p].key, key@)
            &&& forall|i: int| p < i < slots.len() ==> !order::lt((#[trigger] slots[i]).key, key@)
        }),
{
    cursor::lemma_taken(slots, Pick::First, slots.len());
    cursor::lemma_taken(slots, Pick::Last, slots.len());
    cursor::lemma_taken(slots, Pick::Key(key), slots.len());
    cursor::lemma_taken(slots, Pick::Below(key), slots.len());
    let n = cursor::taken_of(slots, Pick::Last, slots.len());
    if n < slots.len() {
        assert(!Pick::Last.takes(slots[slots.len() - 1].key));
    }
    let p = cursor::target(slots, Pick::Key(key));
    if p > 0 && order::lt(key@, slots[p].key) {
        order::lemma_lt_irreflexive(key@);
        if slots[p].key != key@ {
            order::lemma_lt_trans(key@, slots[p].key, key@);
        }
    }
    assert forall|i: int| p < i < slots.len() implies order::lt(key@, (#[trigger] slots[i]).key) by {
        assert(!Pick::Key(key).takes(slots[i].key));
        order::lemma_lt_total(key@, slots[i].key);
    }
    let q = cursor::target(slots, Pick::Below(key));
    assert forall|i: int| q < i < slots.len() implies !order::lt((#[trigger] slots[i]).key, key@) by {
        assert(!Pick::Below(key).takes(slots[i].key));
    }
}

/// Can child `i` of a node hold this key: is it at or after the child's first key, and
/// before what follows the child?
pub open spec fn can_hold(h: HeldView, i: int, key: Seq<u8>) -> bool {
    &&& order::le(h.node.rows[i].key, key)
    &&& store::child_bound(h, i) matches Some(u) ==> order::lt(key, u)
}

/// A child that a range passes by holds no key of it, and a child that lies inside holds
/// no other.
pub proof fn law_a_child_is_told_from_its_range(h: HeldView, i: int, r: RangeView, key: Seq<u8>)
    requires
        0 <= i < h.node.rows.len(),
        can_hold(h, i, key),
    ensures
        range::within(key, r) ==> range::intersects(h, i, r),
        range::inside(h, i, r) ==> range::within(key, r),
{
    let low = h.node.rows[i].key;
    match r.hi {
        End::Open => {},
        End::At(e) => {
            if order::le(key, e) {
                order::lemma_le_trans(low, key, e);
            }
            if let Some(u) = store::child_bound(h, i) {
                if order::le(u, e) {
                    order::lemma_le_trans(key, u, e);
                }
            }
        },
        End::Past(e) => {
            if order::lt(key, e) && low != key {
                order::lemma_lt_trans(low, key, e);
            }
            if let Some(u) = store::child_bound(h, i) {
                if order::le(u, e) && u != e {
                    order::lemma_lt_trans(key, u, e);
                }
            }
        },
    }
    match r.lo {
        End::Open => {},
        End::At(e) => {
            if order::le(e, low) {
                order::lemma_le_trans(e, low, key);
            }
            lemma_not_past(h, i, e, key);
        },
        End::Past(e) => {
            if order::lt(e, low) && low != key {
                order::lemma_lt_trans(e, low, key);
            }
            lemma_not_past(h, i, e, key);
        },
    }
}

/// A key before a child's end is not at or past what the end comes before.
proof fn lemma_not_past(h: HeldView, i: int, e: Seq<u8>, key: Seq<u8>)
    requires
        0 <= i < h.node.rows.len(),
        can_hold(h, i, key),
    ensures
        i + 1 < h.node.rows.len() && order::le(h.node.rows[i + 1].key, e) ==> order::lt(key, e)
            && !order::le(e, key),
{
    if i + 1 < h.node.rows.len() && order::le(h.node.rows[i + 1].key, e) {
        let u = h.node.rows[i + 1].key;
        if u != e {
            order::lemma_lt_trans(key, u, e);
        }
        order::lemma_lt_irreflexive(key);
        if order::lt(e, key) {
            order::lemma_lt_trans(key, e, key);
        }
    }
}

/// A child that begins in the range and ends at or before the key of its high end, or
/// where there is no high end, lies inside. A child is passed by only where it begins past
/// the high end, or the next begins at or before the key of the low end.
pub proof fn law_a_child_within_the_ends_is_inside(h: HeldView, i: int, r: RangeView)
    requires
        0 <= i < h.node.rows.len(),
    ensures
        range::above(h.node.rows[i].key, r.lo) && (r.hi is Open || (store::child_bound(h, i) matches Some(
            u,
        ) && match r.hi {
            End::Open => true,
            End::At(e) => order::le(u, e),
            End::Past(e) => order::le(u, e),
        })) ==> range::inside(h, i, r),
        !range::intersects(h, i, r) ==> !range::under(h.node.rows[i].key, r.hi) || (i + 1
            < h.node.rows.len() && match r.lo {
            End::Open => false,
            End::At(e) => order::le(h.node.rows[i + 1].key, e),
            End::Past(e) => order::le(h.node.rows[i + 1].key, e),
        }),
{
}

} // verus!
