//! What changed between two trees, without reading the parts that did not.
//!
//! # The one shortcut
//!
//! A node's id is the hash of its bytes, so equal id means equal subtree. When both
//! sides stand on a child slot that begins at the same key and carries the same id,
//! everything under it is identical and is skipped whole, in both trees, at whatever
//! level it is found. It fires on the id and on nothing else: equal aggregates, equal
//! first keys and equal lengths are all things two different subtrees can have.
//!
//! # Compare before descending
//!
//! A child's id and first key live in its parent, so the comparison costs nothing:
//! a [`SlotCursor`] stands on a slot and loads the child only when the ids disagree.
//! Equal roots read nothing at all.
//!
//! # Paging
//!
//! A page is the contiguous run of differences the limits allow, and [`Resume`] says
//! where to carry on, with both roots, because a diff whose roots moved underneath it
//! cannot give a coherent answer. A page that stops on a missing block is a prefix:
//! every change up to `next` is final, and nothing past the first key that could not
//! be established is in it. A diff is finished when a page has neither a `next` nor a
//! `need`.
//!
//! # What is believed, and what is not
//!
//! Values are compared by id and length for a referenced value and by bytes for an
//! inline one, and a referenced value is never fetched to compare it.

use crate::align;
use crate::merge;
use crate::merge::{Merge, Sheet, Turn};
use crate::node;
use crate::node::{Node, NodeView, Payload, Value};
use crate::order;
use crate::range;
use crate::range::{below_hi, has_id, in_range, Bound, End, Range, RangeView, MAX_NEED};
use crate::slots;
use crate::slots::{Place, Slot, SlotCursor, SlotView};
use crate::store;
use crate::store::{BlockMap, Blocks, Fault, ReadError};
use crate::tree;
use crate::tree::Item;
use crate::Cid;
use vstd::prelude::*;

verus! {

/// One difference, in key order.
#[derive(Clone, Debug, PartialEq, Eq)]
pub enum Change<'a> {
    Added { key: Vec<u8>, new: Value<'a> },
    Removed { key: Vec<u8>, old: Value<'a> },
    Changed { key: Vec<u8>, old: Value<'a>, new: Value<'a> },
}

/// One difference, as a mathematical value: what each side holds under the key.
#[verifier::ext_equal]
pub struct Difference {
    pub key: Seq<u8>,
    pub was: Option<Payload>,
    pub is: Option<Payload>,
}

impl<'a> View for Change<'a> {
    type V = Difference;

    open spec fn view(&self) -> Difference {
        match *self {
            Change::Added { key, new } => Difference { key: key@, was: None, is: Some(new@) },
            Change::Removed { key, old } => Difference { key: key@, was: Some(old@), is: None },
            Change::Changed { key, old, new } => Difference {
                key: key@,
                was: Some(old@),
                is: Some(new@),
            },
        }
    }
}

impl<'a> Change<'a> {
    /// The key that differs.
    pub fn key(&self) -> (r: &[u8])
        ensures
            r@ == self@.key,
    {
        match self {
            Change::Added { key, .. } => key.as_slice(),
            Change::Removed { key, .. } => key.as_slice(),
            Change::Changed { key, .. } => key.as_slice(),
        }
    }
}

/// Where to carry on, and between which two trees.
///
/// Both roots travel with the key. Unlike a range scan, a diff cannot survive its
/// roots changing underneath it: pages up to here would describe one pair of trees
/// and pages after it another. So a resume against different roots is refused.
#[derive(Clone, Debug, PartialEq, Eq)]
pub struct Resume {
    pub a: Cid,
    pub b: Cid,
    /// Carry on strictly after this key.
    pub after: Vec<u8>,
}

/// A page of differences.
#[derive(Clone, Debug, PartialEq, Eq)]
pub struct DiffPage<'a> {
    pub changes: Vec<Change<'a>>,
    /// `None` when the diff is complete for the range, unless `need` names a block
    /// and nothing could be decided yet.
    pub next: Option<Resume>,
    /// Blocks of either tree that are missing, in scan order, at most [`MAX_NEED`]
    /// of them.
    pub need: Vec<Cid>,
    /// The nodes of the new tree this page had to open: those for which no equal id
    /// was found on the old side.
    pub new_blocks: Vec<Cid>,
}

/// Why there is no diff.
#[derive(Clone, Debug, PartialEq, Eq)]
pub enum DiffError {
    Read(ReadError),
    /// A resume token from a different pair of roots.
    RootsChanged,
    /// A range instruction a diff has no answer for.
    Unsupported(&'static str),
}

// ---------------------------------------------------------------------------
// what differs
// ---------------------------------------------------------------------------

/// What an item holds.
pub open spec fn held_by(i: Item) -> Payload {
    i.what->Ok_0
}

/// A difference at a key, if it is one and lies in the range.
pub open spec fn told(key: Seq<u8>, was: Option<Payload>, is: Option<Payload>, r: RangeView) -> Seq<
    Difference,
> {
    if was != is && range::within(key, r) {
        seq![Difference { key, was, is }]
    } else {
        Seq::empty()
    }
}

/// Does the first item of `a` come before all of `b`?
pub open spec fn leads(a: Seq<Item>, b: Seq<Item>) -> bool {
    a.len() > 0 && (b.len() == 0 || order::lt(a[0].key, b[0].key))
}

/// The differences between two lists of entries, in key order.
pub open spec fn delta(a: Seq<Item>, b: Seq<Item>, r: RangeView) -> Seq<Difference>
    decreases a.len() + b.len(),
{
    if a.len() == 0 && b.len() == 0 {
        Seq::empty()
    } else if leads(a, b) {
        told(a[0].key, Some(held_by(a[0])), None, r) + delta(a.skip(1), b, r)
    } else if a.len() == 0 || order::lt(b[0].key, a[0].key) {
        told(b[0].key, None, Some(held_by(b[0])), r) + delta(a, b.skip(1), r)
    } else {
        told(a[0].key, Some(held_by(a[0])), Some(held_by(b[0])), r) + delta(
            a.skip(1),
            b.skip(1),
            r,
        )
    }
}

/// What a value counts against a byte limit: a referenced value at its real length.
pub open spec fn heft(v: Option<Payload>) -> int {
    match v {
        None => 0,
        Some(p) => node::value_len(p),
    }
}

/// What some differences count against a byte limit.
pub open spec fn total(ds: Seq<Difference>) -> int
    decreases ds.len(),
{
    if ds.len() == 0 {
        0
    } else {
        total(ds.drop_last()) + ds.last().key.len() + heft(ds.last().was) + heft(ds.last().is)
    }
}

/// Have the limits been reached?
pub open spec fn full(ds: Seq<Difference>, r: RangeView) -> bool {
    ||| r.max_entries > 0 && ds.len() >= r.max_entries
    ||| r.max_bytes > 0 && total(ds) >= r.max_bytes
}

/// A store that holds at least what another does, and in which both trees are whole.
pub open spec fn completes(w: BlockMap, m: BlockMap, a: Seq<u8>, b: Seq<u8>) -> bool {
    &&& m.submap_of(w)
    &&& tree::complete(w, a)
    &&& tree::complete(w, b)
}

/// The range with its low end moved up to where the last page stopped.
pub open spec fn tightened(r: RangeView, after: Option<Seq<u8>>) -> RangeView {
    let past = match (r.lo, after) {
        (End::At(k), Some(x)) => order::lt(x, k),
        (End::Past(k), Some(x)) => order::lt(x, k),
        _ => false,
    };
    if after is Some && !past {
        RangeView { lo: End::Past(after->Some_0), ..r }
    } else {
        r
    }
}

/// The changes of a page, as mathematical values.
pub open spec fn changes_of(v: Seq<Change<'_>>) -> Seq<Difference> {
    v.map_values(|c: Change<'_>| c@)
}

/// What a page says of the differences between two trees.
pub open spec fn answers(
    got: Seq<Difference>,
    stopped: Option<Seq<u8>>,
    waiting: bool,
    d: Seq<Difference>,
    r: RangeView,
) -> bool {
    let k = got.len();
    // a prefix of the differences
    &&& k <= d.len()
    &&& got == d.take(k as int)
    // up to the limit
    &&& forall|j: int| 0 <= j < k ==> !full(#[trigger] d.take(j), r)
    &&& !waiting ==> (stopped is Some <==> full(got, r))
    &&& !waiting && stopped is None ==> k == d.len()
    // and it carries on right after them
    &&& stopped is Some ==> {
        &&& forall|i: int| 0 <= i < k ==> order::le((#[trigger] d[i]).key, stopped->Some_0)
        &&& forall|i: int| k <= i < d.len() ==> order::lt(stopped->Some_0, (#[trigger] d[i]).key)
    }
}

// ---------------------------------------------------------------------------
// merging
// ---------------------------------------------------------------------------

/// The rest of an ascending list.
proof fn lemma_ascending_skip(a: Seq<Item>, n: int)
    requires
        tree::ascending(a),
        0 <= n <= a.len(),
    ensures
        tree::ascending(a.skip(n)),
{
    let b = a.skip(n);
    assert forall|i: int, j: int| 0 <= i < j < b.len() implies order::lt(
        (#[trigger] b[i]).key,
        (#[trigger] b[j]).key,
    ) by {
        assert(order::lt(a[i + n].key, a[j + n].key));
    }
}

/// The first of an ascending list comes before the rest.
proof fn lemma_first_before(a: Seq<Item>, i: int)
    requires
        tree::ascending(a),
        0 <= i < a.len(),
    ensures
        order::le(a[0].key, a[i].key),
{
    if i > 0 {
        assert(order::lt(a[0].key, a[i].key));
    }
}

/// Nothing comes both before and after.
proof fn lemma_not_both(a: Seq<u8>, b: Seq<u8>)
    ensures
        !(order::le(a, b) && order::lt(b, a)),
{
    if order::le(a, b) && order::lt(b, a) {
        if a != b {
            order::lemma_lt_trans(a, b, a);
        }
        order::lemma_lt_irreflexive(a);
    }
}

/// Entries outside the range at the front of the old side make no difference.
proof fn lemma_skip_a(a: Seq<Item>, b: Seq<Item>, r: RangeView, n: int)
    requires
        tree::ascending(a),
        tree::ascending(b),
        0 <= n <= a.len(),
        forall|i: int| 0 <= i < n ==> !range::within((#[trigger] a[i]).key, r),
    ensures
        delta(a, b, r) == delta(a.skip(n), b, r),
    decreases a.len() + b.len(),
{
    if n == 0 {
        assert(a.skip(0) =~= a);
    } else {
        let rest = a.skip(1);
        lemma_ascending_skip(a, 1);
        assert forall|i: int| 0 <= i < n - 1 implies !range::within((#[trigger] rest[i]).key, r) by {
            assert(rest[i] == a[i + 1]);
        }
        assert(rest.skip(n - 1) =~= a.skip(n));
        assert(!range::within(a[0].key, r));
        let none = Seq::<Difference>::empty();
        if leads(a, b) {
            lemma_skip_a(rest, b, r, n - 1);
            assert(none + delta(rest, b, r) =~= delta(rest, b, r));
        } else {
            lemma_ascending_skip(b, 1);
            let tail = a.skip(n);
            if tail.len() > 0 {
                assert(tail[0] == a[n]);
                assert(order::lt(a[0].key, a[n].key));
                order::lemma_lt_total(a[0].key, b[0].key);
                order::lemma_le_trans(b[0].key, a[0].key, a[n].key);
                if b[0].key == a[n].key {
                    lemma_not_both(b[0].key, a[0].key);
                }
                if leads(tail, b) {
                    lemma_not_both(b[0].key, a[n].key);
                }
            }
            if order::lt(b[0].key, a[0].key) {
                lemma_skip_a(a, b.skip(1), r, n);
            } else {
                order::lemma_lt_total(a[0].key, b[0].key);
                lemma_skip_a(rest, b.skip(1), r, n - 1);
                assert(none + delta(rest, b.skip(1), r) =~= delta(rest, b.skip(1), r));
                assert(none + delta(tail, b.skip(1), r) =~= delta(tail, b.skip(1), r));
            }
        }
    }
}

/// Entries outside the range at the front of the new side make no difference.
proof fn lemma_skip_b(a: Seq<Item>, b: Seq<Item>, r: RangeView, n: int)
    requires
        tree::ascending(a),
        tree::ascending(b),
        0 <= n <= b.len(),
        forall|i: int| 0 <= i < n ==> !range::within((#[trigger] b[i]).key, r),
    ensures
        delta(a, b, r) == delta(a, b.skip(n), r),
    decreases a.len() + b.len(),
{
    if n == 0 {
        assert(b.skip(0) =~= b);
    } else {
        let rest = b.skip(1);
        lemma_ascending_skip(b, 1);
        assert forall|i: int| 0 <= i < n - 1 implies !range::within((#[trigger] rest[i]).key, r) by {
            assert(rest[i] == b[i + 1]);
        }
        assert(rest.skip(n - 1) =~= b.skip(n));
        assert(!range::within(b[0].key, r));
        let none = Seq::<Difference>::empty();
        let tail = b.skip(n);
        if tail.len() > 0 {
            assert(tail[0] == b[n]);
            assert(order::lt(b[0].key, b[n].key));
        }
        if leads(a, b) {
            lemma_ascending_skip(a, 1);
            lemma_skip_b(a.skip(1), b, r, n);
            if tail.len() > 0 {
                order::lemma_lt_trans(a[0].key, b[0].key, b[n].key);
            }
        } else if a.len() == 0 || order::lt(b[0].key, a[0].key) {
            lemma_skip_b(a, rest, r, n - 1);
            assert(none + delta(a, rest, r) =~= delta(a, rest, r));
        } else {
            lemma_ascending_skip(a, 1);
            order::lemma_lt_total(a[0].key, b[0].key);
            lemma_skip_b(a.skip(1), rest, r, n - 1);
            assert(none + delta(a.skip(1), rest, r) =~= delta(a.skip(1), rest, r));
            assert(none + delta(a.skip(1), tail, r) =~= delta(a.skip(1), tail, r));
        }
    }
}

/// What both sides begin with makes no difference.
proof fn lemma_same_front(x: Seq<Item>, a: Seq<Item>, b: Seq<Item>, r: RangeView)
    ensures
        delta(x + a, x + b, r) == delta(a, b, r),
    decreases x.len(),
{
    if x.len() == 0 {
        assert(x + a =~= a);
        assert(x + b =~= b);
    } else {
        let xa = x + a;
        let xb = x + b;
        order::lemma_lt_irreflexive(x[0].key);
        assert(xa[0] == x[0] && xb[0] == x[0]);
        assert(xa.skip(1) =~= x.skip(1) + a);
        assert(xb.skip(1) =~= x.skip(1) + b);
        lemma_same_front(x.skip(1), a, b, r);
        assert(Seq::<Difference>::empty() + delta(a, b, r) =~= delta(a, b, r));
    }
}

/// Every difference lies at a key of one of the lists, in the range.
proof fn lemma_delta_keys(a: Seq<Item>, b: Seq<Item>, r: RangeView, lo: Seq<u8>)
    requires
        forall|i: int| 0 <= i < a.len() ==> order::lt(lo, (#[trigger] a[i]).key),
        forall|i: int| 0 <= i < b.len() ==> order::lt(lo, (#[trigger] b[i]).key),
    ensures
        forall|i: int| 0 <= i < delta(a, b, r).len() ==> order::lt(lo, (#[trigger] delta(a, b, r)[i]).key),
    decreases a.len() + b.len(),
{
    if a.len() > 0 || b.len() > 0 {
        let (x, y) = if leads(a, b) {
            (a.skip(1), b)
        } else if a.len() == 0 || order::lt(b[0].key, a[0].key) {
            (a, b.skip(1))
        } else {
            (a.skip(1), b.skip(1))
        };
        assert forall|i: int| 0 <= i < x.len() implies order::lt(lo, (#[trigger] x[i]).key) by {
            if x.len() < a.len() {
                assert(x[i] == a[i + 1]);
            }
        }
        assert forall|i: int| 0 <= i < y.len() implies order::lt(lo, (#[trigger] y[i]).key) by {
            if y.len() < b.len() {
                assert(y[i] == b[i + 1]);
            }
        }
        lemma_delta_keys(x, y, r, lo);
        let d = delta(a, b, r);
        let e = delta(x, y, r);
        let k = d.len() - e.len();
        assert forall|i: int| 0 <= i < d.len() implies order::lt(lo, (#[trigger] d[i]).key) by {
            if i >= k {
                assert(d[i] == e[i - k]);
            } else if a.len() > 0 {
                assert(order::lt(lo, a[0].key));
                if b.len() > 0 {
                    assert(order::lt(lo, b[0].key));
                }
            } else {
                assert(order::lt(lo, b[0].key));
            }
        }
    }
}

// ---------------------------------------------------------------------------
// on the way through two trees
// ---------------------------------------------------------------------------

/// A merge on its way, in a store where both trees are whole: what was told and what
/// is left tell the two trees apart.
pub open spec fn course(
    w: BlockMap,
    a: Seq<u8>,
    b: Seq<u8>,
    r: RangeView,
    va: SlotView,
    vb: SlotView,
    got: Seq<Difference>,
    last: Option<Seq<u8>>,
) -> bool {
    let la = slots::left(w, va);
    let lb = slots::left(w, vb);
    &&& delta(tree::items(w, a), tree::items(w, b), r) == got + delta(la, lb, r)
    &&& slots::no_gaps(la)
    &&& slots::no_gaps(lb)
    &&& tree::ascending(la)
    &&& tree::ascending(lb)
    &&& beyond(la, last)
    &&& beyond(lb, last)
    &&& upto(got, last)
}

/// Are all items after a key?
pub open spec fn beyond(its: Seq<Item>, last: Option<Seq<u8>>) -> bool {
    last is Some ==> forall|i: int|
        0 <= i < its.len() ==> order::lt(last->Some_0, (#[trigger] its[i]).key)
}

/// Are all differences at or before a key?
pub open spec fn upto(got: Seq<Difference>, last: Option<Seq<u8>>) -> bool {
    match last {
        None => got.len() == 0,
        Some(x) => forall|i: int| 0 <= i < got.len() ==> order::le((#[trigger] got[i]).key, x),
    }
}

/// A merge on its way, in every store where both trees are whole.
#[verifier::opaque]
pub open spec fn on_track(
    m: BlockMap,
    a: Seq<u8>,
    b: Seq<u8>,
    r: RangeView,
    va: SlotView,
    vb: SlotView,
    got: Seq<Difference>,
    last: Option<Seq<u8>>,
) -> bool {
    forall|w: BlockMap| #[trigger]
        completes(w, m, a, b) ==> course(w, a, b, r, va, vb, got, last)
}

/// Is one list the other without some entries outside the range at its front?
pub open spec fn drops(a: Seq<Item>, b: Seq<Item>, r: RangeView, n: int) -> bool {
    &&& 0 <= n <= a.len()
    &&& b == a.skip(n)
    &&& forall|i: int| 0 <= i < n ==> !range::within((#[trigger] a[i]).key, r)
}

/// Did a cursor move past nothing but entries outside the range?
#[verifier::opaque]
pub open spec fn trims(m: BlockMap, v: SlotView, t: SlotView, r: RangeView) -> bool {
    forall|w: BlockMap| #[trigger]
        m.submap_of(w) && tree::ascending(slots::left(w, v)) ==> exists|n: int|
            drops(slots::left(w, v), slots::left(w, t), r, n)
}

/// A cursor that did not move.
proof fn lemma_trims_none(m: BlockMap, v: SlotView, r: RangeView)
    ensures
        trims(m, v, v, r),
{
    reveal(trims);
    assert forall|w: BlockMap| #[trigger]
        m.submap_of(w) && tree::ascending(slots::left(w, v)) implies exists|n: int|
        drops(slots::left(w, v), slots::left(w, v), r, n) by {
        let l = slots::left(w, v);
        assert(l.skip(0) =~= l);
        assert(drops(l, l, r, 0));
    }
}

/// A cursor that moved past one more slot outside the range.
#[verifier::rlimit(60)]
#[verifier::spinoff_prover]
proof fn lemma_trims_more(m: BlockMap, v: SlotView, t: SlotView, r: RangeView)
    requires
        trims(m, v, t, r),
        slots::placed(m, t),
        !t.done,
        forall|k: Seq<u8>|
            order::le(slots::key_of(t), k) && tree::under(k, slots::end_of(t))
                ==> !#[trigger] range::within(k, r),
    ensures
        trims(m, v, slots::advanced(t), r),
{
    reveal(trims);
    let u = slots::advanced(t);
    assert forall|w: BlockMap| #[trigger]
        m.submap_of(w) && tree::ascending(slots::left(w, v)) implies exists|n: int|
        drops(slots::left(w, v), slots::left(w, u), r, n) by {
        let l = slots::left(w, v);
        let n = choose|n: int| drops(l, slots::left(w, t), r, n);
        assert(drops(l, slots::left(w, t), r, n));
        assert(slots::left(w, t) == l.skip(n));
        let h = slots::here(w, t);
        let k = n + h.len();
        slots::lemma_left_advanced(m, w, t);
        slots::lemma_here_span(m, w, t);
        assert forall|i: int| 0 <= i < k implies !range::within((#[trigger] l[i]).key, r) by {
            if i >= n {
                assert(slots::left(w, t).len() == h.len() + slots::left(w, u).len());
                assert(l.skip(n)[i - n] == l[i]);
                assert(l[i] == slots::left(w, t)[i - n]);
                assert(l[i] == h[i - n]);
                lemma_first_before(h, i - n);
            }
        }
        assert(l.skip(k) =~= slots::left(w, t).skip(h.len() as int));
        assert(slots::left(w, t).skip(h.len() as int) =~= slots::left(w, u));
        assert(drops(l, slots::left(w, u), r, k));
    }
}

/// The old side after a trim.
proof fn lemma_trimmed_a(
    m: BlockMap,
    a: Seq<u8>,
    b: Seq<u8>,
    r: RangeView,
    va: SlotView,
    ta: SlotView,
    vb: SlotView,
    got: Seq<Difference>,
    last: Option<Seq<u8>>,
)
    requires
        on_track(m, a, b, r, va, vb, got, last),
        trims(m, va, ta, r),
    ensures
        on_track(m, a, b, r, ta, vb, got, last),
{
    reveal(on_track);
    reveal(trims);
    assert forall|w: BlockMap| #[trigger] completes(w, m, a, b) implies course(
        w,
        a,
        b,
        r,
        ta,
        vb,
        got,
        last,
    ) by {
        let la = slots::left(w, va);
        let lb = slots::left(w, vb);
        assert(m.submap_of(w) && tree::ascending(la));
        let n = choose|n: int| drops(la, slots::left(w, ta), r, n);
        lemma_skip_a(la, lb, r, n);
        lemma_rest(la, n, last);
    }
}

/// The new side after a trim.
proof fn lemma_trimmed_b(
    m: BlockMap,
    a: Seq<u8>,
    b: Seq<u8>,
    r: RangeView,
    va: SlotView,
    vb: SlotView,
    tb: SlotView,
    got: Seq<Difference>,
    last: Option<Seq<u8>>,
)
    requires
        on_track(m, a, b, r, va, vb, got, last),
        trims(m, vb, tb, r),
    ensures
        on_track(m, a, b, r, va, tb, got, last),
{
    reveal(on_track);
    reveal(trims);
    assert forall|w: BlockMap| #[trigger] completes(w, m, a, b) implies course(
        w,
        a,
        b,
        r,
        va,
        tb,
        got,
        last,
    ) by {
        let la = slots::left(w, va);
        let lb = slots::left(w, vb);
        assert(m.submap_of(w) && tree::ascending(lb));
        let n = choose|n: int| drops(lb, slots::left(w, tb), r, n);
        lemma_skip_b(la, lb, r, n);
        lemma_rest(lb, n, last);
    }
}

/// The rest of a list keeps what held of it.
proof fn lemma_rest(l: Seq<Item>, n: int, last: Option<Seq<u8>>)
    requires
        0 <= n <= l.len(),
        slots::no_gaps(l),
        tree::ascending(l),
        beyond(l, last),
    ensures
        slots::no_gaps(l.skip(n)),
        tree::ascending(l.skip(n)),
        beyond(l.skip(n), last),
{
    lemma_ascending_skip(l, n);
    let t = l.skip(n);
    assert forall|i: int| 0 <= i < t.len() implies (#[trigger] t[i]).what is Ok by {
        assert(t[i] == l[i + n]);
    }
    if last is Some {
        assert forall|i: int| 0 <= i < t.len() implies order::lt(
            last->Some_0,
            (#[trigger] t[i]).key,
        ) by {
            assert(t[i] == l[i + n]);
        }
    }
}

/// After its first item, a list lies beyond that item's key.
proof fn lemma_beyond_first(l: Seq<Item>)
    requires
        tree::ascending(l),
        l.len() > 0,
    ensures
        beyond(l.skip(1), Some(l[0].key)),
{
    let t = l.skip(1);
    assert forall|i: int| 0 <= i < t.len() implies order::lt(l[0].key, (#[trigger] t[i]).key) by {
        assert(t[i] == l[i + 1]);
    }
}

/// A list whose first item comes after a key lies beyond it.
proof fn lemma_beyond_key(l: Seq<Item>, k: Seq<u8>)
    requires
        tree::ascending(l),
        l.len() > 0 ==> order::lt(k, l[0].key),
    ensures
        beyond(l, Some(k)),
{
    assert forall|i: int| 0 <= i < l.len() implies order::lt(k, (#[trigger] l[i]).key) by {
        if i > 0 {
            assert(order::lt(l[0].key, l[i].key));
            order::lemma_lt_trans(k, l[0].key, l[i].key);
        }
    }
}

/// What was told, and one more key.
proof fn lemma_upto_more(
    got: Seq<Difference>,
    last: Option<Seq<u8>>,
    key: Seq<u8>,
    was: Option<Payload>,
    is: Option<Payload>,
    r: RangeView,
)
    requires
        upto(got, last),
        last is Some ==> order::lt(last->Some_0, key),
    ensures
        upto(got + told(key, was, is, r), Some(key)),
{
    let all = got + told(key, was, is, r);
    assert forall|i: int| 0 <= i < all.len() implies order::le((#[trigger] all[i]).key, key) by {
        if i < got.len() {
            assert(all[i] == got[i]);
            order::lemma_le_trans(got[i].key, last->Some_0, key);
        }
    }
}

/// An entry of the old side that the new side has passed.
proof fn lemma_drained_a(
    m: BlockMap,
    a: Seq<u8>,
    b: Seq<u8>,
    r: RangeView,
    va: SlotView,
    vb: SlotView,
    got: Seq<Difference>,
    last: Option<Seq<u8>>,
)
    requires
        on_track(m, a, b, r, va, vb, got, last),
        slots::placed(m, va),
        slots::placed(m, vb),
        !va.done,
        slots::place_of(va) is Entry,
        vb.done || order::lt(slots::key_of(va), slots::key_of(vb)),
    ensures
        on_track(
            m,
            a,
            b,
            r,
            slots::advanced(va),
            vb,
            got + told(slots::key_of(va), Some(slots::place_of(va)->Entry_0), None, r),
            Some(slots::key_of(va)),
        ),
{
    reveal(on_track);
    let key = slots::key_of(va);
    let p = slots::place_of(va)->Entry_0;
    let t = told(key, Some(p), None, r);
    assert forall|w: BlockMap| #[trigger] completes(w, m, a, b) implies course(
        w,
        a,
        b,
        r,
        slots::advanced(va),
        vb,
        got + t,
        Some(key),
    ) by {
        let la = slots::left(w, va);
        let lb = slots::left(w, vb);
        slots::lemma_left_first(m, w, va);
        if !vb.done {
            slots::lemma_left_first(m, w, vb);
        }
        assert(leads(la, lb));
        let d = delta(la.skip(1), lb, r);
        assert(got + (t + d) =~= got + t + d);
        lemma_rest(la, 1, last);
        lemma_beyond_first(la);
        lemma_beyond_key(lb, key);
        lemma_upto_more(got, last, key, Some(p), None, r);
    }
}

/// An entry of the new side that the old side has passed.
proof fn lemma_drained_b(
    m: BlockMap,
    a: Seq<u8>,
    b: Seq<u8>,
    r: RangeView,
    va: SlotView,
    vb: SlotView,
    got: Seq<Difference>,
    last: Option<Seq<u8>>,
)
    requires
        on_track(m, a, b, r, va, vb, got, last),
        slots::placed(m, va),
        slots::placed(m, vb),
        !vb.done,
        slots::place_of(vb) is Entry,
        va.done || order::lt(slots::key_of(vb), slots::key_of(va)),
    ensures
        on_track(
            m,
            a,
            b,
            r,
            va,
            slots::advanced(vb),
            got + told(slots::key_of(vb), None, Some(slots::place_of(vb)->Entry_0), r),
            Some(slots::key_of(vb)),
        ),
{
    reveal(on_track);
    let key = slots::key_of(vb);
    let p = slots::place_of(vb)->Entry_0;
    let t = told(key, None, Some(p), r);
    assert forall|w: BlockMap| #[trigger] completes(w, m, a, b) implies course(
        w,
        a,
        b,
        r,
        va,
        slots::advanced(vb),
        got + t,
        Some(key),
    ) by {
        let la = slots::left(w, va);
        let lb = slots::left(w, vb);
        slots::lemma_left_first(m, w, vb);
        if !va.done {
            slots::lemma_left_first(m, w, va);
            if order::lt(la[0].key, lb[0].key) {
                lemma_not_both(la[0].key, lb[0].key);
            }
        }
        assert(!leads(la, lb));
        let d = delta(la, lb.skip(1), r);
        assert(got + (t + d) =~= got + t + d);
        lemma_rest(lb, 1, last);
        lemma_beyond_first(lb);
        lemma_beyond_key(la, key);
        lemma_upto_more(got, last, key, None, Some(p), r);
    }
}

/// An entry of both sides.
proof fn lemma_matched(
    m: BlockMap,
    a: Seq<u8>,
    b: Seq<u8>,
    r: RangeView,
    va: SlotView,
    vb: SlotView,
    got: Seq<Difference>,
    last: Option<Seq<u8>>,
)
    requires
        on_track(m, a, b, r, va, vb, got, last),
        slots::placed(m, va),
        slots::placed(m, vb),
        !va.done,
        !vb.done,
        slots::place_of(va) is Entry,
        slots::place_of(vb) is Entry,
        slots::key_of(va) == slots::key_of(vb),
    ensures
        on_track(
            m,
            a,
            b,
            r,
            slots::advanced(va),
            slots::advanced(vb),
            got + told(
                slots::key_of(va),
                Some(slots::place_of(va)->Entry_0),
                Some(slots::place_of(vb)->Entry_0),
                r,
            ),
            Some(slots::key_of(va)),
        ),
{
    reveal(on_track);
    let key = slots::key_of(va);
    let p = slots::place_of(va)->Entry_0;
    let q = slots::place_of(vb)->Entry_0;
    let t = told(key, Some(p), Some(q), r);
    assert forall|w: BlockMap| #[trigger] completes(w, m, a, b) implies course(
        w,
        a,
        b,
        r,
        slots::advanced(va),
        slots::advanced(vb),
        got + t,
        Some(key),
    ) by {
        let la = slots::left(w, va);
        let lb = slots::left(w, vb);
        slots::lemma_left_first(m, w, va);
        slots::lemma_left_first(m, w, vb);
        order::lemma_lt_irreflexive(key);
        let d = delta(la.skip(1), lb.skip(1), r);
        assert(got + (t + d) =~= got + t + d);
        lemma_rest(la, 1, last);
        lemma_rest(lb, 1, last);
        lemma_beyond_first(la);
        lemma_beyond_first(lb);
        lemma_upto_more(got, last, key, Some(p), Some(q), r);
    }
}

/// The same subtree on both sides.
proof fn lemma_skipped(
    m: BlockMap,
    a: Seq<u8>,
    b: Seq<u8>,
    r: RangeView,
    va: SlotView,
    vb: SlotView,
    got: Seq<Difference>,
    last: Option<Seq<u8>>,
)
    requires
        on_track(m, a, b, r, va, vb, got, last),
        slots::placed(m, va),
        slots::placed(m, vb),
        !va.done,
        !vb.done,
        slots::place_of(va) is Sub,
        slots::place_of(va) == slots::place_of(vb),
    ensures
        on_track(m, a, b, r, slots::advanced(va), slots::advanced(vb), got, last),
{
    reveal(on_track);
    assert forall|w: BlockMap| #[trigger] completes(w, m, a, b) implies course(
        w,
        a,
        b,
        r,
        slots::advanced(va),
        slots::advanced(vb),
        got,
        last,
    ) by {
        let la = slots::left(w, va);
        let lb = slots::left(w, vb);
        slots::lemma_left_advanced(m, w, va);
        slots::lemma_left_advanced(m, w, vb);
        let x = slots::here(w, va);
        let ra = slots::left(w, slots::advanced(va));
        let rb = slots::left(w, slots::advanced(vb));
        slots::lemma_gaps_join(x, ra);
        slots::lemma_gaps_join(slots::here(w, vb), rb);
        slots::lemma_same_slot(m, w, va, vb);
        lemma_same_front(x, ra, rb, r);
        lemma_rest(la, x.len() as int, last);
        lemma_rest(lb, x.len() as int, last);
        assert(la.skip(x.len() as int) =~= ra);
        assert(lb.skip(x.len() as int) =~= rb);
    }
}

/// Going down on the old side changes nothing that is left.
proof fn lemma_opened_a(
    m: BlockMap,
    a: Seq<u8>,
    b: Seq<u8>,
    r: RangeView,
    va: SlotView,
    vb: SlotView,
    got: Seq<Difference>,
    last: Option<Seq<u8>>,
)
    requires
        on_track(m, a, b, r, va, vb, got, last),
        slots::placed(m, va),
        !va.done,
        slots::place_of(va) is Sub,
        slots::descended(m, va) is Ok,
    ensures
        on_track(m, a, b, r, slots::descended(m, va)->Ok_0, vb, got, last),
{
    reveal(on_track);
    assert forall|w: BlockMap| #[trigger] completes(w, m, a, b) implies course(
        w,
        a,
        b,
        r,
        slots::descended(m, va)->Ok_0,
        vb,
        got,
        last,
    ) by {
        slots::lemma_left_descended(m, w, va);
    }
}

/// Going down on the new side changes nothing that is left.
proof fn lemma_opened_b(
    m: BlockMap,
    a: Seq<u8>,
    b: Seq<u8>,
    r: RangeView,
    va: SlotView,
    vb: SlotView,
    got: Seq<Difference>,
    last: Option<Seq<u8>>,
)
    requires
        on_track(m, a, b, r, va, vb, got, last),
        slots::placed(m, vb),
        !vb.done,
        slots::place_of(vb) is Sub,
        slots::descended(m, vb) is Ok,
    ensures
        on_track(m, a, b, r, va, slots::descended(m, vb)->Ok_0, got, last),
{
    reveal(on_track);
    assert forall|w: BlockMap| #[trigger] completes(w, m, a, b) implies course(
        w,
        a,
        b,
        r,
        va,
        slots::descended(m, vb)->Ok_0,
        got,
        last,
    ) by {
        slots::lemma_left_descended(m, w, vb);
    }
}

/// Where a cursor cannot go down, what is left has a gap, unless the block turns up.
proof fn lemma_stuck(m: BlockMap, w: BlockMap, v: SlotView)
    requires
        slots::placed(m, v),
        m.submap_of(w),
        !v.done,
        slots::place_of(v) is Sub,
        slots::descended(m, v) is Err,
        slots::descended(m, v)->Err_0 is Need ==> w == m,
    ensures
        !slots::no_gaps(slots::left(w, v)),
{
    let s = v.path.last();
    let k = v.path.len() - 1;
    assert(v.path[k] == s);
    slots::lemma_left_advanced(m, w, v);
    slots::lemma_gaps_join(slots::here(w, v), slots::left(w, slots::advanced(v)));
    reveal(store::loaded);
    let cid = store::child_cid(s.held.node.rows[s.taken]);
    if slots::descended(m, v)->Err_0 is Need {
    } else {
        slots::lemma_opened_grows(m, w, s.held, s.taken);
    }
    let c = tree::child_slot(w, s.held, s.taken);
    assert(tree::level_slots(w, c, 0) =~= seq![c]);
    tree::lemma_flat_one(c);
    assert(slots::here(w, v)[0].what is Err);
}

// ---------------------------------------------------------------------------
// the merge
// ---------------------------------------------------------------------------

/// Are two values stored alike?
fn same_value(a: &Value<'_>, b: &Value<'_>) -> (r: bool)
    ensures
        r == (a@ == b@),
{
    match (a, b) {
        (Value::Inline(x), Value::Inline(y)) => order::same(x, y),
        (Value::Ref { cid: c, len: l }, Value::Ref { cid: d, len: n }) => {
            *l == *n && order::same(c.as_slice(), d.as_slice())
        },
        _ => false,
    }
}

/// The sum, or the largest number.
fn sum(a: u64, b: u64) -> (r: u64)
    ensures
        r == if a + b > u64::MAX {
            u64::MAX as int
        } else {
            a + b
        },
{
    match a.checked_add(b) {
        Some(c) => c,
        None => u64::MAX,
    }
}

/// Is this count the total, as far as it can be counted?
spec fn weighs(bytes: u64, ds: Seq<Difference>) -> bool {
    bytes == if total(ds) > u64::MAX {
        u64::MAX as int
    } else {
        total(ds)
    }
}

struct State<'a> {
    changes: Vec<Change<'a>>,
    need: Vec<Cid>,
    new_blocks: Vec<Cid>,
    bytes: u64,
    last: Option<Vec<u8>>,
    stopped: bool,
}

/// The differences told so far.
spec fn got(s: State<'_>) -> Seq<Difference> {
    changes_of(s.changes@)
}

/// The last key decided.
spec fn last_of(s: State<'_>) -> Option<Seq<u8>> {
    match s.last {
        None => None,
        Some(k) => Some(k@),
    }
}

/// A merge, as far as it has come.
spec fn merged(s: State<'_>, a: SlotView, b: SlotView) -> Merge {
    Merge { a, b, got: got(s), ids: node::cids_of(s.new_blocks@), last: last_of(s) }
}

/// Totals are not negative.
proof fn lemma_total(ds: Seq<Difference>)
    ensures
        total(ds) >= 0,
    decreases ds.len(),
{
    if ds.len() > 0 {
        lemma_total(ds.drop_last());
    }
}

impl<'a> State<'a> {
    fn full(&self, r: &Range) -> (b: bool)
        requires
            weighs(self.bytes, got(*self)),
        ensures
            b == full(got(*self), r@),
    {
        proof {
            lemma_total(got(*self));
        }
        assert(got(*self).len() == self.changes@.len());
        (r.max_entries > 0 && self.changes.len() >= r.max_entries) || (r.max_bytes > 0
            && self.bytes >= r.max_bytes as u64)
    }

    /// A key that has been decided, whether or not it produced a change. The resume
    /// point is the last key decided, so a page never offers ground again that it
    /// has covered and never skips a key it declined to report.
    fn seen(&mut self, key: &[u8])
        ensures
            last_of(*final(self)) == Some(key@),
            final(self).changes == old(self).changes,
            final(self).need == old(self).need,
            final(self).new_blocks == old(self).new_blocks,
            final(self).bytes == old(self).bytes,
            final(self).stopped == old(self).stopped,
    {
        self.last = Some(vstd::slice::slice_to_vec(key));
    }

    fn emit(&mut self, c: Change<'a>)
        requires
            weighs(old(self).bytes, got(*old(self))),
        ensures
            last_of(*final(self)) == Some(c@.key),
            got(*final(self)) == got(*old(self)).push(c@),
            final(self).need == old(self).need,
            final(self).new_blocks == old(self).new_blocks,
            final(self).stopped == old(self).stopped,
            weighs(final(self).bytes, got(*final(self))),
    {
        let ghost before = got(*self);
        let size = c.weight();
        let klen = c.key().len() as u64;
        self.bytes = sum(sum(self.bytes, klen), size);
        let key = vstd::slice::slice_to_vec(c.key());
        self.last = Some(key);
        self.changes.push(c);
        proof {
            lemma_total(before);
            assert(got(*self) =~= before.push(c@));
            assert(before.push(c@).drop_last() =~= before);
        }
    }
}

impl<'a> Change<'a> {
    /// What this change counts against a byte limit: the values it carries, a
    /// referenced value at its real length.
    fn weight(&self) -> (r: u64)
        ensures
            r == if heft(self@.was) + heft(self@.is) > u64::MAX {
                u64::MAX as int
            } else {
                heft(self@.was) + heft(self@.is)
            },
    {
        match self {
            Change::Added { new, .. } => new.logical_len(),
            Change::Removed { old, .. } => old.logical_len(),
            Change::Changed { old: was, new, .. } => sum(was.logical_len(), new.logical_len()),
        }
    }
}

/// Is this the id of a held leaf with this entry?
pub open spec fn leaf_holds(m: BlockMap, id: Seq<u8>, key: Seq<u8>, held: Payload) -> bool {
    store::loaded(m, id) matches Ok(n) && n.level == 0 && exists|i: int|
        0 <= i < n.rows.len() && (#[trigger] n.rows[i]).key == key && n.rows[i].held == held
}

/// Is the leaf of every entry that was added or changed among these nodes?
#[verifier::opaque]
pub open spec fn leaves_listed(m: BlockMap, ds: Seq<Difference>, ids: Seq<Seq<u8>>) -> bool {
    forall|j: int|
        0 <= j < ds.len() && (#[trigger] ds[j]).is is Some ==> exists|id: Seq<u8>|
            ids.contains(id) && #[trigger] leaf_holds(m, id, ds[j].key, ds[j].is->Some_0)
}

/// Is every node a cursor has opened among these?
#[verifier::opaque]
spec fn path_listed(v: SlotView, ids: Seq<Seq<u8>>) -> bool {
    !v.at_root ==> forall|i: int|
        0 <= i < v.path.len() ==> ids.contains((#[trigger] v.path[i]).cid)
}

/// Does one position stand on nodes the other stands on?
pub open spec fn stays_on(v: SlotView, t: SlotView) -> bool {
    &&& t.at_root == v.at_root
    &&& t.path.len() <= v.path.len()
    &&& forall|i: int| 0 <= i < t.path.len() ==> (#[trigger] t.path[i]).cid == v.path[i].cid
}

/// The next slot is on nodes that are open.
proof fn lemma_next_on(path: Seq<crate::cursor::StepView>)
    ensures
        slots::next_path(path).len() <= path.len(),
        forall|i: int|
            0 <= i < slots::next_path(path).len() ==> (#[trigger] slots::next_path(path)[i]).cid
                == path[i].cid,
    decreases path.len(),
{
    if path.len() > 0 {
        lemma_next_on(path.drop_last());
    }
}

/// Moving on opens nothing.
pub proof fn lemma_advanced_on(v: SlotView)
    ensures
        stays_on(v, slots::advanced(v)),
{
    lemma_next_on(v.path);
}

/// A position on nodes that are listed.
proof fn lemma_on_listed(v: SlotView, t: SlotView, ids: Seq<Seq<u8>>)
    requires
        stays_on(v, t),
        path_listed(v, ids),
    ensures
        path_listed(t, ids),
{
    reveal(path_listed);
    if !t.at_root {
        assert forall|i: int| 0 <= i < t.path.len() implies ids.contains(
            (#[trigger] t.path[i]).cid,
        ) by {
            assert(ids.contains(v.path[i].cid));
        }
    }
}

/// One more node is opened and listed.
proof fn lemma_descended_listed(
    m: BlockMap,
    v: SlotView,
    t: SlotView,
    ds: Seq<Difference>,
    ids: Seq<Seq<u8>>,
)
    requires
        slots::placed(m, v),
        v.path.len() > 0,
        slots::place_of(v) is Sub,
        slots::descended(m, v) == Ok::<SlotView, Fault>(t),
        path_listed(v, ids),
        leaves_listed(m, ds, ids),
    ensures
        path_listed(t, ids.push(slots::place_of(v)->id)),
        leaves_listed(m, ds, ids.push(slots::place_of(v)->id)),
{
    reveal(path_listed);
    reveal(leaves_listed);
    let id = slots::place_of(v)->id;
    let more = ids.push(id);
    assert(more[ids.len() as int] == id);
    assert forall|x: Seq<u8>| #[trigger] ids.contains(x) implies more.contains(x) by {
        let i = choose|i: int| 0 <= i < ids.len() && ids[i] == x;
        assert(more[i] == x);
    }
    assert forall|i: int| 0 <= i < t.path.len() implies more.contains((#[trigger] t.path[i]).cid) by {
        if v.at_root {
            assert(t.path[i].cid == id);
        } else if i < v.path.len() {
            assert(t.path[i] == v.path[i]);
            assert(ids.contains(v.path[i].cid));
        }
    }
    assert forall|j: int|
        0 <= j < ds.len() && (#[trigger] ds[j]).is is Some implies exists|x: Seq<u8>|
        more.contains(x) && #[trigger] leaf_holds(m, x, ds[j].key, ds[j].is->Some_0) by {
        let x = choose|x: Seq<u8>|
            ids.contains(x) && #[trigger] leaf_holds(m, x, ds[j].key, ds[j].is->Some_0);
        assert(more.contains(x));
    }
}

/// An entry is told from a leaf that is listed.
proof fn lemma_told_listed(
    m: BlockMap,
    v: SlotView,
    ds: Seq<Difference>,
    was: Option<Payload>,
    r: RangeView,
    ids: Seq<Seq<u8>>,
)
    requires
        slots::placed(m, v),
        v.path.len() > 0,
        slots::place_of(v) is Entry,
        path_listed(v, ids),
        leaves_listed(m, ds, ids),
    ensures
        leaves_listed(
            m,
            ds + told(slots::key_of(v), was, Some(slots::place_of(v)->Entry_0), r),
            ids,
        ),
{
    reveal(path_listed);
    reveal(leaves_listed);
    let k = v.path.len() - 1;
    let top = v.path[k];
    let p = slots::place_of(v)->Entry_0;
    let key = slots::key_of(v);
    let j0 = lemma_path_node(m, v, top.held.node, top.taken);
    let id = v.path[j0].cid;
    assert(ids.contains(id));
    assert(top.held.node.rows[top.taken].held == p);
    assert(leaf_holds(m, id, key, p));
    let all = ds + told(key, was, Some(p), r);
    assert forall|j: int|
        0 <= j < all.len() && (#[trigger] all[j]).is is Some implies exists|x: Seq<u8>|
        ids.contains(x) && #[trigger] leaf_holds(m, x, all[j].key, all[j].is->Some_0) by {
        if j < ds.len() {
            assert(all[j] == ds[j]);
            let x = choose|x: Seq<u8>|
                ids.contains(x) && #[trigger] leaf_holds(m, x, ds[j].key, ds[j].is->Some_0);
            assert(leaf_holds(m, x, all[j].key, all[j].is->Some_0));
        } else {
            assert(all[j] == told(key, was, Some(p), r)[j - ds.len()]);
            assert(all[j] == Difference { key, was, is: Some(p) });
            assert(leaf_holds(m, id, all[j].key, all[j].is->Some_0));
        }
    }
}

/// An entry that is gone needs no leaf.
proof fn lemma_gone_listed(
    m: BlockMap,
    key: Seq<u8>,
    p: Payload,
    ds: Seq<Difference>,
    r: RangeView,
    ids: Seq<Seq<u8>>,
)
    requires
        leaves_listed(m, ds, ids),
    ensures
        leaves_listed(m, ds + told(key, Some(p), None, r), ids),
{
    reveal(leaves_listed);
    let all = ds + told(key, Some(p), None, r);
    assert forall|j: int|
        0 <= j < all.len() && (#[trigger] all[j]).is is Some implies exists|x: Seq<u8>|
        ids.contains(x) && #[trigger] leaf_holds(m, x, all[j].key, all[j].is->Some_0) by {
        if j < ds.len() {
            assert(all[j] == ds[j]);
        } else {
            assert(all[j] == told(key, Some(p), None, r)[j - ds.len()]);
        }
    }
}

/// Drop what the range excludes before anything is compared: a subtree outside the
/// range is not read, and one past the top ends this side.
#[verifier::rlimit(60)]
#[verifier::spinoff_prover]
fn trim<'a, B: Blocks>(c: &mut SlotCursor<'a, B>, r: &Range)
    requires
        old(c).wf(),
    ensures
        final(c).wf(),
        final(c).source() == old(c).source(),
        trims(old(c).source(), old(c)@, final(c)@, r@),
        slots::mass(final(c).source(), final(c)@) <= slots::mass(old(c).source(), old(c)@),
        stays_on(old(c)@, final(c)@),
        align::unbounded(r@) ==> final(c)@ == old(c)@,
        merge::skips(old(c)@, final(c)@, r@),
{
    let ghost m = c.source();
    let ghost v = c@;
    let ghost mut n: nat = 0;
    proof {
        lemma_trims_none(m, v, r@);
    }
    while !c.finished()
        invariant
            c@ == merge::skipped(v, n),
            merge::all_outside(v, n, r@),
            c.wf(),
            c.source() == m,
            m == old(c).source(),
            v == old(c)@,
            trims(m, v, c@, r@),
            stays_on(v, c@),
            align::unbounded(r@) ==> c@ == v,
            slots::mass(m, c@) <= slots::mass(m, v),
        decreases slots::mass(m, c@),
    {
        let ghost t = c@;
        proof {
            c.lemma_wf();
        }
        let key = c.key();
        let above = !below_hi(key.as_slice(), &r.hi);
        let below = if above {
            false
        } else {
            match (c.end_key(), &r.lo) {
                (Some(end), Bound::Included(lo)) => !order::before(lo.as_slice(), end.as_slice()),
                (Some(end), Bound::Excluded(lo)) => !order::before(lo.as_slice(), end.as_slice()),
                _ => false,
            }
        };
        if !above && !below {
            return;
        }
        proof {
            assert forall|j: nat| j < n + 1 implies !(#[trigger] merge::skipped(v, j)).done
                && merge::outside(merge::skipped(v, j), r@) by {
                if j == n {
                    assert(merge::outside(t, r@));
                }
            }
            n = n + 1;
            assert forall|k: Seq<u8>|
                order::le(slots::key_of(t), k) && tree::under(
                    k,
                    slots::end_of(t),
                ) implies !#[trigger] range::within(k, r@) by {
                if above {
                    lemma_still_above(slots::key_of(t), k, r@);
                } else {
                    lemma_still_below(k, slots::end_of(t)->Some_0, r@);
                }
            }
            lemma_trims_more(m, v, t, r@);
            lemma_advanced_on(t);
            slots::lemma_mass_advanced(m, t);
        }
        c.advance();
    }
}

/// What comes after a key past the top is past the top.
proof fn lemma_still_above(a: Seq<u8>, b: Seq<u8>, r: RangeView)
    requires
        order::le(a, b),
        !range::under(a, r.hi),
    ensures
        !range::within(b, r),
{
    if range::under(b, r.hi) {
        match r.hi {
            End::Open => {},
            End::At(e) => order::lemma_le_trans(a, b, e),
            End::Past(e) => {
                if a != b {
                    order::lemma_lt_trans(a, b, e);
                }
            },
        }
    }
}

/// What comes before a bound at or below the bottom is below the bottom.
proof fn lemma_still_below(k: Seq<u8>, end: Seq<u8>, r: RangeView)
    requires
        order::lt(k, end),
        match r.lo {
            End::Open => false,
            End::At(e) => !order::lt(e, end),
            End::Past(e) => !order::lt(e, end),
        },
    ensures
        !range::within(k, r),
{
    let e = match r.lo {
        End::Open => Seq::empty(),
        End::At(e) => e,
        End::Past(e) => e,
    };
    order::lemma_lt_total(e, end);
    order::lemma_le_trans(end, e, e);
    order::lemma_le_trans(k, end, e);
    if k == e {
        lemma_not_both(end, k);
    }
    lemma_not_both(e, k);
    if range::above(k, r.lo) {
        assert(order::le(e, k));
    }
}

/// Is a merge stuck on a cursor?
spec fn stuck(m: BlockMap, v: SlotView, f: Fault) -> bool {
    &&& !v.done
    &&& slots::place_of(v) is Sub
    &&& slots::descended(m, v) == Err::<SlotView, Fault>(f)
}

/// Is a merge stuck on the first cursor, at the first key left, on a block to ask for?
spec fn halts(
    m: BlockMap,
    a: Seq<u8>,
    b: Seq<u8>,
    r: RangeView,
    vx: SlotView,
    vy: SlotView,
    f: Fault,
) -> bool {
    &&& stuck(m, vx, f)
    &&& vy.done || order::le(slots::key_of(vx), slots::key_of(vy))
    &&& align::asked_for(m, a, b, r, slots::place_of(vx)->id)
}

/// This side holds keys the other side has already passed (or the other side is
/// finished), so everything here is an addition or a removal. An entry is reported; a
/// subtree is opened, because its entries have to be reported one by one.
fn drain<'a, B: Blocks>(s: &mut State<'a>, r: &Range, c: &mut SlotCursor<'a, B>, new: bool) -> (x:
    Result<(), ReadError>)
    requires
        old(c).wf(),
        !old(c)@.done,
        weighs(old(s).bytes, got(*old(s))),
    ensures
        final(c).wf(),
        final(c).source() == old(c).source(),
        weighs(final(s).bytes, got(*final(s))),
        final(s).need == old(s).need,
        final(s).stopped == old(s).stopped,
        match slots::place_of(old(c)@) {
            Place::Entry(p) => {
                &&& x is Ok
                &&& final(s).new_blocks == old(s).new_blocks
                &&& final(c)@ == slots::advanced(old(c)@)
                &&& last_of(*final(s)) == Some(slots::key_of(old(c)@))
                &&& got(*final(s)) == got(*old(s)) + told(
                    slots::key_of(old(c)@),
                    if new {
                        None
                    } else {
                        Some(p)
                    },
                    if new {
                        Some(p)
                    } else {
                        None
                    },
                    r@,
                )
            },
            Place::Sub { .. } => {
                &&& got(*final(s)) == got(*old(s))
                &&& last_of(*final(s)) == last_of(*old(s))
                &&& match x {
                    Ok(_) => slots::descended(old(c).source(), old(c)@) == Ok::<SlotView, Fault>(
                        final(c)@,
                    ) && node::cids_of(final(s).new_blocks@) == (if new {
                        node::cids_of(old(s).new_blocks@).push(slots::place_of(old(c)@)->id)
                    } else {
                        node::cids_of(old(s).new_blocks@)
                    }),
                    Err(e) => final(s).new_blocks == old(s).new_blocks && final(c)@ == old(c)@ && slots::descended(old(c).source(), old(c)@)
                        == Err::<SlotView, Fault>(e@),
                }
            },
        },
{
    proof {
        c.lemma_wf();
    }
    match c.slot() {
        Slot::Entry(v) => {
            let key = c.key();
            let ghost k = key@;
            let ghost before = got(*s);
            if in_range(key.as_slice(), r) {
                if new {
                    s.emit(Change::Added { key, new: v });
                    assert(got(*s) =~= before + told(k, None, Some(v@), r@));
                } else {
                    s.emit(Change::Removed { key, old: v });
                    assert(got(*s) =~= before + told(k, Some(v@), None, r@));
                }
            } else {
                s.seen(key.as_slice());
                assert(got(*s) =~= before + Seq::<Difference>::empty());
            }
            c.advance();
            Ok(())
        },
        Slot::Sub { .. } => match c.descend() {
            Err(e) => Err(e),
            Ok(id) => {
                if new {
                    let ghost ids = node::cids_of(s.new_blocks@);
                    s.new_blocks.push(id);
                    assert(node::cids_of(s.new_blocks@) =~= ids.push(id@));
                }
                Ok(())
            },
        },
    }
}

/// Both sides begin at the same key. This is where the shortcut lives.
#[verifier::rlimit(60)]
#[verifier::spinoff_prover]
fn step_together<'a, B: Blocks>(
    s: &mut State<'a>,
    r: &Range,
    a: &mut SlotCursor<'a, B>,
    b: &mut SlotCursor<'a, B>,
    Ghost(ra): Ghost<Seq<u8>>,
    Ghost(rb): Ghost<Seq<u8>>,
) -> (x: Result<(), ReadError>)
    requires
        old(a).wf(),
        old(b).wf(),
        old(a).source() == old(b).source(),
        !old(a)@.done,
        !old(b)@.done,
        slots::key_of(old(a)@) == slots::key_of(old(b)@),
        weighs(old(s).bytes, got(*old(s))),
        path_listed(old(b)@, node::cids_of(old(s).new_blocks@)),
        leaves_listed(old(a).source(), got(*old(s)), node::cids_of(old(s).new_blocks@)),
        on_track(
            old(a).source(),
            ra,
            rb,
            r@,
            old(a)@,
            old(b)@,
            got(*old(s)),
            last_of(*old(s)),
        ),
        align::lined_up(
            old(a).source(),
            ra,
            rb,
            r@,
            old(a)@,
            old(b)@,
            node::cids_of(old(s).new_blocks@),
        ),
    ensures
        final(a).wf(),
        final(b).wf(),
        final(a).source() == old(a).source(),
        final(b).source() == old(a).source(),
        weighs(final(s).bytes, got(*final(s))),
        final(s).need == old(s).need,
        final(s).stopped == old(s).stopped,
        path_listed(final(b)@, node::cids_of(final(s).new_blocks@)),
        leaves_listed(old(a).source(), got(*final(s)), node::cids_of(final(s).new_blocks@)),
        on_track(
            old(a).source(),
            ra,
            rb,
            r@,
            final(a)@,
            final(b)@,
            got(*final(s)),
            last_of(*final(s)),
        ),
        align::lined_up(
            old(a).source(),
            ra,
            rb,
            r@,
            final(a)@,
            final(b)@,
            node::cids_of(final(s).new_blocks@),
        ),
        got(*old(s)).len() <= got(*final(s)).len() <= got(*old(s)).len() + 1,
        got(*final(s)).take(got(*old(s)).len() as int) == got(*old(s)),
        merge::met(old(a).source(), r@, merged(*old(s), old(a)@, old(b)@)) == match x {
            Ok(_) => Turn::On(merged(*final(s), final(a)@, final(b)@)),
            Err(e) => Turn::Stuck(merged(*final(s), final(a)@, final(b)@), e@),
        },
        match x {
            Ok(_) => slots::mass(old(a).source(), final(a)@) + slots::mass(
                old(a).source(),
                final(b)@,
            ) < slots::mass(old(a).source(), old(a)@) + slots::mass(old(a).source(), old(b)@),
            Err(e) => {
                &&& got(*final(s)) == got(*old(s))
                &&& halts(old(a).source(), ra, rb, r@, final(a)@, final(b)@, e@) || halts(
                    old(a).source(),
                    ra,
                    rb,
                    r@,
                    final(b)@,
                    final(a)@,
                    e@,
                )
            },
        },
{
    let ghost m = a.source();
    let ghost va = a@;
    let ghost vb = b@;
    let ghost g = got(*s);
    let ghost last = last_of(*s);
    let ghost ids0 = node::cids_of(s.new_blocks@);
    proof {
        a.lemma_wf();
        b.lemma_wf();
        assert(g.take(g.len() as int) =~= g);
    }
    // which sides to open
    let (open_a, open_b) = match (a.slot(), b.slot()) {
        (Slot::Sub { level: la, id: ia }, Slot::Sub { level: lb, id: ib }) => {
            if la == lb && order::same(ia.as_slice(), ib.as_slice()) {
                // The shortcut. Nothing under here differs, in either tree, and
                // neither child is read.
                proof {
                    lemma_skipped(m, ra, rb, r@, va, vb, g, last);
                    align::lemma_line_skipped(m, ra, rb, r@, va, vb, g, last, ids0);
                    slots::lemma_mass_advanced(m, va);
                    slots::lemma_mass_advanced(m, vb);
                }
                proof {
                    lemma_advanced_on(vb);
                    lemma_on_listed(vb, slots::advanced(vb), node::cids_of(s.new_blocks@));
                }
                a.advance();
                b.advance();
                return Ok(());
            }
            // Different depths cannot be equal, so the side that reaches higher is
            // opened until they meet.
            (la >= lb, lb >= la)
        },
        (Slot::Sub { .. }, Slot::Entry(_)) => (true, false),
        (Slot::Entry(_), Slot::Sub { .. }) => (false, true),
        (Slot::Entry(was), Slot::Entry(new)) => {
            let key = a.key();
            let ghost k = key@;
            if !same_value(&was, &new) && in_range(key.as_slice(), r) {
                s.emit(Change::Changed { key, old: was, new });
                assert(got(*s) =~= g + told(k, Some(was@), Some(new@), r@));
            } else {
                s.seen(key.as_slice());
                assert(got(*s) =~= g + Seq::<Difference>::empty());
            }
            proof {
                lemma_matched(m, ra, rb, r@, va, vb, g, last);
                align::lemma_line_matched(m, ra, rb, r@, va, vb, g, last, ids0);
                slots::lemma_mass_advanced(m, va);
                slots::lemma_mass_advanced(m, vb);
                assert(got(*s).take(g.len() as int) =~= g);
            }
            proof {
                lemma_told_listed(m, vb, g, Some(was@), r@, node::cids_of(s.new_blocks@));
                lemma_advanced_on(vb);
                lemma_on_listed(vb, slots::advanced(vb), node::cids_of(s.new_blocks@));
            }
            a.advance();
            b.advance();
            return Ok(());
        },
    };
    proof {
        if open_a {
            assert(align::may_open(va, vb));
            align::lemma_line_open_a(m, ra, rb, r@, va, vb, g, last, ids0);
        }
        if open_b {
            assert(align::may_open(vb, va));
            align::lemma_line_open_b(m, ra, rb, r@, va, vb, g, last, ids0);
        }
    }
    if open_a {
        match a.descend() {
            Err(e) => return Err(e),
            Ok(_) => {},
        }
        proof {
            lemma_opened_a(m, ra, rb, r@, va, vb, g, last);
            slots::lemma_mass_descended(m, va);
            slots::lemma_descended_key(m, va);
        }
    }
    if open_b {
        match b.descend() {
            Err(e) => return Err(e),
            Ok(id) => {
                let ghost ids = node::cids_of(s.new_blocks@);
                s.new_blocks.push(id);
                proof {
                    assert(node::cids_of(s.new_blocks@) =~= ids.push(id@));
                    lemma_descended_listed(m, vb, b@, g, ids);
                }
            },
        }
        proof {
            lemma_opened_b(m, ra, rb, r@, a@, vb, g, last);
            slots::lemma_mass_descended(m, vb);
        }
    }
    Ok(())
}

/// No page holds more than the limits allow.
pub open spec fn within_limits(ds: Seq<Difference>, r: RangeView) -> bool {
    forall|j: int| 0 <= j < ds.len() ==> !full(#[trigger] ds.take(j), r)
}

/// One more difference, where there was room.
proof fn lemma_limits_more(a: Seq<Difference>, b: Seq<Difference>, r: RangeView)
    requires
        within_limits(a, r),
        !full(a, r),
        a.len() <= b.len() <= a.len() + 1,
        b.take(a.len() as int) == a,
    ensures
        within_limits(b, r),
{
    assert forall|j: int| 0 <= j < b.len() implies !full(#[trigger] b.take(j), r) by {
        if j < a.len() {
            assert(b.take(j) =~= a.take(j));
        } else {
            assert(b.take(j) =~= a);
        }
    }
}

/// The merge. Every read it makes is a comparison that failed or a position that had
/// to be reached.
#[verifier::rlimit(60)]
#[verifier::spinoff_prover]
fn run<'a, B: Blocks>(
    s: &mut State<'a>,
    r: &Range,
    ca: &mut SlotCursor<'a, B>,
    cb: &mut SlotCursor<'a, B>,
    Ghost(ra): Ghost<Seq<u8>>,
    Ghost(rb): Ghost<Seq<u8>>,
) -> (x: Result<(), ReadError>)
    requires
        old(ca).wf(),
        old(cb).wf(),
        old(ca).source() == old(cb).source(),
        weighs(old(s).bytes, got(*old(s))),
        path_listed(old(cb)@, node::cids_of(old(s).new_blocks@)),
        leaves_listed(old(ca).source(), got(*old(s)), node::cids_of(old(s).new_blocks@)),
        within_limits(got(*old(s)), r@),
        !old(s).stopped,
        on_track(
            old(ca).source(),
            ra,
            rb,
            r@,
            old(ca)@,
            old(cb)@,
            got(*old(s)),
            last_of(*old(s)),
        ),
        align::lined_up(
            old(ca).source(),
            ra,
            rb,
            r@,
            old(ca)@,
            old(cb)@,
            node::cids_of(old(s).new_blocks@),
        ),
    ensures
        final(ca).wf(),
        final(cb).wf(),
        final(ca).source() == old(ca).source(),
        final(cb).source() == old(ca).source(),
        final(s).need == old(s).need,
        leaves_listed(old(ca).source(), got(*final(s)), node::cids_of(final(s).new_blocks@)),
        within_limits(got(*final(s)), r@),
        on_track(
            old(ca).source(),
            ra,
            rb,
            r@,
            final(ca)@,
            final(cb)@,
            got(*final(s)),
            last_of(*final(s)),
        ),
        align::lined_up(
            old(ca).source(),
            ra,
            rb,
            r@,
            final(ca)@,
            final(cb)@,
            node::cids_of(final(s).new_blocks@),
        ),
        exists|n: nat|
            {
                let u = #[trigger] merge::after(
                    old(ca).source(),
                    r@,
                    merged(*old(s), old(ca)@, old(cb)@),
                    n,
                );
                let end = merged(*final(s), final(ca)@, final(cb)@);
                match x {
                    Ok(_) => u == end && merge::turn(old(ca).source(), r@, u) == (if final(s).stopped {
                        Turn::Full
                    } else {
                        Turn::Over
                    }),
                    Err(e) => merge::turn(old(ca).source(), r@, u) == Turn::Stuck(end, e@),
                }
            },
        match x {
            Ok(_) => {
                &&& final(s).stopped <==> full(got(*final(s)), r@)
                &&& !final(s).stopped ==> final(ca)@.done && final(cb)@.done
            },
            Err(e) => {
                &&& !final(s).stopped
                &&& !full(got(*final(s)), r@)
                &&& halts(old(ca).source(), ra, rb, r@, final(ca)@, final(cb)@, e@) || halts(
                    old(ca).source(),
                    ra,
                    rb,
                    r@,
                    final(cb)@,
                    final(ca)@,
                    e@,
                )
            },
        },
{
    let ghost m = ca.source();
    let ghost from = merged(*s, ca@, cb@);
    let ghost mut n: nat = 0;
    loop
        invariant
            from == merged(*old(s), old(ca)@, old(cb)@),
            merge::after(m, r@, from, n) == merged(*s, ca@, cb@),
            ca.wf(),
            cb.wf(),
            ca.source() == m,
            cb.source() == m,
            m == old(ca).source(),
            weighs(s.bytes, got(*s)),
            within_limits(got(*s), r@),
            !s.stopped,
            s.need == old(s).need,
            path_listed(cb@, node::cids_of(s.new_blocks@)),
            leaves_listed(m, got(*s), node::cids_of(s.new_blocks@)),
            on_track(m, ra, rb, r@, ca@, cb@, got(*s), last_of(*s)),
            align::lined_up(m, ra, rb, r@, ca@, cb@, node::cids_of(s.new_blocks@)),
        decreases slots::mass(m, ca@) + slots::mass(m, cb@),
    {
        if s.full(r) {
            let ghost before = merged(*s, ca@, cb@);
            s.stopped = true;
            proof {
                reveal(merge::turn);
                assert(merged(*s, ca@, cb@) == before);
                assert(merge::turn(m, r@, merge::after(m, r@, from, n)) == Turn::Full);
            }
            return Ok(());
        }
        let ghost g = got(*s);
        let ghost last = last_of(*s);
        let ghost ids = node::cids_of(s.new_blocks@);
        let ghost va0 = ca@;
        let ghost vb0 = cb@;
        trim(ca, r);
        let ghost va = ca@;
        proof {
            align::lemma_line_trim_a(m, ra, rb, r@, va0, va, vb0, g, last, ids);
            lemma_trimmed_a(m, ra, rb, r@, va0, va, vb0, g, last);
        }
        trim(cb, r);
        let ghost vb = cb@;
        proof {
            align::lemma_line_trim_b(m, ra, rb, r@, va, vb0, vb, g, last, ids);
            lemma_trimmed_b(m, ra, rb, r@, va, vb0, vb, g, last);
            lemma_on_listed(vb0, vb, ids);
            ca.lemma_wf();
            cb.lemma_wf();
            assert(g.take(g.len() as int) =~= g);
            n = merge::lemma_skips(m, r@, from, n, va, vb);
            assert(merge::after(m, r@, from, n) == merged(*s, va, vb));
        }
        let ghost here = merged(*s, va, vb);
        let a_live = !ca.finished();
        let b_live = !cb.finished();
        if !a_live && !b_live {
            proof {
                reveal(merge::turn);
                assert(merge::turn(m, r@, merge::after(m, r@, from, n)) == Turn::Over);
            }
            return Ok(());
        }
        let (a_leads, b_leads) = if !b_live {
            (true, false)
        } else if !a_live {
            (false, true)
        } else {
            match order::side(ca.key().as_slice(), cb.key().as_slice()) {
                order::Side::Less => (true, false),
                order::Side::Greater => (false, true),
                order::Side::Equal => (false, false),
            }
        };
        proof {
            order::lemma_lt_total(slots::key_of(va), slots::key_of(vb));
            lemma_turns(m, r@, here, a_leads, b_leads);
        }
        proof {
            if a_leads && slots::place_of(va) is Sub {
                align::lemma_line_open_a(m, ra, rb, r@, va, vb, g, last, ids);
            }
            if b_leads && slots::place_of(vb) is Sub {
                align::lemma_line_open_b(m, ra, rb, r@, va, vb, g, last, ids);
            }
        }
        if a_leads {
            match drain(s, r, ca, false) {
                Err(e) => {
                    assert(merged(*s, ca@, cb@) == here);
                    assert(merge::turn(m, r@, merge::after(m, r@, from, n)) == Turn::Stuck(
                        here,
                        e@,
                    ));
                    return Err(e);
                },
                Ok(_) => {},
            }
            proof {
                assert(merge::turn(m, r@, here) == Turn::On(merged(*s, ca@, cb@)));
                merge::lemma_after_next(m, r@, from, n, merged(*s, ca@, cb@));
                n = n + 1;
                match slots::place_of(va) {
                    Place::Entry(p) => {
                        lemma_drained_a(m, ra, rb, r@, va, vb, g, last);
                        align::lemma_line_drain_a(m, ra, rb, r@, va, vb, g, last, ids);
                        lemma_gone_listed(m, slots::key_of(va), p, g, r@, ids);
                        slots::lemma_mass_advanced(m, va);
                        assert(got(*s).take(g.len() as int) =~= g);
                    },
                    Place::Sub { .. } => {
                        lemma_opened_a(m, ra, rb, r@, va, vb, g, last);
                        slots::lemma_mass_descended(m, va);
                    },
                }
                lemma_limits_more(g, got(*s), r@);
            }
        } else if b_leads {
            match drain(s, r, cb, true) {
                Err(e) => {
                    assert(merged(*s, ca@, cb@) == here);
                    assert(merge::turn(m, r@, merge::after(m, r@, from, n)) == Turn::Stuck(
                        here,
                        e@,
                    ));
                    return Err(e);
                },
                Ok(_) => {},
            }
            proof {
                assert(merge::turn(m, r@, here) == Turn::On(merged(*s, ca@, cb@)));
                merge::lemma_after_next(m, r@, from, n, merged(*s, ca@, cb@));
                n = n + 1;
                match slots::place_of(vb) {
                    Place::Entry(p) => {
                        lemma_drained_b(m, ra, rb, r@, va, vb, g, last);
                        align::lemma_line_drain_b(m, ra, rb, r@, va, vb, g, last, ids);
                        lemma_told_listed(m, vb, g, None, r@, ids);
                        lemma_advanced_on(vb);
                        lemma_on_listed(vb, cb@, ids);
                        slots::lemma_mass_advanced(m, vb);
                        assert(got(*s).take(g.len() as int) =~= g);
                    },
                    Place::Sub { .. } => {
                        lemma_opened_b(m, ra, rb, r@, va, vb, g, last);
                        lemma_descended_listed(m, vb, cb@, g, ids);
                        slots::lemma_mass_descended(m, vb);
                    },
                }
                lemma_limits_more(g, got(*s), r@);
            }
        } else {
            match step_together(s, r, ca, cb, Ghost(ra), Ghost(rb)) {
                Err(e) => {
                    assert(merge::turn(m, r@, merge::after(m, r@, from, n)) == Turn::Stuck(
                        merged(*s, ca@, cb@),
                        e@,
                    ));
                    return Err(e);
                },
                Ok(_) => {},
            }
            proof {
                merge::lemma_after_next(m, r@, from, n, merged(*s, ca@, cb@));
                n = n + 1;
                lemma_limits_more(g, got(*s), r@);
            }
        }
    }
}

/// What a merge does where nothing is left to skip: the side that leads is drained.
proof fn lemma_turns(m: BlockMap, r: RangeView, s: Merge, a_leads: bool, b_leads: bool)
    requires
        !full(s.got, r),
        s.a.done || !merge::outside(s.a, r),
        s.b.done || !merge::outside(s.b, r),
        !s.a.done || !s.b.done,
        a_leads == (s.b.done || (!s.a.done && order::lt(
            slots::key_of(s.a),
            slots::key_of(s.b),
        ))),
        b_leads == (!a_leads && (s.a.done || order::lt(slots::key_of(s.b), slots::key_of(s.a)))),
    ensures
        merge::turn(m, r, s) == if a_leads {
            merge::drained(m, r, s, false)
        } else if b_leads {
            merge::drained(m, r, s, true)
        } else {
            merge::met(m, r, s)
        },
{
    reveal(merge::turn);
}

// ---------------------------------------------------------------------------
// what is missing
// ---------------------------------------------------------------------------

/// Does a node the store holds record this id as its child `i`?
pub open spec fn records(m: BlockMap, cid: Seq<u8>, i: int, id: Seq<u8>) -> bool {
    store::loaded(m, cid) matches Ok(n) && n.level > 0 && 0 <= i < n.rows.len()
        && store::child_cid(n.rows[i]) == id
}

/// Is this id one of the two roots, or a child that a held node records?
pub open spec fn named(m: BlockMap, a: Seq<u8>, b: Seq<u8>, id: Seq<u8>) -> bool {
    id == a || id == b || exists|cid: Seq<u8>, i: int| #[trigger] records(m, cid, i, id)
}

/// Blocks to ask for: each a root or recorded by a held node, none of them held, none
/// twice, and not too many.
///
/// And in every store where both trees are whole, each is a root or a node of one of the
/// trees, and not one that both trees have within the range.
pub open spec fn wanted(
    m: BlockMap,
    a: Seq<u8>,
    b: Seq<u8>,
    r: RangeView,
    need: Seq<Seq<u8>>,
) -> bool {
    &&& need.len() <= MAX_NEED
    &&& forall|i: int| 0 <= i < need.len() ==> align::asked_for(m, a, b, r, #[trigger] need[i])
    &&& forall|i: int| 0 <= i < need.len() ==> named(m, a, b, #[trigger] need[i])
    &&& need.no_duplicates()
    &&& forall|i: int| 0 <= i < need.len() ==> !m.contains_key(#[trigger] need[i])
}

/// Ask for a block, at most so many and each once.
fn push_need(
    need: &mut Vec<Cid>,
    id: &Cid,
    Ghost(m): Ghost<BlockMap>,
    Ghost(ra): Ghost<Seq<u8>>,
    Ghost(rb): Ghost<Seq<u8>>,
    Ghost(rr): Ghost<RangeView>,
)
    requires
        wanted(m, ra, rb, rr, node::cids_of(old(need)@)),
        !m.contains_key(id@),
        named(m, ra, rb, id@),
        align::asked_for(m, ra, rb, rr, id@),
    ensures
        wanted(m, ra, rb, rr, node::cids_of(final(need)@)),
        final(need)@.len() >= old(need)@.len(),
        final(need)@.len() > 0,
        node::cids_of(final(need)@) == merge::asks(node::cids_of(old(need)@), id@),
        final(need)@[0]@ == if old(need)@.len() > 0 {
            old(need)@[0]@
        } else {
            id@
        },
{
    let ghost before = node::cids_of(need@);
    assert(before.len() == need@.len());
    if need.len() < MAX_NEED && !has_id(need, id) {
        need.push(*id);
        let ghost after = node::cids_of(need@);
        assert(after =~= before.push(id@));
        assert forall|i: int, j: int| 0 <= i < j < after.len() implies after[i] != after[j] by {
            if j == before.len() {
                assert(before.contains(before[i]));
            }
        }
    } else if need.len() == 0 {
        assert(!before.contains(id@));
    }
}

/// Is an id among the children of a node?
fn names<'a>(n: &Node<'a>, id: &Cid) -> (r: bool)
    requires
        n@.level > 0,
    ensures
        r == merge::is_child(n@, id@),
{
    let k = n.len();
    n.known_valid();
    let mut i: usize = 0;
    while i < k
        invariant
            i <= k,
            k == n@.rows.len(),
            n@.level > 0,
            forall|j: int|
                0 <= j < n@.rows.len() ==> node::row_fits(n@.level, #[trigger] n@.rows[j]),
            forall|j: int| 0 <= j < i ==> store::child_cid(#[trigger] n@.rows[j]) != id@,
        decreases k - i,
    {
        assert(node::row_fits(n@.level, n@.rows[i as int]));
        let (cid, _) = n.child(i);
        if order::same(cid.as_slice(), id.as_slice()) {
            return true;
        }
        i = i + 1;
    }
    false
}

/// Name a child of `n` that is missing, absent from `other`, and no further than `hi`.
fn name_child<'a, B: Blocks>(
    blocks: &B,
    need: &mut Vec<Cid>,
    n: &Node<'a>,
    i: usize,
    other: &Node<'a>,
    hi: &[u8],
    r: &Range,
    Ghost(cid): Ghost<Seq<u8>>,
    Ghost(ra): Ghost<Seq<u8>>,
    Ghost(rb): Ghost<Seq<u8>>,
    Ghost(from): Ghost<int>,
)
    requires
        align::siblings_asked(blocks.held(), ra, rb, r@, n@, from, other@, hi@),
        from <= i,
        n@.level > 0,
        other@.level > 0,
        i < n@.rows.len(),
        store::loaded(blocks.held(), cid) == Ok::<NodeView, Fault>(n@),
        wanted(blocks.held(), ra, rb, r@, node::cids_of(old(need)@)),
    ensures
        wanted(blocks.held(), ra, rb, r@, node::cids_of(final(need)@)),
        final(need)@.len() >= old(need)@.len(),
        old(need)@.len() > 0 ==> final(need)@[0]@ == old(need)@[0]@,
        node::cids_of(final(need)@) == merge::with_child(
            blocks.held(),
            r@,
            n@,
            i as int,
            other@,
            hi@,
            node::cids_of(old(need)@),
        ),
{
    let key = n.key(i);
    if !order::before(hi, key.as_slice()) && below_hi(key.as_slice(), &r.hi) {
        let (id, _) = n.child(i);
        if blocks.get(&id).is_none() && !names(other, &id) {
            n.known_valid();
            assert(node::row_fits(n@.level, n@.rows[i as int]));
            assert(records(blocks.held(), cid, i as int, id@));
            proof {
                reveal(align::siblings_asked);
                order::lemma_le_trans(n@.rows[i as int].key, hi@, hi@);
            }
            push_need(need, &id, Ghost(blocks.held()), Ghost(ra), Ghost(rb), Ghost(r@));
        }
    }
}

/// Name the children of two nodes, from a slot of each on, in scan order.
fn name_children<'a, B: Blocks>(
    blocks: &B,
    need: &mut Vec<Cid>,
    an: &Node<'a>,
    from_a: usize,
    bn: &Node<'a>,
    from_b: usize,
    hi: &[u8],
    r: &Range,
    Ghost(ca): Ghost<Seq<u8>>,
    Ghost(cb): Ghost<Seq<u8>>,
    Ghost(ra): Ghost<Seq<u8>>,
    Ghost(rb): Ghost<Seq<u8>>,
)
    requires
        align::siblings_asked(blocks.held(), ra, rb, r@, an@, from_a as int, bn@, hi@),
        align::siblings_asked(blocks.held(), ra, rb, r@, bn@, from_b as int, an@, hi@),
        an@.level > 0,
        bn@.level > 0,
        store::loaded(blocks.held(), ca) == Ok::<NodeView, Fault>(an@),
        store::loaded(blocks.held(), cb) == Ok::<NodeView, Fault>(bn@),
        wanted(blocks.held(), ra, rb, r@, node::cids_of(old(need)@)),
    ensures
        wanted(blocks.held(), ra, rb, r@, node::cids_of(final(need)@)),
        final(need)@.len() >= old(need)@.len(),
        old(need)@.len() > 0 ==> final(need)@[0]@ == old(need)@[0]@,
        from_a <= an@.rows.len() && from_b <= bn@.rows.len() ==> node::cids_of(final(need)@)
            == merge::with_children(
            blocks.held(),
            r@,
            an@,
            from_a as int,
            bn@,
            from_b as int,
            hi@,
            node::cids_of(old(need)@),
        ),
{
    let ka = an.len();
    let kb = bn.len();
    let mut i: usize = if from_a < ka {
        from_a
    } else {
        ka
    };
    let mut j: usize = if from_b < kb {
        from_b
    } else {
        kb
    };
    while i < ka || j < kb
        invariant
            i <= ka,
            j <= kb,
            i < ka ==> from_a <= i,
            j < kb ==> from_b <= j,
            align::siblings_asked(blocks.held(), ra, rb, r@, an@, from_a as int, bn@, hi@),
            align::siblings_asked(blocks.held(), ra, rb, r@, bn@, from_b as int, an@, hi@),
            old(need)@.len() > 0 ==> need@[0]@ == old(need)@[0]@,
            ka == an@.rows.len(),
            kb == bn@.rows.len(),
            an@.level > 0,
            bn@.level > 0,
            store::loaded(blocks.held(), ca) == Ok::<NodeView, Fault>(an@),
            store::loaded(blocks.held(), cb) == Ok::<NodeView, Fault>(bn@),
            wanted(blocks.held(), ra, rb, r@, node::cids_of(need@)),
            need@.len() >= old(need)@.len(),
            from_a <= ka && from_b <= kb ==> merge::with_children(
                blocks.held(),
                r@,
                an@,
                i as int,
                bn@,
                j as int,
                hi@,
                node::cids_of(need@),
            ) == merge::with_children(
                blocks.held(),
                r@,
                an@,
                from_a as int,
                bn@,
                from_b as int,
                hi@,
                node::cids_of(old(need)@),
            ),
        decreases (ka - i) + (kb - j),
    {
        let take_a = j == kb || (i < ka && !order::before(
            bn.key(j).as_slice(),
            an.key(i).as_slice(),
        ));
        if take_a {
            name_child(
                blocks,
                need,
                an,
                i,
                bn,
                hi,
                r,
                Ghost(ca),
                Ghost(ra),
                Ghost(rb),
                Ghost(from_a as int),
            );
            i = i + 1;
        } else {
            name_child(
                blocks,
                need,
                bn,
                j,
                an,
                hi,
                r,
                Ghost(cb),
                Ghost(ra),
                Ghost(rb),
                Ghost(from_b as int),
            );
            j = j + 1;
        }
    }
}

/// A node on a cursor's path is held.
proof fn lemma_path_node(m: BlockMap, v: SlotView, n: NodeView, taken: int) -> (i: int)
    requires
        slots::placed(m, v),
        exists|i: int|
            0 <= i < v.path.len() && (#[trigger] v.path[i]).held.node == n && v.path[i].taken
                == taken,
    ensures
        0 <= i < v.path.len(),
        v.path[i].held.node == n,
        v.path[i].taken == taken,
        store::loaded(m, v.path[i].cid) == Ok::<NodeView, Fault>(n),
{
    let i = choose|i: int|
        0 <= i < v.path.len() && (#[trigger] v.path[i]).held.node == n && v.path[i].taken == taken;
    if i > 0 {
        let up = v.path[i - 1];
        assert(crate::cursor::links(m, up, v.path[i]));
    }
    i
}

/// Fill `need` with the blocks of both trees that the position which stopped can
/// already name: at the level the two sides can be compared at, the children whose ids
/// are absent from the other side's child ids, over the span the two parents share.
/// That is exactly what lies on a differing path, and enough to fill a round with
/// siblings. They are named in scan order: what the next page opens first comes first.
#[verifier::rlimit(60)]
#[verifier::spinoff_prover]
fn name_siblings<'a, B: Blocks>(
    blocks: &B,
    need: &mut Vec<Cid>,
    r: &Range,
    a: &SlotCursor<'a, B>,
    b: &SlotCursor<'a, B>,
    Ghost(ra): Ghost<Seq<u8>>,
    Ghost(rb): Ghost<Seq<u8>>,
    Ghost(g): Ghost<Seq<Difference>>,
    Ghost(last): Ghost<Option<Seq<u8>>>,
    Ghost(ids): Ghost<Seq<Seq<u8>>>,
)
    requires
        on_track(blocks.held(), ra, rb, r@, a@, b@, g, last),
        align::lined_up(blocks.held(), ra, rb, r@, a@, b@, ids),
        a.wf(),
        b.wf(),
        a.source() == blocks.held(),
        b.source() == blocks.held(),
        wanted(blocks.held(), ra, rb, r@, node::cids_of(old(need)@)),
    ensures
        wanted(blocks.held(), ra, rb, r@, node::cids_of(final(need)@)),
        final(need)@.len() >= old(need)@.len(),
        old(need)@.len() > 0 ==> final(need)@[0]@ == old(need)@[0]@,
        node::cids_of(final(need)@) == merge::with_siblings(
            blocks.held(),
            r@,
            a@,
            b@,
            node::cids_of(old(need)@),
        ),
{
    if a.finished() || b.finished() {
        return;
    }
    proof {
        a.lemma_wf();
        b.lemma_wf();
    }
    let la = a.parent().0.level();
    let lb = b.parent().0.level();
    let level = if la > lb {
        la
    } else {
        lb
    };
    if level == 0 {
        return;
    }
    if let (Some((an, ai)), Some((bn, bi))) = (a.node_at_level(level), b.node_at_level(level)) {
        an.known_valid();
        bn.known_valid();
        let x = an.key(an.len() - 1);
        let y = bn.key(bn.len() - 1);
        let lower = order::before(x.as_slice(), y.as_slice());
        let hi = if lower {
            vstd::slice::slice_to_vec(x.as_slice())
        } else {
            vstd::slice::slice_to_vec(y.as_slice())
        };
        let ghost mut ca: Seq<u8> = Seq::empty();
        let ghost mut cb: Seq<u8> = Seq::empty();
        proof {
            let i = lemma_path_node(blocks.held(), a@, an@, ai as int);
            let j = lemma_path_node(blocks.held(), b@, bn@, bi as int);
            ca = a@.path[i].cid;
            cb = b@.path[j].cid;
            order::lemma_lt_total(x@, y@);
            order::lemma_le_trans(hi@, x@, x@);
            order::lemma_le_trans(hi@, y@, y@);
            align::lemma_siblings(
                blocks.held(),
                ra,
                rb,
                r@,
                a@,
                b@,
                g,
                last,
                ids,
                i,
                j,
                hi@,
            );
        }
        name_children(
            blocks,
            need,
            an,
            ai,
            bn,
            bi,
            hi.as_slice(),
            r,
            Ghost(ca),
            Ghost(cb),
            Ghost(ra),
            Ghost(rb),
        );
    }
}

// ---------------------------------------------------------------------------
// the diff
// ---------------------------------------------------------------------------

/// The range instruction a diff has no answer for.
pub open spec fn unsupported(r: RangeView) -> Option<Seq<char>> {
    if r.reverse {
        Some("reverse"@)
    } else if r.after is Some {
        Some("after — use the Resume token, or lo"@)
    } else {
        None
    }
}

/// A copy of a range with its low end moved up.
fn tighten(r: &Range, after: Option<&[u8]>) -> (t: Range)
    ensures
        t@ == tightened(
            r@,
            match after {
                None => None,
                Some(x) => Some(x@),
            },
        ),
{
    let past = match (&r.lo, after) {
        (Bound::Included(k), Some(x)) => order::before(x, k.as_slice()),
        (Bound::Excluded(k), Some(x)) => order::before(x, k.as_slice()),
        _ => false,
    };
    let mut t = range::copy_range(r);
    if let Some(x) = after {
        if !past {
            t.lo = Bound::Excluded(vstd::slice::slice_to_vec(x));
        }
    }
    t
}

/// Where a page carries on.
pub open spec fn next_of(p: Option<Resume>) -> Option<Seq<u8>> {
    match p {
        None => None,
        Some(n) => Some(n.after@),
    }
}

/// The key an earlier page stopped at.
pub open spec fn resumed(resume: Option<&Resume>) -> Option<Seq<u8>> {
    match resume {
        None => None,
        Some(n) => Some(n.after@),
    }
}

/// Is a token, if there is one, of these roots?
pub open spec fn token_fits(resume: Option<&Resume>, a: Seq<u8>, b: Seq<u8>) -> bool {
    resume matches Some(t) ==> t.a@ == a && t.b@ == b
}

/// What a page of the differences from `a` to `b` says.
pub open spec fn page_says(
    m: BlockMap,
    a: Seq<u8>,
    b: Seq<u8>,
    r: RangeView,
    resume: Option<Seq<u8>>,
    page: DiffPage<'_>,
) -> bool {
    let need = node::cids_of(page.need@);
    let got = changes_of(page.changes@);
    let next = next_of(page.next);
    // what it asks for is missing; where nothing is missing it asks for nothing
    &&& wanted(m, a, b, tightened(r, resume), need)
    &&& completes(m, m, a, b) ==> need.len() == 0
    // a token of these roots
    &&& page.next matches Some(n) ==> n.a@ == a && n.b@ == b
    // a page that could decide nothing stays where it was
    &&& need.len() > 0 && got.len() == 0 && next is None ==> resume is None
    // the leaf of every entry that was added or changed is listed
    &&& leaves_listed(m, got, node::cids_of(page.new_blocks@))
    // and whatever turns up, it holds of the two trees
    &&& forall|w: BlockMap| #[trigger]
        completes(w, m, a, b) ==> answers(
            got,
            next,
            need.len() > 0,
            delta(tree::items(w, a), tree::items(w, b), tightened(r, resume)),
            tightened(r, resume),
        )
    // the nodes it opened are nodes of the new tree, and none of them one that both have
    // within the range; a whole diff opens all that the old tree has not
    &&& forall|w: BlockMap| #[trigger]
        completes(w, m, a, b) ==> {
            let ids = node::cids_of(page.new_blocks@);
            &&& align::all_new(w, a, b, tightened(r, resume), ids)
            &&& align::unbounded(tightened(r, resume)) && need.len() == 0 && next is None
                && tree::items(w, b).len() > 0 ==> align::exactly_new(w, a, b, ids)
        }
    // and where it stops on a missing node, it told all there is before that node
    &&& need.len() > 0 && m.contains_key(a) && m.contains_key(b) ==> forall|w: BlockMap| #[trigger]
        completes(w, m, a, b) ==> reaches(
            w,
            need[0],
            got.len() as int,
            delta(tree::items(w, a), tree::items(w, b), tightened(r, resume)),
        )
}

/// Do the differences from `k` on begin no earlier than a node does?
pub open spec fn reaches(w: BlockMap, id: Seq<u8>, k: int, d: Seq<Difference>) -> bool {
    store::loaded(w, id) matches Ok(n) && n.rows.len() > 0 && forall|i: int|
        k <= i < d.len() ==> order::le(n.rows[0].key, (#[trigger] d[i]).key)
}

/// Where a merge is stuck, nothing that is left comes before the node it is stuck on.
proof fn lemma_reaches(
    m: BlockMap,
    w: BlockMap,
    a: Seq<u8>,
    b: Seq<u8>,
    r: RangeView,
    va: SlotView,
    vb: SlotView,
    g: Seq<Difference>,
    last: Option<Seq<u8>>,
    ids: Seq<Seq<u8>>,
    f: Fault,
)
    requires
        completes(w, m, a, b),
        on_track(m, a, b, r, va, vb, g, last),
        align::lined_up(m, a, b, r, va, vb, ids),
        slots::placed(m, va),
        slots::placed(m, vb),
        halts(m, a, b, r, va, vb, f) || halts(m, a, b, r, vb, va, f),
    ensures
        ({
            let v = if halts(m, a, b, r, va, vb, f) {
                va
            } else {
                vb
            };
            reaches(
                w,
                slots::place_of(v)->id,
                g.len() as int,
                delta(tree::items(w, a), tree::items(w, b), r),
            )
        }),
{
    reveal(on_track);
    let first = halts(m, a, b, r, va, vb, f);
    let v = if first {
        va
    } else {
        vb
    };
    let k = slots::key_of(v);
    align::lemma_stuck_slot(m, w, a, b, r, va, vb, ids, first);
    let la = slots::left(w, va);
    let lb = slots::left(w, vb);
    assert(course(w, a, b, r, va, vb, g, last));
    if !va.done {
        slots::lemma_left_first(m, w, va);
    }
    if !vb.done {
        slots::lemma_left_first(m, w, vb);
    }
    lemma_delta_from(la, lb, r, k);
    let d = delta(tree::items(w, a), tree::items(w, b), r);
    let rest = delta(la, lb, r);
    assert forall|i: int| g.len() <= i < d.len() implies order::le(k, (#[trigger] d[i]).key) by {
        assert(d[i] == rest[i - g.len()]);
    }
}

/// The differences of lists that begin no earlier than a key begin no earlier.
proof fn lemma_delta_from(a: Seq<Item>, b: Seq<Item>, r: RangeView, lo: Seq<u8>)
    requires
        tree::ascending(a),
        tree::ascending(b),
        a.len() > 0 ==> order::le(lo, a[0].key),
        b.len() > 0 ==> order::le(lo, b[0].key),
    ensures
        forall|i: int| 0 <= i < delta(a, b, r).len() ==> order::le(lo, (#[trigger] delta(a, b, r)[i]).key),
    decreases a.len() + b.len(),
{
    if a.len() > 0 || b.len() > 0 {
        let (x, y) = if leads(a, b) {
            (a.skip(1), b)
        } else if a.len() == 0 || order::lt(b[0].key, a[0].key) {
            (a, b.skip(1))
        } else {
            (a.skip(1), b.skip(1))
        };
        if a.len() > 0 {
            lemma_ascending_skip(a, 1);
            if a.len() > 1 {
                assert(order::lt(a[0].key, a[1].key));
                assert(a.skip(1)[0] == a[1]);
                order::lemma_le_trans(lo, a[0].key, a[1].key);
            }
        }
        if b.len() > 0 {
            lemma_ascending_skip(b, 1);
            if b.len() > 1 {
                assert(order::lt(b[0].key, b[1].key));
                assert(b.skip(1)[0] == b[1]);
                order::lemma_le_trans(lo, b[0].key, b[1].key);
            }
        }
        lemma_delta_from(x, y, r, lo);
        let d = delta(a, b, r);
        let e = delta(x, y, r);
        let k = d.len() - e.len();
        assert forall|i: int| 0 <= i < d.len() implies order::le(lo, (#[trigger] d[i]).key) by {
            if i >= k {
                assert(d[i] == e[i - k]);
            }
        }
    }
}

/// Does a cursor stand at the start of a tree, in every larger store?
spec fn starts(m: BlockMap, root: Seq<u8>, v: SlotView) -> bool {
    forall|w: BlockMap| #[trigger]
        m.submap_of(w) ==> slots::left(w, v) == tree::items(w, root)
}

/// A root loads alike in a larger store.
pub proof fn lemma_root_grows(m: BlockMap, w: BlockMap, root: Seq<u8>)
    requires
        m.submap_of(w),
        m.contains_key(root),
    ensures
        store::loaded(w, root) == store::loaded(m, root),
{
    reveal(store::loaded);
    assert(m.dom().contains(root));
    assert(w.dom().contains(root));
}

/// A tree whose root cannot be opened is not whole.
pub proof fn lemma_gap_root(w: BlockMap, root: Seq<u8>)
    requires
        store::loaded(w, root) is Err,
    ensures
        !tree::complete(w, root),
{
    let s = tree::root_slot(w, root);
    assert(tree::leaves(w, root) =~= seq![s]);
    tree::lemma_flat_one(s);
    assert(tree::items(w, root)[0].what is Err);
}

/// A root that is held and is no node stays so.
proof fn lemma_bad_root(m: BlockMap, a: Seq<u8>, b: Seq<u8>, x: Seq<u8>)
    requires
        x == a || x == b,
        store::loaded(m, x) is Err,
        !(store::loaded(m, x)->Err_0 is Need),
    ensures
        forall|w: BlockMap| !#[trigger] completes(w, m, a, b),
{
    assert(m.contains_key(x)) by {
        reveal(store::loaded);
    }
    assert forall|w: BlockMap| !#[trigger] completes(w, m, a, b) by {
        if m.submap_of(w) {
            lemma_root_grows(m, w, x);
            lemma_gap_root(w, x);
        }
    }
}

/// Stand at the start of a tree. `None`, and the root asked for, where it is missing.
fn open_side<'a, B: Blocks>(
    blocks: &'a B,
    root: &Cid,
    need: &mut Vec<Cid>,
    Ghost(ra): Ghost<Seq<u8>>,
    Ghost(rb): Ghost<Seq<u8>>,
    Ghost(rr): Ghost<RangeView>,
) -> (x: Result<Option<SlotCursor<'a, B>>, ReadError>)
    requires
        root@ == ra || root@ == rb,
        wanted(blocks.held(), ra, rb, rr, node::cids_of(old(need)@)),
    ensures
        wanted(blocks.held(), ra, rb, rr, node::cids_of(final(need)@)),
        x is Ok ==> node::cids_of(final(need)@) == merge::with_root(
            blocks.held(),
            root@,
            node::cids_of(old(need)@),
        ),
        match x {
            Err(e) => store::loaded(blocks.held(), root@) == Err::<NodeView, Fault>(e@) && !(e@
                is Need),
            Ok(None) => merge::missing(blocks.held(), root@) && final(need)@.len() > 0
                && !blocks.held().contains_key(root@),
            Ok(Some(c)) => {
                &&& store::loaded(blocks.held(), root@) is Ok
                &&& c@ == merge::start(blocks.held(), root@)
                &&& c.wf()
                &&& c.source() == blocks.held()
                &&& starts(blocks.held(), root@, c@)
                &&& c@.at_root || c@.path.len() == 0
                &&& align::at_start(blocks.held(), root@, c@)
                &&& final(need)@ == old(need)@
            },
        },
{
    let ghost m = blocks.held();
    match SlotCursor::open(blocks, root) {
        Err(e) => match e {
            ReadError::Need(ids) => {
                proof {
                    reveal(store::loaded);
                    assert(node::cids_of(ids@) == seq![root@]);
                }
                proof {
                    reveal(align::asked_for);
                }
                push_need(need, root, Ghost(m), Ghost(ra), Ghost(rb), Ghost(rr));
                Ok(None)
            },
            other => Err(other),
        },
        Ok(None) => {
            let c = SlotCursor::nowhere(blocks);
            proof {
                assert forall|w: BlockMap| #[trigger] m.submap_of(w) implies slots::left(w, c@)
                    == tree::items(w, root@) by {
                    assert(m.contains_key(root@)) by {
                        reveal(store::loaded);
                    }
                    lemma_root_grows(m, w, root@);
                    tree::lemma_loaded(w, root@);
                    let s = tree::root_slot(w, root@);
                    tree::lemma_tree_slots(w, root@, 0);
                    tree::lemma_flat_one(s);
                    assert(tree::items(w, root@) =~= Seq::<Item>::empty());
                }
            }
            Ok(Some(c))
        },
        Ok(Some(c)) => {
            proof {
                assert forall|w: BlockMap| #[trigger] m.submap_of(w) implies slots::left(w, c@)
                    == tree::items(w, root@) by {
                    assert(m.contains_key(root@)) by {
                        reveal(store::loaded);
                    }
                    lemma_root_grows(m, w, root@);
                    let s = tree::root_slot(w, root@);
                    slots::lemma_all_items(w, s, c@.path[0].held);
                }
            }
            Ok(Some(c))
        },
    }
}

/// A merge at its start is on its way.
proof fn lemma_start(m: BlockMap, a: Seq<u8>, b: Seq<u8>, r: RangeView, va: SlotView, vb: SlotView)
    requires
        starts(m, a, va),
        starts(m, b, vb),
    ensures
        on_track(m, a, b, r, va, vb, Seq::empty(), None),
{
    reveal(on_track);
    assert forall|w: BlockMap| #[trigger] completes(w, m, a, b) implies course(
        w,
        a,
        b,
        r,
        va,
        vb,
        Seq::empty(),
        None,
    ) by {
        assert(m.submap_of(w));
        tree::law_keys_ascend(w, a);
        tree::law_keys_ascend(w, b);
        let d = delta(tree::items(w, a), tree::items(w, b), r);
        assert(Seq::<Difference>::empty() + d =~= d);
    }
}

/// Where a merge is stuck, the trees are not whole.
proof fn lemma_stuck_all(
    m: BlockMap,
    w: BlockMap,
    a: Seq<u8>,
    b: Seq<u8>,
    r: RangeView,
    va: SlotView,
    vb: SlotView,
    g: Seq<Difference>,
    last: Option<Seq<u8>>,
    f: Fault,
)
    requires
        on_track(m, a, b, r, va, vb, g, last),
        slots::placed(m, va),
        slots::placed(m, vb),
        stuck(m, va, f) || stuck(m, vb, f),
        f is Need ==> w == m,
    ensures
        !completes(w, m, a, b),
{
    reveal(on_track);
    if completes(w, m, a, b) {
        if stuck(m, va, f) {
            lemma_stuck(m, w, va);
        } else {
            lemma_stuck(m, w, vb);
        }
    }
}

/// What a merge is stuck on, where it is stuck on a missing block.
proof fn lemma_need_missing(m: BlockMap, va: SlotView, vb: SlotView, f: Fault)
    requires
        slots::placed(m, va),
        slots::placed(m, vb),
        stuck(m, va, f) || stuck(m, vb, f),
        f is Need,
    ensures
        f->Need_0.len() == 1,
        !m.contains_key(f->Need_0[0]),
        exists|cid: Seq<u8>, i: int| #[trigger] records(m, cid, i, f->Need_0[0]),
{
    let v = if stuck(m, va, f) {
        va
    } else {
        vb
    };
    let s = v.path.last();
    let k = v.path.len() - 1;
    let j = lemma_path_node(m, v, s.held.node, v.path[k].taken);
    assert(f->Need_0 == seq![store::child_cid(s.held.node.rows[s.taken])]) by {
        reveal(store::loaded);
    }
    assert(records(m, v.path[j].cid, s.taken, f->Need_0[0]));
    reveal(store::loaded);
}

/// Every difference lies in the range.
proof fn lemma_delta_within(a: Seq<Item>, b: Seq<Item>, r: RangeView)
    ensures
        forall|i: int|
            0 <= i < delta(a, b, r).len() ==> range::within((#[trigger] delta(a, b, r)[i]).key, r),
    decreases a.len() + b.len(),
{
    if a.len() > 0 || b.len() > 0 {
        let (x, y) = if leads(a, b) {
            (a.skip(1), b)
        } else if a.len() == 0 || order::lt(b[0].key, a[0].key) {
            (a, b.skip(1))
        } else {
            (a.skip(1), b.skip(1))
        };
        lemma_delta_within(x, y, r);
        let d = delta(a, b, r);
        let e = delta(x, y, r);
        let k = d.len() - e.len();
        assert forall|i: int| 0 <= i < d.len() implies range::within((#[trigger] d[i]).key, r) by {
            if i >= k {
                assert(d[i] == e[i - k]);
            }
        }
    }
}

/// A tightened range lies beyond the key it was tightened to.
proof fn lemma_tightened(r: RangeView, x: Seq<u8>, k: Seq<u8>)
    requires
        range::within(k, tightened(r, Some(x))),
    ensures
        order::lt(x, k),
{
    match r.lo {
        End::Open => {},
        End::At(e) => {
            if order::lt(x, e) && e != k {
                order::lemma_lt_trans(x, e, k);
            }
        },
        End::Past(e) => {
            if order::lt(x, e) {
                order::lemma_lt_trans(x, e, k);
            }
        },
    }
}

/// Nothing told yet is a prefix of whatever there is to tell.
proof fn lemma_nothing_yet(w: BlockMap, a: Seq<u8>, b: Seq<u8>, r: RangeView, prior: Option<Seq<u8>>)
    ensures
        ({
            let rr = tightened(r, prior);
            let d = delta(tree::items(w, a), tree::items(w, b), rr);
            answers(Seq::empty(), prior, true, d, rr)
        }),
{
    let rr = tightened(r, prior);
    let d = delta(tree::items(w, a), tree::items(w, b), rr);
    assert(d.take(0) =~= Seq::<Difference>::empty());
    lemma_delta_within(tree::items(w, a), tree::items(w, b), rr);
    if prior is Some {
        assert forall|i: int| 0 <= i < d.len() implies order::lt(
            prior->Some_0,
            (#[trigger] d[i]).key,
        ) by {
            lemma_tightened(r, prior->Some_0, d[i].key);
        }
    }
}

/// Where a merge ends, what was told answers.
proof fn lemma_answers(
    m: BlockMap,
    w: BlockMap,
    a: Seq<u8>,
    b: Seq<u8>,
    r: RangeView,
    va: SlotView,
    vb: SlotView,
    g: Seq<Difference>,
    last: Option<Seq<u8>>,
    prior: Option<Seq<u8>>,
    stopped: bool,
    waiting: bool,
)
    requires
        completes(w, m, a, b),
        on_track(m, a, b, tightened(r, prior), va, vb, g, last),
        within_limits(g, tightened(r, prior)),
        waiting ==> stopped,
        !waiting ==> (stopped <==> full(g, tightened(r, prior))),
        !stopped ==> va.done && vb.done,
    ensures
        ({
            let rr = tightened(r, prior);
            let next = if !stopped {
                None
            } else if last is Some {
                last
            } else {
                prior
            };
            let d = delta(tree::items(w, a), tree::items(w, b), rr);
            answers(g, next, waiting, d, rr)
        }),
{
    reveal(on_track);
    let rr = tightened(r, prior);
    let d = delta(tree::items(w, a), tree::items(w, b), rr);
    let rest = delta(slots::left(w, va), slots::left(w, vb), rr);
    let k = g.len() as int;
    assert(course(w, a, b, rr, va, vb, g, last));
    assert(d == g + rest);
    assert(d.take(k) =~= g);
    assert forall|j: int| 0 <= j < k implies !full(#[trigger] d.take(j), rr) by {
        assert(d.take(j) =~= g.take(j));
    }
    if !stopped {
        assert(rest =~= Seq::<Difference>::empty());
    }
    if last is Some {
        let x = last->Some_0;
        lemma_delta_keys(slots::left(w, va), slots::left(w, vb), rr, x);
        assert forall|i: int| 0 <= i < k implies order::le((#[trigger] d[i]).key, x) by {
            assert(d[i] == g[i]);
        }
        assert forall|i: int| k <= i < d.len() implies order::lt(x, (#[trigger] d[i]).key) by {
            assert(d[i] == rest[i - k]);
        }
    } else if prior is Some {
        lemma_nothing_yet(w, a, b, r, prior);
    }
}

/// A page that is full has told something.
proof fn lemma_full_told(
    m: BlockMap,
    w: BlockMap,
    a: Seq<u8>,
    b: Seq<u8>,
    r: RangeView,
    va: SlotView,
    vb: SlotView,
    g: Seq<Difference>,
    last: Option<Seq<u8>>,
)
    requires
        completes(w, m, a, b),
        on_track(m, a, b, r, va, vb, g, last),
    ensures
        full(g, r) ==> last is Some,
{
    reveal(on_track);
    assert(course(w, a, b, r, va, vb, g, last));
}

/// A page of differences as a mathematical value.
pub open spec fn sheet(page: DiffPage<'_>) -> Sheet {
    Sheet {
        changes: changes_of(page.changes@),
        next: next_of(page.next),
        need: node::cids_of(page.need@),
        new_blocks: node::cids_of(page.new_blocks@),
    }
}

/// The changes from `a` to `b` within `r`, in key order.
#[verifier::rlimit(60)]
#[verifier::spinoff_prover]
pub fn diff<'a, B: Blocks>(
    blocks: &'a B,
    a: &Cid,
    b: &Cid,
    r: &Range,
    resume: Option<&Resume>,
) -> (x: Result<DiffPage<'a>, DiffError>)
    ensures
        match x {
            Err(DiffError::Unsupported(s)) => unsupported(r@) == Some(s@),
            Err(DiffError::RootsChanged) => unsupported(r@) is None && !token_fits(
                resume,
                a@,
                b@,
            ),
            Err(DiffError::Read(e)) => {
                &&& unsupported(r@) is None
                &&& token_fits(resume, a@, b@)
                &&& a@ != b@
                &&& !(e@ is Need)
                &&& merge::fails(
                    blocks.held(),
                    a@,
                    b@,
                    tightened(r@, resumed(resume)),
                    e@,
                )
                &&& forall|w: BlockMap| !#[trigger] completes(w, blocks.held(), a@, b@)
            },
            Ok(page) => {
                &&& unsupported(r@) is None
                &&& token_fits(resume, a@, b@)
                &&& a@ == b@ ==> page.changes@.len() == 0 && page.next is None && page.need@.len()
                    == 0 && page.new_blocks@.len() == 0
                &&& a@ != b@ ==> page_says(blocks.held(), a@, b@, r@, resumed(resume), page)
                &&& a@ != b@ ==> merge::gives(
                    blocks.held(),
                    a@,
                    b@,
                    tightened(r@, resumed(resume)),
                    resumed(resume),
                    sheet(page),
                )
            },
        },
{
    if r.reverse {
        return Err(DiffError::Unsupported("reverse"));
    }
    if r.after.is_some() {
        // One resume mechanism: a range's own marker cannot carry the roots.
        return Err(DiffError::Unsupported("after — use the Resume token, or lo"));
    }
    let mut last: Option<Vec<u8>> = None;
    if let Some(t) = resume {
        if !order::same(t.a.as_slice(), a.as_slice()) || !order::same(
            t.b.as_slice(),
            b.as_slice(),
        ) {
            return Err(DiffError::RootsChanged);
        }
        last = Some(vstd::slice::slice_to_vec(t.after.as_slice()));
    }
    // Equal roots: nothing is read, not even the roots.
    if order::same(a.as_slice(), b.as_slice()) {
        return Ok(
            DiffPage {
                changes: Vec::new(),
                next: None,
                need: Vec::new(),
                new_blocks: Vec::new(),
            },
        );
    }
    // Carrying on is a tighter lower bound, so it goes through the same test as the
    // range itself.
    let tight = match resume {
        None => tighten(r, None),
        Some(t) => tighten(r, Some(t.after.as_slice())),
    };
    let ghost m = blocks.held();
    let ghost rr = tight@;
    let ghost prior = resumed(resume);
    assert(rr == tightened(r@, prior));
    let mut need: Vec<Cid> = Vec::new();
    assert(node::cids_of(need@) =~= Seq::<Seq<u8>>::empty());
    let ca = match open_side(blocks, a, &mut need, Ghost(a@), Ghost(b@), Ghost(rr)) {
        Err(e) => {
            proof {
                lemma_bad_root(m, a@, b@, a@);
            }
            return Err(DiffError::Read(e));
        },
        Ok(c) => c,
    };
    let cb = match open_side(blocks, b, &mut need, Ghost(a@), Ghost(b@), Ghost(rr)) {
        Err(e) => {
            proof {
                lemma_bad_root(m, a@, b@, b@);
            }
            return Err(DiffError::Read(e));
        },
        Ok(c) => c,
    };
    // A root that is not held is not an empty tree: nothing can be decided.
    if let (Some(mut ca), Some(mut cb)) = (ca, cb) {
        let mut s = State {
            changes: Vec::new(),
            need,
            new_blocks: Vec::new(),
            bytes: 0,
            last: None,
            stopped: false,
        };
        proof {
            assert(got(s) =~= Seq::<Difference>::empty());
            assert(path_listed(cb@, node::cids_of(s.new_blocks@))) by {
                reveal(path_listed);
            }
            assert(leaves_listed(m, got(s), node::cids_of(s.new_blocks@))) by {
                reveal(leaves_listed);
            }
            lemma_start(m, a@, b@, rr, ca@, cb@);
            ca.lemma_wf();
            cb.lemma_wf();
            assert(node::cids_of(s.new_blocks@) =~= Seq::<Seq<u8>>::empty());
            align::lemma_line_start(m, a@, b@, rr, ca@, cb@);
            assert(merged(s, ca@, cb@) =~= merge::fresh(m, a@, b@));
            assert(node::cids_of(s.need@) =~= Seq::<Seq<u8>>::empty());
        }
        let ran = run(&mut s, &tight, &mut ca, &mut cb, Ghost(a@), Ghost(b@));
        let ghost g = got(s);
        let ghost key = last_of(s);
        let ghost va = ca@;
        let ghost vb = cb@;
        let ghost ids = node::cids_of(s.new_blocks@);
        let ghost mut stuck_at: Fault = Fault::Need(Seq::empty());
        let ghost end = merged(s, va, vb);
        let ghost stop = if ran is Err {
            Turn::Stuck(end, ran->Err_0@)
        } else if s.stopped {
            Turn::Full
        } else {
            Turn::Over
        };
        proof {
            ca.lemma_wf();
            cb.lemma_wf();
            assert(merge::stops(m, a@, b@, rr, end, stop));
        }
        let mut stopped = s.stopped;
        let mut need = s.need;
        if let Err(e) = ran {
            proof {
                assert forall|w: BlockMap|
                    (e@ is Need ==> w == m) implies !#[trigger] completes(w, m, a@, b@) by {
                    lemma_stuck_all(m, w, a@, b@, rr, va, vb, g, key, e@);
                }
            }
            match e {
                ReadError::Need(missing) => {
                    stopped = true;
                    proof {
                        lemma_need_missing(m, va, vb, e@);
                    }
                    proof {
                        stuck_at = e@;
                        assert(node::cids_of(missing@)[0] == missing@[0]@);
                        align::lemma_need_slot(m, va, e@);
                        align::lemma_need_slot(m, vb, e@);
                    }
                    push_need(
                        &mut need,
                        &missing[0],
                        Ghost(m),
                        Ghost(a@),
                        Ghost(b@),
                        Ghost(rr),
                    );
                    name_siblings(
                        blocks,
                        &mut need,
                        &tight,
                        &ca,
                        &cb,
                        Ghost(a@),
                        Ghost(b@),
                        Ghost(g),
                        Ghost(key),
                        Ghost(ids),
                    );
                },
                other => return Err(DiffError::Read(other)),
            }
        }
        let after = match s.last {
            Some(k) => Some(k),
            None => last,
        };
        let next = if stopped {
            match after {
                None => None,
                Some(k) => Some(Resume { a: *a, b: *b, after: k }),
            }
        } else {
            None
        };
        let page = DiffPage { changes: s.changes, next, need, new_blocks: s.new_blocks };
        proof {
            assert(node::cids_of(page.need@).len() == page.need@.len());
            assert forall|w: BlockMap| #[trigger] completes(w, m, a@, b@) implies answers(
                changes_of(page.changes@),
                next_of(page.next),
                page.need@.len() > 0,
                delta(tree::items(w, a@), tree::items(w, b@), rr),
                rr,
            ) by {
                lemma_answers(
                    m,
                    w,
                    a@,
                    b@,
                    r@,
                    va,
                    vb,
                    g,
                    key,
                    prior,
                    stopped,
                    page.need@.len() > 0,
                );
            }
            assert forall|w: BlockMap| #[trigger] completes(w, m, a@, b@) implies align::all_new(
                w,
                a@,
                b@,
                rr,
                ids,
            ) && (align::unbounded(rr) && page.need@.len() == 0 && page.next is None && tree::items(
                w,
                b@,
            ).len() > 0 ==> align::exactly_new(w, a@, b@, ids)) by {
                align::lemma_line_end(m, w, a@, b@, rr, va, vb, ids);
                if page.need@.len() == 0 && page.next is None {
                    lemma_full_told(m, w, a@, b@, rr, va, vb, g, key);
                }
            }
            assert forall|w: BlockMap|
                page.need@.len() > 0 && #[trigger] completes(w, m, a@, b@) implies reaches(
                w,
                node::cids_of(page.need@)[0],
                g.len() as int,
                delta(tree::items(w, a@), tree::items(w, b@), rr),
            ) by {
                lemma_reaches(m, w, a@, b@, rr, va, vb, g, key, ids, stuck_at);
            }
            assert(sheet(page) =~= merge::sheet_of(m, rr, prior, end, stop));
        }
        Ok(page)
    } else {
        let next = match last {
            None => None,
            Some(k) => Some(Resume { a: *a, b: *b, after: k }),
        };
        let page = DiffPage { changes: Vec::new(), next, need, new_blocks: Vec::new() };
        proof {
            assert(changes_of(page.changes@) =~= Seq::<Difference>::empty());
            assert(leaves_listed(m, changes_of(page.changes@), node::cids_of(page.new_blocks@))) by {
                reveal(leaves_listed);
            }
            assert(node::cids_of(page.need@).len() == page.need@.len());
            if completes(m, m, a@, b@) {
                if store::loaded(m, a@) is Err {
                    lemma_gap_root(m, a@);
                } else {
                    lemma_gap_root(m, b@);
                }
            }
            assert forall|w: BlockMap| #[trigger] completes(w, m, a@, b@) implies answers(
                changes_of(page.changes@),
                next_of(page.next),
                true,
                delta(tree::items(w, a@), tree::items(w, b@), rr),
                rr,
            ) by {
                lemma_nothing_yet(w, a@, b@, r@, prior);
            }
        }
        Ok(page)
    }
}

// ---------------------------------------------------------------------------
// what the differences are good for
// ---------------------------------------------------------------------------

/// What a list holds under a key.
pub open spec fn held_under(its: Seq<Item>, key: Seq<u8>) -> Option<Payload>
    decreases its.len(),
{
    if its.len() == 0 {
        None
    } else if its[0].key == key {
        Some(held_by(its[0]))
    } else {
        held_under(its.skip(1), key)
    }
}

/// The difference at a key.
pub open spec fn difference_at(ds: Seq<Difference>, key: Seq<u8>) -> Option<Difference>
    decreases ds.len(),
{
    if ds.len() == 0 {
        None
    } else if ds[0].key == key {
        Some(ds[0])
    } else {
        difference_at(ds.skip(1), key)
    }
}

/// Nothing lies under a key before all of a list.
proof fn lemma_held_none(its: Seq<Item>, key: Seq<u8>)
    requires
        tree::ascending(its),
        its.len() > 0 ==> order::lt(key, its[0].key),
    ensures
        held_under(its, key) is None,
    decreases its.len(),
{
    if its.len() > 0 {
        order::lemma_lt_irreflexive(key);
        lemma_ascending_skip(its, 1);
        if its.len() > 1 {
            assert(order::lt(its[0].key, its[1].key));
            order::lemma_lt_trans(key, its[0].key, its[1].key);
        }
        lemma_held_none(its.skip(1), key);
    }
}

/// The difference at another key is not among those at one key.
proof fn lemma_difference_past(
    key: Seq<u8>,
    was: Option<Payload>,
    is: Option<Payload>,
    r: RangeView,
    rest: Seq<Difference>,
    k: Seq<u8>,
)
    ensures
        k != key || told(key, was, is, r).len() == 0 ==> difference_at(
            told(key, was, is, r) + rest,
            k,
        ) == difference_at(rest, k),
        k == key && told(key, was, is, r).len() > 0 ==> difference_at(
            told(key, was, is, r) + rest,
            k,
        ) == Some(Difference { key, was, is }),
{
    let t = told(key, was, is, r);
    let all = t + rest;
    if t.len() == 0 {
        assert(all =~= rest);
    } else {
        assert(all[0] == t[0]);
        assert(all.skip(1) =~= rest);
    }
}

/// The differences turn the old tree into the new one: in the range, a key without a
/// difference holds the same on both sides, and at a difference the old side holds
/// what it says was there and the new side what it says is there now. None of them is
/// idle.
pub proof fn law_differences_turn_one_into_the_other(
    a: Seq<Item>,
    b: Seq<Item>,
    r: RangeView,
    k: Seq<u8>,
)
    requires
        tree::ascending(a),
        tree::ascending(b),
        range::within(k, r),
    ensures
        match difference_at(delta(a, b, r), k) {
            None => held_under(a, k) == held_under(b, k),
            Some(d) => d.was == held_under(a, k) && d.is == held_under(b, k) && d.was != d.is,
        },
    decreases a.len() + b.len(),
{
    if a.len() == 0 && b.len() == 0 {
    } else if leads(a, b) {
        lemma_ascending_skip(a, 1);
        law_differences_turn_one_into_the_other(a.skip(1), b, r, k);
        let rest = delta(a.skip(1), b, r);
        lemma_difference_past(a[0].key, Some(held_by(a[0])), None, r, rest, k);
        if k == a[0].key {
            lemma_held_none(b, k);
        }
    } else if a.len() == 0 || order::lt(b[0].key, a[0].key) {
        lemma_ascending_skip(b, 1);
        law_differences_turn_one_into_the_other(a, b.skip(1), r, k);
        let rest = delta(a, b.skip(1), r);
        lemma_difference_past(b[0].key, None, Some(held_by(b[0])), r, rest, k);
        if k == b[0].key {
            lemma_held_none(a, k);
        }
    } else {
        lemma_ascending_skip(a, 1);
        lemma_ascending_skip(b, 1);
        order::lemma_lt_total(a[0].key, b[0].key);
        law_differences_turn_one_into_the_other(a.skip(1), b.skip(1), r, k);
        let rest = delta(a.skip(1), b.skip(1), r);
        lemma_difference_past(
            a[0].key,
            Some(held_by(a[0])),
            Some(held_by(b[0])),
            r,
            rest,
            k,
        );
        if k == a[0].key {
            if a.len() > 1 {
                assert(order::lt(a[0].key, a[1].key));
            }
            if b.len() > 1 {
                assert(order::lt(b[0].key, b[1].key));
            }
            lemma_held_none(a.skip(1), k);
            lemma_held_none(b.skip(1), k);
        }
    }
}

/// A difference, read the other way round.
pub open spec fn turned(d: Difference) -> Difference {
    Difference { key: d.key, was: d.is, is: d.was }
}

/// Reading the diff the other way round gives the same differences, with what was and
/// what is exchanged.
pub proof fn law_the_diff_is_symmetric(a: Seq<Item>, b: Seq<Item>, r: RangeView)
    ensures
        delta(b, a, r) == delta(a, b, r).map_values(|d: Difference| turned(d)),
    decreases a.len() + b.len(),
{
    let f = |d: Difference| turned(d);
    if a.len() == 0 && b.len() == 0 {
        assert(delta(b, a, r) =~= delta(a, b, r).map_values(f));
    } else if leads(a, b) {
        if b.len() > 0 {
            lemma_not_both(b[0].key, a[0].key);
            if leads(b, a) {
                lemma_not_both(a[0].key, b[0].key);
            }
        }
        law_the_diff_is_symmetric(a.skip(1), b, r);
        assert(delta(b, a, r) =~= delta(a, b, r).map_values(f));
    } else if a.len() == 0 || order::lt(b[0].key, a[0].key) {
        law_the_diff_is_symmetric(a, b.skip(1), r);
        assert(leads(b, a));
        assert(delta(b, a, r) =~= delta(a, b, r).map_values(f));
    } else {
        order::lemma_lt_total(a[0].key, b[0].key);
        order::lemma_lt_irreflexive(a[0].key);
        law_the_diff_is_symmetric(a.skip(1), b.skip(1), r);
        assert(delta(b, a, r) =~= delta(a, b, r).map_values(f));
    }
}

/// The differences after a key.
pub open spec fn after_key(ds: Seq<Difference>, x: Seq<u8>) -> Seq<Difference>
    decreases ds.len(),
{
    if ds.len() == 0 {
        Seq::empty()
    } else {
        (if order::lt(x, ds[0].key) {
            seq![ds[0]]
        } else {
            Seq::empty()
        }) + after_key(ds.skip(1), x)
    }
}

/// In which keys a tightened range lies.
proof fn lemma_tightened_within(r: RangeView, x: Seq<u8>, k: Seq<u8>)
    requires
        order::lt(x, k),
        range::within(k, r),
    ensures
        range::within(k, tightened(r, Some(x))),
{
}

/// What lies in a tightened range lies in the range.
proof fn lemma_tightened_inside(r: RangeView, x: Seq<u8>, k: Seq<u8>)
    requires
        range::within(k, tightened(r, Some(x))),
    ensures
        range::within(k, r),
        order::lt(x, k),
{
    lemma_tightened(r, x, k);
    match r.lo {
        End::Open => {},
        End::At(e) => {
            order::lemma_lt_total(x, e);
            if !order::lt(x, e) {
                order::lemma_le_trans(e, x, k);
            }
        },
        End::Past(e) => {
            order::lemma_lt_total(x, e);
            if !order::lt(x, e) && e != x {
                order::lemma_lt_trans(e, x, k);
            }
        },
    }
}

/// Tightening the range keeps the differences after the key.
proof fn lemma_delta_after(a: Seq<Item>, b: Seq<Item>, r: RangeView, x: Seq<u8>)
    ensures
        delta(a, b, tightened(r, Some(x))) == after_key(delta(a, b, r), x),
    decreases a.len() + b.len(),
{
    let t = tightened(r, Some(x));
    if a.len() > 0 || b.len() > 0 {
        let (key, was, is, p, q) = if leads(a, b) {
            (a[0].key, Some(held_by(a[0])), None, a.skip(1), b)
        } else if a.len() == 0 || order::lt(b[0].key, a[0].key) {
            (b[0].key, None, Some(held_by(b[0])), a, b.skip(1))
        } else {
            (a[0].key, Some(held_by(a[0])), Some(held_by(b[0])), a.skip(1), b.skip(1))
        };
        lemma_delta_after(p, q, r, x);
        let d = delta(p, q, r);
        let one = told(key, was, is, r);
        assert(delta(a, b, r) == one + d);
        assert(delta(a, b, t) == told(key, was, is, t) + delta(p, q, t));
        if range::within(key, t) {
            lemma_tightened_inside(r, x, key);
        } else if range::within(key, r) && order::lt(x, key) {
            lemma_tightened_within(r, x, key);
        }
        if one.len() == 0 {
            assert(one + d =~= d);
            assert(Seq::<Difference>::empty() + delta(p, q, t) =~= delta(p, q, t));
        } else {
            assert((one + d)[0] == one[0]);
            assert((one + d).skip(1) =~= d);
        }
    }
}

/// Differences that a key splits.
proof fn lemma_after_split(ds: Seq<Difference>, x: Seq<u8>, k: int)
    requires
        0 <= k <= ds.len(),
        forall|i: int| 0 <= i < k ==> order::le((#[trigger] ds[i]).key, x),
        forall|i: int| k <= i < ds.len() ==> order::lt(x, (#[trigger] ds[i]).key),
    ensures
        after_key(ds, x) == ds.skip(k),
    decreases ds.len(),
{
    if ds.len() > 0 {
        let rest = ds.skip(1);
        let j = if k > 0 {
            k - 1
        } else {
            0
        };
        assert forall|i: int| 0 <= i < j implies order::le((#[trigger] rest[i]).key, x) by {
            assert(rest[i] == ds[i + 1]);
        }
        assert forall|i: int| j <= i < rest.len() implies order::lt(x, (#[trigger] rest[i]).key) by {
            assert(rest[i] == ds[i + 1]);
        }
        lemma_after_split(rest, x, j);
        if k > 0 {
            assert(order::le(ds[0].key, x));
            lemma_not_both(ds[0].key, x);
            assert(Seq::<Difference>::empty() + rest.skip(j) =~= ds.skip(k));
        } else {
            assert(order::lt(x, ds[0].key));
            assert(seq![ds[0]] + rest.skip(0) =~= ds.skip(0));
        }
    } else {
        assert(ds.skip(0) =~= ds);
    }
}

/// The pages of a diff follow on one another: where a page stops at a key, the diff
/// taken up after it tells exactly the differences the page did not.
pub proof fn law_a_resumed_diff_carries_on(
    a: Seq<Item>,
    b: Seq<Item>,
    r: RangeView,
    told_so_far: Seq<Difference>,
    x: Seq<u8>,
    waiting: bool,
)
    requires
        answers(told_so_far, Some(x), waiting, delta(a, b, r), r),
    ensures
        told_so_far + delta(a, b, tightened(r, Some(x))) == delta(a, b, r),
{
    let d = delta(a, b, r);
    let k = told_so_far.len() as int;
    lemma_delta_after(a, b, r, x);
    lemma_after_split(d, x, k);
    assert(d.take(k) + d.skip(k) =~= d);
}

/// Taking up after one key, and then after a later one.
proof fn lemma_after_after(ds: Seq<Difference>, p: Seq<u8>, x: Seq<u8>)
    requires
        order::le(p, x),
    ensures
        after_key(after_key(ds, p), x) == after_key(ds, x),
    decreases ds.len(),
{
    if ds.len() > 0 {
        let d = ds[0];
        let rest = ds.skip(1);
        lemma_after_after(rest, p, x);
        let tail = after_key(rest, p);
        order::lemma_le_trans(p, x, d.key);
        if order::lt(p, d.key) {
            let all = seq![d] + tail;
            assert(after_key(ds, p) == all);
            assert(all[0] == d);
            assert(all.skip(1) =~= tail);
        } else {
            assert(Seq::<Difference>::empty() + tail =~= tail);
            assert(!order::lt(x, d.key));
            assert(Seq::<Difference>::empty() + after_key(rest, x) =~= after_key(rest, x));
        }
    }
}

/// What one page told, and where it says to carry on.
pub struct Told {
    pub told: Seq<Difference>,
    pub next: Option<Seq<u8>>,
}

/// Pages that follow on one another from a key, none of them short of a block: each but
/// the last says where to carry on, and the next one does.
pub open spec fn follow(
    a: Seq<Item>,
    b: Seq<Item>,
    r: RangeView,
    from: Option<Seq<u8>>,
    pages: Seq<Told>,
) -> bool
    decreases pages.len(),
{
    pages.len() > 0 ==> {
        let p = pages[0];
        &&& answers(p.told, p.next, false, delta(a, b, tightened(r, from)), tightened(r, from))
        &&& pages.len() > 1 ==> p.next is Some && follow(a, b, r, p.next, pages.skip(1))
    }
}

/// All that some pages told.
pub open spec fn all_told(pages: Seq<Told>) -> Seq<Difference>
    decreases pages.len(),
{
    if pages.len() == 0 {
        Seq::empty()
    } else {
        pages[0].told + all_told(pages.skip(1))
    }
}

/// A page that says where to carry on has told a difference, after where it began.
proof fn lemma_page_moves(
    a: Seq<Item>,
    b: Seq<Item>,
    r: RangeView,
    from: Option<Seq<u8>>,
    p: Told,
)
    requires
        answers(p.told, p.next, false, delta(a, b, tightened(r, from)), tightened(r, from)),
        p.next is Some,
    ensures
        p.told.len() > 0,
        from is Some ==> order::lt(from->Some_0, p.next->Some_0),
        p.told + delta(a, b, tightened(r, p.next)) == delta(a, b, tightened(r, from)),
{
    let t = tightened(r, from);
    let d = delta(a, b, t);
    let x = p.next->Some_0;
    assert(p.told.len() > 0);
    assert(d.take(p.told.len() as int)[0] == d[0]);
    lemma_delta_within(a, b, t);
    assert(order::le(d[0].key, x));
    law_a_resumed_diff_carries_on(a, b, t, p.told, x, false);
    lemma_delta_after(a, b, t, x);
    lemma_delta_after(a, b, r, x);
    if from is Some {
        let f = from->Some_0;
        lemma_tightened(r, f, d[0].key);
        order::lemma_le_trans(f, d[0].key, x);
        lemma_delta_after(a, b, r, f);
        lemma_after_after(delta(a, b, r), f, x);
    }
}

/// A diff is read to its end page by page. Each page that says where to carry on tells at
/// least one difference, so there are no more such pages than differences; and pages that
/// end the diff tell, one after the other, every difference once and in order. With one
/// difference a page and no byte limit the last page is empty, and there are as many
/// before it as differences.
pub proof fn law_the_pages_of_a_diff_are_the_diff(
    a: Seq<Item>,
    b: Seq<Item>,
    r: RangeView,
    from: Option<Seq<u8>>,
    pages: Seq<Told>,
)
    requires
        follow(a, b, r, from, pages),
        pages.len() > 0,
    ensures
        pages.len() <= delta(a, b, tightened(r, from)).len() + 1,
        pages.last().next is None ==> all_told(pages) == delta(a, b, tightened(r, from)),
        pages.last().next is None && r.max_entries == 1 && r.max_bytes == 0 ==> pages.len()
            == delta(a, b, tightened(r, from)).len() + 1 && pages.last().told.len() == 0,
    decreases pages.len(),
{
    let p = pages[0];
    let d = delta(a, b, tightened(r, from));
    if r.max_entries == 1 && r.max_bytes == 0 && p.told.len() > 1 {
        assert(!full(d.take(1), tightened(r, from)));
    }
    let rest = pages.skip(1);
    if pages.len() > 1 {
        lemma_page_moves(a, b, r, from, p);
        law_the_pages_of_a_diff_are_the_diff(a, b, r, p.next, rest);
        assert(rest.last() == pages.last());
    } else {
        assert(rest =~= Seq::<Told>::empty());
        assert(pages.last() == p);
        assert(p.told + all_told(rest) =~= p.told);
        if p.next is None {
            assert(d.take(d.len() as int) =~= d);
        }
    }
}

/// What both trees have is not asked for. Where a store holds both roots and, of either
/// tree, every node that is not one both have within the range, a page asks for nothing:
/// it answers in full, though subtrees that both trees have are missing.
pub proof fn law_what_both_have_is_not_needed(
    m: BlockMap,
    w: BlockMap,
    a: Seq<u8>,
    b: Seq<u8>,
    r: RangeView,
    resume: Option<Seq<u8>>,
    page: DiffPage<'_>,
)
    requires
        page_says(m, a, b, r, resume, page),
        completes(w, m, a, b),
        m.contains_key(a),
        m.contains_key(b),
        forall|id: Seq<u8>|
            (align::is_node(w, a, id) || align::is_node(w, b, id)) && !align::shared(
                w,
                a,
                b,
                tightened(r, resume),
                id,
            ) ==> #[trigger] m.contains_key(id),
    ensures
        page.need@.len() == 0,
        answers(
            changes_of(page.changes@),
            next_of(page.next),
            false,
            delta(tree::items(w, a), tree::items(w, b), tightened(r, resume)),
            tightened(r, resume),
        ),
{
    let need = node::cids_of(page.need@);
    assert(need.len() == page.need@.len());
    if need.len() > 0 {
        let id = need[0];
        assert(align::asked_for(m, a, b, tightened(r, resume), need[0]));
        reveal(align::asked_for);
        assert(align::asked(w, a, b, tightened(r, resume), id));
        assert(!m.contains_key(need[0]));
    }
}

} // verus!
