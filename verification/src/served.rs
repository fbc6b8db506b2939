//! What a page serves, whatever is missing: the entries that are due, in scan order, up to
//! the first place where the scan cannot go on, and within the caller's limits.

use crate::cursor;
use crate::lacks;
use crate::node::{NodeView, Payload, Row};
use crate::order;
use crate::pages;
use crate::range;
use crate::range::{End, Options, PageEnd, RangeView, Scan, Stop};
use crate::store;
use crate::store::{BlockMap, Fault, HeldView};
use crate::tree;
use crate::tree::{Item, Slot};
use vstd::prelude::*;

verus! {

/// What an entry weighs in a page: its key, and its value as the page holds it, which for
/// a referenced value is the id.
pub open spec fn load(row: Row) -> int {
    row.key.len() + match row.held {
        Payload::Inline(b) => b.len() as int,
        Payload::Ref { cid, .. } => cid.len() as int,
        Payload::Child { .. } => 0,
    }
}

/// What some entries weigh.
pub open spec fn loads(rows: Seq<Row>) -> int
    decreases rows.len(),
{
    if rows.len() == 0 {
        0
    } else {
        loads(rows.drop_last()) + load(rows.last())
    }
}

/// Is a page within its limits: no more entries than allowed, and where there is more than
/// one, no more bytes?
pub open spec fn within_limits(rows: Seq<Row>, r: RangeView) -> bool {
    &&& rows.len() <= r.max_entries
    &&& rows.len() > 1 ==> loads(rows) <= r.max_bytes
}

/// Where a forward scan ends, and why.
#[verifier::rlimit(60)]
proof fn lemma_forward(its: Seq<Item>, r: RangeView, q: int, served: Seq<Row>, bytes: int) -> (e: int)
    requires
        !r.reverse,
        0 <= q < its.len(),
        its[q].what is Ok,
        bytes == loads(served),
        served.len() < r.max_entries,
        served.len() > 1 ==> bytes <= r.max_bytes,
    ensures
        q <= e <= its.len(),
        ({
            let s = range::scan_from(its, r, q, served, bytes);
            &&& s.served == served + pages::run(its, false, q, e)
            &&& within_limits(s.served, r)
            &&& forall|i: int| q <= i < e ==> (#[trigger] its[i]).what is Ok && range::within(
                its[i].key,
                r,
            )
            &&& match s.stop {
                Stop::Limit => s.served.len() > 0 && (s.served.len() == r.max_entries || (e
                    < its.len() && its[e].what is Ok && range::within(its[e].key, r) && loads(
                    s.served,
                ) + load(pages::row_at(its, e)) > r.max_bytes)),
                Stop::EndOfRange => e < its.len() && !range::within(its[e].key, r) && (e > q
                    ==> !range::under(its[e].key, r.hi) || its[e].what is Ok),
                Stop::EndOfTree => e == its.len(),
                Stop::Gap(f) => q < e < its.len() && its[e].what == Err::<Payload, Fault>(f)
                    && range::under(its[e].key, r.hi),
            }
        }),
    decreases its.len() - q,
{
    let s = range::scan_from(its, r, q, served, bytes);
    let row = pages::row_at(its, q);
    assert(range::carried(row) == load(row));
    if !range::within(its[q].key, r) {
        assert(s.served =~= served + pages::run(its, false, q, q));
        q
    } else if served.len() > 0 && bytes + load(row) > r.max_bytes {
        assert(s.served =~= served + pages::run(its, false, q, q));
        q
    } else {
        let more = served.push(row);
        let total = bytes + load(row);
        assert(more.drop_last() =~= served);
        assert(loads(more) == total);
        assert(more =~= served + pages::run(its, false, q, q + 1));
        if more.len() >= r.max_entries || q + 1 == its.len() || !range::under(
            its[q + 1].key,
            r.hi,
        ) || its[q + 1].what is Err {
            q + 1
        } else {
            let e = lemma_forward(its, r, q + 1, more, total);
            assert(s == range::scan_from(its, r, q + 1, more, total));
            assert(s.served =~= served + pages::run(its, false, q, e));
            e
        }
    }
}

/// Where a scan backwards ends, and why.
#[verifier::rlimit(60)]
proof fn lemma_backward(its: Seq<Item>, r: RangeView, q: int, served: Seq<Row>, bytes: int) -> (e: int)
    requires
        r.reverse,
        0 <= q < its.len(),
        its[q].what is Ok,
        bytes == loads(served),
        served.len() < r.max_entries,
        served.len() > 1 ==> bytes <= r.max_bytes,
    ensures
        -1 <= e <= q,
        ({
            let s = range::scan_from(its, r, q, served, bytes);
            &&& s.served == served + pages::run(its, true, e + 1, q + 1)
            &&& within_limits(s.served, r)
            &&& forall|i: int| e < i <= q ==> (#[trigger] its[i]).what is Ok && range::within(
                its[i].key,
                r,
            )
            &&& match s.stop {
                Stop::Limit => s.served.len() > 0 && (s.served.len() == r.max_entries || (e >= 0
                    && its[e].what is Ok && range::within(its[e].key, r) && loads(s.served)
                    + load(pages::row_at(its, e)) > r.max_bytes)),
                Stop::EndOfRange => (e >= 0 && !range::within(its[e].key, r)) || (e < q
                    && range::at_bottom(its[e + 1].key, r.lo)),
                Stop::EndOfTree => e == -1,
                Stop::Gap(f) => 0 <= e < q && its[e].what == Err::<Payload, Fault>(f)
                    && !range::at_bottom(its[e + 1].key, r.lo),
            }
        }),
    decreases q,
{
    let s = range::scan_from(its, r, q, served, bytes);
    let row = pages::row_at(its, q);
    assert(range::carried(row) == load(row));
    if !range::within(its[q].key, r) {
        assert(s.served =~= served + pages::run(its, true, q + 1, q + 1));
        q
    } else if served.len() > 0 && bytes + load(row) > r.max_bytes {
        assert(s.served =~= served + pages::run(its, true, q + 1, q + 1));
        q
    } else {
        let more = served.push(row);
        let total = bytes + load(row);
        assert(more.drop_last() =~= served);
        assert(loads(more) == total);
        assert(more =~= served + pages::run(its, true, q, q + 1));
        if more.len() >= r.max_entries || range::at_bottom(its[q].key, r.lo) || q == 0
            || its[q - 1].what is Err {
            q - 1
        } else {
            let e = lemma_backward(its, r, q - 1, more, total);
            assert(s == range::scan_from(its, r, q - 1, more, total));
            assert(s.served =~= served + pages::run(its, true, e + 1, q + 1));
            e
        }
    }
}

/// Where a forward scan starts: at the first item after where it is to start, unless the
/// gap before that may hold such an entry too.
#[verifier::rlimit(60)]
proof fn lemma_starts(its: Seq<Item>, r: RangeView) -> (q: int)
    requires
        !r.reverse,
        tree::ascending(its),
    ensures
        0 <= q <= its.len(),
        ({
            let s = range::scan(its, r);
            let start = range::start_of(r);
            &&& forall|i: int| 0 <= i < q ==> !range::above((#[trigger] its[i]).key, start)
            &&& forall|i: int| q < i < its.len() ==> range::above((#[trigger] its[i]).key, start)
            &&& {
                ||| q < its.len() && its[q].what is Ok && range::above(its[q].key, start) && s
                    == range::scan_from(its, r, q, Seq::empty(), 0)
                ||| q == its.len() && s == range::nothing(Stop::EndOfTree)
                ||| q < its.len() && range::above(its[q].key, start) && !range::under(
                    its[q].key,
                    r.hi,
                ) && s == range::nothing(Stop::EndOfRange)
                ||| q < its.len() && its[q].what is Err && s == range::nothing(
                    Stop::Gap(its[q].what->Err_0),
                ) && (q + 1 < its.len() ==> !range::reaches_only(its[q + 1].key, start)) && (q > 0
                    && its[q - 1].what is Err ==> range::reaches_only(its[q].key, start))
            }
        }),
{
    let n = its.len();
    match range::start_of(r) {
        End::Open => {
            let none = Seq::<u8>::empty();
            pages::lemma_split(its, none);
            tree::lemma_rank(its, none, n);
            let b = cursor::count_before(its, none, false);
            let c = cursor::count_before(its, none, true);
            if b > 0 {
                assert(order::lt(its[0].key, none));
                order::lemma_empty_first(its[0].key);
                pages::lemma_three(its[0].key, none, none);
            }
            if c > 1 {
                assert(order::le(its[1].key, none));
                assert(order::lt(its[0].key, its[1].key));
                order::lemma_empty_first(its[0].key);
                pages::lemma_three(its[0].key, its[1].key, none);
            }
            0
        },
        End::At(k) => {
            pages::lemma_split(its, k);
            tree::lemma_rank(its, k, n);
            let b = cursor::count_before(its, k, false);
            let c = cursor::count_before(its, k, true);
            assert forall|i: int| 0 <= i < n implies (range::above(
                (#[trigger] its[i]).key,
                range::start_of(r),
            ) <==> b <= i) by {
                pages::lemma_three(k, its[i].key, k);
            }
            if c > 0 && its[c - 1].what is Err {
                assert(order::le(its[c - 1].key, k));
                if b < c - 1 {
                    assert(order::lt(its[b].key, its[c - 1].key));
                    pages::lemma_three(its[b].key, its[c - 1].key, k);
                }
                c - 1
            } else {
                b
            }
        },
        End::Past(k) => {
            pages::lemma_split(its, k);
            tree::lemma_rank(its, k, n);
            let b = cursor::count_before(its, k, false);
            let c = cursor::count_before(its, k, true);
            assert forall|i: int| 0 <= i < n implies (range::above(
                (#[trigger] its[i]).key,
                range::start_of(r),
            ) <==> c <= i) by {
                pages::lemma_three(k, its[i].key, k);
            }
            if b < n {
                pages::lemma_three(k, its[b].key, k);
                if its[b].key == k {
                    assert(b < c);
                    if b + 1 < n {
                        assert(order::lt(its[b].key, its[b + 1].key));
                        pages::lemma_three(k, its[b + 1].key, k);
                        assert(!(b + 1 < c));
                    }
                    assert(c == b + 1);
                } else {
                    assert(!(b < c));
                    if c < b {
                        assert(order::lt(its[c].key, k));
                    }
                    assert(c == b);
                }
            } else if c < b {
                assert(order::lt(its[c].key, k));
            }
            if c > 0 && its[c - 1].what is Err {
                c - 1
            } else {
                c
            }
        },
    }
}

/// Where a scan backwards starts: at the last item before where it is to start.
#[verifier::rlimit(60)]
proof fn lemma_starts_back(its: Seq<Item>, r: RangeView) -> (q: int)
    requires
        r.reverse,
        tree::ascending(its),
    ensures
        -1 <= q < its.len(),
        ({
            let s = range::scan(its, r);
            let start = range::start_of(r);
            &&& forall|i: int| q < i < its.len() ==> !range::under((#[trigger] its[i]).key, start)
            &&& forall|i: int| 0 <= i < q ==> range::under((#[trigger] its[i]).key, start)
            &&& {
                ||| q >= 0 && its[q].what is Ok && range::under(its[q].key, start) && s
                    == range::scan_from(its, r, q, Seq::empty(), 0)
                ||| q == -1 && (s == range::nothing(Stop::EndOfTree) || s == range::nothing(
                    Stop::EndOfRange,
                ))
                ||| q >= 0 && its[q].what is Err && s == range::nothing(
                    Stop::Gap(its[q].what->Err_0),
                ) && (range::under(its[q].key, start) || q == 0)
            }
        }),
{
    let n = its.len();
    match range::start_of(r) {
        End::Open => n - 1,
        End::At(k) => {
            pages::lemma_split(its, k);
            let b = cursor::count_before(its, k, true);
            if b == 0 && n > 0 && its[0].what is Err {
                0
            } else {
                b - 1
            }
        },
        End::Past(k) => {
            pages::lemma_split(its, k);
            let b = cursor::count_before(its, k, false);
            if b == 0 && n > 0 && its[0].what is Err {
                0
            } else {
                b - 1
            }
        },
    }
}

// ---------------------------------------------------------------------------
// gaps and places
// ---------------------------------------------------------------------------

/// Where the entries of a place begin.
spec fn offset(slots: Seq<Slot>, i: int) -> int {
    tree::flat(slots.take(i)).len() as int
}

/// The entries of a place stand where they begin.
proof fn lemma_offset(slots: Seq<Slot>, i: int)
    requires
        0 <= i < slots.len(),
        tree::slot_items(slots[i]).len() > 0,
    ensures
        0 <= offset(slots, i) < tree::flat(slots).len(),
        tree::flat(slots)[offset(slots, i)] == tree::slot_items(slots[i])[0],
        offset(slots, i + 1) == offset(slots, i) + tree::slot_items(slots[i]).len(),
        i + 1 == slots.len() ==> offset(slots, i + 1) == tree::flat(slots).len(),
{
    let a = slots.take(i);
    let b = slots.skip(i);
    assert(a + b =~= slots);
    tree::lemma_flat_join(a, b);
    let one = seq![slots[i]];
    let c = slots.skip(i + 1);
    assert(one + c =~= b);
    tree::lemma_flat_join(one, c);
    tree::lemma_flat_one(slots[i]);
    assert(a + one =~= slots.take(i + 1));
    tree::lemma_flat_join(a, one);
    if i + 1 == slots.len() {
        assert(slots.take(i + 1) =~= slots);
    }
}

/// Later places begin later.
proof fn lemma_offsets(slots: Seq<Slot>, i: int, j: int)
    requires
        0 <= i < j <= slots.len(),
        forall|k: int| 0 <= k < slots.len() ==> tree::slot_items(#[trigger] slots[k]).len() > 0,
    ensures
        offset(slots, i) < offset(slots, j),
    decreases j - i,
{
    lemma_offset(slots, j - 1);
    if i < j - 1 {
        lemma_offsets(slots, i, j - 1);
    }
}

/// A gap is a place that cannot be opened.
proof fn lemma_gap(slots: Seq<Slot>, x: int) -> (j: int)
    requires
        0 <= x < tree::flat(slots).len(),
        tree::flat(slots)[x].what is Err,
    ensures
        0 <= j < slots.len(),
        offset(slots, j) == x,
        slots[j].opened is Err,
        slots[j].opened->Err_0 == tree::flat(slots)[x].what->Err_0,
        slots[j].key == tree::flat(slots)[x].key,
    decreases slots.len(),
{
    let front = slots.drop_last();
    let n = tree::flat(front).len() as int;
    assert(front =~= slots.take(slots.len() - 1));
    if x < n {
        let j = lemma_gap(front, x);
        assert(front.take(j) =~= slots.take(j));
        j
    } else {
        slots.len() - 1
    }
}

/// A place that lacks its block is told by its own id.
proof fn lemma_lacks(m: BlockMap, s: Slot)
    requires
        plain(m, s),
    ensures
        forall|j: int|
            0 <= j < tree::level_slots(m, s, 0).len() ==> plain(m, #[trigger] tree::level_slots(
                m,
                s,
                0,
            )[j]),
    decreases tree::height_of(s), 1nat, 0nat,
{
    if s.opened is Ok && s.opened->Ok_0.node.level > 0 {
        let h = s.opened->Ok_0;
        lemma_lacks_under(m, h, h.node.rows.len());
        let here = tree::level_slots(m, s, 0);
        let below = tree::child_slots(m, h, 0, h.node.rows.len());
        assert(here == below);
        assert forall|j: int| 0 <= j < here.len() implies plain(m, #[trigger] here[j]) by {
            assert(plain(m, below[j]));
        }
    } else {
        let here = tree::level_slots(m, s, 0);
        assert(here == seq![s]);
        assert forall|j: int| 0 <= j < here.len() implies plain(m, #[trigger] here[j]) by {
            assert(here[j] == s);
        }
    }
}

/// Is a place plain: it can be opened and its block is held; or its block is not held, and
/// is what it lacks; or its block is held and is not what it should be?
pub open spec fn plain(m: BlockMap, s: Slot) -> bool {
    match s.opened {
        Ok(_) => m.contains_key(s.cid),
        Err(f) => if m.contains_key(s.cid) {
            !(f is Need)
        } else {
            f == Fault::Need(seq![s.cid])
        },
    }
}

proof fn lemma_lacks_under(m: BlockMap, h: HeldView, n: nat)
    requires
        h.node.level > 0,
        n <= h.node.rows.len(),
    ensures
        forall|j: int|
            0 <= j < tree::child_slots(m, h, 0, n).len() ==> plain(
                m,
                #[trigger] tree::child_slots(m, h, 0, n)[j],
            ),
    decreases h.node.level as nat, 0nat, n,
{
    if n > 0 {
        lemma_lacks_under(m, h, (n - 1) as nat);
        let s = tree::child_slot(m, h, n - 1);
        reveal(store::loaded);
        assert(s.opened is Ok ==> tree::height_of(s) < h.node.level);
        lemma_lacks(m, s);
        let a = tree::child_slots(m, h, 0, (n - 1) as nat);
        let b = tree::level_slots(m, s, 0);
        assert forall|j: int| 0 <= j < (a + b).len() implies plain(m, #[trigger] (a + b)[j]) by {
            if j < a.len() {
                assert((a + b)[j] == a[j]);
            } else {
                assert((a + b)[j] == b[j - a.len()]);
            }
        }
    }
}

/// The places of a tree are plain.
pub proof fn lemma_plain(m: BlockMap, root: Seq<u8>)
    ensures
        forall|j: int|
            0 <= j < tree::leaves(m, root).len() ==> plain(m, #[trigger] tree::leaves(m, root)[j]),
{
    reveal(store::loaded);
    lemma_lacks(m, tree::root_slot(m, root));
}

// ---------------------------------------------------------------------------
// which place comes first
// ---------------------------------------------------------------------------

/// The places in reach, up to one of them and after it.
proof fn lemma_reached_parts(
    slots: Seq<Slot>,
    upper: Option<Seq<u8>>,
    r: RangeView,
    j: int,
    n: nat,
) -> (tail: Seq<Slot>)
    requires
        0 <= j < n <= slots.len(),
        lacks::in_reach(slots, upper, r, j),
    ensures
        lacks::reached(slots, upper, r, n) == lacks::reached(slots, upper, r, j as nat).push(
            slots[j],
        ) + tail,
        forall|t: int|
            0 <= t < tail.len() ==> among(slots, upper, r, j + 1, n as int, #[trigger] tail[t]),
    decreases n,
{
    let head = lacks::reached(slots, upper, r, j as nat).push(slots[j]);
    if n == j + 1 {
        let tail = Seq::<Slot>::empty();
        assert(head + tail =~= head);
        tail
    } else {
        let before = lemma_reached_parts(slots, upper, r, j, (n - 1) as nat);
        let tail = if lacks::in_reach(slots, upper, r, n - 1) {
            before.push(slots[n - 1])
        } else {
            before
        };
        assert(lacks::reached(slots, upper, r, n) =~= head + tail);
        assert forall|t: int| 0 <= t < tail.len() implies among(
            slots,
            upper,
            r,
            j + 1,
            n as int,
            #[trigger] tail[t],
        ) by {
            if t < before.len() {
                assert(among(slots, upper, r, j + 1, n - 1, before[t]));
                let i = choose|i: int|
                    j + 1 <= i < n - 1 && #[trigger] lacks::in_reach(slots, upper, r, i) && slots[i]
                        == before[t];
                assert(lacks::in_reach(slots, upper, r, i));
            }
        }
        tail
    }
}

/// Is this one of the places from `a` to `b` that are in reach?
spec fn among(slots: Seq<Slot>, upper: Option<Seq<u8>>, r: RangeView, a: int, b: int, s: Slot) -> bool {
    exists|i: int|
        a <= i < b && #[trigger] lacks::in_reach(slots, upper, r, i) && slots[i] == s
}

/// All places in reach.
proof fn lemma_reached_all(slots: Seq<Slot>, upper: Option<Seq<u8>>, r: RangeView, n: nat)
    requires
        n <= slots.len(),
    ensures
        forall|t: int|
            0 <= t < lacks::reached(slots, upper, r, n).len() ==> among(
                slots,
                upper,
                r,
                0,
                n as int,
                #[trigger] lacks::reached(slots, upper, r, n)[t],
            ),
    decreases n,
{
    if n > 0 {
        lemma_reached_all(slots, upper, r, (n - 1) as nat);
        let front = lacks::reached(slots, upper, r, (n - 1) as nat);
        let all = lacks::reached(slots, upper, r, n);
        assert forall|t: int| 0 <= t < all.len() implies among(
            slots,
            upper,
            r,
            0,
            n as int,
            #[trigger] all[t],
        ) by {
            if t < front.len() {
                assert(all[t] == front[t]);
                let i = choose|i: int|
                    0 <= i < n - 1 && #[trigger] lacks::in_reach(slots, upper, r, i) && slots[i]
                        == front[t];
                assert(lacks::in_reach(slots, upper, r, i));
            }
        }
    }
}

/// What a frontier names first, of a place before which none lacks its block.
proof fn lemma_named_first(m: BlockMap, root: Seq<u8>, r: RangeView, o: Options, j: int)
    requires
        range::spec_frontier(m, root, r, o) is Ok,
        0 <= j < tree::leaves(m, root).len(),
        !m.contains_key(tree::leaves(m, root)[j].cid),
        forall|i: int|
            0 <= i < tree::leaves(m, root).len() && (if r.reverse {
                i > j
            } else {
                i < j
            }) && #[trigger] lacks::in_reach(tree::leaves(m, root), None, r, i) ==> m.contains_key(
                tree::leaves(m, root)[i].cid,
            ),
        !lacks::in_reach(tree::leaves(m, root), None, r, j) ==> forall|i: int|
            0 <= i < tree::leaves(m, root).len() && #[trigger] lacks::in_reach(
                tree::leaves(m, root),
                None,
                r,
                i,
            ) ==> m.contains_key(tree::leaves(m, root)[i].cid),
    ensures
        ({
            let out = range::spec_frontier(m, root, r, o)->Ok_0;
            out.len() == 0 || out[0] == tree::leaves(m, root)[j].cid
        }),
{
    let all = tree::leaves(m, root);
    let out = range::spec_frontier(m, root, r, o)->Ok_0;
    let n = all.len();
    let near = lacks::reached(all, None, r, n);
    let w = lacks::places(m, root, r);
    lacks::law_the_frontier_names_what_the_scan_lacks(m, root, r, o);
    if lacks::in_reach(all, None, r, j) {
        let tail = lemma_reached_parts(all, None, r, j, n);
        let head = lacks::reached(all, None, r, j as nat);
        lemma_reached_all(all, None, r, j as nat);
        let p = if r.reverse {
            tail.len() as int
        } else {
            head.len() as int
        };
        assert(w[p] == all[j]) by {
            if r.reverse {
                assert(w[p] == near[near.len() - 1 - p]);
            }
        }
        assert forall|t: int| 0 <= t < p implies m.contains_key((#[trigger] w[t]).cid) by {
            if r.reverse {
                assert(w[t] == near[near.len() - 1 - t]);
                let k = tail.len() - 1 - t;
                assert(w[t] == tail[k]);
                let i = choose|i: int|
                    j + 1 <= i < n && #[trigger] lacks::in_reach(all, None, r, i) && all[i]
                        == tail[k];
                assert(lacks::in_reach(all, None, r, i));
            } else {
                assert(w[t] == head[t]);
                let i = choose|i: int|
                    0 <= i < j && #[trigger] lacks::in_reach(all, None, r, i) && all[i] == head[t];
                assert(lacks::in_reach(all, None, r, i));
            }
        }
    } else {
        lemma_reached_all(all, None, r, n);
        assert forall|t: int| 0 <= t < w.len() implies m.contains_key((#[trigger] w[t]).cid) by {
            let k = if r.reverse {
                near.len() - 1 - t
            } else {
                t
            };
            assert(w[t] == near[k]);
            let i = choose|i: int|
                0 <= i < n && #[trigger] lacks::in_reach(all, None, r, i) && all[i] == near[k];
            assert(lacks::in_reach(all, None, r, i));
        }
        lacks::lemma_none_named(m, root, r, o);
    }
}

// ---------------------------------------------------------------------------
// pages
// ---------------------------------------------------------------------------

/// The items a scan comes to before item `x`.
pub open spec fn ahead(its: Seq<Item>, reverse: bool, x: int) -> Seq<Item> {
    if reverse {
        its.skip(x + 1)
    } else {
        its.take(x)
    }
}

/// The entries due among the items before one.
pub open spec fn due_ahead(its: Seq<Item>, r: RangeView, x: int) -> Seq<Row> {
    pages::all_due(ahead(its, r.reverse, x), r, ahead(its, r.reverse, x).len())
}

/// Is every item that is due, of those before one, an entry?
pub open spec fn whole_ahead(its: Seq<Item>, r: RangeView, x: int) -> bool {
    forall|i: int|
        0 <= i < ahead(its, r.reverse, x).len() && pages::due(
            (#[trigger] ahead(its, r.reverse, x)[i]).key,
            r,
        ) ==> ahead(its, r.reverse, x)[i].what is Ok
}

/// What a scan serves is what is due before the item it stops at, and stops there for a
/// reason.
spec fn ends_at(its: Seq<Item>, r: RangeView, s: Scan, x: int) -> bool {
    &&& if r.reverse {
        -1 <= x < its.len()
    } else {
        0 <= x <= its.len()
    }
    &&& s.served == due_ahead(its, r, x)
    &&& whole_ahead(its, r, x)
    &&& within_limits(s.served, r)
    &&& match s.stop {
        Stop::Limit => s.served.len() > 0 && (s.served.len() == r.max_entries || (0 <= x
            < its.len() && its[x].what is Ok && pages::due(its[x].key, r) && loads(s.served) + load(
            pages::row_at(its, x),
        ) > r.max_bytes)),
        Stop::Gap(f) => 0 <= x < its.len() && its[x].what == Err::<Payload, Fault>(f),
        _ => forall|i: int|
            0 <= i < its.len() && (if r.reverse {
                i <= x
            } else {
                i >= x
            }) ==> !pages::due((#[trigger] its[i]).key, r),
    }
    &&& s.stop is EndOfTree && s.served.len() > 0 ==> its.len() > 0 && s.served.last().key == (
    if r.reverse {
        its[0].key
    } else {
        its.last().key
    })
    &&& s.stop is EndOfRange && s.served.len() > 0 && !r.reverse ==> its.len() > 0
        && s.served.last().key != its.last().key
}

/// The items before one, as a run.
proof fn lemma_ahead_run(its: Seq<Item>, r: RangeView, a: int, b: int)
    requires
        0 <= a <= b <= its.len(),
        !r.reverse ==> forall|i: int| 0 <= i < b ==> (pages::due((#[trigger] its[i]).key, r) <==> a
            <= i),
        r.reverse ==> forall|i: int|
            a <= i < its.len() ==> (pages::due((#[trigger] its[i]).key, r) <==> i < b),
        forall|i: int| a <= i < b ==> (#[trigger] its[i]).what is Ok,
    ensures
        ({
            let x = if r.reverse {
                a - 1
            } else {
                b
            };
            &&& pages::run(its, r.reverse, a, b) == due_ahead(its, r, x)
            &&& whole_ahead(its, r, x)
        }),
{
    let n = its.len();
    if r.reverse {
        let t = its.skip(a);
        assert(ahead(its, true, a - 1) =~= t);
        assert forall|i: int| 0 <= i < t.len() implies (pages::due((#[trigger] t[i]).key, r) <==> 0
            <= i < b - a) by {
            assert(t[i] == its[i + a]);
        }
        pages::lemma_due_run(t, r, 0, b - a, t.len());
        assert(pages::run(t, true, 0, b - a) =~= pages::run(its, true, a, b)) by {
            assert forall|k: int| 0 <= k < b - a implies #[trigger] pages::run(t, true, 0, b - a)[k]
                == pages::run(its, true, a, b)[k] by {
                assert(t[b - a - 1 - k] == its[b - 1 - k]);
            }
        }
        assert forall|i: int| 0 <= i < t.len() && pages::due((#[trigger] t[i]).key, r) implies t[i].what is Ok by {
            assert(t[i] == its[i + a]);
        }
    } else {
        let t = its.take(b);
        assert(ahead(its, false, b) =~= t);
        assert forall|i: int| 0 <= i < t.len() implies (pages::due((#[trigger] t[i]).key, r) <==> a
            <= i < b) by {
            assert(t[i] == its[i]);
        }
        pages::lemma_due_run(t, r, a, b, t.len());
        assert(pages::run(t, false, a, b) =~= pages::run(its, false, a, b)) by {
            assert forall|k: int| 0 <= k < b - a implies #[trigger] pages::run(t, false, a, b)[k]
                == pages::run(its, false, a, b)[k] by {
                assert(t[a + k] == its[a + k]);
            }
        }
        assert forall|i: int| 0 <= i < t.len() && pages::due((#[trigger] t[i]).key, r) implies t[i].what is Ok by {
            assert(t[i] == its[i]);
        }
    }
}

/// Where a scan ends.
#[verifier::rlimit(80)]
#[verifier::spinoff_prover]
proof fn lemma_scan_ends(its: Seq<Item>, r: RangeView) -> (x: int)
    requires
        tree::ascending(its),
        r.max_entries > 0,
    ensures
        ends_at(its, r, range::scan(its, r), x),
        range::scan(its, r).stop is Gap && !r.reverse ==> {
            let s = range::scan(its, r);
            let lo = if s.served.len() > 0 {
                End::Past(s.served.last().key)
            } else {
                range::start_of(r)
            };
            &&& forall|i: int| 0 <= i < x ==> !range::above((#[trigger] its[i]).key, lo)
            &&& x + 1 < its.len() ==> !range::reaches_only(its[x + 1].key, lo)
            &&& x > 0 && its[x - 1].what is Err ==> range::reaches_only(its[x].key, lo)
        },
        range::scan(its, r).stop is Gap && r.reverse ==> {
            let s = range::scan(its, r);
            let hi = if s.served.len() > 0 {
                End::Past(s.served.last().key)
            } else {
                range::start_of(r)
            };
            &&& forall|i: int| x < i < its.len() ==> !range::under((#[trigger] its[i]).key, hi)
            &&& range::under(its[x].key, hi) || x == 0
            &&& s.served.len() > 0 ==> !range::at_bottom(its[x + 1].key, r.lo) && x + 1 < its.len()
        },
{
    let n = its.len();
    let s = range::scan(its, r);
    if r.reverse {
        let q = lemma_starts_back(its, r);
        assert forall|i: int| 0 <= i < n implies (pages::due((#[trigger] its[i]).key, r) <==> range::under(
            its[i].key,
            range::start_of(r),
        ) && range::above(its[i].key, r.lo)) by {
            pages::lemma_due(its[i].key, r);
        }
        if q >= 0 && its[q].what is Ok && s == range::scan_from(its, r, q, Seq::empty(), 0) {
            let e = lemma_backward(its, r, q, Seq::empty(), 0);
            assert(s.served =~= pages::run(its, true, e + 1, q + 1));
            assert forall|i: int| e + 1 <= i < n implies (pages::due((#[trigger] its[i]).key, r) <==> i
                < q + 1) by {
                if i <= q {
                    assert(range::within(its[i].key, r));
                    if i < q {
                        assert(range::under(its[i].key, range::start_of(r)));
                    }
                }
            }
            lemma_ahead_run(its, r, e + 1, q + 1);
            if e < q {
                assert(s.served.last() == pages::row_at(its, e + 1));
            }
            if s.stop is EndOfRange {
                assert forall|i: int| 0 <= i <= e implies !pages::due((#[trigger] its[i]).key, r) by {
                    if e < q && range::at_bottom(its[e + 1].key, r.lo) {
                        assert(order::lt(its[i].key, its[e + 1].key));
                        match r.lo {
                            End::Open => {},
                            End::At(k) => pages::lemma_three(k, its[e + 1].key, its[i].key),
                            End::Past(k) => pages::lemma_three(k, its[e + 1].key, its[i].key),
                        }
                    } else {
                        if i < e {
                            assert(order::lt(its[i].key, its[e].key));
                        }
                        pages::lemma_due(its[e].key, r);
                        if e < q {
                            assert(range::under(its[e].key, range::start_of(r)));
                        }
                        assert(!range::above(its[e].key, r.lo));
                        pages::lemma_lower(its, r.lo, i, e);
                    }
                }
            }
            if s.stop is Gap {
                let key = its[e + 1].key;
                assert forall|i: int| e < i < n implies !range::under(
                    (#[trigger] its[i]).key,
                    End::Past(key),
                ) by {
                    if i > e + 1 {
                        assert(order::lt(its[e + 1].key, its[i].key));
                    }
                    pages::lemma_three(key, its[i].key, key);
                }
                assert(order::lt(its[e].key, its[e + 1].key));
            }
            e
        } else {
            assert(s.served =~= pages::run(its, true, q + 1, q + 1));
            assert forall|i: int| q + 1 <= i < n implies (pages::due((#[trigger] its[i]).key, r) <==> i
                < q + 1) by {}
            lemma_ahead_run(its, r, q + 1, q + 1);
            q
        }
    } else {
        let q = lemma_starts(its, r);
        assert forall|i: int| 0 <= i < n implies (pages::due((#[trigger] its[i]).key, r) <==> range::above(
            its[i].key,
            range::start_of(r),
        ) && range::under(its[i].key, r.hi)) by {
            pages::lemma_due(its[i].key, r);
        }
        if q < n && its[q].what is Ok && range::above(its[q].key, range::start_of(r)) && s
            == range::scan_from(its, r, q, Seq::empty(), 0) {
            let e = lemma_forward(its, r, q, Seq::empty(), 0);
            assert(s.served =~= pages::run(its, false, q, e));
            assert forall|i: int| 0 <= i < e implies (pages::due((#[trigger] its[i]).key, r) <==> q
                <= i) by {
                if q <= i {
                    assert(range::within(its[i].key, r));
                }
            }
            lemma_ahead_run(its, r, q, e);
            if e > q {
                assert(s.served.last() == pages::row_at(its, e - 1));
            }
            if s.stop is EndOfRange {
                if e > q {
                    assert(order::lt(its[e - 1].key, its[e].key));
                    if e < n - 1 {
                        assert(order::lt(its[e - 1].key, its[n - 1].key));
                    }
                    order::lemma_lt_irreflexive(its[e - 1].key);
                }
                pages::lemma_due(its[e].key, r);
                assert(range::above(its[e].key, range::start_of(r)));
                assert(!range::under(its[e].key, r.hi));
                assert forall|i: int| e <= i < n implies !pages::due((#[trigger] its[i]).key, r) by {
                    pages::lemma_higher(its, r.hi, e, i);
                }
            }
            if s.stop is Gap {
                let key = its[e - 1].key;
                assert forall|i: int| 0 <= i < e implies !range::above(
                    (#[trigger] its[i]).key,
                    End::Past(key),
                ) by {
                    if i < e - 1 {
                        assert(order::lt(its[i].key, its[e - 1].key));
                    }
                    pages::lemma_three(key, its[i].key, key);
                }
                if e + 1 < n {
                    assert(order::lt(its[e - 1].key, its[e + 1].key));
                    pages::lemma_three(key, its[e + 1].key, key);
                }
            }
            e
        } else {
            assert(s.served =~= pages::run(its, false, q, q));
            assert forall|i: int| 0 <= i < q implies (pages::due((#[trigger] its[i]).key, r) <==> q
                <= i) by {}
            lemma_ahead_run(its, r, q, q);
            if s.stop is EndOfRange {
                assert forall|i: int| q <= i < n implies !pages::due((#[trigger] its[i]).key, r) by {
                    pages::lemma_higher(its, r.hi, q, i);
                }
            }
            q
        }
    }
}

/// Items that are not due change nothing at the end.
proof fn lemma_due_front(its: Seq<Item>, r: RangeView, x: int, n: nat)
    requires
        0 <= x <= n <= its.len(),
        forall|i: int| x <= i < n ==> !pages::due((#[trigger] its[i]).key, r),
    ensures
        pages::all_due(its, r, n) == pages::all_due(its.take(x), r, x as nat),
    decreases n,
{
    if x < n {
        assert(!pages::due(its[n - 1].key, r));
        lemma_due_front(its, r, x, (n - 1) as nat);
    } else if n > 0 {
        lemma_due_take(its, r, x, n);
    }
}

/// The items taken are those of the list.
proof fn lemma_due_take(its: Seq<Item>, r: RangeView, x: int, n: nat)
    requires
        n <= x <= its.len(),
    ensures
        pages::all_due(its, r, n) == pages::all_due(its.take(x), r, n),
    decreases n,
{
    if n > 0 {
        lemma_due_take(its, r, x, (n - 1) as nat);
        assert(its.take(x)[n - 1] == its[n - 1]);
    }
}

/// Nor at the beginning.
proof fn lemma_due_back(its: Seq<Item>, r: RangeView, x: int, n: nat)
    requires
        0 <= x <= n <= its.len(),
        forall|i: int| 0 <= i < x ==> !pages::due((#[trigger] its[i]).key, r),
    ensures
        pages::all_due(its, r, n) == pages::all_due(its.skip(x), r, (n - x) as nat),
    decreases n,
{
    if n > 0 {
        if x < n {
            lemma_due_back(its, r, x, (n - 1) as nat);
            assert(its.skip(x)[n - 1 - x] == its[n - 1]);
        } else {
            assert(!pages::due(its[n - 1].key, r));
            lemma_due_back(its, r, x - 1, (n - 1) as nat);
        }
    }
}

/// What a scan asks for first is what it stopped at.
#[verifier::rlimit(80)]
#[verifier::spinoff_prover]
proof fn lemma_asked_first(
    m: BlockMap,
    root: Seq<u8>,
    r: RangeView,
    o: Options,
    x: int,
    rest: RangeView,
)
    requires
        m.contains_key(root),
        r.max_entries > 0,
        !range::hopeless(r),
        ({
            let its = tree::items(m, root);
            let s = range::scan(its, r);
            &&& s.stop is Gap
            &&& s.stop->Gap_0 is Need
            &&& ends_at(its, r, s, x)
            &&& rest == if s.served.len() > 0 {
                range::spec_rest_after(r, s.served.last().key)
            } else {
                range::spec_rest_from_start(r)
            }
            &&& !r.reverse ==> {
                &&& forall|i: int| 0 <= i < x ==> !range::above((#[trigger] its[i]).key, rest.lo)
                &&& x + 1 < its.len() ==> !range::reaches_only(its[x + 1].key, rest.lo)
                &&& x > 0 && its[x - 1].what is Err ==> range::reaches_only(its[x].key, rest.lo)
            }
            &&& r.reverse ==> {
                &&& forall|i: int|
                    x < i < its.len() ==> !range::under((#[trigger] its[i]).key, rest.hi)
                &&& range::under(its[x].key, rest.hi) || x == 0
                &&& s.served.len() > 0 ==> !range::at_bottom(its[x + 1].key, r.lo) && x + 1
                    < its.len()
            }
        }),
        range::spec_frontier(m, root, rest, o) is Ok,
    ensures
        ({
            let its = tree::items(m, root);
            let out = range::spec_frontier(m, root, rest, o)->Ok_0;
            &&& its[x].what->Err_0 matches Fault::Need(ids)
            &&& ids.len() == 1
            &&& !m.contains_key(ids[0])
            &&& out.len() == 0 || out[0] == ids[0]
        }),
{
    let slots = tree::leaves(m, root);
    let its = tree::items(m, root);
    let s = range::scan(its, r);
    let n = slots.len();
    tree::law_keys_ascend(m, root);
    tree::lemma_tree_slots(m, root, 0);
    lemma_plain(m, root);
    let j = lemma_gap(slots, x);
    assert(plain(m, slots[j]));
    if !tree::rooted(m, root) {
        assert(slots =~= seq![tree::root_slot(m, root)]);
        assert(slots[j].opened is Ok);
    }
    assert forall|k: int| 0 <= k < n implies tree::slot_items(#[trigger] slots[k]).len() > 0
        && tree::slot_items(slots[k])[0].key == slots[k].key by {
        reveal(tree::sound);
        assert(tree::sound(slots[k], tree::next_key(slots, None, k)));
    }
    // The places that lack their blocks, by where they stand.
    assert forall|i: int| 0 <= i < n && !m.contains_key((#[trigger] slots[i]).cid) && i != j implies {
        let y = offset(slots, i);
        &&& 0 <= y < its.len()
        &&& its[y].key == slots[i].key
        &&& its[y].what is Err
        &&& i < j <==> y < x
        &&& y != x
        &&& i + 1 < n ==> y + 1 < its.len() && its[y + 1].key == slots[i + 1].key
    } by {
        assert(plain(m, slots[i]));
        lemma_offset(slots, i);
        if i < j {
            lemma_offsets(slots, i, j);
        } else {
            lemma_offsets(slots, j, i);
        }
        if i + 1 < n {
            lemma_offset(slots, i + 1);
        }
    }
    if j + 1 < n {
        lemma_offset(slots, j);
        lemma_offset(slots, j + 1);
        assert(its[x + 1].key == slots[j + 1].key);
    }
    assert(x + 1 < its.len() ==> j + 1 < n) by {
        lemma_offset(slots, j);
    }
    if r.reverse {
        assert forall|i: int| 0 <= i < n && i > j && #[trigger] lacks::in_reach(
            slots,
            None,
            rest,
            i,
        ) implies m.contains_key(slots[i].cid) by {
            if !m.contains_key(slots[i].cid) {
                assert(!range::under(its[offset(slots, i)].key, rest.hi));
            }
        }
        if !lacks::in_reach(slots, None, rest, j) {
            assert(!range::under(its[x].key, rest.hi)) by {
                if range::under(its[x].key, rest.hi) && x + 1 < its.len() {
                    let next = its[x + 1].key;
                    assert(!range::reaches_only(next, r.lo)) by {
                        if s.served.len() == 0 {
                            assert(!range::under(next, rest.hi));
                            match (range::start_of(r), r.lo) {
                                (End::At(a), End::At(b)) => pages::lemma_three(a, b, next),
                                (End::At(a), End::Past(b)) => pages::lemma_three(a, b, next),
                                (End::Past(a), End::At(b)) => pages::lemma_three(a, b, next),
                                (End::Past(a), End::Past(b)) => pages::lemma_three(a, b, next),
                                _ => {},
                            }
                        }
                    }
                }
            }
            assert forall|i: int| 0 <= i < n && #[trigger] lacks::in_reach(
                slots,
                None,
                rest,
                i,
            ) implies m.contains_key(slots[i].cid) by {
                if !m.contains_key(slots[i].cid) && i != j {
                    let y = offset(slots, i);
                    assert(y > x);
                    assert(!range::under(its[y].key, rest.hi));
                }
            }
        }
    } else {
        assert forall|i: int| 0 <= i < n && i < j && #[trigger] lacks::in_reach(
            slots,
            None,
            rest,
            i,
        ) implies m.contains_key(slots[i].cid) by {
            if !m.contains_key(slots[i].cid) {
                let y = offset(slots, i);
                let next = its[y + 1].key;
                assert(next == slots[i + 1].key);
                if y + 1 < x {
                    assert(!range::above(next, rest.lo));
                    match rest.lo {
                        End::Open => {},
                        End::At(k) => pages::lemma_three(k, next, k),
                        End::Past(k) => pages::lemma_three(k, next, k),
                    }
                }
                assert(range::reaches_only(next, rest.lo));
            }
        }
        if !lacks::in_reach(slots, None, rest, j) {
            assert(!range::under(its[x].key, rest.hi));
            assert forall|i: int| 0 <= i < n && #[trigger] lacks::in_reach(
                slots,
                None,
                rest,
                i,
            ) implies m.contains_key(slots[i].cid) by {
                if !m.contains_key(slots[i].cid) && i != j {
                    let y = offset(slots, i);
                    if i > j {
                        pages::lemma_higher(its, rest.hi, x, y);
                    }
                }
            }
        }
    }
    lemma_named_first(m, root, rest, o, j);
}

/// A scan that is over has served all.
proof fn lemma_over(its: Seq<Item>, r: RangeView, s: Scan, x: int)
    requires
        ends_at(its, r, s, x),
        s.stop is EndOfRange || s.stop is EndOfTree,
    ensures
        s.served == pages::all_due(its, r, its.len()),
        forall|i: int|
            0 <= i < its.len() && pages::due((#[trigger] its[i]).key, r) ==> its[i].what is Ok,
{
    let n = its.len();
    if r.reverse {
        lemma_due_back(its, r, x + 1, n);
    } else {
        lemma_due_front(its, r, x, n);
    }
    assert forall|i: int| 0 <= i < n && pages::due((#[trigger] its[i]).key, r) implies its[i].what is Ok by {
        if r.reverse {
            assert(i > x);
            assert(ahead(its, true, x)[i - x - 1] == its[i]);
        } else {
            assert(i < x);
            assert(ahead(its, false, x)[i] == its[i]);
        }
    }
}

/// A page that is blocked.
#[verifier::rlimit(60)]
#[verifier::spinoff_prover]
proof fn lemma_blocked(m: BlockMap, root: Seq<u8>, r: RangeView, o: Options)
    requires
        m.contains_key(root),
        r.max_entries > 0,
        !range::hopeless(r),
        range::spec_page(m, root, r, o) is Ok,
        range::scan(tree::items(m, root), r).stop is Gap,
    ensures
        ({
            let its = tree::items(m, root);
            let p = range::spec_page(m, root, r, o)->Ok_0;
            &&& p.end is Blocked
            &&& p.next == if p.entries.len() > 0 {
                Some(p.entries.last().key)
            } else {
                None
            }
            &&& 0 < p.need.len() <= 64
            &&& p.need.no_duplicates()
            &&& forall|i: int| 0 <= i < p.need.len() ==> !m.contains_key(#[trigger] p.need[i])
            &&& exists|x: int|
                {
                    &&& p.entries == #[trigger] due_ahead(its, r, x)
                    &&& whole_ahead(its, r, x)
                    &&& 0 <= x < its.len()
                    &&& its[x].what == Err::<Payload, Fault>(Fault::Need(seq![p.need[0]]))
                }
        }),
{
    let its = tree::items(m, root);
    let p = range::spec_page(m, root, r, o)->Ok_0;
    let s = range::scan(its, r);
    tree::law_keys_ascend(m, root);
    let x = lemma_scan_ends(its, r);
    let f = s.stop->Gap_0;
    let rest = if s.served.len() > 0 {
        range::spec_rest_after(r, s.served.last().key)
    } else {
        range::spec_rest_from_start(r)
    };
    lemma_asked_first(m, root, r, o, x, rest);
    lacks::law_the_frontier_names_what_the_scan_lacks(m, root, rest, o);
    let ids = f->Need_0;
    assert(ids =~= seq![ids[0]]);
    assert(p.entries == due_ahead(its, r, x));
}

/// A page serves what is due, in scan order and within its limits, up to where it stops,
/// and says why it stops.
///
/// It holds at most as many entries as were asked for, and where it holds more than one,
/// at most as many bytes; a first entry is served however long it is. At a limit, either
/// it holds as many entries as were asked for, or the next one due would be too many
/// bytes. At the end of the range or of the tree it has served all that is due, and nothing
/// of it is missing. Where a block is missing it has served all that is due before that
/// block, and asks for that block first; what it asks for is not held, each block once, and
/// sixty-four at most.
#[verifier::rlimit(80)]
#[verifier::spinoff_prover]
pub proof fn law_a_page_serves_what_is_due_before_it_stops(
    m: BlockMap,
    root: Seq<u8>,
    r: RangeView,
    o: Options,
)
    requires
        r.max_entries > 0,
        range::spec_page(m, root, r, o) is Ok,
    ensures
        ({
            let its = tree::items(m, root);
            let p = range::spec_page(m, root, r, o)->Ok_0;
            &&& p.entries.len() <= r.max_entries
            &&& p.entries.len() > 1 ==> loads(p.entries) <= r.max_bytes
            &&& match p.end {
                PageEnd::Limit => {
                    &&& p.entries.len() > 0
                    &&& p.next == Some(p.entries.last().key)
                    &&& p.need.len() == 0
                    &&& exists|x: int|
                        {
                            &&& p.entries == #[trigger] due_ahead(its, r, x)
                            &&& whole_ahead(its, r, x)
                            &&& p.entries.len() == r.max_entries || (0 <= x < its.len()
                                && its[x].what is Ok && pages::due(its[x].key, r) && loads(
                                p.entries,
                            ) + load(pages::row_at(its, x)) > r.max_bytes)
                        }
                },
                PageEnd::Blocked => {
                    &&& p.next == if p.entries.len() > 0 {
                        Some(p.entries.last().key)
                    } else {
                        None
                    }
                    &&& 0 < p.need.len() <= 64
                    &&& p.need.no_duplicates()
                    &&& forall|i: int| 0 <= i < p.need.len() ==> !m.contains_key(#[trigger] p.need[i])
                    &&& exists|x: int|
                        {
                            &&& p.entries == #[trigger] due_ahead(its, r, x)
                            &&& whole_ahead(its, r, x)
                            &&& 0 <= x < its.len()
                            &&& its[x].what == Err::<Payload, Fault>(Fault::Need(seq![p.need[0]]))
                        }
                },
                _ => {
                    &&& p.next is None
                    &&& p.need.len() == 0
                    &&& p.entries == pages::all_due(its, r, its.len())
                    &&& forall|i: int|
                        0 <= i < its.len() && pages::due((#[trigger] its[i]).key, r)
                            ==> its[i].what is Ok
                    &&& p.end is EndOfTree && p.entries.len() > 0 ==> p.entries.last().key == (
                    if r.reverse {
                        its[0].key
                    } else {
                        its.last().key
                    })
                    &&& p.end is EndOfRange && p.entries.len() > 0 && !r.reverse
                        ==> p.entries.last().key != its.last().key
                },
            }
        }),
{
    let its = tree::items(m, root);
    let n = its.len();
    let p = range::spec_page(m, root, r, o)->Ok_0;
    tree::law_keys_ascend(m, root);
    if range::hopeless(r) {
        pages::lemma_hopeless(its, r);
        assert(p.entries =~= pages::all_due(its, r, n));
        assert forall|i: int| 0 <= i < n implies !pages::due((#[trigger] its[i]).key, r) by {
            lemma_hopeless_key(its[i].key, r);
        }
    } else if !m.contains_key(root) {
        assert(store::loaded(m, root) == Err::<NodeView, Fault>(Fault::Need(seq![root]))) by {
            reveal(store::loaded);
        }
        let s = tree::root_slot(m, root);
        assert(tree::leaves(m, root) =~= seq![s]);
        tree::lemma_flat_one(s);
        assert(its[0].what == Err::<Payload, Fault>(Fault::Need(seq![root])));
        let x = if r.reverse {
            its.len() - 1
        } else {
            0
        };
        assert(ahead(its, r.reverse, x) =~= Seq::<Item>::empty());
        assert(p.entries =~= due_ahead(its, r, x));
    } else {
        let s = range::scan(its, r);
        let x = lemma_scan_ends(its, r);
        assert(p.entries == s.served);
        match s.stop {
            Stop::Limit => {
                assert(p.entries == due_ahead(its, r, x));
            },
            Stop::Gap(f) => {
                lemma_blocked(m, root, r, o);
            },
            _ => {
                lemma_over(its, r, s, x);
            },
        }
    }
}

/// No key is due where the bounds already say so.
proof fn lemma_hopeless_key(key: Seq<u8>, r: RangeView)
    requires
        range::hopeless(r),
    ensures
        !pages::due(key, r),
{
    pages::lemma_due(key, r);
    let far = if r.reverse {
        r.lo
    } else {
        r.hi
    };
    match (range::start_of(r), far) {
        (End::At(x), End::At(y)) => pages::lemma_three(x, y, key),
        (End::At(x), End::Past(y)) => pages::lemma_three(x, y, key),
        (End::Past(x), End::At(y)) => pages::lemma_three(x, y, key),
        (End::Past(x), End::Past(y)) => pages::lemma_three(x, y, key),
        _ => {},
    }
}

} // verus!
