//! The pages of a range, one after the other: each begins where the one before it
//! stopped, and together they are the range, every entry once.

use crate::cursor;
use crate::grow;
use crate::node::Row;
use crate::order;
use crate::range;
use crate::range::{End, Options, PageView, RangeView, Scan, Stop};
use crate::store::{BlockMap, Fault};
use crate::tree;
use crate::tree::Item;
use vstd::prelude::*;

verus! {

/// Is a key in the range, and still to come in scan order?
pub open spec fn due(key: Seq<u8>, r: RangeView) -> bool {
    range::within(key, r) && match r.after {
        None => true,
        Some(x) => if r.reverse {
            order::lt(key, x)
        } else {
            order::lt(x, key)
        },
    }
}

/// The entry of an item.
pub open spec fn row_at(its: Seq<Item>, i: int) -> Row {
    Row { key: its[i].key, held: its[i].what->Ok_0 }
}

/// The entries still to come among the first `n` items, in scan order.
pub open spec fn all_due(its: Seq<Item>, r: RangeView, n: nat) -> Seq<Row>
    decreases n,
{
    if n == 0 {
        Seq::empty()
    } else {
        let before = all_due(its, r, (n - 1) as nat);
        let one = seq![row_at(its, n - 1)];
        if !due(its[n - 1].key, r) {
            before
        } else if r.reverse {
            one + before
        } else {
            before + one
        }
    }
}

/// A range taken up again past a key.
pub open spec fn resumed(r: RangeView, key: Seq<u8>) -> RangeView {
    RangeView { after: Some(key), ..r }
}

/// Are these the pages of a range, each asked for past the one before it?
pub open spec fn turned(
    m: BlockMap,
    root: Seq<u8>,
    r: RangeView,
    o: Options,
    pages: Seq<PageView>,
) -> bool
    decreases pages.len(),
{
    pages.len() > 0 ==> {
        &&& range::spec_page(m, root, r, o) == Ok::<PageView, Fault>(pages[0])
        &&& pages.len() > 1 ==> {
            &&& pages[0].next is Some
            &&& turned(m, root, resumed(r, pages[0].next->Some_0), o, pages.skip(1))
        }
    }
}

/// What some pages tell, one after the other.
pub open spec fn told(pages: Seq<PageView>) -> Seq<Row>
    decreases pages.len(),
{
    if pages.len() == 0 {
        Seq::empty()
    } else {
        pages[0].entries + told(pages.skip(1))
    }
}

/// Items `a` to `b`, in scan order.
pub open spec fn run(its: Seq<Item>, reverse: bool, a: int, b: int) -> Seq<Row> {
    if reverse {
        Seq::new((b - a) as nat, |i: int| row_at(its, b - 1 - i))
    } else {
        Seq::new((b - a) as nat, |i: int| row_at(its, a + i))
    }
}

/// The keys that are due, by where the scan starts.
pub proof fn lemma_due(key: Seq<u8>, r: RangeView)
    ensures
        r.reverse ==> {
            &&& due(key, r) <==> range::under(key, range::start_of(r)) && range::above(key, r.lo)
            &&& range::under(key, range::start_of(r)) ==> range::under(key, r.hi)
        },
        !r.reverse ==> {
            &&& due(key, r) <==> range::above(key, range::start_of(r)) && range::under(key, r.hi)
            &&& range::above(key, range::start_of(r)) ==> range::above(key, r.lo)
        },
{
    if let Some(x) = r.after {
        let bound = if r.reverse {
            r.hi
        } else {
            r.lo
        };
        if let End::At(k) = bound {
            lemma_three(k, x, key);
        }
        if let End::Past(k) = bound {
            lemma_three(k, x, key);
        }
    }
}

/// The order of three keys.
pub proof fn lemma_three(k: Seq<u8>, x: Seq<u8>, key: Seq<u8>)
    ensures
        order::lt(k, x) && order::lt(x, key) ==> order::lt(k, key),
        order::lt(key, x) && order::lt(x, k) ==> order::lt(key, k),
        order::lt(x, k) && order::lt(k, key) ==> order::lt(x, key),
        order::lt(key, k) && order::lt(k, x) ==> order::lt(key, x),
        order::lt(x, k) || order::lt(k, x) || x == k,
        order::lt(x, key) || order::lt(key, x) || x == key,
        order::lt(k, key) || order::lt(key, k) || k == key,
        !(order::lt(k, x) && order::lt(x, k)),
        !(order::lt(k, key) && order::lt(key, k)),
        !(order::lt(x, key) && order::lt(key, x)),
        !order::lt(k, k),
        !order::lt(x, x),
        !order::lt(key, key),
{
    order::lemma_lt_irreflexive(k);
    order::lemma_lt_irreflexive(x);
    order::lemma_lt_irreflexive(key);
    order::lemma_lt_total(x, k);
    order::lemma_lt_total(x, key);
    order::lemma_lt_total(k, key);
    if order::lt(k, x) && order::lt(x, key) {
        order::lemma_lt_trans(k, x, key);
    }
    if order::lt(key, x) && order::lt(x, k) {
        order::lemma_lt_trans(key, x, k);
    }
    if order::lt(x, k) && order::lt(k, key) {
        order::lemma_lt_trans(x, k, key);
    }
    if order::lt(key, k) && order::lt(k, x) {
        order::lemma_lt_trans(key, k, x);
    }
    if order::lt(k, x) && order::lt(x, k) {
        order::lemma_lt_trans(k, x, k);
    }
    if order::lt(k, key) && order::lt(key, k) {
        order::lemma_lt_trans(k, key, k);
    }
    if order::lt(x, key) && order::lt(key, x) {
        order::lemma_lt_trans(x, key, x);
    }
}

/// What is due is a run of items.
pub proof fn lemma_due_run(its: Seq<Item>, r: RangeView, a: int, b: int, n: nat)
    requires
        0 <= a <= b <= its.len(),
        n <= its.len(),
        forall|i: int| 0 <= i < n ==> (due((#[trigger] its[i]).key, r) <==> a <= i < b),
    ensures
        all_due(its, r, n) == run(
            its,
            r.reverse,
            if a < n {
                a
            } else {
                n as int
            },
            if b < n {
                b
            } else {
                n as int
            },
        ),
    decreases n,
{
    if n > 0 {
        lemma_due_run(its, r, a, b, (n - 1) as nat);
        assert(due(its[n - 1].key, r) <==> a <= n - 1 < b);
    }
    let x = if a < n {
        a
    } else {
        n as int
    };
    let y = if b < n {
        b
    } else {
        n as int
    };
    assert(all_due(its, r, n) =~= run(its, r.reverse, x, y));
}

/// Where a forward scan ends.
proof fn lemma_forward(its: Seq<Item>, r: RangeView, q: int, served: Seq<Row>, bytes: int) -> (e: int)
    requires
        !r.reverse,
        tree::ascending(its),
        forall|i: int| 0 <= i < its.len() ==> (#[trigger] its[i]).what is Ok,
        0 <= q <= its.len(),
        forall|i: int| q <= i < its.len() ==> range::above((#[trigger] its[i]).key, r.lo),
    ensures
        q <= e <= its.len(),
        ({
            let s = range::scan_from(its, r, q, served, bytes);
            &&& s.served == served + run(its, false, q, e)
            &&& forall|i: int| q <= i < e ==> range::under((#[trigger] its[i]).key, r.hi)
            &&& match s.stop {
                Stop::Limit => s.served.len() > 0,
                Stop::Gap(_) => false,
                _ => forall|i: int| e <= i < its.len() ==> !range::under((#[trigger] its[i]).key, r.hi),
            }
        }),
    decreases its.len() - q,
{
    let s = range::scan_from(its, r, q, served, bytes);
    if q == its.len() {
        assert(s.served =~= served + run(its, false, q, q));
        q
    } else {
        let row = row_at(its, q);
        assert(range::above(its[q].key, r.lo));
        if !range::under(its[q].key, r.hi) {
            assert forall|i: int| q <= i < its.len() implies !range::under(
                (#[trigger] its[i]).key,
                r.hi,
            ) by {
                lemma_higher(its, r.hi, q, i);
            }
            assert(s.served =~= served + run(its, false, q, q));
            q
        } else if served.len() > 0 && bytes + range::carried(row) > r.max_bytes {
            assert(s.served =~= served + run(its, false, q, q));
            q
        } else {
            let more = served.push(row);
            let total = bytes + range::carried(row);
            assert(more =~= served + run(its, false, q, q + 1));
            if more.len() >= r.max_entries || q + 1 == its.len() {
                q + 1
            } else if !range::under(its[q + 1].key, r.hi) {
                assert forall|i: int| q + 1 <= i < its.len() implies !range::under(
                    (#[trigger] its[i]).key,
                    r.hi,
                ) by {
                    lemma_higher(its, r.hi, q + 1, i);
                }
                q + 1
            } else {
                assert(its[q + 1].what is Ok);
                let e = lemma_forward(its, r, q + 1, more, total);
                assert(s == range::scan_from(its, r, q + 1, more, total));
                assert(s.served =~= served + run(its, false, q, e));
                e
            }
        }
    }
}

/// Where a scan backwards ends.
proof fn lemma_backward(its: Seq<Item>, r: RangeView, q: int, served: Seq<Row>, bytes: int) -> (e: int)
    requires
        r.reverse,
        tree::ascending(its),
        forall|i: int| 0 <= i < its.len() ==> (#[trigger] its[i]).what is Ok,
        -1 <= q < its.len(),
        forall|i: int| 0 <= i <= q ==> range::under((#[trigger] its[i]).key, r.hi),
    ensures
        -1 <= e <= q,
        ({
            let s = range::scan_from(its, r, q, served, bytes);
            &&& s.served == served + run(its, true, e + 1, q + 1)
            &&& forall|i: int| e < i <= q ==> range::above((#[trigger] its[i]).key, r.lo)
            &&& match s.stop {
                Stop::Limit => s.served.len() > 0,
                Stop::Gap(_) => false,
                _ => forall|i: int| 0 <= i <= e ==> !range::above((#[trigger] its[i]).key, r.lo),
            }
        }),
    decreases q + 1,
{
    let s = range::scan_from(its, r, q, served, bytes);
    if q < 0 {
        assert(s.served =~= served + run(its, true, q + 1, q + 1));
        q
    } else {
        let row = row_at(its, q);
        assert(range::under(its[q].key, r.hi));
        if !range::above(its[q].key, r.lo) {
            assert forall|i: int| 0 <= i <= q implies !range::above((#[trigger] its[i]).key, r.lo) by {
                lemma_lower(its, r.lo, i, q);
            }
            assert(s.served =~= served + run(its, true, q + 1, q + 1));
            q
        } else if served.len() > 0 && bytes + range::carried(row) > r.max_bytes {
            assert(s.served =~= served + run(its, true, q + 1, q + 1));
            q
        } else {
            let more = served.push(row);
            let total = bytes + range::carried(row);
            assert(more =~= served + run(its, true, q, q + 1));
            if more.len() >= r.max_entries {
                q - 1
            } else if range::at_bottom(its[q].key, r.lo) {
                assert forall|i: int| 0 <= i <= q - 1 implies !range::above(
                    (#[trigger] its[i]).key,
                    r.lo,
                ) by {
                    assert(order::lt(its[i].key, its[q].key));
                    match r.lo {
                        End::Open => {},
                        End::At(k) => lemma_three(k, its[q].key, its[i].key),
                        End::Past(k) => lemma_three(k, its[q].key, its[i].key),
                    }
                }
                q - 1
            } else if q == 0 {
                q - 1
            } else {
                assert(its[q - 1].what is Ok);
                let e = lemma_backward(its, r, q - 1, more, total);
                assert(s == range::scan_from(its, r, q - 1, more, total));
                assert(s.served =~= served + run(its, true, e + 1, q + 1));
                e
            }
        }
    }
}

/// Past the high end, every later item is.
pub proof fn lemma_higher(its: Seq<Item>, hi: End, q: int, i: int)
    requires
        tree::ascending(its),
        0 <= q <= i < its.len(),
        !range::under(its[q].key, hi),
    ensures
        !range::under(its[i].key, hi),
{
    if q < i {
        assert(order::lt(its[q].key, its[i].key));
        match hi {
            End::Open => {},
            End::At(k) => lemma_three(k, its[q].key, its[i].key),
            End::Past(k) => lemma_three(k, its[q].key, its[i].key),
        }
    }
}

/// Before the low end, every earlier item is.
pub proof fn lemma_lower(its: Seq<Item>, lo: End, i: int, q: int)
    requires
        tree::ascending(its),
        0 <= i <= q < its.len(),
        !range::above(its[q].key, lo),
    ensures
        !range::above(its[i].key, lo),
{
    if i < q {
        assert(order::lt(its[i].key, its[q].key));
        match lo {
            End::Open => {},
            End::At(k) => lemma_three(k, its[q].key, its[i].key),
            End::Past(k) => lemma_three(k, its[q].key, its[i].key),
        }
    }
}

/// Where a key splits the items.
pub proof fn lemma_split(its: Seq<Item>, key: Seq<u8>)
    requires
        tree::ascending(its),
    ensures
        0 <= cursor::count_before(its, key, false) <= its.len(),
        0 <= cursor::count_before(its, key, true) <= its.len(),
        forall|i: int|
            0 <= i < its.len() ==> (order::lt((#[trigger] its[i]).key, key) <==> i
                < cursor::count_before(its, key, false)),
        forall|i: int|
            0 <= i < its.len() ==> (order::le((#[trigger] its[i]).key, key) <==> i
                < cursor::count_before(its, key, true)),
{
    let n = its.len();
    grow::lemma_below(its, key, n);
    tree::lemma_rank(its, key, n);
    let b = cursor::count_before(its, key, false);
    let c = cursor::count_before(its, key, true);
    assert forall|i: int| 0 <= i < n implies (order::lt((#[trigger] its[i]).key, key) <==> i < b) by {
        if i < b {
            if i < b - 1 {
                assert(order::lt(its[i].key, its[b - 1].key));
            }
            lemma_three(its[b - 1].key, its[i].key, key);
        } else {
            assert(order::le(key, its[i].key));
            lemma_three(key, its[i].key, key);
        }
    }
    assert forall|i: int| 0 <= i < n implies (order::le((#[trigger] its[i]).key, key) <==> i < c) by {
        if i < c {
            if i < c - 1 {
                assert(order::lt(its[i].key, its[c - 1].key));
            }
            lemma_three(its[c - 1].key, its[i].key, key);
        } else {
            assert(order::lt(key, its[i].key));
            lemma_three(key, its[i].key, key);
        }
    }
}

/// Where a forward scan starts.
proof fn lemma_starts(its: Seq<Item>, r: RangeView) -> (a: int)
    requires
        !r.reverse,
        tree::ascending(its),
        forall|i: int| 0 <= i < its.len() ==> (#[trigger] its[i]).what is Ok,
    ensures
        0 <= a <= its.len(),
        forall|i: int|
            0 <= i < its.len() ==> (range::above((#[trigger] its[i]).key, range::start_of(r)) <==> a
                <= i),
        range::scan(its, r) == range::scan_from(its, r, a, Seq::empty(), 0) || {
            &&& range::scan(its, r) == range::nothing(Stop::EndOfRange)
            &&& a < its.len()
            &&& !range::under(its[a].key, r.hi)
        },
{
    match range::start_of(r) {
        End::Open => {
            let none = Seq::<u8>::empty();
            lemma_split(its, none);
            let b = cursor::count_before(its, none, false);
            if b > 0 {
                assert(order::lt(its[0].key, none));
                order::lemma_empty_first(its[0].key);
                lemma_three(its[0].key, none, none);
            }
            lemma_no_fault(its, none);
            0
        },
        End::At(k) => {
            lemma_split(its, k);
            lemma_no_fault(its, k);
            assert forall|i: int| 0 <= i < its.len() implies (range::above(
                (#[trigger] its[i]).key,
                range::start_of(r),
            ) <==> cursor::count_before(its, k, false) <= i) by {
                lemma_three(k, its[i].key, k);
            }
            cursor::count_before(its, k, false)
        },
        End::Past(k) => {
            lemma_split(its, k);
            lemma_no_fault(its, k);
            let b = cursor::count_before(its, k, false);
            let c = cursor::count_before(its, k, true);
            assert forall|i: int| 0 <= i < its.len() implies (range::above(
                (#[trigger] its[i]).key,
                range::start_of(r),
            ) <==> c <= i) by {
                lemma_three(k, its[i].key, k);
            }
            if b < its.len() {
                lemma_three(k, its[b].key, k);
                if its[b].key == k {
                    assert(b < c);
                    if b + 1 < its.len() {
                        assert(order::lt(its[b].key, its[b + 1].key));
                        lemma_three(k, its[b + 1].key, k);
                        assert(!(b + 1 < c));
                        assert(its[b + 1].what is Ok);
                    }
                    assert(c == b + 1);
                } else {
                    assert(!(b < c));
                    if c < b {
                        assert(order::lt(its[c].key, k));
                    }
                    assert(c == b);
                }
            } else if c < b {
                assert(order::lt(its[c].key, k));
            }
            c
        },
    }
}

/// A list without gaps has none where a key leads.
proof fn lemma_no_fault(its: Seq<Item>, key: Seq<u8>)
    requires
        forall|i: int| 0 <= i < its.len() ==> (#[trigger] its[i]).what is Ok,
    ensures
        cursor::cover_fault(its, key) is None,
{
    tree::lemma_rank(its, key, its.len());
}

/// Where a scan backwards starts.
proof fn lemma_starts_back(its: Seq<Item>, r: RangeView) -> (b: int)
    requires
        r.reverse,
        tree::ascending(its),
        forall|i: int| 0 <= i < its.len() ==> (#[trigger] its[i]).what is Ok,
    ensures
        0 <= b <= its.len(),
        forall|i: int|
            0 <= i < its.len() ==> (range::under((#[trigger] its[i]).key, range::start_of(r)) <==> i
                < b),
        b > 0 ==> range::scan(its, r) == range::scan_from(its, r, b - 1, Seq::empty(), 0),
        b == 0 ==> range::scan(its, r).served.len() == 0 && (range::scan(its, r).stop is EndOfRange
            || range::scan(its, r).stop is EndOfTree),
{
    if its.len() > 0 {
        assert(its[0].what is Ok);
    }
    match range::start_of(r) {
        End::Open => its.len() as int,
        End::At(k) => {
            lemma_split(its, k);
            cursor::count_before(its, k, true)
        },
        End::Past(k) => {
            lemma_split(its, k);
            cursor::count_before(its, k, false)
        },
    }
}

/// A scan of a list without gaps serves the first of what is due, one entry at
/// least where it stops at a limit, and what is due past the last it served is the
/// rest. Where it does not stop at a limit, it has served all that is due.
pub proof fn law_a_scan_serves_what_is_due(its: Seq<Item>, r: RangeView)
    requires
        tree::ascending(its),
        forall|i: int| 0 <= i < its.len() ==> (#[trigger] its[i]).what is Ok,
    ensures
        ({
            let s = range::scan(its, r);
            let all = all_due(its, r, its.len());
            match s.stop {
                Stop::Limit => s.served.len() > 0 && all == s.served + all_due(
                    its,
                    resumed(r, s.served.last().key),
                    its.len(),
                ),
                Stop::Gap(_) => false,
                _ => all == s.served,
            }
        }),
{
    let n = its.len();
    let s = range::scan(its, r);
    if r.reverse {
        let b = lemma_starts_back(its, r);
        assert forall|i: int| 0 <= i < b implies range::under((#[trigger] its[i]).key, r.hi) by {
            lemma_due(its[i].key, r);
        }
        let e = if b > 0 {
            lemma_backward(its, r, b - 1, Seq::empty(), 0)
        } else {
            -1
        };
        assert(s.served =~= run(its, true, e + 1, b));
        lemma_taken(its, r, e + 1, b, s);
    } else {
        let a = lemma_starts(its, r);
        assert forall|i: int| a <= i < n implies range::above((#[trigger] its[i]).key, r.lo) by {
            lemma_due(its[i].key, r);
        }
        if s == range::scan_from(its, r, a, Seq::empty(), 0) {
            let e = lemma_forward(its, r, a, Seq::empty(), 0);
            assert(s.served =~= run(its, false, a, e));
            lemma_taken(its, r, a, e, s);
        } else {
            assert forall|i: int| a <= i < n implies !range::under((#[trigger] its[i]).key, r.hi) by {
                lemma_higher(its, r.hi, a, i);
            }
            lemma_taken(its, r, a, a, s);
        }
    }
}

/// A scan that took items `a` to `b`, from where it starts.
proof fn lemma_taken(its: Seq<Item>, r: RangeView, a: int, b: int, s: Scan)
    requires
        tree::ascending(its),
        0 <= a <= b <= its.len(),
        s.served == run(its, r.reverse, a, b),
        forall|i: int| a <= i < b ==> range::within((#[trigger] its[i]).key, r),
        r.reverse ==> forall|i: int|
            0 <= i < its.len() ==> (range::under((#[trigger] its[i]).key, range::start_of(r)) <==> i
                < b),
        !r.reverse ==> forall|i: int|
            0 <= i < its.len() ==> (range::above((#[trigger] its[i]).key, range::start_of(r)) <==> a
                <= i),
        match s.stop {
            Stop::Limit => s.served.len() > 0,
            Stop::Gap(_) => false,
            _ => if r.reverse {
                forall|i: int| 0 <= i < a ==> !range::above((#[trigger] its[i]).key, r.lo)
            } else {
                forall|i: int| b <= i < its.len() ==> !range::under((#[trigger] its[i]).key, r.hi)
            },
        },
    ensures
        s.stop is Limit ==> all_due(its, r, its.len()) == s.served + all_due(
            its,
            resumed(r, s.served.last().key),
            its.len(),
        ),
        !(s.stop is Limit) ==> all_due(its, r, its.len()) == s.served,
{
    let n = its.len();
    if s.stop is Limit {
        // The far end of what is due.
        let key = s.served.last().key;
        let next = resumed(r, key);
        if r.reverse {
            assert(key == its[a].key);
            let c = lemma_low_end(its, r.lo, a);
            assert forall|i: int| 0 <= i < n implies (due((#[trigger] its[i]).key, r) <==> c <= i < b) by {
                lemma_due(its[i].key, r);
                if a <= i && i < b {
                    assert(range::within(its[i].key, r));
                }
            }
            assert forall|i: int| 0 <= i < n implies (due((#[trigger] its[i]).key, next) <==> c <= i
                < a) by {
                lemma_due(its[i].key, r);
                if i < a {
                    assert(order::lt(its[i].key, its[a].key));
                } else if a < i {
                    assert(order::lt(its[a].key, its[i].key));
                }
                lemma_three(its[a].key, its[i].key, its[a].key);
            }
            lemma_due_run(its, r, c, b, n);
            lemma_due_run(its, next, c, a, n);
            assert(run(its, true, c, b) =~= run(its, true, a, b) + run(its, true, c, a));
        } else {
            assert(key == its[b - 1].key);
            let c = lemma_high_end(its, r.hi, b);
            assert forall|i: int| 0 <= i < n implies (due((#[trigger] its[i]).key, r) <==> a <= i < c) by {
                lemma_due(its[i].key, r);
                if a <= i && i < b {
                    assert(range::within(its[i].key, r));
                }
            }
            assert forall|i: int| 0 <= i < n implies (due((#[trigger] its[i]).key, next) <==> b <= i
                < c) by {
                lemma_due(its[i].key, r);
                if i < b - 1 {
                    assert(order::lt(its[i].key, its[b - 1].key));
                } else if b - 1 < i {
                    assert(order::lt(its[b - 1].key, its[i].key));
                }
                lemma_three(its[b - 1].key, its[i].key, its[b - 1].key);
            }
            lemma_due_run(its, r, a, c, n);
            lemma_due_run(its, next, b, c, n);
            assert(run(its, false, a, c) =~= run(its, false, a, b) + run(its, false, b, c));
        }
    } else {
        assert forall|i: int| 0 <= i < n implies (due((#[trigger] its[i]).key, r) <==> a <= i < b) by {
            lemma_due(its[i].key, r);
            if a <= i && i < b {
                assert(range::within(its[i].key, r));
            }
        }
        lemma_due_run(its, r, a, b, n);
    }
}

/// The first item below `a` from which on all are above the low end.
proof fn lemma_low_end(its: Seq<Item>, lo: End, a: int) -> (c: int)
    requires
        tree::ascending(its),
        0 <= a <= its.len(),
    ensures
        0 <= c <= a,
        forall|i: int| 0 <= i < a ==> (range::above((#[trigger] its[i]).key, lo) <==> c <= i),
    decreases a,
{
    if a == 0 {
        0
    } else if range::above(its[a - 1].key, lo) {
        lemma_low_end(its, lo, a - 1)
    } else {
        assert forall|i: int| 0 <= i < a implies !range::above((#[trigger] its[i]).key, lo) by {
            lemma_lower(its, lo, i, a - 1);
        }
        a
    }
}

/// The first item from `b` on that is past the high end.
proof fn lemma_high_end(its: Seq<Item>, hi: End, b: int) -> (c: int)
    requires
        tree::ascending(its),
        0 <= b <= its.len(),
    ensures
        b <= c <= its.len(),
        forall|i: int| b <= i < its.len() ==> (range::under((#[trigger] its[i]).key, hi) <==> i < c),
    decreases its.len() - b,
{
    if b == its.len() {
        b
    } else if range::under(its[b].key, hi) {
        lemma_high_end(its, hi, b + 1)
    } else {
        assert forall|i: int| b <= i < its.len() implies !range::under((#[trigger] its[i]).key, hi) by {
            lemma_higher(its, hi, b, i);
        }
        b
    }
}

/// Nothing is due where the bounds already say so.
pub proof fn lemma_hopeless(its: Seq<Item>, r: RangeView)
    requires
        range::hopeless(r),
    ensures
        all_due(its, r, its.len()).len() == 0,
{
    assert forall|i: int| 0 <= i < its.len() implies !due((#[trigger] its[i]).key, r) by {
        let key = its[i].key;
        lemma_due(key, r);
        let far = if r.reverse {
            r.lo
        } else {
            r.hi
        };
        match (range::start_of(r), far) {
            (End::At(x), End::At(y)) => lemma_three(x, y, key),
            (End::At(x), End::Past(y)) => lemma_three(x, y, key),
            (End::Past(x), End::At(y)) => lemma_three(x, y, key),
            (End::Past(x), End::Past(y)) => lemma_three(x, y, key),
            _ => {},
        }
    }
    lemma_due_run(its, r, 0, 0, its.len());
}

/// The pages of a range over a tree that is all there, each asked for past the one
/// before it, begin the range in scan order, and no entry comes twice. Each page
/// but the last tells an entry at least, so there is one page more than entries at
/// most. The page that names no next key ends the range: then the pages are all of
/// it.
pub proof fn law_the_pages_of_a_range_are_the_range(
    m: BlockMap,
    root: Seq<u8>,
    r: RangeView,
    o: Options,
    pages: Seq<PageView>,
)
    requires
        m.contains_key(root),
        tree::complete(m, root),
        pages.len() > 0,
        turned(m, root, r, o, pages),
    ensures
        ({
            let its = tree::items(m, root);
            let all = all_due(its, r, its.len());
            &&& pages.len() <= all.len() + 1
            &&& told(pages).len() <= all.len()
            &&& told(pages) == all.take(told(pages).len() as int)
            &&& pages.last().next is None ==> told(pages) == all
            &&& pages.last().next is None ==> pages.last().end is EndOfRange
                || pages.last().end is EndOfTree
        }),
    decreases pages.len(),
{
    let its = tree::items(m, root);
    let all = all_due(its, r, its.len());
    let s = range::scan(its, r);
    let tail = pages.skip(1);
    tree::law_keys_ascend(m, root);
    if range::hopeless(r) {
        lemma_hopeless(its, r);
    } else {
        law_a_scan_serves_what_is_due(its, r);
    }
    assert(told(pages) == pages[0].entries + told(tail));
    if pages.len() > 1 {
        let key = pages[0].next->Some_0;
        let next = resumed(r, key);
        law_the_pages_of_a_range_are_the_range(m, root, next, o, tail);
        let left = all_due(its, next, its.len());
        assert(tail.last() == pages.last());
        assert(all == pages[0].entries + left);
        assert(told(pages) =~= all.take(told(pages).len() as int));
        if pages.last().next is None {
            assert(told(pages) =~= all);
        }
    } else {
        assert(told(tail) =~= Seq::<Row>::empty());
        assert(told(pages) =~= pages[0].entries);
        assert(told(pages) =~= all.take(told(pages).len() as int));
        if pages.last().next is None {
            assert(told(pages) =~= all);
        }
    }
}

} // verus!
