//! What more blocks change: a gap may open up, nothing else. So an answer that was
//! given without a gap in its way is the answer of every store that holds more.

use crate::aggregate;
use crate::aggregate::Tally;
use crate::cursor;
use crate::cursor::Spot;
use crate::expand;
use crate::node::Row;
use crate::order;
use crate::range;
use crate::range::{End, PageEnd, RangeView, Stop};
use crate::store;
use crate::store::{BlockMap, Fault, HeldView};
use crate::tree;
use crate::tree::{Item, Slot};
use vstd::prelude::*;

verus! {

/// Is item `p` of `a` at `at[p]` in `b`: an entry as it is, a gap as a run of items
/// that begins with its key?
pub open spec fn filled_at(a: Seq<Item>, b: Seq<Item>, at: Seq<int>, p: int) -> bool {
    &&& 0 <= at[p] < at[p + 1] <= b.len()
    &&& b[at[p]].key == a[p].key
    &&& a[p].what is Ok ==> at[p + 1] == at[p] + 1 && b[at[p]] == a[p]
}

/// Is `b` the list `a` with gaps filled in?
#[verifier::opaque]
pub open spec fn fills(a: Seq<Item>, b: Seq<Item>, at: Seq<int>) -> bool {
    &&& at.len() == a.len() + 1
    &&& at[0] == 0
    &&& at[a.len() as int] == b.len()
    &&& tree::ascending(a)
    &&& tree::ascending(b)
    &&& forall|p: int| 0 <= p < a.len() ==> #[trigger] filled_at(a, b, at, p)
}

/// What is known of one item.
proof fn lemma_at(a: Seq<Item>, b: Seq<Item>, at: Seq<int>, p: int)
    requires
        fills(a, b, at),
        0 <= p < a.len(),
    ensures
        filled_at(a, b, at, p),
        at.len() == a.len() + 1,
        at[0] == 0,
        at[a.len() as int] == b.len(),
        tree::ascending(a),
        tree::ascending(b),
{
    reveal(fills);
}

/// Items keep their order.
proof fn lemma_at_order(a: Seq<Item>, b: Seq<Item>, at: Seq<int>, i: int, j: int)
    requires
        fills(a, b, at),
        0 <= i <= j <= a.len(),
    ensures
        0 <= at[i] <= at[j] <= b.len(),
        i < j ==> at[i] < at[j],
    decreases j - i,
{
    if i < j {
        lemma_at_order(a, b, at, i, j - 1);
        lemma_at(a, b, at, j - 1);
    } else if i < a.len() {
        lemma_at(a, b, at, i);
    } else {
        reveal(fills);
    }
}

/// Everything before where an item is comes before its key, everything from there on
/// does not.
proof fn lemma_split_at(a: Seq<Item>, b: Seq<Item>, at: Seq<int>, p: int)
    requires
        fills(a, b, at),
        0 <= p < a.len(),
    ensures
        forall|i: int| 0 <= i < at[p] ==> order::lt((#[trigger] b[i]).key, a[p].key),
        forall|i: int| at[p] <= i < b.len() ==> order::le(a[p].key, (#[trigger] b[i]).key),
{
    lemma_at(a, b, at, p);
    let q = at[p];
    assert forall|i: int| 0 <= i < q implies order::lt((#[trigger] b[i]).key, a[p].key) by {
        assert(order::lt(b[i].key, b[q].key));
    }
    assert forall|i: int| q <= i < b.len() implies order::le(a[p].key, (#[trigger] b[i]).key) by {
        if i > q {
            assert(order::lt(b[q].key, b[i].key));
        }
    }
}

/// How many items come before a key, in a list that ascends.
proof fn lemma_below_is(its: Seq<Item>, key: Seq<u8>, p: nat)
    requires
        p <= its.len(),
        p > 0 ==> order::lt(its[p - 1].key, key),
        forall|i: int| p <= i < its.len() ==> order::le(key, (#[trigger] its[i]).key),
    ensures
        cursor::below(its, key, its.len()) == p,
{
    lemma_below_to(its, key, p, its.len());
}

proof fn lemma_below_to(its: Seq<Item>, key: Seq<u8>, p: nat, n: nat)
    requires
        p <= n <= its.len(),
        p > 0 ==> order::lt(its[p - 1].key, key),
        forall|i: int| p <= i < its.len() ==> order::le(key, (#[trigger] its[i]).key),
    ensures
        cursor::below(its, key, n) == p,
    decreases n,
{
    if n > p {
        assert(order::le(key, its[n - 1].key));
        order::lemma_le_trans(key, its[n - 1].key, key);
        lemma_below_to(its, key, p, (n - 1) as nat);
    }
}

/// What is known of how many items come before a key.
pub proof fn lemma_below(its: Seq<Item>, key: Seq<u8>, n: nat)
    requires
        n <= its.len(),
    ensures
        cursor::below(its, key, n) <= n,
        cursor::below(its, key, n) > 0 ==> order::lt(its[cursor::below(its, key, n) - 1].key, key),
        forall|i: int|
            cursor::below(its, key, n) <= i < n ==> order::le(key, (#[trigger] its[i]).key),
    decreases n,
{
    if n > 0 && !order::lt(its[n - 1].key, key) {
        order::lemma_le_trans(key, its[n - 1].key, key);
        lemma_below(its, key, (n - 1) as nat);
    }
}

/// A key's rank, where the item that decides is an entry.
proof fn lemma_rank_fills(a: Seq<Item>, b: Seq<Item>, at: Seq<int>, key: Seq<u8>)
    requires
        fills(a, b, at),
    ensures
        ({
            let p = tree::rank(a, key, a.len());
            &&& p == 0 ==> tree::rank(b, key, b.len()) == 0
            &&& p > 0 && a[p - 1].what is Ok ==> tree::rank(b, key, b.len()) == at[p as int]
        }),
{
    let p = tree::rank(a, key, a.len());
    tree::lemma_rank(a, key, a.len());
    lemma_at_order(a, b, at, 0, p as int);
    assert forall|i: int| at[p as int] <= i < b.len() implies order::lt(key, (#[trigger] b[i]).key) by {
        if p < a.len() {
            lemma_split_at(a, b, at, p as int);
            order::lemma_le_trans(key, a[p as int].key, b[i].key);
        } else {
            reveal(fills);
        }
    }
    if p == 0 {
        assert(at[0] == 0) by {
            reveal(fills);
        }
        tree::lemma_rank_is(b, key, 0);
    } else if a[p - 1].what is Ok {
        lemma_at(a, b, at, p - 1);
        tree::lemma_rank_is(b, key, at[p as int] as nat);
    }
}

/// What was found, or found not to be there, stays so.
pub proof fn lemma_lookup_fills(a: Seq<Item>, b: Seq<Item>, at: Seq<int>, key: Seq<u8>)
    requires
        fills(a, b, at),
        tree::lookup(a, key) is Ok,
    ensures
        tree::lookup(b, key) == tree::lookup(a, key),
{
    let p = tree::rank(a, key, a.len());
    tree::lemma_rank(a, key, a.len());
    lemma_rank_fills(a, b, at, key);
    if p > 0 {
        lemma_at(a, b, at, p - 1);
    }
}

/// Where a seek lands, it lands with the gaps filled in.
spec fn moved(at: Seq<int>, s: Spot) -> Spot {
    match s {
        Spot::At(q) => Spot::At(at[q]),
        other => other,
    }
}

/// Landing on an item.
proof fn lemma_lands(a: Seq<Item>, b: Seq<Item>, at: Seq<int>, q: int, none: Spot)
    requires
        fills(a, b, at),
        -1 <= q <= a.len(),
        cursor::lands(a, q, none) is Ok,
        !(none is At),
    ensures
        q >= 0 ==> cursor::lands(b, at[q], none) == Ok::<Spot, Fault>(
            moved(at, cursor::lands(a, q, none)->Ok_0),
        ),
        q >= 0 && q < a.len() ==> a[q].what is Ok,
{
    if 0 <= q < a.len() {
        lemma_at(a, b, at, q);
    } else {
        reveal(fills);
    }
}

/// A seek to the first item at or after a key.
proof fn lemma_seek(a: Seq<Item>, b: Seq<Item>, at: Seq<int>, key: Seq<u8>)
    requires
        fills(a, b, at),
        cursor::seek_spot(a, key) is Ok,
    ensures
        cursor::seek_spot(b, key) == Ok::<Spot, Fault>(moved(at, cursor::seek_spot(a, key)->Ok_0)),
{
    let r = tree::rank(a, key, a.len());
    tree::lemma_rank(a, key, a.len());
    lemma_rank_fills(a, b, at, key);
    let q = cursor::below(a, key, a.len());
    lemma_below(a, key, a.len());
    lemma_at_order(a, b, at, q as int, a.len() as int);
    lemma_at_order(a, b, at, 0, q as int);
    assert(at[0] == 0) by {
        reveal(fills);
    }
    // the item before `q` is an entry, or `q` has the key
    assert(cursor::below(b, key, b.len()) == at[q as int]) by {
        assert forall|i: int| at[q as int] <= i < b.len() implies order::le(
            key,
            (#[trigger] b[i]).key,
        ) by {
            if q < a.len() {
                lemma_split_at(a, b, at, q as int);
                order::lemma_le_trans(key, a[q as int].key, b[i].key);
            } else {
                reveal(fills);
            }
        }
        if q > 0 {
            let l = at[q as int] - 1;
            lemma_at(a, b, at, q - 1);
            if a[q - 1].what is Ok {
                assert(b[l].key == a[q - 1].key);
            } else {
                assert(q < a.len() && a[q as int].key == key) by {
                    if q < a.len() {
                        if a[q as int].key != key {
                            lemma_rank_here(a, key, q);
                        }
                    } else {
                        lemma_rank_here(a, key, q);
                    }
                }
                lemma_split_at(a, b, at, q as int);
                assert(order::lt(b[l].key, a[q as int].key));
            }
        }
        lemma_below_is(b, key, at[q as int] as nat);
    }
    lemma_lands(a, b, at, q as int, Spot::AfterEnd);
    assert(cursor::cover_fault(b, key) is None) by {
        if a.len() > 0 {
            lemma_at(a, b, at, 0);
            if r > 0 {
                lemma_at(a, b, at, r - 1);
            }
        } else {
            reveal(fills);
        }
    }
}

/// The rank of a key, where the next item is beyond it.
proof fn lemma_rank_here(its: Seq<Item>, key: Seq<u8>, q: nat)
    requires
        tree::ascending(its),
        0 < q <= its.len(),
        order::lt(its[q - 1].key, key),
        q < its.len() ==> order::lt(key, its[q as int].key),
    ensures
        tree::rank(its, key, its.len()) == q,
{
    assert forall|i: int| q <= i < its.len() implies order::lt(key, (#[trigger] its[i]).key) by {
        if i > q {
            assert(order::lt(its[q as int].key, its[i].key));
            order::lemma_lt_trans(key, its[q as int].key, its[i].key);
        }
    }
    tree::lemma_rank_is(its, key, q);
}

/// A seek to the last item before a key, or at it.
proof fn lemma_seek_back(a: Seq<Item>, b: Seq<Item>, at: Seq<int>, key: Seq<u8>, included: bool)
    requires
        fills(a, b, at),
        cursor::back_spot(a, key, included) is Ok,
    ensures
        cursor::back_spot(b, key, included) == Ok::<Spot, Fault>(
            moved(at, cursor::back_spot(a, key, included)->Ok_0),
        ),
{
    let n = cursor::count_before(a, key, included);
    tree::lemma_rank(a, key, a.len());
    lemma_below(a, key, a.len());
    lemma_at_order(a, b, at, 0, n);
    assert(at[0] == 0 && at[a.len() as int] == b.len()) by {
        reveal(fills);
    }
    if n > 0 {
        lemma_lands(a, b, at, n - 1, Spot::BeforeStart);
        lemma_at(a, b, at, n - 1);
    }
    let k = at[n];
    if included {
        assert forall|i: int| k <= i < b.len() implies order::lt(key, (#[trigger] b[i]).key) by {
            lemma_split_at(a, b, at, n);
            order::lemma_le_trans(key, a[n].key, b[i].key);
        }
        tree::lemma_rank_is(b, key, k as nat);
    } else {
        assert forall|i: int| k <= i < b.len() implies order::le(key, (#[trigger] b[i]).key) by {
            lemma_split_at(a, b, at, n);
            order::lemma_le_trans(key, a[n].key, b[i].key);
        }
        lemma_below_is(b, key, k as nat);
    }
    assert(cursor::count_before(b, key, included) == k);
    if n == 0 && a.len() > 0 {
        lemma_at(a, b, at, 0);
    }
}

/// A scan that met no gap serves the same with the gaps filled in.
proof fn lemma_scan_from(
    a: Seq<Item>,
    b: Seq<Item>,
    at: Seq<int>,
    r: RangeView,
    q: int,
    served: Seq<Row>,
    bytes: int,
)
    requires
        fills(a, b, at),
        0 <= q < a.len(),
        a[q].what is Ok,
        !(range::scan_from(a, r, q, served, bytes).stop is Gap),
    ensures
        range::scan_from(b, r, at[q], served, bytes) == range::scan_from(a, r, q, served, bytes),
    decreases
            if r.reverse {
                q
            } else {
                a.len() - q
            },
{
    lemma_at(a, b, at, q);
    let row = Row { key: a[q].key, held: a[q].what->Ok_0 };
    let more = served.push(row);
    let total = bytes + range::carried(row);
    if range::within(row.key, r) && !(served.len() > 0 && total > r.max_bytes) && more.len()
        < r.max_entries {
        if r.reverse {
            if !range::at_bottom(row.key, r.lo) && q > 0 {
                lemma_at(a, b, at, q - 1);
                lemma_at_order(a, b, at, q - 1, q);
                if a[q - 1].what is Ok {
                    lemma_scan_from(a, b, at, r, q - 1, more, total);
                }
            }
        } else if q + 1 < a.len() {
            lemma_at(a, b, at, q + 1);
            if range::under(a[q + 1].key, r.hi) && a[q + 1].what is Ok {
                lemma_scan_from(a, b, at, r, q + 1, more, total);
            }
        }
    }
}

/// A scan from where a seek landed.
proof fn lemma_scan_at(
    a: Seq<Item>,
    b: Seq<Item>,
    at: Seq<int>,
    r: RangeView,
    s: Spot,
    none: Stop,
)
    requires
        fills(a, b, at),
        s matches Spot::At(q) ==> 0 <= q < a.len() && a[q].what is Ok,
        !(range::scan_at(a, r, Ok(s), none).stop is Gap),
    ensures
        range::scan_at(b, r, Ok(moved(at, s)), none) == range::scan_at(a, r, Ok(s), none),
{
    if let Spot::At(q) = s {
        lemma_scan_from(a, b, at, r, q, Seq::empty(), 0);
    }
}

/// A scan that met no gap serves the same with the gaps filled in.
#[verifier::rlimit(40)]
pub proof fn lemma_scan_fills(a: Seq<Item>, b: Seq<Item>, at: Seq<int>, r: RangeView)
    requires
        fills(a, b, at),
        !(range::scan(a, r).stop is Gap),
    ensures
        range::scan(b, r) == range::scan(a, r),
{
    assert(at[0] == 0 && at[a.len() as int] == b.len() && at.len() == a.len() + 1) by {
        reveal(fills);
    }
    if r.reverse {
        match range::start_of(r) {
            End::Open => {
                let n = a.len() as int;
                let s = cursor::lands(a, n - 1, Spot::BeforeStart);
                if n > 0 {
                    lemma_lands(a, b, at, n - 1, Spot::BeforeStart);
                    lemma_at(a, b, at, n - 1);
                }
                lemma_scan_at(a, b, at, r, s->Ok_0, Stop::EndOfTree);
            },
            End::At(k) => {
                let s = cursor::back_spot(a, k, true);
                lemma_seek_back(a, b, at, k, true);
                lemma_back_entry(a, k, true);
                lemma_scan_at(a, b, at, r, s->Ok_0, Stop::EndOfRange);
            },
            End::Past(k) => {
                let s = cursor::back_spot(a, k, false);
                lemma_seek_back(a, b, at, k, false);
                lemma_back_entry(a, k, false);
                lemma_scan_at(a, b, at, r, s->Ok_0, Stop::EndOfRange);
            },
        }
    } else {
        match range::start_of(r) {
            End::Open => {
                let none = Seq::<u8>::empty();
                let s = cursor::seek_spot(a, none);
                lemma_seek(a, b, at, none);
                lemma_seek_entry(a, none);
                lemma_scan_at(a, b, at, r, s->Ok_0, Stop::EndOfTree);
            },
            End::At(k) => {
                let s = cursor::seek_spot(a, k);
                lemma_seek(a, b, at, k);
                lemma_seek_entry(a, k);
                lemma_scan_at(a, b, at, r, s->Ok_0, Stop::EndOfTree);
            },
            End::Past(k) => {
                let s = cursor::seek_spot(a, k);
                lemma_seek(a, b, at, k);
                lemma_seek_entry(a, k);
                match s->Ok_0 {
                    Spot::At(q) => {
                        lemma_at(a, b, at, q);
                        if a[q].key == k {
                            if q + 1 < a.len() {
                                lemma_at(a, b, at, q + 1);
                            }
                            if !(q + 1 < a.len() && !range::under(a[q + 1].key, r.hi)) {
                                let t = cursor::lands(a, q + 1, Spot::AfterEnd);
                                lemma_lands(a, b, at, q + 1, Spot::AfterEnd);
                                lemma_scan_at(a, b, at, r, t->Ok_0, Stop::EndOfTree);
                            }
                        } else {
                            lemma_scan_at(a, b, at, r, s->Ok_0, Stop::EndOfTree);
                        }
                    },
                    _ => {
                        lemma_scan_at(a, b, at, r, s->Ok_0, Stop::EndOfTree);
                    },
                }
            },
        }
    }
}

/// A seek that lands on an item lands on an entry.
proof fn lemma_seek_entry(a: Seq<Item>, key: Seq<u8>)
    ensures
        cursor::seek_spot(a, key) matches Ok(Spot::At(q)) ==> 0 <= q < a.len() && a[q].what is Ok,
{
}

/// A seek back that lands on an item lands on an entry.
proof fn lemma_back_entry(a: Seq<Item>, key: Seq<u8>, included: bool)
    ensures
        cursor::back_spot(a, key, included) matches Ok(Spot::At(q)) ==> 0 <= q < a.len()
            && a[q].what is Ok,
{
}

// ---------------------------------------------------------------------------
// the entries of a tree
// ---------------------------------------------------------------------------

/// Is `b` the list `a` with gaps filled in, order aside?
#[verifier::opaque]
spec fn maps(a: Seq<Item>, b: Seq<Item>, at: Seq<int>) -> bool {
    &&& at.len() == a.len() + 1
    &&& at[0] == 0
    &&& at[a.len() as int] == b.len()
    &&& forall|p: int| 0 <= p < a.len() ==> #[trigger] filled_at(a, b, at, p)
}

/// Two lists after two lists.
spec fn joined(at: Seq<int>, n: int, by: int, next: Seq<int>) -> Seq<int> {
    Seq::new(
        (n + next.len()) as nat,
        |i: int|
            if i < n {
                at[i]
            } else {
                by + next[i - n]
            },
    )
}

/// Two lists after two lists.
proof fn lemma_maps_join(
    a: Seq<Item>,
    b: Seq<Item>,
    at: Seq<int>,
    c: Seq<Item>,
    d: Seq<Item>,
    next: Seq<int>,
)
    requires
        maps(a, b, at),
        maps(c, d, next),
    ensures
        maps(a + c, b + d, joined(at, a.len() as int, b.len() as int, next)),
{
    reveal(maps);
    let n = a.len() as int;
    let by = b.len() as int;
    let x = a + c;
    let y = b + d;
    let all = joined(at, n, by, next);
    assert forall|p: int| 0 <= p < x.len() implies #[trigger] filled_at(x, y, all, p) by {
        if p < n {
            assert(filled_at(a, b, at, p));
            assert(x[p] == a[p]);
            assert(y[at[p]] == b[at[p]]);
        } else {
            assert(filled_at(c, d, next, p - n));
            assert(x[p] == c[p - n]);
            assert(y[by + next[p - n]] == d[next[p - n]]);
        }
    }
    if n == 0 {
        assert(all[0] == by + next[0]);
    }
}

/// A list as it is.
proof fn lemma_maps_same(a: Seq<Item>) -> (at: Seq<int>)
    ensures
        maps(a, a, at),
{
    reveal(maps);
    let at = Seq::new((a.len() + 1) as nat, |i: int| i);
    assert forall|p: int| 0 <= p < a.len() implies #[trigger] filled_at(a, a, at, p) by {}
    at
}

/// A gap and what fills it.
proof fn lemma_maps_gap(x: Item, b: Seq<Item>) -> (at: Seq<int>)
    requires
        x.what is Err,
        b.len() > 0,
        b[0].key == x.key,
    ensures
        maps(seq![x], b, at),
{
    reveal(maps);
    let at = seq![0int, b.len() as int];
    let a = seq![x];
    assert forall|p: int| 0 <= p < a.len() implies #[trigger] filled_at(a, b, at, p) by {}
    at
}

/// The items of places begin with the key of the first.
proof fn lemma_first_item(slots: Seq<Slot>)
    requires
        slots.len() > 0,
        slots[0].opened is Ok ==> slots[0].opened->Ok_0.node.rows.len() > 0
            && slots[0].opened->Ok_0.node.rows[0].key == slots[0].key,
    ensures
        tree::flat(slots).len() > 0,
        tree::flat(slots)[0].key == slots[0].key,
{
    let s = slots[0];
    let rest = slots.skip(1);
    assert(slots =~= seq![s] + rest);
    tree::lemma_flat_join(seq![s], rest);
    tree::lemma_flat_one(s);
    assert(tree::slot_items(s)[0].key == s.key);
}

/// The items of the first places, with more blocks.
#[verifier::rlimit(60)]
#[verifier::spinoff_prover]
proof fn lemma_items_to(
    a: Seq<Slot>,
    b: Seq<Slot>,
    at: Seq<int>,
    p: nat,
) -> (im: Seq<int>)
    requires
        expand::grows(a, b, at, 0),
        a.len() > 1 || b.len() > 1 || (a.len() > 0 && a[0].opened is Err) ==> tree::spanned(
            b,
            b[0].key,
            None,
        ),
        p <= a.len(),
    ensures
        0 <= at[p as int] <= b.len(),
        maps(tree::flat(a.take(p as int)), tree::flat(b.take(at[p as int])), im),
    decreases p,
{
    if p == 0 {
        assert(a.take(0) =~= Seq::<Slot>::empty());
        assert(b.take(0) =~= Seq::<Slot>::empty());
        lemma_maps_same(Seq::empty())
    } else {
        let k = p - 1;
        let front = lemma_items_to(a, b, at, k as nat);
        assert(expand::grown_at(a, b, at, 0, at[k], at[k + 1], k));
        let i = at[k];
        let j = at[k + 1];
        let run = b.subrange(i, j);
        assert(b.take(j) =~= b.take(i) + run);
        tree::lemma_flat_join(b.take(i), run);
        assert(a.take(p as int) =~= a.take(k) + seq![a[k]]);
        tree::lemma_flat_join(a.take(k), seq![a[k]]);
        tree::lemma_flat_one(a[k]);
        let mine = tree::slot_items(a[k]);
        let next = if a[k].opened is Ok {
            assert(run =~= seq![a[k]]);
            lemma_maps_same(mine)
        } else {
            assert(run[0] == b[i]);
            assert(tree::sound(b[i], tree::next_key(b, None, i)));
            reveal(tree::sound);
            lemma_first_item(run);
            assert(mine =~= seq![mine[0]]);
            lemma_maps_gap(mine[0], tree::flat(run))
        };
        lemma_maps_join(
            tree::flat(a.take(k)),
            tree::flat(b.take(i)),
            front,
            mine,
            tree::flat(run),
            next,
        );
        joined(
            front,
            tree::flat(a.take(k)).len() as int,
            tree::flat(b.take(i)).len() as int,
            next,
        )
    }
}

/// The entries of a tree, with more blocks: gaps may be filled in, nothing else.
pub proof fn lemma_items_fill(m: BlockMap, w: BlockMap, root: Seq<u8>) -> (at: Seq<int>)
    requires
        m.submap_of(w),
        store::loaded(m, root) is Ok,
    ensures
        fills(tree::items(m, root), tree::items(w, root), at),
{
    let a = tree::leaves(m, root);
    let b = tree::leaves(w, root);
    let at = expand::lemma_expand(m, w, root, 0);
    tree::lemma_loaded(m, root);
    let n = store::loaded(m, root)->Ok_0;
    let s = tree::root_slot(w, root);
    if n.rows.len() > 0 {
        assert(tree::sound(s, None)) by {
            reveal(tree::sound);
        }
        tree::lemma_level_slots(w, s, None, 0);
    } else {
        assert(n.level == 0);
        assert(a =~= seq![tree::root_slot(m, root)]);
        assert(b =~= seq![s]);
    }
    let im = lemma_items_to(a, b, at, a.len());
    assert(a.take(a.len() as int) =~= a);
    assert(b.take(b.len() as int) =~= b);
    tree::law_keys_ascend(m, root);
    tree::law_keys_ascend(w, root);
    assert(fills(tree::items(m, root), tree::items(w, root), im)) by {
        reveal(maps);
        reveal(fills);
    }
    im
}

/// What a lookup answers, every store that holds more answers too.
pub proof fn law_an_answer_stays(m: BlockMap, w: BlockMap, root: Seq<u8>, key: Seq<u8>)
    requires
        m.submap_of(w),
        tree::lookup(tree::items(m, root), key) is Ok,
    ensures
        tree::lookup(tree::items(w, root), key) == tree::lookup(tree::items(m, root), key),
{
    lemma_root_gap(m, root);
    if store::loaded(m, root) is Err {
        let its = tree::items(m, root);
        order::lemma_empty_first(key);
        tree::lemma_rank_is(its, key, 1);
    } else {
        let at = lemma_items_fill(m, w, root);
        lemma_lookup_fills(tree::items(m, root), tree::items(w, root), at, key);
    }
}

/// A tree whose root cannot be read is one gap.
pub proof fn lemma_root_gap(m: BlockMap, root: Seq<u8>)
    ensures
        store::loaded(m, root) is Err ==> tree::items(m, root) == seq![
            Item { key: Seq::empty(), what: Err(store::loaded(m, root)->Err_0) },
        ],
{
    if store::loaded(m, root) is Err {
        let s = tree::root_slot(m, root);
        assert(tree::leaves(m, root) =~= seq![s]);
        tree::lemma_flat_one(s);
        assert(tree::items(m, root) =~= seq![
            Item { key: Seq::empty(), what: Err(store::loaded(m, root)->Err_0) },
        ]);
    }
}

/// A page that did not stop at a missing block, every store that holds more serves too.
pub proof fn law_a_page_stays(
    m: BlockMap,
    w: BlockMap,
    root: Seq<u8>,
    r: RangeView,
    o: range::Options,
)
    requires
        m.submap_of(w),
        range::spec_page(m, root, r, o) matches Ok(p) && p.end != PageEnd::Blocked,
    ensures
        range::spec_page(w, root, r, o) == range::spec_page(m, root, r, o),
{
    if !range::hopeless(r) {
        assert(m.dom().contains(root) && w.dom().contains(root));
        let a = tree::items(m, root);
        let b = tree::items(w, root);
        assert(!(range::scan(a, r).stop is Gap));
        lemma_root_gap(m, root);
        if store::loaded(m, root) is Err {
            lemma_gap_stops(a, r);
        }
        let at = lemma_items_fill(m, w, root);
        lemma_scan_fills(a, b, at, r);
    }
}

/// Over one gap at the lowest key no scan gets anywhere.
pub proof fn lemma_gap_stops(a: Seq<Item>, r: RangeView)
    requires
        a.len() == 1,
        a[0].key == Seq::<u8>::empty(),
        a[0].what is Err,
    ensures
        range::scan(a, r).stop is Gap,
{
    match range::start_of(r) {
        End::Open => {
            let none = Seq::<u8>::empty();
            tree::lemma_rank_is(a, none, 1);
        },
        End::At(k) => {
            order::lemma_empty_first(k);
            tree::lemma_rank_is(a, k, 1);
        },
        End::Past(k) => {
            order::lemma_empty_first(k);
            tree::lemma_rank_is(a, k, 1);
            lemma_below(a, k, 1);
        },
    }
}

// ---------------------------------------------------------------------------
// counts
// ---------------------------------------------------------------------------

/// What is missing only gets more, and where nothing is, more blocks change nothing.
proof fn lemma_count_node(
    m: BlockMap,
    w: BlockMap,
    h: HeldView,
    r: RangeView,
    verify: bool,
    t: Tally,
)
    requires
        m.submap_of(w),
    ensures
        aggregate::count_node(m, h, r, verify, t) matches Ok(u) ==> u.need.len() >= t.need.len()
            && (u.need.len() == 0 ==> aggregate::count_node(w, h, r, verify, t) == Ok::<
            Tally,
            Fault,
        >(u)),
    decreases h.node.level, 2nat, 0nat,
{
    if h.node.level > 0 {
        lemma_count_children(m, w, h, r, verify, t, h.node.rows.len());
    }
}

proof fn lemma_count_children(
    m: BlockMap,
    w: BlockMap,
    h: HeldView,
    r: RangeView,
    verify: bool,
    t: Tally,
    n: nat,
)
    requires
        m.submap_of(w),
        n <= h.node.rows.len(),
    ensures
        aggregate::count_children(m, h, r, verify, t, n) matches Ok(u) ==> u.need.len()
            >= t.need.len() && (u.need.len() == 0 ==> aggregate::count_children(
            w,
            h,
            r,
            verify,
            t,
            n,
        ) == Ok::<Tally, Fault>(u)),
    decreases h.node.level, 1nat, n,
{
    if n > 0 && h.node.level > 0 {
        lemma_count_children(m, w, h, r, verify, t, (n - 1) as nat);
        if let Ok(u) = aggregate::count_children(m, h, r, verify, t, (n - 1) as nat) {
            lemma_count_child(m, w, h, r, verify, u, n - 1);
        }
    }
}

proof fn lemma_count_child(
    m: BlockMap,
    w: BlockMap,
    h: HeldView,
    r: RangeView,
    verify: bool,
    t: Tally,
    i: int,
)
    requires
        m.submap_of(w),
        0 <= i < h.node.rows.len(),
    ensures
        aggregate::count_child(m, h, r, verify, t, i) matches Ok(u) ==> u.need.len()
            >= t.need.len() && (u.need.len() == 0 ==> aggregate::count_child(
            w,
            h,
            r,
            verify,
            t,
            i,
        ) == Ok::<Tally, Fault>(u)),
    decreases h.node.level, 0nat, 0nat,
{
    let cid = store::child_cid(h.node.rows[i]);
    if range::intersects(h, i, r) && !(range::inside(h, i, r) && !verify) {
        if m.contains_key(cid) {
            assert(m.dom().contains(cid) && w.dom().contains(cid));
            assert(store::loaded(m, cid) == store::loaded(w, cid)) by {
                reveal(store::loaded);
            }
            assert(store::opened(m, h, i) == store::opened(w, h, i));
            if let Ok(c) = store::opened(m, h, i) {
                if c.node.level < h.node.level {
                    lemma_count_node(m, w, c, r, verify, t);
                }
            }
        } else {
            let need = aggregate::asked(t.need, cid);
            assert(need.len() > 0) by {
                if t.need.len() == 0 {
                    assert(!t.need.contains(cid));
                }
            }
        }
    }
}

/// What a count answers, every store that holds more answers too.
pub proof fn law_a_count_stays(
    m: BlockMap,
    w: BlockMap,
    root: Seq<u8>,
    r: RangeView,
    verify: bool,
)
    requires
        m.submap_of(w),
        aggregate::spec_count(m, root, r, verify) is Ok,
    ensures
        aggregate::spec_count(w, root, r, verify) == aggregate::spec_count(m, root, r, verify),
{
    assert(store::loaded(m, root) == store::loaded(w, root)) by {
        reveal(store::loaded);
        assert(m.dom().contains(root) && w.dom().contains(root));
    }
    let n = store::loaded(m, root)->Ok_0;
    let t = Tally { agg: crate::node::Agg { count: 0, bytes: 0 }, need: Seq::empty() };
    lemma_count_node(m, w, HeldView { node: n, upper: None }, r, verify, t);
}

} // verus!
