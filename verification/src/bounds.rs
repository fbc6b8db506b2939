//! The order of keys, and what the ends of a range let through.

use crate::aggregate;
use crate::diff;
use crate::node;
use crate::order;
use crate::pages;
use crate::range;
use crate::range::{End, Options, PageEnd, PageView, RangeView};
use crate::seqs;
use crate::store::{BlockMap, Fault};
use vstd::prelude::*;

verus! {

/// Do two keys agree in their first `n` bytes, and is the first then over, or of a lesser
/// byte?
pub open spec fn less_at(a: Seq<u8>, b: Seq<u8>, n: int) -> bool {
    &&& 0 <= n <= a.len()
    &&& n < b.len()
    &&& a.take(n) == b.take(n)
    &&& n < a.len() ==> a[n] < b[n]
}

/// Keys are in the order of their bytes, and a key comes before the longer ones that it
/// begins.
pub proof fn law_keys_are_in_the_order_of_their_bytes(a: Seq<u8>, b: Seq<u8>)
    ensures
        order::lt(a, b) <==> exists|n: int| less_at(a, b, n),
{
    order::lemma_shared_len(a, b, 0);
    let n = order::shared_len(a, b, 0);
    order::lemma_lt_at(a, b, n);
    if order::lt(a, b) {
        if n < a.len() && a[n] > b[n] {
            order::lemma_lt_trans(a, b, a);
            order::lemma_lt_irreflexive(a);
        }
        assert(less_at(a, b, n));
    }
    if exists|k: int| less_at(a, b, k) {
        let k = choose|k: int| less_at(a, b, k);
        assert forall|j: int| 0 <= j < k implies a[j] == b[j] by {
            assert(a.take(k)[j] == b.take(k)[j]);
        }
        order::lemma_lt_at(a, b, k);
    }
}

/// A key is in a range where it is not before the low end nor after the high end, and at
/// an end only where the range includes it.
pub proof fn law_a_range_holds_the_keys_between_its_ends(key: Seq<u8>, r: RangeView)
    ensures
        range::within(key, r) <==> {
            &&& match r.lo {
                End::Open => true,
                End::At(k) => !order::lt(key, k),
                End::Past(k) => !order::lt(key, k) && key != k,
            }
            &&& match r.hi {
                End::Open => true,
                End::At(k) => !order::lt(k, key),
                End::Past(k) => !order::lt(k, key) && key != k,
            }
        },
{
    match r.lo {
        End::Open => {},
        End::At(k) => lemma_apart(key, k),
        End::Past(k) => lemma_apart(key, k),
    }
    match r.hi {
        End::Open => {},
        End::At(k) => lemma_apart(key, k),
        End::Past(k) => lemma_apart(key, k),
    }
}

/// Two keys are the same, or one of them comes first.
proof fn lemma_apart(a: Seq<u8>, b: Seq<u8>)
    ensures
        order::lt(a, b) || order::lt(b, a) || a == b,
        !(order::lt(a, b) && order::lt(b, a)),
        a == b ==> !order::lt(a, b),
{
    order::lemma_lt_total(a, b);
    order::lemma_lt_irreflexive(a);
    if order::lt(a, b) && order::lt(b, a) {
        order::lemma_lt_trans(a, b, a);
    }
}

/// Every key lies on one side of a bound: what ends at it and what begins past it share no
/// key and leave none out, and so do what ends before it and what begins at it.
pub proof fn law_a_bound_parts_the_keys(key: Seq<u8>, k: Seq<u8>)
    ensures
        range::under(key, End::At(k)) <==> !range::above(key, End::Past(k)),
        range::under(key, End::Past(k)) <==> !range::above(key, End::At(k)),
{
    lemma_apart(key, k);
}

/// The key that an end names.
pub open spec fn named(e: End) -> Option<Seq<u8>> {
    match e {
        End::Open => None,
        End::At(k) => Some(k),
        End::Past(k) => Some(k),
    }
}

/// Do the ends of a range leave no room: the low one after the high one, or both at a key
/// that one of them leaves out?
pub open spec fn no_room(r: RangeView) -> bool {
    match (named(r.lo), named(r.hi)) {
        (Some(a), Some(b)) => order::lt(b, a) || (a == b && !(r.lo is At && r.hi is At)),
        _ => false,
    }
}

/// A range whose ends leave no room is empty in every tree, and nothing is read to say so,
/// in either direction: the page is over with nothing in it, whatever the store holds. A
/// range with room is looked up.
pub proof fn law_crossed_ends_are_answered_without_the_tree(
    m: BlockMap,
    root: Seq<u8>,
    r: RangeView,
    o: Options,
)
    requires
        r.after is None,
    ensures
        range::hopeless(r) <==> no_room(r),
        no_room(r) ==> range::spec_page(m, root, r, o) == Ok::<PageView, Fault>(
            PageView {
                entries: Seq::empty(),
                next: None,
                need: Seq::empty(),
                end: PageEnd::EndOfRange,
            },
        ),
        !no_room(r) && !m.contains_key(root) ==> range::spec_page(m, root, r, o) == Ok::<
            PageView,
            Fault,
        >(
            PageView {
                entries: Seq::empty(),
                next: None,
                need: seq![root],
                end: PageEnd::Blocked,
            },
        ),
{
    match (named(r.lo), named(r.hi)) {
        (Some(a), Some(b)) => lemma_apart(a, b),
        _ => {},
    }
}

/// A scan that goes on past a key of its range is over where no key lies between that key
/// and its far end.
pub proof fn law_a_scan_past_its_far_end_is_over(r: RangeView, x: Seq<u8>)
    requires
        r.after == Some(x),
        range::within(x, r),
    ensures
        !r.reverse ==> (range::hopeless(r) <==> named(r.hi) == Some(x)),
        r.reverse ==> (range::hopeless(r) <==> named(r.lo) == Some(x)),
{
    match (named(r.lo), named(r.hi)) {
        (Some(a), Some(b)) => {
            lemma_apart(a, x);
            lemma_apart(b, x);
        },
        (Some(a), None) => lemma_apart(a, x),
        (None, Some(b)) => lemma_apart(b, x),
        _ => {},
    }
}

/// No key is due where the ends say so beforehand.
pub proof fn law_nothing_is_due_where_the_ends_cross(key: Seq<u8>, r: RangeView)
    requires
        pages::due(key, r),
    ensures
        !range::hopeless(r),
{
    pages::lemma_due(key, r);
    let far = if r.reverse {
        r.lo
    } else {
        r.hi
    };
    match (range::start_of(r), far) {
        (End::At(x), End::At(y)) => pages::lemma_three(x, y, key),
        (End::At(x), End::Past(y)) => pages::lemma_three(x, y, key),
        (End::Past(x), End::At(y)) => pages::lemma_three(x, y, key),
        (End::Past(x), End::Past(y)) => pages::lemma_three(x, y, key),
        _ => {},
    }
}

/// A diff that carries on past a key has before it what its range holds past that key.
pub proof fn law_a_resumed_range_holds_what_lies_past_the_key(
    key: Seq<u8>,
    r: RangeView,
    after: Option<Seq<u8>>,
)
    ensures
        range::within(key, diff::tightened(r, after)) <==> range::within(key, r) && (after matches Some(
            x,
        ) ==> order::lt(x, key)),
        diff::tightened(r, after).hi == r.hi,
        diff::tightened(r, after).max_entries == r.max_entries,
        diff::tightened(r, after).max_bytes == r.max_bytes,
        diff::tightened(r, after).reverse == r.reverse,
        diff::tightened(r, after).after == r.after,
{
    if let Some(x) = after {
        if let Some(k) = named(r.lo) {
            lemma_apart(x, k);
            lemma_apart(x, key);
            lemma_apart(k, key);
            if order::lt(x, k) && order::lt(k, key) {
                order::lemma_lt_trans(x, k, key);
            }
            if order::lt(k, x) && order::lt(x, key) {
                order::lemma_lt_trans(k, x, key);
            }
        }
    }
}

/// A diff takes every range that runs forwards and does not say itself where to carry on.
/// A count takes those of them that have the usual limits.
pub proof fn law_a_diff_or_a_count_takes_a_plain_range(r: RangeView)
    ensures
        diff::unsupported(r) is None <==> !r.reverse && r.after is None,
        aggregate::instruction(r) is None <==> !r.reverse && r.after is None && r.max_entries
            == 1024 && r.max_bytes == 262144,
{
}

/// The first four bytes of keys, as numbers, are in the order of the keys: where they
/// differ they decide it.
pub proof fn law_the_first_bytes_decide(a: Seq<u8>, b: Seq<u8>)
    ensures
        node::spec_key4(a) < node::spec_key4(b) ==> order::lt(a, b),
        order::lt(a, b) ==> node::spec_key4(a) <= node::spec_key4(b),
        0 <= node::spec_key4(a) < 0x1_0000_0000,
{
    lemma_apart(a, b);
    if order::lt(a, b) {
        lemma_first_bytes(a, b);
    } else if order::lt(b, a) {
        lemma_first_bytes(b, a);
    }
}

/// The first four bytes of the lesser key are no greater.
proof fn lemma_first_bytes(a: Seq<u8>, b: Seq<u8>)
    requires
        order::lt(a, b),
    ensures
        node::spec_key4(a) <= node::spec_key4(b),
{
    law_keys_are_in_the_order_of_their_bytes(a, b);
    let n = choose|n: int| less_at(a, b, n);
    assert forall|j: int| 0 <= j < n implies a[j] == b[j] by {
        assert(a.take(n)[j] == b.take(n)[j]);
    }
    assert forall|j: int| 0 <= j < n implies #[trigger] seqs::byte_of(a, j) == seqs::byte_of(b, j) by {}
    if n < 4 {
        if n < a.len() {
            assert(seqs::byte_of(a, n) < seqs::byte_of(b, n));
        } else {
            assert forall|j: int| n <= j implies #[trigger] seqs::byte_of(a, j) == 0 by {}
        }
        assert(n == 0 || n == 1 || n == 2 || n == 3);
    }
}

} // verus!
