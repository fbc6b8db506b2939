//! What a diff that is stuck asks for: the block it is stuck on, and with it the others
//! that it would be stuck on next.

use crate::counted;
use crate::merge;
use crate::node::NodeView;
use crate::order;
use crate::range;
use crate::range::RangeView;
use crate::store;
use crate::store::BlockMap;
use vstd::prelude::*;

verus! {

/// Is child `i` of a node one that a diff is yet to open: not held, not a child of the
/// other node too, and beginning in the range and no later than the other's rows reach?
pub open spec fn outstanding(
    m: BlockMap,
    r: RangeView,
    n: NodeView,
    i: int,
    other: NodeView,
    hi: Seq<u8>,
) -> bool {
    let key = n.rows[i].key;
    let id = store::child_cid(n.rows[i]);
    &&& 0 <= i < n.rows.len()
    &&& !m.contains_key(id)
    &&& forall|j: int| 0 <= j < other.rows.len() ==> store::child_cid(#[trigger] other.rows[j]) != id
    &&& !order::lt(hi, key)
    &&& range::under(key, r.hi)
}

/// Is this block one that a diff is yet to open, of either node, from a slot of each on?
pub open spec fn outstanding_in(
    m: BlockMap,
    r: RangeView,
    an: NodeView,
    i: int,
    bn: NodeView,
    j: int,
    hi: Seq<u8>,
    id: Seq<u8>,
) -> bool {
    ||| exists|k: int|
        i <= k && #[trigger] outstanding(m, r, an, k, bn, hi) && store::child_cid(an.rows[k]) == id
    ||| exists|k: int|
        j <= k && #[trigger] outstanding(m, r, bn, k, an, hi) && store::child_cid(bn.rows[k]) == id
}

/// One more block, where there is room.
proof fn lemma_asks(m: BlockMap, need: Seq<Seq<u8>>, id: Seq<u8>)
    requires
        counted::worth_asking(m, need),
        !m.contains_key(id),
    ensures
        counted::worth_asking(m, merge::asks(need, id)),
        need.is_prefix_of(merge::asks(need, id)),
        merge::asks(need, id).contains(id) || merge::asks(need, id).len() == 64,
        forall|x: Seq<u8>| #[trigger]
            merge::asks(need, id).contains(x) ==> need.contains(x) || x == id,
{
    let more = merge::asks(need, id);
    assert(need.is_prefix_of(need)) by {
        assert(need =~= need.subrange(0, need.len() as int));
    }
    if more != need {
        assert(more == need.push(id));
        assert(need =~= more.subrange(0, need.len() as int));
        assert(more[need.len() as int] == id);
        assert forall|a: int, b: int|
            0 <= a < more.len() && 0 <= b < more.len() && a != b implies more[a] != more[b] by {
            if a == need.len() {
                assert(need.contains(need[b]));
            } else if b == need.len() {
                assert(need.contains(need[a]));
            }
        }
        assert forall|x: Seq<u8>| #[trigger] more.contains(x) implies need.contains(x) || x == id by {
            let a = choose|a: int| 0 <= a < more.len() && more[a] == x;
            if a < need.len() {
                assert(need[a] == x);
            }
        }
    }
}

/// What was asked for is still asked for.
proof fn lemma_still(a: Seq<Seq<u8>>, b: Seq<Seq<u8>>, id: Seq<u8>)
    requires
        a.is_prefix_of(b),
        a.contains(id),
    ensures
        b.contains(id),
{
    let k = choose|k: int| 0 <= k < a.len() && a[k] == id;
    assert(b[k] == a[k]);
}

/// One more child, where it is yet to be opened.
proof fn lemma_child(
    m: BlockMap,
    r: RangeView,
    n: NodeView,
    i: int,
    other: NodeView,
    hi: Seq<u8>,
    need: Seq<Seq<u8>>,
)
    requires
        counted::worth_asking(m, need),
        0 <= i < n.rows.len(),
    ensures
        ({
            let all = merge::with_child(m, r, n, i, other, hi, need);
            let id = store::child_cid(n.rows[i]);
            &&& counted::worth_asking(m, all)
            &&& need.is_prefix_of(all)
            &&& outstanding(m, r, n, i, other, hi) ==> all.contains(id) || all.len() == 64
            &&& forall|x: Seq<u8>| #[trigger]
                all.contains(x) ==> need.contains(x) || (x == id && outstanding(
                    m,
                    r,
                    n,
                    i,
                    other,
                    hi,
                ))
        }),
{
    let id = store::child_cid(n.rows[i]);
    assert(need =~= need.subrange(0, need.len() as int));
    if outstanding(m, r, n, i, other, hi) {
        lemma_asks(m, need, id);
    }
}

/// A diff that is stuck under two nodes asks, besides what it asked for before, for their
/// children that it is yet to open, all of them as far as there is room, and for no other
/// block. What it asks for is not held, is asked for once, and is at most sixty-four.
pub proof fn law_a_diff_asks_for_what_it_is_yet_to_open(
    m: BlockMap,
    r: RangeView,
    an: NodeView,
    i: int,
    bn: NodeView,
    j: int,
    hi: Seq<u8>,
    need: Seq<Seq<u8>>,
)
    requires
        counted::worth_asking(m, need),
        0 <= i,
        0 <= j,
    ensures
        ({
            let all = merge::with_children(m, r, an, i, bn, j, hi, need);
            &&& counted::worth_asking(m, all)
            &&& need.is_prefix_of(all)
            &&& forall|x: Seq<u8>|
                outstanding_in(m, r, an, i, bn, j, hi, x) ==> #[trigger] all.contains(x)
                    || all.len() == 64
            &&& forall|x: Seq<u8>| #[trigger]
                all.contains(x) ==> need.contains(x) || outstanding_in(m, r, an, i, bn, j, hi, x)
        }),
    decreases
            (if i < an.rows.len() {
                an.rows.len() - i
            } else {
                0
            }) + (if j < bn.rows.len() {
                bn.rows.len() - j
            } else {
                0
            }),
{
    let all = merge::with_children(m, r, an, i, bn, j, hi, need);
    if i >= an.rows.len() && j >= bn.rows.len() {
        assert(need =~= need.subrange(0, need.len() as int));
    } else if j >= bn.rows.len() || (i < an.rows.len() && !order::lt(
        bn.rows[j].key,
        an.rows[i].key,
    )) {
        let more = merge::with_child(m, r, an, i, bn, hi, need);
        lemma_child(m, r, an, i, bn, hi, need);
        law_a_diff_asks_for_what_it_is_yet_to_open(m, r, an, i + 1, bn, j, hi, more);
        lemma_prefixes(need, more, all);
        assert forall|x: Seq<u8>|
            outstanding_in(m, r, an, i, bn, j, hi, x) implies #[trigger] all.contains(x)
            || all.len() == 64 by {
            if !outstanding_in(m, r, an, i + 1, bn, j, hi, x) {
                assert(outstanding(m, r, an, i, bn, hi) && store::child_cid(an.rows[i]) == x);
                if more.contains(x) {
                    lemma_still(more, all, x);
                } else {
                    assert(more.len() <= all.len());
                }
            }
        }
        assert forall|x: Seq<u8>| #[trigger] all.contains(x) implies need.contains(x)
            || outstanding_in(m, r, an, i, bn, j, hi, x) by {
            if !more.contains(x) {
                assert(outstanding_in(m, r, an, i + 1, bn, j, hi, x));
                lemma_from(m, r, an, i + 1, bn, j, hi, x, i, j);
            } else if !need.contains(x) {
                assert(outstanding(m, r, an, i, bn, hi));
            }
        }
    } else {
        let more = merge::with_child(m, r, bn, j, an, hi, need);
        lemma_child(m, r, bn, j, an, hi, need);
        law_a_diff_asks_for_what_it_is_yet_to_open(m, r, an, i, bn, j + 1, hi, more);
        lemma_prefixes(need, more, all);
        assert forall|x: Seq<u8>|
            outstanding_in(m, r, an, i, bn, j, hi, x) implies #[trigger] all.contains(x)
            || all.len() == 64 by {
            if !outstanding_in(m, r, an, i, bn, j + 1, hi, x) {
                assert(outstanding(m, r, bn, j, an, hi) && store::child_cid(bn.rows[j]) == x);
                if more.contains(x) {
                    lemma_still(more, all, x);
                } else {
                    assert(more.len() <= all.len());
                }
            }
        }
        assert forall|x: Seq<u8>| #[trigger] all.contains(x) implies need.contains(x)
            || outstanding_in(m, r, an, i, bn, j, hi, x) by {
            if !more.contains(x) {
                assert(outstanding_in(m, r, an, i, bn, j + 1, hi, x));
                lemma_from(m, r, an, i, bn, j + 1, hi, x, i, j);
            } else if !need.contains(x) {
                assert(outstanding(m, r, bn, j, an, hi));
            }
        }
    }
}

/// What is outstanding from a later slot on is outstanding from an earlier one on.
proof fn lemma_from(
    m: BlockMap,
    r: RangeView,
    an: NodeView,
    i: int,
    bn: NodeView,
    j: int,
    hi: Seq<u8>,
    id: Seq<u8>,
    a: int,
    b: int,
)
    requires
        outstanding_in(m, r, an, i, bn, j, hi, id),
        a <= i,
        b <= j,
    ensures
        outstanding_in(m, r, an, a, bn, b, hi, id),
{
    if exists|k: int|
        i <= k && #[trigger] outstanding(m, r, an, k, bn, hi) && store::child_cid(an.rows[k]) == id {
        let k = choose|k: int|
            i <= k && #[trigger] outstanding(m, r, an, k, bn, hi) && store::child_cid(an.rows[k])
                == id;
        assert(a <= k && outstanding(m, r, an, k, bn, hi));
    } else {
        let k = choose|k: int|
            j <= k && #[trigger] outstanding(m, r, bn, k, an, hi) && store::child_cid(bn.rows[k])
                == id;
        assert(b <= k && outstanding(m, r, bn, k, an, hi));
    }
}

/// Prefixes of prefixes.
proof fn lemma_prefixes(a: Seq<Seq<u8>>, b: Seq<Seq<u8>>, c: Seq<Seq<u8>>)
    requires
        a.is_prefix_of(b),
        b.is_prefix_of(c),
    ensures
        a.is_prefix_of(c),
        a.len() <= b.len() <= c.len(),
{
    assert(a =~= c.subrange(0, a.len() as int));
}

} // verus!
