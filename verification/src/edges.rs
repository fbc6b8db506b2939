//! A count opens at most two blocks at each level below the root: the one at the low
//! edge of its range and the one at the high edge.

use crate::aggregate;
use crate::aggregate::Tally;
use crate::node::{Agg, NodeView};
use crate::order;
use crate::pages;
use crate::range;
use crate::range::{End, RangeView};
use crate::store;
use crate::store::{BlockMap, HeldView};
use crate::tree;
use vstd::prelude::*;

verus! {

/// Does a count open child `i`?
pub open spec fn opens(h: HeldView, i: int, r: RangeView) -> bool {
    range::intersects(h, i, r) && !range::inside(h, i, r)
}

/// The blocks that a count opens under a node.
pub open spec fn opened_under(m: BlockMap, h: HeldView, r: RangeView) -> Seq<Seq<u8>>
    decreases h.node.level, 1nat, 0nat,
{
    if h.node.level == 0 {
        Seq::empty()
    } else {
        opened_first(m, h, r, h.node.rows.len())
    }
}

/// The blocks that a count opens under the first `n` children of a branch.
pub open spec fn opened_first(m: BlockMap, h: HeldView, r: RangeView, n: nat) -> Seq<Seq<u8>>
    decreases h.node.level, 0nat, n,
{
    if n == 0 || h.node.level == 0 {
        Seq::empty()
    } else {
        let before = opened_first(m, h, r, (n - 1) as nat);
        if !opens(h, n - 1, r) {
            before
        } else {
            before + seq![store::child_cid(h.node.rows[n - 1])] + match store::opened(m, h, n - 1) {
                Ok(c) => if c.node.level < h.node.level {
                    opened_under(m, c, r)
                } else {
                    Seq::empty()
                },
                Err(_) => Seq::empty(),
            }
        }
    }
}

/// Does a place that begins at a key begin before the range?
pub open spec fn low(key: Seq<u8>, r: RangeView) -> int {
    if range::above(key, r.lo) {
        0
    } else {
        1
    }
}

/// Does a place that ends at a bound end past the range?
pub open spec fn high(upper: Option<Seq<u8>>, r: RangeView) -> int {
    if r.hi is Open || upper is Some && range::reaches_only(upper->Some_0, r.hi) {
        0
    } else {
        1
    }
}

/// How many of the first `n` children that a count opens begin before the range.
spec fn lows(h: HeldView, r: RangeView, n: nat) -> int
    decreases n,
{
    if n == 0 {
        0
    } else {
        lows(h, r, (n - 1) as nat) + if opens(h, n - 1, r) {
            low(h.node.rows[n - 1].key, r)
        } else {
            0
        }
    }
}

/// How many of the first `n` children that a count opens end past the range.
spec fn highs(h: HeldView, r: RangeView, n: nat) -> int
    decreases n,
{
    if n == 0 {
        0
    } else {
        highs(h, r, (n - 1) as nat) + if opens(h, n - 1, r) {
            high(store::child_bound(h, n - 1), r)
        } else {
            0
        }
    }
}

/// Only the last child that begins before the range can reach into it.
proof fn lemma_lows(h: HeldView, r: RangeView, n: nat)
    requires
        h.node.valid(),
        n <= h.node.rows.len(),
    ensures
        0 <= lows(h, r, n) <= 1,
        lows(h, r, n) > 0 ==> low(h.node.rows[0].key, r) == 1,
        n < h.node.rows.len() && low(h.node.rows[n as int].key, r) == 1 ==> lows(h, r, n) == 0,
    decreases n,
{
    let rows = h.node.rows;
    if n > 0 {
        lemma_lows(h, r, (n - 1) as nat);
        if n > 1 {
            assert(order::lt(rows[0].key, rows[n - 1].key));
        }
        match r.lo {
            End::Open => {},
            End::At(k) => pages::lemma_three(k, rows[0].key, rows[n - 1].key),
            End::Past(k) => pages::lemma_three(k, rows[0].key, rows[n - 1].key),
        }
        if n < rows.len() {
            assert(order::lt(rows[n - 1].key, rows[n as int].key));
            match r.lo {
                End::Open => {},
                End::At(k) => pages::lemma_three(k, rows[n - 1].key, rows[n as int].key),
                End::Past(k) => pages::lemma_three(k, rows[n - 1].key, rows[n as int].key),
            }
        }
    }
}

/// Only the first child that ends past the range can begin in it.
proof fn lemma_highs(h: HeldView, r: RangeView, n: nat)
    requires
        h.node.valid(),
        store::ends_before(h.node, h.upper),
        n <= h.node.rows.len(),
    ensures
        0 <= highs(h, r, n) <= 1,
        highs(h, r, n) > 0 ==> high(h.upper, r) == 1,
        highs(h, r, n) > 0 && n < h.node.rows.len() ==> !range::under(
            h.node.rows[n as int].key,
            r.hi,
        ),
    decreases n,
{
    let rows = h.node.rows;
    if n > 0 {
        lemma_highs(h, r, (n - 1) as nat);
        if n < rows.len() {
            assert(order::lt(rows[n - 1].key, rows[n as int].key));
            let last = rows.last().key;
            if n < rows.len() - 1 {
                assert(order::lt(rows[n as int].key, rows[rows.len() - 1].key));
            }
            match r.hi {
                End::Open => {},
                End::At(k) => {
                    pages::lemma_three(k, rows[n - 1].key, rows[n as int].key);
                    pages::lemma_three(k, rows[n as int].key, last);
                    if let Some(u) = h.upper {
                        pages::lemma_three(k, last, u);
                    }
                },
                End::Past(k) => {
                    pages::lemma_three(k, rows[n - 1].key, rows[n as int].key);
                    pages::lemma_three(k, rows[n as int].key, last);
                    if let Some(u) = h.upper {
                        pages::lemma_three(k, last, u);
                    }
                },
            }
        }
    }
}

/// A count opens no more blocks under a node than there are levels below it, for each
/// edge of the range that lies in it.
proof fn lemma_opened_under(m: BlockMap, h: HeldView, r: RangeView)
    requires
        h.node.valid(),
        h.node.rows.len() > 0,
        store::ends_before(h.node, h.upper),
    ensures
        opened_under(m, h, r).len() <= (low(h.node.rows[0].key, r) + high(h.upper, r)) * h.node.level,
    decreases h.node.level, 1nat, 0nat,
{
    let a = low(h.node.rows[0].key, r);
    let b = high(h.upper, r);
    let n = h.node.rows.len();
    let d = h.node.level as int;
    if h.node.level > 0 {
        lemma_opened_first(m, h, r, n);
        lemma_lows(h, r, n);
        lemma_highs(h, r, n);
        let x = lows(h, r, n) + highs(h, r, n);
        assert(x * d <= (a + b) * d) by (nonlinear_arith)
            requires
                x <= a + b,
                d >= 0,
        ;
    } else {
        assert((a + b) * d == 0) by (nonlinear_arith)
            requires
                d == 0,
        ;
    }
}

proof fn lemma_opened_first(m: BlockMap, h: HeldView, r: RangeView, n: nat)
    requires
        h.node.valid(),
        h.node.level > 0,
        n <= h.node.rows.len(),
        store::ends_before(h.node, h.upper),
    ensures
        opened_first(m, h, r, n).len() <= (lows(h, r, n) + highs(h, r, n)) * h.node.level,
    decreases h.node.level, 0nat, n,
{
    let d = h.node.level as int;
    if n == 0 {
        assert((lows(h, r, 0) + highs(h, r, 0)) * d == 0) by (nonlinear_arith)
            requires
                lows(h, r, 0) + highs(h, r, 0) == 0,
        ;
    } else {
        lemma_opened_first(m, h, r, (n - 1) as nat);
        let i = n - 1;
        let x = lows(h, r, (n - 1) as nat) + highs(h, r, (n - 1) as nat);
        if opens(h, i, r) {
            let y = low(h.node.rows[i].key, r) + high(store::child_bound(h, i), r);
            assert(y >= 1);
            let more = match store::opened(m, h, i) {
                Ok(c) => if c.node.level < h.node.level {
                    opened_under(m, c, r)
                } else {
                    Seq::empty()
                },
                Err(_) => Seq::empty(),
            };
            assert(1 + more.len() <= y * d) by {
                assert(1 <= y * d) by (nonlinear_arith)
                    requires
                        y >= 1,
                        d >= 1,
                ;
                if let Ok(c) = store::opened(m, h, i) {
                    if c.node.level < h.node.level {
                        tree::lemma_loaded(m, store::child_cid(h.node.rows[i]));
                        lemma_opened_under(m, c, r);
                        let e = c.node.level as int;
                        assert(1 + y * e <= y * d) by (nonlinear_arith)
                            requires
                                y >= 1,
                                e + 1 <= d,
                        ;
                    }
                }
            }
            assert((x + y) * d == x * d + y * d) by (nonlinear_arith);
        }
    }
}

/// A block that a count does not open is one it can do without.
proof fn lemma_node_without(m: BlockMap, h: HeldView, r: RangeView, t: Tally, id: Seq<u8>)
    requires
        aggregate::count_node(m, h, r, false, t) matches Ok(u) && u.need.len() == 0,
        !opened_under(m, h, r).contains(id),
    ensures
        aggregate::count_node(m.remove(id), h, r, false, t) == aggregate::count_node(
            m,
            h,
            r,
            false,
            t,
        ),
        t.need.len() == 0,
    decreases h.node.level, 2nat, 0nat,
{
    if h.node.level > 0 {
        lemma_children_without(m, h, r, t, h.node.rows.len(), id);
    }
}

proof fn lemma_children_without(
    m: BlockMap,
    h: HeldView,
    r: RangeView,
    t: Tally,
    n: nat,
    id: Seq<u8>,
)
    requires
        h.node.level > 0,
        aggregate::count_children(m, h, r, false, t, n) matches Ok(u) && u.need.len() == 0,
        !opened_first(m, h, r, n).contains(id),
    ensures
        aggregate::count_children(m.remove(id), h, r, false, t, n) == aggregate::count_children(
            m,
            h,
            r,
            false,
            t,
            n,
        ),
        t.need.len() == 0,
    decreases h.node.level, 1nat, n,
{
    if n > 0 {
        let i = n - 1;
        let u = aggregate::count_children(m, h, r, false, t, (n - 1) as nat)->Ok_0;
        let before = opened_first(m, h, r, (n - 1) as nat);
        let all = opened_first(m, h, r, n);
        assert(u.need.len() == 0 && aggregate::count_child(m.remove(id), h, r, false, u, i)
            == aggregate::count_child(m, h, r, false, u, i)) by {
            if opens(h, i, r) {
                let cid = store::child_cid(h.node.rows[i]);
                assert(all[before.len() as int] == cid);
                assert(cid != id);
                if m.contains_key(cid) {
                    assert(m.remove(id).contains_key(cid));
                    assert(store::opened(m.remove(id), h, i) == store::opened(m, h, i)) by {
                        reveal(store::loaded);
                    }
                    if let Ok(c) = store::opened(m, h, i) {
                        if c.node.level < h.node.level {
                            let under = opened_under(m, c, r);
                            assert(!under.contains(id)) by {
                                if under.contains(id) {
                                    let j = choose|j: int| 0 <= j < under.len() && under[j] == id;
                                    assert(all[before.len() + 1 + j] == id);
                                }
                            }
                            lemma_node_without(m, c, r, u, id);
                        }
                    }
                } else if u.need.len() == 0 {
                    assert(!u.need.contains(cid));
                }
            }
        }
        assert(!before.contains(id)) by {
            if before.contains(id) {
                let j = choose|j: int| 0 <= j < before.len() && before[j] == id;
                assert(all[j] == id);
            }
        }
        lemma_children_without(m, h, r, t, (n - 1) as nat, id);
    }
}

/// Blocks that a count needs every one of are at most two for each level below the
/// root, and the root.
pub proof fn lemma_two_per_level(m: BlockMap, root: Seq<u8>, r: RangeView, ids: Seq<Seq<u8>>)
    requires
        aggregate::spec_count(m, root, r, false) is Ok,
        ids.no_duplicates(),
        forall|i: int|
            0 <= i < ids.len() ==> aggregate::spec_count(
                m.remove(#[trigger] ids[i]),
                root,
                r,
                false,
            ) is Err,
    ensures
        store::loaded(m, root) is Ok,
        ids.len() <= 2 * store::loaded(m, root)->Ok_0.level + 1,
{
    let n: NodeView = store::loaded(m, root)->Ok_0;
    let h = HeldView { node: n, upper: None };
    let t = Tally { agg: Agg { count: 0, bytes: 0 }, need: Seq::empty() };
    let below = opened_under(m, h, r);
    let all = seq![root] + below;
    tree::lemma_loaded(m, root);
    let d = n.level as int;
    if n.rows.len() > 0 {
        lemma_opened_under(m, h, r);
        let y = low(n.rows[0].key, r) + high(None, r);
        assert(y * d <= 2 * d) by (nonlinear_arith)
            requires
                y <= 2,
                d >= 0,
        ;
    }
    assert forall|i: int| 0 <= i < ids.len() implies all.contains(#[trigger] ids[i]) by {
        let id = ids[i];
        if id == root {
            assert(all[0] == id);
        } else if below.contains(id) {
            let j = choose|j: int| 0 <= j < below.len() && below[j] == id;
            assert(all[1 + j] == id);
        } else {
            lemma_node_without(m, h, r, t, id);
            assert(store::loaded(m.remove(id), root) == store::loaded(m, root)) by {
                reveal(store::loaded);
            }
        }
    }
    lemma_no_more(ids, all);
}

/// Distinct ids that are all in a list are no more than its length.
proof fn lemma_no_more(ids: Seq<Seq<u8>>, all: Seq<Seq<u8>>)
    requires
        ids.no_duplicates(),
        forall|i: int| 0 <= i < ids.len() ==> all.contains(#[trigger] ids[i]),
    ensures
        ids.len() <= all.len(),
{
    ids.unique_seq_to_set();
    all.lemma_cardinality_of_set();
    assert(ids.to_set().subset_of(all.to_set()));
    assert(all.to_set().finite());
    vstd::set_lib::lemma_len_subset(ids.to_set(), all.to_set());
}

} // verus!
