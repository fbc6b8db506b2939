//! When a count is owed, and what a count asks for when it cannot be given.

use crate::aggregate;
use crate::aggregate::Tally;
use crate::node;
use crate::node::{Agg, Row};
use crate::range::RangeView;
use crate::store;
use crate::store::{BlockMap, Fault, HeldView};
use crate::tree;
use crate::tree::Item;
use vstd::prelude::*;

verus! {

/// Is there an entry at every place of a list?
pub open spec fn all_there(its: Seq<Item>) -> bool {
    forall|i: int| 0 <= i < its.len() ==> (#[trigger] its[i]).what is Ok
}

/// Can the entries of a list that are in a range be added to a sum?
pub open spec fn fits(a: Agg, its: Seq<Item>, r: RangeView) -> bool {
    &&& a.count + aggregate::entries_in(its, r) <= u64::MAX
    &&& a.bytes + aggregate::bytes_in(its, r) <= u64::MAX
}

/// What is in a range is counted, not subtracted.
proof fn lemma_no_less(its: Seq<Item>, r: RangeView)
    ensures
        aggregate::entries_in(its, r) >= 0,
        aggregate::bytes_in(its, r) >= 0,
    decreases its.len(),
{
    if its.len() > 0 {
        lemma_no_less(its.drop_last(), r);
    }
}

/// The first rows of a leaf can be counted where their sum fits.
proof fn lemma_rows_count(h: HeldView, r: RangeView, a: Agg, n: nat)
    requires
        h.node.valid(),
        h.node.level == 0,
        n <= h.node.rows.len(),
        fits(a, h.node.rows.take(n as int).map_values(|x: Row| tree::entry(x)), r),
    ensures
        aggregate::count_rows(h.node.rows, r, a, n) is Ok,
    decreases n,
{
    let rows = h.node.rows;
    let f = |x: Row| tree::entry(x);
    let its = rows.take(n as int).map_values(f);
    if n > 0 {
        let before = rows.take(n - 1).map_values(f);
        assert(its.drop_last() =~= before);
        assert(its.last() == tree::entry(rows[n - 1]));
        assert(node::row_fits(0, rows[n - 1]));
        lemma_rows_count(h, r, a, (n - 1) as nat);
        aggregate::lemma_leaf_added(h, r, a, (n - 1) as nat);
    }
}

/// A subtree that is there can be counted.
proof fn lemma_node_counts(m: BlockMap, h: HeldView, r: RangeView, t: Tally)
    requires
        tree::steady(h),
        all_there(aggregate::items_under(m, h)),
        fits(t.agg, aggregate::items_under(m, h), r),
        t.need.len() == 0,
    ensures
        aggregate::count_node(m, h, r, true, t) is Ok,
        aggregate::count_node(m, h, r, true, t)->Ok_0.need.len() == 0,
    decreases h.node.level, 2nat, 0nat,
{
    if h.node.level == 0 {
        assert(h.node.valid()) by {
            reveal(tree::steady);
        }
        assert(h.node.rows.take(h.node.rows.len() as int) =~= h.node.rows);
        lemma_rows_count(h, r, t.agg, h.node.rows.len());
    } else {
        lemma_children_count(m, h, r, t, h.node.rows.len());
    }
}

/// The first children of a branch can be counted where they are there.
proof fn lemma_children_count(m: BlockMap, h: HeldView, r: RangeView, t: Tally, n: nat)
    requires
        tree::steady(h),
        h.node.level > 0,
        n <= h.node.rows.len(),
        all_there(tree::flat(tree::child_slots(m, h, 0, n))),
        fits(t.agg, tree::flat(tree::child_slots(m, h, 0, n)), r),
        t.need.len() == 0,
    ensures
        aggregate::count_children(m, h, r, true, t, n) is Ok,
        aggregate::count_children(m, h, r, true, t, n)->Ok_0.need.len() == 0,
    decreases h.node.level, 1nat, n,
{
    if n > 0 {
        let k = (n - 1) as nat;
        let s = tree::child_slot(m, h, k as int);
        let slots = tree::level_slots(m, s, 0);
        let its = tree::flat(slots);
        let front = tree::flat(tree::child_slots(m, h, 0, k));
        let all = tree::flat(tree::child_slots(m, h, 0, n));
        tree::lemma_flat_join(tree::child_slots(m, h, 0, k), slots);
        assert(all == front + its);
        aggregate::lemma_in_join(front, its, r);
        lemma_no_less(its, r);
        assert(all_there(front)) by {
            assert forall|i: int| 0 <= i < front.len() implies (#[trigger] front[i]).what is Ok by {
                assert(all[i] == front[i]);
            }
        }
        assert(all_there(its)) by {
            assert forall|i: int| 0 <= i < its.len() implies (#[trigger] its[i]).what is Ok by {
                assert(all[front.len() + i] == its[i]);
            }
        }
        lemma_children_count(m, h, r, t, k);
        aggregate::lemma_children_added(m, h, r, t, k);
        let u = aggregate::count_children(m, h, r, true, t, k)->Ok_0;
        assert(aggregate::count_children(m, h, r, true, t, n) == aggregate::count_child(
            m,
            h,
            r,
            true,
            u,
            k as int,
        ));
        if s.opened is Err {
            assert(slots =~= seq![s]);
            tree::lemma_flat_one(s);
            assert(its[0].what is Err);
        } else {
            let c = store::opened(m, h, k as int)->Ok_0;
            assert(m.contains_key(s.cid)) by {
                reveal(store::loaded);
            }
            aggregate::lemma_opened_steady(m, h, k as int);
            aggregate::lemma_under_child(m, h, k as int);
            lemma_node_counts(m, c, r, u);
        }
    }
}

/// Where the whole tree is there, a count is given: it is how many entries lie in the
/// range and how many bytes they stand for, whether every node is read or only the edges.
/// A sum past 64 bits is left out: no count can hold it.
pub proof fn law_a_count_of_what_is_there_is_given(m: BlockMap, root: Seq<u8>, r: RangeView, verify: bool)
    requires
        all_there(tree::items(m, root)),
        store::loaded(m, root) is Ok,
        aggregate::entries_in(tree::items(m, root), r) <= u64::MAX,
        aggregate::bytes_in(tree::items(m, root), r) <= u64::MAX,
    ensures
        aggregate::spec_count(m, root, r, verify) matches Ok(a) && a.count
            == aggregate::entries_in(tree::items(m, root), r) && a.bytes == aggregate::bytes_in(
            tree::items(m, root),
            r,
        ),
{
    let n = store::loaded(m, root)->Ok_0;
    let h = HeldView { node: n, upper: None };
    let t = Tally { agg: Agg { count: 0, bytes: 0 }, need: Seq::empty() };
    tree::lemma_loaded(m, root);
    assert(tree::steady(h)) by {
        reveal(tree::steady);
    }
    let s = tree::root_slot(m, root);
    if n.level == 0 {
        assert(tree::leaves(m, root) =~= seq![s]);
        tree::lemma_flat_one(s);
    }
    assert(tree::items(m, root) == aggregate::items_under(m, h));
    lemma_node_counts(m, h, r, t);
    aggregate::law_a_verified_count_is_exact(m, root, r);
    aggregate::law_what_can_be_verified_was_claimed(m, root, r);
}

/// Blocks that are worth asking for: none of them held, each once, and not too many.
pub open spec fn worth_asking(m: BlockMap, need: Seq<Seq<u8>>) -> bool {
    &&& need.len() <= 64
    &&& need.no_duplicates()
    &&& forall|i: int| 0 <= i < need.len() ==> !m.contains_key(#[trigger] need[i])
}

/// One more block that is not held.
proof fn lemma_asked(m: BlockMap, need: Seq<Seq<u8>>, cid: Seq<u8>)
    requires
        worth_asking(m, need),
        !m.contains_key(cid),
    ensures
        worth_asking(m, aggregate::asked(need, cid)),
        aggregate::asked(need, cid).len() > 0,
{
    let more = aggregate::asked(need, cid);
    if more != need {
        assert(more == need.push(cid));
        assert forall|i: int, j: int|
            0 <= i < more.len() && 0 <= j < more.len() && i != j implies more[i] != more[j] by {
            if i == need.len() {
                assert(need.contains(need[j]));
            } else if j == need.len() {
                assert(need.contains(need[i]));
            }
        }
    }
}

/// What a count of a subtree asks for is worth asking for.
proof fn lemma_node_asks(m: BlockMap, h: HeldView, r: RangeView, verify: bool, t: Tally)
    requires
        worth_asking(m, t.need),
    ensures
        match aggregate::count_node(m, h, r, verify, t) {
            Ok(u) => worth_asking(m, u.need),
            Err(f) => f !is Need,
        },
    decreases h.node.level, 2nat, 0nat,
{
    if h.node.level == 0 {
        lemma_rows_ask(h.node.rows, r, t.agg, h.node.rows.len());
    } else {
        lemma_children_ask(m, h, r, verify, t, h.node.rows.len());
    }
}

/// A leaf asks for nothing.
proof fn lemma_rows_ask(rows: Seq<Row>, r: RangeView, a: Agg, n: nat)
    ensures
        aggregate::count_rows(rows, r, a, n) matches Err(f) ==> f !is Need,
    decreases n,
{
    if n > 0 {
        lemma_rows_ask(rows, r, a, (n - 1) as nat);
    }
}

/// What the first children of a branch ask for is worth asking for.
proof fn lemma_children_ask(
    m: BlockMap,
    h: HeldView,
    r: RangeView,
    verify: bool,
    t: Tally,
    n: nat,
)
    requires
        worth_asking(m, t.need),
    ensures
        match aggregate::count_children(m, h, r, verify, t, n) {
            Ok(u) => worth_asking(m, u.need),
            Err(f) => f !is Need,
        },
    decreases h.node.level, 1nat, n,
{
    if n > 0 && h.node.level > 0 {
        lemma_children_ask(m, h, r, verify, t, (n - 1) as nat);
        if let Ok(u) = aggregate::count_children(m, h, r, verify, t, (n - 1) as nat) {
            let i = n - 1;
            let cid = store::child_cid(h.node.rows[i]);
            let out = aggregate::count_child(m, h, r, verify, u, i);
            assert(aggregate::count_children(m, h, r, verify, t, n) == out);
            if !m.contains_key(cid) {
                lemma_asked(m, u.need, cid);
            } else {
                assert(store::opened(m, h, i) matches Err(f) ==> f !is Need) by {
                    reveal(store::loaded);
                }
                if let Ok(c) = store::opened(m, h, i) {
                    if c.node.level < h.node.level {
                        lemma_node_asks(m, c, r, verify, u);
                    }
                }
            }
            assert(match out {
                Ok(v) => worth_asking(m, v.need),
                Err(f) => f !is Need,
            });
        }
    }
}

/// A count that cannot be given for want of blocks asks for some: none of them held, each
/// once, and at most sixty-four.
pub proof fn law_a_count_asks_for_what_is_missing(m: BlockMap, root: Seq<u8>, r: RangeView, verify: bool)
    ensures
        aggregate::spec_count(m, root, r, verify) matches Err(Fault::Need(need)) ==> need.len() > 0
            && worth_asking(m, need),
{
    reveal(store::loaded);
    if let Ok(n) = store::loaded(m, root) {
        let t = Tally { agg: Agg { count: 0, bytes: 0 }, need: Seq::empty() };
        lemma_node_asks(m, HeldView { node: n, upper: None }, r, verify, t);
    }
}

} // verus!
