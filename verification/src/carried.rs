//! A change is carried out: where the whole tree and its values are held and the batch is
//! in order, no error is owed.

use crate::apply;
use crate::apply::{ApplyError, Edit, Floor, Trace};
use crate::boundary::MAX_LOGICAL;
use crate::build;
use crate::build::Put;
use crate::canon;
use crate::chunk;
use crate::chunk::Rule;
use crate::cursor;
use crate::edits;
use crate::edits::EditRow;
use crate::handed;
use crate::merge;
use crate::node;
use crate::node::{BuildError, NodeView, Row};
use crate::order;
use crate::parity;
use crate::parity::{Group, Known};
use crate::rebuild;
use crate::restate;
use crate::splice;
use crate::store;
use crate::store::{BlockMap, Fault, HeldView};
use crate::tower;
use crate::tree;
use crate::tree::Slot;
use vstd::prelude::*;

verus! {

// ---------------------------------------------------------------------------
// room for parity
// ---------------------------------------------------------------------------

/// All groups of a run but the last are full enough.
proof fn lemma_total_least(s: Seq<int>, n: nat)
    requires
        n < s.len(),
        forall|i: int| 0 <= i < s.len() - 1 ==> parity::MIN_GROUP <= #[trigger] s[i],
    ensures
        7 * n <= parity::total(s, n),
    decreases n,
{
    if n > 0 {
        lemma_total_least(s, (n - 1) as nat);
        assert(parity::MIN_GROUP <= s[n - 1]);
    }
}

/// A class has few groups.
proof fn lemma_class_few(level: u8, rows: Seq<Row>, class: int)
    ensures
        7 * parity::class_groups(level, rows, class).len() <= parity::run_hashes(
            level,
            rows,
            class,
        ).len() + 6,
{
    let h = parity::run_hashes(level, rows, class);
    let s = parity::sizes_of(h);
    parity::law_groups_partition_their_run(h);
    parity::lemma_cut_len(class, parity::run_cids(rows, class), s, s.len());
    if s.len() > 0 {
        lemma_total_least(s, (s.len() - 1) as nat);
        assert(1 <= s[s.len() - 1]);
    }
}

/// A node has few groups.
proof fn lemma_few(level: u8, rows: Seq<Row>, c: nat)
    ensures
        7 * parity::groups_below(level, rows, c).len() <= parity::members_below(level, rows, c) + 6
            * c,
    decreases c,
{
    if c > 0 {
        lemma_few(level, rows, (c - 1) as nat);
        lemma_class_few(level, rows, c - 1);
    }
}

/// One more row is at most one more member.
proof fn lemma_member_more(level: u8, rows: Seq<Row>, c: nat)
    requires
        rows.len() > 0,
    ensures
        parity::members_below(level, rows, c) <= parity::members_below(
            level,
            rows.drop_last(),
            c,
        ) + (if parity::member(rows.last()) is Some && parity::member(rows.last())->Some_0.class
            < c {
            1int
        } else {
            0int
        }),
    decreases c,
{
    if c > 0 {
        lemma_member_more(level, rows, (c - 1) as nat);
    }
}

/// Every member has its cost.
proof fn lemma_members_cost(level: u8, rows: Seq<Row>)
    ensures
        node::HEADER + 45 * parity::members_below(level, rows, 4) <= node::logical(rows),
    decreases rows.len(),
{
    if rows.len() > 0 {
        lemma_members_cost(level, rows.drop_last());
        lemma_member_more(level, rows, 4);
    } else {
        parity::lemma_groups_len(level, rows, 4);
    }
}

/// A node within the hard limit has room for its parity.
proof fn lemma_room(level: u8, rows: Seq<Row>)
    requires
        node::logical(rows) <= MAX_LOGICAL,
    ensures
        node::logical(rows) + 96 * parity::groups(level, rows).len() <= node::MAX_NODE,
{
    lemma_members_cost(level, rows);
    lemma_few(level, rows, 4);
}

/// What a node encodes to is no longer than its measure and its parity.
pub proof fn lemma_encoded_most(n: NodeView)
    ensures
        node::encoded(n) <= node::logical(n.rows) + 32 * n.parity.len(),
{
    if n.rows.len() > 0 {
        node::lemma_prefix_shared(n.rows, 0);
        assert((n.rows.len() - 1) * node::prefix_len(n.rows) >= 0) by (nonlinear_arith)
            requires
                node::prefix_len(n.rows) >= 0,
                n.rows.len() > 0,
        ;
    }
}

// ---------------------------------------------------------------------------
// closing
// ---------------------------------------------------------------------------

/// Is every member of some rows held?
pub open spec fn members_held(ov: BlockMap, rows: Seq<Row>) -> bool {
    forall|i: int|
        0 <= i < rows.len() && parity::member(#[trigger] rows[i]) is Some ==> ov.contains_key(
            parity::member(rows[i])->Some_0.cid,
        )
}

/// Does every known group have as many ids as there are parity blocks?
pub open spec fn threes(index: Seq<Known>) -> bool {
    forall|x: int| 0 <= x < index.len() ==> (#[trigger] index[x]).ids.len() == 3
}

/// The ids of a class are those of its members.
proof fn lemma_run_held(ov: BlockMap, rows: Seq<Row>, class: int)
    requires
        members_held(ov, rows),
    ensures
        forall|j: int|
            0 <= j < parity::run_cids(rows, class).len() ==> ov.contains_key(
                #[trigger] parity::run_cids(rows, class)[j],
            ),
        parity::run_cids(rows, class).len() > 0 ==> exists|i: int|
            0 <= i < rows.len() && parity::member(#[trigger] rows[i]) is Some,
    decreases rows.len(),
{
    if rows.len() > 0 {
        let front = rows.drop_last();
        assert forall|i: int|
            0 <= i < front.len() && parity::member(#[trigger] front[i]) is Some implies ov.contains_key(
            parity::member(front[i])->Some_0.cid,
        ) by {
            assert(front[i] == rows[i]);
        }
        lemma_run_held(ov, front, class);
        assert(rows[rows.len() - 1] == rows.last());
        if parity::run_cids(front, class).len() > 0 {
            let i = choose|i: int|
                0 <= i < front.len() && parity::member(#[trigger] front[i]) is Some;
            assert(rows[i] == front[i]);
        }
    }
}

/// The groups that a run is cut into hold nothing else.
proof fn lemma_cut_held(
    ov: BlockMap,
    class: int,
    cids: Seq<Seq<u8>>,
    sizes: Seq<int>,
    n: nat,
    g: int,
)
    requires
        0 <= g < n <= sizes.len(),
        parity::total(sizes, sizes.len()) == cids.len(),
        forall|j: int| 0 <= j < sizes.len() ==> 1 <= #[trigger] sizes[j],
        forall|j: int| 0 <= j < cids.len() ==> ov.contains_key(#[trigger] cids[j]),
    ensures
        forall|x: int|
            0 <= x < parity::cut(class, cids, sizes, n)[g].members.len() ==> ov.contains_key(
                #[trigger] parity::cut(class, cids, sizes, n)[g].members[x],
            ),
    decreases n,
{
    let k = (n - 1) as nat;
    parity::lemma_cut_len(class, cids, sizes, k);
    if g < k {
        lemma_cut_held(ov, class, cids, sizes, k, g);
    } else {
        parity::lemma_total_mono(sizes, k, n);
        parity::lemma_total_mono(sizes, n, sizes.len());
        parity::lemma_total_mono(sizes, 0, k);
        let from = parity::total(sizes, k);
        let part = cids.subrange(from, parity::total(sizes, n));
        assert forall|x: int| 0 <= x < part.len() implies ov.contains_key(#[trigger] part[x]) by {
            assert(part[x] == cids[from + x]);
        }
    }
}

/// Every group holds members that are held.
proof fn lemma_groups_held(ov: BlockMap, level: u8, rows: Seq<Row>, c: nat, g: int)
    requires
        members_held(ov, rows),
        0 <= g < parity::groups_below(level, rows, c).len(),
    ensures
        forall|x: int|
            0 <= x < parity::groups_below(level, rows, c)[g].members.len() ==> ov.contains_key(
                #[trigger] parity::groups_below(level, rows, c)[g].members[x],
            ),
        exists|i: int| 0 <= i < rows.len() && parity::member(#[trigger] rows[i]) is Some,
    decreases c,
{
    let d = (c - 1) as nat;
    let front = parity::groups_below(level, rows, d);
    if g < front.len() {
        lemma_groups_held(ov, level, rows, d, g);
    } else {
        let h = parity::run_hashes(level, rows, c - 1);
        let s = parity::sizes_of(h);
        let cids = parity::run_cids(rows, c - 1);
        parity::law_groups_partition_their_run(h);
        parity::lemma_run_lens(level, rows, c - 1);
        parity::lemma_cut_len(c - 1, cids, s, s.len());
        lemma_run_held(ov, rows, c - 1);
        lemma_cut_held(ov, c - 1, cids, s, s.len(), g - front.len());
        assert(s.len() > 0);
        assert(cids.len() > 0) by {
            parity::lemma_total_mono(s, 0, s.len());
            lemma_sum_some(s, s.len());
        }
    }
}

/// Sizes are counted.
proof fn lemma_sum_some(s: Seq<int>, n: nat)
    requires
        0 < n <= s.len(),
        forall|j: int| 0 <= j < s.len() ==> 1 <= #[trigger] s[j],
    ensures
        parity::total(s, n) > 0,
    decreases n,
{
    if n > 1 {
        lemma_sum_some(s, (n - 1) as nat);
    } else {
        assert(parity::total(s, 0) == 0);
    }
    assert(1 <= s[n - 1]);
}

/// Nothing that is held is missing.
proof fn lemma_none_missing(ov: BlockMap, members: Seq<Seq<u8>>, i: int)
    requires
        0 <= i,
        forall|x: int| 0 <= x < members.len() ==> ov.contains_key(#[trigger] members[x]),
    ensures
        chunk::first_missing(ov, members, i) is None,
    decreases members.len() - i,
{
    if i < members.len() {
        lemma_none_missing(ov, members, i + 1);
    }
}

/// Ids that are found are as many as there are parity blocks.
proof fn lemma_found_three(index: Seq<Known>, class: int, members: Seq<Seq<u8>>, i: int)
    requires
        threes(index),
        0 <= i,
    ensures
        parity::find_exact(index, class, members, i) matches Some(ids) ==> ids.len() == 3,
    decreases index.len() - i,
{
    if i < index.len() {
        lemma_found_three(index, class, members, i + 1);
        assert(index[i].ids.len() == 3);
    }
}

/// Where two lists differ.
proof fn lemma_differs(a: Seq<Seq<u8>>, b: Seq<Seq<u8>>, i: int)
    requires
        0 <= i <= a.len(),
        a.len() == b.len(),
        forall|j: int| 0 <= j < i ==> a[j] == b[j],
        parity::differing(a, b, b.len()) == 1,
    ensures
        0 <= parity::first_difference(a, b, i) < a.len(),
    decreases a.len() - i,
{
    if i == a.len() {
        rebuild::lemma_none_differ(a, b, a.len());
    } else if a[i] == b[i] {
        lemma_differs(a, b, i + 1);
    }
}

/// The one member that differs is one.
proof fn lemma_near(index: Seq<Known>, class: int, members: Seq<Seq<u8>>, i: int)
    requires
        0 <= i,
    ensures
        parity::find_one_off(index, class, members, i) matches Some(o) ==> 0 <= o.pos
            < members.len(),
    decreases index.len() - i,
{
    if i < index.len() {
        if parity::nearly_covers(index[i], class, members) {
            lemma_differs(index[i].members, members, 0);
        } else {
            lemma_near(index, class, members, i + 1);
        }
    }
}

/// A group whose members are held is coded.
proof fn lemma_coded(ov: BlockMap, index: Seq<Known>, leaf: bool, g: Group)
    requires
        threes(index),
        forall|x: int| 0 <= x < g.members.len() ==> ov.contains_key(#[trigger] g.members[x]),
    ensures
        chunk::group_code(ov, index, leaf, g) matches Ok(c) && c.ids.len() == 3,
{
    lemma_found_three(index, g.class, g.members, 0);
    lemma_near(index, g.class, g.members, 0);
    lemma_none_missing(ov, g.members, 0);
}

/// Ids that fit can be listed.
proof fn lemma_listed(n: NodeView, ids: Seq<Seq<u8>>, count: nat)
    requires
        count <= ids.len(),
        n.level == 0 ==> node::has_ref(n.rows),
        node::logical(n.rows) + 32 * (n.parity.len() + count) <= node::MAX_NODE,
    ensures
        chunk::with_ids(n, ids, count) == Ok::<NodeView, BuildError>(
            NodeView { level: n.level, rows: n.rows, parity: n.parity + ids.take(count as int) },
        ),
    decreases count,
{
    if count > 0 {
        lemma_listed(n, ids, (count - 1) as nat);
        let p = NodeView {
            level: n.level,
            rows: n.rows,
            parity: n.parity + ids.take(count - 1),
        };
        lemma_encoded_most(p);
        assert(node::parity_error(p) is None);
        assert(n.parity + ids.take(count as int) =~= (n.parity + ids.take(count - 1)).push(
            ids[count - 1],
        ));
    } else {
        assert(n.parity + ids.take(0) =~= n.parity);
    }
}

/// A node within the limit whose members are held gets its parity.
pub proof fn lemma_made(ov: BlockMap, index: Seq<Known>, level: u8, rows: Seq<Row>, n: nat)
    requires
        n <= parity::groups(level, rows).len(),
        node::logical(rows) <= MAX_LOGICAL,
        members_held(ov, rows),
        threes(index),
        forall|i: int| 0 <= i < rows.len() ==> node::row_fits(level, #[trigger] rows[i]),
    ensures
        chunk::made(ov, index, level, rows, n) matches Ok(d) && d.node.level == level
            && d.node.rows == rows && d.node.parity.len() == 3 * n,
    decreases n,
{
    if n > 0 {
        let k = (n - 1) as nat;
        lemma_made(ov, index, level, rows, k);
        lemma_room(level, rows);
        let d = chunk::made(ov, index, level, rows, k)->Ok_0;
        let g = parity::groups(level, rows)[n - 1];
        lemma_groups_held(ov, level, rows, 4, n - 1);
        lemma_coded(ov, index, level == 0, g);
        let c = chunk::group_code(ov, index, level == 0, g)->Ok_0;
        let i = choose|i: int| 0 <= i < rows.len() && parity::member(#[trigger] rows[i]) is Some;
        assert(node::row_fits(level, rows[i]));
        if level == 0 {
            assert(rows[i].held is Ref);
            assert(node::has_ref(rows));
        }
        lemma_listed(d.node, c.ids, 3);
    }
}

/// A node within the limit whose members are held closes.
proof fn lemma_closes(ov: BlockMap, index: Seq<Known>, level: u8, rows: Seq<Row>)
    requires
        node::logical(rows) <= MAX_LOGICAL,
        members_held(ov, rows),
        threes(index),
        rows.len() > 0,
        forall|i: int| 0 <= i < rows.len() ==> node::row_fits(level, #[trigger] rows[i]),
    ensures
        chunk::closing(ov, index, level, rows) is Ok,
{
    lemma_made(ov, index, level, rows, parity::groups(level, rows).len());
}

// ---------------------------------------------------------------------------
// pushing
// ---------------------------------------------------------------------------

/// Rows that a level takes: they ascend and fit, their members are held, and their sums
/// can be counted.
#[verifier::opaque]
spec fn welcome(ov: BlockMap, level: u8, rows: Seq<Row>) -> bool {
    &&& node::sorted_rows(rows)
    &&& forall|i: int| 0 <= i < rows.len() ==> node::row_fits(level, #[trigger] rows[i])
    &&& tower::all_small(rows)
    &&& members_held(ov, rows)
    &&& node::sum_count(rows) <= u64::MAX
    &&& node::sum_weight(rows) <= u64::MAX
}

/// What is open stays within the limit.
proof fn lemma_open_fits(level: u8, rule: Rule, rows: Seq<Row>)
    requires
        tower::all_small(rows),
    ensures
        node::logical(chunk::cut_from(level, rule, chunk::uncut(), rows).open) <= MAX_LOGICAL,
    decreases rows.len(),
{
    if rows.len() > 0 {
        let front = rows.drop_last();
        let row = rows.last();
        assert forall|i: int| 0 <= i < front.len() implies tower::small(#[trigger] front[i]) by {
            assert(front[i] == rows[i]);
        }
        lemma_open_fits(level, rule, front);
        assert(tower::small(rows[rows.len() - 1]));
        let c = chunk::cut_from(level, rule, chunk::uncut(), front);
        let d = chunk::made_room(c, row);
        let open = d.open.push(row);
        assert(open.drop_last() =~= d.open);
        assert(node::logical(open) == node::logical(d.open) + node::row_cost(row));
    }
    assert(node::logical(Seq::<Row>::empty()) == node::HEADER);
}

/// Sums of the last rows are no larger.
proof fn lemma_sums_last(rows: Seq<Row>, k: int)
    requires
        0 <= k <= rows.len(),
    ensures
        node::sum_count(rows.skip(k)) <= node::sum_count(rows),
        node::sum_weight(rows.skip(k)) <= node::sum_weight(rows),
    decreases rows.len(),
{
    if k < rows.len() {
        let front = rows.drop_last();
        lemma_sums_last(front, k);
        assert(rows.skip(k).drop_last() =~= front.skip(k));
        assert(rows.skip(k).last() == rows.last());
    } else {
        assert(rows.skip(k) =~= Seq::<Row>::empty());
        node::lemma_sums(rows);
    }
}

/// A stretch of rows that a level takes is taken.
proof fn lemma_welcome_part(ov: BlockMap, level: u8, rows: Seq<Row>, i: int, j: int)
    requires
        welcome(ov, level, rows),
        0 <= i <= j <= rows.len(),
    ensures
        welcome(ov, level, rows.subrange(i, j)),
{
    reveal(welcome);
    let part = rows.subrange(i, j);
    assert forall|x: int, y: int| 0 <= x < y < part.len() implies order::lt(
        (#[trigger] part[x]).key,
        (#[trigger] part[y]).key,
    ) by {
        assert(part[x] == rows[i + x] && part[y] == rows[i + y]);
    }
    assert forall|x: int| 0 <= x < part.len() implies node::row_fits(level, #[trigger] part[x])
        && tower::small(part[x]) && (parity::member(part[x]) is Some ==> ov.contains_key(
        parity::member(part[x])->Some_0.cid,
    )) by {
        assert(part[x] == rows[i + x]);
    }
    canon::lemma_sums_take(rows, j);
    lemma_sums_last(rows.take(j), i);
    assert(rows.take(j).skip(i) =~= part);
}

/// Rows that a level takes close.
proof fn lemma_welcome_closes(ov: BlockMap, index: Seq<Known>, level: u8, rows: Seq<Row>)
    requires
        welcome(ov, level, rows),
        threes(index),
        rows.len() > 0,
        node::logical(rows) <= MAX_LOGICAL,
    ensures
        chunk::closing(ov, index, level, rows) is Ok,
{
    reveal(welcome);
    lemma_closes(ov, index, level, rows);
}

/// The last of some rows that a level takes goes in after those that are open.
proof fn lemma_settles(ov: BlockMap, index: Seq<Known>, level: u8, rule: Rule, open: Seq<Row>, row: Row)
    requires
        welcome(ov, level, open.push(row)),
        threes(index),
        !chunk::overflows(open, row),
    ensures
        chunk::settled(ov, index, level, rule, open, row) is Done,
{
    let next = open.push(row);
    let n = NodeView { level, rows: open, parity: Seq::empty() };
    assert(next.drop_last() =~= open);
    assert(node::logical(next) == node::logical(open) + node::row_cost(row));
    assert(node::push_error(n, row) is None) by {
        reveal(welcome);
        assert(next[next.len() - 1] == row);
        assert(node::row_fits(level, next[next.len() - 1]));
        lemma_encoded_most(n.with_row(row));
        if open.len() > 0 {
            assert(next[open.len() - 1] == open.last());
            assert(order::lt(next[open.len() - 1].key, next[next.len() - 1].key));
        }
    }
    lemma_welcome_closes(ov, index, level, next);
}

/// Each of some rows that a level takes goes in after those before it.
#[verifier::rlimit(60)]
#[verifier::spinoff_prover]
proof fn lemma_pushes(ov: BlockMap, index: Seq<Known>, level: u8, rule: Rule, q: Seq<Row>)
    requires
        welcome(ov, level, q),
        threes(index),
        q.len() > 0,
    ensures
        chunk::pushed(
            ov,
            index,
            level,
            rule,
            chunk::cut_from(level, rule, chunk::uncut(), q.drop_last()).open,
            q.last(),
        ) is Done,
{
    let front = q.drop_last();
    let row = q.last();
    let c = chunk::cut_from(level, rule, chunk::uncut(), front);
    let open = c.open;
    assert(tower::all_small(front) && tower::small(row)) by {
        reveal(welcome);
        assert(tower::small(q[q.len() - 1]));
        assert forall|i: int| 0 <= i < front.len() implies tower::small(#[trigger] front[i]) by {
            assert(front[i] == q[i]);
        }
    }
    lemma_open_fits(level, rule, front);
    tower::lemma_cut(level, rule, front);
    let k = tower::joined(c.closed).len() as int;
    assert(open =~= front.skip(k));
    assert(open =~= q.subrange(k, q.len() - 1));
    assert(open.push(row) =~= q.subrange(k, q.len() as int));
    lemma_welcome_part(ov, level, q, k, q.len() as int);
    lemma_welcome_part(ov, level, q, k, q.len() - 1);
    if chunk::overflows(open, row) {
        let none = Seq::<Row>::empty();
        assert(open.len() > 0) by {
            if open.len() == 0 {
                assert(open =~= none);
            }
        }
        lemma_welcome_closes(ov, index, level, open);
        assert(none.push(row) =~= q.subrange(q.len() - 1, q.len() as int));
        lemma_welcome_part(ov, level, q, q.len() - 1, q.len() as int);
        lemma_settles(ov, index, level, rule, none, row);
    } else {
        lemma_settles(ov, index, level, rule, open, row);
    }
}

/// Rows that a level takes do not jam it, in the middle or at the end.
proof fn lemma_no_jam(
    ov: BlockMap,
    index: Seq<Known>,
    level: u8,
    rule: Rule,
    goal: Seq<Row>,
    e: ApplyError,
)
    requires
        welcome(ov, level, goal),
        threes(index),
    ensures
        !apply::jams_in(ov, index, level, rule, goal, e),
        !apply::jams_closing(ov, index, level, rule, goal, e),
{
    reveal(apply::jams_in);
    reveal(apply::jams);
    reveal(apply::jams_closing);
    if apply::jams_in(ov, index, level, rule, goal, e) {
        let q = choose|q: Seq<Row>| #[trigger]
            apply::jams(ov, index, level, rule, q, e) && q.is_prefix_of(goal);
        assert(q =~= goal.subrange(0, q.len() as int));
        lemma_welcome_part(ov, level, goal, 0, q.len() as int);
        if q.len() > 0 {
            lemma_pushes(ov, index, level, rule, q);
        }
    }
    let c = chunk::cut_from(level, rule, chunk::uncut(), goal);
    if c.open.len() > 0 {
        assert(tower::all_small(goal)) by {
            reveal(welcome);
        }
        lemma_open_fits(level, rule, goal);
        tower::lemma_cut(level, rule, goal);
        let k = tower::joined(c.closed).len() as int;
        assert(c.open =~= goal.subrange(k, goal.len() as int));
        lemma_welcome_part(ov, level, goal, k, goal.len() as int);
        lemma_welcome_closes(ov, index, level, c.open);
    }
}

// ---------------------------------------------------------------------------
// the old tree
// ---------------------------------------------------------------------------

/// Is every place's block held?
spec fn slots_held(m: BlockMap, a: Seq<Slot>) -> bool {
    forall|i: int| 0 <= i < a.len() ==> m.contains_key((#[trigger] a[i]).cid)
}

/// Where the leaves under a place are held, every level is, and it is the same in a
/// larger store.
proof fn lemma_same_slot(m: BlockMap, w: BlockMap, s: Slot, h: HeldView, f: int)
    requires
        m.submap_of(w),
        s.opened == Ok::<HeldView, Fault>(h),
        m.contains_key(s.cid),
        apply::all_open(tree::level_slots(m, s, 0)),
        f >= 0,
    ensures
        tree::level_slots(m, s, f) == tree::level_slots(w, s, f),
        apply::all_open(tree::level_slots(m, s, f)),
        slots_held(m, tree::level_slots(m, s, f)),
    decreases h.node.level as nat, 1nat, 0nat,
{
    if h.node.level > f {
        lemma_same_children(m, w, h, f, h.node.rows.len());
    }
}

#[verifier::rlimit(60)]
#[verifier::spinoff_prover]
proof fn lemma_same_children(m: BlockMap, w: BlockMap, h: HeldView, f: int, n: nat)
    requires
        m.submap_of(w),
        n <= h.node.rows.len(),
        h.node.level > f >= 0,
        apply::all_open(tree::child_slots(m, h, 0, n)),
    ensures
        tree::child_slots(m, h, f, n) == tree::child_slots(w, h, f, n),
        apply::all_open(tree::child_slots(m, h, f, n)),
        slots_held(m, tree::child_slots(m, h, f, n)),
    decreases h.node.level as nat, 0nat, n,
{
    if n > 0 {
        let k = (n - 1) as nat;
        let s = tree::child_slot(m, h, n - 1);
        let low = tree::child_slots(m, h, 0, k);
        let mine = tree::level_slots(m, s, 0);
        let both = tree::child_slots(m, h, 0, n);
        assert(both == low + mine);
        assert forall|i: int| 0 <= i < low.len() implies (#[trigger] low[i]).opened is Ok by {
            assert(both[i].opened is Ok);
        }
        assert forall|i: int| 0 <= i < mine.len() implies (#[trigger] mine[i]).opened is Ok by {
            assert(both[low.len() + i].opened is Ok);
        }
        if s.opened is Err {
            assert(mine[0] == s);
        }
        let c = s.opened->Ok_0;
        let cid = s.cid;
        assert(m.contains_key(cid)) by {
            reveal(store::loaded);
        }
        assert(tree::child_slot(w, h, n - 1) == s) by {
            reveal(store::loaded);
            assert(m.dom().contains(cid) && w.dom().contains(cid));
        }
        assert(c.node.level == h.node.level - 1);
        lemma_same_slot(m, w, s, c, f);
        lemma_same_children(m, w, h, f, k);
        let first = tree::child_slots(m, h, f, k);
        let last = tree::level_slots(m, s, f);
        let all = tree::child_slots(m, h, f, n);
        assert(all == first + last);
        assert forall|i: int| 0 <= i < all.len() implies (#[trigger] all[i]).opened is Ok
            && m.contains_key(all[i].cid) by {
            if i < first.len() {
                assert(all[i] == first[i]);
            } else {
                assert(all[i] == last[i - first.len()]);
            }
        }
    }
}

/// What a change needs: the whole tree and the values it refers to are held, and the
/// batch is in order.
///
/// Besides, a store in which the old tree stands and which holds, as nodes, whatever the
/// change closes on its way; and what the machine allows: the entries can be counted, and
/// the levels numbered.
#[verifier::opaque]
pub open spec fn provided(
    m: BlockMap,
    root: Seq<u8>,
    rule: Rule,
    edits: Seq<(Vec<u8>, Edit)>,
    w: BlockMap,
    rows: Seq<Row>,
) -> bool {
    let next = edits::edited(rows, apply::edit_rows(edits));
    // the batch is in order
    &&& apply::batch_error(edits, 0) is None
    // every node of the tree is held, and every value it refers to
    &&& apply::all_open(cursor::level_of(m, root, 0))
    &&& members_held(m, rows)
    // the tree is that of its rows
    &&& m.submap_of(w)
    &&& apply::values_held(w, edits)
    &&& build::proper(rows)
    &&& build::delivers(w, rule, rows, root)
    &&& rebuild::tree_honest(w, rule, rows)
    // what is closed is held
    &&& forall|floors: Seq<Floor>| #[trigger]
        apply::chain(
            m,
            root,
            rule,
            true,
            apply::edit_rows(edits),
            apply::with_values(m, edits),
            floors,
        ) ==> all_kept(w, floors)
    // the sums can be counted, and the levels numbered
    &&& node::sum_count(next) <= u64::MAX
    &&& node::sum_weight(next) <= u64::MAX
    &&& tower::top(w, rule, next) is Some
}

/// Is every node that was closed held, as a node?
pub open spec fn all_kept(w: BlockMap, floors: Seq<Floor>) -> bool {
    forall|i: int|
        0 <= i < apply::closed_nodes(floors).len() ==> tower::kept(
            w,
            #[trigger] apply::closed_nodes(floors)[i],
        )
}

/// The root is held.
proof fn lemma_root_held(
    m: BlockMap,
    root: Seq<u8>,
    rule: Rule,
    edits: Seq<(Vec<u8>, Edit)>,
    w: BlockMap,
    rows: Seq<Row>,
)
    requires
        provided(m, root, rule, edits, w, rows),
    ensures
        store::loaded(m, root) is Ok,
        m.contains_key(root),
        store::loaded(m, root) == store::loaded(w, root),
        tree::root_slot(m, root) == tree::root_slot(w, root),
{
    reveal(provided);
    let s = tree::root_slot(m, root);
    if store::loaded(m, root) is Err {
        let a = cursor::level_of(m, root, 0);
        assert(a =~= seq![s]);
        assert(a[0].opened is Err);
    }
    assert(m.contains_key(root)) by {
        reveal(store::loaded);
    }
    assert(store::loaded(m, root) == store::loaded(w, root)) by {
        reveal(store::loaded);
        assert(m.dom().contains(root) && w.dom().contains(root));
    }
}

/// The levels of a change are on their way.
proof fn lemma_partway(
    m: BlockMap,
    root: Seq<u8>,
    rule: Rule,
    edits: Seq<(Vec<u8>, Edit)>,
    w: BlockMap,
    rows: Seq<Row>,
    floors: Seq<Floor>,
)
    requires
        provided(m, root, rule, edits, w, rows),
        apply::chain(
            m,
            root,
            rule,
            true,
            apply::edit_rows(edits),
            apply::with_values(m, edits),
            floors,
        ),
    ensures
        rebuild::partway(m, root, rule, edits, floors, w, rows),
{
    lemma_root_held(m, root, rule, edits, w, rows);
    reveal(provided);
    reveal(rebuild::partway);
    restate::lemma_batch_sorted(edits);
    assert(all_kept(w, floors));
    assert forall|f: int, i: int|
        #![trigger floors[f].nodes[i]]
        0 <= f < floors.len() && 0 <= i < floors[f].nodes.len() implies tower::kept(
        w,
        floors[f].nodes[i],
    ) && floors[f].nodes[i].valid() by {
        let j = rebuild::lemma_floor_at(floors, floors.len(), f, i);
        assert(apply::closed_nodes(floors)[j] == floors[f].nodes[i]);
        reveal(tower::kept);
    }
}

/// A level of the old tree, in the store that the change reads.
proof fn lemma_old_places(
    m: BlockMap,
    root: Seq<u8>,
    rule: Rule,
    edits: Seq<(Vec<u8>, Edit)>,
    w: BlockMap,
    rows: Seq<Row>,
    f: nat,
)
    requires
        provided(m, root, rule, edits, w, rows),
        rows.len() > 0,
        f <= tower::top(w, rule, rows)->Some_0.level,
    ensures
        ({
            let r = tower::level_rows(w, rule, rows, f);
            let runs = chunk::chunks(f as u8, rule, r);
            let a = cursor::level_of(m, root, f as int);
            &&& a == tower::places(rebuild::new_level(w, rule, rows, f))
            &&& a.len() == runs.len()
            &&& apply::all_open(a)
            &&& slots_held(m, a)
            &&& tower::joined(runs) == r
            &&& node::sorted_rows(r)
            &&& forall|j: int| 0 <= j < runs.len() ==> (#[trigger] runs[j]).len() > 0
        }),
{
    lemma_root_held(m, root, rule, edits, w, rows);
    reveal(provided);
    rebuild::lemma_proper_fits(rows);
    rebuild::lemma_old_level(w, rule, rows, f);
    reveal(rebuild::is_level);
    let s = tree::root_slot(m, root);
    lemma_same_slot(m, w, s, s.opened->Ok_0, f as int);
}

/// The members of the old rows of a level are held.
proof fn lemma_old_members(
    m: BlockMap,
    root: Seq<u8>,
    rule: Rule,
    edits: Seq<(Vec<u8>, Edit)>,
    w: BlockMap,
    rows: Seq<Row>,
    f: nat,
)
    requires
        provided(m, root, rule, edits, w, rows),
    ensures
        members_held(m, rebuild::old_rows(w, rule, rows, f)),
{
    let r = rebuild::old_rows(w, rule, rows, f);
    if f == 0 {
        assert(members_held(m, rows)) by {
            reveal(provided);
        }
    } else if r.len() > 0 {
        let g = (f - 1) as nat;
        lemma_old_places(m, root, rule, edits, w, rows, g);
        let ns = rebuild::new_level(w, rule, rows, g);
        let a = cursor::level_of(m, root, g as int);
        assert(r == tower::child_rows(ns));
        assert forall|i: int|
            0 <= i < r.len() && parity::member(#[trigger] r[i]) is Some implies m.contains_key(
            parity::member(r[i])->Some_0.cid,
        ) by {
            assert(r[i] == chunk::child_row(ns[i]));
            assert(a[i].cid == chunk::node_id(ns[i]));
        }
    }
}

/// A row of edited rows is one of them, or one that an edit leaves.
proof fn lemma_edited_row(rows: Seq<Row>, es: Seq<EditRow>, i: int)
    requires
        node::sorted_rows(rows),
        edits::sorted_edits(es),
        0 <= i < edits::edited(rows, es).len(),
    ensures
        ({
            let r = edits::edited(rows, es)[i];
            (exists|x: int| 0 <= x < rows.len() && #[trigger] rows[x] == r) || (exists|x: int|
                0 <= x < es.len() && (#[trigger] es[x]).key == r.key && es[x].held == Some(r.held))
        }),
{
    let all = edits::edited(rows, es);
    let r = all[i];
    edits::lemma_edited_sorted(rows, es);
    edits::lemma_row_is(all, i);
    edits::lemma_edited_at(rows, es, r.key);
    if edits::edit_at(es, r.key) is Some {
        let x = edits::lemma_edit_of(es, r.key);
        assert(es[x].key == r.key && es[x].held == Some(r.held));
    } else {
        let x = edits::lemma_row_of(rows, r.key);
        assert(rows[x] == r);
    }
}

/// Blocks that are put are held, besides those that were.
proof fn lemma_puts_dom(m: BlockMap, puts: Seq<Put>)
    ensures
        apply::covered(m, apply::with_puts(m, puts)),
        forall|i: int|
            0 <= i < puts.len() ==> apply::with_puts(m, puts).contains_key((#[trigger] puts[i]).id),
    decreases puts.len(),
{
    if puts.len() > 0 {
        let front = puts.drop_last();
        lemma_puts_dom(m, front);
        assert forall|i: int| 0 <= i < puts.len() implies apply::with_puts(m, puts).contains_key(
            (#[trigger] puts[i]).id,
        ) by {
            if i < front.len() {
                assert(front[i] == puts[i]);
                assert(apply::with_puts(m, front).contains_key(front[i].id));
            }
        }
    }
}

/// The value of an edit is among those put.
proof fn lemma_value_put(edits: Seq<(Vec<u8>, Edit)>, n: nat, i: int) -> (k: int)
    requires
        0 <= i < n <= edits.len(),
        apply::value_of(edits[i]) is Some,
    ensures
        0 <= k < apply::value_puts(edits, n).len(),
        apply::value_puts(edits, n)[k] == apply::value_of(edits[i])->Some_0,
    decreases n,
{
    if i < n - 1 {
        lemma_value_put(edits, (n - 1) as nat, i)
    } else {
        apply::value_puts(edits, (n - 1) as nat).len() as int
    }
}

/// Does every row that the edits leave have its member held, and fit the level?
spec fn edits_fit(ov: BlockMap, level: u8, es: Seq<EditRow>) -> bool {
    forall|x: int|
        #![trigger es[x]]
        0 <= x < es.len() && es[x].held is Some ==> {
            let r = Row { key: es[x].key, held: es[x].held->Some_0 };
            &&& node::row_fits(level, r)
            &&& parity::member(r) is Some ==> ov.contains_key(parity::member(r)->Some_0.cid)
        }
}

/// The edits of the leaves fit them.
proof fn lemma_batch_fits(m: BlockMap, edits: Seq<(Vec<u8>, Edit)>)
    requires
        apply::batch_error(edits, 0) is None,
    ensures
        edits_fit(apply::with_values(m, edits), 0, apply::edit_rows(edits)),
        apply::covered(m, apply::with_values(m, edits)),
{
    let es = apply::edit_rows(edits);
    let ov = apply::with_values(m, edits);
    let puts = apply::value_puts(edits, edits.len());
    lemma_puts_dom(m, puts);
    assert forall|x: int|
        #![trigger es[x]]
        0 <= x < es.len() && es[x].held is Some implies {
        let r = Row { key: es[x].key, held: es[x].held->Some_0 };
        &&& node::row_fits(0, r)
        &&& parity::member(r) is Some ==> ov.contains_key(parity::member(r)->Some_0.cid)
    } by {
        rebuild::lemma_batch_proper(edits, x);
        assert(es[x] == apply::edit_row(edits[x]));
        let r = Row { key: es[x].key, held: es[x].held->Some_0 };
        if parity::member(r) is Some {
            let k = lemma_value_put(edits, edits.len(), x);
            assert(ov.contains_key(puts[k].id));
        }
    }
}

/// The edits that go up fit the level they go to.
proof fn lemma_up_fits(m: BlockMap, root: Seq<u8>, f: int, x: Floor, es: Seq<EditRow>)
    requires
        apply::tells(m, root, f, x, es),
        0 <= f < 255,
        forall|i: int| 0 <= i < x.nodes.len() ==> (#[trigger] x.nodes[i]).valid() && x.nodes[i].rows.len() > 0,
    ensures
        edits_fit(
            apply::with_puts(x.ov, build::blocks_of(x.nodes)),
            (f + 1) as u8,
            es,
        ),
{
    reveal(apply::tells);
    let ov = apply::with_puts(x.ov, build::blocks_of(x.nodes));
    let was = apply::was_at(m, root, f, x);
    let growing = apply::grows_at(m, root, f, x);
    lemma_puts_dom(x.ov, build::blocks_of(x.nodes));
    assert forall|y: int|
        #![trigger es[y]]
        0 <= y < es.len() && es[y].held is Some implies {
        let r = Row { key: es[y].key, held: es[y].held->Some_0 };
        &&& node::row_fits((f + 1) as u8, r)
        &&& parity::member(r) is Some ==> ov.contains_key(parity::member(r)->Some_0.cid)
    } by {
        let k = es[y].key;
        edits::lemma_edit_is(es, y);
        assert(edits::edit_at(es, k) == apply::up_at(was, x.nodes, growing, k));
        let j = rebuild::lemma_sent(was, x.nodes, growing, x.nodes.len(), k);
        let n = x.nodes[j];
        assert(n.valid() && n.rows.len() > 0);
        assert(node::row_fits(n.level, n.rows[0]));
        assert(chunk::child_row(n) == (Row { key: k, held: es[y].held->Some_0 }));
        assert(build::blocks_of(x.nodes)[j].id == chunk::node_id(n));
    }
}

// ---------------------------------------------------------------------------
// sums
// ---------------------------------------------------------------------------

/// Sums of two lists.
proof fn lemma_sums_join(a: Seq<Row>, b: Seq<Row>)
    ensures
        node::sum_count(a + b) == node::sum_count(a) + node::sum_count(b),
        node::sum_weight(a + b) == node::sum_weight(a) + node::sum_weight(b),
    decreases b.len(),
{
    if b.len() > 0 {
        lemma_sums_join(a, b.drop_last());
        assert((a + b).drop_last() =~= a + b.drop_last());
        assert((a + b).last() == b.last());
    } else {
        assert(a + b =~= a);
    }
}

/// The level above counts the same.
proof fn lemma_sums_up(nodes: Seq<NodeView>)
    requires
        forall|i: int| 0 <= i < nodes.len() ==> (#[trigger] nodes[i]).valid(),
    ensures
        node::sum_count(tower::child_rows(nodes)) == node::sum_count(
            tower::joined(apply::node_runs(nodes)),
        ),
        node::sum_weight(tower::child_rows(nodes)) == node::sum_weight(
            tower::joined(apply::node_runs(nodes)),
        ),
    decreases nodes.len(),
{
    let up = tower::child_rows(nodes);
    let runs = apply::node_runs(nodes);
    if nodes.len() > 0 {
        let front = nodes.drop_last();
        assert forall|i: int| 0 <= i < front.len() implies (#[trigger] front[i]).valid() by {
            assert(front[i] == nodes[i]);
        }
        lemma_sums_up(front);
        let n = nodes.last();
        assert(nodes[nodes.len() - 1].valid());
        node::lemma_sums(n.rows);
        assert(up.drop_last() =~= tower::child_rows(front));
        assert(up.last() == chunk::child_row(n));
        assert(runs.drop_last() =~= apply::node_runs(front));
        assert(runs.last() == n.rows);
        lemma_sums_join(tower::joined(runs.drop_last()), n.rows);
    } else {
        assert(up =~= Seq::<Row>::empty());
        assert(runs =~= Seq::<Seq<Row>>::empty());
    }
}

/// Every level counts the same.
proof fn lemma_level_sums(
    m: BlockMap,
    root: Seq<u8>,
    rule: Rule,
    edits: Seq<(Vec<u8>, Edit)>,
    floors: Seq<Floor>,
    w: BlockMap,
    rows: Seq<Row>,
    f: nat,
)
    requires
        rebuild::partway(m, root, rule, edits, floors, w, rows),
        f <= floors.len(),
    ensures
        ({
            let next = rebuild::changed(rows, edits);
            let r = tower::level_rows(w, rule, next, f);
            node::sum_count(r) == node::sum_count(next) && node::sum_weight(r) == node::sum_weight(
                next,
            )
        }),
    decreases f,
{
    if f > 0 {
        let g = (f - 1) as nat;
        let next = rebuild::changed(rows, edits);
        lemma_level_sums(m, root, rule, edits, floors, w, rows, g);
        rebuild::lemma_level_done(m, root, rule, edits, floors, w, rows, g as int);
        reveal(rebuild::level_done);
        let ns = rebuild::new_level(w, rule, next, g);
        let r = tower::level_rows(w, rule, next, g);
        let runs = chunk::chunks(g as u8, rule, r);
        tower::lemma_chunks(g as u8, rule, r);
        assert(apply::node_runs(ns) =~= runs);
        assert forall|i: int| 0 <= i < ns.len() implies (#[trigger] ns[i]).valid() by {
            assert(tower::kept(w, ns[i]));
            reveal(tower::kept);
        }
        lemma_sums_up(ns);
    }
}

// ---------------------------------------------------------------------------
// the next level
// ---------------------------------------------------------------------------

/// What is known of the level after some: its edits and the store they are applied over.
#[verifier::opaque]
spec fn at_next(
    w: BlockMap,
    rule: Rule,
    rows: Seq<Row>,
    next: Seq<Row>,
    f: nat,
    es: Seq<EditRow>,
    ov: BlockMap,
    m: BlockMap,
) -> bool {
    &&& edits::sorted_edits(es)
    &&& edits::edited(rebuild::old_rows(w, rule, rows, f), es) == tower::level_rows(
        w,
        rule,
        next,
        f,
    )
    &&& apply::covered(m, ov)
    &&& welcome(ov, f as u8, tower::level_rows(w, rule, next, f))
}

/// The store that a level's edits are applied over has the old blocks.
proof fn lemma_covered(
    m: BlockMap,
    root: Seq<u8>,
    rule: Rule,
    edits: Seq<(Vec<u8>, Edit)>,
    floors: Seq<Floor>,
    w: BlockMap,
    rows: Seq<Row>,
    f: int,
)
    requires
        rebuild::partway(m, root, rule, edits, floors, w, rows),
        0 <= f < floors.len(),
    ensures
        apply::covered(m, floors[f].ov),
    decreases f,
{
    if f == 0 {
        reveal(rebuild::partway);
        reveal(apply::chain);
        lemma_puts_dom(m, apply::value_puts(edits, edits.len()));
    } else {
        lemma_covered(m, root, rule, edits, floors, w, rows, f - 1);
        rebuild::lemma_link(m, root, rule, edits, floors, w, rows, f - 1);
        lemma_puts_dom(floors[f - 1].ov, build::blocks_of(floors[f - 1].nodes));
    }
}

/// The nodes of a level have rows.
proof fn lemma_floor_rows(
    m: BlockMap,
    root: Seq<u8>,
    rule: Rule,
    edits: Seq<(Vec<u8>, Edit)>,
    floors: Seq<Floor>,
    w: BlockMap,
    rows: Seq<Row>,
    f: int,
)
    requires
        rebuild::partway(m, root, rule, edits, floors, w, rows),
        0 <= f < floors.len(),
    ensures
        forall|i: int|
            0 <= i < floors[f].nodes.len() ==> (#[trigger] floors[f].nodes[i]).valid()
                && floors[f].nodes[i].rows.len() > 0,
{
    let ns = floors[f].nodes;
    assert forall|i: int| 0 <= i < ns.len() implies (#[trigger] ns[i]).valid()
        && ns[i].rows.len() > 0 by {
        assert(ns.contains(ns[i]));
        handed::lemma_made_node(m, root, rule, edits, floors, w, rows, f, ns[i]);
        handed::lemma_new_node(m, root, rule, edits, floors, w, rows, f, ns[i]);
        reveal(tower::kept);
    }
}

/// The rows of the next level fit it.
#[verifier::rlimit(60)]
#[verifier::spinoff_prover]
proof fn lemma_next_fits(
    m: BlockMap,
    root: Seq<u8>,
    rule: Rule,
    edits: Seq<(Vec<u8>, Edit)>,
    w: BlockMap,
    rows: Seq<Row>,
    floors: Seq<Floor>,
)
    requires
        provided(m, root, rule, edits, w, rows),
        rebuild::partway(m, root, rule, edits, floors, w, rows),
        floors.len() <= 255,
    ensures
        ({
            let r = tower::level_rows(w, rule, rebuild::changed(rows, edits), floors.len());
            &&& node::sorted_rows(r)
            &&& tower::all_small(r)
            &&& floors.len() > 0 ==> forall|i: int|
                0 <= i < r.len() ==> node::row_fits(floors.len() as u8, #[trigger] r[i])
        }),
{
    let next = rebuild::changed(rows, edits);
    let f = floors.len();
    let r = tower::level_rows(w, rule, next, f);
    if f == 0 {
        reveal(rebuild::partway);
        let es = apply::edit_rows(edits);
        assert forall|i: int| 0 <= i < es.len() && (#[trigger] es[i]).held is Some implies node::leaf_verdict(
            es[i].key,
            es[i].held->Some_0,
        ) is Ok by {
            rebuild::lemma_batch_proper(edits, i);
        }
        rebuild::lemma_changed_proper(rows, es);
        rebuild::lemma_proper_fits(next);
    } else {
        let g = (f - 1) as nat;
        rebuild::lemma_level_done(m, root, rule, edits, floors, w, rows, g as int);
        rebuild::lemma_level_node(w, rule, next, g, floors[g as int]);
        reveal(rebuild::level_done);
        let ns = rebuild::new_level(w, rule, next, g);
        let low = tower::level_rows(w, rule, next, g);
        let runs = chunk::chunks(g as u8, rule, low);
        tower::lemma_chunks(g as u8, rule, low);
        assert(r == tower::child_rows(ns));
        assert forall|i: int| 0 <= i < r.len() implies node::row_fits(f as u8, #[trigger] r[i]) by {
            assert(r[i] == chunk::child_row(ns[i]));
            assert(tower::kept(w, ns[i]));
            reveal(tower::kept);
            assert(ns[i].rows == runs[i]);
            assert(node::row_fits(ns[i].level, ns[i].rows[0]));
        }
    }
}

/// A row of the old leaves fits them.
proof fn lemma_old_leaf_fits(
    m: BlockMap,
    root: Seq<u8>,
    rule: Rule,
    edits: Seq<(Vec<u8>, Edit)>,
    w: BlockMap,
    rows: Seq<Row>,
    i: int,
)
    requires
        provided(m, root, rule, edits, w, rows),
        0 <= i < rows.len(),
    ensures
        node::row_fits(0, rows[i]),
{
    lemma_old_places(m, root, rule, edits, w, rows, 0);
    let runs = chunk::chunks(0, rule, rows);
    let ns = rebuild::new_level(w, rule, rows, 0);
    let (k, x) = restate::lemma_run_of(runs, i);
    reveal(provided);
    rebuild::lemma_proper_fits(rows);
    rebuild::lemma_level_stands(w, rule, rows, 0);
    assert(tower::kept(w, ns[k]));
    reveal(tower::kept);
    assert(ns[k].rows == runs[k]);
    assert(node::row_fits(0, ns[k].rows[x]));
}

/// The next level takes its rows.
#[verifier::rlimit(60)]
#[verifier::spinoff_prover]
proof fn lemma_at_next(
    m: BlockMap,
    root: Seq<u8>,
    rule: Rule,
    edits: Seq<(Vec<u8>, Edit)>,
    w: BlockMap,
    rows: Seq<Row>,
    floors: Seq<Floor>,
    es: Seq<EditRow>,
    ov: BlockMap,
)
    requires
        provided(m, root, rule, edits, w, rows),
        rebuild::partway(m, root, rule, edits, floors, w, rows),
        floors.len() <= 255,
        apply::goes_on(
            m,
            root,
            apply::edit_rows(edits),
            apply::with_values(m, edits),
            floors,
            es,
            ov,
        ),
    ensures
        at_next(
            w,
            rule,
            rows,
            rebuild::changed(rows, edits),
            floors.len(),
            es,
            ov,
            m,
        ),
{
    let next = rebuild::changed(rows, edits);
    let f = floors.len();
    let r = tower::level_rows(w, rule, next, f);
    let old_rows = rebuild::old_rows(w, rule, rows, f);
    reveal(apply::goes_on);
    assert(edits::sorted_edits(es) && edits::edited(old_rows, es) == r && apply::covered(m, ov)
        && edits_fit(ov, f as u8, es)) by {
        if f == 0 {
            reveal(rebuild::partway);
            lemma_batch_fits(m, edits);
            assert(rows.len() == 0 ==> rows =~= Seq::<Row>::empty());
        } else {
            let e = f - 1;
            let x = floors[e];
            rebuild::lemma_on_level(m, root, rule, edits, floors, w, rows, e);
            rebuild::lemma_link(m, root, rule, edits, floors, w, rows, e);
            assert(edits::sorted_edits(es)) by {
                reveal(apply::tells);
            }
            if x.es.len() == 0 {
                rebuild::lemma_nothing_up(m, root, rule, edits, floors, w, rows, e, es);
            }
            rebuild::lemma_up_rows(m, root, rule, edits, floors, w, rows, e, es);
            lemma_covered(m, root, rule, edits, floors, w, rows, e);
            lemma_puts_dom(x.ov, build::blocks_of(x.nodes));
            lemma_floor_rows(m, root, rule, edits, floors, w, rows, e);
            lemma_up_fits(m, root, e, x, es);
        }
    }
    lemma_next_fits(m, root, rule, edits, w, rows, floors);
    lemma_old_members(m, root, rule, edits, w, rows, f);
    lemma_level_sums(m, root, rule, edits, floors, w, rows, f);
    assert(node::sorted_rows(old_rows)) by {
        if old_rows.len() > 0 {
            lemma_old_places(m, root, rule, edits, w, rows, f);
        }
    }
    assert forall|i: int| 0 <= i < r.len() implies node::row_fits(f as u8, #[trigger] r[i]) && (
    parity::member(r[i]) is Some ==> ov.contains_key(parity::member(r[i])->Some_0.cid)) by {
        lemma_edited_row(old_rows, es, i);
        let row = r[i];
        if exists|x: int| 0 <= x < old_rows.len() && #[trigger] old_rows[x] == row {
            let x = choose|x: int| 0 <= x < old_rows.len() && #[trigger] old_rows[x] == row;
            if parity::member(old_rows[x]) is Some {
                let cid = parity::member(old_rows[x])->Some_0.cid;
                assert(m.contains_key(cid));
                assert(m.dom().contains(cid));
                assert(ov.dom().contains(cid));
            }
            if f == 0 {
                lemma_old_leaf_fits(m, root, rule, edits, w, rows, x);
            }
        } else {
            let x = choose|x: int|
                0 <= x < es.len() && (#[trigger] es[x]).key == row.key && es[x].held == Some(
                    row.held,
                );
            assert(row == (Row { key: es[x].key, held: es[x].held->Some_0 }));
        }
    }
    assert(node::sum_count(next) <= u64::MAX && node::sum_weight(next) <= u64::MAX) by {
        reveal(provided);
    }
    reveal(welcome);
    reveal(at_next);
}

// ---------------------------------------------------------------------------
// no level is stuck
// ---------------------------------------------------------------------------

/// Every group known from a tree has its ids.
proof fn lemma_known_threes(a: Seq<Slot>, i: int, j: int)
    ensures
        threes(apply::known_at(a, i, j)),
    decreases j - i,
{
    if j > i {
        lemma_known_threes(a, i, j - 1);
        let front = apply::known_at(a, i, j - 1);
        let n = a[j - 1].opened->Ok_0.node;
        let last = parity::known_of(n);
        let all = apply::known_at(a, i, j);
        assert(all == front + last);
        assert forall|x: int| 0 <= x < all.len() implies (#[trigger] all[x]).ids.len() == 3 by {
            if x < front.len() {
                assert(all[x] == front[x]);
            } else {
                assert(all[x] == last[x - front.len()]);
            }
        }
    }
}

/// Without a bound every edit is in reach.
proof fn lemma_reaches_all(es: Seq<EditRow>, from: int)
    requires
        0 <= from <= es.len(),
    ensures
        apply::reach(es, from, None) == es.len(),
    decreases es.len() - from,
{
    if from < es.len() {
        lemma_reaches_all(es, from + 1);
    }
}

/// What a stretch streams is a stretch of the new rows.
#[verifier::rlimit(60)]
#[verifier::spinoff_prover]
proof fn lemma_streamed_part(
    a: Seq<Slot>,
    runs: Seq<Seq<Row>>,
    es: Seq<EditRow>,
    first: int,
    from: int,
    p: int,
) -> (i: int)
    requires
        a.len() == runs.len(),
        forall|j: int|
            0 <= j < runs.len() ==> (#[trigger] runs[j]).len() > 0 && a[j].key == runs[j][0].key
                && apply::rows_at(a[j]) == runs[j],
        node::sorted_rows(tower::joined(runs)),
        edits::sorted_edits(es),
        0 <= first <= p < a.len(),
        0 <= from <= es.len(),
        first == 0 ==> from == 0,
        first > 0 ==> edits::edits_below(es.take(from), a[first].key),
        first > 0 ==> edits::edits_from(es.skip(from), a[first].key),
    ensures
        ({
            let all = edits::edited(tower::joined(runs), es);
            let q = apply::streamed(a, es, first, from, p);
            0 <= i && i + q.len() <= all.len() && q == all.subrange(i, i + q.len())
        }),
{
    let up = tree::next_key(a, None, p);
    let to = apply::reach(es, from, up);
    apply::lemma_reach(es, from, up);
    splice::lemma_rows_part(runs, first, p + 1);
    let x = tower::joined(runs.take(first));
    let y = tower::joined(runs.subrange(first, p + 1));
    let z = tower::joined(runs.skip(p + 1));
    let all = tower::joined(runs);
    let ex = es.take(from);
    let ey = es.subrange(from, to);
    let ez = es.skip(to);
    assert(apply::slot_runs(a, first, p + 1) =~= runs.subrange(first, p + 1));
    let q = apply::streamed(a, es, first, from, p);
    assert(q == edits::edited(y, ey));
    assert(all =~= x + (y + z));
    assert(es =~= ex + (ey + ez));
    splice::lemma_first_row(runs.subrange(first, p + 1));
    // what comes after
    assert(edits::edited(y + z, ey + ez) == q + edits::edited(z, ez)) by {
        if p + 1 < a.len() {
            let u = a[p + 1].key;
            splice::lemma_first_row(runs.skip(p + 1));
            let n = x.len() + y.len();
            assert(all[n as int] == z[0] && z[0].key == u);
            assert forall|j: int| 0 <= j < y.len() implies order::lt((#[trigger] y[j]).key, u) by {
                assert(all[x.len() + j] == y[j]);
                assert(order::lt(all[x.len() + j].key, all[n as int].key));
            }
            assert forall|j: int| 0 <= j < z.len() implies order::le(u, (#[trigger] z[j]).key) by {
                assert(all[n + j] == z[j]);
                if j > 0 {
                    assert(order::lt(all[n as int].key, all[n + j].key));
                }
            }
            assert forall|j: int| 0 <= j < ey.len() implies order::lt((#[trigger] ey[j]).key, u) by {
                assert(ey[j] == es[from + j]);
            }
            assert forall|j: int| 0 <= j < ez.len() implies order::le(u, (#[trigger] ez[j]).key) by {
                assert(ez[j] == es[to + j]);
            }
            edits::lemma_edited_split(y, z, ey, ez, u);
        } else {
            assert(runs.skip(p + 1) =~= Seq::<Seq<Row>>::empty());
            assert(z =~= Seq::<Row>::empty());
            assert(up is None);
            lemma_reaches_all(es, from);
            assert(to == es.len());
            assert(ez =~= Seq::<EditRow>::empty());
            assert(y + z =~= y);
            assert(ey + ez =~= ey);
            assert(edits::edited(z, ez) =~= Seq::<Row>::empty());
            assert(q + Seq::<Row>::empty() =~= q);
        }
    }
    // what comes before
    let rest = edits::edited(y + z, ey + ez);
    let i = edits::edited(x, ex).len() as int;
    assert(edits::edited(all, es) == edits::edited(x, ex) + rest) by {
        if first > 0 {
            let u = a[first].key;
            assert(y[0].key == u);
            assert(all[x.len() as int] == y[0]);
            assert forall|j: int| 0 <= j < x.len() implies order::lt((#[trigger] x[j]).key, u) by {
                assert(all[j] == x[j]);
                assert(order::lt(all[j].key, all[x.len() as int].key));
            }
            let yz = y + z;
            assert forall|j: int| 0 <= j < yz.len() implies order::le(u, (#[trigger] yz[j]).key) by {
                assert(all[x.len() + j] == yz[j]);
                if j > 0 {
                    assert(order::lt(all[x.len() as int].key, all[x.len() + j].key));
                }
            }
            assert(ey + ez =~= es.skip(from));
            edits::lemma_edited_split(x, yz, ex, ey + ez, u);
        } else {
            assert(runs.take(0) =~= Seq::<Seq<Row>>::empty());
            assert(x =~= Seq::<Row>::empty());
            assert(ex =~= Seq::<EditRow>::empty());
            assert(x + (y + z) =~= y + z);
            assert(ex + (ey + ez) =~= ey + ez);
            assert(edits::edited(x, ex) =~= Seq::<Row>::empty());
            assert(Seq::<Row>::empty() + rest =~= rest);
        }
    }
    let whole = edits::edited(all, es);
    assert(q =~= whole.subrange(i, i + q.len()));
    i
}

/// No stretch of a level is stuck.
#[verifier::rlimit(60)]
#[verifier::spinoff_prover]
proof fn lemma_run_goes(
    m: BlockMap,
    root: Seq<u8>,
    rule: Rule,
    edits: Seq<(Vec<u8>, Edit)>,
    w: BlockMap,
    rows: Seq<Row>,
    f: nat,
    es: Seq<EditRow>,
    ov: BlockMap,
    tr: Seq<Trace>,
    first: int,
    p: int,
    e: ApplyError,
)
    requires
        provided(m, root, rule, edits, w, rows),
        at_next(w, rule, rows, rebuild::changed(rows, edits), f, es, ov, m),
        f <= 255,
        f <= apply::old_height(m, root),
        apply::traces_ok(cursor::level_of(m, root, f as int), f as u8, rule, ov, es, tr, true),
        0 <= apply::taken(tr, tr.len() as int) < es.len(),
        apply::begins(
            cursor::level_of(m, root, f as int),
            es,
            apply::taken(tr, tr.len() as int),
            true,
            first,
        ),
        apply::resumed(tr, tr.len() as int) <= first,
    ensures
        !apply::run_halts(
            cursor::level_of(m, root, f as int),
            ov,
            f as u8,
            rule,
            es,
            first,
            apply::taken(tr, tr.len() as int),
            p,
            e,
        ),
{
    let a = cursor::level_of(m, root, f as int);
    let from = apply::taken(tr, tr.len() as int);
    let next = rebuild::changed(rows, edits);
    let all = tower::level_rows(w, rule, next, f);
    if apply::run_halts(a, ov, f as u8, rule, es, first, from, p, e) {
        assert(0 <= first <= p < a.len()) by {
            reveal(apply::flows);
        }
        let index = apply::known_at(a, first, p + 1);
        let q = apply::streamed(a, es, first, from, p);
        lemma_known_threes(a, first, p + 1);
        let runs = lemma_old_runs(m, root, rule, edits, w, rows, f);
        reveal(at_next);
        if rows.len() > 0 {
            lemma_stretch_start(a, f as u8, rule, ov, es, tr, first);
            let i = lemma_streamed_part(a, runs, es, first, from, p);
            lemma_welcome_part(ov, f as u8, all, i, i + q.len());
        } else {
            // one leaf with nothing in it
            lemma_bare_stretch(a, f as u8, rule, ov, es, tr, first, p);
            assert(q == all);
        }
        lemma_no_jam(ov, index, f as u8, rule, q, e);
        assert(a[p].opened is Ok);
    }
}

/// The places of a level of the old tree and their rows.
#[verifier::rlimit(60)]
#[verifier::spinoff_prover]
proof fn lemma_old_runs(
    m: BlockMap,
    root: Seq<u8>,
    rule: Rule,
    edits: Seq<(Vec<u8>, Edit)>,
    w: BlockMap,
    rows: Seq<Row>,
    f: nat,
) -> (runs: Seq<Seq<Row>>)
    requires
        provided(m, root, rule, edits, w, rows),
        f <= apply::old_height(m, root),
    ensures
        ({
            let a = cursor::level_of(m, root, f as int);
            &&& apply::all_open(a)
            &&& rows.len() > 0 ==> {
                &&& a.len() == runs.len()
                &&& tower::joined(runs) == rebuild::old_rows(w, rule, rows, f)
                &&& node::sorted_rows(tower::joined(runs))
                &&& forall|j: int|
                    0 <= j < runs.len() ==> (#[trigger] runs[j]).len() > 0 && a[j].key
                        == runs[j][0].key && apply::rows_at(a[j]) == runs[j]
                &&& forall|i: int, j: int|
                    0 <= i < j < a.len() ==> order::lt((#[trigger] a[i]).key, (#[trigger] a[j]).key)
            }
            &&& rows.len() == 0 ==> {
                &&& f == 0
                &&& a.len() == 1
                &&& apply::rows_at(a[0]) == Seq::<Row>::empty()
            }
        }),
{
    lemma_root_held(m, root, rule, edits, w, rows);
    let a = cursor::level_of(m, root, f as int);
    let top = tower::top(w, rule, rows)->Some_0;
    assert(store::loaded(w, root) == Ok::<NodeView, Fault>(top)) by {
        reveal(provided);
        tower::lemma_top_kept(w, rule, rows, 0);
        tower::lemma_kept(w, top);
    }
    let r = tower::level_rows(w, rule, rows, f);
    let runs = chunk::chunks(f as u8, rule, r);
    if rows.len() > 0 {
        lemma_old_places(m, root, rule, edits, w, rows, f);
        let ns = rebuild::new_level(w, rule, rows, f);
        assert forall|j: int| 0 <= j < runs.len() implies (#[trigger] runs[j]).len() > 0 && a[j].key
            == runs[j][0].key && apply::rows_at(a[j]) == runs[j] by {
            assert(ns[j].rows == runs[j]);
        }
        assert forall|i: int, j: int| 0 <= i < j < a.len() implies order::lt(
            (#[trigger] a[i]).key,
            (#[trigger] a[j]).key,
        ) by {
            lemma_runs_ascend(runs, i, j);
            assert(runs[i].len() > 0 && runs[j].len() > 0);
        }
    } else {
        assert(chunk::chunks(0, rule, rows) =~= Seq::<Seq<Row>>::empty());
        assert(top == chunk::empty_node()) by {
            reveal(provided);
        }
        assert(a =~= seq![tree::root_slot(m, root)]);
    }
    runs
}

/// Later runs begin later.
proof fn lemma_runs_ascend(runs: Seq<Seq<Row>>, i: int, j: int)
    requires
        0 <= i < j < runs.len(),
        runs[i].len() > 0,
        runs[j].len() > 0,
        node::sorted_rows(tower::joined(runs)),
    ensures
        order::lt(runs[i][0].key, runs[j][0].key),
{
    let all = tower::joined(runs);
    splice::lemma_rows_part(runs, i, j);
    let x = tower::joined(runs.take(i));
    let y = tower::joined(runs.subrange(i, j));
    let z = tower::joined(runs.skip(j));
    splice::lemma_first_row(runs.subrange(i, j));
    splice::lemma_first_row(runs.skip(j));
    assert(all[x.len() as int] == y[0]);
    assert(all[(x.len() + y.len()) as int] == z[0]);
    assert(order::lt(all[x.len() as int].key, all[(x.len() + y.len()) as int].key));
}

/// Where a stretch starts, the edits before it are below, and its own are not.
proof fn lemma_stretch_start(
    a: Seq<Slot>,
    floor: u8,
    rule: Rule,
    ov: BlockMap,
    es: Seq<EditRow>,
    tr: Seq<Trace>,
    first: int,
)
    requires
        apply::traces_ok(a, floor, rule, ov, es, tr, true),
        edits::sorted_edits(es),
        0 <= apply::taken(tr, tr.len() as int) < es.len(),
        apply::begins(a, es, apply::taken(tr, tr.len() as int), true, first),
        apply::resumed(tr, tr.len() as int) <= first < a.len(),
        0 <= first,
        forall|i: int, j: int|
            0 <= i < j < a.len() ==> order::lt((#[trigger] a[i]).key, (#[trigger] a[j]).key),
    ensures
        ({
            let from = apply::taken(tr, tr.len() as int);
            &&& first == 0 ==> from == 0
            &&& first > 0 ==> edits::edits_below(es.take(from), a[first].key)
            &&& first > 0 ==> edits::edits_from(es.skip(from), a[first].key)
        }),
{
    let from = apply::taken(tr, tr.len() as int);
    let n = tr.len() as int;
    if n > 0 {
        reveal(apply::traces_ok);
        assert(apply::trace_ok(a, floor, rule, ov, es, tr, n - 1, true));
        reveal(apply::run_ok);
        let t = tr[n - 1];
        assert(t.last + 1 <= first);
        let u = a[t.last + 1].key;
        assert(edits::edits_below(es.take(t.to), u));
        let low = es.take(from);
        assert forall|i: int| 0 <= i < low.len() implies order::lt(
            (#[trigger] low[i]).key,
            a[first].key,
        ) by {
            assert(order::lt(low[i].key, u));
            if t.last + 1 < first {
                order::lemma_lt_trans(low[i].key, u, a[first].key);
            }
        }
    }
    if first > 0 {
        let t = choose|t: int|
            #[trigger] apply::holds_key(a, t, es[from].key) && (first == t || (first == t - 1
                && apply::beside(a, t, es[from].key, true)));
        let high = es.skip(from);
        assert(order::le(a[first].key, es[from].key)) by {
            if first < t {
                assert(order::lt(a[first].key, a[t].key));
                order::lemma_le_trans(a[first].key, a[t].key, es[from].key);
            }
        }
        assert forall|i: int| 0 <= i < high.len() implies order::le(
            a[first].key,
            (#[trigger] high[i]).key,
        ) by {
            assert(high[i] == es[from + i]);
            if i > 0 {
                assert(order::lt(es[from].key, es[from + i].key));
                order::lemma_le_trans(a[first].key, es[from].key, es[from + i].key);
            }
        }
    }
}

/// Over one leaf with nothing in it, all edits are streamed.
proof fn lemma_bare_stretch(
    a: Seq<Slot>,
    floor: u8,
    rule: Rule,
    ov: BlockMap,
    es: Seq<EditRow>,
    tr: Seq<Trace>,
    first: int,
    p: int,
)
    requires
        apply::traces_ok(a, floor, rule, ov, es, tr, true),
        edits::sorted_edits(es),
        a.len() == 1,
        apply::rows_at(a[0]) == Seq::<Row>::empty(),
        apply::resumed(tr, tr.len() as int) <= first,
        0 <= first <= p < a.len(),
    ensures
        apply::streamed(a, es, first, apply::taken(tr, tr.len() as int), p) == edits::edited(
            Seq::empty(),
            es,
        ),
{
    let n = tr.len() as int;
    if n > 0 {
        reveal(apply::traces_ok);
        assert(apply::trace_ok(a, floor, rule, ov, es, tr, n - 1, true));
        reveal(apply::run_ok);
    }
    let none = Seq::<Row>::empty();
    let s = apply::slot_runs(a, 0, 1);
    assert(s =~= seq![none]);
    assert(tower::joined(s) =~= none) by {
        reveal_with_fuel(tower::joined, 2);
        assert(s.drop_last() =~= Seq::<Seq<Row>>::empty());
    }
    let up = tree::next_key(a, None, 0);
    let to = apply::reach(es, 0, up);
    apply::lemma_reach(es, 0, up);
    if to < es.len() {
        assert(order::le(up->Some_0, es[to].key));
    }
    assert(es.subrange(0, es.len() as int) =~= es);
    assert(first == 0 && p == 0);
    assert(apply::taken(tr, n) == 0);
}

/// No level is stuck.
#[verifier::rlimit(60)]
#[verifier::spinoff_prover]
proof fn lemma_not_halted(
    m: BlockMap,
    root: Seq<u8>,
    rule: Rule,
    edits: Seq<(Vec<u8>, Edit)>,
    w: BlockMap,
    rows: Seq<Row>,
    f: nat,
    es: Seq<EditRow>,
    ov: BlockMap,
    e: ApplyError,
)
    requires
        provided(m, root, rule, edits, w, rows),
        at_next(w, rule, rows, rebuild::changed(rows, edits), f, es, ov, m),
        f <= 255,
    ensures
        !apply::halted(m, root, ov, f as u8, rule, true, es, e),
{
    let a = cursor::level_of(m, root, f as int);
    let next = rebuild::changed(rows, edits);
    let all = tower::level_rows(w, rule, next, f);
    lemma_root_held(m, root, rule, edits, w, rows);
    let top = tower::top(w, rule, rows)->Some_0;
    assert(store::loaded(w, root) == Ok::<NodeView, Fault>(top)) by {
        reveal(provided);
        tower::lemma_top_kept(w, rule, rows, 0);
        tower::lemma_kept(w, top);
    }
    if apply::halted(m, root, ov, f as u8, rule, true, es, e) {
        reveal(apply::halted);
        if apply::old_height(m, root) < f {
            reveal(at_next);
            assert(rebuild::old_rows(w, rule, rows, f) =~= Seq::<Row>::empty());
            assert(threes(Seq::<Known>::empty()));
            lemma_no_jam(ov, Seq::empty(), f as u8, rule, all, e);
        } else {
            let tr = choose|tr: Seq<Trace>| #[trigger]
                apply::traces_ok(a, f as u8, rule, ov, es, tr, true) && apply::halts_after(
                    a,
                    ov,
                    f as u8,
                    rule,
                    true,
                    es,
                    tr,
                    e,
                );
            let i = apply::taken(tr, tr.len() as int);
            let runs = lemma_old_runs(m, root, rule, edits, w, rows, f);
            if e is Read && apply::barred(a, es, i, true, e->Read_0@) {
                reveal(apply::barred);
                let x = e->Read_0@;
                let t = choose|t: int| #[trigger]
                    apply::holds_key(a, t, es[i].key) && (a[t].opened == Err::<HeldView, Fault>(x)
                        || (apply::beside(a, t, es[i].key, true) && a[t - 1].opened == Err::<
                        HeldView,
                        Fault,
                    >(x)));
                assert(a[t].opened is Ok);
                if t > 0 {
                    assert(a[t - 1].opened is Ok);
                }
            } else {
                let (first, p) = choose|first: int, p: int| #[trigger]
                    apply::run_halts(a, ov, f as u8, rule, es, first, i, p, e) && apply::begins(
                        a,
                        es,
                        i,
                        true,
                        first,
                    ) && apply::resumed(tr, tr.len() as int) <= first;
                lemma_run_goes(m, root, rule, edits, w, rows, f, es, ov, tr, first, p, e);
            }
        }
    }
}

/// Levels are not too many.
#[verifier::rlimit(60)]
#[verifier::spinoff_prover]
proof fn lemma_not_too_tall(
    m: BlockMap,
    root: Seq<u8>,
    rule: Rule,
    edits: Seq<(Vec<u8>, Edit)>,
    w: BlockMap,
    rows: Seq<Row>,
    floors: Seq<Floor>,
)
    requires
        provided(m, root, rule, edits, w, rows),
        rebuild::partway(m, root, rule, edits, floors, w, rows),
        floors.len() == 256,
    ensures
        apply::is_top(floors.last()),
{
    let next = rebuild::changed(rows, edits);
    let x = floors[255];
    rebuild::lemma_link(m, root, rule, edits, floors, w, rows, 255);
    rebuild::lemma_on_level(m, root, rule, edits, floors, w, rows, 255);
    rebuild::lemma_height(m, root, rule, edits, floors, w, rows);
    rebuild::lemma_level_done(m, root, rule, edits, floors, w, rows, 255);
    let h = tower::top(w, rule, rows)->Some_0.level;
    if rows.len() > 0 && h == 255 {
        rebuild::lemma_low_level(m, root, rule, edits, floors, w, rows, 255);
    } else {
        if rows.len() == 0 {
            rebuild::lemma_empty_tree(m, root, rule, edits, floors, w, rows);
        }
        rebuild::lemma_high_level(m, root, rule, edits, floors, w, rows, 255);
    }
    assert(rebuild::new_level(w, rule, next, 255) == x.nodes) by {
        reveal(rebuild::level_done);
    }
    assert(tower::top(w, rule, next) is Some) by {
        reveal(provided);
    }
    let g = lemma_narrow_from(w, rule, next, 0);
    rebuild::lemma_single_up(m, root, rule, edits, floors, w, rows, g as int, 255);
}

/// A tree that has a top has a level with no more than one node.
proof fn lemma_narrow_from(w: BlockMap, rule: Rule, next: Seq<Row>, f: nat) -> (g: nat)
    requires
        f <= 255,
        tower::top_from(w, rule, tower::level_rows(w, rule, next, f), f) is Some,
    ensures
        f <= g <= 255,
        rebuild::new_level(w, rule, next, g).len() <= 1,
    decreases 256 - f,
{
    let r = tower::level_rows(w, rule, next, f);
    let ns = rebuild::new_level(w, rule, next, f);
    if ns.len() <= 1 {
        f
    } else {
        assert(tower::level_rows(w, rule, next, f + 1) == tower::child_rows(ns));
        lemma_narrow_from(w, rule, next, f + 1)
    }
}

// ---------------------------------------------------------------------------
// the root
// ---------------------------------------------------------------------------

/// Nodes whose ids are none of these are there without them.
proof fn lemma_off_has(nodes: Seq<NodeView>, ids: Seq<Seq<u8>>, n: NodeView)
    requires
        nodes.contains(n),
        !ids.contains(chunk::node_id(n)),
    ensures
        apply::off(nodes, ids).contains(n),
    decreases nodes.len(),
{
    let i = choose|i: int| 0 <= i < nodes.len() && nodes[i] == n;
    let front = nodes.drop_last();
    let rest = apply::off(front, ids);
    if i < front.len() {
        assert(front[i] == n);
        lemma_off_has(front, ids, n);
        let j = choose|j: int| 0 <= j < rest.len() && rest[j] == n;
        assert(apply::off(nodes, ids)[j] == n);
    } else {
        assert(apply::off(nodes, ids)[rest.len() as int] == n);
    }
}

/// Is this the id of a node of a level after the change?
spec fn on_new(
    w: BlockMap,
    rule: Rule,
    next: Seq<Row>,
    f: int,
    id: Seq<u8>,
) -> bool {
    exists|n: NodeView| #[trigger]
        rebuild::new_level(w, rule, next, f as nat).contains(n) && chunk::node_id(n) == id
}

/// Only children lead down level by level.
#[verifier::rlimit(60)]
#[verifier::spinoff_prover]
proof fn lemma_path_levels(
    m: BlockMap,
    root: Seq<u8>,
    rule: Rule,
    edits: Seq<(Vec<u8>, Edit)>,
    w: BlockMap,
    rows: Seq<Row>,
    floors: Seq<Floor>,
    path: Seq<Seq<u8>>,
    i: int,
)
    requires
        rebuild::partway(m, root, rule, edits, floors, w, rows),
        floors.len() > 0,
        path.len() > 0,
        on_new(w, rule, rebuild::changed(rows, edits), floors.len() - 1, path[0]),
        apply::slides(w, path),
        0 <= i < path.len(),
    ensures
        i < floors.len(),
        on_new(w, rule, rebuild::changed(rows, edits), floors.len() - 1 - i, path[i]),
    decreases i,
{
    let next = rebuild::changed(rows, edits);
    if i > 0 {
        lemma_path_levels(m, root, rule, edits, w, rows, floors, path, i - 1);
        let f = floors.len() - i;
        let n = choose|n: NodeView| #[trigger]
            rebuild::new_level(w, rule, next, f as nat).contains(n) && chunk::node_id(n) == path[i
                - 1];
        handed::lemma_new_node(m, root, rule, edits, floors, w, rows, f, n);
        tower::lemma_kept(w, n);
        assert(apply::slides_at(w, path, i - 1));
        assert(store::child_cid(n.rows[0]) == path[i]);
        assert(merge::is_child(n, path[i]));
        handed::lemma_new_child(m, root, rule, edits, floors, w, rows, f, n, path[i]);
    }
}

/// A node of a level after the change that was not closed is one of the old tree.
#[verifier::rlimit(60)]
#[verifier::spinoff_prover]
proof fn lemma_not_lost(
    m: BlockMap,
    root: Seq<u8>,
    rule: Rule,
    edits: Seq<(Vec<u8>, Edit)>,
    w: BlockMap,
    rows: Seq<Row>,
    floors: Seq<Floor>,
    path: Seq<Seq<u8>>,
)
    requires
        provided(m, root, rule, edits, w, rows),
        rebuild::partway(m, root, rule, edits, floors, w, rows),
        floors.len() > 0,
        path.len() > 0,
        on_new(w, rule, rebuild::changed(rows, edits), floors.len() - 1, path[0]),
        apply::slides(w, path),
        apply::unmade(apply::closed_nodes(floors), path),
    ensures
        store::loaded(m, path.last()) is Ok,
{
    let next = rebuild::changed(rows, edits);
    let made = apply::closed_nodes(floors);
    let k = path.len() - 1;
    lemma_path_levels(m, root, rule, edits, w, rows, floors, path, k);
    let f = floors.len() - 1 - k;
    let id = path[k];
    let n = choose|n: NodeView| #[trigger]
        rebuild::new_level(w, rule, next, f as nat).contains(n) && chunk::node_id(n) == id;
    handed::lemma_new_node(m, root, rule, edits, floors, w, rows, f, n);
    tower::lemma_kept(w, n);
    if floors[f].nodes.contains(n) {
        handed::lemma_made(floors, f, n);
        let front = path.drop_last();
        if front.contains(id) {
            let j = choose|j: int| 0 <= j < front.len() && front[j] == id;
            assert(path[j] == id);
            lemma_path_levels(m, root, rule, edits, w, rows, floors, path, j);
            let g = floors.len() - 1 - j;
            let y = choose|y: NodeView| #[trigger]
                rebuild::new_level(w, rule, next, g as nat).contains(y) && chunk::node_id(y) == id;
            handed::lemma_new_node(m, root, rule, edits, floors, w, rows, g, y);
            rebuild::lemma_one_id(w, n, y);
        }
        lemma_off_has(made, front, n);
    } else {
        lemma_old_places(m, root, rule, edits, w, rows, f as nat);
        let ns = rebuild::new_level(w, rule, rows, f as nat);
        let j = choose|j: int| 0 <= j < ns.len() && ns[j] == n;
        let a = cursor::level_of(m, root, f);
        assert(a[j].cid == id);
        assert(m.contains_key(id));
        assert(m.submap_of(w)) by {
            reveal(provided);
        }
        assert(store::loaded(m, id) == store::loaded(w, id)) by {
            reveal(store::loaded);
            assert(m.dom().contains(id) && w.dom().contains(id));
        }
    }
}

/// Where one node is the root's level, the root is settled below it.
#[verifier::rlimit(60)]
#[verifier::spinoff_prover]
proof fn lemma_settled_below(
    m: BlockMap,
    root: Seq<u8>,
    rule: Rule,
    edits: Seq<(Vec<u8>, Edit)>,
    w: BlockMap,
    rows: Seq<Row>,
    floors: Seq<Floor>,
    path: Seq<Seq<u8>>,
)
    requires
        provided(m, root, rule, edits, w, rows),
        rebuild::partway(m, root, rule, edits, floors, w, rows),
        0 < floors.len() <= 256,
        apply::is_top(floors.last()),
        floors.last().nodes.len() == 1,
        path.len() > 0,
        path[0] == apply::tip(root, floors),
        apply::slides(w, path),
    ensures
        path.len() <= 256,
        apply::unmade(apply::closed_nodes(floors), path) ==> store::loaded(m, path.last()) is Ok,
{
    let next = rebuild::changed(rows, edits);
    let x = floors.last();
    let k = floors.len() - 1;
    rebuild::lemma_level_done(m, root, rule, edits, floors, w, rows, k);
    assert(rebuild::new_level(w, rule, next, k as nat) == x.nodes) by {
        reveal(rebuild::level_done);
    }
    assert(x.nodes.contains(x.nodes[0]));
    assert(on_new(w, rule, next, k, path[0]));
    lemma_path_levels(m, root, rule, edits, w, rows, floors, path, path.len() - 1);
    if apply::unmade(apply::closed_nodes(floors), path) {
        lemma_not_lost(m, root, rule, edits, w, rows, floors, path);
    }
}

/// Elsewhere there is nothing to take off.
#[verifier::rlimit(60)]
#[verifier::spinoff_prover]
proof fn lemma_settled_here(
    m: BlockMap,
    root: Seq<u8>,
    rule: Rule,
    edits: Seq<(Vec<u8>, Edit)>,
    w: BlockMap,
    rows: Seq<Row>,
    floors: Seq<Floor>,
    path: Seq<Seq<u8>>,
)
    requires
        provided(m, root, rule, edits, w, rows),
        all_kept(w, floors),
        floors.len() > 0,
        !(apply::is_top(floors.last()) && floors.last().nodes.len() == 1),
        path.len() > 0,
        path[0] == apply::tip(root, floors),
        apply::slides(w, path),
    ensures
        path.len() == 1,
        apply::unmade(apply::closed_nodes(floors), path) ==> store::loaded(m, path.last()) is Ok,
{
    let made = apply::closed_nodes(floors);
    let x = floors.last();
    let none = chunk::empty_node();
    let top = apply::is_top(x);
    if top {
        assert(made.last() == none);
        assert(made[made.len() - 1] == none);
        assert(tower::kept(w, made[made.len() - 1]));
        tower::lemma_kept(w, none);
    } else {
        lemma_root_lone(m, root, rule, edits, w, rows);
    }
    assert(apply::lone(w, path[0]) is None);
    if path.len() > 1 {
        assert(apply::slides_at(w, path, 0));
    }
    assert(path.drop_last() =~= Seq::<Seq<u8>>::empty());
    if top {
        assert(made.contains(none));
        lemma_off_has(made, path.drop_last(), none);
    } else {
        lemma_root_held(m, root, rule, edits, w, rows);
    }
}

/// The root is settled.
proof fn lemma_settled(
    m: BlockMap,
    root: Seq<u8>,
    rule: Rule,
    edits: Seq<(Vec<u8>, Edit)>,
    w: BlockMap,
    rows: Seq<Row>,
    floors: Seq<Floor>,
    e: ApplyError,
)
    requires
        provided(m, root, rule, edits, w, rows),
        rebuild::partway(m, root, rule, edits, floors, w, rows),
        0 < floors.len() <= 256,
        apply::chain(
            m,
            root,
            rule,
            true,
            apply::edit_rows(edits),
            apply::with_values(m, edits),
            floors,
        ),
    ensures
        !apply::lost(m, apply::closed_nodes(floors), apply::tip(root, floors), e),
{
    let made = apply::closed_nodes(floors);
    let x = floors.last();
    if apply::lost(m, made, apply::tip(root, floors), e) {
        reveal(apply::lost);
        let path = choose|path: Seq<Seq<u8>>|
            path.len() > 0 && path[0] == apply::tip(root, floors) && #[trigger] apply::slides_in(
                m,
                made,
                path,
            ) && match e {
                ApplyError::Read(x) => store::loaded(m, path.last()) == Err::<NodeView, Fault>(x@)
                    && apply::unmade(made, path),
                ApplyError::Node(b) => b == BuildError::Overflow && path.len() > u64::MAX,
                _ => false,
            };
        assert(all_kept(w, floors) && m.submap_of(w)) by {
            reveal(provided);
        }
        assert(apply::slides(w, path)) by {
            lemma_kept_held(w, m, floors);
            reveal(apply::slides_in);
        }
        if apply::is_top(x) && x.nodes.len() == 1 {
            lemma_settled_below(m, root, rule, edits, w, rows, floors, path);
        } else {
            lemma_settled_here(m, root, rule, edits, w, rows, floors, path);
        }
    }
}

/// Nodes that are kept are held.
proof fn lemma_kept_held(w: BlockMap, m: BlockMap, floors: Seq<Floor>)
    requires
        all_kept(w, floors),
        m.submap_of(w),
    ensures
        apply::holds_all(w, m, apply::closed_nodes(floors)),
{
    let made = apply::closed_nodes(floors);
    let blocks = build::blocks_of(made);
    assert forall|i: int| 0 <= i < blocks.len() implies w.contains_key((#[trigger] blocks[i]).id)
        && w[blocks[i].id] == blocks[i].bytes by {
        assert(tower::kept(w, made[i]));
        reveal(tower::kept);
    }
}

/// The old root is no single-child branch.
proof fn lemma_root_lone(
    m: BlockMap,
    root: Seq<u8>,
    rule: Rule,
    edits: Seq<(Vec<u8>, Edit)>,
    w: BlockMap,
    rows: Seq<Row>,
)
    requires
        provided(m, root, rule, edits, w, rows),
    ensures
        apply::lone(w, root) is None,
{
    reveal(provided);
    let n = tower::top(w, rule, rows)->Some_0;
    rebuild::lemma_proper_fits(rows);
    tower::lemma_top_kept(w, rule, rows, 0);
    tower::lemma_kept(w, n);
    if rows.len() > 0 && n.level > 0 {
        rebuild::lemma_root_wide(w, rule, rows);
    } else if rows.len() == 0 {
        assert(chunk::chunks(0, rule, rows) =~= Seq::<Seq<Row>>::empty());
        assert(n == chunk::empty_node());
    }
}

// ---------------------------------------------------------------------------
// the law
// ---------------------------------------------------------------------------

/// No leaf that an edit points at is missing.
proof fn lemma_nothing_lacking(
    m: BlockMap,
    root: Seq<u8>,
    rule: Rule,
    edits: Seq<(Vec<u8>, Edit)>,
    w: BlockMap,
    rows: Seq<Row>,
    n: nat,
)
    requires
        provided(m, root, rule, edits, w, rows),
        n <= edits.len(),
    ensures
        apply::lacking(m, root, apply::edit_rows(edits), n) == Ok::<Seq<Seq<u8>>, Fault>(
            Seq::empty(),
        ),
    decreases n,
{
    if n > 0 {
        lemma_nothing_lacking(m, root, rule, edits, w, rows, (n - 1) as nat);
        lemma_root_held(m, root, rule, edits, w, rows);
        let runs = lemma_old_runs(m, root, rule, edits, w, rows, 0);
        let a = cursor::level_of(m, root, 0);
        assert(a == tree::leaves(m, root));
        let key = apply::edit_rows(edits)[n - 1].key;
        lemma_begun(a, key, a.len());
        if rows.len() > 0 && runs.len() == 0 {
            assert(tower::joined(runs) =~= Seq::<Row>::empty());
        }
        assert(a.len() > 0);
        assert(a[apply::home(a, key)].opened is Ok);
    }
}

/// A place that a key begins at is one of them.
proof fn lemma_begun(a: Seq<Slot>, key: Seq<u8>, n: nat)
    ensures
        apply::begun(a, key, n) <= n,
    decreases n,
{
    if n > 0 {
        lemma_begun(a, key, (n - 1) as nat);
    }
}

/// A batch that is in order is carried out. Where the whole tree is held, and the values
/// it refers to, no error is owed, as long as the entries can be counted and the levels
/// numbered.
#[verifier::rlimit(60)]
#[verifier::spinoff_prover]
pub proof fn law_a_batch_in_order_is_carried_out(
    m: BlockMap,
    root: Seq<u8>,
    rule: Rule,
    edits: Seq<(Vec<u8>, Edit)>,
    w: BlockMap,
    rows: Seq<Row>,
    e: ApplyError,
)
    requires
        provided(m, root, rule, edits, w, rows),
    ensures
        !apply::owed_error(m, root, rule, true, edits, e),
        apply::taken_up(m, root, edits),
{
    let es0 = apply::edit_rows(edits);
    let ov0 = apply::with_values(m, edits);
    lemma_nothing_lacking(m, root, rule, edits, w, rows, edits.len());
    lemma_root_held(m, root, rule, edits, w, rows);
    assert(apply::batch_error(edits, 0) is None) by {
        reveal(provided);
    }
    if apply::undone(m, root, rule, true, edits, e) {
        reveal(apply::undone);
        if apply::stopped(m, root, rule, true, es0, ov0, e) {
            reveal(apply::stopped);
            let floors = choose|floors: Seq<Floor>| #[trigger]
                apply::chain(m, root, rule, true, es0, ov0, floors) && apply::stops_after(
                    m,
                    root,
                    rule,
                    true,
                    es0,
                    ov0,
                    floors,
                    e,
                );
            lemma_partway(m, root, rule, edits, w, rows, floors);
            if exists|es: Seq<EditRow>, ov: BlockMap, floor: u8| #[trigger]
                apply::halts_next(m, root, rule, true, es0, ov0, floors, es, ov, floor, e) {
                let (es, ov, floor) = choose|es: Seq<EditRow>, ov: BlockMap, floor: u8| #[trigger]
                    apply::halts_next(m, root, rule, true, es0, ov0, floors, es, ov, floor, e);
                lemma_at_next(m, root, rule, edits, w, rows, floors, es, ov);
                lemma_not_halted(m, root, rule, edits, w, rows, floors.len(), es, ov, e);
            } else {
                lemma_not_too_tall(m, root, rule, edits, w, rows, floors);
            }
        } else {
            let floors = choose|floors: Seq<Floor>| #[trigger]
                apply::chain(m, root, rule, true, es0, ov0, floors) && apply::chain_ends(
                    m,
                    root,
                    floors,
                ) && apply::lost(m, apply::closed_nodes(floors), apply::tip(root, floors), e);
            lemma_partway(m, root, rule, edits, w, rows, floors);
            rebuild::lemma_link(m, root, rule, edits, floors, w, rows, floors.len() - 1);
            lemma_settled(m, root, rule, edits, w, rows, floors, e);
        }
    }
}

} // verus!
