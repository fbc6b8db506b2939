//! A changed tree is a rebuilt one: applying edits gives the root, and the nodes, that
//! building the edited entries from scratch gives.

use crate::apply;
use crate::apply::{Edit, Floor, Seam, Trace};
use crate::build;
use crate::build::Put;
use crate::chunk;
use crate::chunk::Rule;
use crate::cursor;
use crate::edits;
use crate::edits::EditRow;
use crate::expand;
use crate::gf;
use crate::node;
use crate::node::{NodeView, Row};
use crate::order;
use crate::parity;
use crate::parity::{Known, OneOff};
use crate::rs;
use crate::seqs;
use crate::splice;
use crate::splice::Stretch;
use crate::store;
use crate::store::{BlockMap, Fault};
use crate::tower;
use crate::tree;
use crate::tree::Slot;
use vstd::prelude::*;

verus! {

// ---------------------------------------------------------------------------
// parity that is reused is the parity a build codes
// ---------------------------------------------------------------------------

/// Is what a store holds under the parity ids of a group its parity?
pub open spec fn group_honest(w: BlockMap, leaf: bool, members: Seq<Seq<u8>>) -> bool {
    let states = chunk::states_of(w, leaf, members);
    let ids = chunk::parity_ids(parity::group_parity(states));
    forall|r: int|
        0 <= r < parity::PARITY && w.contains_key(#[trigger] ids[r]) ==> rs::is_parity(
            parity::symbols(states),
            r,
            w[ids[r]],
        )
}

/// Is what a store holds under the parity ids of a node's groups their parity?
#[verifier::opaque]
pub open spec fn node_honest(w: BlockMap, n: NodeView) -> bool {
    forall|i: int|
        0 <= i < parity::groups(n.level, n.rows).len() ==> group_honest(
            w,
            n.level == 0,
            (#[trigger] parity::groups(n.level, n.rows)[i]).members,
        )
}

/// Is a group known truly: its ids are those of its members' parity, and what is held
/// under them is that parity?
pub open spec fn known_truly(w: BlockMap, leaf: bool, g: Known) -> bool {
    &&& tower::codes(w, leaf, g.members, g.ids)
    &&& group_honest(w, leaf, g.members)
    &&& 0 < g.members.len() <= rs::MAX_K
}

/// Are all groups of an index known truly?
#[verifier::opaque]
pub open spec fn index_true(w: BlockMap, leaf: bool, index: Seq<Known>) -> bool {
    forall|i: int| 0 <= i < index.len() ==> known_truly(w, leaf, #[trigger] index[i])
}

/// Bytes without the zeros at the end.
spec fn trimmed_of(s: Seq<u8>) -> Seq<u8>
    decreases s.len(),
{
    if s.len() > 0 && s.last() == 0 {
        trimmed_of(s.drop_last())
    } else {
        s
    }
}

/// They are the same bytes.
proof fn lemma_trimmed_of(s: Seq<u8>)
    ensures
        rs::trimmed(trimmed_of(s)),
        forall|i: int| #[trigger] seqs::byte_of(trimmed_of(s), i) == seqs::byte_of(s, i),
    decreases s.len(),
{
    if s.len() > 0 && s.last() == 0 {
        let t = s.drop_last();
        lemma_trimmed_of(t);
        assert forall|i: int| #[trigger] seqs::byte_of(trimmed_of(s), i) == seqs::byte_of(s, i) by {
            assert(seqs::byte_of(trimmed_of(t), i) == seqs::byte_of(t, i));
        }
    }
}

/// A corrected block exists.
proof fn lemma_corrected(p: Seq<u8>, r: int, column: int, old_state: Seq<u8>, new_state: Seq<u8>)
    ensures
        parity::is_corrected(
            parity::corrected_block(p, r, column, old_state, new_state),
            p,
            r,
            column,
            old_state,
            new_state,
        ),
{
    let x = parity::spec_symbol(new_state);
    let y = parity::spec_symbol(old_state);
    let n = p.len() + x.len() + y.len();
    let c = |i: int| parity::corrected(p, r, column, old_state, new_state, i);
    let s = Seq::new(n, |i: int| c(i));
    lemma_trimmed_of(s);
    let q = trimmed_of(s);
    assert forall|i: int| 0 <= i implies #[trigger] seqs::byte_of(q, i) == parity::corrected(
        p,
        r,
        column,
        old_state,
        new_state,
        i,
    ) by {
        assert(seqs::byte_of(q, i) == seqs::byte_of(s, i));
        if i >= n {
            assert(seqs::byte_of(p, i) == 0);
            assert(seqs::byte_of(x, i) == 0 && seqs::byte_of(y, i) == 0);
            assert(0u8 ^ 0u8 == 0u8) by (bit_vector);
            gf::lemma_mul_unit(rs::spec_coeff(r, column));
        }
    }
    assert(parity::is_corrected(q, p, r, column, old_state, new_state));
}

/// Where two lists of one length differ in exactly one place, they agree elsewhere.
proof fn lemma_one_place(a: Seq<Seq<u8>>, b: Seq<Seq<u8>>)
    requires
        a.len() == b.len(),
        parity::differing(a, b, a.len()) == 1,
    ensures
        ({
            let p = parity::first_difference(a, b, 0);
            &&& 0 <= p < a.len()
            &&& b == a.update(p, b[p])
        }),
{
    lemma_first_place(a, b, 0);
    let p = parity::first_difference(a, b, 0);
    if p == a.len() {
        lemma_none_differ(a, b, a.len());
    }
    assert forall|j: int| p < j < a.len() implies a[j] == b[j] by {
        if a[j] != b[j] {
            lemma_two_differ(a, b, p, j, a.len());
        }
    }
    assert(b =~= a.update(p, b[p]));
}

proof fn lemma_first_place(a: Seq<Seq<u8>>, b: Seq<Seq<u8>>, i: int)
    requires
        a.len() == b.len(),
        0 <= i <= a.len(),
    ensures
        i <= parity::first_difference(a, b, i) <= a.len(),
        forall|j: int| i <= j < parity::first_difference(a, b, i) ==> a[j] == b[j],
        parity::first_difference(a, b, i) < a.len() ==> a[parity::first_difference(a, b, i)]
            != b[parity::first_difference(a, b, i)],
    decreases a.len() - i,
{
    if i < a.len() && a[i] == b[i] {
        lemma_first_place(a, b, i + 1);
    }
}

pub proof fn lemma_none_differ(a: Seq<Seq<u8>>, b: Seq<Seq<u8>>, n: nat)
    requires
        n <= a.len(),
        a.len() == b.len(),
        forall|j: int| 0 <= j < n ==> a[j] == b[j],
    ensures
        parity::differing(a, b, n) == 0,
    decreases n,
{
    if n > 0 {
        lemma_none_differ(a, b, (n - 1) as nat);
    }
}

proof fn lemma_some_differ(a: Seq<Seq<u8>>, b: Seq<Seq<u8>>, i: int, n: nat)
    requires
        0 <= i < n,
        a[i] != b[i],
    ensures
        parity::differing(a, b, n) >= 1,
    decreases n,
{
    if i < n - 1 {
        lemma_some_differ(a, b, i, (n - 1) as nat);
    }
}

proof fn lemma_two_differ(a: Seq<Seq<u8>>, b: Seq<Seq<u8>>, i: int, j: int, n: nat)
    requires
        0 <= i < j < n,
        a[i] != b[i],
        a[j] != b[j],
    ensures
        parity::differing(a, b, n) >= 2,
    decreases n,
{
    if j < n - 1 {
        lemma_two_differ(a, b, i, j, (n - 1) as nat);
    } else {
        lemma_some_differ(a, b, i, (n - 1) as nat);
    }
}

/// Ids found exactly are true.
pub proof fn lemma_exact_true(
    w: BlockMap,
    leaf: bool,
    index: Seq<Known>,
    class: int,
    members: Seq<Seq<u8>>,
    i: int,
)
    requires
        index_true(w, leaf, index),
        0 <= i,
    ensures
        parity::find_exact(index, class, members, i) is Some ==> tower::codes(
            w,
            leaf,
            members,
            parity::find_exact(index, class, members, i)->Some_0,
        ),
    decreases index.len() - i,
{
    if i < index.len() {
        if parity::covers(index[i], class, members) {
            reveal(index_true);
            assert(known_truly(w, leaf, index[i]));
        } else {
            lemma_exact_true(w, leaf, index, class, members, i + 1);
        }
    }
}

/// A group found but for one member.
proof fn lemma_one_off(
    w: BlockMap,
    leaf: bool,
    index: Seq<Known>,
    class: int,
    members: Seq<Seq<u8>>,
    i: int,
) -> (was: Seq<Seq<u8>>)
    requires
        index_true(w, leaf, index),
        0 <= i,
        parity::find_one_off(index, class, members, i) is Some,
    ensures
        ({
            let o = parity::find_one_off(index, class, members, i)->Some_0;
            &&& 0 <= o.pos < members.len() == was.len()
            &&& was.len() <= rs::MAX_K
            &&& o.was == was[o.pos]
            &&& members == was.update(o.pos, members[o.pos])
            &&& tower::codes(w, leaf, was, o.ids)
            &&& group_honest(w, leaf, was)
        }),
    decreases index.len() - i,
{
    if parity::nearly_covers(index[i], class, members) {
        reveal(index_true);
        assert(known_truly(w, leaf, index[i]));
        lemma_one_place(index[i].members, members);
        index[i].members
    } else {
        lemma_one_off(w, leaf, index, class, members, i + 1)
    }
}

/// A group whose parity is corrected has the parity a build codes.
proof fn lemma_corrected_true(
    m: BlockMap,
    w: BlockMap,
    leaf: bool,
    members: Seq<Seq<u8>>,
    was: Seq<Seq<u8>>,
    o: OneOff,
)
    requires
        m.submap_of(w),
        chunk::correctable(m, o),
        0 <= o.pos < members.len() == was.len(),
        was.len() <= rs::MAX_K,
        m.contains_key(members[o.pos]),
        o.was == was[o.pos],
        members == was.update(o.pos, members[o.pos]),
        tower::codes(w, leaf, was, o.ids),
        group_honest(w, leaf, was),
    ensures
        chunk::corrected_blocks(m, leaf, members, o) == parity::group_parity(
            chunk::states_of(w, leaf, members),
        ),
{
    let states = chunk::states_of(w, leaf, was);
    let next = chunk::states_of(w, leaf, members);
    let old_state = chunk::state_of(m, leaf, o.was);
    let new_state = chunk::state_of(m, leaf, members[o.pos]);
    assert(m.dom().contains(o.was) && w.dom().contains(o.was));
    assert(m.dom().contains(members[o.pos]) && w.dom().contains(members[o.pos]));
    assert(states[o.pos] == old_state);
    assert(next =~= states.update(o.pos, new_state));
    let got = chunk::corrected_blocks(m, leaf, members, o);
    let want = parity::group_parity(next);
    let ids = chunk::parity_ids(parity::group_parity(states));
    assert(o.ids == ids);
    assert forall|r: int| 0 <= r < 3 implies got[r] == want[r] by {
        assert(o.ids.len() == 3);
        let p = m[o.ids[r]];
        assert(m.contains_key(o.ids[r]));
        assert(m.dom().contains(o.ids[r]) && w.dom().contains(o.ids[r]));
        assert(rs::is_parity(parity::symbols(states), r, w[ids[r]]));
        lemma_corrected(p, r, o.pos, old_state, new_state);
        parity::law_update_equals_recoding(states, o.pos, new_state, r, p, got[r]);
    }
    assert(got =~= want);
}

/// Wherever a group's parity comes from, it is the parity a build codes.
proof fn lemma_coded_truly(
    m: BlockMap,
    w: BlockMap,
    index: Seq<Known>,
    leaf: bool,
    g: parity::Group,
)
    requires
        m.submap_of(w),
        index_true(w, leaf, index),
    ensures
        tower::coded_truly(m, w, index, leaf, g),
{
    if chunk::group_code(m, index, leaf, g) is Ok {
        lemma_exact_true(w, leaf, index, g.class, g.members, 0);
        if parity::find_exact(index, g.class, g.members, 0) is None {
            let near = parity::find_one_off(index, g.class, g.members, 0);
            if near is Some && chunk::correctable(m, near->Some_0) {
                let was = lemma_one_off(w, leaf, index, g.class, g.members, 0);
                lemma_corrected_true(m, w, leaf, g.members, was, near->Some_0);
            } else {
                tower::lemma_none_missing(m, g.members, 0);
                tower::lemma_states_grow(m, w, leaf, g.members);
            }
        }
    }
}

/// A closed node is the node a build closes with its rows.
pub proof fn lemma_closed_truly(
    ov: BlockMap,
    w: BlockMap,
    known: Seq<Known>,
    level: u8,
    n: NodeView,
)
    requires
        ov.submap_of(w),
        index_true(w, level == 0, known),
        apply::closed_with(ov, known, level, n),
    ensures
        n == tower::node_of(w, level, n.rows),
{
    let k = choose|k: int|
        0 <= k <= known.len() && (#[trigger] chunk::closing(ov, known.take(k), level, n.rows))
            is Ok && chunk::closing(ov, known.take(k), level, n.rows)->Ok_0.node == n;
    let index = known.take(k);
    assert(index_true(w, level == 0, index)) by {
        reveal(index_true);
        assert forall|i: int| 0 <= i < index.len() implies known_truly(
            w,
            level == 0,
            #[trigger] index[i],
        ) by {
            assert(index[i] == known[i]);
        }
    }
    let gs = parity::groups(level, n.rows);
    assert forall|i: int| 0 <= i < gs.len() implies tower::coded_truly(
        ov,
        w,
        index,
        level == 0,
        #[trigger] gs[i],
    ) by {
        lemma_coded_truly(ov, w, index, level == 0, gs[i]);
    }
    tower::lemma_made_truly(ov, w, index, level, n.rows, gs.len());
}

/// The parity ids of a node, group by group.
proof fn lemma_parity_at(w: BlockMap, level: u8, rows: Seq<Row>, n: nat, i: int)
    requires
        0 <= i < n <= parity::groups(level, rows).len(),
    ensures
        tower::parity_of(w, level, rows, n).len() == 3 * n,
        tower::parity_of(w, level, rows, n).subrange(3 * i, 3 * i + 3) == chunk::parity_ids(
            parity::group_parity(
                chunk::states_of(w, level == 0, parity::groups(level, rows)[i].members),
            ),
        ),
    decreases n,
{
    let all = tower::parity_of(w, level, rows, n);
    let front = tower::parity_of(w, level, rows, (n - 1) as nat);
    let last = chunk::parity_ids(
        parity::group_parity(
            chunk::states_of(w, level == 0, parity::groups(level, rows)[n - 1].members),
        ),
    );
    lemma_parity_len(w, level, rows, (n - 1) as nat);
    assert(last.len() == 3);
    if i < n - 1 {
        lemma_parity_at(w, level, rows, (n - 1) as nat, i);
        assert(all.subrange(3 * i, 3 * i + 3) =~= front.subrange(3 * i, 3 * i + 3));
    } else {
        assert(all.subrange(3 * i, 3 * i + 3) =~= last);
    }
}

pub proof fn lemma_parity_len(w: BlockMap, level: u8, rows: Seq<Row>, n: nat)
    ensures
        tower::parity_of(w, level, rows, n).len() == 3 * n,
    decreases n,
{
    if n > 0 {
        lemma_parity_len(w, level, rows, (n - 1) as nat);
    }
}

/// The groups of a node a build closes are known truly.
pub proof fn lemma_known_truly(w: BlockMap, level: u8, rows: Seq<Row>)
    requires
        node_honest(w, tower::node_of(w, level, rows)),
    ensures
        index_true(w, level == 0, parity::known_of(tower::node_of(w, level, rows))),
{
    reveal(index_true);
    reveal(node_honest);
    let n = tower::node_of(w, level, rows);
    let gs = parity::groups(level, rows);
    let index = parity::known_of(n);
    lemma_parity_len(w, level, rows, gs.len());
    assert forall|i: int| 0 <= i < index.len() implies known_truly(w, level == 0, #[trigger] index[i]) by {
        lemma_parity_at(w, level, rows, gs.len(), i);
        parity::lemma_group_sizes(level, rows, i);
        assert(index[i].members == gs[i].members);
        assert(index[i].ids == n.parity.subrange(3 * i, 3 * i + 3));
    }
}

/// Two indexes known truly.
pub proof fn lemma_index_join(w: BlockMap, leaf: bool, a: Seq<Known>, b: Seq<Known>)
    requires
        index_true(w, leaf, a),
        index_true(w, leaf, b),
    ensures
        index_true(w, leaf, a + b),
{
    reveal(index_true);
    let c = a + b;
    assert forall|i: int| 0 <= i < c.len() implies known_truly(w, leaf, #[trigger] c[i]) by {
        if i < a.len() {
            assert(c[i] == a[i]);
        } else {
            assert(c[i] == b[i - a.len()]);
        }
    }
}

// ---------------------------------------------------------------------------
// the old tree, level by level
// ---------------------------------------------------------------------------

/// Is this a level of the tree at `root`: sorted rows that fit, cut into runs, with
/// every node held and read in its place?
#[verifier::opaque]
pub open spec fn is_level(
    w: BlockMap,
    rule: Rule,
    root: Seq<u8>,
    f: u8,
    rows: Seq<Row>,
    runs: Seq<Seq<Row>>,
) -> bool {
    &&& runs == chunk::chunks(f, rule, rows)
    &&& tower::joined(runs) == rows
    &&& node::sorted_rows(rows)
    &&& tower::all_small(rows)
    &&& splice::well_cut(f, rule, runs)
    &&& forall|i: int| 0 <= i < runs.len() ==> (#[trigger] runs[i]).len() > 0
    &&& tower::ordered_level(w, tower::nodes_of(w, f, runs), f)
    &&& cursor::level_of(w, root, f as int) == tower::places(tower::nodes_of(w, f, runs))
}

/// The tree of some rows, from a level up.
pub proof fn lemma_level_stands(w: BlockMap, rule: Rule, rows: Seq<Row>, f: nat)
    requires
        tower::stands(w, rule, rows),
        rows.len() > 0,
        tower::all_small(rows),
        node::sorted_rows(rows),
        f <= tower::top(w, rule, rows)->Some_0.level,
    ensures
        ({
            let r = tower::level_rows(w, rule, rows, f);
            &&& tower::stands_from(w, rule, r, f)
            &&& tower::top_from(w, rule, r, f) == tower::top(w, rule, rows)
            &&& r.len() > 0
            &&& tower::all_small(r)
            &&& node::sorted_rows(r)
            &&& f > 0 ==> r.len() > 1
        }),
    decreases f,
{
    if f > 0 {
        let g = (f - 1) as nat;
        lemma_level_stands(w, rule, rows, g);
        let below = tower::level_rows(w, rule, rows, g);
        let runs = chunk::chunks(g as u8, rule, below);
        let ns = tower::level_nodes(w, rule, g as u8, below);
        tower::lemma_chunks(g as u8, rule, below);
        assert(ns == tower::nodes_of(w, g as u8, runs));
        tower::lemma_ordered(w, g as u8, below, runs);
        tower::lemma_children_small(w, ns);
        if ns.len() == 0 {
            assert(runs.len() == 0);
            assert(tower::joined(runs) =~= Seq::<Row>::empty());
        }
        if ns.len() == 1 {
            assert(tower::top_from(w, rule, below, g) == Some(ns[0]));
            assert(ns[0].level == g);
        }
    }
}

/// A level of the old tree.
pub proof fn lemma_old_level(w: BlockMap, rule: Rule, rows: Seq<Row>, f: nat)
    requires
        tower::stands(w, rule, rows),
        rows.len() > 0,
        tower::all_small(rows),
        node::sorted_rows(rows),
        f <= tower::top(w, rule, rows)->Some_0.level,
    ensures
        ({
            let n = tower::top(w, rule, rows)->Some_0;
            let r = tower::level_rows(w, rule, rows, f);
            let runs = chunk::chunks(f as u8, rule, r);
            &&& is_level(w, rule, chunk::node_id(n), f as u8, r, runs)
            &&& runs.len() > 0
            &&& f < n.level <==> runs.len() > 1
            &&& f == n.level ==> tower::nodes_of(w, f as u8, runs)[0] == n
        }),
{
    let n = tower::top(w, rule, rows)->Some_0;
    lemma_level_stands(w, rule, rows, f);
    let lv = f as u8;
    let r = tower::level_rows(w, rule, rows, f);
    let runs = chunk::chunks(lv, rule, r);
    let ns = tower::nodes_of(w, lv, runs);
    tower::lemma_chunks(lv, rule, r);
    splice::lemma_chunks_well(lv, rule, r);
    assert(ns == tower::level_nodes(w, rule, lv, r));
    tower::lemma_ordered(w, lv, r, runs);
    tower::lemma_under_top(w, rule, r, f, f as int);
    let ps = tower::places(ns);
    tower::lemma_spread_here(w, ps, f as int);
    if runs.len() == 0 {
        assert(tower::joined(runs) =~= Seq::<Row>::empty());
    }
    if ns.len() > 1 {
        lemma_top_above(w, rule, r, f);
    }
    assert(is_level(w, rule, chunk::node_id(n), lv, r, runs)) by {
        reveal(is_level);
    }
}

/// The root is above a level of more than one node.
proof fn lemma_top_above(w: BlockMap, rule: Rule, rows: Seq<Row>, f: nat)
    requires
        tower::stands_from(w, rule, rows, f),
        tower::level_nodes(w, rule, f as u8, rows).len() > 1,
        tower::all_small(rows),
        node::sorted_rows(rows),
        rows.len() > 0,
    ensures
        tower::top_from(w, rule, rows, f)->Some_0.level > f,
{
    let runs = chunk::chunks(f as u8, rule, rows);
    let ns = tower::level_nodes(w, rule, f as u8, rows);
    tower::lemma_chunks(f as u8, rule, rows);
    tower::lemma_ordered(w, f as u8, rows, runs);
    tower::lemma_children_small(w, ns);
    tower::lemma_under_top(w, rule, tower::child_rows(ns), f + 1, 0);
}

// ---------------------------------------------------------------------------
// what was streamed, as stretches of the whole level
// ---------------------------------------------------------------------------

/// A stretch of places, as a stretch of the level they were places of.
pub open spec fn stretch_of(at: Seq<int>, t: Trace) -> Stretch {
    Stretch {
        first: at[t.first],
        last: at[t.last],
        from: t.from,
        to: t.to,
        out: apply::node_runs(t.nodes),
        ended: t.ended,
    }
}

/// The stretches of a level.
pub open spec fn stretches_of(at: Seq<int>, tr: Seq<Trace>) -> Seq<Stretch> {
    tr.map_values(|t: Trace| stretch_of(at, t))
}

/// What is known when a level is mapped to the same level with every node there.
#[verifier::opaque]
pub open spec fn mapped(
    w: BlockMap,
    rule: Rule,
    root: Seq<u8>,
    f: u8,
    rows: Seq<Row>,
    runs: Seq<Seq<Row>>,
    a: Seq<Slot>,
    at: Seq<int>,
) -> bool {
    &&& is_level(w, rule, root, f, rows, runs)
    &&& expand::grows(a, cursor::level_of(w, root, f as int), at, f as int)
}

/// Places keep their order.
pub proof fn lemma_at_order(
    w: BlockMap,
    rule: Rule,
    root: Seq<u8>,
    f: u8,
    rows: Seq<Row>,
    runs: Seq<Seq<Row>>,
    a: Seq<Slot>,
    at: Seq<int>,
    i: int,
    j: int,
)
    requires
        mapped(w, rule, root, f, rows, runs, a, at),
        0 <= i <= j <= a.len(),
    ensures
        is_level(w, rule, root, f, rows, runs),
        at[0] == 0,
        at[a.len() as int] == runs.len(),
        at[i] <= at[j],
        i < j ==> at[i] < at[j],
{
    reveal(mapped);
    reveal(is_level);
    expand::lemma_grown_order(a, cursor::level_of(w, root, f as int), at, f as int, i, j);
}

/// Where an opened place is, and what it holds.
pub proof fn lemma_place(
    w: BlockMap,
    rule: Rule,
    root: Seq<u8>,
    f: u8,
    rows: Seq<Row>,
    runs: Seq<Seq<Row>>,
    a: Seq<Slot>,
    at: Seq<int>,
    p: int,
)
    requires
        mapped(w, rule, root, f, rows, runs, a, at),
        0 <= p < a.len(),
    ensures
        0 <= at[p] < runs.len(),
        at.len() == a.len() + 1,
        runs[at[p]].len() > 0,
        runs[at[p]][0].key == a[p].key,
        expand::settled(a[p], f as int) ==> {
            let n = tower::node_of(w, f, runs[at[p]]);
            &&& at[p + 1] == at[p] + 1
            &&& a[p].cid == chunk::node_id(n)
            &&& a[p].agg == n.agg()
        },
        a[p].opened is Ok ==> {
            let n = tower::node_of(w, f, runs[at[p]]);
            &&& a[p].opened->Ok_0.node == n
            &&& apply::rows_at(a[p]) == runs[at[p]]
        },
{
    reveal(mapped);
    reveal(is_level);
    let b = cursor::level_of(w, root, f as int);
    let ns = tower::nodes_of(w, f, runs);
    assert(expand::grown_at(a, b, at, f as int, at[p], at[p + 1], p));
    assert(b[at[p]] == tower::places(ns)[at[p]]);
    assert(ns[at[p]] == tower::node_of(w, f, runs[at[p]]));
    assert(runs[at[p]].len() > 0);
}

/// Opened places follow one another.
proof fn lemma_at_run(
    w: BlockMap,
    rule: Rule,
    root: Seq<u8>,
    f: u8,
    rows: Seq<Row>,
    runs: Seq<Seq<Row>>,
    a: Seq<Slot>,
    at: Seq<int>,
    i: int,
    p: int,
)
    requires
        mapped(w, rule, root, f, rows, runs, a, at),
        0 <= i <= p < a.len(),
        forall|q: int| i <= q <= p ==> (#[trigger] a[q]).opened is Ok,
    ensures
        at[p] == at[i] + (p - i),
{
    reveal(mapped);
    assert forall|q: int| i <= q < p implies expand::settled(#[trigger] a[q], f as int) by {
        assert(a[q].opened is Ok);
    }
    expand::lemma_grown_run(a, cursor::level_of(w, root, f as int), at, f as int, i, p);
}

/// The runs of a stretch.
pub proof fn lemma_run(
    w: BlockMap,
    rule: Rule,
    root: Seq<u8>,
    f: u8,
    rows: Seq<Row>,
    runs: Seq<Seq<Row>>,
    a: Seq<Slot>,
    at: Seq<int>,
    i: int,
    j: int,
)
    requires
        mapped(w, rule, root, f, rows, runs, a, at),
        0 <= i <= j < a.len(),
        forall|p: int| i <= p <= j ==> (#[trigger] a[p]).opened is Ok,
    ensures
        at[j] == at[i] + (j - i),
        at[j + 1] == at[j] + 1,
        at[j + 1] <= runs.len(),
        runs.subrange(at[i], at[j] + 1) == apply::slot_runs(a, i, j + 1),
        forall|p: int| i <= p <= j ==> #[trigger] at[p] == at[i] + (p - i),
{
    lemma_at_run(w, rule, root, f, rows, runs, a, at, i, j);
    lemma_run_ends(w, rule, root, f, rows, runs, a, at, i, j);
    lemma_run_rows(w, rule, root, f, rows, runs, a, at, i, j);
    assert forall|p: int| i <= p <= j implies #[trigger] at[p] == at[i] + (p - i) by {
        lemma_at_run(w, rule, root, f, rows, runs, a, at, i, p);
    }
}

/// Where a stretch ends.
proof fn lemma_run_ends(
    w: BlockMap,
    rule: Rule,
    root: Seq<u8>,
    f: u8,
    rows: Seq<Row>,
    runs: Seq<Seq<Row>>,
    a: Seq<Slot>,
    at: Seq<int>,
    i: int,
    j: int,
)
    requires
        mapped(w, rule, root, f, rows, runs, a, at),
        0 <= i <= j < a.len(),
        a[j].opened is Ok,
    ensures
        at[j + 1] == at[j] + 1,
        at[j + 1] <= runs.len(),
        0 <= at[i],
{
    lemma_place(w, rule, root, f, rows, runs, a, at, i);
    lemma_place(w, rule, root, f, rows, runs, a, at, j);
}

/// The rows of a stretch.
proof fn lemma_run_rows(
    w: BlockMap,
    rule: Rule,
    root: Seq<u8>,
    f: u8,
    rows: Seq<Row>,
    runs: Seq<Seq<Row>>,
    a: Seq<Slot>,
    at: Seq<int>,
    i: int,
    j: int,
)
    requires
        mapped(w, rule, root, f, rows, runs, a, at),
        0 <= i <= j < a.len(),
        forall|p: int| i <= p <= j ==> (#[trigger] a[p]).opened is Ok,
    ensures
        runs.subrange(at[i], at[j] + 1) == apply::slot_runs(a, i, j + 1),
{
    lemma_at_run(w, rule, root, f, rows, runs, a, at, i, j);
    lemma_run_ends(w, rule, root, f, rows, runs, a, at, i, j);
    let u = at[i];
    let v = at[j] + 1;
    let x = runs.subrange(u, v);
    let y = apply::slot_runs(a, i, j + 1);
    assert(v - u == j + 1 - i);
    assert forall|k: int| 0 <= k < x.len() implies x[k] == y[k] by {
        lemma_run_at(w, rule, root, f, rows, runs, a, at, i, i + k);
    }
    assert(x =~= y);
}

/// One run of a stretch.
proof fn lemma_run_at(
    w: BlockMap,
    rule: Rule,
    root: Seq<u8>,
    f: u8,
    rows: Seq<Row>,
    runs: Seq<Seq<Row>>,
    a: Seq<Slot>,
    at: Seq<int>,
    i: int,
    p: int,
)
    requires
        mapped(w, rule, root, f, rows, runs, a, at),
        0 <= i <= p < a.len(),
        forall|q: int| i <= q <= p ==> (#[trigger] a[q]).opened is Ok,
    ensures
        runs[at[i] + (p - i)] == apply::rows_at(a[p]),
{
    lemma_at_run(w, rule, root, f, rows, runs, a, at, i, p);
    assert(a[p].opened is Ok);
    lemma_place(w, rule, root, f, rows, runs, a, at, p);
}

/// Two nodes of a level under one id are one.
proof fn lemma_same_node(
    w: BlockMap,
    rule: Rule,
    root: Seq<u8>,
    f: u8,
    rows: Seq<Row>,
    runs: Seq<Seq<Row>>,
    i: int,
    j: int,
)
    requires
        is_level(w, rule, root, f, rows, runs),
        0 <= i < runs.len(),
        0 <= j < runs.len(),
        chunk::node_id(tower::node_of(w, f, runs[i])) == chunk::node_id(
            tower::node_of(w, f, runs[j]),
        ),
    ensures
        i == j,
{
    lemma_level_kept(w, rule, root, f, rows, runs, i);
    lemma_level_kept(w, rule, root, f, rows, runs, j);
    assert(runs[i] == runs[j]);
    lemma_same_key(w, rule, root, f, rows, runs, i, j);
}

/// Two runs of a level that begin with one key are one.
proof fn lemma_same_key(
    w: BlockMap,
    rule: Rule,
    root: Seq<u8>,
    f: u8,
    rows: Seq<Row>,
    runs: Seq<Seq<Row>>,
    i: int,
    j: int,
)
    requires
        is_level(w, rule, root, f, rows, runs),
        0 <= i < runs.len(),
        0 <= j < runs.len(),
        runs[i][0].key == runs[j][0].key,
    ensures
        i == j,
{
    reveal(is_level);
    assert(runs[i].len() > 0 && runs[j].len() > 0);
    let k = runs[i][0].key;
    order::lemma_lt_irreflexive(k);
    if i < j {
        splice::lemma_parted_by(runs, j);
        lemma_joined_has(runs.take(j), i, 0);
    } else if j < i {
        splice::lemma_parted_by(runs, i);
        lemma_joined_has(runs.take(i), j, 0);
    }
}

/// A row of a run is a row of all of them.
pub proof fn lemma_joined_has(runs: Seq<Seq<Row>>, i: int, r: int)
    requires
        0 <= i < runs.len(),
        0 <= r < runs[i].len(),
    ensures
        exists|p: int| 0 <= p < tower::joined(runs).len() && #[trigger] tower::joined(runs)[p]
            == runs[i][r],
{
    tower::lemma_offset(runs, i);
    let all = tower::joined(runs);
    let p = tower::offset(runs, i) + r;
    assert(runs[i][r] == all[p]);
}

/// A node of a level is held.
pub proof fn lemma_level_kept(
    w: BlockMap,
    rule: Rule,
    root: Seq<u8>,
    f: u8,
    rows: Seq<Row>,
    runs: Seq<Seq<Row>>,
    i: int,
)
    requires
        is_level(w, rule, root, f, rows, runs),
        0 <= i < runs.len(),
    ensures
        ({
            let n = tower::node_of(w, f, runs[i]);
            &&& tower::kept(w, n)
            &&& n.valid()
            &&& store::loaded(w, chunk::node_id(n)) == Ok::<NodeView, Fault>(n)
            &&& n.rows == runs[i]
        }),
{
    reveal(is_level);
    reveal(tower::ordered_level);
    let ns = tower::nodes_of(w, f, runs);
    assert(ns[i] == tower::node_of(w, f, runs[i]));
    assert(tower::kept(w, ns[i]));
    tower::lemma_kept(w, ns[i]);
    reveal(tower::kept);
}

/// Leaf rows stored as the format says cost no more than they stand for.
proof fn lemma_leaf_cost(rows: Seq<Row>)
    requires
        forall|i: int|
            0 <= i < rows.len() ==> node::leaf_verdict((#[trigger] rows[i]).key, rows[i].held) is Ok,
    ensures
        node::logical(rows) <= node::HEADER + 13 * node::sum_count(rows) + node::sum_weight(rows),
        node::sum_count(rows) == rows.len(),
        node::sum_weight(rows) >= 0,
    decreases rows.len(),
{
    if rows.len() > 0 {
        let front = rows.drop_last();
        assert forall|i: int| 0 <= i < front.len() implies node::leaf_verdict(
            (#[trigger] front[i]).key,
            front[i].held,
        ) is Ok by {
            assert(front[i] == rows[i]);
        }
        lemma_leaf_cost(front);
        assert(node::leaf_verdict(rows[rows.len() - 1].key, rows[rows.len() - 1].held) is Ok);
    }
}

/// A leaf that was not closed by the hard limit was closed by the rule.
proof fn lemma_unforced(
    w: BlockMap,
    rule: Rule,
    root: Seq<u8>,
    rows: Seq<Row>,
    runs: Seq<Seq<Row>>,
    i: int,
)
    requires
        is_level(w, rule, root, 0, rows, runs),
        build::proper(rows),
        0 <= i,
        i + 1 < runs.len(),
        apply::spec_not_forced(tower::node_of(w, 0, runs[i]).agg()),
    ensures
        chunk::fires(0, rule, runs[i]),
{
    lemma_level_kept(w, rule, root, 0, rows, runs, i);
    let n = tower::node_of(w, 0, runs[i]);
    reveal(is_level);
    assert forall|j: int| 0 <= j < runs[i].len() implies node::leaf_verdict(
        (#[trigger] runs[i][j]).key,
        runs[i][j].held,
    ) is Ok by {
        lemma_joined_has(runs, i, j);
        let p = choose|p: int| 0 <= p < rows.len() && #[trigger] rows[p] == runs[i][j];
        assert(node::leaf_verdict(rows[p].key, rows[p].held) is Ok);
    }
    lemma_leaf_cost(runs[i]);
    let next = runs[i + 1][0];
    assert(runs[i + 1].len() > 0);
    lemma_joined_has(runs, i + 1, 0);
    let p = choose|p: int| 0 <= p < rows.len() && #[trigger] rows[p] == next;
    assert(node::leaf_verdict(rows[p].key, rows[p].held) is Ok);
    assert(node::sum_count(n.rows) <= u64::MAX && node::sum_weight(n.rows) <= u64::MAX);
    assert(n.agg().count == node::sum_count(runs[i]));
    assert(n.agg().bytes == node::sum_weight(runs[i]));
    assert(node::row_cost(next) <= 13 + node::MAX_KEY + node::MAX_INLINE);
    assert(!chunk::overflows(runs[i], next));
    assert(splice::parted(0, rule, runs[i], runs[i + 1])) by {
        reveal(splice::well_cut);
    }
}

/// The seam before a stretch is right.
#[verifier::rlimit(80)]
#[verifier::spinoff_prover]
proof fn lemma_seam(
    w: BlockMap,
    rule: Rule,
    root: Seq<u8>,
    f: u8,
    rows: Seq<Row>,
    runs: Seq<Seq<Row>>,
    a: Seq<Slot>,
    at: Seq<int>,
    es: Seq<EditRow>,
    tr: Seq<Trace>,
    k: int,
)
    requires
        mapped(w, rule, root, f, rows, runs, a, at),
        f == 0 ==> build::proper(rows),
        0 <= k < tr.len(),
        0 <= tr[k].first < a.len(),
        k > 0 ==> 0 <= tr[k - 1].last < tr[k].first && a[tr[k - 1].last].opened is Ok,
        apply::seam_fits(
            a,
            f,
            es,
            apply::resumed(tr, k) - 1,
            tr[k].first,
            tr[k].from,
            tr[k].seam,
            true,
        ),
    ensures
        splice::seam(f, rule, runs, es, stretches_of(at, tr), k),
{
    let t = tr[k];
    let st = stretches_of(at, tr);
    assert(st[k] == stretch_of(at, t));
    lemma_at_order(w, rule, root, f, rows, runs, a, at, 0, t.first);
    lemma_place(w, rule, root, f, rows, runs, a, at, t.first);
    match t.seam {
        Seam::Start => {},
        Seam::Untouched => {},
        Seam::Joined => {
            let p = tr[k - 1].last;
            lemma_place(w, rule, root, f, rows, runs, a, at, t.first - 1);
            lemma_place(w, rule, root, f, rows, runs, a, at, p);
            lemma_same_node(w, rule, root, f, rows, runs, at[t.first - 1], at[p]);
            if p < t.first - 1 {
                lemma_at_order(w, rule, root, f, rows, runs, a, at, p, t.first - 1);
            }
            assert(st[k - 1] == stretch_of(at, tr[k - 1]));
            assert(splice::resume(st, k) == at[p] + 1);
        },
        Seam::Unforced => {
            lemma_place(w, rule, root, f, rows, runs, a, at, t.first - 1);
            lemma_unforced(w, rule, root, rows, runs, at[t.first - 1]);
        },
        Seam::Unchecked => {},
    }
}

/// A stretch that was streamed is a stretch of the level.
#[verifier::rlimit(40)]
pub proof fn lemma_stretch(
    w: BlockMap,
    rule: Rule,
    root: Seq<u8>,
    f: u8,
    rows: Seq<Row>,
    runs: Seq<Seq<Row>>,
    a: Seq<Slot>,
    at: Seq<int>,
    ov: BlockMap,
    es: Seq<EditRow>,
    tr: Seq<Trace>,
    k: int,
)
    requires
        mapped(w, rule, root, f, rows, runs, a, at),
        f == 0 ==> build::proper(rows),
        apply::traces_ok(a, f, rule, ov, es, tr, true),
        0 <= k < tr.len(),
    ensures
        splice::stretch_ok(f, rule, runs, es, stretches_of(at, tr), k),
{
    let t = tr[k];
    let st = stretches_of(at, tr);
    assert(st[k] == stretch_of(at, t));
    lemma_trace_at(a, f, rule, ov, es, tr, k);
    assert(apply::run_ok(a, f, rule, ov, es, t));
    reveal(apply::run_ok);
    lemma_run(w, rule, root, f, rows, runs, a, at, t.first, t.last);
    lemma_place(w, rule, root, f, rows, runs, a, at, t.first);
    lemma_place(w, rule, root, f, rows, runs, a, at, t.last);
    lemma_at_order(w, rule, root, f, rows, runs, a, at, 0, t.first);
    if k > 0 {
        lemma_trace_at(a, f, rule, ov, es, tr, k - 1);
        assert(apply::run_ok(a, f, rule, ov, es, tr[k - 1]));
        assert(st[k - 1] == stretch_of(at, tr[k - 1]));
        let p = tr[k - 1].last;
        lemma_place(w, rule, root, f, rows, runs, a, at, p);
        lemma_at_order(w, rule, root, f, rows, runs, a, at, p + 1, t.first);
    }
    lemma_seam(w, rule, root, f, rows, runs, a, at, es, tr, k);
    if t.last + 1 < a.len() {
        lemma_place(w, rule, root, f, rows, runs, a, at, t.last + 1);
    }
}

/// One trace of many.
pub proof fn lemma_trace_at(
    a: Seq<Slot>,
    f: u8,
    rule: Rule,
    ov: BlockMap,
    es: Seq<EditRow>,
    tr: Seq<Trace>,
    k: int,
)
    requires
        apply::traces_ok(a, f, rule, ov, es, tr, true),
        0 <= k < tr.len(),
    ensures
        apply::trace_ok(a, f, rule, ov, es, tr, k, true),
        k > 0 ==> apply::trace_ok(a, f, rule, ov, es, tr, k - 1, true),
{
    reveal(apply::traces_ok);
}

/// The new level, cut from scratch, is the old one with its stretches cut anew.
pub proof fn lemma_recut(
    w: BlockMap,
    rule: Rule,
    root: Seq<u8>,
    f: u8,
    rows: Seq<Row>,
    runs: Seq<Seq<Row>>,
    a: Seq<Slot>,
    at: Seq<int>,
    ov: BlockMap,
    es: Seq<EditRow>,
    tr: Seq<Trace>,
)
    requires
        mapped(w, rule, root, f, rows, runs, a, at),
        f == 0 ==> build::proper(rows),
        apply::traces_ok(a, f, rule, ov, es, tr, true),
        apply::taken(tr, tr.len() as int) == es.len(),
        edits::sorted_edits(es),
        splice::small_edits(es),
    ensures
        chunk::chunks(f, rule, edits::edited(rows, es)) == splice::respliced(
            runs,
            stretches_of(at, tr),
        ),
{
    let st = stretches_of(at, tr);
    assert forall|k: int| 0 <= k < st.len() implies #[trigger] splice::stretch_ok(
        f,
        rule,
        runs,
        es,
        st,
        k,
    ) by {
        lemma_stretch(w, rule, root, f, rows, runs, a, at, ov, es, tr, k);
    }
    if tr.len() > 0 {
        assert(st[st.len() - 1] == stretch_of(at, tr[tr.len() - 1]));
    }
    assert(splice::consumed(st, st.len() as int) == es.len());
    lemma_at_order(w, rule, root, f, rows, runs, a, at, 0, 0);
    assert(splice::level_ok(f, rule, runs, es, st)) by {
        reveal(is_level);
    }
    assert(tower::joined(runs) == rows) by {
        reveal(is_level);
    }
    splice::law_recutting_stretches_recuts_the_level(f, rule, runs, es, st);
}

// ---------------------------------------------------------------------------
// what the level above is told is what changed
// ---------------------------------------------------------------------------

/// What a level's nodes put under a key of the level above.
proof fn lemma_child_at(ns: Seq<NodeView>, n: NodeView)
    requires
        node::sorted_rows(tower::child_rows(ns)),
        ns.contains(n),
    ensures
        edits::row_at(tower::child_rows(ns), chunk::first_key(n.rows)) == Some(
            chunk::child_row(n).held,
        ),
{
    let i = choose|i: int| 0 <= i < ns.len() && ns[i] == n;
    assert(tower::child_rows(ns)[i] == chunk::child_row(n));
    edits::lemma_row_is(tower::child_rows(ns), i);
}

/// What is under a key of the level above is a node.
proof fn lemma_child_of(ns: Seq<NodeView>, k: Seq<u8>) -> (n: NodeView)
    requires
        edits::row_at(tower::child_rows(ns), k) is Some,
    ensures
        ns.contains(n),
        chunk::first_key(n.rows) == k,
        edits::row_at(tower::child_rows(ns), k) == Some(chunk::child_row(n).held),
{
    let i = edits::lemma_row_of(tower::child_rows(ns), k);
    assert(tower::child_rows(ns)[i] == chunk::child_row(ns[i]));
    ns[i]
}

/// A node that goes up.
pub proof fn lemma_sent(was: Seq<Slot>, nodes: Seq<NodeView>, growing: bool, n: nat, k: Seq<u8>) -> (i:
    int)
    requires
        n <= nodes.len(),
    ensures
        apply::sent_at(was, nodes, growing, n, k) is Some ==> {
            &&& 0 <= i < n
            &&& apply::goes_up(was, nodes[i], growing)
            &&& chunk::first_key(nodes[i].rows) == k
            &&& apply::sent_at(was, nodes, growing, n, k) == Some(chunk::child_row(nodes[i]).held)
        },
        apply::sent_at(was, nodes, growing, n, k) is None ==> forall|j: int|
            0 <= j < n && apply::goes_up(was, nodes[j], growing) ==> chunk::first_key(
                (#[trigger] nodes[j]).rows,
            ) != k,
    decreases n,
{
    if n == 0 {
        0
    } else if apply::goes_up(was, nodes[n - 1], growing) && chunk::first_key(nodes[n - 1].rows)
        == k {
        n - 1
    } else {
        lemma_sent(was, nodes, growing, (n - 1) as nat, k)
    }
}

/// A node that is gone.
proof fn lemma_gone(was: Seq<Slot>, nodes: Seq<NodeView>, n: nat, k: Seq<u8>) -> (i: int)
    requires
        n <= was.len(),
    ensures
        apply::gone_at(was, nodes, n, k) ==> 0 <= i < n && chunk::first_key(
            apply::rows_at(was[i]),
        ) == k && !apply::node_ids(nodes).contains(was[i].cid),
        !apply::gone_at(was, nodes, n, k) ==> forall|j: int|
            0 <= j < n && chunk::first_key(apply::rows_at(#[trigger] was[j])) == k
                ==> apply::node_ids(nodes).contains(was[j].cid),
    decreases n,
{
    if n == 0 {
        0
    } else if chunk::first_key(apply::rows_at(was[n - 1])) == k && !apply::node_ids(
        nodes,
    ).contains(was[n - 1].cid) {
        n - 1
    } else {
        lemma_gone(was, nodes, (n - 1) as nat, k)
    }
}

/// Was a node streamed?
pub open spec fn stood(was: Seq<Slot>, n: NodeView) -> bool {
    apply::slot_ids(was).contains(chunk::node_id(n))
}

/// A level in which the nodes that were streamed gave way to others.
#[verifier::opaque]
pub open spec fn swapped(
    w: BlockMap,
    old_nodes: Seq<NodeView>,
    new_nodes: Seq<NodeView>,
    was: Seq<Slot>,
    nodes: Seq<NodeView>,
) -> bool {
    &&& forall|x: NodeView| #[trigger] nodes.contains(x) ==> new_nodes.contains(x)
    &&& forall|x: NodeView|
        #[trigger] new_nodes.contains(x) ==> nodes.contains(x) || (old_nodes.contains(x) && !stood(
            was,
            x,
        ))
    &&& forall|x: NodeView|
        #[trigger] old_nodes.contains(x) && !stood(was, x) ==> new_nodes.contains(x)
    &&& forall|x: NodeView| #[trigger] nodes.contains(x) && old_nodes.contains(x) ==> stood(was, x)
    &&& forall|i: int| 0 <= i < was.len() ==> is_slot_of(old_nodes, #[trigger] was[i])
    &&& forall|x: NodeView| #[trigger] old_nodes.contains(x) ==> tower::kept(w, x)
    &&& forall|x: NodeView| #[trigger] nodes.contains(x) ==> tower::kept(w, x)
    &&& node::sorted_rows(tower::child_rows(old_nodes))
    &&& node::sorted_rows(tower::child_rows(new_nodes))
}

/// Is this the place of one of the nodes?
pub open spec fn is_slot_of(nodes: Seq<NodeView>, s: Slot) -> bool {
    exists|x: NodeView| #[trigger]
        nodes.contains(x) && s.cid == chunk::node_id(x) && chunk::first_key(apply::rows_at(s))
            == chunk::first_key(x.rows)
}

/// Two nodes held under one id are one.
pub proof fn lemma_one_id(w: BlockMap, a: NodeView, b: NodeView)
    requires
        tower::kept(w, a),
        tower::kept(w, b),
        chunk::node_id(a) == chunk::node_id(b),
    ensures
        a == b,
{
    tower::lemma_kept(w, a);
    tower::lemma_kept(w, b);
}

/// Two old nodes that begin with one key are one.
proof fn lemma_one_key(ns: Seq<NodeView>, a: NodeView, b: NodeView)
    requires
        node::sorted_rows(tower::child_rows(ns)),
        ns.contains(a),
        ns.contains(b),
        chunk::first_key(a.rows) == chunk::first_key(b.rows),
    ensures
        a == b,
{
    let i = choose|i: int| 0 <= i < ns.len() && ns[i] == a;
    let j = choose|j: int| 0 <= j < ns.len() && ns[j] == b;
    let rows = tower::child_rows(ns);
    assert(rows[i].key == rows[j].key);
    order::lemma_lt_irreflexive(rows[i].key);
    if i < j {
        assert(order::lt(rows[i].key, rows[j].key));
    } else if j < i {
        assert(order::lt(rows[j].key, rows[i].key));
    }
}

/// A streamed node, from its id.
proof fn lemma_stood(
    w: BlockMap,
    old_nodes: Seq<NodeView>,
    new_nodes: Seq<NodeView>,
    was: Seq<Slot>,
    nodes: Seq<NodeView>,
    n: NodeView,
) -> (i: int)
    requires
        swapped(w, old_nodes, new_nodes, was, nodes),
        tower::kept(w, n),
        stood(was, n),
    ensures
        0 <= i < was.len(),
        was[i].cid == chunk::node_id(n),
        old_nodes.contains(n),
        chunk::first_key(apply::rows_at(was[i])) == chunk::first_key(n.rows),
{
    reveal(swapped);
    let ids = apply::slot_ids(was);
    let i = choose|i: int| 0 <= i < ids.len() && ids[i] == chunk::node_id(n);
    assert(was[i].cid == chunk::node_id(n));
    assert(is_slot_of(old_nodes, was[i]));
    let x = choose|x: NodeView| #[trigger]
        old_nodes.contains(x) && was[i].cid == chunk::node_id(x) && chunk::first_key(
            apply::rows_at(was[i]),
        ) == chunk::first_key(x.rows);
    lemma_one_id(w, x, n);
    i
}

/// What the level above holds under a key afterwards.
#[verifier::rlimit(40)]
proof fn lemma_told_at(
    w: BlockMap,
    old_nodes: Seq<NodeView>,
    new_nodes: Seq<NodeView>,
    was: Seq<Slot>,
    nodes: Seq<NodeView>,
    k: Seq<u8>,
)
    requires
        swapped(w, old_nodes, new_nodes, was, nodes),
    ensures
        edits::row_at(tower::child_rows(new_nodes), k) == (match apply::up_at(
            was,
            nodes,
            false,
            k,
        ) {
            Some(e) => e.held,
            None => edits::row_at(tower::child_rows(old_nodes), k),
        }),
{
    let up = tower::child_rows(new_nodes);
    let below = tower::child_rows(old_nodes);
    let s = apply::sent_at(was, nodes, false, nodes.len(), k);
    let i = lemma_sent(was, nodes, false, nodes.len(), k);
    let g = lemma_gone(was, nodes, was.len(), k);
    if s is Some {
        assert(nodes.contains(nodes[i]));
        assert(new_nodes.contains(nodes[i])) by {
            reveal(swapped);
        }
        assert(node::sorted_rows(up)) by {
            reveal(swapped);
        }
        lemma_child_at(new_nodes, nodes[i]);
    } else {
        // A new node under this key was there before, and still is.
        assert forall|x: NodeView| nodes.contains(x) && chunk::first_key(x.rows) == k implies stood(
            was,
            x,
        ) by {
            let j = choose|j: int| 0 <= j < nodes.len() && nodes[j] == x;
            assert(chunk::first_key(nodes[j].rows) == k);
        }
        if edits::row_at(up, k) is Some {
            let x = lemma_child_of(new_nodes, k);
            assert(nodes.contains(x) || (old_nodes.contains(x) && !stood(was, x))) by {
                reveal(swapped);
            }
            assert(tower::kept(w, x)) by {
                reveal(swapped);
            }
            if nodes.contains(x) {
                let j = lemma_stood(w, old_nodes, new_nodes, was, nodes, x);
                lemma_has_id(nodes, x);
            }
            assert(old_nodes.contains(x));
            assert(node::sorted_rows(below)) by {
                reveal(swapped);
            }
            lemma_child_at(old_nodes, x);
            if apply::gone_at(was, nodes, was.len(), k) {
                lemma_gone_stays(w, old_nodes, new_nodes, was, nodes, g, x);
            }
        } else if !apply::gone_at(was, nodes, was.len(), k) && edits::row_at(below, k) is Some {
            let x = lemma_child_of(old_nodes, k);
            assert(tower::kept(w, x)) by {
                reveal(swapped);
            }
            assert(new_nodes.contains(x)) by {
                if stood(was, x) {
                    let j = lemma_stood(w, old_nodes, new_nodes, was, nodes, x);
                    assert(apply::node_ids(nodes).contains(was[j].cid));
                    let y = lemma_id_of(nodes, was[j].cid);
                    assert(tower::kept(w, y)) by {
                        reveal(swapped);
                    }
                    lemma_one_id(w, x, y);
                }
                reveal(swapped);
            }
            assert(node::sorted_rows(up)) by {
                reveal(swapped);
            }
            lemma_child_at(new_nodes, x);
        }
    }
}

/// A node's id is among the ids.
proof fn lemma_has_id(nodes: Seq<NodeView>, n: NodeView)
    requires
        nodes.contains(n),
    ensures
        apply::node_ids(nodes).contains(chunk::node_id(n)),
{
    let i = choose|i: int| 0 <= i < nodes.len() && nodes[i] == n;
    assert(apply::node_ids(nodes)[i] == chunk::node_id(n));
}

/// An id among the ids is a node's.
proof fn lemma_id_of(nodes: Seq<NodeView>, id: Seq<u8>) -> (n: NodeView)
    requires
        apply::node_ids(nodes).contains(id),
    ensures
        nodes.contains(n),
        chunk::node_id(n) == id,
{
    let ids = apply::node_ids(nodes);
    let i = choose|i: int| 0 <= i < ids.len() && ids[i] == id;
    assert(nodes.contains(nodes[i]));
    nodes[i]
}

/// A node that is gone is not there under its key.
proof fn lemma_gone_stays(
    w: BlockMap,
    old_nodes: Seq<NodeView>,
    new_nodes: Seq<NodeView>,
    was: Seq<Slot>,
    nodes: Seq<NodeView>,
    g: int,
    x: NodeView,
)
    requires
        swapped(w, old_nodes, new_nodes, was, nodes),
        0 <= g < was.len(),
        !apply::node_ids(nodes).contains(was[g].cid),
        old_nodes.contains(x),
        chunk::first_key(apply::rows_at(was[g])) == chunk::first_key(x.rows),
    ensures
        !new_nodes.contains(x),
{
    reveal(swapped);
    assert(is_slot_of(old_nodes, was[g]));
    let y = choose|y: NodeView| #[trigger]
        old_nodes.contains(y) && was[g].cid == chunk::node_id(y) && chunk::first_key(
            apply::rows_at(was[g]),
        ) == chunk::first_key(y.rows);
    lemma_one_key(old_nodes, x, y);
    assert(apply::slot_ids(was)[g] == chunk::node_id(x));
    assert(stood(was, x));
    if new_nodes.contains(x) {
        assert(nodes.contains(x));
        lemma_has_id(nodes, x);
    }
}

/// The level above, edited as it is told, is the one over the new nodes.
pub proof fn lemma_told(
    w: BlockMap,
    old_nodes: Seq<NodeView>,
    new_nodes: Seq<NodeView>,
    was: Seq<Slot>,
    nodes: Seq<NodeView>,
    es: Seq<EditRow>,
)
    requires
        swapped(w, old_nodes, new_nodes, was, nodes),
        edits::sorted_edits(es),
        forall|k: Seq<u8>| #[trigger] edits::edit_at(es, k) == apply::up_at(was, nodes, false, k),
    ensures
        edits::edited(tower::child_rows(old_nodes), es) == tower::child_rows(new_nodes),
{
    let below = tower::child_rows(old_nodes);
    let up = tower::child_rows(new_nodes);
    assert(node::sorted_rows(below) && node::sorted_rows(up)) by {
        reveal(swapped);
    }
    edits::lemma_edited_sorted(below, es);
    assert forall|k: Seq<u8>| #[trigger] edits::row_at(edits::edited(below, es), k)
        == edits::row_at(up, k) by {
        edits::lemma_edited_at(below, es, k);
        assert(edits::edit_at(es, k) == apply::up_at(was, nodes, false, k));
        lemma_told_at(w, old_nodes, new_nodes, was, nodes, k);
    }
    edits::lemma_rows_same(edits::edited(below, es), up);
}

/// Where every new node goes up, the level above is the one over the new nodes.
pub proof fn lemma_told_all(
    was: Seq<Slot>,
    nodes: Seq<NodeView>,
    growing: bool,
    es: Seq<EditRow>,
)
    requires
        growing || was.len() == 0,
        node::sorted_rows(tower::child_rows(nodes)),
        edits::sorted_edits(es),
        forall|k: Seq<u8>| #[trigger] edits::edit_at(es, k) == apply::up_at(was, nodes, growing, k),
    ensures
        edits::edited(Seq::empty(), es) == tower::child_rows(nodes),
        nodes.len() > 0 ==> es.len() > 0,
{
    let none = Seq::<Row>::empty();
    let up = tower::child_rows(nodes);
    edits::lemma_edited_sorted(none, es);
    assert forall|i: int| 0 <= i < nodes.len() implies #[trigger] apply::goes_up(
        was,
        nodes[i],
        growing,
    ) by {
        assert(apply::slot_ids(was).len() == was.len());
    }
    assert forall|k: Seq<u8>| #[trigger] edits::row_at(edits::edited(none, es), k)
        == edits::row_at(up, k) by {
        edits::lemma_edited_at(none, es, k);
        assert(edits::edit_at(es, k) == apply::up_at(was, nodes, growing, k));
        let i = lemma_sent(was, nodes, growing, nodes.len(), k);
        if apply::sent_at(was, nodes, growing, nodes.len(), k) is Some {
            assert(nodes.contains(nodes[i]));
            lemma_child_at(nodes, nodes[i]);
        } else if edits::row_at(up, k) is Some {
            let x = lemma_child_of(nodes, k);
            let j = choose|j: int| 0 <= j < nodes.len() && nodes[j] == x;
            assert(apply::goes_up(was, nodes[j], growing));
            assert(chunk::first_key(nodes[j].rows) == k);
        }
    }
    edits::lemma_rows_same(edits::edited(none, es), up);
    if nodes.len() > 0 && es.len() == 0 {
        assert(es =~= Seq::<EditRow>::empty());
        assert(up.len() == nodes.len());
    }
}

/// Is a run outside the first `n` stretches?
pub open spec fn outside(st: Seq<Stretch>, n: int, j: int) -> bool {
    forall|k: int| 0 <= k < n ==> !((#[trigger] st[k]).first <= j <= st[k].last)
}

/// Is this one of the runs the first `n` stretches gave?
pub open spec fn given_by(st: Seq<Stretch>, n: int, r: Seq<Row>) -> bool {
    exists|k: int| 0 <= k < n && (#[trigger] st[k]).out.contains(r)
}

/// Is this a run before `end` that the first `n` stretches left?
pub open spec fn left_by(c: Seq<Seq<Row>>, st: Seq<Stretch>, n: int, end: int, r: Seq<Row>) -> bool {
    exists|j: int| 0 <= j < end && outside(st, n, j) && #[trigger] c[j] == r
}

/// Is stretch `k` after the one before, and inside the level?
pub open spec fn placed(c: Seq<Seq<Row>>, st: Seq<Stretch>, k: int) -> bool {
    0 <= splice::resume(st, k) <= st[k].first <= st[k].last < c.len()
}

/// Do the stretches follow one another inside the level?
pub open spec fn in_order(c: Seq<Seq<Row>>, st: Seq<Stretch>) -> bool {
    forall|k: int| 0 <= k < st.len() ==> #[trigger] placed(c, st, k)
}

/// In three lists one after the other.
proof fn lemma_in_three(a: Seq<Seq<Row>>, b: Seq<Seq<Row>>, c: Seq<Seq<Row>>, r: Seq<Row>)
    ensures
        (a + b + c).contains(r) <==> a.contains(r) || b.contains(r) || c.contains(r),
{
    let all = a + b + c;
    if all.contains(r) {
        let i = choose|i: int| 0 <= i < all.len() && all[i] == r;
        if i < a.len() {
            assert(a[i] == r);
        } else if i < a.len() + b.len() {
            assert(b[i - a.len()] == r);
        } else {
            assert(c[i - a.len() - b.len()] == r);
        }
    }
    if a.contains(r) {
        let i = choose|i: int| 0 <= i < a.len() && a[i] == r;
        assert(all[i] == r);
    }
    if b.contains(r) {
        let i = choose|i: int| 0 <= i < b.len() && b[i] == r;
        assert(all[a.len() + i] == r);
    }
    if c.contains(r) {
        let i = choose|i: int| 0 <= i < c.len() && c[i] == r;
        assert(all[a.len() + b.len() + i] == r);
    }
}

/// Where the stretches end does not fall.
proof fn lemma_resume_grows(c: Seq<Seq<Row>>, st: Seq<Stretch>, k: int, n: int)
    requires
        in_order(c, st),
        0 <= k <= n <= st.len(),
    ensures
        splice::resume(st, k) <= splice::resume(st, n),
        k < n ==> st[k].last < splice::resume(st, n),
        0 <= splice::resume(st, n) <= c.len(),
    decreases n - k,
{
    if n > 0 {
        assert(placed(c, st, n - 1));
        if k < n {
            lemma_resume_grows(c, st, k, n - 1);
        }
    }
}

/// What the level up to the first stretches holds.
proof fn lemma_spliced_has(c: Seq<Seq<Row>>, st: Seq<Stretch>, n: nat, r: Seq<Row>)
    requires
        in_order(c, st),
        n <= st.len(),
    ensures
        splice::spliced(c, st, n).contains(r) <==> given_by(st, n as int, r) || left_by(
            c,
            st,
            n as int,
            splice::resume(st, n as int),
            r,
        ),
    decreases n,
{
    if n > 0 {
        let p = (n - 1) as nat;
        lemma_spliced_has(c, st, p, r);
        let s = st[n - 1];
        let front = splice::spliced(c, st, p);
        let from = splice::resume(st, n - 1);
        assert(placed(c, st, n - 1));
        let q = n - 1;
        let mid = c.subrange(from, s.first);
        lemma_in_three(front, mid, s.out, r);
        let all = n as int;
        assert forall|j: int| 0 <= j < s.first implies (#[trigger] outside(st, all, j) <==> outside(
            st,
            q,
            j,
        )) by {
            if outside(st, q, j) {
                assert forall|k: int| 0 <= k < n implies !((#[trigger] st[k]).first <= j
                    <= st[k].last) by {}
            }
        }
        assert forall|j: int| from <= j implies #[trigger] outside(st, q, j) by {
            assert forall|k: int| 0 <= k < n - 1 implies !((#[trigger] st[k]).first <= j
                <= st[k].last) by {
                lemma_resume_grows(c, st, k, n - 1);
            }
        }
        if given_by(st, n - 1, r) {
            let k = choose|k: int| 0 <= k < n - 1 && (#[trigger] st[k]).out.contains(r);
            assert(st[k].out.contains(r));
        }
        if s.out.contains(r) {
            assert(st[n - 1].out.contains(r));
        }
        if given_by(st, n as int, r) {
            let k = choose|k: int| 0 <= k < n && (#[trigger] st[k]).out.contains(r);
            if k < n - 1 {
                assert(st[k].out.contains(r));
            }
        }
        if mid.contains(r) {
            let i = choose|i: int| 0 <= i < mid.len() && mid[i] == r;
            assert(c[from + i] == r);
            assert(outside(st, n as int, from + i));
        }
        if left_by(c, st, n - 1, from, r) {
            let j = choose|j: int| 0 <= j < from && outside(st, n - 1, j) && #[trigger] c[j] == r;
            assert(outside(st, n as int, j));
            assert(c[j] == r);
        }
        if left_by(c, st, n as int, s.last + 1, r) {
            let j = choose|j: int|
                0 <= j < s.last + 1 && outside(st, n as int, j) && #[trigger] c[j] == r;
            assert(!(st[n - 1].first <= j <= st[n - 1].last));
            if j < from {
                assert(outside(st, n - 1, j));
            } else {
                assert(mid[j - from] == r);
            }
        }
    }
}

/// What the level holds afterwards: what the stretches gave, and what they left.
pub proof fn lemma_respliced_has(c: Seq<Seq<Row>>, st: Seq<Stretch>, r: Seq<Row>)
    requires
        in_order(c, st),
    ensures
        splice::respliced(c, st).contains(r) <==> given_by(st, st.len() as int, r) || left_by(
            c,
            st,
            st.len() as int,
            c.len() as int,
            r,
        ),
{
    let n = st.len() as int;
    let end = splice::resume(st, n);
    lemma_spliced_has(c, st, st.len(), r);
    lemma_resume_grows(c, st, 0, n);
    let front = splice::spliced(c, st, st.len());
    let rest = c.skip(end);
    let none = Seq::<Seq<Row>>::empty();
    assert(front + rest =~= front + none + rest);
    lemma_in_three(front, none, rest, r);
    assert forall|j: int| end <= j implies outside(st, n, j) by {
        assert forall|k: int| 0 <= k < n implies !((#[trigger] st[k]).first <= j <= st[k].last) by {
            lemma_resume_grows(c, st, k, n);
        }
    }
    if rest.contains(r) {
        let i = choose|i: int| 0 <= i < rest.len() && rest[i] == r;
        assert(c[end + i] == r);
    }
    if left_by(c, st, n, end, r) {
        let j = choose|j: int| 0 <= j < end && outside(st, n, j) && #[trigger] c[j] == r;
        assert(c[j] == r);
    }
    if left_by(c, st, n, c.len() as int, r) {
        let j = choose|j: int| 0 <= j < c.len() && outside(st, n, j) && #[trigger] c[j] == r;
        if j >= end {
            assert(rest[j - end] == r);
        }
    }
}

/// A run that the first stretches gave and also left is there twice.
proof fn lemma_twice_to(c: Seq<Seq<Row>>, st: Seq<Stretch>, n: nat, r: Seq<Row>) -> (x: (int, int))
    requires
        in_order(c, st),
        n <= st.len(),
        given_by(st, n as int, r),
        left_by(c, st, n as int, splice::resume(st, n as int), r),
    ensures
        0 <= x.0 < x.1 < splice::spliced(c, st, n).len(),
        splice::spliced(c, st, n)[x.0] == r,
        splice::spliced(c, st, n)[x.1] == r,
    decreases n,
{
    let p = (n - 1) as nat;
    let s = st[n - 1];
    let front = splice::spliced(c, st, p);
    let from = splice::resume(st, n - 1);
    let mid = c.subrange(from, s.first);
    let all = splice::spliced(c, st, n);
    assert(placed(c, st, n - 1));
    lemma_spliced_has(c, st, p, r);
    let k = choose|k: int| 0 <= k < n && (#[trigger] st[k]).out.contains(r);
    let j = choose|j: int|
        0 <= j < splice::resume(st, n as int) && outside(st, n as int, j) && #[trigger] c[j] == r;
    assert(!(st[n - 1].first <= j <= st[n - 1].last));
    assert(outside(st, n - 1, j));
    if k < n - 1 {
        assert(given_by(st, n - 1, r)) by {
            assert(st[k].out.contains(r));
        }
    }
    if j < from {
        assert(left_by(c, st, n - 1, from, r)) by {
            assert(c[j] == r);
        }
    }
    if k < n - 1 && j < from {
        let x = lemma_twice_to(c, st, p, r);
        assert(all[x.0] == front[x.0] && all[x.1] == front[x.1]);
        x
    } else if k < n - 1 {
        let g = choose|g: int| 0 <= g < front.len() && front[g] == r;
        let l = front.len() + (j - from);
        assert(all[g] == r);
        assert(mid[j - from] == r);
        assert(all[l] == r);
        (g, l)
    } else {
        let i = choose|i: int| 0 <= i < s.out.len() && s.out[i] == r;
        let g = front.len() + mid.len() + i;
        assert(all[g] == r);
        if j < from {
            let l = choose|l: int| 0 <= l < front.len() && front[l] == r;
            assert(all[l] == r);
            (l, g)
        } else {
            let l = front.len() + (j - from);
            assert(mid[j - from] == r);
            assert(all[l] == r);
            (l, g)
        }
    }
}

/// A run that the stretches gave and also left is there twice.
proof fn lemma_twice(c: Seq<Seq<Row>>, st: Seq<Stretch>, r: Seq<Row>) -> (x: (int, int))
    requires
        in_order(c, st),
        given_by(st, st.len() as int, r),
        left_by(c, st, st.len() as int, c.len() as int, r),
    ensures
        0 <= x.0 < x.1 < splice::respliced(c, st).len(),
        splice::respliced(c, st)[x.0] == r,
        splice::respliced(c, st)[x.1] == r,
{
    let n = st.len() as int;
    let end = splice::resume(st, n);
    let front = splice::spliced(c, st, st.len());
    let rest = c.skip(end);
    let all = splice::respliced(c, st);
    lemma_resume_grows(c, st, 0, n);
    lemma_spliced_has(c, st, st.len(), r);
    let j = choose|j: int| 0 <= j < c.len() && outside(st, n, j) && #[trigger] c[j] == r;
    if j < end {
        assert(left_by(c, st, n, end, r)) by {
            assert(c[j] == r);
        }
        let x = lemma_twice_to(c, st, st.len(), r);
        assert(all[x.0] == front[x.0] && all[x.1] == front[x.1]);
        x
    } else {
        let g = choose|g: int| 0 <= g < front.len() && front[g] == r;
        let l = front.len() + (j - end);
        assert(all[g] == r);
        assert(rest[j - end] == r);
        assert(all[l] == r);
        (g, l)
    }
}

/// Is the parity of every node of a level what it should be, where it is held?
pub open spec fn level_honest(w: BlockMap, f: u8, runs: Seq<Seq<Row>>) -> bool {
    forall|i: int| 0 <= i < runs.len() ==> node_honest(w, tower::node_of(w, f, #[trigger] runs[i]))
}

/// The groups of streamed nodes are known truly.
pub proof fn lemma_known_at(
    w: BlockMap,
    rule: Rule,
    root: Seq<u8>,
    f: u8,
    rows: Seq<Row>,
    runs: Seq<Seq<Row>>,
    a: Seq<Slot>,
    at: Seq<int>,
    i: int,
    j: int,
)
    requires
        mapped(w, rule, root, f, rows, runs, a, at),
        level_honest(w, f, runs),
        0 <= i <= j <= a.len(),
        forall|p: int| i <= p < j ==> (#[trigger] a[p]).opened is Ok,
    ensures
        index_true(w, f == 0, apply::known_at(a, i, j)),
    decreases j - i,
{
    if i < j {
        lemma_known_at(w, rule, root, f, rows, runs, a, at, i, j - 1);
        assert(a[j - 1].opened is Ok);
        lemma_place(w, rule, root, f, rows, runs, a, at, j - 1);
        let r = runs[at[j - 1]];
        assert(node_honest(w, tower::node_of(w, f, r)));
        lemma_known_truly(w, f, r);
        lemma_index_join(
            w,
            f == 0,
            apply::known_at(a, i, j - 1),
            parity::known_of(tower::node_of(w, f, r)),
        );
    } else {
        reveal(index_true);
    }
}

/// The nodes of the first stretches.
proof fn lemma_traced_nodes(tr: Seq<Trace>, n: nat, x: NodeView) -> (k: int)
    requires
        n <= tr.len(),
    ensures
        apply::traced_nodes(tr, n).contains(x) ==> 0 <= k < n && tr[k].nodes.contains(x),
        forall|j: int|
            0 <= j < n && (#[trigger] tr[j]).nodes.contains(x) ==> apply::traced_nodes(
                tr,
                n,
            ).contains(x),
    decreases n,
{
    if n == 0 {
        0
    } else {
        let p = lemma_traced_nodes(tr, (n - 1) as nat, x);
        let front = apply::traced_nodes(tr, (n - 1) as nat);
        let last = tr[n - 1].nodes;
        let all = front + last;
        if last.contains(x) {
            let i = choose|i: int| 0 <= i < last.len() && last[i] == x;
            assert(all[front.len() + i] == x);
        }
        if front.contains(x) {
            let i = choose|i: int| 0 <= i < front.len() && front[i] == x;
            assert(all[i] == x);
        }
        if all.contains(x) {
            let i = choose|i: int| 0 <= i < all.len() && all[i] == x;
            if i < front.len() {
                assert(front[i] == x);
            } else {
                assert(last[i - front.len()] == x);
            }
        }
        if last.contains(x) {
            n - 1
        } else {
            p
        }
    }
}

/// A place of the first stretches is one that was streamed.
proof fn lemma_traced_slot(a: Seq<Slot>, tr: Seq<Trace>, n: nat, i: int) -> (r: (int, int))
    requires
        n <= tr.len(),
        0 <= i < apply::traced_slots(a, tr, n).len(),
        forall|k: int| 0 <= k < tr.len() ==> 0 <= (#[trigger] tr[k]).first <= tr[k].last < a.len(),
    ensures
        0 <= r.0 < n,
        tr[r.0].first <= r.1 <= tr[r.0].last,
        apply::traced_slots(a, tr, n)[i] == a[r.1],
    decreases n,
{
    let front = apply::traced_slots(a, tr, (n - 1) as nat);
    let t = tr[n - 1];
    if i < front.len() {
        lemma_traced_slot(a, tr, (n - 1) as nat, i)
    } else {
        (n - 1, t.first + (i - front.len()))
    }
}

/// A streamed place is among the places of the stretches.
proof fn lemma_slot_traced(a: Seq<Slot>, tr: Seq<Trace>, n: nat, k: int, p: int) -> (i: int)
    requires
        n <= tr.len(),
        0 <= k < n,
        tr[k].first <= p <= tr[k].last,
        forall|k: int| 0 <= k < tr.len() ==> 0 <= (#[trigger] tr[k]).first <= tr[k].last < a.len(),
    ensures
        0 <= i < apply::traced_slots(a, tr, n).len(),
        apply::traced_slots(a, tr, n)[i] == a[p],
    decreases n,
{
    let front = apply::traced_slots(a, tr, (n - 1) as nat);
    let t = tr[n - 1];
    let part = a.subrange(t.first, t.last + 1);
    if k < n - 1 {
        let i = lemma_slot_traced(a, tr, (n - 1) as nat, k, p);
        assert((front + part)[i] == front[i]);
        i
    } else {
        assert((front + part)[front.len() + (p - t.first)] == part[p - t.first]);
        front.len() + (p - t.first)
    }
}

/// A level that was rewritten, with the same level where every node is there.
#[verifier::opaque]
pub open spec fn rewrote(
    w: BlockMap,
    rule: Rule,
    root: Seq<u8>,
    f: u8,
    rows: Seq<Row>,
    runs: Seq<Seq<Row>>,
    a: Seq<Slot>,
    at: Seq<int>,
    ov: BlockMap,
    es: Seq<EditRow>,
    tr: Seq<Trace>,
) -> bool {
    &&& mapped(w, rule, root, f, rows, runs, a, at)
    &&& level_honest(w, f, runs)
    &&& f == 0 ==> build::proper(rows)
    &&& apply::traces_ok(a, f, rule, ov, es, tr, true)
    &&& apply::taken(tr, tr.len() as int) == es.len()
    &&& edits::sorted_edits(es)
    &&& splice::small_edits(es)
    &&& ov.submap_of(w)
}

/// What is known of one stretch of it.
pub proof fn lemma_rewrote_at(
    w: BlockMap,
    rule: Rule,
    root: Seq<u8>,
    f: u8,
    rows: Seq<Row>,
    runs: Seq<Seq<Row>>,
    a: Seq<Slot>,
    at: Seq<int>,
    ov: BlockMap,
    es: Seq<EditRow>,
    tr: Seq<Trace>,
    k: int,
)
    requires
        rewrote(w, rule, root, f, rows, runs, a, at, ov, es, tr),
        0 <= k < tr.len(),
    ensures
        ({
            let t = tr[k];
            &&& 0 <= t.first <= t.last < a.len()
            &&& placed(runs, stretches_of(at, tr), k)
            &&& stretches_of(at, tr)[k] == stretch_of(at, t)
            &&& at[t.last] == at[t.first] + (t.last - t.first)
            &&& forall|p: int|
                t.first <= p <= t.last ==> #[trigger] at[p] == at[t.first] + (p - t.first)
            &&& forall|p: int| t.first <= p <= t.last ==> (#[trigger] a[p]).opened is Ok
        }),
        forall|x: NodeView| #[trigger] tr[k].nodes.contains(x) ==> x == tower::node_of(w, f, x.rows),
{
    reveal(rewrote);
    let t = tr[k];
    lemma_stretch(w, rule, root, f, rows, runs, a, at, ov, es, tr, k);
    lemma_trace_at(a, f, rule, ov, es, tr, k);
    assert(apply::run_ok(a, f, rule, ov, es, t));
    reveal(apply::run_ok);
    lemma_run(w, rule, root, f, rows, runs, a, at, t.first, t.last);
    lemma_known_at(w, rule, root, f, rows, runs, a, at, t.first, t.last + 1);
    let known = apply::known_at(a, t.first, t.last + 1);
    assert forall|x: NodeView| #[trigger] t.nodes.contains(x) implies x == tower::node_of(
        w,
        f,
        x.rows,
    ) by {
        let i = choose|i: int| 0 <= i < t.nodes.len() && t.nodes[i] == x;
        assert(apply::closed_with(ov, known, f, t.nodes[i]));
        lemma_closed_truly(ov, w, known, f, x);
    }
}

/// The nodes of runs.
proof fn lemma_nodes_of_has(w: BlockMap, f: u8, runs: Seq<Seq<Row>>, x: NodeView)
    ensures
        tower::nodes_of(w, f, runs).contains(x) <==> exists|r: Seq<Row>| #[trigger]
            runs.contains(r) && x == tower::node_of(w, f, r),
{
    let ns = tower::nodes_of(w, f, runs);
    if ns.contains(x) {
        let i = choose|i: int| 0 <= i < ns.len() && ns[i] == x;
        assert(runs.contains(runs[i]));
        assert(x == tower::node_of(w, f, runs[i]));
    }
    if exists|r: Seq<Row>| #[trigger] runs.contains(r) && x == tower::node_of(w, f, r) {
        let r = choose|r: Seq<Row>| #[trigger] runs.contains(r) && x == tower::node_of(w, f, r);
        let i = choose|i: int| 0 <= i < runs.len() && runs[i] == r;
        assert(ns[i] == x);
    }
}

/// A run a stretch gave is that of one of its nodes.
proof fn lemma_given(
    w: BlockMap,
    rule: Rule,
    root: Seq<u8>,
    f: u8,
    rows: Seq<Row>,
    runs: Seq<Seq<Row>>,
    a: Seq<Slot>,
    at: Seq<int>,
    ov: BlockMap,
    es: Seq<EditRow>,
    tr: Seq<Trace>,
    r: Seq<Row>,
)
    requires
        rewrote(w, rule, root, f, rows, runs, a, at, ov, es, tr),
    ensures
        given_by(stretches_of(at, tr), tr.len() as int, r) ==> apply::traced_nodes(
            tr,
            tr.len(),
        ).contains(tower::node_of(w, f, r)),
        forall|x: NodeView|
            #[trigger] apply::traced_nodes(tr, tr.len()).contains(x) ==> x == tower::node_of(
                w,
                f,
                x.rows,
            ) && given_by(stretches_of(at, tr), tr.len() as int, x.rows),
{
    let st = stretches_of(at, tr);
    let n = tr.len() as int;
    if given_by(st, n, r) {
        let k = choose|k: int| 0 <= k < n && (#[trigger] st[k]).out.contains(r);
        lemma_rewrote_at(w, rule, root, f, rows, runs, a, at, ov, es, tr, k);
        let out = st[k].out;
        let i = choose|i: int| 0 <= i < out.len() && out[i] == r;
        let x = tr[k].nodes[i];
        assert(x.rows == r);
        assert(tr[k].nodes.contains(x));
        let p = lemma_traced_nodes(tr, tr.len(), x);
    }
    assert forall|x: NodeView| #[trigger] apply::traced_nodes(tr, tr.len()).contains(x) implies x
        == tower::node_of(w, f, x.rows) && given_by(st, n, x.rows) by {
        let k = lemma_traced_nodes(tr, tr.len(), x);
        lemma_rewrote_at(w, rule, root, f, rows, runs, a, at, ov, es, tr, k);
        assert(tr[k].nodes.contains(x));
        let i = choose|i: int| 0 <= i < tr[k].nodes.len() && tr[k].nodes[i] == x;
        assert(st[k].out[i] == x.rows);
        assert(st[k].out.contains(x.rows));
    }
}

/// A streamed node is inside a stretch.
proof fn lemma_inside(
    w: BlockMap,
    rule: Rule,
    root: Seq<u8>,
    f: u8,
    rows: Seq<Row>,
    runs: Seq<Seq<Row>>,
    a: Seq<Slot>,
    at: Seq<int>,
    ov: BlockMap,
    es: Seq<EditRow>,
    tr: Seq<Trace>,
    j: int,
    k: int,
    p: int,
)
    requires
        rewrote(w, rule, root, f, rows, runs, a, at, ov, es, tr),
        0 <= j < runs.len(),
        0 <= k < tr.len(),
        tr[k].first <= p <= tr[k].last,
    ensures
        a[p].opened is Ok,
        a[p].cid == chunk::node_id(tower::node_of(w, f, runs[at[p]])),
        a[p].cid == chunk::node_id(tower::node_of(w, f, runs[j])) ==> at[p] == j,
        stretches_of(at, tr)[k].first <= at[p] <= stretches_of(at, tr)[k].last,
{
    lemma_rewrote_at(w, rule, root, f, rows, runs, a, at, ov, es, tr, k);
    assert(mapped(w, rule, root, f, rows, runs, a, at)) by {
        reveal(rewrote);
    }
    assert(a[p].opened is Ok);
    lemma_place(w, rule, root, f, rows, runs, a, at, p);
    lemma_at_order(w, rule, root, f, rows, runs, a, at, 0, 0);
    if a[p].cid == chunk::node_id(tower::node_of(w, f, runs[j])) {
        lemma_same_node(w, rule, root, f, rows, runs, at[p], j);
    }
}

/// A run is outside all stretches just where its node was not streamed.
proof fn lemma_outside(
    w: BlockMap,
    rule: Rule,
    root: Seq<u8>,
    f: u8,
    rows: Seq<Row>,
    runs: Seq<Seq<Row>>,
    a: Seq<Slot>,
    at: Seq<int>,
    ov: BlockMap,
    es: Seq<EditRow>,
    tr: Seq<Trace>,
    j: int,
)
    requires
        rewrote(w, rule, root, f, rows, runs, a, at, ov, es, tr),
        0 <= j < runs.len(),
    ensures
        outside(stretches_of(at, tr), tr.len() as int, j) <==> !stood(
            apply::traced_slots(a, tr, tr.len()),
            tower::node_of(w, f, runs[j]),
        ),
{
    let st = stretches_of(at, tr);
    let n = tr.len() as int;
    let was = apply::traced_slots(a, tr, tr.len());
    let x = tower::node_of(w, f, runs[j]);
    lemma_bounds(w, rule, root, f, rows, runs, a, at, ov, es, tr);
    if stood(was, x) {
        let ids = apply::slot_ids(was);
        let i = choose|i: int| 0 <= i < ids.len() && ids[i] == chunk::node_id(x);
        let (k, p) = lemma_traced_slot(a, tr, tr.len(), i);
        assert(was[i] == a[p]);
        lemma_inside(w, rule, root, f, rows, runs, a, at, ov, es, tr, j, k, p);
        assert(st[k].first <= j <= st[k].last);
    }
    if !outside(st, n, j) {
        let k = choose|k: int| 0 <= k < n && (#[trigger] st[k]).first <= j <= st[k].last;
        let p = lemma_place_of(w, rule, root, f, rows, runs, a, at, ov, es, tr, j, k);
        lemma_inside(w, rule, root, f, rows, runs, a, at, ov, es, tr, j, k, p);
        let i = lemma_slot_traced(a, tr, tr.len(), k, p);
        assert(apply::slot_ids(was)[i] == chunk::node_id(x));
    }
}

/// The place of a run inside a stretch.
proof fn lemma_place_of(
    w: BlockMap,
    rule: Rule,
    root: Seq<u8>,
    f: u8,
    rows: Seq<Row>,
    runs: Seq<Seq<Row>>,
    a: Seq<Slot>,
    at: Seq<int>,
    ov: BlockMap,
    es: Seq<EditRow>,
    tr: Seq<Trace>,
    j: int,
    k: int,
) -> (p: int)
    requires
        rewrote(w, rule, root, f, rows, runs, a, at, ov, es, tr),
        0 <= k < tr.len(),
        stretches_of(at, tr)[k].first <= j <= stretches_of(at, tr)[k].last,
    ensures
        tr[k].first <= p <= tr[k].last,
        at[p] == j,
{
    lemma_rewrote_at(w, rule, root, f, rows, runs, a, at, ov, es, tr, k);
    let p = tr[k].first + (j - at[tr[k].first]);
    assert(at[p] == j);
    p
}

/// The stretches lie in the level.
proof fn lemma_bounds(
    w: BlockMap,
    rule: Rule,
    root: Seq<u8>,
    f: u8,
    rows: Seq<Row>,
    runs: Seq<Seq<Row>>,
    a: Seq<Slot>,
    at: Seq<int>,
    ov: BlockMap,
    es: Seq<EditRow>,
    tr: Seq<Trace>,
)
    requires
        rewrote(w, rule, root, f, rows, runs, a, at, ov, es, tr),
    ensures
        forall|k: int| 0 <= k < tr.len() ==> 0 <= (#[trigger] tr[k]).first <= tr[k].last < a.len(),
{
    assert forall|k: int| 0 <= k < tr.len() implies 0 <= (#[trigger] tr[k]).first <= tr[k].last
        < a.len() by {
        lemma_rewrote_at(w, rule, root, f, rows, runs, a, at, ov, es, tr, k);
    }
}

/// The new level: cut from scratch it is the old one with the streamed nodes replaced,
/// every node of it is held, and its entries ascend.
#[verifier::rlimit(40)]
pub proof fn lemma_new_level(
    w: BlockMap,
    rule: Rule,
    root: Seq<u8>,
    f: u8,
    rows: Seq<Row>,
    runs: Seq<Seq<Row>>,
    a: Seq<Slot>,
    at: Seq<int>,
    ov: BlockMap,
    es: Seq<EditRow>,
    tr: Seq<Trace>,
)
    requires
        rewrote(w, rule, root, f, rows, runs, a, at, ov, es, tr),
        forall|x: NodeView|
            #[trigger] apply::traced_nodes(tr, tr.len()).contains(x) ==> tower::kept(w, x),
    ensures
        ({
            let new_rows = edits::edited(rows, es);
            let new_runs = chunk::chunks(f, rule, new_rows);
            let ns = tower::level_nodes(w, rule, f, new_rows);
            &&& new_runs == splice::respliced(runs, stretches_of(at, tr))
            &&& swapped(
                w,
                tower::nodes_of(w, f, runs),
                ns,
                apply::traced_slots(a, tr, tr.len()),
                apply::traced_nodes(tr, tr.len()),
            )
            &&& forall|i: int| 0 <= i < ns.len() ==> tower::kept(w, #[trigger] ns[i])
            &&& tower::all_small(new_rows)
            &&& node::sorted_rows(new_rows)
        }),
{
    let st = stretches_of(at, tr);
    let n = tr.len() as int;
    let was = apply::traced_slots(a, tr, tr.len());
    let nodes = apply::traced_nodes(tr, tr.len());
    let old_nodes = tower::nodes_of(w, f, runs);
    let new_rows = edits::edited(rows, es);
    let new_runs = chunk::chunks(f, rule, new_rows);
    let ns = tower::level_nodes(w, rule, f, new_rows);
    assert(ns == tower::nodes_of(w, f, new_runs));
    assert(mapped(w, rule, root, f, rows, runs, a, at)) by {
        reveal(rewrote);
    }
    assert(new_runs == splice::respliced(runs, st)) by {
        reveal(rewrote);
        lemma_recut(w, rule, root, f, rows, runs, a, at, ov, es, tr);
    }
    lemma_at_order(w, rule, root, f, rows, runs, a, at, 0, 0);
    assert(tower::all_small(new_rows) && node::sorted_rows(new_rows)) by {
        reveal(rewrote);
        reveal(is_level);
        splice::lemma_edited_small(rows, es);
        edits::lemma_edited_sorted(rows, es);
    }
    assert(in_order(runs, st)) by {
        assert forall|k: int| 0 <= k < st.len() implies #[trigger] placed(runs, st, k) by {
            lemma_rewrote_at(w, rule, root, f, rows, runs, a, at, ov, es, tr, k);
        }
    }
    assert(is_level(w, rule, root, f, rows, runs));
    // what was given and what was left
    assert forall|x: NodeView| #[trigger] nodes.contains(x) implies ns.contains(x) by {
        lemma_given(w, rule, root, f, rows, runs, a, at, ov, es, tr, x.rows);
        lemma_respliced_has(runs, st, x.rows);
        assert(new_runs.contains(x.rows));
        lemma_nodes_of_has(w, f, new_runs, x);
    }
    assert forall|x: NodeView| #[trigger] ns.contains(x) implies nodes.contains(x) || (
    old_nodes.contains(x) && !stood(was, x)) by {
        lemma_nodes_of_has(w, f, new_runs, x);
        let r = choose|r: Seq<Row>| #[trigger] new_runs.contains(r) && x == tower::node_of(w, f, r);
        lemma_respliced_has(runs, st, r);
        lemma_given(w, rule, root, f, rows, runs, a, at, ov, es, tr, r);
        if !given_by(st, n, r) {
            let j = choose|j: int| 0 <= j < runs.len() && outside(st, n, j) && #[trigger] runs[j] == r;
            lemma_outside(w, rule, root, f, rows, runs, a, at, ov, es, tr, j);
            assert(old_nodes[j] == x);
        }
    }
    assert forall|x: NodeView| #[trigger] old_nodes.contains(x) && !stood(was, x) implies ns.contains(
        x,
    ) by {
        let j = choose|j: int| 0 <= j < old_nodes.len() && old_nodes[j] == x;
        lemma_outside(w, rule, root, f, rows, runs, a, at, ov, es, tr, j);
        assert(runs[j] == runs[j]);
        lemma_respliced_has(runs, st, runs[j]);
        assert(new_runs.contains(runs[j]));
        lemma_nodes_of_has(w, f, new_runs, x);
    }
    assert forall|i: int| 0 <= i < was.len() implies is_slot_of(old_nodes, #[trigger] was[i]) by {
        lemma_bounds(w, rule, root, f, rows, runs, a, at, ov, es, tr);
        let (k, p) = lemma_traced_slot(a, tr, tr.len(), i);
        lemma_rewrote_at(w, rule, root, f, rows, runs, a, at, ov, es, tr, k);
        assert(a[p].opened is Ok);
        lemma_place(w, rule, root, f, rows, runs, a, at, p);
        assert(old_nodes.contains(old_nodes[at[p]]));
    }
    assert forall|x: NodeView| #[trigger] old_nodes.contains(x) implies tower::kept(w, x) by {
        let j = choose|j: int| 0 <= j < old_nodes.len() && old_nodes[j] == x;
        lemma_level_kept(w, rule, root, f, rows, runs, j);
    }
    assert forall|i: int| 0 <= i < ns.len() implies tower::kept(w, #[trigger] ns[i]) by {
        assert(ns.contains(ns[i]));
        assert(nodes.contains(ns[i]) || old_nodes.contains(ns[i]));
    }
    tower::lemma_chunks(f, rule, new_rows);
    tower::lemma_ordered(w, f, new_rows, new_runs);
    assert(node::sorted_rows(tower::child_rows(old_nodes))) by {
        reveal(is_level);
        assert forall|i: int| 0 <= i < runs.len() implies tower::kept(w, #[trigger] old_nodes[i]) by {
            assert(old_nodes.contains(old_nodes[i]));
        }
        tower::lemma_ordered(w, f, rows, runs);
    }
    // A node that was given was not left too.
    assert forall|x: NodeView| #[trigger] nodes.contains(x) && old_nodes.contains(x) implies stood(
        was,
        x,
    ) by {
        if !stood(was, x) {
            let j = choose|j: int| 0 <= j < old_nodes.len() && old_nodes[j] == x;
            lemma_given(w, rule, root, f, rows, runs, a, at, ov, es, tr, x.rows);
            lemma_outside(w, rule, root, f, rows, runs, a, at, ov, es, tr, j);
            assert(runs[j] == x.rows);
            assert(left_by(runs, st, n, runs.len() as int, x.rows));
            let y = lemma_twice(runs, st, x.rows);
            assert(ns[y.0] == x && ns[y.1] == x);
            let up = tower::child_rows(ns);
            assert(order::lt(up[y.0].key, up[y.1].key));
            order::lemma_lt_irreflexive(up[y.0].key);
        }
    }
    assert(swapped(w, old_nodes, ns, was, nodes)) by {
        reveal(swapped);
    }
}

// ---------------------------------------------------------------------------
// all levels
// ---------------------------------------------------------------------------

/// Is the parity of every node of a tree what it should be, where it is held?
#[verifier::opaque]
pub open spec fn tree_honest(w: BlockMap, rule: Rule, rows: Seq<Row>) -> bool {
    forall|f: nat|
        f <= 255 ==> level_honest(
            w,
            f as u8,
            chunk::chunks(f as u8, rule, #[trigger] tower::level_rows(w, rule, rows, f)),
        )
}

/// Levels of a change, in a store where the old tree stands and the nodes of those levels
/// are held.
#[verifier::opaque]
pub open spec fn partway(
    m: BlockMap,
    root: Seq<u8>,
    rule: Rule,
    edits: Seq<(Vec<u8>, Edit)>,
    floors: Seq<Floor>,
    w: BlockMap,
    rows: Seq<Row>,
) -> bool {
    &&& store::loaded(m, root) is Ok
    &&& apply::batch_error(edits, 0) is None
    &&& edits::sorted_edits(apply::edit_rows(edits))
    &&& apply::chain(
        m,
        root,
        rule,
        true,
        apply::edit_rows(edits),
        apply::with_values(m, edits),
        floors,
    )
    &&& m.submap_of(w)
    &&& forall|f: int, i: int|
        #![trigger floors[f].nodes[i]]
        0 <= f < floors.len() && 0 <= i < floors[f].nodes.len() ==> tower::kept(
            w,
            floors[f].nodes[i],
        ) && floors[f].nodes[i].valid()
    &&& apply::values_held(w, edits)
    &&& build::proper(rows)
    &&& tower::stands(w, rule, rows)
    &&& tower::top(w, rule, rows) is Some
    &&& chunk::node_id(tower::top(w, rule, rows)->Some_0) == root
    &&& tree_honest(w, rule, rows)
}

/// Does a change end, with every node it closed held?
#[verifier::opaque]
pub open spec fn ended(m: BlockMap, root: Seq<u8>, floors: Seq<Floor>, w: BlockMap) -> bool {
    &&& apply::chain_ends(m, root, floors)
    &&& forall|i: int|
        0 <= i < apply::closed_nodes(floors).len() ==> (#[trigger] apply::closed_nodes(
            floors,
        )[i]).valid()
    &&& apply::holds_all(w, m, apply::closed_nodes(floors))
}

/// A change, in a store where the old tree stands and all blocks the change made are
/// held.
pub open spec fn setting(
    m: BlockMap,
    root: Seq<u8>,
    rule: Rule,
    edits: Seq<(Vec<u8>, Edit)>,
    floors: Seq<Floor>,
    w: BlockMap,
    rows: Seq<Row>,
) -> bool {
    &&& partway(m, root, rule, edits, floors, w, rows)
    &&& ended(m, root, floors, w)
}

/// A change that ended, in a store that has what it takes.
pub proof fn lemma_setting(
    m: BlockMap,
    root: Seq<u8>,
    rule: Rule,
    edits: Seq<(Vec<u8>, Edit)>,
    floors: Seq<Floor>,
    w: BlockMap,
    rows: Seq<Row>,
    path: Seq<Seq<u8>>,
)
    requires
        apply::batch_error(edits, 0) is None,
        apply::change(m, root, rule, true, edits, floors, path),
        ready(m, root, rule, edits, apply::closed_nodes(floors), w, rows),
    ensures
        setting(m, root, rule, edits, floors, w, rows),
{
    reveal(partway);
    reveal(ended);
    let all = apply::closed_nodes(floors);
    assert forall|f: int, i: int|
        #![trigger floors[f].nodes[i]]
        0 <= f < floors.len() && 0 <= i < floors[f].nodes.len() implies tower::kept(
        w,
        floors[f].nodes[i],
    ) && floors[f].nodes[i].valid() by {
        let j = lemma_floor_at(floors, floors.len(), f, i);
        assert(all[j] == floors[f].nodes[i]);
        assert(build::blocks_of(all)[j] == build::block_of(all[j]));
        reveal(tower::kept);
    }
}

/// The rows after the change.
pub open spec fn changed(rows: Seq<Row>, edits: Seq<(Vec<u8>, Edit)>) -> Seq<Row> {
    edits::edited(rows, apply::edit_rows(edits))
}

/// The rows of a level of the old tree; none above its root, nor under an empty one.
pub open spec fn old_rows(w: BlockMap, rule: Rule, rows: Seq<Row>, f: nat) -> Seq<Row> {
    if rows.len() > 0 && f <= tower::top(w, rule, rows)->Some_0.level {
        tower::level_rows(w, rule, rows, f)
    } else {
        Seq::empty()
    }
}

/// The nodes of a level after the change.
pub open spec fn new_level(w: BlockMap, rule: Rule, rows: Seq<Row>, f: nat) -> Seq<NodeView> {
    tower::level_nodes(w, rule, f as u8, tower::level_rows(w, rule, rows, f))
}

/// Is a level told what it must be told?
#[verifier::opaque]
pub open spec fn on_level(
    w: BlockMap,
    rule: Rule,
    rows: Seq<Row>,
    next: Seq<Row>,
    f: nat,
    x: Floor,
) -> bool {
    &&& x.ov.submap_of(w)
    &&& splice::small_edits(x.es)
    &&& edits::edited(old_rows(w, rule, rows, f), x.es) == tower::level_rows(w, rule, next, f)
}

/// Blocks that are all held.
pub proof fn lemma_puts_held(m: BlockMap, puts: Seq<Put>, w: BlockMap)
    requires
        m.submap_of(w),
        build::agrees(w, puts),
    ensures
        apply::with_puts(m, puts).submap_of(w),
    decreases puts.len(),
{
    if puts.len() > 0 {
        let front = puts.drop_last();
        assert forall|i: int| 0 <= i < front.len() implies w.contains_key((#[trigger] front[i]).id)
            && w[front[i].id] == front[i].bytes by {
            assert(front[i] == puts[i]);
        }
        lemma_puts_held(m, front, w);
        assert(puts[puts.len() - 1] == puts.last());
        let x = apply::with_puts(m, puts);
        assert forall|k: Seq<u8>| #[trigger] x.dom().contains(k) implies w.dom().contains(k) && x[k]
            == w[k] by {
            if k != puts.last().id {
                assert(apply::with_puts(m, front).dom().contains(k));
            }
        }
    }
}

/// The values of a batch.
pub proof fn lemma_values_agree(w: BlockMap, edits: Seq<(Vec<u8>, Edit)>, n: nat)
    requires
        apply::values_held(w, edits),
        n <= edits.len(),
    ensures
        build::agrees(w, apply::value_puts(edits, n)),
    decreases n,
{
    if n > 0 {
        lemma_values_agree(w, edits, (n - 1) as nat);
        let e = edits[n - 1];
        let front = apply::value_puts(edits, (n - 1) as nat);
        if let Some(p) = apply::value_of(e) {
            let all = front.push(p);
            assert forall|i: int| 0 <= i < all.len() implies w.contains_key((#[trigger] all[i]).id)
                && w[all[i].id] == all[i].bytes by {
                if i < front.len() {
                    assert(all[i] == front[i]);
                }
            }
        }
    }
}

/// A batch that is not refused.
pub proof fn lemma_batch_at(edits: Seq<(Vec<u8>, Edit)>, i: int, j: int)
    requires
        0 <= i <= j < edits.len(),
        apply::batch_error(edits, i) is None,
    ensures
        apply::edit_error(edits, j) is None,
    decreases j - i,
{
    if i < j {
        lemma_batch_at(edits, i + 1, j);
    }
}

/// Its rows are stored as the format says.
pub proof fn lemma_batch_proper(edits: Seq<(Vec<u8>, Edit)>, j: int)
    requires
        0 <= j < edits.len(),
        apply::batch_error(edits, 0) is None,
    ensures
        ({
            let e = apply::edit_rows(edits)[j];
            e.held is Some ==> node::leaf_verdict(e.key, e.held->Some_0) is Ok && tower::small(
                Row { key: e.key, held: e.held->Some_0 },
            )
        }),
{
    lemma_batch_at(edits, 0, j);
    assert(node::logical(Seq::<Row>::empty()) == node::HEADER);
}

/// The leaves are told what they must be told.
pub proof fn lemma_first_level(
    m: BlockMap,
    root: Seq<u8>,
    rule: Rule,
    edits: Seq<(Vec<u8>, Edit)>,
    floors: Seq<Floor>,
    w: BlockMap,
    rows: Seq<Row>,
)
    requires
        partway(m, root, rule, edits, floors, w, rows),
        floors.len() > 0,
    ensures
        floors[0].es == apply::edit_rows(edits),
        on_level(w, rule, rows, changed(rows, edits), 0, floors[0]),
{
    reveal(partway);
    reveal(apply::chain);
    reveal(on_level);
    lemma_values_agree(w, edits, edits.len());
    lemma_puts_held(m, apply::value_puts(edits, edits.len()), w);
    let es = apply::edit_rows(edits);
    assert forall|i: int| 0 <= i < es.len() && (#[trigger] es[i]).held is Some implies tower::small(
        Row { key: es[i].key, held: es[i].held->Some_0 },
    ) by {
        lemma_batch_proper(edits, i);
    }
    assert(rows.len() == 0 ==> rows =~= Seq::<Row>::empty());
}

/// The nodes of a level that was rewritten are held.
pub proof fn lemma_floor_kept(
    m: BlockMap,
    root: Seq<u8>,
    rule: Rule,
    edits: Seq<(Vec<u8>, Edit)>,
    floors: Seq<Floor>,
    w: BlockMap,
    rows: Seq<Row>,
    f: int,
)
    requires
        partway(m, root, rule, edits, floors, w, rows),
        0 <= f < floors.len(),
    ensures
        forall|x: NodeView| #[trigger] floors[f].nodes.contains(x) ==> tower::kept(w, x) && x.valid(),
        build::agrees(w, build::blocks_of(floors[f].nodes)),
{
    reveal(partway);
    let nodes = floors[f].nodes;
    assert forall|i: int| 0 <= i < nodes.len() implies #[trigger] tower::kept(w, nodes[i])
        && nodes[i].valid() by {
        assert(floors[f].nodes[i] == nodes[i]);
    }
    assert forall|x: NodeView| #[trigger] nodes.contains(x) implies tower::kept(w, x) && x.valid() by {
        let i = choose|i: int| 0 <= i < nodes.len() && nodes[i] == x;
        assert(tower::kept(w, nodes[i]));
    }
    assert forall|i: int| 0 <= i < nodes.len() implies w.contains_key(
        (#[trigger] build::blocks_of(nodes)[i]).id,
    ) && w[build::blocks_of(nodes)[i].id] == build::blocks_of(nodes)[i].bytes by {
        assert(tower::kept(w, nodes[i]));
        reveal(tower::kept);
    }
}

/// Where a level's node is among all of them.
pub proof fn lemma_floor_at(floors: Seq<Floor>, n: nat, f: int, i: int) -> (j: int)
    requires
        0 <= f < n <= floors.len(),
        0 <= i < floors[f].nodes.len(),
    ensures
        0 <= j < apply::floor_nodes(floors, n).len(),
        apply::floor_nodes(floors, n)[j] == floors[f].nodes[i],
    decreases n,
{
    let front = apply::floor_nodes(floors, (n - 1) as nat);
    if f < n - 1 {
        lemma_floor_at(floors, (n - 1) as nat, f, i)
    } else {
        front.len() + i
    }
}

/// Where every node of a level was streamed, the first stretches gave all of it.
proof fn lemma_whole_to(
    w: BlockMap,
    rule: Rule,
    root: Seq<u8>,
    f: u8,
    rows: Seq<Row>,
    runs: Seq<Seq<Row>>,
    a: Seq<Slot>,
    at: Seq<int>,
    ov: BlockMap,
    es: Seq<EditRow>,
    tr: Seq<Trace>,
    k: nat,
)
    requires
        rewrote(w, rule, root, f, rows, runs, a, at, ov, es, tr),
        apply::unbroken(tr),
        k <= tr.len(),
    ensures
        splice::resume(stretches_of(at, tr), k as int) == at[apply::resumed(tr, k as int)],
        splice::spliced(runs, stretches_of(at, tr), k) == apply::node_runs(
            apply::traced_nodes(tr, k),
        ),
    decreases k,
{
    let st = stretches_of(at, tr);
    assert(mapped(w, rule, root, f, rows, runs, a, at)) by {
        reveal(rewrote);
    }
    if k == 0 {
        lemma_at_order(w, rule, root, f, rows, runs, a, at, 0, 0);
        assert(apply::node_runs(apply::traced_nodes(tr, 0)) =~= Seq::<Seq<Row>>::empty());
    } else {
        let p = k - 1;
        lemma_whole_to(w, rule, root, f, rows, runs, a, at, ov, es, tr, p as nat);
        lemma_rewrote_at(w, rule, root, f, rows, runs, a, at, ov, es, tr, p);
        let t = tr[p];
        assert(t.first == apply::resumed(tr, p));
        assert(a[t.last].opened is Ok);
        lemma_place(w, rule, root, f, rows, runs, a, at, t.last);
        let front = apply::traced_nodes(tr, p as nat);
        assert(runs.subrange(at[t.first], at[t.first]) =~= Seq::<Seq<Row>>::empty());
        assert(apply::node_runs(front + t.nodes) =~= apply::node_runs(front) + apply::node_runs(
            t.nodes,
        ));
        let s = splice::spliced(runs, st, p as nat);
        assert(s + Seq::<Seq<Row>>::empty() + st[p].out =~= s + st[p].out);
    }
}

/// Nodes that are the nodes of their rows are the nodes of their runs.
proof fn lemma_nodes_are(w: BlockMap, f: u8, nodes: Seq<NodeView>)
    requires
        forall|x: NodeView| #[trigger] nodes.contains(x) ==> x == tower::node_of(w, f, x.rows),
    ensures
        tower::nodes_of(w, f, apply::node_runs(nodes)) == nodes,
{
    let got = tower::nodes_of(w, f, apply::node_runs(nodes));
    assert forall|i: int| 0 <= i < nodes.len() implies got[i] == nodes[i] by {
        assert(nodes.contains(nodes[i]));
    }
    assert(got =~= nodes);
}

/// Where every node of a level was streamed, the new level is what came of it.
pub proof fn lemma_whole(
    w: BlockMap,
    rule: Rule,
    root: Seq<u8>,
    f: u8,
    rows: Seq<Row>,
    runs: Seq<Seq<Row>>,
    a: Seq<Slot>,
    at: Seq<int>,
    ov: BlockMap,
    es: Seq<EditRow>,
    tr: Seq<Trace>,
)
    requires
        rewrote(w, rule, root, f, rows, runs, a, at, ov, es, tr),
        apply::unbroken(tr),
        apply::resumed(tr, tr.len() as int) == a.len(),
        chunk::chunks(f, rule, edits::edited(rows, es)) == splice::respliced(
            runs,
            stretches_of(at, tr),
        ),
    ensures
        tower::level_nodes(w, rule, f, edits::edited(rows, es)) == apply::traced_nodes(
            tr,
            tr.len(),
        ),
{
    let st = stretches_of(at, tr);
    let nodes = apply::traced_nodes(tr, tr.len());
    assert(mapped(w, rule, root, f, rows, runs, a, at)) by {
        reveal(rewrote);
    }
    lemma_whole_to(w, rule, root, f, rows, runs, a, at, ov, es, tr, tr.len());
    lemma_at_order(w, rule, root, f, rows, runs, a, at, 0, 0);
    let front = splice::spliced(runs, st, tr.len());
    assert(front + runs.skip(runs.len() as int) =~= front);
    lemma_given(w, rule, root, f, rows, runs, a, at, ov, es, tr, Seq::empty());
    lemma_nodes_are(w, f, nodes);
}

/// A level of the old tree that was rewritten.
#[verifier::rlimit(60)]
#[verifier::spinoff_prover]
proof fn lemma_rewrote(
    m: BlockMap,
    root: Seq<u8>,
    rule: Rule,
    edits: Seq<(Vec<u8>, Edit)>,
    floors: Seq<Floor>,
    w: BlockMap,
    rows: Seq<Row>,
    f: int,
) -> (at: Seq<int>)
    requires
        partway(m, root, rule, edits, floors, w, rows),
        0 <= f < floors.len(),
        rows.len() > 0,
        f <= tower::top(w, rule, rows)->Some_0.level,
        on_level(w, rule, rows, changed(rows, edits), f as nat, floors[f]),
    ensures
        ({
            let x = floors[f];
            let r = tower::level_rows(w, rule, rows, f as nat);
            let runs = chunk::chunks(f as u8, rule, r);
            let a = cursor::level_of(m, root, f);
            &&& rewrote(w, rule, root, f as u8, r, runs, a, at, x.ov, x.es, x.tr)
            &&& x.nodes == apply::traced_nodes(x.tr, x.tr.len())
            &&& old_rows(w, rule, rows, f as nat) == r
            &&& x.whole <==> x.es.len() > 0 && apply::unbroken(x.tr) && apply::resumed(
                x.tr,
                x.tr.len() as int,
            ) == a.len()
            &&& apply::old_height(m, root) == tower::top(w, rule, rows)->Some_0.level
        }),
{
    reveal(partway);
    reveal(on_level);
    let x = floors[f];
    let n = tower::top(w, rule, rows)->Some_0;
    lemma_proper_fits(rows);
    lemma_old_level(w, rule, rows, f as nat);
    let r = tower::level_rows(w, rule, rows, f as nat);
    let runs = chunk::chunks(f as u8, rule, r);
    let a = cursor::level_of(m, root, f);
    tower::lemma_top_kept(w, rule, rows, 0);
    tower::lemma_kept(w, n);
    let at = expand::lemma_expand(m, w, root, f);
    assert(apply::floor_ok(m, root, rule, true, f, x)) by {
        reveal(apply::chain);
    }
    assert(mapped(w, rule, root, f as u8, r, runs, a, at)) by {
        reveal(mapped);
    }
    assert(level_honest(w, f as u8, runs)) by {
        reveal(tree_honest);
        assert(tower::level_rows(w, rule, rows, f as nat) == r);
    }
    reveal(apply::floor_ok);
    reveal(apply::rewritten);
    assert(rewrote(w, rule, root, f as u8, r, runs, a, at, x.ov, x.es, x.tr)) by {
        reveal(rewrote);
    }
    at
}

/// Rows stored as the format says fit.
pub proof fn lemma_proper_fits(rows: Seq<Row>)
    requires
        build::proper(rows),
    ensures
        tower::all_small(rows),
        node::sorted_rows(rows),
{
    assert(node::logical(Seq::<Row>::empty()) == node::HEADER);
    assert forall|i: int| 0 <= i < rows.len() implies tower::small(#[trigger] rows[i]) by {
        assert(node::leaf_verdict(rows[i].key, rows[i].held) is Ok);
    }
}

/// Where a level has one place, an edit streams it.
pub proof fn lemma_one_place_streamed(
    a: Seq<Slot>,
    f: u8,
    rule: Rule,
    ov: BlockMap,
    es: Seq<EditRow>,
    tr: Seq<Trace>,
)
    requires
        apply::traces_ok(a, f, rule, ov, es, tr, true),
        apply::taken(tr, tr.len() as int) == es.len(),
        es.len() > 0,
        a.len() == 1,
    ensures
        tr.len() == 1,
        tr[0].first == 0,
        tr[0].last == 0,
        tr[0].ended,
        tr[0].from == 0,
        tr[0].to == es.len(),
        apply::unbroken(tr),
        apply::resumed(tr, tr.len() as int) == a.len(),
        apply::run_ok(a, f, rule, ov, es, tr[0]),
{
    reveal(apply::run_ok);
    assert(tr.len() > 0);
    lemma_trace_at(a, f, rule, ov, es, tr, 0);
    assert(apply::run_ok(a, f, rule, ov, es, tr[0]));
    if tr.len() > 1 {
        lemma_trace_at(a, f, rule, ov, es, tr, 1);
        assert(apply::run_ok(a, f, rule, ov, es, tr[1]));
        assert(apply::resumed(tr, 1) == 1);
    }
}

/// What holds of a level after the change: its rows ascend and fit, every node is held,
/// and where all of it was streamed it is what came of it.
#[verifier::opaque]
pub open spec fn level_done(w: BlockMap, rule: Rule, next: Seq<Row>, f: nat, x: Floor) -> bool {
    let r = tower::level_rows(w, rule, next, f);
    let ns = new_level(w, rule, next, f);
    &&& node::sorted_rows(r)
    &&& tower::all_small(r)
    &&& forall|i: int| 0 <= i < ns.len() ==> tower::kept(w, #[trigger] ns[i])
    &&& node::sorted_rows(tower::child_rows(ns))
    &&& x.whole ==> ns == x.nodes
}

/// A level the old tree has.
#[verifier::rlimit(60)]
#[verifier::spinoff_prover]
pub proof fn lemma_low_level(
    m: BlockMap,
    root: Seq<u8>,
    rule: Rule,
    edits: Seq<(Vec<u8>, Edit)>,
    floors: Seq<Floor>,
    w: BlockMap,
    rows: Seq<Row>,
    f: int,
)
    requires
        partway(m, root, rule, edits, floors, w, rows),
        0 <= f < floors.len(),
        rows.len() > 0,
        f <= tower::top(w, rule, rows)->Some_0.level,
        on_level(w, rule, rows, changed(rows, edits), f as nat, floors[f]),
    ensures
        ({
            let x = floors[f];
            let next = changed(rows, edits);
            let h = tower::top(w, rule, rows)->Some_0.level;
            &&& level_done(w, rule, next, f as nat, x)
            &&& swapped(
                w,
                new_level(w, rule, rows, f as nat),
                new_level(w, rule, next, f as nat),
                apply::was_at(m, root, f, x),
                x.nodes,
            )
            &&& f == h && x.es.len() > 0 ==> x.whole
            &&& x.es.len() == 0 ==> new_level(w, rule, next, f as nat) == new_level(
                w,
                rule,
                rows,
                f as nat,
            )
            &&& apply::old_height(m, root) == h
        }),
{
    let x = floors[f];
    let next = changed(rows, edits);
    let at = lemma_rewrote(m, root, rule, edits, floors, w, rows, f);
    let r = tower::level_rows(w, rule, rows, f as nat);
    let lv = f as u8;
    let runs = chunk::chunks(lv, rule, r);
    let a = cursor::level_of(m, root, f);
    lemma_floor_kept(m, root, rule, edits, floors, w, rows, f);
    lemma_new_level(w, rule, root, lv, r, runs, a, at, x.ov, x.es, x.tr);
    let new_rows = edits::edited(r, x.es);
    assert(new_rows == tower::level_rows(w, rule, next, f as nat)) by {
        reveal(on_level);
    }
    let ns = new_level(w, rule, next, f as nat);
    if x.whole {
        lemma_whole(w, rule, root, lv, r, runs, a, at, x.ov, x.es, x.tr);
    }
    let h = tower::top(w, rule, rows)->Some_0.level;
    if f == h && x.es.len() > 0 {
        assert(store::loaded(m, root) is Ok) by {
            reveal(partway);
        }
        assert(a =~= seq![tree::root_slot(m, root)]);
        assert(apply::traces_ok(a, lv, rule, x.ov, x.es, x.tr, true) && apply::taken(
            x.tr,
            x.tr.len() as int,
        ) == x.es.len()) by {
            reveal(rewrote);
        }
        lemma_one_place_streamed(a, lv, rule, x.ov, x.es, x.tr);
    }
    assert(level_done(w, rule, next, f as nat, x)) by {
        reveal(level_done);
        reveal(swapped);
    }
}

/// A level that is built anew.
proof fn lemma_fresh_level(
    m: BlockMap,
    root: Seq<u8>,
    rule: Rule,
    edits: Seq<(Vec<u8>, Edit)>,
    floors: Seq<Floor>,
    w: BlockMap,
    rows: Seq<Row>,
    f: int,
)
    requires
        partway(m, root, rule, edits, floors, w, rows),
        0 <= f < floors.len(),
        on_level(w, rule, rows, changed(rows, edits), f as nat, floors[f]),
        old_rows(w, rule, rows, f as nat) == Seq::<Row>::empty(),
        edits::sorted_edits(floors[f].es),
        apply::node_runs(floors[f].nodes) == chunk::chunks(
            f as u8,
            rule,
            edits::edited(Seq::empty(), floors[f].es),
        ),
        forall|y: NodeView|
            #[trigger] floors[f].nodes.contains(y) ==> y == tower::node_of(w, f as u8, y.rows),
    ensures
        level_done(w, rule, changed(rows, edits), f as nat, floors[f]),
        new_level(w, rule, changed(rows, edits), f as nat) == floors[f].nodes,
{
    let x = floors[f];
    let next = changed(rows, edits);
    let lv = f as u8;
    let none = Seq::<Row>::empty();
    let r = edits::edited(none, x.es);
    assert(r == tower::level_rows(w, rule, next, f as nat) && splice::small_edits(x.es)) by {
        reveal(on_level);
    }
    edits::lemma_edited_sorted(none, x.es);
    splice::lemma_edited_small(none, x.es);
    let runs = chunk::chunks(lv, rule, r);
    lemma_nodes_are(w, lv, x.nodes);
    let ns = new_level(w, rule, next, f as nat);
    assert(ns == x.nodes);
    lemma_floor_kept(m, root, rule, edits, floors, w, rows, f);
    assert forall|i: int| 0 <= i < ns.len() implies tower::kept(w, #[trigger] ns[i]) by {
        assert(x.nodes.contains(x.nodes[i]));
    }
    tower::lemma_chunks(lv, rule, r);
    tower::lemma_ordered(w, lv, r, runs);
    assert(level_done(w, rule, next, f as nat, x)) by {
        reveal(level_done);
    }
}

/// A level above the old root.
pub proof fn lemma_high_level(
    m: BlockMap,
    root: Seq<u8>,
    rule: Rule,
    edits: Seq<(Vec<u8>, Edit)>,
    floors: Seq<Floor>,
    w: BlockMap,
    rows: Seq<Row>,
    f: int,
)
    requires
        partway(m, root, rule, edits, floors, w, rows),
        0 < f < floors.len(),
        f > apply::old_height(m, root),
        on_level(w, rule, rows, changed(rows, edits), f as nat, floors[f]),
        old_rows(w, rule, rows, f as nat) == Seq::<Row>::empty(),
    ensures
        level_done(w, rule, changed(rows, edits), f as nat, floors[f]),
        new_level(w, rule, changed(rows, edits), f as nat) == floors[f].nodes,
        floors[f].whole,
        floors[f].tr.len() == 0,
{
    let x = floors[f];
    assert(apply::floor_ok(m, root, rule, true, f, x) && x.es.len() > 0) by {
        reveal(partway);
        reveal(apply::chain);
        assert(floors[f - 1 + 1] == x);
        let y = floors[f - 1];
    }
    reveal(apply::floor_ok);
    reveal(apply::raised);
    let none = Seq::<Known>::empty();
    assert(index_true(w, f as u8 == 0, none)) by {
        reveal(index_true);
    }
    assert(x.ov.submap_of(w)) by {
        reveal(on_level);
    }
    assert forall|y: NodeView| #[trigger] x.nodes.contains(y) implies y == tower::node_of(
        w,
        f as u8,
        y.rows,
    ) by {
        let i = choose|i: int| 0 <= i < x.nodes.len() && x.nodes[i] == y;
        assert(apply::closed_with(x.ov, none, f as u8, x.nodes[i]));
        lemma_closed_truly(x.ov, w, none, f as u8, y);
    }
    lemma_fresh_level(m, root, rule, edits, floors, w, rows, f);
}

/// The empty tree.
pub proof fn lemma_empty_tree(
    m: BlockMap,
    root: Seq<u8>,
    rule: Rule,
    edits: Seq<(Vec<u8>, Edit)>,
    floors: Seq<Floor>,
    w: BlockMap,
    rows: Seq<Row>,
)
    requires
        partway(m, root, rule, edits, floors, w, rows),
        rows.len() == 0,
    ensures
        root == chunk::node_id(chunk::empty_node()),
        tower::kept(w, chunk::empty_node()),
        store::loaded(m, root) == Ok::<NodeView, Fault>(chunk::empty_node()),
        apply::old_height(m, root) == 0,
        cursor::level_of(m, root, 0) == seq![tree::root_slot(m, root)],
{
    reveal(partway);
    assert(chunk::chunks(0, rule, rows) =~= Seq::<Seq<Row>>::empty());
    let n = tower::top(w, rule, rows)->Some_0;
    assert(n == chunk::empty_node());
    tower::lemma_top_kept(w, rule, rows, 0);
    tower::lemma_kept(w, n);
    assert(store::loaded(w, root) == store::loaded(m, root)) by {
        reveal(store::loaded);
        assert(m.dom().contains(root));
        assert(w.dom().contains(root));
    }
    assert(cursor::level_of(m, root, 0) =~= seq![tree::root_slot(m, root)]);
}

/// The leaves over an empty tree.
#[verifier::rlimit(60)]
#[verifier::spinoff_prover]
pub proof fn lemma_empty_level(
    m: BlockMap,
    root: Seq<u8>,
    rule: Rule,
    edits: Seq<(Vec<u8>, Edit)>,
    floors: Seq<Floor>,
    w: BlockMap,
    rows: Seq<Row>,
)
    requires
        partway(m, root, rule, edits, floors, w, rows),
        rows.len() == 0,
        floors.len() > 0,
        on_level(w, rule, rows, changed(rows, edits), 0, floors[0]),
    ensures
        level_done(w, rule, changed(rows, edits), 0, floors[0]),
        new_level(w, rule, changed(rows, edits), 0) == floors[0].nodes,
        floors[0].es.len() > 0 ==> floors[0].whole,
        floors[0].es.len() == 0 ==> floors[0].nodes.len() == 0,
{
    let x = floors[0];
    lemma_empty_tree(m, root, rule, edits, floors, w, rows);
    let a = cursor::level_of(m, root, 0);
    assert(apply::floor_ok(m, root, rule, true, 0, x)) by {
        reveal(partway);
        reveal(apply::chain);
    }
    reveal(apply::floor_ok);
    reveal(apply::rewritten);
    let none = Seq::<Row>::empty();
    let es = x.es;
    if es.len() == 0 {
        if x.tr.len() > 0 {
            lemma_no_edit_no_trace(a, rule, x.ov, es, x.tr);
        }
        assert(x.nodes =~= Seq::<NodeView>::empty());
        assert(edits::edited(none, es) =~= none);
        assert(chunk::chunks(0, rule, none) =~= Seq::<Seq<Row>>::empty());
        assert(apply::node_runs(x.nodes) =~= Seq::<Seq<Row>>::empty());
        lemma_fresh_level(m, root, rule, edits, floors, w, rows, 0);
    } else {
        lemma_one_place_streamed(a, 0, rule, x.ov, es, x.tr);
        reveal(apply::run_ok);
        let t = x.tr[0];
        assert(apply::traced_nodes(x.tr, 0) =~= Seq::<NodeView>::empty());
        reveal_with_fuel(apply::traced_nodes, 2);
        assert(x.nodes =~= t.nodes);
        let s = apply::slot_runs(a, 0, 1);
        assert(s =~= seq![none]);
        assert(tower::joined(s) =~= none) by {
            reveal_with_fuel(tower::joined, 2);
            assert(s.drop_last() =~= Seq::<Seq<Row>>::empty());
        }
        assert(es.subrange(0, es.len() as int) =~= es);
        let known = apply::known_at(a, 0, 1);
        assert(index_true(w, true, known)) by {
            reveal_with_fuel(apply::known_at, 2);
            parity::lemma_groups_len(0, none, 4);
            assert(known =~= Seq::<Known>::empty());
            reveal(index_true);
        }
        assert(x.ov.submap_of(w)) by {
            reveal(on_level);
        }
        assert forall|y: NodeView| #[trigger] x.nodes.contains(y) implies y == tower::node_of(
            w,
            0,
            y.rows,
        ) by {
            let i = choose|i: int| 0 <= i < t.nodes.len() && t.nodes[i] == y;
            assert(apply::closed_with(x.ov, known, 0, t.nodes[i]));
            lemma_closed_truly(x.ov, w, known, 0, y);
        }
        lemma_fresh_level(m, root, rule, edits, floors, w, rows, 0);
    }
}

/// Without edits nothing is streamed from an only leaf with nothing in it.
proof fn lemma_no_edit_no_trace(
    a: Seq<Slot>,
    rule: Rule,
    ov: BlockMap,
    es: Seq<EditRow>,
    tr: Seq<Trace>,
)
    requires
        apply::traces_ok(a, 0, rule, ov, es, tr, true),
        tr.len() > 0,
        es.len() == 0,
        a.len() == 1,
        apply::rows_at(a[0]) == Seq::<Row>::empty(),
    ensures
        apply::traced_nodes(tr, tr.len()) == Seq::<NodeView>::empty(),
{
    reveal(apply::run_ok);
    lemma_trace_at(a, 0, rule, ov, es, tr, 0);
    assert(apply::run_ok(a, 0, rule, ov, es, tr[0]));
    if tr.len() > 1 {
        lemma_trace_at(a, 0, rule, ov, es, tr, 1);
        assert(apply::run_ok(a, 0, rule, ov, es, tr[1]));
        assert(apply::resumed(tr, 1) == 1);
    }
    let none = Seq::<Row>::empty();
    let s = apply::slot_runs(a, 0, 1);
    assert(s =~= seq![none]);
    assert(tower::joined(s) =~= none) by {
        reveal_with_fuel(tower::joined, 2);
        assert(s.drop_last() =~= Seq::<Seq<Row>>::empty());
    }
    assert(chunk::chunks(0, rule, none) =~= Seq::<Seq<Row>>::empty());
    assert(apply::node_runs(tr[0].nodes).len() == tr[0].nodes.len());
    reveal_with_fuel(apply::traced_nodes, 2);
    assert(apply::traced_nodes(tr, 1) =~= Seq::<NodeView>::empty());
}

/// Edits that came from below fit.
proof fn lemma_up_small(
    was: Seq<Slot>,
    nodes: Seq<NodeView>,
    growing: bool,
    es: Seq<EditRow>,
)
    requires
        edits::sorted_edits(es),
        forall|k: Seq<u8>| #[trigger] edits::edit_at(es, k) == apply::up_at(was, nodes, growing, k),
        forall|x: NodeView| #[trigger] nodes.contains(x) ==> x.valid(),
    ensures
        splice::small_edits(es),
{
    assert forall|i: int| 0 <= i < es.len() && (#[trigger] es[i]).held is Some implies tower::small(
        Row { key: es[i].key, held: es[i].held->Some_0 },
    ) by {
        let k = es[i].key;
        edits::lemma_edit_is(es, i);
        assert(edits::edit_at(es, k) == apply::up_at(was, nodes, growing, k));
        let j = lemma_sent(was, nodes, growing, nodes.len(), k);
        assert(nodes.contains(nodes[j]));
        tower::lemma_child_small(nodes[j]);
        assert(chunk::child_row(nodes[j]) == (Row { key: k, held: es[i].held->Some_0 }));
    }
}

/// What is known of a level and the one above.
pub proof fn lemma_link(
    m: BlockMap,
    root: Seq<u8>,
    rule: Rule,
    edits: Seq<(Vec<u8>, Edit)>,
    floors: Seq<Floor>,
    w: BlockMap,
    rows: Seq<Row>,
    f: int,
)
    requires
        partway(m, root, rule, edits, floors, w, rows),
        0 <= f < floors.len(),
    ensures
        f <= 255,
        edits::sorted_edits(floors[f].es),
        f > 0 ==> floors[f].es.len() > 0,
        f + 1 < floors.len() ==> {
            &&& apply::tells(m, root, f, floors[f], floors[f + 1].es)
            &&& floors[f + 1].ov == apply::with_puts(
                floors[f].ov,
                build::blocks_of(floors[f].nodes),
            )
            &&& !apply::is_top(floors[f])
        },
{
    reveal(partway);
    reveal(apply::chain);
    assert(apply::floor_ok(m, root, rule, true, f, floors[f]));
    reveal(apply::floor_ok);
    if f > 0 {
        let y = floors[f - 1];
        assert(floors[f - 1 + 1].es.len() > 0);
    }
}

/// The old tree's levels hold as many rows as there are nodes below.
proof fn lemma_next_old(w: BlockMap, rule: Rule, rows: Seq<Row>, f: nat)
    requires
        rows.len() > 0,
        f < tower::top(w, rule, rows)->Some_0.level,
    ensures
        old_rows(w, rule, rows, f + 1) == tower::child_rows(new_level(w, rule, rows, f)),
{
}

/// Without edits nothing goes up.
pub proof fn lemma_nothing_up(
    m: BlockMap,
    root: Seq<u8>,
    rule: Rule,
    edits: Seq<(Vec<u8>, Edit)>,
    floors: Seq<Floor>,
    w: BlockMap,
    rows: Seq<Row>,
    f: int,
    up: Seq<EditRow>,
)
    requires
        partway(m, root, rule, edits, floors, w, rows),
        0 <= f < floors.len(),
        floors[f].es.len() == 0,
        apply::tells(m, root, f, floors[f], up),
    ensures
        up.len() == 0,
        floors[f].nodes.len() == 0,
{
    let x = floors[f];
    assert(apply::floor_ok(m, root, rule, true, f, x)) by {
        reveal(partway);
        reveal(apply::chain);
    }
    reveal(apply::floor_ok);
    reveal(apply::rewritten);
    reveal(apply::tells);
    assert(x.nodes.len() == 0);
    let was = apply::was_at(m, root, f, x);
    assert(was.len() == 0);
    if up.len() > 0 {
        edits::lemma_edit_is(up, 0);
        assert(edits::edit_at(up, up[0].key) == apply::up_at(
            was,
            x.nodes,
            apply::grows_at(m, root, f, x),
            up[0].key,
        ));
    }
}

/// The edits of the level above fit.
proof fn lemma_next_small(
    m: BlockMap,
    root: Seq<u8>,
    rule: Rule,
    edits: Seq<(Vec<u8>, Edit)>,
    floors: Seq<Floor>,
    w: BlockMap,
    rows: Seq<Row>,
    f: int,
)
    requires
        partway(m, root, rule, edits, floors, w, rows),
        0 <= f,
        f + 1 < floors.len(),
    ensures
        splice::small_edits(floors[f + 1].es),
{
    let x = floors[f];
    lemma_link(m, root, rule, edits, floors, w, rows, f);
    lemma_floor_kept(m, root, rule, edits, floors, w, rows, f);
    reveal(apply::tells);
    lemma_up_small(
        apply::was_at(m, root, f, x),
        x.nodes,
        apply::grows_at(m, root, f, x),
        floors[f + 1].es,
    );
}

/// The store the level above reads is part of the whole.
proof fn lemma_next_store(
    m: BlockMap,
    root: Seq<u8>,
    rule: Rule,
    edits: Seq<(Vec<u8>, Edit)>,
    floors: Seq<Floor>,
    w: BlockMap,
    rows: Seq<Row>,
    f: int,
)
    requires
        partway(m, root, rule, edits, floors, w, rows),
        0 <= f,
        f + 1 < floors.len(),
        floors[f].ov.submap_of(w),
    ensures
        floors[f + 1].ov.submap_of(w),
{
    lemma_link(m, root, rule, edits, floors, w, rows, f);
    lemma_floor_kept(m, root, rule, edits, floors, w, rows, f);
    lemma_puts_held(floors[f].ov, build::blocks_of(floors[f].nodes), w);
}

/// A level that takes up what the one below says is told what it must be told.
proof fn lemma_next_level(
    m: BlockMap,
    root: Seq<u8>,
    rule: Rule,
    edits: Seq<(Vec<u8>, Edit)>,
    floors: Seq<Floor>,
    w: BlockMap,
    rows: Seq<Row>,
    f: int,
)
    requires
        partway(m, root, rule, edits, floors, w, rows),
        0 <= f,
        f + 1 < floors.len(),
        on_level(w, rule, rows, changed(rows, edits), f as nat, floors[f]),
    ensures
        on_level(w, rule, rows, changed(rows, edits), (f + 1) as nat, floors[f + 1]),
{
    let x = floors[f];
    let next = changed(rows, edits);
    let up = floors[f + 1].es;
    lemma_link(m, root, rule, edits, floors, w, rows, f);
    lemma_link(m, root, rule, edits, floors, w, rows, f + 1);
    if x.es.len() == 0 {
        lemma_nothing_up(m, root, rule, edits, floors, w, rows, f, up);
    }
    lemma_next_small(m, root, rule, edits, floors, w, rows, f);
    assert(x.ov.submap_of(w)) by {
        reveal(on_level);
    }
    lemma_next_store(m, root, rule, edits, floors, w, rows, f);
    lemma_up_rows(m, root, rule, edits, floors, w, rows, f, up);
    assert(tower::level_rows(w, rule, next, (f + 1) as nat) == tower::child_rows(
        new_level(w, rule, next, f as nat),
    ));
    assert(on_level(w, rule, rows, next, (f + 1) as nat, floors[f + 1])) by {
        reveal(on_level);
    }
}

/// The rows of the level above, edited as it is told, are those over the new nodes.
#[verifier::rlimit(60)]
#[verifier::spinoff_prover]
pub proof fn lemma_up_rows(
    m: BlockMap,
    root: Seq<u8>,
    rule: Rule,
    edits: Seq<(Vec<u8>, Edit)>,
    floors: Seq<Floor>,
    w: BlockMap,
    rows: Seq<Row>,
    f: int,
    up: Seq<EditRow>,
)
    requires
        partway(m, root, rule, edits, floors, w, rows),
        0 <= f < floors.len(),
        on_level(w, rule, rows, changed(rows, edits), f as nat, floors[f]),
        apply::tells(m, root, f, floors[f], up),
        !apply::is_top(floors[f]),
        rows.len() == 0 || f >= tower::top(w, rule, rows)->Some_0.level ==> floors[f].es.len() > 0,
    ensures
        edits::edited(old_rows(w, rule, rows, (f + 1) as nat), up) == tower::child_rows(
            new_level(w, rule, changed(rows, edits), f as nat),
        ),
        rows.len() == 0 || f >= tower::top(w, rule, rows)->Some_0.level ==> up.len() > 0,
{
    let x = floors[f];
    let next = changed(rows, edits);
    let was = apply::was_at(m, root, f, x);
    let growing = apply::grows_at(m, root, f, x);
    let ns = new_level(w, rule, next, f as nat);
    assert(edits::sorted_edits(up) && forall|k: Seq<u8>|
        #[trigger] edits::edit_at(up, k) == apply::up_at(was, x.nodes, growing, k)) by {
        reveal(apply::tells);
    }
    let h = tower::top(w, rule, rows)->Some_0.level;
    if rows.len() > 0 && f <= h {
        lemma_low_level(m, root, rule, edits, floors, w, rows, f);
        if f < h {
            lemma_next_old(w, rule, rows, f as nat);
            lemma_told(w, new_level(w, rule, rows, f as nat), ns, was, x.nodes, up);
        } else {
            assert(ns == x.nodes && node::sorted_rows(tower::child_rows(ns))) by {
                reveal(level_done);
            }
            lemma_told_all(was, x.nodes, growing, up);
        }
    } else {
        if rows.len() == 0 {
            lemma_empty_tree(m, root, rule, edits, floors, w, rows);
            assert(h == 0) by {
                reveal(partway);
                assert(chunk::chunks(0, rule, rows) =~= Seq::<Seq<Row>>::empty());
            }
        } else {
            lemma_height(m, root, rule, edits, floors, w, rows);
        }
        if rows.len() == 0 && f == 0 {
            lemma_empty_level(m, root, rule, edits, floors, w, rows);
        } else {
            lemma_high_level(m, root, rule, edits, floors, w, rows, f);
            assert(was =~= Seq::<Slot>::empty());
        }
        assert(node::sorted_rows(tower::child_rows(ns))) by {
            reveal(level_done);
        }
        lemma_told_all(was, x.nodes, growing, up);
    }
}

/// How tall the old tree is.
pub proof fn lemma_height(
    m: BlockMap,
    root: Seq<u8>,
    rule: Rule,
    edits: Seq<(Vec<u8>, Edit)>,
    floors: Seq<Floor>,
    w: BlockMap,
    rows: Seq<Row>,
)
    requires
        partway(m, root, rule, edits, floors, w, rows),
    ensures
        apply::old_height(m, root) == tower::top(w, rule, rows)->Some_0.level,
        store::loaded(w, root) == Ok::<NodeView, Fault>(tower::top(w, rule, rows)->Some_0),
{
    reveal(partway);
    let n = tower::top(w, rule, rows)->Some_0;
    tower::lemma_top_kept(w, rule, rows, 0);
    tower::lemma_kept(w, n);
    assert(store::loaded(w, root) == store::loaded(m, root)) by {
        reveal(store::loaded);
        assert(m.dom().contains(root));
        assert(w.dom().contains(root));
    }
}

/// Every level is told what it must be told.
pub proof fn lemma_on_level(
    m: BlockMap,
    root: Seq<u8>,
    rule: Rule,
    edits: Seq<(Vec<u8>, Edit)>,
    floors: Seq<Floor>,
    w: BlockMap,
    rows: Seq<Row>,
    f: int,
)
    requires
        partway(m, root, rule, edits, floors, w, rows),
        0 <= f < floors.len(),
    ensures
        on_level(w, rule, rows, changed(rows, edits), f as nat, floors[f]),
    decreases f,
{
    if f == 0 {
        lemma_first_level(m, root, rule, edits, floors, w, rows);
    } else {
        lemma_on_level(m, root, rule, edits, floors, w, rows, f - 1);
        lemma_next_level(m, root, rule, edits, floors, w, rows, f - 1);
    }
}

/// Every level is done, one node or many.
pub proof fn lemma_level_done(
    m: BlockMap,
    root: Seq<u8>,
    rule: Rule,
    edits: Seq<(Vec<u8>, Edit)>,
    floors: Seq<Floor>,
    w: BlockMap,
    rows: Seq<Row>,
    f: int,
)
    requires
        partway(m, root, rule, edits, floors, w, rows),
        0 <= f < floors.len(),
    ensures
        level_done(w, rule, changed(rows, edits), f as nat, floors[f]),
{
    lemma_on_level(m, root, rule, edits, floors, w, rows, f);
    lemma_height(m, root, rule, edits, floors, w, rows);
    if rows.len() > 0 && f <= tower::top(w, rule, rows)->Some_0.level {
        lemma_low_level(m, root, rule, edits, floors, w, rows, f);
    } else if rows.len() == 0 && f == 0 {
        lemma_empty_level(m, root, rule, edits, floors, w, rows);
    } else {
        if rows.len() == 0 {
            lemma_empty_tree(m, root, rule, edits, floors, w, rows);
        }
        lemma_high_level(m, root, rule, edits, floors, w, rows, f);
    }
}

/// What came of the first `k` stretches.
spec fn outs(st: Seq<Stretch>, k: nat) -> Seq<Seq<Row>>
    decreases k,
{
    if k == 0 {
        Seq::empty()
    } else {
        outs(st, (k - 1) as nat) + st[k - 1].out
    }
}

/// Where a run of what came of them stands on the level that was cut anew.
spec fn out_at(c: Seq<Seq<Row>>, st: Seq<Stretch>, k: nat, x: int) -> int
    decreases k,
{
    if k == 0 {
        0
    } else {
        let p = outs(st, (k - 1) as nat).len();
        if x < p {
            out_at(c, st, (k - 1) as nat, x)
        } else {
            splice::spliced(c, st, k).len() - st[k - 1].out.len() + (x - p)
        }
    }
}

proof fn lemma_out_at(c: Seq<Seq<Row>>, st: Seq<Stretch>, k: nat, x: int)
    requires
        k <= st.len(),
        0 <= x < outs(st, k).len(),
    ensures
        0 <= out_at(c, st, k, x) < splice::spliced(c, st, k).len(),
        splice::spliced(c, st, k)[out_at(c, st, k, x)] == outs(st, k)[x],
    decreases k,
{
    let j = (k - 1) as nat;
    if x < outs(st, j).len() {
        lemma_out_at(c, st, j, x);
    }
}

proof fn lemma_out_order(c: Seq<Seq<Row>>, st: Seq<Stretch>, k: nat, x: int, y: int)
    requires
        k <= st.len(),
        0 <= x < y < outs(st, k).len(),
    ensures
        out_at(c, st, k, x) < out_at(c, st, k, y),
    decreases k,
{
    let j = (k - 1) as nat;
    if y < outs(st, j).len() {
        lemma_out_order(c, st, j, x, y);
    } else if x < outs(st, j).len() {
        lemma_out_at(c, st, j, x);
    }
}

proof fn lemma_outs(at: Seq<int>, tr: Seq<Trace>, k: nat)
    requires
        k <= tr.len(),
    ensures
        outs(stretches_of(at, tr), k) == apply::node_runs(apply::traced_nodes(tr, k)),
    decreases k,
{
    let st = stretches_of(at, tr);
    if k > 0 {
        let front = apply::traced_nodes(tr, (k - 1) as nat);
        let t = tr[k - 1];
        lemma_outs(at, tr, (k - 1) as nat);
        assert(st[k - 1].out == apply::node_runs(t.nodes));
        assert(apply::node_runs(front + t.nodes) =~= apply::node_runs(front) + apply::node_runs(
            t.nodes,
        ));
    } else {
        assert(apply::node_runs(apply::traced_nodes(tr, 0)) =~= Seq::<Seq<Row>>::empty());
    }
}

/// The nodes of a level are closed in key order.
#[verifier::rlimit(60)]
#[verifier::spinoff_prover]
pub proof fn lemma_nodes_ascend(
    m: BlockMap,
    root: Seq<u8>,
    rule: Rule,
    edits: Seq<(Vec<u8>, Edit)>,
    floors: Seq<Floor>,
    w: BlockMap,
    rows: Seq<Row>,
    f: int,
)
    requires
        partway(m, root, rule, edits, floors, w, rows),
        0 <= f < floors.len(),
    ensures
        node::sorted_rows(tower::child_rows(floors[f].nodes)),
{
    let x = floors[f];
    let next = changed(rows, edits);
    let ns = new_level(w, rule, next, f as nat);
    lemma_level_done(m, root, rule, edits, floors, w, rows, f);
    lemma_on_level(m, root, rule, edits, floors, w, rows, f);
    lemma_height(m, root, rule, edits, floors, w, rows);
    reveal(level_done);
    if rows.len() > 0 && f <= tower::top(w, rule, rows)->Some_0.level {
        let at = lemma_rewrote(m, root, rule, edits, floors, w, rows, f);
        let r = tower::level_rows(w, rule, rows, f as nat);
        let lv = f as u8;
        let runs = chunk::chunks(lv, rule, r);
        let a = cursor::level_of(m, root, f);
        let st = stretches_of(at, x.tr);
        lemma_floor_kept(m, root, rule, edits, floors, w, rows, f);
        lemma_new_level(w, rule, root, lv, r, runs, a, at, x.ov, x.es, x.tr);
        assert(edits::edited(r, x.es) == tower::level_rows(w, rule, next, f as nat)) by {
            reveal(on_level);
        }
        let cut = splice::respliced(runs, st);
        let up = tower::child_rows(ns);
        let mine = tower::child_rows(x.nodes);
        lemma_outs(at, x.tr, x.tr.len());
        assert forall|i: int, j: int| 0 <= i < j < mine.len() implies order::lt(
            (#[trigger] mine[i]).key,
            (#[trigger] mine[j]).key,
        ) by {
            lemma_out_at(runs, st, st.len(), i);
            lemma_out_at(runs, st, st.len(), j);
            lemma_out_order(runs, st, st.len(), i, j);
            let p = out_at(runs, st, st.len(), i);
            let q = out_at(runs, st, st.len(), j);
            assert(cut[p] == x.nodes[i].rows && cut[q] == x.nodes[j].rows);
            assert(ns[p].rows == cut[p] && ns[q].rows == cut[q]);
            assert(order::lt(up[p].key, up[q].key));
        }
    } else if rows.len() == 0 && f == 0 {
        lemma_empty_level(m, root, rule, edits, floors, w, rows);
    } else {
        if rows.len() == 0 {
            lemma_empty_tree(m, root, rule, edits, floors, w, rows);
        }
        lemma_high_level(m, root, rule, edits, floors, w, rows, f);
    }
}

// ---------------------------------------------------------------------------
// the root
// ---------------------------------------------------------------------------

/// One row that fits is one run.
proof fn lemma_one_run(level: u8, rule: Rule, row: Row)
    requires
        tower::small(row),
    ensures
        chunk::chunks(level, rule, seq![row]) == seq![seq![row]],
{
    let rows = seq![row];
    assert(rows.drop_last() =~= Seq::<Row>::empty());
    reveal_with_fuel(chunk::cut_from, 2);
    assert(Seq::<Row>::empty().push(row) =~= rows);
    assert(chunk::chunks(level, rule, rows) =~= seq![seq![row]]);
}

/// What is known of the nodes of a level.
pub proof fn lemma_level_node(w: BlockMap, rule: Rule, next: Seq<Row>, f: nat, x: Floor)
    requires
        level_done(w, rule, next, f, x),
    ensures
        ({
            let ns = new_level(w, rule, next, f);
            let r = tower::level_rows(w, rule, next, f);
            &&& ns.len() == 0 <==> r.len() == 0
            &&& ns.len() == 1 ==> ns[0].rows == r && ns[0].level == f as u8 && store::loaded(
                w,
                chunk::node_id(ns[0]),
            ) == Ok::<NodeView, Fault>(ns[0])
            &&& tower::child_rows(ns).len() == ns.len()
            &&& tower::all_small(tower::child_rows(ns))
        }),
{
    reveal(level_done);
    let ns = new_level(w, rule, next, f);
    let r = tower::level_rows(w, rule, next, f);
    let runs = chunk::chunks(f as u8, rule, r);
    tower::lemma_chunks(f as u8, rule, r);
    if runs.len() == 0 {
        assert(tower::joined(runs) =~= Seq::<Row>::empty());
    }
    if r.len() == 0 {
        if runs.len() > 0 {
            splice::lemma_first_row(runs);
        }
    }
    if runs.len() == 1 {
        assert(runs.drop_last() =~= Seq::<Seq<Row>>::empty());
        reveal_with_fuel(tower::joined, 2);
        assert(tower::joined(runs) =~= runs[0]);
        assert(tower::kept(w, ns[0]));
        tower::lemma_kept(w, ns[0]);
    }
    tower::lemma_children_small(w, ns);
}

/// Over one node there is one node.
pub proof fn lemma_single(w: BlockMap, rule: Rule, next: Seq<Row>, f: nat, x: Floor)
    requires
        level_done(w, rule, next, f, x),
        f < 255,
    ensures
        ({
            let ns = new_level(w, rule, next, f);
            let up = new_level(w, rule, next, f + 1);
            &&& ns.len() == 1 ==> up.len() == 1 && up[0].rows == seq![chunk::child_row(ns[0])]
            &&& ns.len() == 0 ==> up.len() == 0
        }),
{
    lemma_level_node(w, rule, next, f, x);
    let ns = new_level(w, rule, next, f);
    let r = tower::level_rows(w, rule, next, f + 1);
    assert(r == tower::child_rows(ns));
    if ns.len() == 1 {
        let row = chunk::child_row(ns[0]);
        assert(r =~= seq![row]);
        assert(tower::small(r[0]));
        lemma_one_run((f + 1) as u8, rule, row);
    } else if ns.len() == 0 {
        assert(r =~= Seq::<Row>::empty());
        assert(chunk::chunks((f + 1) as u8, rule, r) =~= Seq::<Seq<Row>>::empty());
    }
}

/// One node, or none, on a level: as many on every level above.
pub proof fn lemma_single_up(
    m: BlockMap,
    root: Seq<u8>,
    rule: Rule,
    edits: Seq<(Vec<u8>, Edit)>,
    floors: Seq<Floor>,
    w: BlockMap,
    rows: Seq<Row>,
    f: int,
    e: int,
)
    requires
        partway(m, root, rule, edits, floors, w, rows),
        0 <= f <= e < floors.len(),
        new_level(w, rule, changed(rows, edits), f as nat).len() <= 1,
    ensures
        new_level(w, rule, changed(rows, edits), e as nat).len() == new_level(
            w,
            rule,
            changed(rows, edits),
            f as nat,
        ).len(),
    decreases e - f,
{
    if f < e {
        lemma_single_up(m, root, rule, edits, floors, w, rows, f, e - 1);
        lemma_level_done(m, root, rule, edits, floors, w, rows, e - 1);
        lemma_link(m, root, rule, edits, floors, w, rows, e);
        lemma_single(w, rule, changed(rows, edits), (e - 1) as nat, floors[e - 1]);
    }
}

/// Where the last level is not the root's, the levels above stay as they are; or
/// nothing was changed.
#[verifier::rlimit(60)]
#[verifier::spinoff_prover]
pub proof fn lemma_tail(
    m: BlockMap,
    root: Seq<u8>,
    rule: Rule,
    edits: Seq<(Vec<u8>, Edit)>,
    floors: Seq<Floor>,
    w: BlockMap,
    rows: Seq<Row>,
)
    requires
        setting(m, root, rule, edits, floors, w, rows),
        floors.len() > 0,
        !apply::is_top(floors.last()),
    ensures
        ({
            let e = floors.len() - 1;
            let h = tower::top(w, rule, rows)->Some_0.level;
            let next = changed(rows, edits);
            if rows.len() > 0 && e < h {
                &&& tower::level_rows(w, rule, next, floors.len()) == tower::level_rows(
                    w,
                    rule,
                    rows,
                    floors.len(),
                )
                &&& new_level(w, rule, next, e as nat).len() > 1
            } else {
                &&& e == 0
                &&& rows.len() > 0 ==> h == 0 && new_level(w, rule, next, 0) == new_level(
                    w,
                    rule,
                    rows,
                    0,
                ) && new_level(w, rule, next, 0).len() == 1 && new_level(w, rule, next, 0)[0]
                    == tower::top(w, rule, rows)->Some_0
                &&& rows.len() == 0 ==> new_level(w, rule, next, 0).len() == 0
            }
        }),
{
    let e = floors.len() - 1;
    let x = floors[e];
    let h = tower::top(w, rule, rows)->Some_0.level;
    let next = changed(rows, edits);
    let none = Seq::<EditRow>::empty();
    assert(apply::tells(m, root, e, x, none)) by {
        reveal(partway);
        reveal(ended);
    }
    lemma_link(m, root, rule, edits, floors, w, rows, e);
    lemma_on_level(m, root, rule, edits, floors, w, rows, e);
    assert(build::proper(rows) && tower::stands(w, rule, rows)) by {
        reveal(partway);
        reveal(ended);
    }
    lemma_proper_fits(rows);
    if rows.len() > 0 && e < h {
        lemma_up_rows(m, root, rule, edits, floors, w, rows, e, none);
        let below = tower::child_rows(new_level(w, rule, rows, e as nat));
        assert(old_rows(w, rule, rows, (e + 1) as nat) == below);
        assert(edits::edited(below, none) == below);
        lemma_old_level(w, rule, rows, e as nat);
        assert(below.len() == new_level(w, rule, rows, e as nat).len());
        assert(tower::child_rows(new_level(w, rule, next, e as nat)).len() == new_level(
            w,
            rule,
            next,
            e as nat,
        ).len());
    } else {
        if x.es.len() > 0 {
            lemma_up_rows(m, root, rule, edits, floors, w, rows, e, none);
        }
        assert(e == 0);
        if rows.len() > 0 {
            lemma_low_level(m, root, rule, edits, floors, w, rows, 0);
            lemma_old_level(w, rule, rows, 0);
        } else {
            lemma_empty_level(m, root, rule, edits, floors, w, rows);
        }
    }
}

/// The path from the tip down: as only children, in a store that holds all blocks, to
/// one that has no only child.
pub open spec fn leads(
    w: BlockMap,
    root: Seq<u8>,
    floors: Seq<Floor>,
    path: Seq<Seq<u8>>,
) -> bool {
    &&& path.len() > 0
    &&& path[0] == apply::tip(root, floors)
    &&& apply::slides(w, path)
    &&& apply::lone(w, path.last()) is None
}

/// The path starts at the only node of the last level.
#[verifier::rlimit(60)]
#[verifier::spinoff_prover]
pub proof fn lemma_slide_start(
    m: BlockMap,
    root: Seq<u8>,
    rule: Rule,
    edits: Seq<(Vec<u8>, Edit)>,
    floors: Seq<Floor>,
    w: BlockMap,
    rows: Seq<Row>,
    path: Seq<Seq<u8>>,
)
    requires
        setting(m, root, rule, edits, floors, w, rows),
        leads(w, root, floors, path),
        floors.len() > 0,
        new_level(w, rule, changed(rows, edits), (floors.len() - 1) as nat).len() == 1,
    ensures
        path[0] == chunk::node_id(
            new_level(w, rule, changed(rows, edits), (floors.len() - 1) as nat)[0],
        ),
{
    let e = floors.len() - 1;
    lemma_level_done(m, root, rule, edits, floors, w, rows, e);
    if apply::is_top(floors[e]) {
        reveal(level_done);
    } else {
        lemma_tail(m, root, rule, edits, floors, w, rows);
        assert(rows.len() > 0);
        reveal(partway);
        reveal(ended);
    }
}

/// The path passes the only node of a level.
#[verifier::rlimit(60)]
#[verifier::spinoff_prover]
proof fn lemma_slide(
    m: BlockMap,
    root: Seq<u8>,
    rule: Rule,
    edits: Seq<(Vec<u8>, Edit)>,
    floors: Seq<Floor>,
    w: BlockMap,
    rows: Seq<Row>,
    path: Seq<Seq<u8>>,
    f: int,
) -> (i: int)
    requires
        setting(m, root, rule, edits, floors, w, rows),
        leads(w, root, floors, path),
        0 <= f < floors.len(),
        new_level(w, rule, changed(rows, edits), f as nat).len() == 1,
    ensures
        0 <= i < path.len(),
        path[i] == chunk::node_id(new_level(w, rule, changed(rows, edits), f as nat)[0]),
    decreases floors.len() - f,
{
    let next = changed(rows, edits);
    if f == floors.len() - 1 {
        lemma_slide_start(m, root, rule, edits, floors, w, rows, path);
        0
    } else {
        lemma_level_done(m, root, rule, edits, floors, w, rows, f);
        lemma_link(m, root, rule, edits, floors, w, rows, f + 1);
        lemma_single(w, rule, next, f as nat, floors[f]);
        lemma_level_done(m, root, rule, edits, floors, w, rows, f + 1);
        lemma_level_node(w, rule, next, (f + 1) as nat, floors[f + 1]);
        let i = lemma_slide(m, root, rule, edits, floors, w, rows, path, f + 1);
        let up = new_level(w, rule, next, (f + 1) as nat)[0];
        let n = new_level(w, rule, next, f as nat)[0];
        assert(store::child_cid(up.rows[0]) == chunk::node_id(n));
        assert(apply::lone(w, path[i]) == Some(chunk::node_id(n)));
        assert(i + 1 < path.len());
        assert(apply::slides_at(w, path, i));
        i + 1
    }
}

/// Where nothing is left, the root is the empty leaf.
#[verifier::rlimit(60)]
#[verifier::spinoff_prover]
pub proof fn lemma_nothing_left(
    m: BlockMap,
    root: Seq<u8>,
    rule: Rule,
    edits: Seq<(Vec<u8>, Edit)>,
    floors: Seq<Floor>,
    w: BlockMap,
    rows: Seq<Row>,
    path: Seq<Seq<u8>>,
)
    requires
        setting(m, root, rule, edits, floors, w, rows),
        leads(w, root, floors, path),
        floors.len() > 0,
        new_level(w, rule, changed(rows, edits), 0).len() == 0,
    ensures
        tower::kept(w, chunk::empty_node()),
        path.last() == chunk::node_id(chunk::empty_node()),
{
    let e = floors.len() - 1;
    let none = chunk::empty_node();
    lemma_single_up(m, root, rule, edits, floors, w, rows, 0, e);
    lemma_level_done(m, root, rule, edits, floors, w, rows, e);
    if apply::is_top(floors[e]) {
        assert(floors[e].nodes.len() == 0) by {
            reveal(level_done);
        }
        reveal(partway);
        reveal(ended);
        let all = apply::closed_nodes(floors);
        let j = all.len() - 1;
        assert(all[j] == none);
        assert(build::blocks_of(all)[j] == build::block_of(none));
        reveal(tower::kept);
    } else {
        lemma_tail(m, root, rule, edits, floors, w, rows);
        lemma_empty_tree(m, root, rule, edits, floors, w, rows);
    }
    tower::lemma_kept(w, none);
    if path.len() > 1 {
        assert(apply::slides_at(w, path, 0));
    }
}

/// Does the tree of some rows stand from a level on, with this root?
pub open spec fn roots(w: BlockMap, rule: Rule, rows: Seq<Row>, f: nat, id: Seq<u8>) -> bool {
    &&& tower::stands_from(w, rule, rows, f)
    &&& tower::top_from(w, rule, rows, f) is Some
    &&& chunk::node_id(tower::top_from(w, rule, rows, f)->Some_0) == id
}

/// The path ends at the only node of the lowest level that has one.
#[verifier::rlimit(60)]
#[verifier::spinoff_prover]
pub proof fn lemma_path_end(
    m: BlockMap,
    root: Seq<u8>,
    rule: Rule,
    edits: Seq<(Vec<u8>, Edit)>,
    floors: Seq<Floor>,
    w: BlockMap,
    rows: Seq<Row>,
    path: Seq<Seq<u8>>,
    f: int,
)
    requires
        setting(m, root, rule, edits, floors, w, rows),
        leads(w, root, floors, path),
        0 <= f < floors.len(),
        f > 0 ==> new_level(w, rule, changed(rows, edits), (f - 1) as nat).len() > 1,
        new_level(w, rule, changed(rows, edits), f as nat).len() == 1,
    ensures
        path.last() == chunk::node_id(new_level(w, rule, changed(rows, edits), f as nat)[0]),
{
    let next = changed(rows, edits);
    lemma_link(m, root, rule, edits, floors, w, rows, f);
    lemma_level_done(m, root, rule, edits, floors, w, rows, f);
    lemma_level_node(w, rule, next, f as nat, floors[f]);
    let i = lemma_slide(m, root, rule, edits, floors, w, rows, path, f);
    let n = new_level(w, rule, next, f as nat)[0];
    if f > 0 {
        let r = tower::level_rows(w, rule, next, f as nat);
        assert(r == tower::child_rows(new_level(w, rule, next, (f - 1) as nat)));
        assert(n.rows.len() > 1);
    }
    assert(apply::lone(w, path[i]) is None);
    if i + 1 < path.len() {
        assert(apply::slides_at(w, path, i));
    }
}

/// The path stays at the old root, where that is a branch.
#[verifier::rlimit(60)]
#[verifier::spinoff_prover]
pub proof fn lemma_path_root(
    m: BlockMap,
    root: Seq<u8>,
    rule: Rule,
    edits: Seq<(Vec<u8>, Edit)>,
    floors: Seq<Floor>,
    w: BlockMap,
    rows: Seq<Row>,
    path: Seq<Seq<u8>>,
)
    requires
        setting(m, root, rule, edits, floors, w, rows),
        leads(w, root, floors, path),
        floors.len() > 0,
        !apply::is_top(floors.last()),
        rows.len() > 0,
        tower::top(w, rule, rows)->Some_0.level > 0,
    ensures
        path.last() == chunk::node_id(tower::top(w, rule, rows)->Some_0),
{
    let n = tower::top(w, rule, rows)->Some_0;
    assert(build::proper(rows) && tower::stands(w, rule, rows) && chunk::node_id(n) == root) by {
        reveal(partway);
        reveal(ended);
    }
    lemma_proper_fits(rows);
    lemma_root_wide(w, rule, rows);
    lemma_height(m, root, rule, edits, floors, w, rows);
    assert(apply::lone(w, path[0]) is None);
    if path.len() > 1 {
        assert(apply::slides_at(w, path, 0));
    }
}

/// Where the levels above stay as they are, so does the root.
#[verifier::rlimit(60)]
#[verifier::spinoff_prover]
pub proof fn lemma_top_stays(
    m: BlockMap,
    root: Seq<u8>,
    rule: Rule,
    edits: Seq<(Vec<u8>, Edit)>,
    floors: Seq<Floor>,
    w: BlockMap,
    rows: Seq<Row>,
    path: Seq<Seq<u8>>,
)
    requires
        setting(m, root, rule, edits, floors, w, rows),
        leads(w, root, floors, path),
        floors.len() > 0,
        new_level(w, rule, changed(rows, edits), (floors.len() - 1) as nat).len() > 1,
    ensures
        roots(
            w,
            rule,
            tower::level_rows(w, rule, changed(rows, edits), floors.len()),
            floors.len(),
            path.last(),
        ),
{
    let next = changed(rows, edits);
    let e = floors.len() - 1;
    let h = tower::top(w, rule, rows)->Some_0.level;
    lemma_level_done(m, root, rule, edits, floors, w, rows, e);
    assert(!apply::is_top(floors[e])) by {
        reveal(level_done);
    }
    assert(rows.len() > 0 && e < h && tower::level_rows(w, rule, next, floors.len())
        == tower::level_rows(w, rule, rows, floors.len())) by {
        lemma_tail(m, root, rule, edits, floors, w, rows);
    }
    lemma_path_root(m, root, rule, edits, floors, w, rows, path);
    lemma_stays(w, rule, rows, floors.len(), m, root, edits, floors);
}

/// The old tree, from one of its levels on.
#[verifier::rlimit(60)]
#[verifier::spinoff_prover]
proof fn lemma_stays(
    w: BlockMap,
    rule: Rule,
    rows: Seq<Row>,
    f: nat,
    m: BlockMap,
    root: Seq<u8>,
    edits: Seq<(Vec<u8>, Edit)>,
    floors: Seq<Floor>,
)
    requires
        setting(m, root, rule, edits, floors, w, rows),
        rows.len() > 0,
        f <= tower::top(w, rule, rows)->Some_0.level,
    ensures
        roots(
            w,
            rule,
            tower::level_rows(w, rule, rows, f),
            f,
            chunk::node_id(tower::top(w, rule, rows)->Some_0),
        ),
{
    assert(build::proper(rows) && tower::stands(w, rule, rows) && tower::top(w, rule, rows) is Some) by {
        reveal(partway);
        reveal(ended);
    }
    lemma_proper_fits(rows);
    lemma_level_stands(w, rule, rows, f);
}

/// From a level of more than one node on, the tree of the changed rows stands, and its
/// root is where the path ends.
#[verifier::rlimit(60)]
#[verifier::spinoff_prover]
proof fn lemma_top(
    m: BlockMap,
    root: Seq<u8>,
    rule: Rule,
    edits: Seq<(Vec<u8>, Edit)>,
    floors: Seq<Floor>,
    w: BlockMap,
    rows: Seq<Row>,
    path: Seq<Seq<u8>>,
    f: int,
)
    requires
        setting(m, root, rule, edits, floors, w, rows),
        leads(w, root, floors, path),
        0 <= f < floors.len(),
        f > 0 ==> new_level(w, rule, changed(rows, edits), (f - 1) as nat).len() > 1,
    ensures
        roots(
            w,
            rule,
            tower::level_rows(w, rule, changed(rows, edits), f as nat),
            f as nat,
            path.last(),
        ),
    decreases floors.len() - f,
{
    let next = changed(rows, edits);
    let e = floors.len() - 1;
    let ns = new_level(w, rule, next, f as nat);
    lemma_link(m, root, rule, edits, floors, w, rows, f);
    lemma_level_done(m, root, rule, edits, floors, w, rows, f);
    if ns.len() == 0 {
        lemma_level_node(w, rule, next, f as nat, floors[f]);
        assert(f == 0) by {
            if f > 0 {
                assert(tower::level_rows(w, rule, next, f as nat) == tower::child_rows(
                    new_level(w, rule, next, (f - 1) as nat),
                ));
            }
        }
        lemma_nothing_left(m, root, rule, edits, floors, w, rows, path);
    } else if ns.len() == 1 {
        lemma_path_end(m, root, rule, edits, floors, w, rows, path, f);
    } else if f < e {
        lemma_top(m, root, rule, edits, floors, w, rows, path, f + 1);
    } else {
        lemma_top_stays(m, root, rule, edits, floors, w, rows, path);
    }
    lemma_roots(w, rule, next, f as nat, floors[f], path.last());
}

/// The tree stands from a level on, where it stands from the one above on.
proof fn lemma_roots(w: BlockMap, rule: Rule, next: Seq<Row>, f: nat, x: Floor, id: Seq<u8>)
    requires
        f <= 255,
        level_done(w, rule, next, f, x),
        ({
            let ns = new_level(w, rule, next, f);
            if ns.len() == 0 {
                tower::kept(w, chunk::empty_node()) && id == chunk::node_id(chunk::empty_node())
            } else if ns.len() == 1 {
                id == chunk::node_id(ns[0])
            } else {
                roots(w, rule, tower::level_rows(w, rule, next, f + 1), f + 1, id)
            }
        }),
    ensures
        roots(w, rule, tower::level_rows(w, rule, next, f), f, id),
{
    reveal(level_done);
    let ns = new_level(w, rule, next, f);
    assert(tower::level_rows(w, rule, next, f + 1) == tower::child_rows(ns));
}

/// A root branch has more than one child.
pub proof fn lemma_root_wide(w: BlockMap, rule: Rule, rows: Seq<Row>)
    requires
        tower::stands(w, rule, rows),
        rows.len() > 0,
        tower::all_small(rows),
        node::sorted_rows(rows),
    ensures
        ({
            let n = tower::top(w, rule, rows)->Some_0;
            n.level > 0 ==> n.rows.len() > 1
        }),
{
    let n = tower::top(w, rule, rows)->Some_0;
    let h = n.level as nat;
    lemma_level_stands(w, rule, rows, h);
    lemma_old_level(w, rule, rows, h);
    let r = tower::level_rows(w, rule, rows, h);
    let runs = chunk::chunks(h as u8, rule, r);
    assert(runs.len() == 1);
    assert(tower::joined(runs) == r) by {
        reveal(is_level);
    }
    assert(runs.drop_last() =~= Seq::<Seq<Row>>::empty());
    reveal_with_fuel(tower::joined, 2);
    assert(tower::joined(runs) =~= runs[0]);
    assert(tower::nodes_of(w, h as u8, runs)[0].rows == runs[0]);
}

/// Changed rows are stored as the format says.
pub proof fn lemma_changed_proper(rows: Seq<Row>, es: Seq<EditRow>)
    requires
        build::proper(rows),
        edits::sorted_edits(es),
        forall|i: int|
            0 <= i < es.len() && (#[trigger] es[i]).held is Some ==> node::leaf_verdict(
                es[i].key,
                es[i].held->Some_0,
            ) is Ok,
    ensures
        build::proper(edits::edited(rows, es)),
{
    edits::lemma_edited_sorted(rows, es);
    let all = edits::edited(rows, es);
    assert forall|i: int| 0 <= i < all.len() implies node::leaf_verdict(
        (#[trigger] all[i]).key,
        all[i].held,
    ) is Ok by {
        let k = all[i].key;
        edits::lemma_row_is(all, i);
        edits::lemma_edited_at(rows, es, k);
        if edits::edit_at(es, k) is Some {
            let j = edits::lemma_edit_of(es, k);
            assert(es[j].held is Some);
        } else {
            let j = edits::lemma_row_of(rows, k);
            assert(node::leaf_verdict(rows[j].key, rows[j].held) is Ok);
        }
    }
}

/// A changed tree is a rebuilt one. Take any store in which the old tree stands, which
/// holds the old blocks, the batch's values and the nodes the change closed, and in
/// which parity that is held is what it should be. There the root of the change is the
/// root of a tree built from the edited entries alone, every node of that tree is held,
/// and the edited entries are read back under it. So the root says nothing of the way
/// the contents came about.
pub proof fn law_a_changed_tree_is_a_rebuilt_one(
    m: BlockMap,
    root: Seq<u8>,
    rule: Rule,
    edits: Seq<(Vec<u8>, Edit)>,
    floors: Seq<Floor>,
    path: Seq<Seq<u8>>,
    w: BlockMap,
    rows: Seq<Row>,
)
    requires
        apply::batch_error(edits, 0) is None,
        apply::change(m, root, rule, true, edits, floors, path),
        apply::holds_all(w, m, apply::closed_nodes(floors)),
        apply::values_held(w, edits),
        build::proper(rows),
        build::delivers(w, rule, rows, root),
        tree_honest(w, rule, rows),
    ensures
        build::delivers(
            w,
            rule,
            edits::edited(rows, apply::edit_rows(edits)),
            path.last(),
        ),
        build::proper(edits::edited(rows, apply::edit_rows(edits))),
{
    let next = changed(rows, edits);
    let es = apply::edit_rows(edits);
    lemma_setting(m, root, rule, edits, floors, w, rows, path);
    assert(floors.len() > 0) by {
        reveal(ended);
    }
    assert(leads(w, root, floors, path)) by {
        reveal(apply::slides_in);
    }
    lemma_first_level(m, root, rule, edits, floors, w, rows);
    lemma_top(m, root, rule, edits, floors, w, rows, path, 0);
    assert forall|i: int| 0 <= i < es.len() && (#[trigger] es[i]).held is Some implies node::leaf_verdict(
        es[i].key,
        es[i].held->Some_0,
    ) is Ok by {
        lemma_batch_proper(edits, i);
    }
    lemma_changed_proper(rows, es);
    lemma_proper_fits(next);
    tower::law_a_standing_tree_holds_its_rows(w, rule, next);
}

/// A store in which the old tree stands, and which holds the old blocks, the batch's
/// values and the nodes a change closed.
pub open spec fn ready(
    m: BlockMap,
    root: Seq<u8>,
    rule: Rule,
    edits: Seq<(Vec<u8>, Edit)>,
    made: Seq<NodeView>,
    w: BlockMap,
    rows: Seq<Row>,
) -> bool {
    &&& apply::holds_all(w, m, made)
    &&& apply::values_held(w, edits)
    &&& build::proper(rows)
    &&& build::delivers(w, rule, rows, root)
    &&& tree_honest(w, rule, rows)
}

/// Is this the root of the edited entries, whatever they were, in every store that has
/// what it takes?
pub open spec fn rebuilds(
    m: BlockMap,
    root: Seq<u8>,
    rule: Rule,
    edits: Seq<(Vec<u8>, Edit)>,
    made: Seq<NodeView>,
    id: Seq<u8>,
) -> bool {
    forall|w: BlockMap, rows: Seq<Row>| #[trigger]
        ready(m, root, rule, edits, made, w, rows) ==> build::delivers(
            w,
            rule,
            edits::edited(rows, apply::edit_rows(edits)),
            id,
        )
}

/// Applying is rebuilding. Whatever apply answers `Ok` with, there are nodes that it
/// closed and, but for those it took off the root, handed over where they were not held
/// already; and in every store that holds them besides the old tree, the root it answers
/// is that of a tree built from the edited entries.
pub proof fn law_applying_is_rebuilding(
    m: BlockMap,
    root: Seq<u8>,
    rule: Rule,
    edits: Seq<(Vec<u8>, Edit)>,
    a: apply::Applied,
    more: Seq<Put>,
)
    requires
        apply::taken_up(m, root, edits),
        apply::done_right(m, root, rule, true, edits, a, more),
    ensures
        exists|floors: Seq<Floor>, path: Seq<Seq<u8>>|
            rebuilds(m, root, rule, edits, apply::closed_nodes(floors), a.root@)
                && #[trigger] apply::hands_over(m, root, edits, floors, path, more),
{
    reveal(apply::done_right);
    let (floors, path) = choose|floors: Seq<Floor>, path: Seq<Seq<u8>>| #[trigger]
        apply::change(m, root, rule, true, edits, floors, path) && path.last() == a.root@
            && apply::hands_over(m, root, edits, floors, path, more) && apply::accounts(
            m,
            root,
            floors,
            path,
            a,
        );
    let made = apply::closed_nodes(floors);
    assert forall|w: BlockMap, rows: Seq<Row>| #[trigger]
        ready(m, root, rule, edits, made, w, rows) implies build::delivers(
        w,
        rule,
        edits::edited(rows, apply::edit_rows(edits)),
        a.root@,
    ) by {
        law_a_changed_tree_is_a_rebuilt_one(m, root, rule, edits, floors, path, w, rows);
    }
    assert(rebuilds(m, root, rule, edits, made, a.root@));
    assert(apply::hands_over(m, root, edits, floors, path, more));
}

/// Equal contents have equal roots: what a tree holds settles its root, however it came
/// to hold it.
pub proof fn law_equal_contents_have_equal_roots(
    w: BlockMap,
    rule: Rule,
    rows: Seq<Row>,
    a: Seq<u8>,
    b: Seq<u8>,
)
    requires
        build::delivers(w, rule, rows, a),
        build::delivers(w, rule, rows, b),
    ensures
        a == b,
{
}

/// Edits that say what is there already leave the entries as they are.
pub proof fn law_restating_changes_nothing(rows: Seq<Row>, es: Seq<EditRow>)
    requires
        node::sorted_rows(rows),
        edits::sorted_edits(es),
        forall|i: int| 0 <= i < es.len() ==> edits::row_at(rows, (#[trigger] es[i]).key) == es[i].held,
    ensures
        edits::edited(rows, es) == rows,
{
    edits::lemma_edited_sorted(rows, es);
    assert forall|k: Seq<u8>| #[trigger] edits::row_at(edits::edited(rows, es), k)
        == edits::row_at(rows, k) by {
        edits::lemma_edited_at(rows, es, k);
        if edits::edit_at(es, k) is Some {
            let i = edits::lemma_edit_of(es, k);
            assert(edits::row_at(rows, es[i].key) == es[i].held);
        }
    }
    edits::lemma_rows_same(edits::edited(rows, es), rows);
}

} // verus!
