//! Edits that say what is there already change nothing: the root stays, nothing is
//! handed over and nothing is replaced.

use crate::apply;
use crate::apply::{ApplyError, Edit, Floor, Trace};
use crate::build;
use crate::build::Put;
use crate::chunk;
use crate::chunk::{CloseFault, Cut, Made, Rule};
use crate::cursor;
use crate::edits;
use crate::edits::EditRow;
use crate::expand;
use crate::node;
use crate::node::{BuildError, NodeView, Row};
use crate::order;
use crate::parity;
use crate::parity::{Group, Known};
use crate::rebuild;
use crate::splice;
use crate::store;
use crate::store::{BlockMap, Fault, HeldView};
use crate::tower;
use crate::tree;
use crate::tree::Slot;
use vstd::prelude::*;

verus! {

/// Do edits say what some rows hold already?
pub open spec fn restates(rows: Seq<Row>, es: Seq<EditRow>) -> bool {
    forall|i: int| 0 <= i < es.len() ==> edits::row_at(rows, (#[trigger] es[i]).key) == es[i].held
}

/// A batch that says what the tree holds already, with a store in which that tree
/// stands, and which holds the batch's values too.
#[verifier::opaque]
pub open spec fn says_nothing(
    m: BlockMap,
    root: Seq<u8>,
    rule: Rule,
    edits: Seq<(Vec<u8>, Edit)>,
    w: BlockMap,
    rows: Seq<Row>,
) -> bool {
    &&& store::loaded(m, root) is Ok
    &&& m.submap_of(w)
    &&& apply::values_held(w, edits)
    &&& build::proper(rows)
    &&& build::delivers(w, rule, rows, root)
    &&& rebuild::tree_honest(w, rule, rows)
    &&& apply::batch_error(edits, 0) is None
    &&& edits::sorted_edits(apply::edit_rows(edits))
    &&& restates(rows, apply::edit_rows(edits))
}

// ---------------------------------------------------------------------------
// one stretch
// ---------------------------------------------------------------------------

/// A row of runs is a row of one of them.
pub proof fn lemma_run_of(runs: Seq<Seq<Row>>, p: int) -> (r: (int, int))
    requires
        0 <= p < tower::joined(runs).len(),
    ensures
        0 <= r.0 < runs.len(),
        0 <= r.1 < runs[r.0].len(),
        runs[r.0][r.1] == tower::joined(runs)[p],
    decreases runs.len(),
{
    let front = tower::joined(runs.drop_last());
    if p < front.len() {
        let r = lemma_run_of(runs.drop_last(), p);
        assert(runs.drop_last()[r.0] == runs[r.0]);
        r
    } else {
        (runs.len() - 1, p - front.len())
    }
}

/// Edits that restate rows restate the part they fall in.
proof fn lemma_part_restates(
    runs: Seq<Seq<Row>>,
    es: Seq<EditRow>,
    i: int,
    j: int,
    from: int,
    to: int,
)
    requires
        node::sorted_rows(tower::joined(runs)),
        forall|k: int| 0 <= k < runs.len() ==> (#[trigger] runs[k]).len() > 0,
        restates(tower::joined(runs), es),
        0 <= i < j <= runs.len(),
        0 <= from <= to <= es.len(),
        i > 0 ==> edits::edits_from(es.subrange(from, to), runs[i][0].key),
        j < runs.len() ==> edits::edits_below(es.subrange(from, to), runs[j][0].key),
    ensures
        restates(tower::joined(runs.subrange(i, j)), es.subrange(from, to)),
        node::sorted_rows(tower::joined(runs.subrange(i, j))),
{
    let all = tower::joined(runs);
    let a = tower::joined(runs.take(i));
    let b = tower::joined(runs.subrange(i, j));
    let c = tower::joined(runs.skip(j));
    let part = es.subrange(from, to);
    let n = a.len() as int;
    splice::lemma_rows_part(runs, i, j);
    splice::lemma_parted_by(runs, i);
    if j < runs.len() {
        splice::lemma_parted_by(runs, j);
    }
    assert forall|x: int| 0 <= x < part.len() implies edits::row_at(b, (#[trigger] part[x]).key)
        == part[x].held by {
        let e = es[from + x];
        let k = e.key;
        assert(part[x] == e);
        assert(edits::row_at(all, e.key) == e.held);
        if edits::row_at(b, k) is Some {
            let y = edits::lemma_row_of(b, k);
            assert(all[n + y] == b[y]);
            edits::lemma_row_is(all, n + y);
        } else if e.held is Some {
            let y = edits::lemma_row_of(all, k);
            if y < n {
                assert(a[y] == all[y]);
                assert(es.subrange(from, to)[x] == e);
                if i == 0 {
                    assert(runs.take(0) =~= Seq::<Seq<Row>>::empty());
                }
                order::lemma_le_trans(runs[i][0].key, k, k);
            } else if y < n + b.len() {
                assert(b[y - n] == all[y]);
                edits::lemma_row_is(b, y - n);
            } else {
                assert(c[y - n - b.len()] == all[y]);
                assert(es.subrange(from, to)[x] == e);
                if j == runs.len() {
                    assert(runs.skip(j) =~= Seq::<Seq<Row>>::empty());
                }
                order::lemma_le_trans(runs[j][0].key, k, k);
            }
        }
    }
}

/// The edits of one stretch.
proof fn lemma_sorted_part(es: Seq<EditRow>, i: int, j: int)
    requires
        edits::sorted_edits(es),
        0 <= i <= j <= es.len(),
    ensures
        edits::sorted_edits(es.subrange(i, j)),
{
    let p = es.subrange(i, j);
    assert forall|x: int, y: int| 0 <= x < y < p.len() implies order::lt(
        (#[trigger] p[x]).key,
        (#[trigger] p[y]).key,
    ) by {
        assert(order::lt(es[i + x].key, es[i + y].key));
    }
}

/// A stretch of a level whose edits restate it gives the nodes it went through.
#[verifier::rlimit(40)]
proof fn lemma_stretch_same(
    w: BlockMap,
    rule: Rule,
    root: Seq<u8>,
    rows: Seq<Row>,
    runs: Seq<Seq<Row>>,
    a: Seq<Slot>,
    at: Seq<int>,
    ov: BlockMap,
    es: Seq<EditRow>,
    tr: Seq<Trace>,
    k: int,
)
    requires
        rebuild::rewrote(w, rule, root, 0, rows, runs, a, at, ov, es, tr),
        restates(rows, es),
        0 <= k < tr.len(),
    ensures
        ({
            let t = tr[k];
            &&& 0 <= t.first <= t.last < a.len()
            &&& t.nodes.len() == t.last - t.first + 1
            &&& forall|i: int|
                0 <= i < t.nodes.len() ==> (#[trigger] t.nodes[i]) == a[t.first
                    + i].opened->Ok_0.node && chunk::node_id(t.nodes[i]) == a[t.first + i].cid
                    && tower::kept(w, t.nodes[i])
            &&& forall|i: int| t.first <= i <= t.last ==> (#[trigger] a[i]).opened is Ok
            &&& 0 <= t.from <= t.to <= es.len()
            &&& t.from == apply::taken(tr, k)
            &&& restates(
                tower::joined(apply::slot_runs(a, t.first, t.last + 1)),
                es.subrange(t.from, t.to),
            )
        }),
{
    let t = tr[k];
    let st = rebuild::stretches_of(at, tr);
    assert(rebuild::mapped(w, rule, root, 0, rows, runs, a, at) && build::proper(rows)
        && apply::traces_ok(a, 0, rule, ov, es, tr, true) && edits::sorted_edits(es)) by {
        reveal(rebuild::rewrote);
    }
    rebuild::lemma_rewrote_at(w, rule, root, 0, rows, runs, a, at, ov, es, tr, k);
    rebuild::lemma_stretch(w, rule, root, 0, rows, runs, a, at, ov, es, tr, k);
    assert(splice::stretch_ok(0, rule, runs, es, st, k));
    let s = st[k];
    assert(s == rebuild::stretch_of(at, t));
    let part = runs.subrange(s.first, s.last + 1);
    rebuild::lemma_at_order(w, rule, root, 0, rows, runs, a, at, 0, 0);
    assert(tower::joined(runs) == rows && node::sorted_rows(rows) && tower::all_small(rows)
        && splice::well_cut(0, rule, runs) && forall|i: int|
        0 <= i < runs.len() ==> (#[trigger] runs[i]).len() > 0) by {
        reveal(rebuild::is_level);
    }
    let mine = es.subrange(s.from, s.to);
    assert forall|x: int| 0 <= x < mine.len() && s.first > 0 implies order::le(
        runs[s.first][0].key,
        (#[trigger] mine[x]).key,
    ) by {
        assert(mine[x] == es.skip(s.from)[x]);
    }
    assert forall|x: int| 0 <= x < mine.len() && s.last + 1 < runs.len() implies order::lt(
        (#[trigger] mine[x]).key,
        runs[s.last + 1][0].key,
    ) by {
        assert(mine[x] == es.take(s.to)[s.from + x]);
    }
    lemma_part_restates(runs, es, s.first, s.last + 1, s.from, s.to);
    lemma_sorted_part(es, s.from, s.to);
    rebuild::law_restating_changes_nothing(tower::joined(part), es.subrange(s.from, s.to));
    splice::lemma_rows_part(runs, s.first, s.last + 1);
    splice::lemma_well_part(0, rule, runs, s.first, s.last + 1);
    splice::lemma_well_cut(0, rule, part);
    assert(s.out == part);
    assert(apply::node_runs(t.nodes) == part);
    rebuild::lemma_run(w, rule, root, 0, rows, runs, a, at, t.first, t.last);
    assert(t.from == apply::taken(tr, k)) by {
        rebuild::lemma_trace_at(a, 0, rule, ov, es, tr, k);
    }
    assert forall|i: int| 0 <= i < t.nodes.len() implies (#[trigger] t.nodes[i]) == a[t.first
        + i].opened->Ok_0.node && chunk::node_id(t.nodes[i]) == a[t.first + i].cid && tower::kept(
        w,
        t.nodes[i],
    ) by {
        let p = t.first + i;
        assert(t.nodes.contains(t.nodes[i]));
        assert(apply::node_runs(t.nodes)[i] == t.nodes[i].rows);
        assert(a[p].opened is Ok);
        assert(at[p] == at[t.first] + i);
        rebuild::lemma_place(w, rule, root, 0, rows, runs, a, at, p);
        rebuild::lemma_level_kept(w, rule, root, 0, rows, runs, at[p]);
    }
}

/// The first stretches give the nodes they went through.
proof fn lemma_stretches_same(
    w: BlockMap,
    rule: Rule,
    root: Seq<u8>,
    rows: Seq<Row>,
    runs: Seq<Seq<Row>>,
    a: Seq<Slot>,
    at: Seq<int>,
    ov: BlockMap,
    es: Seq<EditRow>,
    tr: Seq<Trace>,
    n: nat,
)
    requires
        rebuild::rewrote(w, rule, root, 0, rows, runs, a, at, ov, es, tr),
        restates(rows, es),
        n <= tr.len(),
    ensures
        apply::node_ids(apply::traced_nodes(tr, n)) == apply::slot_ids(
            apply::traced_slots(a, tr, n),
        ),
        forall|i: int|
            0 <= i < apply::traced_nodes(tr, n).len() ==> tower::kept(
                w,
                #[trigger] apply::traced_nodes(tr, n)[i],
            ),
    decreases n,
{
    if n > 0 {
        let k = n - 1;
        lemma_stretches_same(w, rule, root, rows, runs, a, at, ov, es, tr, k as nat);
        lemma_stretch_same(w, rule, root, rows, runs, a, at, ov, es, tr, k);
        let t = tr[k];
        let x = apply::traced_nodes(tr, k as nat);
        let y = apply::traced_slots(a, tr, k as nat);
        let part = a.subrange(t.first, t.last + 1);
        assert(apply::node_ids(t.nodes) =~= apply::slot_ids(part)) by {
            assert forall|i: int| 0 <= i < t.nodes.len() implies #[trigger] apply::node_ids(
                t.nodes,
            )[i] == apply::slot_ids(part)[i] by {
                assert(t.nodes[i] == t.nodes[i]);
                assert(part[i] == a[t.first + i]);
            }
        }
        assert(apply::node_ids(x + t.nodes) =~= apply::node_ids(x) + apply::node_ids(t.nodes));
        assert(apply::slot_ids(y + part) =~= apply::slot_ids(y) + apply::slot_ids(part));
    } else {
        assert(apply::node_ids(apply::traced_nodes(tr, n)) =~= apply::slot_ids(
            apply::traced_slots(a, tr, n),
        ));
    }
}

/// An edit that sets something is held at the place it falls in.
proof fn lemma_held_there(
    w: BlockMap,
    rule: Rule,
    root: Seq<u8>,
    rows: Seq<Row>,
    runs: Seq<Seq<Row>>,
    a: Seq<Slot>,
    at: Seq<int>,
    ov: BlockMap,
    es: Seq<EditRow>,
    tr: Seq<Trace>,
    n: nat,
    i: int,
)
    requires
        rebuild::rewrote(w, rule, root, 0, rows, runs, a, at, ov, es, tr),
        restates(rows, es),
        n <= tr.len(),
        0 <= i < apply::taken(tr, n as int),
        i < es.len(),
        es[i].held is Some,
    ensures
        apply::held_already(a, es[i]),
    decreases n,
{
    let k = n - 1;
    lemma_stretch_same(w, rule, root, rows, runs, a, at, ov, es, tr, k);
    let t = tr[k];
    if i < t.from {
        lemma_held_there(w, rule, root, rows, runs, a, at, ov, es, tr, k as nat, i);
    } else {
        let part = apply::slot_runs(a, t.first, t.last + 1);
        let mine = es.subrange(t.from, t.to);
        assert(mine[i - t.from] == es[i]);
        assert(edits::row_at(tower::joined(part), mine[i - t.from].key) == mine[i - t.from].held);
        let p = edits::lemma_row_of(tower::joined(part), es[i].key);
        let (j, r) = lemma_run_of(part, p);
        let q = t.first + j;
        assert(a[q].opened is Ok);
        assert(part[j] == apply::rows_at(a[q]));
        assert(t.nodes[j] == a[q].opened->Ok_0.node);
        assert(node::sorted_rows(apply::rows_at(a[q]))) by {
            reveal(tower::kept);
        }
        edits::lemma_row_is(apply::rows_at(a[q]), r);
        assert(edits::row_at(apply::rows_at(a[q]), es[i].key) == es[i].held);
    }
}

// ---------------------------------------------------------------------------
// the leaves
// ---------------------------------------------------------------------------

/// The leaves of a tree that is not empty.
proof fn lemma_leaf_level(
    m: BlockMap,
    root: Seq<u8>,
    rule: Rule,
    edits: Seq<(Vec<u8>, Edit)>,
    w: BlockMap,
    rows: Seq<Row>,
) -> (at: Seq<int>)
    requires
        says_nothing(m, root, rule, edits, w, rows),
        rows.len() > 0,
    ensures
        rebuild::mapped(
            w,
            rule,
            root,
            0,
            rows,
            chunk::chunks(0, rule, rows),
            cursor::level_of(m, root, 0),
            at,
        ),
        rebuild::level_honest(w, 0, chunk::chunks(0, rule, rows)),
        apply::with_values(m, edits).submap_of(w),
        splice::small_edits(apply::edit_rows(edits)),
{
    reveal(says_nothing);
    let runs = chunk::chunks(0, rule, rows);
    let a = cursor::level_of(m, root, 0);
    let es = apply::edit_rows(edits);
    rebuild::lemma_proper_fits(rows);
    rebuild::lemma_old_level(w, rule, rows, 0);
    assert(tower::level_rows(w, rule, rows, 0) == rows);
    let at = expand::lemma_expand(m, w, root, 0);
    assert(rebuild::mapped(w, rule, root, 0, rows, runs, a, at)) by {
        reveal(rebuild::mapped);
    }
    assert(rebuild::level_honest(w, 0, runs)) by {
        reveal(rebuild::tree_honest);
        let r = tower::level_rows(w, rule, rows, 0);
        assert(rebuild::level_honest(w, 0nat as u8, chunk::chunks(0nat as u8, rule, r)));
    }
    rebuild::lemma_values_agree(w, edits, edits.len());
    rebuild::lemma_puts_held(m, apply::value_puts(edits, edits.len()), w);
    assert forall|i: int| 0 <= i < es.len() && (#[trigger] es[i]).held is Some implies tower::small(
        Row { key: es[i].key, held: es[i].held->Some_0 },
    ) by {
        rebuild::lemma_batch_proper(edits, i);
    }
    at
}

/// The leaves of a tree that is not empty, as they were streamed.
proof fn lemma_leaves(
    m: BlockMap,
    root: Seq<u8>,
    rule: Rule,
    edits: Seq<(Vec<u8>, Edit)>,
    w: BlockMap,
    rows: Seq<Row>,
    es: Seq<EditRow>,
    ov: BlockMap,
    tr: Seq<Trace>,
) -> (at: Seq<int>)
    requires
        says_nothing(m, root, rule, edits, w, rows),
        rows.len() > 0,
        es == apply::edit_rows(edits),
        ov == apply::with_values(m, edits),
        apply::traces_ok(cursor::level_of(m, root, 0), 0, rule, ov, es, tr, true),
        apply::taken(tr, tr.len() as int) == es.len(),
    ensures
        rebuild::rewrote(
            w,
            rule,
            root,
            0,
            rows,
            chunk::chunks(0, rule, rows),
            cursor::level_of(m, root, 0),
            at,
            ov,
            es,
            tr,
        ),
{
    let at = lemma_leaf_level(m, root, rule, edits, w, rows);
    reveal(says_nothing);
    reveal(rebuild::rewrote);
    at
}

/// Where the nodes that came of a level are those that were streamed, nothing goes up.
proof fn lemma_nothing_sent(was: Seq<Slot>, nodes: Seq<NodeView>, n: nat, k: Seq<u8>)
    requires
        apply::node_ids(nodes) == apply::slot_ids(was),
        n <= nodes.len(),
    ensures
        apply::sent_at(was, nodes, false, n, k) is None,
        !apply::gone_at(was, nodes, n, k),
    decreases n,
{
    assert(apply::node_ids(nodes).len() == nodes.len());
    assert(apply::slot_ids(was).len() == was.len());
    if n > 0 {
        lemma_nothing_sent(was, nodes, (n - 1) as nat, k);
        assert(apply::slot_ids(was)[n - 1] == chunk::node_id(nodes[n - 1]));
        assert(apply::node_ids(nodes)[n - 1] == was[n - 1].cid);
    }
}

/// A level that tells the one above nothing has no edits for it.
proof fn lemma_tells_none(m: BlockMap, root: Seq<u8>, x: Floor, es: Seq<EditRow>)
    requires
        apply::node_ids(x.nodes) == apply::slot_ids(apply::was_at(m, root, 0, x)),
        !apply::grows_at(m, root, 0, x),
        apply::tells(m, root, 0, x, es),
    ensures
        es.len() == 0,
{
    reveal(apply::tells);
    if es.len() > 0 {
        let was = apply::was_at(m, root, 0, x);
        let k = es[0].key;
        lemma_nothing_sent(was, x.nodes, x.nodes.len(), k);
        assert(apply::node_ids(x.nodes).len() == x.nodes.len());
        assert(apply::slot_ids(was).len() == was.len());
        edits::lemma_edit_is(es, 0);
    }
}

/// The nodes of the one level, the empty leaf where nothing is left.
spec fn made_of(x: Floor) -> Seq<NodeView> {
    if apply::is_top(x) && x.nodes.len() == 0 {
        seq![chunk::empty_node()]
    } else {
        x.nodes
    }
}

/// What is known of the one level.
spec fn floor_still(m: BlockMap, root: Seq<u8>, w: BlockMap, x: Floor) -> bool {
    let was = apply::was_at(m, root, 0, x);
    let made = made_of(x);
    &&& apply::node_ids(made) == apply::slot_ids(was)
    &&& forall|i: int| 0 <= i < made.len() ==> tower::kept(w, #[trigger] made[i])
    &&& !apply::grows_at(m, root, 0, x)
    &&& apply::is_top(x) ==> apply::node_ids(made) == seq![root] && tree::root_slot(
        m,
        root,
    ).opened is Ok && tree::root_slot(m, root).opened->Ok_0.node.level == 0
}

/// The one level of a tree that is not empty.
#[verifier::rlimit(40)]
proof fn lemma_full_floor(
    m: BlockMap,
    root: Seq<u8>,
    rule: Rule,
    edits: Seq<(Vec<u8>, Edit)>,
    w: BlockMap,
    rows: Seq<Row>,
    x: Floor,
)
    requires
        says_nothing(m, root, rule, edits, w, rows),
        rows.len() > 0,
        x.es == apply::edit_rows(edits),
        x.ov == apply::with_values(m, edits),
        apply::traces_ok(cursor::level_of(m, root, 0), 0, rule, x.ov, x.es, x.tr, true),
        apply::taken(x.tr, x.tr.len() as int) == x.es.len(),
        x.es.len() == 0 ==> x.tr.len() == 0,
        x.nodes == apply::traced_nodes(x.tr, x.tr.len()),
        x.whole <==> x.es.len() > 0 && apply::unbroken(x.tr) && apply::resumed(
            x.tr,
            x.tr.len() as int,
        ) == cursor::level_of(m, root, 0).len(),
    ensures
        floor_still(m, root, w, x),
{
    let a = cursor::level_of(m, root, 0);
    let runs = chunk::chunks(0, rule, rows);
    let n = tower::top(w, rule, rows)->Some_0;
    let was = apply::was_at(m, root, 0, x);
    let at = lemma_leaves(m, root, rule, edits, w, rows, x.es, x.ov, x.tr);
    assert(restates(rows, x.es) && edits::sorted_edits(x.es)) by {
        reveal(says_nothing);
    }
    lemma_stretches_same(w, rule, root, rows, runs, a, at, x.ov, x.es, x.tr, x.tr.len());
    lemma_top_loaded(m, root, rule, edits, w, rows);
    assert(apply::node_ids(x.nodes).len() == x.nodes.len());
    assert(apply::slot_ids(was).len() == was.len());
    if n.level == 0 {
        assert(a =~= seq![tree::root_slot(m, root)]);
        if x.es.len() > 0 {
            rebuild::lemma_one_place_streamed(a, 0, rule, x.ov, x.es, x.tr);
            assert(apply::traced_slots(a, x.tr, 0) =~= Seq::<Slot>::empty());
            assert(apply::traced_slots(a, x.tr, 1) =~= a);
            assert(apply::slot_ids(was) =~= seq![root]);
        } else {
            assert(apply::traced_nodes(x.tr, 0) =~= Seq::<NodeView>::empty());
        }
    } else if x.whole {
        assert(runs.len() > 1) by {
            reveal(says_nothing);
            rebuild::lemma_proper_fits(rows);
            rebuild::lemma_old_level(w, rule, rows, 0);
            assert(tower::level_rows(w, rule, rows, 0) == rows);
        }
        assert(edits::edited(rows, x.es) == rows) by {
            reveal(says_nothing);
            rebuild::lemma_proper_fits(rows);
            rebuild::law_restating_changes_nothing(rows, x.es);
        }
        assert(chunk::chunks(0, rule, edits::edited(rows, x.es)) == splice::respliced(
            runs,
            rebuild::stretches_of(at, x.tr),
        )) by {
            reveal(rebuild::rewrote);
            rebuild::lemma_recut(w, rule, root, 0, rows, runs, a, at, x.ov, x.es, x.tr);
        }
        rebuild::lemma_whole(w, rule, root, 0, rows, runs, a, at, x.ov, x.es, x.tr);
        assert(tower::level_nodes(w, rule, 0, rows).len() == runs.len());
    }
    assert forall|i: int| 0 <= i < x.nodes.len() implies tower::kept(w, #[trigger] x.nodes[i]) by {
        assert(x.nodes[i] == apply::traced_nodes(x.tr, x.tr.len())[i]);
    }
}

/// The root of the tree, where it is read.
proof fn lemma_top_loaded(
    m: BlockMap,
    root: Seq<u8>,
    rule: Rule,
    edits: Seq<(Vec<u8>, Edit)>,
    w: BlockMap,
    rows: Seq<Row>,
)
    requires
        says_nothing(m, root, rule, edits, w, rows),
    ensures
        store::loaded(w, root) == Ok::<NodeView, Fault>(tower::top(w, rule, rows)->Some_0),
        store::loaded(m, root) == Ok::<NodeView, Fault>(tower::top(w, rule, rows)->Some_0),
        tower::kept(w, tower::top(w, rule, rows)->Some_0),
        chunk::node_id(tower::top(w, rule, rows)->Some_0) == root,
        apply::lone(w, root) is None,
{
    reveal(says_nothing);
    let n = tower::top(w, rule, rows)->Some_0;
    tower::lemma_top_kept(w, rule, rows, 0);
    tower::lemma_kept(w, n);
    let at = expand::lemma_expand(m, w, root, 0);
    rebuild::lemma_proper_fits(rows);
    if rows.len() > 0 {
        rebuild::lemma_root_wide(w, rule, rows);
    } else {
        assert(chunk::chunks(0, rule, rows) =~= Seq::<Seq<Row>>::empty());
        assert(n == chunk::empty_node());
    }
}

/// The one level of an empty tree.
proof fn lemma_bare_floor(
    m: BlockMap,
    root: Seq<u8>,
    rule: Rule,
    edits: Seq<(Vec<u8>, Edit)>,
    w: BlockMap,
    rows: Seq<Row>,
    x: Floor,
)
    requires
        says_nothing(m, root, rule, edits, w, rows),
        rows.len() == 0,
        x.es == apply::edit_rows(edits),
        apply::traces_ok(cursor::level_of(m, root, 0), 0, rule, x.ov, x.es, x.tr, true),
        apply::taken(x.tr, x.tr.len() as int) == x.es.len(),
        x.es.len() == 0 ==> x.tr.len() == 0,
        x.nodes == apply::traced_nodes(x.tr, x.tr.len()),
        x.whole <==> x.es.len() > 0 && apply::unbroken(x.tr) && apply::resumed(
            x.tr,
            x.tr.len() as int,
        ) == cursor::level_of(m, root, 0).len(),
    ensures
        floor_still(m, root, w, x),
{
    let a = cursor::level_of(m, root, 0);
    let none = Seq::<Row>::empty();
    lemma_top_loaded(m, root, rule, edits, w, rows);
    assert(rows =~= none);
    assert(chunk::chunks(0, rule, rows) =~= Seq::<Seq<Row>>::empty());
    assert(tower::top(w, rule, rows)->Some_0 == chunk::empty_node());
    assert(a =~= seq![tree::root_slot(m, root)]);
    let was = apply::was_at(m, root, 0, x);
    if x.es.len() > 0 {
        rebuild::lemma_one_place_streamed(a, 0, rule, x.ov, x.es, x.tr);
        let t = x.tr[0];
        let s = apply::slot_runs(a, 0, 1);
        assert(s =~= seq![none]);
        assert(tower::joined(s) =~= none) by {
            reveal_with_fuel(tower::joined, 2);
            assert(s.drop_last() =~= Seq::<Seq<Row>>::empty());
        }
        assert(x.es.subrange(0, x.es.len() as int) =~= x.es);
        assert(edits::edited(none, x.es) == none) by {
            reveal(says_nothing);
            rebuild::law_restating_changes_nothing(none, x.es);
        }
        assert(apply::node_runs(t.nodes) =~= Seq::<Seq<Row>>::empty()) by {
            reveal(apply::run_ok);
        }
        assert(t.nodes.len() == apply::node_runs(t.nodes).len());
        assert(apply::traced_nodes(x.tr, 0) =~= Seq::<NodeView>::empty());
        assert(apply::traced_nodes(x.tr, 1) =~= t.nodes);
        assert(apply::traced_slots(a, x.tr, 0) =~= Seq::<Slot>::empty());
        assert(apply::traced_slots(a, x.tr, 1) =~= a);
        assert(apply::slot_ids(was) =~= seq![root]);
        assert(apply::node_ids(seq![chunk::empty_node()]) =~= seq![root]);
    } else {
        assert(apply::traced_nodes(x.tr, 0) =~= Seq::<NodeView>::empty());
        assert(apply::traced_slots(a, x.tr, 0) =~= Seq::<Slot>::empty());
        assert(apply::node_ids(x.nodes) =~= apply::slot_ids(was));
    }
}

/// What a batch that says nothing comes to, level by level: the leaves it went through,
/// and no other level.
#[verifier::opaque]
pub open spec fn stands_still(
    m: BlockMap,
    root: Seq<u8>,
    w: BlockMap,
    floors: Seq<Floor>,
) -> bool {
    &&& floors.len() == 1
    &&& apply::tip(root, floors) == root
    &&& apply::holds_all(w, m, apply::closed_nodes(floors))
    &&& apply::node_ids(apply::closed_nodes(floors)) == apply::old_nodes(m, root, floors)
    &&& !apply::is_top(floors[0]) ==> forall|es: Seq<EditRow>| #[trigger]
        apply::tells(m, root, 0, floors[0], es) ==> es.len() == 0
}

/// One level was streamed, and what came of it is what was there.
proof fn lemma_one_floor(
    m: BlockMap,
    root: Seq<u8>,
    rule: Rule,
    edits: Seq<(Vec<u8>, Edit)>,
    w: BlockMap,
    rows: Seq<Row>,
    floors: Seq<Floor>,
)
    requires
        says_nothing(m, root, rule, edits, w, rows),
        apply::chain(
            m,
            root,
            rule,
            true,
            apply::edit_rows(edits),
            apply::with_values(m, edits),
            floors,
        ),
        floors.len() > 0,
    ensures
        stands_still(m, root, w, floors),
{
    let x = floors[0];
    let a = cursor::level_of(m, root, 0);
    let es = x.es;
    assert(apply::floor_ok(m, root, rule, true, 0, x) && es == apply::edit_rows(edits) && x.ov
        == apply::with_values(m, edits)) by {
        reveal(apply::chain);
    }
    reveal(apply::floor_ok);
    assert(apply::traces_ok(a, 0, rule, x.ov, es, x.tr, true) && apply::taken(
        x.tr,
        x.tr.len() as int,
    ) == es.len() && (es.len() == 0 ==> x.tr.len() == 0) && x.nodes == apply::traced_nodes(
        x.tr,
        x.tr.len(),
    )) by {
        reveal(apply::rewritten);
    }
    let was = apply::was_at(m, root, 0, x);
    let bare = seq![chunk::empty_node()];
    if rows.len() > 0 {
        lemma_full_floor(m, root, rule, edits, w, rows, x);
    } else {
        lemma_bare_floor(m, root, rule, edits, w, rows, x);
    }
    if floors.len() > 1 {
        assert(!apply::is_top(x) && apply::tells(m, root, 0, x, floors[1].es)
            && floors[1].es.len() > 0) by {
            reveal(apply::chain);
        }
        lemma_tells_none(m, root, x, floors[1].es);
    }
    assert(apply::floor_nodes(floors, 0) =~= Seq::<NodeView>::empty());
    assert(apply::floor_nodes(floors, 1) =~= x.nodes);
    assert(apply::floor_olds(m, root, floors, 0) =~= Seq::<Seq<u8>>::empty());
    assert(apply::floor_olds(m, root, floors, 1) =~= apply::slot_ids(was));
    let made = apply::closed_nodes(floors);
    assert(floors.last() == x);
    assert(x.nodes.len() == 0 ==> x.nodes.push(chunk::empty_node()) =~= bare);
    assert(floors.len() == 1);
    let good = made_of(x);
    assert(made =~= good);
    if apply::is_top(x) {
        assert(apply::node_ids(good)[0] == chunk::node_id(good[0]));
        assert(apply::node_ids(good)[0] == root);
    }
    assert(apply::tip(root, floors) == root);
    let h = tree::root_slot(m, root).opened->Ok_0;
    if apply::is_top(x) {
        assert(apply::above(m, h, root, 0) =~= Seq::<Seq<u8>>::empty());
        assert(apply::old_nodes(m, root, floors) =~= apply::slot_ids(was));
    }
    assert(apply::node_ids(made) =~= apply::old_nodes(m, root, floors));
    assert(apply::holds_all(w, m, made)) by {
        assert(m.submap_of(w)) by {
            reveal(says_nothing);
        }
        assert forall|i: int| 0 <= i < made.len() implies w.contains_key(
            (#[trigger] build::blocks_of(made)[i]).id,
        ) && w[build::blocks_of(made)[i].id] == build::blocks_of(made)[i].bytes by {
            assert(good[i] == made[i]);
            assert(tower::kept(w, good[i]));
            reveal(tower::kept);
        }
    }
    assert(stands_still(m, root, w, floors)) by {
        reveal(stands_still);
        if !apply::is_top(x) {
            assert forall|up: Seq<EditRow>| #[trigger]
                apply::tells(m, root, 0, x, up) implies up.len() == 0 by {
                lemma_tells_none(m, root, x, up);
            }
        }
    }
}

// ---------------------------------------------------------------------------
// the law
// ---------------------------------------------------------------------------

/// The path down from a root that stands still is that root.
proof fn lemma_path_still(
    m: BlockMap,
    root: Seq<u8>,
    rule: Rule,
    edits: Seq<(Vec<u8>, Edit)>,
    w: BlockMap,
    rows: Seq<Row>,
    floors: Seq<Floor>,
    path: Seq<Seq<u8>>,
)
    requires
        says_nothing(m, root, rule, edits, w, rows),
        stands_still(m, root, w, floors),
        path.len() > 0,
        path[0] == apply::tip(root, floors),
        apply::slides_in(m, apply::closed_nodes(floors), path),
    ensures
        path == seq![root],
{
    reveal(stands_still);
    reveal(apply::slides_in);
    lemma_top_loaded(m, root, rule, edits, w, rows);
    assert(apply::slides(w, path));
    if path.len() > 1 {
        assert(apply::slides_at(w, path, 0));
    }
    assert(path =~= seq![root]);
}

/// Restating is free. Edits that say what a tree holds already leave its root as it is,
/// hand nothing over and replace nothing.
pub proof fn law_restating_hands_nothing_over(
    m: BlockMap,
    root: Seq<u8>,
    rule: Rule,
    edits: Seq<(Vec<u8>, Edit)>,
    w: BlockMap,
    rows: Seq<Row>,
    a: apply::Applied,
    more: Seq<Put>,
)
    requires
        apply::taken_up(m, root, edits),
        apply::done_right(m, root, rule, true, edits, a, more),
        m.submap_of(w),
        apply::values_held(w, edits),
        build::proper(rows),
        build::delivers(w, rule, rows, root),
        rebuild::tree_honest(w, rule, rows),
        restates(rows, apply::edit_rows(edits)),
    ensures
        a.root@ == root,
        more.len() == 0,
        a.replaced@.len() == 0,
{
    reveal(apply::done_right);
    let (floors, path) = choose|floors: Seq<Floor>, path: Seq<Seq<u8>>| #[trigger]
        apply::change(m, root, rule, true, edits, floors, path) && path.last() == a.root@
            && apply::hands_over(m, root, edits, floors, path, more) && apply::accounts(
            m,
            root,
            floors,
            path,
            a,
        );
    assert(says_nothing(m, root, rule, edits, w, rows)) by {
        reveal(says_nothing);
    }
    lemma_one_floor(m, root, rule, edits, w, rows, floors);
    lemma_path_still(m, root, rule, edits, w, rows, floors, path);
    let made = apply::closed_nodes(floors);
    let olds = apply::old_nodes(m, root, floors);
    assert(apply::node_ids(made) == olds) by {
        reveal(stands_still);
    }
    assert(path.drop_last() =~= Seq::<Seq<u8>>::empty());
    if more.len() > 0 {
        let id = more[0].id;
        assert(apply::put_ids(more)[0] == id);
        assert(apply::put_ids(more).contains(id));
        if apply::owed_value(m, root, edits, id) {
            lemma_no_value(m, root, rule, edits, w, rows, floors, id);
        }
        let n = choose|n: NodeView| #[trigger]
            apply::stays(floors, path, n) && chunk::node_id(n) == id;
        let i = choose|i: int| 0 <= i < made.len() && made[i] == n;
        assert(apply::node_ids(made)[i] == id);
        assert(olds.contains(id));
        reveal(apply::was_old);
    }
    if a.replaced@.len() > 0 {
        let gone = node::cids_of(a.replaced@);
        let id = gone[0];
        assert(gone.contains(id));
        reveal(apply::was_old);
        assert(olds.contains(id));
        let i = choose|i: int| 0 <= i < olds.len() && olds[i] == id;
        assert(apply::node_ids(made)[i] == chunk::node_id(made[i]));
        assert(apply::stays(floors, path, made[i]));
    }
}

/// No value is owed.
proof fn lemma_no_value(
    m: BlockMap,
    root: Seq<u8>,
    rule: Rule,
    edits: Seq<(Vec<u8>, Edit)>,
    w: BlockMap,
    rows: Seq<Row>,
    floors: Seq<Floor>,
    id: Seq<u8>,
)
    requires
        says_nothing(m, root, rule, edits, w, rows),
        apply::chain(
            m,
            root,
            rule,
            true,
            apply::edit_rows(edits),
            apply::with_values(m, edits),
            floors,
        ),
        floors.len() > 0,
    ensures
        !apply::owed_value(m, root, edits, id),
{
    let a = cursor::level_of(m, root, 0);
    let x = floors[0];
    let es = x.es;
    if apply::owed_value(m, root, edits, id) {
        let i = choose|i: int|
            0 <= i < edits.len() && (apply::value_of(#[trigger] edits[i]) matches Some(p) && p.id
                == id) && !apply::held_already(a, apply::edit_rows(edits)[i]);
        assert(apply::floor_ok(m, root, rule, true, 0, x) && es == apply::edit_rows(edits) && x.ov
            == apply::with_values(m, edits)) by {
            reveal(apply::chain);
        }
        reveal(apply::floor_ok);
        reveal(apply::rewritten);
        assert(restates(rows, es)) by {
            reveal(says_nothing);
        }
        assert(es[i] == apply::edit_row(edits[i]));
        assert(es[i].held is Some);
        assert(edits::row_at(rows, es[i].key) == es[i].held);
        let j = edits::lemma_row_of(rows, es[i].key);
        let runs = chunk::chunks(0, rule, rows);
        let at = lemma_leaves(m, root, rule, edits, w, rows, es, x.ov, x.tr);
        lemma_held_there(w, rule, root, rows, runs, a, at, x.ov, es, x.tr, x.tr.len(), i);
    }
}

// ---------------------------------------------------------------------------
// nothing stands in the way
// ---------------------------------------------------------------------------

/// Is every group of a leaf with these rows known?
spec fn knows(index: Seq<Known>, rows: Seq<Row>) -> bool {
    forall|i: int|
        0 <= i < parity::groups(0, rows).len() ==> known_group(
            index,
            #[trigger] parity::groups(0, rows)[i],
        )
}

/// Is a group known?
spec fn known_group(index: Seq<Known>, g: Group) -> bool {
    exists|x: int| 0 <= x < index.len() && parity::covers(#[trigger] index[x], g.class, g.members)
}

/// A group that is known is found.
proof fn lemma_found(index: Seq<Known>, class: int, members: Seq<Seq<u8>>, i: int, x: int)
    requires
        0 <= i <= x < index.len(),
        parity::covers(index[x], class, members),
    ensures
        parity::find_exact(index, class, members, i) is Some,
    decreases x - i,
{
    if i < x && !parity::covers(index[i], class, members) {
        lemma_found(index, class, members, i + 1, x);
    }
}

/// Ids that fit can be listed.
proof fn lemma_listed(n: NodeView, ids: Seq<Seq<u8>>, count: nat)
    requires
        count <= ids.len(),
        n.level == 0,
        count > 0 ==> node::has_ref(n.rows),
        node::encoded(n) + 32 * count <= node::MAX_NODE,
    ensures
        chunk::with_ids(n, ids, count) == Ok::<NodeView, BuildError>(
            NodeView { level: n.level, rows: n.rows, parity: n.parity + ids.take(count as int) },
        ),
    decreases count,
{
    if count > 0 {
        lemma_listed(n, ids, (count - 1) as nat);
        let p = NodeView {
            level: n.level,
            rows: n.rows,
            parity: n.parity + ids.take(count - 1),
        };
        assert(node::parity_error(p) is None);
        assert(n.parity + ids.take(count as int) =~= (n.parity + ids.take(count - 1)).push(
            ids[count - 1],
        ));
    } else {
        assert(n.parity + ids.take(0) =~= n.parity);
    }
}

/// A leaf whose groups are all known closes, and nothing is coded for it.
proof fn lemma_made_known(ov: BlockMap, w: BlockMap, index: Seq<Known>, rows: Seq<Row>, n: nat)
    requires
        n <= parity::groups(0, rows).len(),
        rebuild::index_true(w, true, index),
        knows(index, rows),
        tower::node_of(w, 0, rows).valid(),
    ensures
        chunk::made(ov, index, 0, rows, n) == Ok::<Made, CloseFault>(
            Made {
                node: NodeView { level: 0, rows, parity: tower::parity_of(w, 0, rows, n) },
                coded: Seq::empty(),
            },
        ),
    decreases n,
{
    if n > 0 {
        let k = (n - 1) as nat;
        lemma_made_known(ov, w, index, rows, k);
        let gs = parity::groups(0, rows);
        let g = gs[n - 1];
        assert(known_group(index, gs[n - 1]));
        let x = choose|x: int|
            0 <= x < index.len() && parity::covers(#[trigger] index[x], g.class, g.members);
        lemma_found(index, g.class, g.members, 0, x);
        rebuild::lemma_exact_true(w, true, index, g.class, g.members, 0);
        let ids = parity::find_exact(index, g.class, g.members, 0)->Some_0;
        let d = NodeView { level: 0, rows, parity: tower::parity_of(w, 0, rows, k) };
        let all = tower::node_of(w, 0, rows);
        rebuild::lemma_parity_len(w, 0, rows, k);
        rebuild::lemma_parity_len(w, 0, rows, gs.len());
        assert(ids.len() == 3);
        assert(node::encoded(all) == node::encoded(d) + 32 * (3 * gs.len() - 3 * k));
        lemma_listed(d, ids, 3);
        assert(ids.take(3) =~= ids);
        assert(Seq::<Seq<u8>>::empty() + Seq::<Seq<u8>>::empty() =~= Seq::<Seq<u8>>::empty());
    } else {
        assert(tower::parity_of(w, 0, rows, 0) =~= Seq::<Seq<u8>>::empty());
    }
}

/// The groups of a place are among those of a stretch that holds it.
proof fn lemma_known_part(a: Seq<Slot>, i: int, j: int, k: int, g: Group)
    requires
        i <= k < j,
        known_group(parity::known_of(a[k].opened->Ok_0.node), g),
    ensures
        known_group(apply::known_at(a, i, j), g),
    decreases j - i,
{
    let front = apply::known_at(a, i, j - 1);
    let last = parity::known_of(a[j - 1].opened->Ok_0.node);
    let all = apply::known_at(a, i, j);
    assert(all == front + last);
    if k < j - 1 {
        lemma_known_part(a, i, j - 1, k, g);
        let x = choose|x: int|
            0 <= x < front.len() && parity::covers(#[trigger] front[x], g.class, g.members);
        assert(all[x] == front[x]);
    } else {
        let x = choose|x: int|
            0 <= x < last.len() && parity::covers(#[trigger] last[x], g.class, g.members);
        assert(all[front.len() + x] == last[x]);
    }
}

/// A leaf knows its own groups.
proof fn lemma_own_groups(w: BlockMap, rows: Seq<Row>, i: int)
    requires
        0 <= i < parity::groups(0, rows).len(),
    ensures
        known_group(parity::known_of(tower::node_of(w, 0, rows)), parity::groups(0, rows)[i]),
{
    let gs = parity::groups(0, rows);
    let n = tower::node_of(w, 0, rows);
    rebuild::lemma_parity_len(w, 0, rows, gs.len());
    let own = parity::known_of(n);
    assert(parity::covers(own[i], gs[i].class, gs[i].members));
}

/// Sums of the first rows are no larger.
proof fn lemma_sums_part(rows: Seq<Row>, n: int)
    requires
        0 <= n <= rows.len(),
    ensures
        node::sum_count(rows.take(n)) <= node::sum_count(rows),
        node::sum_weight(rows.take(n)) <= node::sum_weight(rows),
    decreases rows.len() - n,
{
    if n < rows.len() {
        lemma_sums_part(rows, n + 1);
        let next = rows.take(n + 1);
        assert(next.drop_last() =~= rows.take(n));
        assert(node::row_count(next.last()) >= 0 && node::row_weight(next.last()) >= 0);
    } else {
        assert(rows.take(n) =~= rows);
    }
}

/// A row of a valid leaf can be pushed after those before it.
proof fn lemma_row_pushes(w: BlockMap, o: Seq<Row>, r: int)
    requires
        tower::node_of(w, 0, o).valid(),
        1 <= r <= o.len(),
        !chunk::overflows(o.take(r - 1), o[r - 1]),
    ensures
        node::push_error(NodeView { level: 0, rows: o.take(r - 1), parity: Seq::empty() }, o[r - 1])
            is None,
{
    let full = tower::node_of(w, 0, o);
    let open = o.take(r - 1);
    let row = o[r - 1];
    let n = NodeView { level: 0, rows: open, parity: Seq::empty() };
    assert(node::row_fits(0, full.rows[r - 1]));
    node::lemma_encoded_push(n, row);
    let next = open.push(row);
    node::lemma_prefix_shared(next, 0);
    assert(open.len() * node::prefix_len(next) >= 0) by (nonlinear_arith)
        requires
            node::prefix_len(next) >= 0,
    ;
    assert(next =~= o.take(r));
    lemma_sums_part(o, r);
    if open.len() > 0 {
        assert(order::lt(full.rows[r - 2].key, full.rows[r - 1].key));
    }
}

/// Runs are no longer than all of them together.
proof fn lemma_joined_len(c: Seq<Seq<Row>>)
    requires
        c.len() > 0,
    ensures
        c[0].len() <= tower::joined(c).len(),
    decreases c.len(),
{
    if c.len() > 1 {
        assert(c.drop_last()[0] == c[0]);
        lemma_joined_len(c.drop_last());
    }
}

/// A run that is whole is cut nowhere before its end.
proof fn lemma_run_prefix(rule: Rule, o: Seq<Row>, k: int)
    requires
        splice::whole_run(0, rule, o),
        tower::all_small(o),
        0 <= k < o.len(),
    ensures
        chunk::cut_from(0, rule, chunk::uncut(), o.take(k)) == (Cut {
            closed: Seq::empty(),
            open: o.take(k),
        }),
{
    let front = o.take(k);
    let rest = o.skip(k);
    let c = chunk::cut_from(0, rule, chunk::uncut(), front);
    assert forall|i: int| 0 <= i < front.len() implies tower::small(#[trigger] front[i]) by {
        assert(front[i] == o[i]);
    }
    tower::lemma_cut(0, rule, front);
    assert(front + rest =~= o);
    splice::lemma_cut_on(0, rule, chunk::uncut(), front, rest);
    splice::lemma_cut_shift(0, rule, c.closed, c.open, rest);
    let d = chunk::cut_from(0, rule, Cut { closed: Seq::empty(), open: c.open }, rest);
    let all = chunk::cut_from(0, rule, chunk::uncut(), o);
    assert(c == Cut { closed: c.closed, open: c.open });
    assert(all.closed == c.closed + d.closed);
    if c.closed.len() > 0 {
        assert(all.closed[0] == c.closed[0]);
        assert(all.closed[0] == o);
        lemma_joined_len(c.closed);
    }
    assert(c.closed =~= Seq::<Seq<Row>>::empty());
    assert(tower::joined(c.closed) =~= Seq::<Row>::empty());
    assert(tower::joined(c.closed) + c.open =~= c.open);
}

/// The rows of a leaf that closes go in one by one.
proof fn lemma_row_goes_in(
    ov: BlockMap,
    w: BlockMap,
    index: Seq<Known>,
    rule: Rule,
    o: Seq<Row>,
    r: int,
)
    requires
        splice::whole_run(0, rule, o),
        tower::all_small(o),
        tower::node_of(w, 0, o).valid(),
        chunk::closing(ov, index, 0, o) is Ok,
        1 <= r <= o.len(),
    ensures
        !chunk::overflows(o.take(r - 1), o[r - 1]),
        chunk::pushed(ov, index, 0, rule, o.take(r - 1), o[r - 1]) is Done,
{
    let open = o.take(r - 1);
    let row = o[r - 1];
    let next = o.take(r);
    let c = chunk::cut_from(0, rule, chunk::uncut(), open);
    let d = chunk::cut_from(0, rule, chunk::uncut(), next);
    lemma_run_prefix(rule, o, r - 1);
    if r < o.len() {
        lemma_run_prefix(rule, o, r);
    } else {
        assert(next =~= o);
    }
    assert(next.drop_last() =~= open);
    assert(next.last() == row);
    assert(open.push(row) =~= next);
    assert(d == chunk::step(0, rule, c, row));
    assert(tower::small(o[r - 1]));
    if chunk::overflows(open, row) {
        if r == 1 {
            assert(open =~= Seq::<Row>::empty());
        }
        let e = chunk::made_room(c, row);
        assert(e.closed[0] == open);
        assert(d.closed.len() > 0 && d.closed[0] == open);
        assert(open.len() < o.len());
    }
    lemma_row_pushes(w, o, r);
    if chunk::fires(0, rule, next) && r < o.len() {
        assert(d.closed.len() > 0);
    }
}

/// Some first rows of runs are whole runs, and the first rows of one more.
proof fn lemma_first_rows(part: Seq<Seq<Row>>, n: int) -> (x: (int, int))
    requires
        1 <= n <= tower::joined(part).len(),
    ensures
        0 <= x.0 < part.len(),
        1 <= x.1 <= part[x.0].len(),
        tower::joined(part).take(n) == tower::joined(part.take(x.0)) + part[x.0].take(x.1),
    decreases part.len(),
{
    let all = tower::joined(part);
    let front = tower::joined(part.drop_last());
    if n <= front.len() {
        let x = lemma_first_rows(part.drop_last(), n);
        assert(part.drop_last().take(x.0) =~= part.take(x.0));
        assert(all.take(n) =~= front.take(n));
        x
    } else {
        let j = part.len() - 1;
        let r = n - front.len();
        assert(part.take(j) =~= part.drop_last());
        assert(all.take(n) =~= front + part[j].take(r));
        (j, r)
    }
}

/// What is known of the leaves of a stretch.
spec fn smooth(
    ov: BlockMap,
    w: BlockMap,
    index: Seq<Known>,
    rule: Rule,
    part: Seq<Seq<Row>>,
) -> bool {
    &&& splice::well_cut(0, rule, part)
    &&& tower::all_small(tower::joined(part))
    &&& forall|j: int|
        0 <= j < part.len() ==> tower::node_of(w, 0, #[trigger] part[j]).valid()
            && chunk::closing(ov, index, 0, part[j]) is Ok && tower::all_small(part[j])
}

/// No row of whole leaves that close fails to go in.
proof fn lemma_goes_in(
    ov: BlockMap,
    w: BlockMap,
    index: Seq<Known>,
    rule: Rule,
    part: Seq<Seq<Row>>,
    n: int,
)
    requires
        smooth(ov, w, index, rule, part),
        1 <= n <= tower::joined(part).len(),
    ensures
        ({
            let q = tower::joined(part).take(n);
            chunk::pushed(
                ov,
                index,
                0,
                rule,
                chunk::cut_from(0, rule, chunk::uncut(), q.drop_last()).open,
                q.last(),
            ) is Done
        }),
{
    let q = tower::joined(part).take(n);
    let (j, r) = lemma_first_rows(part, n);
    let o = part[j];
    let front = part.take(j);
    let a = tower::joined(front);
    let b = o.take(r - 1);
    assert(o.take(r).drop_last() =~= b);
    assert(q.drop_last() =~= a + b);
    assert(q.last() == o[r - 1]);
    splice::lemma_well_part(0, rule, part, 0, j);
    assert(part.subrange(0, j) =~= front);
    splice::lemma_rows_part(part, 0, j);
    splice::lemma_well_cut(0, rule, front);
    splice::lemma_cut_on(0, rule, chunk::uncut(), a, b);
    let c = chunk::cut_from(0, rule, chunk::uncut(), a);
    assert(tower::node_of(w, 0, part[j]).valid());
    assert(splice::whole_run(0, rule, part[j])) by {
        reveal(splice::well_cut);
    }
    lemma_row_goes_in(ov, w, index, rule, o, r);
    let forced = j > 0 && !chunk::fires(0, rule, part[j - 1]);
    if j > 0 {
        assert(front.last() == part[j - 1]);
    }
    if forced {
        let p = part[j - 1];
        assert(c == Cut { closed: front.drop_last(), open: p });
        assert(chunk::overflows(p, o[0])) by {
            reveal(splice::well_cut);
            assert(splice::parted(0, rule, part[j - 1], part[j]));
        }
        assert(tower::node_of(w, 0, part[j - 1]).valid());
        if r == 1 {
            assert(b =~= Seq::<Row>::empty());
            assert(chunk::cut_from(0, rule, c, b) == c);
        } else {
            assert(b[0] == o[0]);
            assert(tower::small(o[0]));
            splice::lemma_cut_overflow(0, rule, front.drop_last(), p, b);
            lemma_open_on(rule, o, r, front.drop_last().push(p));
        }
    } else {
        assert(c.open =~= Seq::<Row>::empty());
        if r == 1 {
            assert(b =~= Seq::<Row>::empty());
            assert(chunk::cut_from(0, rule, c, b) == c);
        } else {
            lemma_open_on(rule, o, r, c.closed);
        }
    }
}

/// The first rows of a whole run stay open, whatever was closed before.
proof fn lemma_open_on(rule: Rule, o: Seq<Row>, r: int, x: Seq<Seq<Row>>)
    requires
        splice::whole_run(0, rule, o),
        tower::all_small(o),
        1 <= r <= o.len(),
    ensures
        chunk::cut_from(
            0,
            rule,
            Cut { closed: x, open: Seq::empty() },
            o.take(r - 1),
        ).open == o.take(r - 1),
{
    lemma_run_prefix(rule, o, r - 1);
    splice::lemma_cut_shift(0, rule, x, Seq::empty(), o.take(r - 1));
}

/// Whole leaves that close do not get stuck.
proof fn lemma_no_jam(
    ov: BlockMap,
    w: BlockMap,
    index: Seq<Known>,
    rule: Rule,
    part: Seq<Seq<Row>>,
    e: ApplyError,
)
    requires
        smooth(ov, w, index, rule, part),
    ensures
        !apply::jams_in(ov, index, 0, rule, tower::joined(part), e),
        !apply::jams_closing(ov, index, 0, rule, tower::joined(part), e),
{
    let all = tower::joined(part);
    reveal(apply::jams_in);
    reveal(apply::jams);
    reveal(apply::jams_closing);
    if apply::jams_in(ov, index, 0, rule, all, e) {
        let q = choose|q: Seq<Row>| #[trigger]
            apply::jams(ov, index, 0, rule, q, e) && q.is_prefix_of(all);
        assert(q =~= all.take(q.len() as int));
        lemma_goes_in(ov, w, index, rule, part, q.len() as int);
    }
    splice::lemma_well_cut(0, rule, part);
    let open = chunk::cut_from(0, rule, chunk::uncut(), all).open;
    if part.len() > 0 && !chunk::fires(0, rule, part.last()) {
        let k = part.len() - 1;
        assert(open == part[k]);
        assert(tower::node_of(w, 0, part[k]).valid());
    } else {
        lemma_bare_closes(ov, index);
        assert(open =~= Seq::<Row>::empty());
    }
}

/// A leaf with nothing in it closes.
proof fn lemma_bare_closes(ov: BlockMap, index: Seq<Known>)
    ensures
        chunk::closing(ov, index, 0, Seq::empty()) is Ok,
{
    let none = Seq::<Row>::empty();
    parity::lemma_groups_len(0, none, 4);
    assert(parity::groups(0, none).len() == 0);
}

/// The edits of a stretch restate the places it runs over.
proof fn lemma_streamed_same(
    m: BlockMap,
    root: Seq<u8>,
    rule: Rule,
    edits: Seq<(Vec<u8>, Edit)>,
    w: BlockMap,
    rows: Seq<Row>,
    at: Seq<int>,
    first: int,
    from: int,
    p: int,
)
    requires
        says_nothing(m, root, rule, edits, w, rows),
        rows.len() > 0,
        rebuild::mapped(
            w,
            rule,
            root,
            0,
            rows,
            chunk::chunks(0, rule, rows),
            cursor::level_of(m, root, 0),
            at,
        ),
        apply::all_open(cursor::level_of(m, root, 0)),
        0 <= first <= p < cursor::level_of(m, root, 0).len(),
        0 <= from < apply::edit_rows(edits).len(),
        apply::begins(cursor::level_of(m, root, 0), apply::edit_rows(edits), from, true, first),
    ensures
        cursor::level_of(m, root, 0).len() == chunk::chunks(0, rule, rows).len(),
        apply::streamed(
            cursor::level_of(m, root, 0),
            apply::edit_rows(edits),
            first,
            from,
            p,
        ) == tower::joined(chunk::chunks(0, rule, rows).subrange(first, p + 1)),
        forall|j: int|
            0 <= j < cursor::level_of(m, root, 0).len() ==> (#[trigger] cursor::level_of(
                m,
                root,
                0,
            )[j]).opened->Ok_0.node == tower::node_of(w, 0, chunk::chunks(0, rule, rows)[j]),
{
    let a = cursor::level_of(m, root, 0);
    let runs = chunk::chunks(0, rule, rows);
    let es = apply::edit_rows(edits);
    let n = a.len() - 1;
    assert(restates(rows, es) && edits::sorted_edits(es)) by {
        reveal(says_nothing);
    }
    assert forall|q: int| 0 <= q <= n implies (#[trigger] a[q]).opened is Ok by {}
    rebuild::lemma_run(w, rule, root, 0, rows, runs, a, at, 0, n);
    rebuild::lemma_at_order(w, rule, root, 0, rows, runs, a, at, 0, n);
    assert forall|j: int| 0 <= j < a.len() implies (#[trigger] a[j]).opened->Ok_0.node
        == tower::node_of(w, 0, runs[j]) by {
        assert(at[j] == j);
        rebuild::lemma_place(w, rule, root, 0, rows, runs, a, at, j);
    }
    rebuild::lemma_run(w, rule, root, 0, rows, runs, a, at, first, p);
    assert(at[first] == first && at[p] == p);
    assert(runs.subrange(first, p + 1) == apply::slot_runs(a, first, p + 1));
    let up = tree::next_key(a, None, p);
    let to = apply::reach(es, from, up);
    apply::lemma_reach(es, from, up);
    let mine = es.subrange(from, to);
    let t = choose|t: int| #[trigger]
        apply::holds_key(a, t, es[from].key) && (first == t || (first == t - 1 && apply::beside(
            a,
            t,
            es[from].key,
            true,
        )));
    assert(at[first] == first);
    rebuild::lemma_place(w, rule, root, 0, rows, runs, a, at, first);
    if first > 0 {
        assert(order::le(runs[first][0].key, es[from].key)) by {
            if t != first {
                assert(at[t] == t);
                rebuild::lemma_place(w, rule, root, 0, rows, runs, a, at, t);
                apply::lemma_level_spanned(m, root, 0);
                assert(order::lt(a[first].key, a[t].key));
                order::lemma_le_trans(a[first].key, a[t].key, es[from].key);
            }
        }
        assert forall|x: int| 0 <= x < mine.len() implies order::le(
            runs[first][0].key,
            (#[trigger] mine[x]).key,
        ) by {
            if x > 0 {
                assert(order::lt(es[from].key, es[from + x].key));
                order::lemma_le_trans(runs[first][0].key, es[from].key, es[from + x].key);
            }
        }
    }
    if p + 1 < runs.len() {
        assert(at[p + 1] == p + 1);
        rebuild::lemma_place(w, rule, root, 0, rows, runs, a, at, p + 1);
        assert forall|x: int| 0 <= x < mine.len() implies order::lt(
            (#[trigger] mine[x]).key,
            runs[p + 1][0].key,
        ) by {
            assert(tree::under(es[from + x].key, up));
        }
    }
    assert(tower::joined(runs) == rows && node::sorted_rows(rows) && forall|i: int|
        0 <= i < runs.len() ==> (#[trigger] runs[i]).len() > 0) by {
        reveal(rebuild::is_level);
    }
    lemma_part_restates(runs, es, first, p + 1, from, to);
    lemma_sorted_part(es, from, to);
    rebuild::law_restating_changes_nothing(tower::joined(runs.subrange(first, p + 1)), mine);
}

/// The leaves of a stretch close, and do not get stuck.
proof fn lemma_smooth(
    m: BlockMap,
    root: Seq<u8>,
    rule: Rule,
    edits: Seq<(Vec<u8>, Edit)>,
    w: BlockMap,
    rows: Seq<Row>,
    at: Seq<int>,
    ov: BlockMap,
    first: int,
    p: int,
)
    requires
        says_nothing(m, root, rule, edits, w, rows),
        rebuild::mapped(
            w,
            rule,
            root,
            0,
            rows,
            chunk::chunks(0, rule, rows),
            cursor::level_of(m, root, 0),
            at,
        ),
        rebuild::level_honest(w, 0, chunk::chunks(0, rule, rows)),
        apply::all_open(cursor::level_of(m, root, 0)),
        cursor::level_of(m, root, 0).len() == chunk::chunks(0, rule, rows).len(),
        0 <= first <= p < cursor::level_of(m, root, 0).len(),
        forall|j: int|
            0 <= j < cursor::level_of(m, root, 0).len() ==> (#[trigger] cursor::level_of(
                m,
                root,
                0,
            )[j]).opened->Ok_0.node == tower::node_of(w, 0, chunk::chunks(0, rule, rows)[j]),
    ensures
        smooth(
            ov,
            w,
            apply::known_at(cursor::level_of(m, root, 0), first, p + 1),
            rule,
            chunk::chunks(0, rule, rows).subrange(first, p + 1),
        ),
{
    let a = cursor::level_of(m, root, 0);
    let runs = chunk::chunks(0, rule, rows);
    let part = runs.subrange(first, p + 1);
    let index = apply::known_at(a, first, p + 1);
    rebuild::lemma_at_order(w, rule, root, 0, rows, runs, a, at, 0, 0);
    assert(tower::joined(runs) == rows && tower::all_small(rows) && splice::well_cut(
        0,
        rule,
        runs,
    )) by {
        reveal(rebuild::is_level);
    }
    assert forall|q: int| first <= q < p + 1 implies (#[trigger] a[q]).opened is Ok by {}
    rebuild::lemma_known_at(w, rule, root, 0, rows, runs, a, at, first, p + 1);
    splice::lemma_rows_part(runs, first, p + 1);
    splice::lemma_well_part(0, rule, runs, first, p + 1);
    assert forall|j: int| 0 <= j < part.len() implies tower::node_of(w, 0, #[trigger] part[j]).valid()
        && chunk::closing(ov, index, 0, part[j]) is Ok && tower::all_small(part[j]) by {
        let k = first + j;
        let o = runs[k];
        assert(part[j] == o);
        rebuild::lemma_level_kept(w, rule, root, 0, rows, runs, k);
        assert(tower::node_of(w, 0, o).valid()) by {
            reveal(tower::kept);
        }
        assert(a[k].opened->Ok_0.node == tower::node_of(w, 0, o));
        assert forall|i: int| 0 <= i < parity::groups(0, o).len() implies known_group(
            index,
            #[trigger] parity::groups(0, o)[i],
        ) by {
            lemma_own_groups(w, o, i);
            lemma_known_part(a, first, p + 1, k, parity::groups(0, o)[i]);
        }
        lemma_made_known(ov, w, index, o, parity::groups(0, o).len());
        assert forall|i: int| 0 <= i < o.len() implies tower::small(#[trigger] o[i]) by {
            rebuild::lemma_joined_has(runs, k, i);
            let x = choose|x: int|
                0 <= x < tower::joined(runs).len() && #[trigger] tower::joined(runs)[x]
                    == runs[k][i];
            assert(tower::small(rows[x]));
        }
    }
}

/// A stretch of edits that restate does not get stuck.
proof fn lemma_not_halted(
    m: BlockMap,
    root: Seq<u8>,
    rule: Rule,
    edits: Seq<(Vec<u8>, Edit)>,
    w: BlockMap,
    rows: Seq<Row>,
    first: int,
    from: int,
    p: int,
    e: ApplyError,
)
    requires
        says_nothing(m, root, rule, edits, w, rows),
        apply::all_open(cursor::level_of(m, root, 0)),
        0 <= from < apply::edit_rows(edits).len(),
        apply::begins(cursor::level_of(m, root, 0), apply::edit_rows(edits), from, true, first),
    ensures
        !apply::run_halts(
            cursor::level_of(m, root, 0),
            apply::with_values(m, edits),
            0,
            rule,
            apply::edit_rows(edits),
            first,
            from,
            p,
            e,
        ),
{
    let a = cursor::level_of(m, root, 0);
    let es = apply::edit_rows(edits);
    let ov = apply::with_values(m, edits);
    if apply::run_halts(a, ov, 0, rule, es, first, from, p, e) {
        assert(0 <= first <= p) by {
            reveal(apply::flows);
        }
        assert(a[p].opened is Ok);
        let index = apply::known_at(a, first, p + 1);
        if rows.len() > 0 {
            let at = lemma_leaf_level(m, root, rule, edits, w, rows);
            lemma_streamed_same(m, root, rule, edits, w, rows, at, first, from, p);
            lemma_smooth(m, root, rule, edits, w, rows, at, ov, first, p);
            lemma_no_jam(
                ov,
                w,
                index,
                rule,
                chunk::chunks(0, rule, rows).subrange(first, p + 1),
                e,
            );
        } else {
            lemma_bare_streamed(m, root, rule, edits, w, rows, from);
            let none = Seq::<Row>::empty();
            let q = apply::streamed(a, es, first, from, p);
            assert(q == none);
            reveal(apply::jams_in);
            reveal(apply::jams);
            reveal(apply::jams_closing);
            lemma_bare_closes(ov, index);
            assert(chunk::cut_from(0, rule, chunk::uncut(), none).open =~= none);
        }
    }
}

/// Nothing is streamed from an empty tree.
proof fn lemma_bare_streamed(
    m: BlockMap,
    root: Seq<u8>,
    rule: Rule,
    edits: Seq<(Vec<u8>, Edit)>,
    w: BlockMap,
    rows: Seq<Row>,
    from: int,
)
    requires
        says_nothing(m, root, rule, edits, w, rows),
        rows.len() == 0,
        0 <= from < apply::edit_rows(edits).len(),
    ensures
        cursor::level_of(m, root, 0).len() == 1,
        apply::streamed(cursor::level_of(m, root, 0), apply::edit_rows(edits), 0, from, 0)
            == Seq::<Row>::empty(),
{
    let a = cursor::level_of(m, root, 0);
    let es = apply::edit_rows(edits);
    let none = Seq::<Row>::empty();
    lemma_top_loaded(m, root, rule, edits, w, rows);
    assert(rows =~= none);
    assert(chunk::chunks(0, rule, rows) =~= Seq::<Seq<Row>>::empty());
    assert(tower::top(w, rule, rows)->Some_0 == chunk::empty_node());
    assert(a =~= seq![tree::root_slot(m, root)]);
    let s = apply::slot_runs(a, 0, 1);
    assert(s =~= seq![none]);
    assert(tower::joined(s) =~= none) by {
        reveal_with_fuel(tower::joined, 2);
        assert(s.drop_last() =~= Seq::<Seq<Row>>::empty());
    }
    let up = tree::next_key(a, None, 0);
    let to = apply::reach(es, from, up);
    reveal(says_nothing);
    apply::lemma_reach(es, from, up);
    let mine = es.subrange(from, to);
    lemma_sorted_part(es, from, to);
    assert forall|x: int| 0 <= x < mine.len() implies edits::row_at(none, (#[trigger] mine[x]).key)
        == mine[x].held by {
        assert(mine[x] == es[from + x]);
    }
    rebuild::law_restating_changes_nothing(none, mine);
}

/// Restating is never refused. Edits that say what a tree holds already are carried out
/// wherever the leaves of the tree are held: no error is owed.
pub proof fn law_restating_is_never_refused(
    m: BlockMap,
    root: Seq<u8>,
    rule: Rule,
    edits: Seq<(Vec<u8>, Edit)>,
    w: BlockMap,
    rows: Seq<Row>,
    e: ApplyError,
)
    requires
        apply::taken_up(m, root, edits),
        store::loaded(m, root) is Ok,
        apply::all_open(cursor::level_of(m, root, 0)),
        m.submap_of(w),
        apply::values_held(w, edits),
        build::proper(rows),
        build::delivers(w, rule, rows, root),
        rebuild::tree_honest(w, rule, rows),
        restates(rows, apply::edit_rows(edits)),
    ensures
        !apply::owed_error(m, root, rule, true, edits, e),
{
    let es = apply::edit_rows(edits);
    let ov = apply::with_values(m, edits);
    let a = cursor::level_of(m, root, 0);
    assert(edits::sorted_edits(es)) by {
        lemma_batch_sorted(edits);
    }
    assert(says_nothing(m, root, rule, edits, w, rows)) by {
        reveal(says_nothing);
    }
    if apply::undone(m, root, rule, true, edits, e) {
        reveal(apply::undone);
        if apply::stopped(m, root, rule, true, es, ov, e) {
            reveal(apply::stopped);
            let floors = choose|floors: Seq<Floor>| #[trigger]
                apply::chain(m, root, rule, true, es, ov, floors) && apply::stops_after(
                    m,
                    root,
                    rule,
                    true,
                    es,
                    ov,
                    floors,
                    e,
                );
            lemma_goes_on(m, root, rule, edits, w, rows, floors, e);
        } else {
            let floors = choose|floors: Seq<Floor>| #[trigger]
                apply::chain(m, root, rule, true, es, ov, floors) && apply::chain_ends(
                    m,
                    root,
                    floors,
                ) && apply::lost(m, apply::closed_nodes(floors), apply::tip(root, floors), e);
            lemma_one_floor(m, root, rule, edits, w, rows, floors);
            reveal(apply::lost);
            let made = apply::closed_nodes(floors);
            let path = choose|path: Seq<Seq<u8>>|
                path.len() > 0 && path[0] == apply::tip(root, floors) && #[trigger]
                    apply::slides_in(m, made, path) && match e {
                    ApplyError::Read(x) => store::loaded(m, path.last()) == Err::<NodeView, Fault>(
                        x@,
                    ) && apply::unmade(made, path),
                    ApplyError::Node(b) => b == BuildError::Overflow && path.len() > u64::MAX,
                    _ => false,
                };
            lemma_path_still(m, root, rule, edits, w, rows, floors, path);
            assert(path.last() == root);
        }
    }
}

/// A batch that is not refused ascends.
pub proof fn lemma_batch_sorted(edits: Seq<(Vec<u8>, Edit)>)
    requires
        apply::batch_error(edits, 0) is None,
    ensures
        edits::sorted_edits(apply::edit_rows(edits)),
{
    let es = apply::edit_rows(edits);
    assert forall|i: int, j: int| 0 <= i < j < es.len() implies order::lt(
        (#[trigger] es[i]).key,
        (#[trigger] es[j]).key,
    ) by {
        lemma_batch_order(edits, i, j);
    }
}

/// The keys of a batch that is not refused ascend.
proof fn lemma_batch_order(edits: Seq<(Vec<u8>, Edit)>, i: int, j: int)
    requires
        apply::batch_error(edits, 0) is None,
        0 <= i < j < edits.len(),
    ensures
        order::lt(edits[i].0@, edits[j].0@),
    decreases j - i,
{
    rebuild::lemma_batch_at(edits, 0, j);
    if i < j - 1 {
        lemma_batch_order(edits, i, j - 1);
        order::lemma_lt_trans(edits[i].0@, edits[j - 1].0@, edits[j].0@);
    }
}

/// No level stops a batch that says nothing.
proof fn lemma_goes_on(
    m: BlockMap,
    root: Seq<u8>,
    rule: Rule,
    edits: Seq<(Vec<u8>, Edit)>,
    w: BlockMap,
    rows: Seq<Row>,
    floors: Seq<Floor>,
    e: ApplyError,
)
    requires
        says_nothing(m, root, rule, edits, w, rows),
        apply::all_open(cursor::level_of(m, root, 0)),
        apply::chain(
            m,
            root,
            rule,
            true,
            apply::edit_rows(edits),
            apply::with_values(m, edits),
            floors,
        ),
    ensures
        !apply::stops_after(
            m,
            root,
            rule,
            true,
            apply::edit_rows(edits),
            apply::with_values(m, edits),
            floors,
            e,
        ),
{
    let es0 = apply::edit_rows(edits);
    let ov0 = apply::with_values(m, edits);
    let a = cursor::level_of(m, root, 0);
    if floors.len() > 0 {
        lemma_one_floor(m, root, rule, edits, w, rows, floors);
        reveal(stands_still);
    }
    if exists|es: Seq<EditRow>, ov: BlockMap, floor: u8| #[trigger]
        apply::halts_next(m, root, rule, true, es0, ov0, floors, es, ov, floor, e) {
        let (es, ov, floor) = choose|es: Seq<EditRow>, ov: BlockMap, floor: u8| #[trigger]
            apply::halts_next(m, root, rule, true, es0, ov0, floors, es, ov, floor, e);
        reveal(apply::goes_on);
        if floors.len() > 0 {
            assert(floors.last() == floors[0]);
        } else {
            reveal(apply::halted);
            let tr = choose|tr: Seq<Trace>| #[trigger]
                apply::traces_ok(a, 0, rule, ov, es, tr, true) && apply::halts_after(
                    a,
                    ov,
                    0,
                    rule,
                    true,
                    es,
                    tr,
                    e,
                );
            let i = apply::taken(tr, tr.len() as int);
            if e is Read && apply::barred(a, es, i, true, e->Read_0@) {
                reveal(apply::barred);
                let f = e->Read_0@;
                let t = choose|t: int| #[trigger]
                    apply::holds_key(a, t, es[i].key) && (a[t].opened == Err::<HeldView, Fault>(f)
                        || (apply::beside(a, t, es[i].key, true) && a[t - 1].opened == Err::<
                        HeldView,
                        Fault,
                    >(f)));
                assert(a[t].opened is Ok);
                if t > 0 {
                    assert(a[t - 1].opened is Ok);
                }
            } else {
                let (first, p) = choose|first: int, p: int| #[trigger]
                    apply::run_halts(a, ov, 0, rule, es, first, i, p, e) && apply::begins(
                        a,
                        es,
                        i,
                        true,
                        first,
                    );
                lemma_not_halted(m, root, rule, edits, w, rows, first, i, p, e);
            }
        }
    }
}

} // verus!
