//! A change comes out in one way: what every level is told, how it is streamed anew and
//! what comes of it follow from the tree and the edits.

use crate::apply;
use crate::apply::{Applied, ApplyError, Edit, Floor, Trace};
use crate::build;
use crate::build::Put;
use crate::chunk;
use crate::chunk::{Pushed, Rule};
use crate::cursor;
use crate::edits;
use crate::edits::EditRow;
use crate::node;
use crate::node::{BuildError, NodeView};
use crate::order;
use crate::parity::Known;
use crate::store;
use crate::store::{BlockMap, Fault};
use crate::tower;
use crate::tree;
use crate::tree::Slot;
use vstd::prelude::*;

verus! {

/// Edits that say the same of every key are the same.
proof fn lemma_edits_same(a: Seq<EditRow>, b: Seq<EditRow>)
    requires
        edits::sorted_edits(a),
        edits::sorted_edits(b),
        forall|k: Seq<u8>| #[trigger] edits::edit_at(a, k) == edits::edit_at(b, k),
    ensures
        a == b,
    decreases a.len(),
{
    if a.len() == 0 {
        if b.len() > 0 {
            edits::lemma_edit_is(b, 0);
            assert(edits::edit_at(a, b[0].key) is None);
        }
        assert(a =~= b);
    } else {
        let k = a[0].key;
        edits::lemma_edit_is(a, 0);
        let j = edits::lemma_edit_of(b, k);
        edits::lemma_edit_is(b, 0);
        assert(edits::edit_at(a, b[0].key) == Some(b[0]));
        let i = edits::lemma_edit_of(a, b[0].key);
        if j > 0 {
            assert(order::lt(b[0].key, b[j].key));
            if i > 0 {
                assert(order::lt(a[0].key, a[i].key));
                order::lemma_lt_trans(k, b[0].key, k);
            }
            order::lemma_lt_irreflexive(k);
        }
        assert(a[0] == b[0]);
        let s = a.skip(1);
        let t = b.skip(1);
        assert forall|x: Seq<u8>| #[trigger] edits::edit_at(s, x) == edits::edit_at(t, x) by {
            assert(edits::edit_at(a, x) == edits::edit_at(b, x));
            if x == k {
                assert forall|n: int| 0 <= n < s.len() implies order::lt(
                    k,
                    (#[trigger] s[n]).key,
                ) by {
                    assert(s[n] == a[n + 1]);
                    assert(order::lt(a[0].key, a[n + 1].key));
                }
                assert forall|n: int| 0 <= n < t.len() implies order::lt(
                    k,
                    (#[trigger] t[n]).key,
                ) by {
                    assert(t[n] == b[n + 1]);
                    assert(order::lt(b[0].key, b[n + 1].key));
                }
                edits::lemma_edit_none(s, k);
                edits::lemma_edit_none(t, k);
            }
        }
        assert(edits::sorted_edits(s)) by {
            assert forall|p: int, q: int| 0 <= p < q < s.len() implies order::lt(
                (#[trigger] s[p]).key,
                (#[trigger] s[q]).key,
            ) by {
                assert(order::lt(a[p + 1].key, a[q + 1].key));
            }
        }
        assert(edits::sorted_edits(t)) by {
            assert forall|p: int, q: int| 0 <= p < q < t.len() implies order::lt(
                (#[trigger] t[p]).key,
                (#[trigger] t[q]).key,
            ) by {
                assert(order::lt(b[p + 1].key, b[q + 1].key));
            }
        }
        lemma_edits_same(s, t);
        assert(a =~= seq![a[0]] + s);
        assert(b =~= seq![b[0]] + t);
    }
}

/// Of two stretches with one start, neither goes on where the other ends.
proof fn lemma_ends(
    a: Seq<Slot>,
    floor: u8,
    rule: Rule,
    ov: BlockMap,
    es: Seq<EditRow>,
    x: Trace,
    y: Trace,
    recheck: bool,
)
    requires
        apply::run_ok(a, floor, rule, ov, es, x),
        apply::run_ok(a, floor, rule, ov, es, y),
        apply::confined(a, floor, rule, es, x, recheck),
        apply::confined(a, floor, rule, es, y, recheck),
        x.first == y.first,
        x.from == y.from,
    ensures
        y.last <= x.last,
{
    reveal(apply::run_ok);
    reveal(apply::confined);
    if x.last < y.last {
        reveal(apply::flows);
        assert(a[x.last].opened is Ok);
        assert(apply::busy(a, floor, rule, es, y.first, y.from, x.last));
        reveal(apply::busy);
        assert(!x.ended);
        assert(apply::streamed(a, es, x.first, x.from, x.last) == edits::edited(
            tower::joined(apply::slot_runs(a, x.first, x.last + 1)),
            es.subrange(x.from, x.to),
        ));
    }
}

/// The next stretch follows from those before.
proof fn lemma_next_same(
    a: Seq<Slot>,
    floor: u8,
    rule: Rule,
    ov: BlockMap,
    es: Seq<EditRow>,
    tr: Seq<Trace>,
    ts: Seq<Trace>,
    k: int,
    recheck: bool,
)
    requires
        apply::traces_ok(a, floor, rule, ov, es, tr, recheck),
        apply::traces_ok(a, floor, rule, ov, es, ts, recheck),
        0 <= k < tr.len(),
        k < ts.len(),
        k > 0 ==> tr[k - 1] == ts[k - 1],
    ensures
        tr[k] == ts[k],
{
    reveal(apply::traces_ok);
    assert(apply::trace_ok(a, floor, rule, ov, es, tr, k, recheck));
    assert(apply::trace_ok(a, floor, rule, ov, es, ts, k, recheck));
    let x = tr[k];
    let y = ts[k];
    lemma_ends(a, floor, rule, ov, es, x, y, recheck);
    lemma_ends(a, floor, rule, ov, es, y, x, recheck);
    assert(x.to == y.to) by {
        reveal(apply::confined);
    }
    assert(x.ended == y.ended) by {
        reveal(apply::run_ok);
    }
    assert(x.nodes == y.nodes && x.coded == y.coded) by {
        reveal(apply::run_exact);
        reveal(apply::left_by);
    }
    assert(x =~= y);
}

/// The first stretches follow from the level and its edits.
proof fn lemma_front_same(
    a: Seq<Slot>,
    floor: u8,
    rule: Rule,
    ov: BlockMap,
    es: Seq<EditRow>,
    tr: Seq<Trace>,
    ts: Seq<Trace>,
    k: int,
    recheck: bool,
)
    requires
        apply::traces_ok(a, floor, rule, ov, es, tr, recheck),
        apply::traces_ok(a, floor, rule, ov, es, ts, recheck),
        0 <= k <= tr.len(),
        k <= ts.len(),
    ensures
        forall|j: int| 0 <= j < k ==> #[trigger] tr[j] == ts[j],
    decreases k,
{
    if k > 0 {
        lemma_front_same(a, floor, rule, ov, es, tr, ts, k - 1, recheck);
        lemma_next_same(a, floor, rule, ov, es, tr, ts, k - 1, recheck);
    }
}

/// Of two ways to take all edits, neither has more stretches.
proof fn lemma_no_more(
    a: Seq<Slot>,
    floor: u8,
    rule: Rule,
    ov: BlockMap,
    es: Seq<EditRow>,
    tr: Seq<Trace>,
    ts: Seq<Trace>,
    recheck: bool,
)
    requires
        apply::traces_ok(a, floor, rule, ov, es, tr, recheck),
        apply::traces_ok(a, floor, rule, ov, es, ts, recheck),
        apply::taken(tr, tr.len() as int) == es.len(),
        es.len() == 0 ==> ts.len() == 0,
    ensures
        ts.len() <= tr.len(),
{
    if tr.len() < ts.len() {
        let k = tr.len() as int;
        lemma_front_same(a, floor, rule, ov, es, tr, ts, k, recheck);
        reveal(apply::traces_ok);
        assert(apply::trace_ok(a, floor, rule, ov, es, ts, k, recheck));
        if k > 0 {
            assert(tr[k - 1] == ts[k - 1]);
        }
    }
}

/// A new level follows from its edits.
proof fn lemma_raised_same(
    floor: u8,
    rule: Rule,
    ov: BlockMap,
    es: Seq<EditRow>,
    a: Seq<NodeView>,
    ca: Seq<Seq<u8>>,
    b: Seq<NodeView>,
    cb: Seq<Seq<u8>>,
)
    requires
        apply::raised(floor, rule, ov, es, a, ca),
        apply::raised(floor, rule, ov, es, b, cb),
    ensures
        a == b,
        ca == cb,
{
    reveal(apply::raised);
    reveal(apply::left_by);
}

/// A level follows from the old tree, its edits and the store they are applied over.
proof fn lemma_floor_same(
    m: BlockMap,
    root: Seq<u8>,
    rule: Rule,
    recheck: bool,
    f: int,
    x: Floor,
    y: Floor,
)
    requires
        apply::floor_ok(m, root, rule, recheck, f, x),
        apply::floor_ok(m, root, rule, recheck, f, y),
        x.es == y.es,
        x.ov == y.ov,
    ensures
        x == y,
{
    reveal(apply::floor_ok);
    let a = cursor::level_of(m, root, f);
    if apply::old_height(m, root) < f && x.es.len() > 0 {
        lemma_raised_same(f as u8, rule, x.ov, x.es, x.nodes, x.coded, y.nodes, y.coded);
        assert(x.tr =~= y.tr);
    } else {
        reveal(apply::rewritten);
        lemma_no_more(a, f as u8, rule, x.ov, x.es, x.tr, y.tr, recheck);
        lemma_no_more(a, f as u8, rule, x.ov, x.es, y.tr, x.tr, recheck);
        lemma_front_same(
            a,
            f as u8,
            rule,
            x.ov,
            x.es,
            x.tr,
            y.tr,
            x.tr.len() as int,
            recheck,
        );
        assert(x.tr =~= y.tr);
    }
    assert(x =~= y);
}

/// What a level says goes up follows from it.
proof fn lemma_told_same(
    m: BlockMap,
    root: Seq<u8>,
    f: int,
    x: Floor,
    a: Seq<EditRow>,
    b: Seq<EditRow>,
)
    requires
        apply::tells(m, root, f, x, a),
        apply::tells(m, root, f, x, b),
    ensures
        a == b,
{
    reveal(apply::tells);
    assert forall|k: Seq<u8>| #[trigger] edits::edit_at(a, k) == edits::edit_at(b, k) by {
        assert(edits::edit_at(b, k) == edits::edit_at(b, k));
    }
    lemma_edits_same(a, b);
}

/// The first levels follow from the old tree and the edits.
proof fn lemma_levels_same(
    m: BlockMap,
    root: Seq<u8>,
    rule: Rule,
    recheck: bool,
    es: Seq<EditRow>,
    ov: BlockMap,
    fa: Seq<Floor>,
    fb: Seq<Floor>,
    n: int,
)
    requires
        apply::chain(m, root, rule, recheck, es, ov, fa),
        apply::chain(m, root, rule, recheck, es, ov, fb),
        0 <= n <= fa.len(),
        n <= fb.len(),
    ensures
        forall|f: int| 0 <= f < n ==> #[trigger] fa[f] == fb[f],
    decreases n,
{
    if n > 0 {
        lemma_levels_same(m, root, rule, recheck, es, ov, fa, fb, n - 1);
        reveal(apply::chain);
        let f = n - 1;
        if f > 0 {
            assert(fa[f - 1] == fb[f - 1]);
            assert(apply::tells(m, root, f - 1, fa[f - 1], fa[f].es));
            assert(apply::tells(m, root, f - 1, fb[f - 1], fb[f].es));
            lemma_told_same(m, root, f - 1, fa[f - 1], fa[f].es, fb[f].es);
        }
        lemma_floor_same(m, root, rule, recheck, f, fa[f], fb[f]);
    }
}

/// Of two ways to carry a change up, neither goes higher.
proof fn lemma_no_higher(
    m: BlockMap,
    root: Seq<u8>,
    rule: Rule,
    recheck: bool,
    es: Seq<EditRow>,
    ov: BlockMap,
    fa: Seq<Floor>,
    fb: Seq<Floor>,
)
    requires
        apply::chain(m, root, rule, recheck, es, ov, fa),
        apply::chain(m, root, rule, recheck, es, ov, fb),
        apply::chain_ends(m, root, fa),
    ensures
        fb.len() <= fa.len(),
{
    if fa.len() < fb.len() {
        lemma_levels_same(m, root, rule, recheck, es, ov, fa, fb, fa.len() as int);
        reveal(apply::chain);
        let f = fa.len() - 1;
        assert(fa[f] == fb[f]);
        assert(apply::tells(m, root, f, fb[f], fb[f + 1].es));
        lemma_told_same(m, root, f, fa[f], fb[f + 1].es, Seq::empty());
    }
}

/// The levels of a change follow from the old tree and the edits.
pub proof fn lemma_floors_same(
    m: BlockMap,
    root: Seq<u8>,
    rule: Rule,
    recheck: bool,
    es: Seq<EditRow>,
    ov: BlockMap,
    fa: Seq<Floor>,
    fb: Seq<Floor>,
)
    requires
        apply::chain(m, root, rule, recheck, es, ov, fa),
        apply::chain(m, root, rule, recheck, es, ov, fb),
        apply::chain_ends(m, root, fa),
        apply::chain_ends(m, root, fb),
    ensures
        fa == fb,
{
    lemma_no_higher(m, root, rule, recheck, es, ov, fa, fb);
    lemma_no_higher(m, root, rule, recheck, es, ov, fb, fa);
    lemma_levels_same(m, root, rule, recheck, es, ov, fa, fb, fa.len() as int);
    assert(fa =~= fb);
}

/// The first steps of a way down follow from its start.
proof fn lemma_steps_same(w: BlockMap, pa: Seq<Seq<u8>>, pb: Seq<Seq<u8>>, n: int)
    requires
        apply::slides(w, pa),
        apply::slides(w, pb),
        pa.len() > 0,
        pb.len() > 0,
        pa[0] == pb[0],
        0 <= n <= pa.len(),
        n <= pb.len(),
    ensures
        forall|i: int| 0 <= i < n ==> #[trigger] pa[i] == pb[i],
    decreases n,
{
    if n > 1 {
        lemma_steps_same(w, pa, pb, n - 1);
        assert(pa[n - 2] == pb[n - 2]);
        assert(apply::slides_at(w, pa, n - 2));
        assert(apply::slides_at(w, pb, n - 2));
    }
}

/// A way down ends where nothing leads on.
proof fn lemma_no_longer(w: BlockMap, pa: Seq<Seq<u8>>, pb: Seq<Seq<u8>>)
    requires
        apply::slides(w, pa),
        apply::slides(w, pb),
        pa.len() > 0,
        pb.len() > 0,
        pa[0] == pb[0],
        apply::lone(w, pa.last()) is None,
    ensures
        pb.len() <= pa.len(),
{
    if pa.len() < pb.len() {
        lemma_steps_same(w, pa, pb, pa.len() as int);
        let i = pa.len() - 1;
        assert(pa[i] == pb[i]);
        assert(apply::slides_at(w, pb, i));
    }
}

/// The branches taken off a root follow from what was closed.
proof fn lemma_path_same(
    m: BlockMap,
    root: Seq<u8>,
    rule: Rule,
    recheck: bool,
    edits: Seq<(Vec<u8>, Edit)>,
    floors: Seq<Floor>,
    pa: Seq<Seq<u8>>,
    pb: Seq<Seq<u8>>,
    w: BlockMap,
)
    requires
        apply::change(m, root, rule, recheck, edits, floors, pa),
        apply::change(m, root, rule, recheck, edits, floors, pb),
        apply::holds_all(w, m, apply::closed_nodes(floors)),
    ensures
        pa == pb,
{
    reveal(apply::slides_in);
    lemma_no_longer(w, pa, pb);
    lemma_no_longer(w, pb, pa);
    lemma_steps_same(w, pa, pb, pa.len() as int);
    assert(pa =~= pb);
}

/// Do two answers to a change say the same: one root, and the same blocks handed over,
/// nodes replaced and parity reported, each in the same order?
pub open spec fn one_answer(a: Applied, more_a: Seq<Put>, b: Applied, more_b: Seq<Put>) -> bool {
    &&& a.root@ == b.root@
    &&& more_a == more_b
    &&& node::cids_of(a.replaced@) == node::cids_of(b.replaced@)
    &&& build::puts_of(a.parity@) == build::puts_of(b.parity@)
}

/// Can the nodes that a change closes be held besides the blocks of the store: no two
/// blocks share an id?
pub open spec fn room_for_change(
    m: BlockMap,
    root: Seq<u8>,
    rule: Rule,
    recheck: bool,
    edits: Seq<(Vec<u8>, Edit)>,
    w: BlockMap,
) -> bool {
    forall|floors: Seq<Floor>| #[trigger]
        apply::chain(
            m,
            root,
            rule,
            recheck,
            apply::edit_rows(edits),
            apply::with_values(m, edits),
            floors,
        ) && apply::chain_ends(m, root, floors) ==> apply::holds_all(
            w,
            m,
            apply::closed_nodes(floors),
        )
}

/// A change comes out in one way, whatever the store holds. Two calls that carry out one
/// batch on one tree say the same: they answer one root, and hand over the same blocks,
/// replace the same nodes and report the same parity, each in the same order. All it takes
/// is that the nodes closed can be held besides the old blocks.
pub proof fn law_a_change_comes_out_one_way(
    m: BlockMap,
    root: Seq<u8>,
    rule: Rule,
    recheck: bool,
    edits: Seq<(Vec<u8>, Edit)>,
    a: Applied,
    more_a: Seq<Put>,
    b: Applied,
    more_b: Seq<Put>,
    w: BlockMap,
)
    requires
        apply::done_right(m, root, rule, recheck, edits, a, more_a),
        apply::done_right(m, root, rule, recheck, edits, b, more_b),
        room_for_change(m, root, rule, recheck, edits, w),
    ensures
        one_answer(a, more_a, b, more_b),
{
    reveal(apply::done_right);
    let (fa, pa) = choose|floors: Seq<Floor>, path: Seq<Seq<u8>>| #[trigger]
        apply::change(m, root, rule, recheck, edits, floors, path) && path.last() == a.root@
            && apply::hands_over(m, root, edits, floors, path, more_a) && apply::accounts(
            m,
            root,
            floors,
            path,
            a,
        );
    let (fb, pb) = choose|floors: Seq<Floor>, path: Seq<Seq<u8>>| #[trigger]
        apply::change(m, root, rule, recheck, edits, floors, path) && path.last() == b.root@
            && apply::hands_over(m, root, edits, floors, path, more_b) && apply::accounts(
            m,
            root,
            floors,
            path,
            b,
        );
    let es = apply::edit_rows(edits);
    lemma_floors_same(m, root, rule, recheck, es, apply::with_values(m, edits), fa, fb);
    lemma_path_same(m, root, rule, recheck, edits, fa, pa, pb, w);
}

// ---------------------------------------------------------------------------
// one error
// ---------------------------------------------------------------------------

/// Do two errors say the same?
pub open spec fn same_error(a: ApplyError, b: ApplyError) -> bool {
    match (a, b) {
        (ApplyError::Read(x), ApplyError::Read(y)) => x@ == y@,
        _ => a == b,
    }
}

/// What stops a stream is reported in one way.
proof fn lemma_says_same(x: Pushed, e: ApplyError, g: ApplyError)
    requires
        apply::says(x, e),
        apply::says(x, g),
    ensures
        same_error(e, g),
{
    let b = choose|b: BuildError| #[trigger] chunk::is_failure(b, x) && apply::reported(b, e);
    let c = choose|b: BuildError| #[trigger] chunk::is_failure(b, x) && apply::reported(b, g);
    assert(chunk::missing(b) == chunk::missing(c));
    assert(chunk::missing(b) is None ==> b == c);
}

/// A stretch that has come to a place has come to those before.
proof fn lemma_stretch_front(
    a: Seq<Slot>,
    ov: BlockMap,
    floor: u8,
    rule: Rule,
    es: Seq<EditRow>,
    first: int,
    from: int,
    q: int,
    p: int,
)
    requires
        q <= p,
        apply::stretch(a, ov, floor, rule, es, first, from, p) is Ok,
    ensures
        apply::stretch(a, ov, floor, rule, es, first, from, q) is Ok,
    decreases p - q,
{
    if q < p && p >= first {
        lemma_stretch_front(a, ov, floor, rule, es, first, from, q, p - 1);
    }
}

/// A stretch that was finished does not come to an error.
proof fn lemma_no_halt(
    a: Seq<Slot>,
    floor: u8,
    rule: Rule,
    ov: BlockMap,
    es: Seq<EditRow>,
    t: Trace,
    p: int,
    e: ApplyError,
)
    requires
        apply::run_ok(a, floor, rule, ov, es, t),
        apply::run_exact(a, floor, rule, ov, es, t),
        t.to == apply::reach(es, t.from, tree::next_key(a, None, t.last)),
    ensures
        !apply::run_halts(a, ov, floor, rule, es, t.first, t.from, p, e),
{
    reveal(apply::run_ok);
    reveal(apply::run_exact);
    if apply::run_halts(a, ov, floor, rule, es, t.first, t.from, p, e) {
        reveal(apply::halt_at);
        if p <= t.last {
            lemma_stretch_front(a, ov, floor, rule, es, t.first, t.from, p, t.last);
            assert(a[p].opened is Ok);
            reveal(apply::left_by);
        } else {
            reveal(apply::flows);
            assert(a[t.last].opened is Ok);
            assert(apply::busy(a, floor, rule, es, t.first, t.from, t.last));
            reveal(apply::busy);
            assert(apply::streamed(a, es, t.first, t.from, t.last) == edits::edited(
                tower::joined(apply::slot_runs(a, t.first, t.last + 1)),
                es.subrange(t.from, t.to),
            ));
        }
    }
}

/// Where a level went on it had not stopped.
proof fn lemma_went_on(
    a: Seq<Slot>,
    floor: u8,
    rule: Rule,
    ov: BlockMap,
    es: Seq<EditRow>,
    tr: Seq<Trace>,
    ts: Seq<Trace>,
    recheck: bool,
    e: ApplyError,
)
    requires
        apply::traces_ok(a, floor, rule, ov, es, tr, recheck),
        apply::traces_ok(a, floor, rule, ov, es, ts, recheck),
        tr.len() < ts.len(),
    ensures
        !apply::halts_after(a, ov, floor, rule, recheck, es, tr, e),
{
    let k = tr.len() as int;
    lemma_front_same(a, floor, rule, ov, es, tr, ts, k, recheck);
    if k > 0 {
        assert(tr[k - 1] == ts[k - 1]);
    }
    reveal(apply::traces_ok);
    assert(apply::trace_ok(a, floor, rule, ov, es, ts, k, recheck));
    let t = ts[k];
    assert(t.to == apply::reach(es, t.from, tree::next_key(a, None, t.last))) by {
        reveal(apply::confined);
    }
    if apply::halts_after(a, ov, floor, rule, recheck, es, tr, e) {
        let i = apply::taken(tr, k);
        let (first, p) = choose|first: int, p: int| #[trigger]
            apply::run_halts(a, ov, floor, rule, es, first, i, p, e) && first == apply::start_of(
                a,
                floor,
                es,
                apply::resumed(tr, k),
                i,
                recheck,
            );
        lemma_no_halt(a, floor, rule, ov, es, t, p, e);
    }
}

/// Where a level was done it had not stopped.
proof fn lemma_was_done(
    a: Seq<Slot>,
    floor: u8,
    rule: Rule,
    ov: BlockMap,
    es: Seq<EditRow>,
    tr: Seq<Trace>,
    ts: Seq<Trace>,
    recheck: bool,
    e: ApplyError,
)
    requires
        apply::traces_ok(a, floor, rule, ov, es, tr, recheck),
        apply::traces_ok(a, floor, rule, ov, es, ts, recheck),
        apply::taken(ts, ts.len() as int) == es.len(),
    ensures
        !apply::halts_after(a, ov, floor, rule, recheck, es, tr, e),
{
    if tr.len() < ts.len() {
        lemma_went_on(a, floor, rule, ov, es, tr, ts, recheck, e);
    } else {
        let k = ts.len() as int;
        lemma_front_same(a, floor, rule, ov, es, tr, ts, k, recheck);
        if k > 0 {
            assert(tr[k - 1] == ts[k - 1]);
        }
        if tr.len() > k {
            reveal(apply::traces_ok);
            assert(apply::trace_ok(a, floor, rule, ov, es, tr, k, recheck));
        }
    }
}

/// A stretch comes to one error.
proof fn lemma_halt_same(
    a: Seq<Slot>,
    ov: BlockMap,
    floor: u8,
    rule: Rule,
    es: Seq<EditRow>,
    first: int,
    from: int,
    p: int,
    e: ApplyError,
    q: int,
    g: ApplyError,
)
    requires
        apply::run_halts(a, ov, floor, rule, es, first, from, p, e),
        apply::run_halts(a, ov, floor, rule, es, first, from, q, g),
        p <= q,
    ensures
        same_error(e, g),
{
    reveal(apply::halt_at);
    if p < q {
        reveal(apply::flows);
        assert(a[p].opened is Ok);
        lemma_stretch_front(a, ov, floor, rule, es, first, from, p, q - 1);
    } else if a[p].opened is Ok {
        let x = apply::jam_of(
            ov,
            apply::known_at(a, first, p + 1),
            floor,
            p + 1 == a.len(),
            apply::stretch(a, ov, floor, rule, es, first, from, p),
        );
        lemma_says_same(x->Some_0, e, g);
    }
}

/// A level the old tree has stops with one error.
proof fn lemma_halts_same(
    a: Seq<Slot>,
    floor: u8,
    rule: Rule,
    ov: BlockMap,
    es: Seq<EditRow>,
    tr: Seq<Trace>,
    ts: Seq<Trace>,
    recheck: bool,
    e: ApplyError,
    g: ApplyError,
)
    requires
        apply::traces_ok(a, floor, rule, ov, es, tr, recheck),
        apply::traces_ok(a, floor, rule, ov, es, ts, recheck),
        apply::halts_after(a, ov, floor, rule, recheck, es, tr, e),
        apply::halts_after(a, ov, floor, rule, recheck, es, ts, g),
    ensures
        same_error(e, g),
{
    if tr.len() < ts.len() {
        lemma_went_on(a, floor, rule, ov, es, tr, ts, recheck, e);
    }
    if ts.len() < tr.len() {
        lemma_went_on(a, floor, rule, ov, es, ts, tr, recheck, g);
    }
    let k = tr.len() as int;
    lemma_front_same(a, floor, rule, ov, es, tr, ts, k, recheck);
    assert(tr =~= ts);
    let i = apply::taken(tr, k);
    let done = apply::resumed(tr, k);
    if apply::barred_by(a, floor, es, done, i, recheck) is None {
        let (first, p) = choose|first: int, p: int| #[trigger]
            apply::run_halts(a, ov, floor, rule, es, first, i, p, e) && first == apply::start_of(
                a,
                floor,
                es,
                done,
                i,
                recheck,
            );
        let (again, q) = choose|first: int, p: int| #[trigger]
            apply::run_halts(a, ov, floor, rule, es, first, i, p, g) && first == apply::start_of(
                a,
                floor,
                es,
                done,
                i,
                recheck,
            );
        if p <= q {
            lemma_halt_same(a, ov, floor, rule, es, first, i, p, e, q, g);
        } else {
            lemma_halt_same(a, ov, floor, rule, es, first, i, q, g, p, e);
        }
    }
}

/// A level stops with one error.
proof fn lemma_halted_same(
    m: BlockMap,
    root: Seq<u8>,
    ov: BlockMap,
    level: u8,
    rule: Rule,
    recheck: bool,
    es: Seq<EditRow>,
    e: ApplyError,
    g: ApplyError,
)
    requires
        apply::halted(m, root, ov, level, rule, recheck, es, e),
        apply::halted(m, root, ov, level, rule, recheck, es, g),
    ensures
        same_error(e, g),
{
    reveal(apply::halted);
    let a = cursor::level_of(m, root, level as int);
    if apply::old_height(m, root) < level {
        let none = Seq::<Known>::empty();
        let q = edits::edited(Seq::empty(), es);
        let x = apply::jam_of(
            ov,
            none,
            level,
            true,
            apply::poured(ov, none, level, rule, apply::dry(), q),
        );
        lemma_says_same(x->Some_0, e, g);
    } else {
        let tr = choose|tr: Seq<Trace>| #[trigger]
            apply::traces_ok(a, level, rule, ov, es, tr, recheck) && apply::halts_after(
                a,
                ov,
                level,
                rule,
                recheck,
                es,
                tr,
                e,
            );
        let ts = choose|tr: Seq<Trace>| #[trigger]
            apply::traces_ok(a, level, rule, ov, es, tr, recheck) && apply::halts_after(
                a,
                ov,
                level,
                rule,
                recheck,
                es,
                tr,
                g,
            );
        lemma_halts_same(a, level, rule, ov, es, tr, ts, recheck, e, g);
    }
}

/// A level that was rewritten did not stop.
proof fn lemma_floor_done(
    m: BlockMap,
    root: Seq<u8>,
    rule: Rule,
    recheck: bool,
    f: u8,
    x: Floor,
    e: ApplyError,
)
    requires
        apply::floor_ok(m, root, rule, recheck, f as int, x),
        apply::old_height(m, root) < f ==> x.es.len() > 0,
    ensures
        !apply::halted(m, root, x.ov, f, rule, recheck, x.es, e),
{
    reveal(apply::halted);
    reveal(apply::floor_ok);
    let a = cursor::level_of(m, root, f as int);
    if apply::halted(m, root, x.ov, f, rule, recheck, x.es, e) {
        if apply::old_height(m, root) < f {
            reveal(apply::raised);
            reveal(apply::left_by);
        } else {
            reveal(apply::rewritten);
            let tr = choose|tr: Seq<Trace>| #[trigger]
                apply::traces_ok(a, f, rule, x.ov, x.es, tr, recheck) && apply::halts_after(
                    a,
                    x.ov,
                    f,
                    rule,
                    recheck,
                    x.es,
                    tr,
                    e,
                );
            lemma_was_done(a, f, rule, x.ov, x.es, tr, x.tr, recheck, e);
        }
    }
}

/// What the next level is told follows from those below.
proof fn lemma_goes_same(
    m: BlockMap,
    root: Seq<u8>,
    es0: Seq<EditRow>,
    ov0: BlockMap,
    floors: Seq<Floor>,
    ea: Seq<EditRow>,
    oa: BlockMap,
    eb: Seq<EditRow>,
    ob: BlockMap,
)
    requires
        apply::goes_on(m, root, es0, ov0, floors, ea, oa),
        apply::goes_on(m, root, es0, ov0, floors, eb, ob),
    ensures
        ea == eb,
        oa == ob,
{
    reveal(apply::goes_on);
    if floors.len() > 0 {
        lemma_told_same(m, root, floors.len() - 1, floors.last(), ea, eb);
    }
}

/// The next level was told what goes up.
proof fn lemma_told_on(
    m: BlockMap,
    root: Seq<u8>,
    rule: Rule,
    recheck: bool,
    es: Seq<EditRow>,
    ov: BlockMap,
    fa: Seq<Floor>,
    fb: Seq<Floor>,
)
    requires
        apply::chain(m, root, rule, recheck, es, ov, fa),
        apply::chain(m, root, rule, recheck, es, ov, fb),
        fa.len() < fb.len(),
    ensures
        apply::goes_on(m, root, es, ov, fa, fb[fa.len() as int].es, fb[fa.len() as int].ov),
        apply::floor_ok(m, root, rule, recheck, fa.len() as int, fb[fa.len() as int]),
        fa.len() <= 255,
        fa.len() > 0 ==> fb[fa.len() as int].es.len() > 0,
{
    let n = fa.len() as int;
    lemma_levels_same(m, root, rule, recheck, es, ov, fa, fb, n);
    reveal(apply::chain);
    reveal(apply::goes_on);
    assert(apply::floor_ok(m, root, rule, recheck, n, fb[n]));
    assert(n <= 255) by {
        reveal(apply::floor_ok);
    }
    if n > 0 {
        assert(fa[n - 1] == fb[n - 1]);
        assert(apply::tells(m, root, n - 1, fb[n - 1], fb[n].es));
    }
}

/// Where a change went higher it had not stopped.
proof fn lemma_rose_on(
    m: BlockMap,
    root: Seq<u8>,
    rule: Rule,
    recheck: bool,
    es: Seq<EditRow>,
    ov: BlockMap,
    fa: Seq<Floor>,
    fb: Seq<Floor>,
    e: ApplyError,
)
    requires
        apply::chain(m, root, rule, recheck, es, ov, fa),
        apply::chain(m, root, rule, recheck, es, ov, fb),
        fa.len() < fb.len(),
    ensures
        !apply::stops_after(m, root, rule, recheck, es, ov, fa, e),
{
    let x = fb[fa.len() as int];
    lemma_told_on(m, root, rule, recheck, es, ov, fa, fb);
    if apply::stops_after(m, root, rule, recheck, es, ov, fa, e) {
        let (ea, oa, f) = choose|ea: Seq<EditRow>, oa: BlockMap, f: u8| #[trigger]
            apply::halts_next(m, root, rule, recheck, es, ov, fa, ea, oa, f, e);
        lemma_goes_same(m, root, es, ov, fa, ea, oa, x.es, x.ov);
        lemma_floor_done(m, root, rule, recheck, f, x, e);
    }
}

/// Where a change ended it had not stopped.
proof fn lemma_ended_on(
    m: BlockMap,
    root: Seq<u8>,
    rule: Rule,
    recheck: bool,
    es: Seq<EditRow>,
    ov: BlockMap,
    fa: Seq<Floor>,
    fb: Seq<Floor>,
    e: ApplyError,
)
    requires
        apply::chain(m, root, rule, recheck, es, ov, fa),
        apply::chain(m, root, rule, recheck, es, ov, fb),
        apply::chain_ends(m, root, fb),
    ensures
        !apply::stops_after(m, root, rule, recheck, es, ov, fa, e),
{
    lemma_no_higher(m, root, rule, recheck, es, ov, fb, fa);
    if fa.len() < fb.len() {
        lemma_rose_on(m, root, rule, recheck, es, ov, fa, fb, e);
    } else {
        lemma_levels_same(m, root, rule, recheck, es, ov, fa, fb, fa.len() as int);
        assert(fa =~= fb);
        if apply::stops_after(m, root, rule, recheck, es, ov, fa, e) {
            if fa.len() != 256 || apply::is_top(fa.last()) || apply::tells(
                m,
                root,
                255,
                fa.last(),
                Seq::empty(),
            ) {
                let (ea, oa, f) = choose|ea: Seq<EditRow>, oa: BlockMap, f: u8| #[trigger]
                    apply::halts_next(m, root, rule, recheck, es, ov, fa, ea, oa, f, e);
                reveal(apply::goes_on);
                lemma_told_same(m, root, fa.len() - 1, fa.last(), ea, Seq::empty());
            }
        }
    }
}

/// A change stops with one error.
proof fn lemma_stops_same(
    m: BlockMap,
    root: Seq<u8>,
    rule: Rule,
    recheck: bool,
    es: Seq<EditRow>,
    ov: BlockMap,
    fa: Seq<Floor>,
    fb: Seq<Floor>,
    e: ApplyError,
    g: ApplyError,
)
    requires
        apply::chain(m, root, rule, recheck, es, ov, fa),
        apply::chain(m, root, rule, recheck, es, ov, fb),
        apply::stops_after(m, root, rule, recheck, es, ov, fa, e),
        apply::stops_after(m, root, rule, recheck, es, ov, fb, g),
    ensures
        same_error(e, g),
{
    if fa.len() < fb.len() {
        lemma_rose_on(m, root, rule, recheck, es, ov, fa, fb, e);
    }
    if fb.len() < fa.len() {
        lemma_rose_on(m, root, rule, recheck, es, ov, fb, fa, g);
    }
    lemma_levels_same(m, root, rule, recheck, es, ov, fa, fb, fa.len() as int);
    assert(fa =~= fb);
    if fa.len() < 256 {
        let (ea, oa, f) = choose|ea: Seq<EditRow>, oa: BlockMap, f: u8| #[trigger]
            apply::halts_next(m, root, rule, recheck, es, ov, fa, ea, oa, f, e);
        let (eb, ob, h) = choose|ea: Seq<EditRow>, oa: BlockMap, f: u8| #[trigger]
            apply::halts_next(m, root, rule, recheck, es, ov, fa, ea, oa, f, g);
        lemma_goes_same(m, root, es, ov, fa, ea, oa, eb, ob);
        lemma_halted_same(m, root, oa, f, rule, recheck, ea, e, g);
    }
}

/// A way down goes no further than a step that is not found.
proof fn lemma_walk_ends(
    m: BlockMap,
    made: Seq<NodeView>,
    w: BlockMap,
    pa: Seq<Seq<u8>>,
    pb: Seq<Seq<u8>>,
    n: int,
)
    requires
        apply::slides(w, pa),
        apply::slides(w, pb),
        pa.len() > 0,
        pb.len() > 0,
        pa[0] == pb[0],
        apply::unmade(made, pa),
        store::loaded(m, pa.last()) is Err,
        n <= pb.len(),
        apply::walked(m, made, pb, n),
    ensures
        n < pa.len(),
{
    if n >= pa.len() {
        let k = pa.len() as int;
        lemma_steps_same(w, pa, pb, k);
        reveal(apply::walked);
        assert(apply::found_at(m, made, pb, k - 1));
        assert(pb.take(k) =~= pa);
        assert(pb[k - 1] == pa[k - 1]);
    }
}

/// A root that was settled was not lost.
proof fn lemma_not_lost(
    m: BlockMap,
    root: Seq<u8>,
    rule: Rule,
    recheck: bool,
    edits: Seq<(Vec<u8>, Edit)>,
    floors: Seq<Floor>,
    path: Seq<Seq<u8>>,
    w: BlockMap,
    e: ApplyError,
)
    requires
        apply::change(m, root, rule, recheck, edits, floors, path),
        apply::holds_all(w, m, apply::closed_nodes(floors)),
    ensures
        !apply::lost(m, apply::closed_nodes(floors), apply::tip(root, floors), e),
{
    let made = apply::closed_nodes(floors);
    let tip = apply::tip(root, floors);
    if apply::lost(m, made, tip, e) {
        reveal(apply::lost);
        reveal(apply::slides_in);
        let p = choose|p: Seq<Seq<u8>>|
            p.len() > 0 && p[0] == tip && #[trigger] apply::slides_in(m, made, p) && apply::walked(
                m,
                made,
                p,
                p.len() - 1,
            ) && match e {
                ApplyError::Read(x) => store::loaded(m, p.last()) == Err::<NodeView, Fault>(x@)
                    && apply::unmade(made, p) && p.len() <= u64::MAX,
                ApplyError::Node(b) => b == BuildError::Overflow && p.len() > u64::MAX,
                _ => false,
            };
        lemma_no_longer(w, path, p);
        if e is Read {
            lemma_walk_ends(m, made, w, p, path, path.len() as int);
        }
    }
}

/// A root is lost with one error.
proof fn lemma_lost_same(
    m: BlockMap,
    made: Seq<NodeView>,
    tip: Seq<u8>,
    w: BlockMap,
    e: ApplyError,
    g: ApplyError,
)
    requires
        apply::lost(m, made, tip, e),
        apply::lost(m, made, tip, g),
        apply::holds_all(w, m, made),
    ensures
        same_error(e, g),
{
    reveal(apply::lost);
    reveal(apply::slides_in);
    let p = choose|p: Seq<Seq<u8>>|
        p.len() > 0 && p[0] == tip && #[trigger] apply::slides_in(m, made, p) && apply::walked(
            m,
            made,
            p,
            p.len() - 1,
        ) && match e {
            ApplyError::Read(x) => store::loaded(m, p.last()) == Err::<NodeView, Fault>(x@)
                && apply::unmade(made, p) && p.len() <= u64::MAX,
            ApplyError::Node(b) => b == BuildError::Overflow && p.len() > u64::MAX,
            _ => false,
        };
    let q = choose|p: Seq<Seq<u8>>|
        p.len() > 0 && p[0] == tip && #[trigger] apply::slides_in(m, made, p) && apply::walked(
            m,
            made,
            p,
            p.len() - 1,
        ) && match g {
            ApplyError::Read(x) => store::loaded(m, p.last()) == Err::<NodeView, Fault>(x@)
                && apply::unmade(made, p) && p.len() <= u64::MAX,
            ApplyError::Node(b) => b == BuildError::Overflow && p.len() > u64::MAX,
            _ => false,
        };
    if e is Read {
        lemma_walk_ends(m, made, w, p, q, q.len() - 1);
    }
    if g is Read {
        lemma_walk_ends(m, made, w, q, p, p.len() - 1);
    }
    if e is Read && g is Read {
        lemma_steps_same(w, p, q, p.len() as int);
        assert(p =~= q);
    }
}

/// A change that was carried out was not stopped.
proof fn lemma_not_undone(
    m: BlockMap,
    root: Seq<u8>,
    rule: Rule,
    recheck: bool,
    edits: Seq<(Vec<u8>, Edit)>,
    a: Applied,
    more: Seq<Put>,
    w: BlockMap,
    e: ApplyError,
)
    requires
        apply::done_right(m, root, rule, recheck, edits, a, more),
        room_for_change(m, root, rule, recheck, edits, w),
    ensures
        !apply::undone(m, root, rule, recheck, edits, e),
{
    reveal(apply::done_right);
    let (floors, path) = choose|floors: Seq<Floor>, path: Seq<Seq<u8>>| #[trigger]
        apply::change(m, root, rule, recheck, edits, floors, path) && path.last() == a.root@
            && apply::hands_over(m, root, edits, floors, path, more) && apply::accounts(
            m,
            root,
            floors,
            path,
            a,
        );
    let es = apply::edit_rows(edits);
    let ov = apply::with_values(m, edits);
    if apply::undone(m, root, rule, recheck, edits, e) {
        reveal(apply::undone);
        if apply::stopped(m, root, rule, recheck, es, ov, e) {
            reveal(apply::stopped);
            let fa = choose|fa: Seq<Floor>| #[trigger]
                apply::chain(m, root, rule, recheck, es, ov, fa) && apply::stops_after(
                    m,
                    root,
                    rule,
                    recheck,
                    es,
                    ov,
                    fa,
                    e,
                );
            lemma_ended_on(m, root, rule, recheck, es, ov, fa, floors, e);
        } else {
            let fa = choose|fa: Seq<Floor>| #[trigger]
                apply::chain(m, root, rule, recheck, es, ov, fa) && apply::chain_ends(m, root, fa)
                    && apply::lost(m, apply::closed_nodes(fa), apply::tip(root, fa), e);
            lemma_floors_same(m, root, rule, recheck, es, ov, fa, floors);
            lemma_not_lost(m, root, rule, recheck, edits, floors, path, w, e);
        }
    }
}

/// A change that was not carried out was stopped by one error.
proof fn lemma_undone_same(
    m: BlockMap,
    root: Seq<u8>,
    rule: Rule,
    recheck: bool,
    edits: Seq<(Vec<u8>, Edit)>,
    w: BlockMap,
    e: ApplyError,
    g: ApplyError,
)
    requires
        apply::undone(m, root, rule, recheck, edits, e),
        apply::undone(m, root, rule, recheck, edits, g),
        room_for_change(m, root, rule, recheck, edits, w),
    ensures
        same_error(e, g),
{
    reveal(apply::undone);
    reveal(apply::stopped);
    let es = apply::edit_rows(edits);
    let ov = apply::with_values(m, edits);
    if store::loaded(m, root) is Ok {
        let ea = apply::stopped(m, root, rule, recheck, es, ov, e);
        let eb = apply::stopped(m, root, rule, recheck, es, ov, g);
        let fa = choose|fa: Seq<Floor>| #[trigger]
            apply::chain(m, root, rule, recheck, es, ov, fa) && if ea {
                apply::stops_after(m, root, rule, recheck, es, ov, fa, e)
            } else {
                apply::chain_ends(m, root, fa) && apply::lost(
                    m,
                    apply::closed_nodes(fa),
                    apply::tip(root, fa),
                    e,
                )
            };
        let fb = choose|fa: Seq<Floor>| #[trigger]
            apply::chain(m, root, rule, recheck, es, ov, fa) && if eb {
                apply::stops_after(m, root, rule, recheck, es, ov, fa, g)
            } else {
                apply::chain_ends(m, root, fa) && apply::lost(
                    m,
                    apply::closed_nodes(fa),
                    apply::tip(root, fa),
                    g,
                )
            };
        if ea && eb {
            lemma_stops_same(m, root, rule, recheck, es, ov, fa, fb, e, g);
        } else if ea {
            lemma_ended_on(m, root, rule, recheck, es, ov, fa, fb, e);
        } else if eb {
            lemma_ended_on(m, root, rule, recheck, es, ov, fb, fa, g);
        } else {
            lemma_floors_same(m, root, rule, recheck, es, ov, fa, fb);
            lemma_lost_same(m, apply::closed_nodes(fa), apply::tip(root, fa), w, e, g);
        }
    }
}

/// Is this an answer to a change, with these blocks handed over?
pub open spec fn answered(
    m: BlockMap,
    root: Seq<u8>,
    rule: Rule,
    recheck: bool,
    edits: Seq<(Vec<u8>, Edit)>,
    r: Result<Applied, ApplyError>,
    more: Seq<Put>,
) -> bool {
    match r {
        Ok(a) => apply::taken_up(m, root, edits) && apply::done_right(
            m,
            root,
            rule,
            recheck,
            edits,
            a,
            more,
        ),
        Err(e) => apply::owed_error(m, root, rule, recheck, edits, e) && more.len() == 0,
    }
}

/// However a change is asked for, and whatever the store holds, there is one answer. Two
/// calls with one batch on one tree both carry it out, and say the same; or both refuse it
/// with the same error, and nothing is handed over.
pub proof fn law_a_change_has_one_answer(
    m: BlockMap,
    root: Seq<u8>,
    rule: Rule,
    recheck: bool,
    edits: Seq<(Vec<u8>, Edit)>,
    r: Result<Applied, ApplyError>,
    more_r: Seq<Put>,
    s: Result<Applied, ApplyError>,
    more_s: Seq<Put>,
    w: BlockMap,
)
    requires
        answered(m, root, rule, recheck, edits, r, more_r),
        answered(m, root, rule, recheck, edits, s, more_s),
        room_for_change(m, root, rule, recheck, edits, w),
    ensures
        match (r, s) {
            (Ok(a), Ok(b)) => one_answer(a, more_r, b, more_s),
            (Err(e), Err(g)) => same_error(e, g) && more_r == more_s,
            _ => false,
        },
{
    if r is Err && s is Err {
        assert(more_r =~= more_s);
    }
    if let Ok(ids) = apply::lacking(m, root, apply::edit_rows(edits), edits.len()) {
        if ids.len() == 0 {
            assert(ids =~= Seq::<Seq<u8>>::empty());
        }
    }
    match (r, s) {
        (Ok(a), Ok(b)) => {
            law_a_change_comes_out_one_way(
                m,
                root,
                rule,
                recheck,
                edits,
                a,
                more_r,
                b,
                more_s,
                w,
            );
        },
        (Ok(a), Err(e)) => {
            lemma_not_undone(m, root, rule, recheck, edits, a, more_r, w, e);
        },
        (Err(e), Ok(b)) => {
            lemma_not_undone(m, root, rule, recheck, edits, b, more_s, w, e);
        },
        (Err(e), Err(g)) => {
            if apply::taken_up(m, root, edits) {
                lemma_undone_same(m, root, rule, recheck, edits, w, e, g);
            }
        },
    }
}

} // verus!
