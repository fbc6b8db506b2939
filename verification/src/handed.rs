//! What a change hands over is what is new, and what it replaces is what is gone: in
//! every store in which the old tree stands and which holds the nodes that the change
//! closed, it hands over the nodes of the new tree that the old one has not, besides
//! the values it was given, and it replaces the nodes of the old tree that the new one
//! has not.

use crate::apply;
use crate::apply::{Edit, Floor};
use crate::build;
use crate::build::Put;
use crate::chunk;
use crate::chunk::Rule;
use crate::cursor;
use crate::edits;
use crate::merge;
use crate::node;
use crate::node::{NodeView, Row};
use crate::order;
use crate::rebuild;
use crate::store;
use crate::store::{BlockMap, Fault, HeldView};
use crate::tower;
use crate::tree;
use crate::tree::Slot;
use vstd::prelude::*;

verus! {

// ---------------------------------------------------------------------------
// the nodes of a tree
// ---------------------------------------------------------------------------

/// Is this the id of place `i` on level `f` of a tree?
pub open spec fn at_place(w: BlockMap, root: Seq<u8>, f: int, i: int, id: Seq<u8>) -> bool {
    &&& store::loaded(w, root) is Ok
    &&& 0 <= f <= store::loaded(w, root)->Ok_0.level
    &&& 0 <= i < cursor::level_of(w, root, f).len()
    &&& cursor::level_of(w, root, f)[i].cid == id
}

/// Is this the id of a node of the tree at `root`?
pub open spec fn on_tree(w: BlockMap, root: Seq<u8>, id: Seq<u8>) -> bool {
    exists|f: int, i: int| #[trigger] at_place(w, root, f, i, id)
}

/// Is this the id of a node of one level of the tree of some rows?
spec fn here(w: BlockMap, rule: Rule, rows: Seq<Row>, f: nat, id: Seq<u8>) -> bool {
    exists|n: NodeView| #[trigger]
        rebuild::new_level(w, rule, rows, f).contains(n) && chunk::node_id(n) == id
}

/// How tall the tree of some rows is.
spec fn height(w: BlockMap, rule: Rule, rows: Seq<Row>) -> int {
    tower::top(w, rule, rows)->Some_0.level as int
}

/// Is this the id of a node of the tree of some rows?
spec fn tree_has(w: BlockMap, rule: Rule, rows: Seq<Row>, id: Seq<u8>) -> bool {
    if rows.len() == 0 {
        id == chunk::node_id(chunk::empty_node())
    } else {
        exists|f: nat| f <= height(w, rule, rows) && #[trigger] here(w, rule, rows, f, id)
    }
}

/// Nodes of a level that are what they should be.
#[verifier::opaque]
spec fn sound_level(w: BlockMap, rule: Rule, rows: Seq<Row>, f: nat) -> bool {
    forall|n: NodeView| #[trigger]
        rebuild::new_level(w, rule, rows, f).contains(n) ==> tower::kept(w, n) && n.level == f
            && n.rows.len() > 0
}

/// A level of rows that fit is sound where its nodes are held.
proof fn lemma_sound(w: BlockMap, rule: Rule, rows: Seq<Row>, f: nat)
    requires
        f <= 255,
        tower::all_small(tower::level_rows(w, rule, rows, f)),
        forall|i: int|
            0 <= i < rebuild::new_level(w, rule, rows, f).len() ==> tower::kept(
                w,
                #[trigger] rebuild::new_level(w, rule, rows, f)[i],
            ),
    ensures
        sound_level(w, rule, rows, f),
{
    reveal(sound_level);
    let r = tower::level_rows(w, rule, rows, f);
    let runs = chunk::chunks(f as u8, rule, r);
    let ns = rebuild::new_level(w, rule, rows, f);
    tower::lemma_chunks(f as u8, rule, r);
    assert forall|n: NodeView| #[trigger] ns.contains(n) implies tower::kept(w, n) && n.level == f
        && n.rows.len() > 0 by {
        let i = choose|i: int| 0 <= i < ns.len() && ns[i] == n;
        assert(tower::kept(w, ns[i]));
        assert(n == tower::node_of(w, f as u8, runs[i]));
    }
}

/// The levels of a tree that stands are sound.
proof fn lemma_sound_tree(w: BlockMap, rule: Rule, rows: Seq<Row>, f: nat)
    requires
        tower::stands(w, rule, rows),
        rows.len() > 0,
        tower::all_small(rows),
        node::sorted_rows(rows),
        f <= height(w, rule, rows),
    ensures
        sound_level(w, rule, rows, f),
{
    rebuild::lemma_level_stands(w, rule, rows, f);
    lemma_sound(w, rule, rows, f);
}

/// One id, one level.
proof fn lemma_one_level(
    w: BlockMap,
    rule: Rule,
    a: Seq<Row>,
    f: nat,
    b: Seq<Row>,
    g: nat,
    id: Seq<u8>,
) -> (n: NodeView)
    requires
        sound_level(w, rule, a, f),
        sound_level(w, rule, b, g),
        here(w, rule, a, f, id),
        here(w, rule, b, g, id),
    ensures
        f == g,
        rebuild::new_level(w, rule, a, f).contains(n),
        rebuild::new_level(w, rule, b, g).contains(n),
        chunk::node_id(n) == id,
        tower::kept(w, n),
        n.rows.len() > 0,
        n.level == f,
{
    reveal(sound_level);
    let x = choose|n: NodeView| #[trigger]
        rebuild::new_level(w, rule, a, f).contains(n) && chunk::node_id(n) == id;
    let y = choose|n: NodeView| #[trigger]
        rebuild::new_level(w, rule, b, g).contains(n) && chunk::node_id(n) == id;
    rebuild::lemma_one_id(w, x, y);
    x
}

/// The nodes of the tree at a root are those of the tree of its rows.
proof fn lemma_on_tree(w: BlockMap, rule: Rule, rows: Seq<Row>, root: Seq<u8>, id: Seq<u8>)
    requires
        build::delivers(w, rule, rows, root),
        build::proper(rows),
    ensures
        on_tree(w, root, id) <==> tree_has(w, rule, rows, id),
{
    rebuild::lemma_proper_fits(rows);
    let n = tower::top(w, rule, rows)->Some_0;
    tower::lemma_top_kept(w, rule, rows, 0);
    tower::lemma_kept(w, n);
    if rows.len() == 0 {
        assert(chunk::chunks(0, rule, rows) =~= Seq::<Seq<Row>>::empty());
        assert(n == chunk::empty_node());
        assert(cursor::level_of(w, root, 0) =~= seq![tree::root_slot(w, root)]);
        assert(at_place(w, root, 0, 0, root));
    } else {
        if on_tree(w, root, id) {
            let (f, i) = choose|f: int, i: int| #[trigger] at_place(w, root, f, i, id);
            rebuild::lemma_old_level(w, rule, rows, f as nat);
            reveal(rebuild::is_level);
            let ns = rebuild::new_level(w, rule, rows, f as nat);
            assert(ns.contains(ns[i]));
            assert(here(w, rule, rows, f as nat, id));
        }
        if tree_has(w, rule, rows, id) {
            let f = choose|f: nat| f <= height(w, rule, rows) && #[trigger]
                here(w, rule, rows, f, id);
            rebuild::lemma_old_level(w, rule, rows, f);
            reveal(rebuild::is_level);
            let ns = rebuild::new_level(w, rule, rows, f);
            let x = choose|n: NodeView| #[trigger] ns.contains(n) && chunk::node_id(n) == id;
            let i = choose|i: int| 0 <= i < ns.len() && ns[i] == x;
            assert(at_place(w, root, f as int, i, id));
        }
    }
}

// ---------------------------------------------------------------------------
// the nodes above a level
// ---------------------------------------------------------------------------

/// Is there a place with this id under a slot, above a level?
spec fn over(w: BlockMap, s: Slot, top: int, floor: int, id: Seq<u8>) -> bool {
    exists|g: int, i: int|
        floor < g <= top && 0 <= i < tree::level_slots(w, s, g).len() && (#[trigger] tree::level_slots(
            w,
            s,
            g,
        )[i]).cid == id
}

/// Is there a place with this id under the first `n` children, above a level?
spec fn over_first(w: BlockMap, h: HeldView, floor: int, n: nat, id: Seq<u8>) -> bool {
    exists|g: int, i: int|
        floor < g < h.node.level && 0 <= i < tree::child_slots(w, h, g, n).len()
            && (#[trigger] tree::child_slots(w, h, g, n)[i]).cid == id
}

/// Where a level is all open, every branch above it is listed.
proof fn lemma_above(m: BlockMap, w: BlockMap, s: Slot, h: HeldView, floor: int, id: Seq<u8>)
    requires
        m.submap_of(w),
        s.opened == Ok::<HeldView, Fault>(h),
        apply::all_open(tree::level_slots(m, s, floor)),
        floor >= 0,
    ensures
        apply::above(m, h, s.cid, floor).contains(id) <==> over(w, s, h.node.level as int, floor, id),
    decreases h.node.level as nat, 1nat, 0nat,
{
    let d = h.node.level as int;
    if d > floor {
        let n = h.node.rows.len();
        lemma_above_first(m, w, h, floor, n, id);
        let kids = apply::above_children(m, h, floor, n);
        let all = apply::above(m, h, s.cid, floor);
        assert(all == seq![s.cid] + kids);
        if all.contains(id) {
            let i = choose|i: int| 0 <= i < all.len() && all[i] == id;
            if i == 0 {
                assert(tree::level_slots(w, s, d)[0].cid == id);
            } else {
                assert(kids[i - 1] == id);
                let (g, j) = choose|g: int, j: int|
                    floor < g < d && 0 <= j < tree::child_slots(w, h, g, n).len()
                        && (#[trigger] tree::child_slots(w, h, g, n)[j]).cid == id;
                assert(tree::level_slots(w, s, g)[j].cid == id);
            }
        }
        if over(w, s, d, floor, id) {
            let (g, j) = choose|g: int, j: int|
                floor < g <= d && 0 <= j < tree::level_slots(w, s, g).len()
                    && (#[trigger] tree::level_slots(w, s, g)[j]).cid == id;
            if g == d {
                assert(all[0] == id);
            } else {
                assert(tree::child_slots(w, h, g, n)[j].cid == id);
                let i = choose|i: int| 0 <= i < kids.len() && kids[i] == id;
                assert(all[i + 1] == id);
            }
        }
    }
}

proof fn lemma_above_first(m: BlockMap, w: BlockMap, h: HeldView, floor: int, n: nat, id: Seq<u8>)
    requires
        m.submap_of(w),
        n <= h.node.rows.len(),
        h.node.level > floor >= 0,
        apply::all_open(tree::child_slots(m, h, floor, n)),
    ensures
        apply::above_children(m, h, floor, n).contains(id) <==> over_first(w, h, floor, n, id),
    decreases h.node.level as nat, 0nat, n,
{
    if n > 0 && h.node.level > floor + 1 {
        let k = (n - 1) as nat;
        let s = tree::child_slot(m, h, n - 1);
        let low = tree::child_slots(m, h, floor, k);
        let mine = tree::level_slots(m, s, floor);
        let both = tree::child_slots(m, h, floor, n);
        assert(both == low + mine);
        assert forall|i: int| 0 <= i < low.len() implies (#[trigger] low[i]).opened is Ok by {
            assert(both[i].opened is Ok);
        }
        assert forall|i: int| 0 <= i < mine.len() implies (#[trigger] mine[i]).opened is Ok by {
            assert(both[low.len() + i].opened is Ok);
        }
        if s.opened is Err {
            assert(mine[0] == s);
        }
        let c = s.opened->Ok_0;
        let cid = s.cid;
        assert(tree::child_slot(w, h, n - 1) == s) by {
            reveal(store::loaded);
            assert(m.dom().contains(cid) && w.dom().contains(cid));
        }
        assert(c.node.level == h.node.level - 1);
        lemma_above(m, w, s, c, floor, id);
        lemma_above_first(m, w, h, floor, k, id);
        let first = apply::above(m, c, s.cid, floor);
        let rest = apply::above_children(m, h, floor, k);
        let all = apply::above_children(m, h, floor, n);
        assert(all == first + rest);
        if all.contains(id) {
            let i = choose|i: int| 0 <= i < all.len() && all[i] == id;
            if i < first.len() {
                assert(first[i] == id);
                let (g, j) = choose|g: int, j: int|
                    floor < g <= c.node.level && 0 <= j < tree::level_slots(w, s, g).len()
                        && (#[trigger] tree::level_slots(w, s, g)[j]).cid == id;
                let p = tree::child_slots(w, h, g, k).len() + j;
                assert(tree::child_slots(w, h, g, n)[p].cid == id);
            } else {
                assert(rest[i - first.len()] == id);
                let (g, j) = choose|g: int, j: int|
                    floor < g < h.node.level && 0 <= j < tree::child_slots(w, h, g, k).len()
                        && (#[trigger] tree::child_slots(w, h, g, k)[j]).cid == id;
                assert(tree::child_slots(w, h, g, n)[j].cid == id);
            }
        }
        if over_first(w, h, floor, n, id) {
            let (g, j) = choose|g: int, j: int|
                floor < g < h.node.level && 0 <= j < tree::child_slots(w, h, g, n).len()
                    && (#[trigger] tree::child_slots(w, h, g, n)[j]).cid == id;
            let p = tree::child_slots(w, h, g, k).len() as int;
            if j < p {
                assert(tree::child_slots(w, h, g, k)[j].cid == id);
                let i = choose|i: int| 0 <= i < rest.len() && rest[i] == id;
                assert(all[first.len() + i] == id);
            } else {
                assert(tree::level_slots(w, s, g)[j - p].cid == id);
                let i = choose|i: int| 0 <= i < first.len() && first[i] == id;
                assert(all[i] == id);
            }
        }
    } else if n == 0 {
        assert(forall|g: int| (#[trigger] tree::child_slots(w, h, g, n)).len() == 0);
    }
}

// ---------------------------------------------------------------------------
// one level of a change
// ---------------------------------------------------------------------------

/// Does the old tree have a level?
spec fn old_has(w: BlockMap, rule: Rule, rows: Seq<Row>, f: nat) -> bool {
    rows.len() > 0 && f <= height(w, rule, rows)
}

/// What a level of a change made of the old one.
#[verifier::opaque]
spec fn level_says(
    m: BlockMap,
    root: Seq<u8>,
    rule: Rule,
    w: BlockMap,
    rows: Seq<Row>,
    next: Seq<Row>,
    f: nat,
    x: Floor,
) -> bool {
    let was = apply::was_at(m, root, f as int, x);
    let old_nodes = rebuild::new_level(w, rule, rows, f);
    let new_nodes = rebuild::new_level(w, rule, next, f);
    &&& sound_level(w, rule, next, f)
    &&& forall|n: NodeView| #[trigger] x.nodes.contains(n) ==> new_nodes.contains(n)
    &&& forall|n: NodeView| #[trigger]
        new_nodes.contains(n) ==> x.nodes.contains(n) || (old_has(w, rule, rows, f)
            && old_nodes.contains(n) && !rebuild::stood(was, n))
    &&& old_has(w, rule, rows, f) ==> forall|n: NodeView| #[trigger]
        old_nodes.contains(n) && !rebuild::stood(was, n) ==> new_nodes.contains(n)
            && !x.nodes.contains(n)
    &&& forall|id: Seq<u8>| #[trigger]
        apply::slot_ids(was).contains(id) ==> if old_has(w, rule, rows, f) {
            here(w, rule, rows, f, id)
        } else {
            rows.len() == 0 && f == 0 && id == root
        }
    &&& rows.len() == 0 && f == 0 && x.es.len() > 0 ==> apply::slot_ids(was).contains(root)
    &&& rows.len() == 0 && f == 0 && x.es.len() == 0 ==> was.len() == 0
}

/// What every level of a change made of the old one.
#[verifier::rlimit(40)]
proof fn lemma_level_says(
    m: BlockMap,
    root: Seq<u8>,
    rule: Rule,
    edits: Seq<(Vec<u8>, Edit)>,
    floors: Seq<Floor>,
    w: BlockMap,
    rows: Seq<Row>,
    f: int,
)
    requires
        rebuild::partway(m, root, rule, edits, floors, w, rows),
        0 <= f < floors.len(),
    ensures
        level_says(
            m,
            root,
            rule,
            w,
            rows,
            rebuild::changed(rows, edits),
            f as nat,
            floors[f],
        ),
{
    let x = floors[f];
    let next = rebuild::changed(rows, edits);
    let was = apply::was_at(m, root, f, x);
    rebuild::lemma_link(m, root, rule, edits, floors, w, rows, f);
    rebuild::lemma_on_level(m, root, rule, edits, floors, w, rows, f);
    rebuild::lemma_height(m, root, rule, edits, floors, w, rows);
    rebuild::lemma_level_done(m, root, rule, edits, floors, w, rows, f);
    assert(sound_level(w, rule, next, f as nat)) by {
        reveal(rebuild::level_done);
        lemma_sound(w, rule, next, f as nat);
    }
    if old_has(w, rule, rows, f as nat) {
        rebuild::lemma_low_level(m, root, rule, edits, floors, w, rows, f);
        let old_nodes = rebuild::new_level(w, rule, rows, f as nat);
        assert forall|id: Seq<u8>| #[trigger] apply::slot_ids(was).contains(id) implies here(
            w,
            rule,
            rows,
            f as nat,
            id,
        ) by {
            reveal(rebuild::swapped);
            let i = choose|i: int| 0 <= i < apply::slot_ids(was).len() && apply::slot_ids(was)[i] == id;
            assert(rebuild::is_slot_of(old_nodes, was[i]));
            let n = choose|n: NodeView| #[trigger]
                old_nodes.contains(n) && was[i].cid == chunk::node_id(n) && chunk::first_key(
                    apply::rows_at(was[i]),
                ) == chunk::first_key(n.rows);
            assert(old_nodes.contains(n));
        }
        reveal(rebuild::swapped);
        reveal(level_says);
    } else {
        if rows.len() == 0 && f == 0 {
            rebuild::lemma_empty_level(m, root, rule, edits, floors, w, rows);
            rebuild::lemma_empty_tree(m, root, rule, edits, floors, w, rows);
            assert(apply::floor_ok(m, root, rule, true, 0, x)) by {
                reveal(rebuild::partway);
                reveal(rebuild::ended);
                reveal(apply::chain);
            }
            reveal(apply::floor_ok);
            reveal(apply::rewritten);
            let a = cursor::level_of(m, root, 0);
            if x.es.len() > 0 {
                rebuild::lemma_one_place_streamed(a, 0, rule, x.ov, x.es, x.tr);
                reveal_with_fuel(apply::traced_slots, 2);
                assert(was =~= a);
                assert(apply::slot_ids(was)[0] == root);
            }
        } else {
            if rows.len() == 0 {
                rebuild::lemma_empty_tree(m, root, rule, edits, floors, w, rows);
            }
            rebuild::lemma_high_level(m, root, rule, edits, floors, w, rows, f);
            assert(was.len() == 0);
        }
        reveal(level_says);
    }
}

/// A node that a level made is a node of that level after the change.
pub proof fn lemma_made_node(
    m: BlockMap,
    root: Seq<u8>,
    rule: Rule,
    edits: Seq<(Vec<u8>, Edit)>,
    floors: Seq<Floor>,
    w: BlockMap,
    rows: Seq<Row>,
    f: int,
    n: NodeView,
)
    requires
        rebuild::partway(m, root, rule, edits, floors, w, rows),
        0 <= f < floors.len(),
        floors[f].nodes.contains(n),
    ensures
        rebuild::new_level(w, rule, rebuild::changed(rows, edits), f as nat).contains(n),
{
    lemma_level_says(m, root, rule, edits, floors, w, rows, f);
    reveal(level_says);
}

/// A node of a level after the change is held, and was made or is an old one.
#[verifier::rlimit(60)]
#[verifier::spinoff_prover]
pub proof fn lemma_new_node(
    m: BlockMap,
    root: Seq<u8>,
    rule: Rule,
    edits: Seq<(Vec<u8>, Edit)>,
    floors: Seq<Floor>,
    w: BlockMap,
    rows: Seq<Row>,
    f: int,
    n: NodeView,
)
    requires
        rebuild::partway(m, root, rule, edits, floors, w, rows),
        0 <= f < floors.len(),
        rebuild::new_level(w, rule, rebuild::changed(rows, edits), f as nat).contains(n),
    ensures
        tower::kept(w, n),
        n.level == f,
        n.rows.len() > 0,
        floors[f].nodes.contains(n) || (rows.len() > 0 && f <= tower::top(
            w,
            rule,
            rows,
        )->Some_0.level && rebuild::new_level(w, rule, rows, f as nat).contains(n)),
{
    lemma_level_says(m, root, rule, edits, floors, w, rows, f);
    reveal(level_says);
    reveal(sound_level);
}

/// A child of such a node is a node of the level below.
pub proof fn lemma_new_child(
    m: BlockMap,
    root: Seq<u8>,
    rule: Rule,
    edits: Seq<(Vec<u8>, Edit)>,
    floors: Seq<Floor>,
    w: BlockMap,
    rows: Seq<Row>,
    f: int,
    n: NodeView,
    id: Seq<u8>,
)
    requires
        rebuild::partway(m, root, rule, edits, floors, w, rows),
        0 < f < floors.len(),
        rebuild::new_level(w, rule, rebuild::changed(rows, edits), f as nat).contains(n),
        merge::is_child(n, id),
    ensures
        exists|y: NodeView| #[trigger]
            rebuild::new_level(
                w,
                rule,
                rebuild::changed(rows, edits),
                (f - 1) as nat,
            ).contains(y) && chunk::node_id(y) == id,
{
    let next = rebuild::changed(rows, edits);
    rebuild::lemma_level_done(m, root, rule, edits, floors, w, rows, f);
    rebuild::lemma_link(m, root, rule, edits, floors, w, rows, f);
    assert(tower::all_small(tower::level_rows(w, rule, next, f as nat))) by {
        reveal(rebuild::level_done);
    }
    lemma_child_below(w, rule, next, f as nat, n, id);
}

// ---------------------------------------------------------------------------
// the top of the new tree
// ---------------------------------------------------------------------------

/// Over nothing there is nothing.
proof fn lemma_bare_up(w: BlockMap, rule: Rule, next: Seq<Row>, f: nat)
    requires
        next.len() == 0,
    ensures
        rebuild::new_level(w, rule, next, f).len() == 0,
        tower::level_rows(w, rule, next, f).len() == 0,
    decreases f,
{
    if f > 0 {
        lemma_bare_up(w, rule, next, (f - 1) as nat);
    }
    let r = tower::level_rows(w, rule, next, f);
    assert(r =~= Seq::<Row>::empty());
    assert(chunk::chunks(f as u8, rule, r) =~= Seq::<Seq<Row>>::empty());
}

/// The levels of two trees are the same from where their rows are.
proof fn lemma_same_up(w: BlockMap, rule: Rule, a: Seq<Row>, b: Seq<Row>, f: nat, g: nat)
    requires
        f <= g,
        tower::level_rows(w, rule, a, f) == tower::level_rows(w, rule, b, f),
    ensures
        tower::level_rows(w, rule, a, g) == tower::level_rows(w, rule, b, g),
        rebuild::new_level(w, rule, a, g) == rebuild::new_level(w, rule, b, g),
    decreases g - f,
{
    if f < g {
        lemma_same_up(w, rule, a, b, f, (g - 1) as nat);
    }
}

/// A change in a store that has all it takes, with the tree that came of it.
#[verifier::opaque]
spec fn came_of(
    m: BlockMap,
    root: Seq<u8>,
    rule: Rule,
    edits: Seq<(Vec<u8>, Edit)>,
    floors: Seq<Floor>,
    w: BlockMap,
    rows: Seq<Row>,
    path: Seq<Seq<u8>>,
) -> bool {
    let next = rebuild::changed(rows, edits);
    &&& rebuild::setting(m, root, rule, edits, floors, w, rows)
    &&& rebuild::leads(w, root, floors, path)
    &&& floors.len() > 0
    &&& build::delivers(w, rule, rows, root)
    &&& build::proper(rows)
    &&& tower::all_small(rows)
    &&& node::sorted_rows(rows)
    &&& build::delivers(w, rule, next, path.last())
    &&& tower::all_small(next)
    &&& node::sorted_rows(next)
}

/// Where the last level is the root's, the new root is at or below it, and every level
/// from there up to the last has one node.
proof fn lemma_at_top(
    m: BlockMap,
    root: Seq<u8>,
    rule: Rule,
    edits: Seq<(Vec<u8>, Edit)>,
    floors: Seq<Floor>,
    w: BlockMap,
    rows: Seq<Row>,
    path: Seq<Seq<u8>>,
    f: int,
)
    requires
        came_of(m, root, rule, edits, floors, w, rows, path),
        apply::is_top(floors.last()),
        rebuild::changed(rows, edits).len() > 0,
        height(w, rule, rebuild::changed(rows, edits)) <= f < floors.len(),
    ensures
        rebuild::new_level(w, rule, rebuild::changed(rows, edits), f as nat).len() == 1,
{
    reveal(came_of);
    let next = rebuild::changed(rows, edits);
    let h = height(w, rule, next);
    rebuild::lemma_old_level(w, rule, next, h as nat);
    rebuild::lemma_single_up(m, root, rule, edits, floors, w, rows, h, f);
}

/// How tall the new tree is.
#[verifier::rlimit(60)]
#[verifier::spinoff_prover]
proof fn lemma_ends(
    m: BlockMap,
    root: Seq<u8>,
    rule: Rule,
    edits: Seq<(Vec<u8>, Edit)>,
    floors: Seq<Floor>,
    w: BlockMap,
    rows: Seq<Row>,
    path: Seq<Seq<u8>>,
)
    requires
        came_of(m, root, rule, edits, floors, w, rows, path),
    ensures
        ({
            let next = rebuild::changed(rows, edits);
            let e = floors.len() - 1;
            if apply::is_top(floors.last()) {
                &&& rebuild::new_level(w, rule, next, e as nat) == floors.last().nodes
                &&& next.len() > 0 ==> height(w, rule, next) <= e
                &&& next.len() == 0 ==> floors.last().nodes.len() == 0
            } else {
                &&& next.len() > 0 <==> rows.len() > 0
                &&& rows.len() == 0 ==> e == 0 && floors[0].es.len() == 0
                &&& rows.len() > 0 ==> height(w, rule, next) == height(w, rule, rows)
                &&& rows.len() > 0 ==> e <= height(w, rule, rows)
                &&& forall|f: nat| rows.len() > 0 && e < f ==> #[trigger] rebuild::new_level(
                    w,
                    rule,
                    next,
                    f,
                ) == rebuild::new_level(w, rule, rows, f)
            }
        }),
{
    reveal(came_of);
    let next = rebuild::changed(rows, edits);
    let e = floors.len() - 1;
    rebuild::lemma_level_done(m, root, rule, edits, floors, w, rows, e);
    rebuild::lemma_height(m, root, rule, edits, floors, w, rows);
    if apply::is_top(floors.last()) {
        assert(rebuild::new_level(w, rule, next, e as nat) == floors[e].nodes) by {
            reveal(rebuild::level_done);
        }
        if next.len() > 0 {
            if height(w, rule, next) > e {
                rebuild::lemma_old_level(w, rule, next, e as nat);
            }
        } else {
            lemma_bare_up(w, rule, next, e as nat);
        }
    } else {
        rebuild::lemma_tail(m, root, rule, edits, floors, w, rows);
        let h = height(w, rule, rows);
        if next.len() == 0 {
            lemma_bare_up(w, rule, next, e as nat);
        }
        if rows.len() > 0 && e < h {
            rebuild::lemma_path_root(m, root, rule, edits, floors, w, rows, path);
            let a = tower::top(w, rule, rows)->Some_0;
            let b = tower::top(w, rule, next)->Some_0;
            tower::lemma_top_kept(w, rule, rows, 0);
            tower::lemma_top_kept(w, rule, next, 0);
            rebuild::lemma_one_id(w, a, b);
            assert forall|f: nat| e < f implies #[trigger] rebuild::new_level(w, rule, next, f)
                == rebuild::new_level(w, rule, rows, f) by {
                lemma_same_up(w, rule, next, rows, floors.len(), f);
            }
        } else if rows.len() > 0 {
            assert(e == 0 && h == 0);
            assert(next.len() > 0);
            let ns = rebuild::new_level(w, rule, next, 0);
            assert(ns.len() == 1);
            assert(tower::level_nodes(w, rule, 0, next) == ns);
            assert(tower::top(w, rule, next) == Some(ns[0]));
            assert(tower::level_rows(w, rule, next, 1) == tower::child_rows(ns));
            assert(tower::level_rows(w, rule, rows, 1) == tower::child_rows(ns));
            assert forall|f: nat| e < f implies #[trigger] rebuild::new_level(w, rule, next, f)
                == rebuild::new_level(w, rule, rows, f) by {
                lemma_same_up(w, rule, next, rows, 1, f);
            }
        } else {
            assert(e == 0);
            if next.len() > 0 {
                rebuild::lemma_level_node(w, rule, next, 0, floors[0]);
            }
            if floors[0].es.len() > 0 {
                rebuild::lemma_on_level(m, root, rule, edits, floors, w, rows, 0);
                rebuild::lemma_empty_level(m, root, rule, edits, floors, w, rows);
            }
        }
    }
}

/// The path passes the only nodes of the levels above the new root, one by one.
#[verifier::rlimit(60)]
#[verifier::spinoff_prover]
proof fn lemma_path_at(
    m: BlockMap,
    root: Seq<u8>,
    rule: Rule,
    edits: Seq<(Vec<u8>, Edit)>,
    floors: Seq<Floor>,
    w: BlockMap,
    rows: Seq<Row>,
    path: Seq<Seq<u8>>,
    f: int,
)
    requires
        came_of(m, root, rule, edits, floors, w, rows, path),
        apply::is_top(floors.last()),
        rebuild::changed(rows, edits).len() > 0,
        height(w, rule, rebuild::changed(rows, edits)) <= f < floors.len(),
    ensures
        floors.len() - 1 - f < path.len(),
        path[floors.len() - 1 - f] == chunk::node_id(
            rebuild::new_level(w, rule, rebuild::changed(rows, edits), f as nat)[0],
        ),
    decreases floors.len() - f,
{
    let next = rebuild::changed(rows, edits);
    let e = floors.len() - 1;
    lemma_at_top(m, root, rule, edits, floors, w, rows, path, f);
    assert(rebuild::setting(m, root, rule, edits, floors, w, rows) && rebuild::leads(
        w,
        root,
        floors,
        path,
    )) by {
        reveal(came_of);
    }
    if f == e {
        rebuild::lemma_slide_start(m, root, rule, edits, floors, w, rows, path);
    } else {
        lemma_at_top(m, root, rule, edits, floors, w, rows, path, f + 1);
        lemma_path_at(m, root, rule, edits, floors, w, rows, path, f + 1);
        rebuild::lemma_link(m, root, rule, edits, floors, w, rows, f + 1);
        rebuild::lemma_level_done(m, root, rule, edits, floors, w, rows, f);
        rebuild::lemma_single(w, rule, next, f as nat, floors[f]);
        rebuild::lemma_level_done(m, root, rule, edits, floors, w, rows, f + 1);
        rebuild::lemma_level_node(w, rule, next, (f + 1) as nat, floors[f + 1]);
        let i = e - (f + 1);
        let up = rebuild::new_level(w, rule, next, (f + 1) as nat)[0];
        let n = rebuild::new_level(w, rule, next, f as nat)[0];
        assert(store::child_cid(up.rows[0]) == chunk::node_id(n));
        assert(apply::lone(w, path[i]) == Some(chunk::node_id(n)));
        assert(i + 1 < path.len());
        assert(apply::slides_at(w, path, i));
    }
}

/// The path ends at the new root.
#[verifier::rlimit(60)]
#[verifier::spinoff_prover]
proof fn lemma_path_down(
    m: BlockMap,
    root: Seq<u8>,
    rule: Rule,
    edits: Seq<(Vec<u8>, Edit)>,
    floors: Seq<Floor>,
    w: BlockMap,
    rows: Seq<Row>,
    path: Seq<Seq<u8>>,
)
    requires
        came_of(m, root, rule, edits, floors, w, rows, path),
        apply::is_top(floors.last()),
        rebuild::changed(rows, edits).len() > 0,
        height(w, rule, rebuild::changed(rows, edits)) < floors.len(),
    ensures
        path.len() == floors.len() - height(w, rule, rebuild::changed(rows, edits)),
{
    let next = rebuild::changed(rows, edits);
    let h = height(w, rule, next);
    lemma_path_at(m, root, rule, edits, floors, w, rows, path, h);
    lemma_at_top(m, root, rule, edits, floors, w, rows, path, h);
    assert(rebuild::setting(m, root, rule, edits, floors, w, rows) && rebuild::leads(
        w,
        root,
        floors,
        path,
    )) by {
        reveal(came_of);
    }
    rebuild::lemma_level_done(m, root, rule, edits, floors, w, rows, h);
    rebuild::lemma_level_node(w, rule, next, h as nat, floors[h]);
    let n = rebuild::new_level(w, rule, next, h as nat)[0];
    assert(h > 0 ==> n.rows.len() > 1) by {
        if h > 0 {
            reveal(came_of);
            rebuild::lemma_old_level(w, rule, next, (h - 1) as nat);
            assert(tower::level_rows(w, rule, next, h as nat) == tower::child_rows(
                rebuild::new_level(w, rule, next, (h - 1) as nat),
            ));
        }
    }
    let i = floors.len() - 1 - h;
    assert(apply::lone(w, path[i]) is None);
    if i + 1 < path.len() {
        assert(apply::slides_at(w, path, i));
    }
}

/// The path is the root alone, where the old one stays or nothing is left.
#[verifier::rlimit(60)]
#[verifier::spinoff_prover]
proof fn lemma_path_one(
    m: BlockMap,
    root: Seq<u8>,
    rule: Rule,
    edits: Seq<(Vec<u8>, Edit)>,
    floors: Seq<Floor>,
    w: BlockMap,
    rows: Seq<Row>,
    path: Seq<Seq<u8>>,
)
    requires
        came_of(m, root, rule, edits, floors, w, rows, path),
        !apply::is_top(floors.last()) || rebuild::changed(rows, edits).len() == 0,
    ensures
        path.len() == 1,
{
    let next = rebuild::changed(rows, edits);
    assert(rebuild::setting(m, root, rule, edits, floors, w, rows) && rebuild::leads(
        w,
        root,
        floors,
        path,
    )) by {
        reveal(came_of);
    }
    lemma_ends(m, root, rule, edits, floors, w, rows, path);
    assert(apply::lone(w, path[0]) is None) by {
        if apply::is_top(floors.last()) {
            let none = chunk::empty_node();
            lemma_bare_up(w, rule, next, 0);
            assert(floors.len() > 0) by {
                reveal(came_of);
            }
            rebuild::lemma_nothing_left(m, root, rule, edits, floors, w, rows, path);
            tower::lemma_kept(w, none);
        } else {
            rebuild::lemma_height(m, root, rule, edits, floors, w, rows);
            let n = tower::top(w, rule, rows)->Some_0;
            if rows.len() > 0 && n.level > 0 {
                reveal(came_of);
                rebuild::lemma_root_wide(w, rule, rows);
            } else if rows.len() == 0 {
                rebuild::lemma_empty_tree(m, root, rule, edits, floors, w, rows);
                tower::lemma_kept(w, chunk::empty_node());
            }
        }
    }
    if path.len() > 1 {
        assert(apply::slides_at(w, path, 0));
    }
}

/// What was taken off the root: the only nodes of the levels above the new one.
proof fn lemma_taken_off(
    m: BlockMap,
    root: Seq<u8>,
    rule: Rule,
    edits: Seq<(Vec<u8>, Edit)>,
    floors: Seq<Floor>,
    w: BlockMap,
    rows: Seq<Row>,
    path: Seq<Seq<u8>>,
    i: int,
) -> (f: int)
    requires
        came_of(m, root, rule, edits, floors, w, rows, path),
        0 <= i < path.len() - 1,
    ensures
        apply::is_top(floors.last()),
        rebuild::changed(rows, edits).len() > 0,
        height(w, rule, rebuild::changed(rows, edits)) < f < floors.len(),
        f == floors.len() - 1 - i,
        rebuild::new_level(w, rule, rebuild::changed(rows, edits), f as nat).contains(
            rebuild::new_level(w, rule, rebuild::changed(rows, edits), f as nat)[0],
        ),
        path[i] == chunk::node_id(
            rebuild::new_level(w, rule, rebuild::changed(rows, edits), f as nat)[0],
        ),
{
    let f = floors.len() - 1 - i;
    lemma_ends(m, root, rule, edits, floors, w, rows, path);
    if !apply::is_top(floors.last()) || rebuild::changed(rows, edits).len() == 0 {
        lemma_path_one(m, root, rule, edits, floors, w, rows, path);
    } else {
        lemma_path_down(m, root, rule, edits, floors, w, rows, path);
    }
    lemma_path_at(m, root, rule, edits, floors, w, rows, path, f);
    lemma_at_top(m, root, rule, edits, floors, w, rows, path, f);
    let ns = rebuild::new_level(w, rule, rebuild::changed(rows, edits), f as nat);
    assert(ns.contains(ns[0]));
    f
}

// ---------------------------------------------------------------------------
// what was made, and what was there
// ---------------------------------------------------------------------------

/// A node that was closed was closed on some level.
proof fn lemma_floor_of(floors: Seq<Floor>, k: nat, n: NodeView) -> (f: int)
    requires
        k <= floors.len(),
        apply::floor_nodes(floors, k).contains(n),
    ensures
        0 <= f < k,
        floors[f].nodes.contains(n),
    decreases k,
{
    let all = apply::floor_nodes(floors, k);
    let i = choose|i: int| 0 <= i < all.len() && all[i] == n;
    let front = apply::floor_nodes(floors, (k - 1) as nat);
    if i < front.len() {
        assert(front[i] == n);
        lemma_floor_of(floors, (k - 1) as nat, n)
    } else {
        assert(floors[k - 1].nodes[i - front.len()] == n);
        k - 1
    }
}

proof fn lemma_in_floors(floors: Seq<Floor>, k: nat, f: int, n: NodeView)
    requires
        0 <= f < k <= floors.len(),
        floors[f].nodes.contains(n),
    ensures
        apply::floor_nodes(floors, k).contains(n),
    decreases k,
{
    let all = apply::floor_nodes(floors, k);
    let front = apply::floor_nodes(floors, (k - 1) as nat);
    if f < k - 1 {
        lemma_in_floors(floors, (k - 1) as nat, f, n);
        let i = choose|i: int| 0 <= i < front.len() && front[i] == n;
        assert(all[i] == n);
    } else {
        let i = choose|i: int| 0 <= i < floors[f].nodes.len() && floors[f].nodes[i] == n;
        assert(all[front.len() + i] == n);
    }
}

/// A node that was closed on a level was closed.
pub proof fn lemma_made(floors: Seq<Floor>, f: int, n: NodeView)
    requires
        0 <= f < floors.len(),
        floors[f].nodes.contains(n),
    ensures
        apply::closed_nodes(floors).contains(n),
{
    lemma_in_floors(floors, floors.len(), f, n);
    let ns = apply::floor_nodes(floors, floors.len());
    let i = choose|i: int| 0 <= i < ns.len() && ns[i] == n;
    assert(apply::closed_nodes(floors)[i] == n);
}

/// A node that was closed was closed on some level, or is the empty leaf.
proof fn lemma_made_at(floors: Seq<Floor>, n: NodeView) -> (f: int)
    requires
        floors.len() > 0,
        apply::closed_nodes(floors).contains(n),
    ensures
        0 <= f < floors.len() && floors[f].nodes.contains(n) || (apply::is_top(floors.last())
            && floors.last().nodes.len() == 0 && n == chunk::empty_node()),
{
    let ns = apply::floor_nodes(floors, floors.len());
    let all = apply::closed_nodes(floors);
    let i = choose|i: int| 0 <= i < all.len() && all[i] == n;
    if i < ns.len() {
        assert(ns[i] == n);
        lemma_floor_of(floors, floors.len(), n)
    } else {
        0
    }
}

/// An old node that was streamed was streamed on some level.
proof fn lemma_old_of(m: BlockMap, root: Seq<u8>, floors: Seq<Floor>, k: nat, id: Seq<u8>) -> (f: int)
    requires
        k <= floors.len(),
        apply::floor_olds(m, root, floors, k).contains(id),
    ensures
        0 <= f < k,
        apply::slot_ids(apply::was_at(m, root, f, floors[f])).contains(id),
    decreases k,
{
    let all = apply::floor_olds(m, root, floors, k);
    let i = choose|i: int| 0 <= i < all.len() && all[i] == id;
    let front = apply::floor_olds(m, root, floors, (k - 1) as nat);
    if i < front.len() {
        assert(front[i] == id);
        lemma_old_of(m, root, floors, (k - 1) as nat, id)
    } else {
        assert(apply::slot_ids(apply::was_at(m, root, k - 1, floors[k - 1]))[i - front.len()] == id);
        k - 1
    }
}

proof fn lemma_in_olds(m: BlockMap, root: Seq<u8>, floors: Seq<Floor>, k: nat, f: int, id: Seq<u8>)
    requires
        0 <= f < k <= floors.len(),
        apply::slot_ids(apply::was_at(m, root, f, floors[f])).contains(id),
    ensures
        apply::floor_olds(m, root, floors, k).contains(id),
    decreases k,
{
    let all = apply::floor_olds(m, root, floors, k);
    let front = apply::floor_olds(m, root, floors, (k - 1) as nat);
    if f < k - 1 {
        lemma_in_olds(m, root, floors, (k - 1) as nat, f, id);
        let i = choose|i: int| 0 <= i < front.len() && front[i] == id;
        assert(all[i] == id);
    } else {
        let ids = apply::slot_ids(apply::was_at(m, root, f, floors[f]));
        let i = choose|i: int| 0 <= i < ids.len() && ids[i] == id;
        assert(all[front.len() + i] == id);
    }
}

/// The levels of a change are sound.
proof fn lemma_floor_sound(
    m: BlockMap,
    root: Seq<u8>,
    rule: Rule,
    edits: Seq<(Vec<u8>, Edit)>,
    floors: Seq<Floor>,
    w: BlockMap,
    rows: Seq<Row>,
    f: int,
)
    requires
        rebuild::setting(m, root, rule, edits, floors, w, rows),
        0 <= f < floors.len(),
    ensures
        sound_level(w, rule, rebuild::changed(rows, edits), f as nat),
{
    lemma_level_says(m, root, rule, edits, floors, w, rows, f);
    reveal(level_says);
}

/// Is this the id of a node that is there afterwards because it was closed?
spec fn made_stays(floors: Seq<Floor>, path: Seq<Seq<u8>>, id: Seq<u8>) -> bool {
    exists|n: NodeView| #[trigger] apply::stays(floors, path, n) && chunk::node_id(n) == id
}

/// Is this the id of an old node that the change did not stream?
spec fn left_alone(
    m: BlockMap,
    root: Seq<u8>,
    rule: Rule,
    floors: Seq<Floor>,
    w: BlockMap,
    rows: Seq<Row>,
    id: Seq<u8>,
) -> bool {
    if rows.len() == 0 {
        !apply::is_top(floors.last()) && id == chunk::node_id(chunk::empty_node())
    } else {
        exists|f: nat|
            f <= height(w, rule, rows) && #[trigger] here(w, rule, rows, f, id) && (f
                >= floors.len() ==> !apply::is_top(floors.last())) && (f < floors.len()
                ==> !apply::slot_ids(apply::was_at(m, root, f as int, floors[f as int])).contains(id))
    }
}

/// The levels of the old tree are sound.
proof fn lemma_old_sound(
    m: BlockMap,
    root: Seq<u8>,
    rule: Rule,
    edits: Seq<(Vec<u8>, Edit)>,
    floors: Seq<Floor>,
    w: BlockMap,
    rows: Seq<Row>,
    path: Seq<Seq<u8>>,
    f: nat,
)
    requires
        came_of(m, root, rule, edits, floors, w, rows, path),
        old_has(w, rule, rows, f),
    ensures
        sound_level(w, rule, rows, f),
{
    let next = rebuild::changed(rows, edits);
    let e = floors.len() - 1;
    assert(rebuild::setting(m, root, rule, edits, floors, w, rows) && floors.len() > 0) by {
        reveal(came_of);
    }
    reveal(came_of);
    lemma_sound_tree(w, rule, rows, f);
}

/// So are those of the new one.
proof fn lemma_new_sound(
    m: BlockMap,
    root: Seq<u8>,
    rule: Rule,
    edits: Seq<(Vec<u8>, Edit)>,
    floors: Seq<Floor>,
    w: BlockMap,
    rows: Seq<Row>,
    path: Seq<Seq<u8>>,
    f: nat,
)
    requires
        came_of(m, root, rule, edits, floors, w, rows, path),
        old_has(w, rule, rebuild::changed(rows, edits), f),
    ensures
        sound_level(w, rule, rebuild::changed(rows, edits), f),
{
    let next = rebuild::changed(rows, edits);
    let e = floors.len() - 1;
    assert(rebuild::setting(m, root, rule, edits, floors, w, rows) && floors.len() > 0) by {
        reveal(came_of);
    }
    reveal(came_of);
    lemma_sound_tree(w, rule, next, f);
}

/// Where the last level is the root's, all branches above it are listed.
#[verifier::rlimit(60)]
#[verifier::spinoff_prover]
proof fn lemma_listed_above(
    m: BlockMap,
    root: Seq<u8>,
    rule: Rule,
    edits: Seq<(Vec<u8>, Edit)>,
    floors: Seq<Floor>,
    w: BlockMap,
    rows: Seq<Row>,
    path: Seq<Seq<u8>>,
    id: Seq<u8>,
)
    requires
        came_of(m, root, rule, edits, floors, w, rows, path),
        apply::is_top(floors.last()),
        rows.len() > 0,
    ensures
        apply::above(
            m,
            tree::root_slot(m, root).opened->Ok_0,
            root,
            floors.len() - 1,
        ).contains(id) <==> exists|g: nat|
            floors.len() <= g <= height(w, rule, rows) && #[trigger] here(w, rule, rows, g, id),
{
    let next = rebuild::changed(rows, edits);
    let e = floors.len() - 1;
    assert(rebuild::setting(m, root, rule, edits, floors, w, rows) && floors.len() > 0) by {
        reveal(came_of);
    }
    let x = floors[e];
    rebuild::lemma_height(m, root, rule, edits, floors, w, rows);
    assert(apply::floor_ok(m, root, rule, true, e, x) && store::loaded(m, root) is Ok
        && m.submap_of(w)) by {
        reveal(rebuild::partway);
        reveal(rebuild::ended);
        reveal(apply::chain);
    }
    apply::lemma_whole_open(m, root, rule, true, e, x);
    let s = tree::root_slot(m, root);
    let h = s.opened->Ok_0;
    assert(store::loaded(m, root) == store::loaded(w, root)) by {
        reveal(store::loaded);
        assert(m.dom().contains(root) && w.dom().contains(root));
    }
    assert(tree::root_slot(w, root) == s);
    lemma_above(m, w, s, h, e, id);
    let d = height(w, rule, rows);
    assert(h.node.level == d);
    assert forall|g: nat| g <= d implies #[trigger] cursor::level_of(w, root, g as int)
        == tower::places(rebuild::new_level(w, rule, rows, g)) by {
        reveal(came_of);
        rebuild::lemma_old_level(w, rule, rows, g);
        reveal(rebuild::is_level);
    }
    if over(w, s, d, e, id) {
        let (g, i) = choose|g: int, i: int|
            e < g <= d && 0 <= i < tree::level_slots(w, s, g).len() && (#[trigger] tree::level_slots(
                w,
                s,
                g,
            )[i]).cid == id;
        assert(cursor::level_of(w, root, (g as nat) as int) == tree::level_slots(w, s, g));
        let ns = rebuild::new_level(w, rule, rows, g as nat);
        assert(ns.contains(ns[i]));
        assert(here(w, rule, rows, g as nat, id));
    }
    if exists|g: nat| floors.len() <= g <= d && #[trigger] here(w, rule, rows, g, id) {
        let g = choose|g: nat| floors.len() <= g <= d && #[trigger] here(w, rule, rows, g, id);
        let ns = rebuild::new_level(w, rule, rows, g);
        let n = choose|n: NodeView| #[trigger] ns.contains(n) && chunk::node_id(n) == id;
        let i = choose|i: int| 0 <= i < ns.len() && ns[i] == n;
        assert(cursor::level_of(w, root, g as int) == tree::level_slots(w, s, g as int));
        assert(tree::level_slots(w, s, g as int)[i].cid == id);
    }
}

/// What was closed and stays is a node of the new tree.
#[verifier::rlimit(60)]
#[verifier::spinoff_prover]
proof fn lemma_stays_new(
    m: BlockMap,
    root: Seq<u8>,
    rule: Rule,
    edits: Seq<(Vec<u8>, Edit)>,
    floors: Seq<Floor>,
    w: BlockMap,
    rows: Seq<Row>,
    path: Seq<Seq<u8>>,
    n: NodeView,
)
    requires
        came_of(m, root, rule, edits, floors, w, rows, path),
        apply::stays(floors, path, n),
    ensures
        tree_has(w, rule, rebuild::changed(rows, edits), chunk::node_id(n)),
{
    let next = rebuild::changed(rows, edits);
    let e = floors.len() - 1;
    assert(rebuild::setting(m, root, rule, edits, floors, w, rows) && floors.len() > 0) by {
        reveal(came_of);
    }
    let f = lemma_made_at(floors, n);
    let id = chunk::node_id(n);
    lemma_ends(m, root, rule, edits, floors, w, rows, path);
    if 0 <= f < floors.len() && floors[f].nodes.contains(n) {
        lemma_level_says(m, root, rule, edits, floors, w, rows, f);
        reveal(level_says);
        let ns = rebuild::new_level(w, rule, next, f as nat);
        assert(ns.contains(n));
        assert(here(w, rule, next, f as nat, id));
        if next.len() == 0 {
            lemma_bare_up(w, rule, next, f as nat);
        }
        let h = height(w, rule, next);
        if f > h {
            lemma_at_top(m, root, rule, edits, floors, w, rows, path, f);
            lemma_path_at(m, root, rule, edits, floors, w, rows, path, f);
            lemma_path_down(m, root, rule, edits, floors, w, rows, path);
            assert(path.drop_last()[e - f] == id);
        }
    } else if next.len() > 0 {
        lemma_at_top(m, root, rule, edits, floors, w, rows, path, e);
    }
}

/// What was taken off the root was not taken off twice.
#[verifier::rlimit(60)]
#[verifier::spinoff_prover]
proof fn lemma_path_apart(
    m: BlockMap,
    root: Seq<u8>,
    rule: Rule,
    edits: Seq<(Vec<u8>, Edit)>,
    floors: Seq<Floor>,
    w: BlockMap,
    rows: Seq<Row>,
    path: Seq<Seq<u8>>,
    i: int,
    j: int,
)
    requires
        came_of(m, root, rule, edits, floors, w, rows, path),
        0 <= j < i < path.len() - 1,
    ensures
        path[i] != path[j],
{
    let next = rebuild::changed(rows, edits);
    let e = floors.len() - 1;
    assert(rebuild::setting(m, root, rule, edits, floors, w, rows) && floors.len() > 0) by {
        reveal(came_of);
    }
    let f = lemma_taken_off(m, root, rule, edits, floors, w, rows, path, i);
    let g = lemma_taken_off(m, root, rule, edits, floors, w, rows, path, j);
    lemma_floor_sound(m, root, rule, edits, floors, w, rows, f);
    lemma_floor_sound(m, root, rule, edits, floors, w, rows, g);
    if path[i] == path[j] {
        let id = path[i];
        assert(here(w, rule, next, f as nat, id));
        assert(here(w, rule, next, g as nat, id));
        let y = lemma_one_level(w, rule, next, f as nat, next, g as nat, id);
    }
}

/// The level of what was taken off the root.
#[verifier::rlimit(60)]
#[verifier::spinoff_prover]
proof fn lemma_off_at(
    m: BlockMap,
    root: Seq<u8>,
    rule: Rule,
    edits: Seq<(Vec<u8>, Edit)>,
    floors: Seq<Floor>,
    w: BlockMap,
    rows: Seq<Row>,
    path: Seq<Seq<u8>>,
    i: int,
) -> (f: nat)
    requires
        came_of(m, root, rule, edits, floors, w, rows, path),
        0 <= i < path.len() - 1,
    ensures
        height(w, rule, rebuild::changed(rows, edits)) < f,
        here(w, rule, rebuild::changed(rows, edits), f, path[i]),
        sound_level(w, rule, rebuild::changed(rows, edits), f),
{
    let next = rebuild::changed(rows, edits);
    let e = floors.len() - 1;
    assert(rebuild::setting(m, root, rule, edits, floors, w, rows) && floors.len() > 0) by {
        reveal(came_of);
    }
    let f = lemma_taken_off(m, root, rule, edits, floors, w, rows, path, i);
    lemma_floor_sound(m, root, rule, edits, floors, w, rows, f);
    assert(here(w, rule, next, f as nat, path[i]));
    f as nat
}

/// A node of the new tree was not taken off its root.
#[verifier::rlimit(60)]
#[verifier::spinoff_prover]
proof fn lemma_not_off(
    m: BlockMap,
    root: Seq<u8>,
    rule: Rule,
    edits: Seq<(Vec<u8>, Edit)>,
    floors: Seq<Floor>,
    w: BlockMap,
    rows: Seq<Row>,
    path: Seq<Seq<u8>>,
    f: nat,
    id: Seq<u8>,
    i: int,
)
    requires
        came_of(m, root, rule, edits, floors, w, rows, path),
        old_has(w, rule, rebuild::changed(rows, edits), f),
        here(w, rule, rebuild::changed(rows, edits), f, id),
        0 <= i < path.len() - 1,
    ensures
        path[i] != id,
{
    let next = rebuild::changed(rows, edits);
    let e = floors.len() - 1;
    assert(rebuild::setting(m, root, rule, edits, floors, w, rows) && floors.len() > 0) by {
        reveal(came_of);
    }
    let g = lemma_off_at(m, root, rule, edits, floors, w, rows, path, i);
    lemma_new_sound(m, root, rule, edits, floors, w, rows, path, f);
    if path[i] == id {
        let y = lemma_one_level(w, rule, next, f, next, g, id);
    }
}

/// No place of the path above its end has the id of a node of the new tree.
#[verifier::rlimit(60)]
#[verifier::spinoff_prover]
proof fn lemma_none_off(
    m: BlockMap,
    root: Seq<u8>,
    rule: Rule,
    edits: Seq<(Vec<u8>, Edit)>,
    floors: Seq<Floor>,
    w: BlockMap,
    rows: Seq<Row>,
    path: Seq<Seq<u8>>,
    f: nat,
    id: Seq<u8>,
)
    requires
        came_of(m, root, rule, edits, floors, w, rows, path),
        old_has(w, rule, rebuild::changed(rows, edits), f),
        here(w, rule, rebuild::changed(rows, edits), f, id),
    ensures
        forall|i: int| 0 <= i < path.len() - 1 ==> #[trigger] path[i] != id,
{
    let next = rebuild::changed(rows, edits);
    let e = floors.len() - 1;
    assert(rebuild::setting(m, root, rule, edits, floors, w, rows) && floors.len() > 0) by {
        reveal(came_of);
    }
    assert forall|i: int| 0 <= i < path.len() - 1 implies #[trigger] path[i] != id by {
        lemma_not_off(m, root, rule, edits, floors, w, rows, path, f, id, i);
    }
}

/// A node that was closed, and is not on the path above its end, stays.
proof fn lemma_off_path(floors: Seq<Floor>, path: Seq<Seq<u8>>, n: NodeView)
    requires
        apply::closed_nodes(floors).contains(n),
        path.len() > 0,
        forall|i: int| 0 <= i < path.len() - 1 ==> #[trigger] path[i] != chunk::node_id(n),
    ensures
        made_stays(floors, path, chunk::node_id(n)),
{
    let id = chunk::node_id(n);
    let front = path.drop_last();
    if front.contains(id) {
        let i = choose|i: int| 0 <= i < front.len() && front[i] == id;
        assert(path[i] == id);
    }
    assert(apply::stays(floors, path, n));
}

/// What a level made, where it is one of the new tree's, stays.
#[verifier::rlimit(60)]
#[verifier::spinoff_prover]
proof fn lemma_made_stays(
    m: BlockMap,
    root: Seq<u8>,
    rule: Rule,
    edits: Seq<(Vec<u8>, Edit)>,
    floors: Seq<Floor>,
    w: BlockMap,
    rows: Seq<Row>,
    path: Seq<Seq<u8>>,
    f: nat,
    n: NodeView,
)
    requires
        came_of(m, root, rule, edits, floors, w, rows, path),
        f < floors.len(),
        old_has(w, rule, rebuild::changed(rows, edits), f),
        floors[f as int].nodes.contains(n),
        rebuild::new_level(w, rule, rebuild::changed(rows, edits), f).contains(n),
    ensures
        made_stays(floors, path, chunk::node_id(n)),
{
    let next = rebuild::changed(rows, edits);
    let e = floors.len() - 1;
    assert(rebuild::setting(m, root, rule, edits, floors, w, rows) && floors.len() > 0) by {
        reveal(came_of);
    }
    lemma_made(floors, f as int, n);
    assert(here(w, rule, next, f, chunk::node_id(n)));
    lemma_none_off(m, root, rule, edits, floors, w, rows, path, f, chunk::node_id(n));
    assert(path.len() > 0) by {
        reveal(came_of);
    }
    lemma_off_path(floors, path, n);
}

/// What a level did not make it left alone.
#[verifier::rlimit(60)]
#[verifier::spinoff_prover]
proof fn lemma_unmade_alone(
    m: BlockMap,
    root: Seq<u8>,
    rule: Rule,
    edits: Seq<(Vec<u8>, Edit)>,
    floors: Seq<Floor>,
    w: BlockMap,
    rows: Seq<Row>,
    path: Seq<Seq<u8>>,
    f: nat,
    n: NodeView,
)
    requires
        came_of(m, root, rule, edits, floors, w, rows, path),
        f < floors.len(),
        !floors[f as int].nodes.contains(n),
        rebuild::new_level(w, rule, rebuild::changed(rows, edits), f).contains(n),
    ensures
        left_alone(m, root, rule, floors, w, rows, chunk::node_id(n)),
{
    let next = rebuild::changed(rows, edits);
    let e = floors.len() - 1;
    assert(rebuild::setting(m, root, rule, edits, floors, w, rows) && floors.len() > 0) by {
        reveal(came_of);
    }
    lemma_level_says(m, root, rule, edits, floors, w, rows, f as int);
    assert(old_has(w, rule, rows, f) && rebuild::new_level(w, rule, rows, f).contains(n)
        && !rebuild::stood(apply::was_at(m, root, f as int, floors[f as int]), n)) by {
        reveal(level_says);
    }
    assert(here(w, rule, rows, f, chunk::node_id(n)));
}

/// A node of the new tree was closed, or it is an old one that was left alone.
#[verifier::rlimit(60)]
#[verifier::spinoff_prover]
proof fn lemma_new_is(
    m: BlockMap,
    root: Seq<u8>,
    rule: Rule,
    edits: Seq<(Vec<u8>, Edit)>,
    floors: Seq<Floor>,
    w: BlockMap,
    rows: Seq<Row>,
    path: Seq<Seq<u8>>,
    id: Seq<u8>,
)
    requires
        came_of(m, root, rule, edits, floors, w, rows, path),
        tree_has(w, rule, rebuild::changed(rows, edits), id),
    ensures
        made_stays(floors, path, id) || left_alone(m, root, rule, floors, w, rows, id),
{
    let next = rebuild::changed(rows, edits);
    let e = floors.len() - 1;
    assert(rebuild::setting(m, root, rule, edits, floors, w, rows) && floors.len() > 0) by {
        reveal(came_of);
    }
    lemma_ends(m, root, rule, edits, floors, w, rows, path);
    if next.len() == 0 {
        if apply::is_top(floors.last()) {
            let none = chunk::empty_node();
            let all = apply::closed_nodes(floors);
            assert(all[all.len() - 1] == none);
            lemma_path_one(m, root, rule, edits, floors, w, rows, path);
            assert(path.drop_last().len() == 0);
            assert(apply::stays(floors, path, none));
        }
    } else {
        let f = choose|f: nat| f <= height(w, rule, next) && #[trigger] here(w, rule, next, f, id);
        let n = choose|n: NodeView| #[trigger]
            rebuild::new_level(w, rule, next, f).contains(n) && chunk::node_id(n) == id;
        if f >= floors.len() {
            assert(rebuild::new_level(w, rule, rows, f).contains(n));
            assert(here(w, rule, rows, f, id));
        } else if floors[f as int].nodes.contains(n) {
            lemma_made_stays(m, root, rule, edits, floors, w, rows, path, f, n);
        } else {
            lemma_unmade_alone(m, root, rule, edits, floors, w, rows, path, f, n);
        }
    }
}

/// Nothing was closed under the id of a node that was left alone.
#[verifier::rlimit(60)]
#[verifier::spinoff_prover]
proof fn lemma_alone_not_made(
    m: BlockMap,
    root: Seq<u8>,
    rule: Rule,
    edits: Seq<(Vec<u8>, Edit)>,
    floors: Seq<Floor>,
    w: BlockMap,
    rows: Seq<Row>,
    path: Seq<Seq<u8>>,
    id: Seq<u8>,
    n: NodeView,
)
    requires
        came_of(m, root, rule, edits, floors, w, rows, path),
        left_alone(m, root, rule, floors, w, rows, id),
        apply::closed_nodes(floors).contains(n),
    ensures
        chunk::node_id(n) != id,
{
    let next = rebuild::changed(rows, edits);
    let e = floors.len() - 1;
    assert(rebuild::setting(m, root, rule, edits, floors, w, rows) && floors.len() > 0) by {
        reveal(came_of);
    }
    lemma_ends(m, root, rule, edits, floors, w, rows, path);
    let g = lemma_made_at(floors, n);
    let closed = 0 <= g < floors.len() && floors[g].nodes.contains(n);
    if closed {
        lemma_level_says(m, root, rule, edits, floors, w, rows, g);
    }
    if rows.len() == 0 {
        rebuild::lemma_on_level(m, root, rule, edits, floors, w, rows, 0);
        rebuild::lemma_empty_level(m, root, rule, edits, floors, w, rows);
    } else if chunk::node_id(n) == id {
        let f = choose|f: nat|
            f <= height(w, rule, rows) && #[trigger] here(w, rule, rows, f, id) && (f
                >= floors.len() ==> !apply::is_top(floors.last())) && (f < floors.len()
                ==> !apply::slot_ids(apply::was_at(m, root, f as int, floors[f as int])).contains(id));
        lemma_old_sound(m, root, rule, edits, floors, w, rows, path, f);
        if closed {
            reveal(level_says);
            assert(rebuild::new_level(w, rule, next, g as nat).contains(n));
            assert(here(w, rule, next, g as nat, id));
            let y = lemma_one_level(w, rule, rows, f, next, g as nat, id);
            reveal(sound_level);
            rebuild::lemma_one_id(w, y, n);
            assert(!rebuild::stood(apply::was_at(m, root, g, floors[g]), y));
        } else {
            if next.len() > 0 {
                lemma_at_top(m, root, rule, edits, floors, w, rows, path, e);
            }
            lemma_bare_up(w, rule, next, 0);
            assert(rebuild::leads(w, root, floors, path)) by {
                reveal(came_of);
            }
            rebuild::lemma_nothing_left(m, root, rule, edits, floors, w, rows, path);
            let y = choose|y: NodeView| #[trigger]
                rebuild::new_level(w, rule, rows, f).contains(y) && chunk::node_id(y) == id;
            reveal(sound_level);
            rebuild::lemma_one_id(w, y, n);
        }
    }
}

/// A node that was left alone is one of the old tree's that was not noted.
#[verifier::rlimit(60)]
#[verifier::spinoff_prover]
proof fn lemma_alone_is_old(
    m: BlockMap,
    root: Seq<u8>,
    rule: Rule,
    edits: Seq<(Vec<u8>, Edit)>,
    floors: Seq<Floor>,
    w: BlockMap,
    rows: Seq<Row>,
    path: Seq<Seq<u8>>,
    id: Seq<u8>,
)
    requires
        came_of(m, root, rule, edits, floors, w, rows, path),
        left_alone(m, root, rule, floors, w, rows, id),
    ensures
        tree_has(w, rule, rows, id),
        !apply::old_nodes(m, root, floors).contains(id),
{
    let next = rebuild::changed(rows, edits);
    let e = floors.len() - 1;
    assert(rebuild::setting(m, root, rule, edits, floors, w, rows) && floors.len() > 0) by {
        reveal(came_of);
    }
    lemma_ends(m, root, rule, edits, floors, w, rows, path);
    let olds = apply::floor_olds(m, root, floors, floors.len());
    let all = apply::old_nodes(m, root, floors);
    if all.contains(id) {
        let i = choose|i: int| 0 <= i < all.len() && all[i] == id;
        if i < olds.len() {
            assert(olds[i] == id);
            let g = lemma_old_of(m, root, floors, floors.len(), id);
            lemma_level_says(m, root, rule, edits, floors, w, rows, g);
            reveal(level_says);
            if rows.len() > 0 {
                let f = choose|f: nat|
                    f <= height(w, rule, rows) && #[trigger] here(w, rule, rows, f, id) && (f
                        >= floors.len() ==> !apply::is_top(floors.last())) && (f < floors.len()
                        ==> !apply::slot_ids(apply::was_at(m, root, f as int, floors[f as int])).contains(
                        id,
                    ));
                lemma_old_sound(m, root, rule, edits, floors, w, rows, path, f);
                lemma_old_sound(m, root, rule, edits, floors, w, rows, path, g as nat);
                let y = lemma_one_level(w, rule, rows, f, rows, g as nat, id);
            }
        } else {
            let more = apply::above(m, tree::root_slot(m, root).opened->Ok_0, root, e);
            assert(more[i - olds.len()] == id);
            assert(more.contains(id));
            let f = choose|f: nat|
                f <= height(w, rule, rows) && #[trigger] here(w, rule, rows, f, id) && (f
                    >= floors.len() ==> !apply::is_top(floors.last())) && (f < floors.len()
                    ==> !apply::slot_ids(apply::was_at(m, root, f as int, floors[f as int])).contains(
                    id,
                ));
            lemma_listed_above(m, root, rule, edits, floors, w, rows, path, id);
            let g = choose|g: nat|
                floors.len() <= g <= height(w, rule, rows) && #[trigger] here(w, rule, rows, g, id);
            lemma_old_sound(m, root, rule, edits, floors, w, rows, path, f);
            lemma_old_sound(m, root, rule, edits, floors, w, rows, path, g);
            let y = lemma_one_level(w, rule, rows, f, rows, g, id);
        }
    }
}

/// A node of the old tree was noted, or left alone.
#[verifier::rlimit(60)]
#[verifier::spinoff_prover]
proof fn lemma_old_is(
    m: BlockMap,
    root: Seq<u8>,
    rule: Rule,
    edits: Seq<(Vec<u8>, Edit)>,
    floors: Seq<Floor>,
    w: BlockMap,
    rows: Seq<Row>,
    path: Seq<Seq<u8>>,
    id: Seq<u8>,
)
    requires
        came_of(m, root, rule, edits, floors, w, rows, path),
        tree_has(w, rule, rows, id),
    ensures
        apply::old_nodes(m, root, floors).contains(id) || left_alone(
            m,
            root,
            rule,
            floors,
            w,
            rows,
            id,
        ),
{
    let next = rebuild::changed(rows, edits);
    let e = floors.len() - 1;
    assert(rebuild::setting(m, root, rule, edits, floors, w, rows) && floors.len() > 0) by {
        reveal(came_of);
    }
    let olds = apply::floor_olds(m, root, floors, floors.len());
    let all = apply::old_nodes(m, root, floors);
    let mut at: int = 0;
    let mut noted: bool = false;
    if rows.len() == 0 {
        if apply::is_top(floors.last()) {
            rebuild::lemma_empty_tree(m, root, rule, edits, floors, w, rows);
            if floors[0].es.len() == 0 {
                rebuild::lemma_link(m, root, rule, edits, floors, w, rows, 0);
                if floors.len() > 1 {
                    rebuild::lemma_link(m, root, rule, edits, floors, w, rows, 1);
                    rebuild::lemma_nothing_up(m, root, rule, edits, floors, w, rows, 0, floors[1].es);
                } else {
                    assert(apply::floor_ok(m, root, rule, true, 0, floors[0])) by {
                        reveal(rebuild::partway);
                        reveal(rebuild::ended);
                        reveal(apply::chain);
                    }
                    reveal(apply::floor_ok);
                }
            }
            lemma_level_says(m, root, rule, edits, floors, w, rows, 0);
            assert(apply::slot_ids(apply::was_at(m, root, 0, floors[0])).contains(id)) by {
                reveal(level_says);
            }
            noted = true;
        }
    } else {
        let f = choose|f: nat| f <= height(w, rule, rows) && #[trigger] here(w, rule, rows, f, id);
        at = f as int;
        noted = f < floors.len() && apply::slot_ids(
            apply::was_at(m, root, f as int, floors[f as int]),
        ).contains(id);
        if f >= floors.len() && apply::is_top(floors.last()) {
            lemma_listed_above(m, root, rule, edits, floors, w, rows, path, id);
            let more = apply::above(m, tree::root_slot(m, root).opened->Ok_0, root, e);
            let i = choose|i: int| 0 <= i < more.len() && more[i] == id;
            assert(all[olds.len() + i] == id);
        }
    }
    if noted {
        lemma_in_olds(m, root, floors, floors.len(), at, id);
        let i = choose|i: int| 0 <= i < olds.len() && olds[i] == id;
        assert(all[i] == id);
    }
}

/// What was noted is a node of the old tree.
#[verifier::rlimit(60)]
#[verifier::spinoff_prover]
proof fn lemma_noted_is_old(
    m: BlockMap,
    root: Seq<u8>,
    rule: Rule,
    edits: Seq<(Vec<u8>, Edit)>,
    floors: Seq<Floor>,
    w: BlockMap,
    rows: Seq<Row>,
    path: Seq<Seq<u8>>,
    id: Seq<u8>,
)
    requires
        came_of(m, root, rule, edits, floors, w, rows, path),
        apply::old_nodes(m, root, floors).contains(id),
    ensures
        tree_has(w, rule, rows, id),
{
    let next = rebuild::changed(rows, edits);
    let e = floors.len() - 1;
    assert(rebuild::setting(m, root, rule, edits, floors, w, rows) && floors.len() > 0) by {
        reveal(came_of);
    }
    let olds = apply::floor_olds(m, root, floors, floors.len());
    let all = apply::old_nodes(m, root, floors);
    let i = choose|i: int| 0 <= i < all.len() && all[i] == id;
    if rows.len() == 0 {
        rebuild::lemma_empty_tree(m, root, rule, edits, floors, w, rows);
    }
    if i < olds.len() {
        assert(olds[i] == id);
        let g = lemma_old_of(m, root, floors, floors.len(), id);
        lemma_level_says(m, root, rule, edits, floors, w, rows, g);
        reveal(level_says);
    } else {
        let more = apply::above(m, tree::root_slot(m, root).opened->Ok_0, root, e);
        assert(more[i - olds.len()] == id);
        assert(more.contains(id));
        if rows.len() > 0 {
            lemma_listed_above(m, root, rule, edits, floors, w, rows, path, id);
        }
    }
}

/// What fell off the root was left alone, and is no node of the new tree.
#[verifier::rlimit(60)]
#[verifier::spinoff_prover]
proof fn lemma_fell_is(
    m: BlockMap,
    root: Seq<u8>,
    rule: Rule,
    edits: Seq<(Vec<u8>, Edit)>,
    floors: Seq<Floor>,
    w: BlockMap,
    rows: Seq<Row>,
    path: Seq<Seq<u8>>,
    id: Seq<u8>,
)
    requires
        came_of(m, root, rule, edits, floors, w, rows, path),
        apply::fell(apply::closed_nodes(floors), path, id),
    ensures
        left_alone(m, root, rule, floors, w, rows, id),
        !tree_has(w, rule, rebuild::changed(rows, edits), id),
{
    let next = rebuild::changed(rows, edits);
    let e = floors.len() - 1;
    assert(rebuild::setting(m, root, rule, edits, floors, w, rows) && floors.len() > 0) by {
        reveal(came_of);
    }
    let made = apply::closed_nodes(floors);
    let i = choose|i: int|
        0 <= i < path.len() - 1 && path[i] == id && #[trigger] apply::fell_at(made, path, i);
    let f = lemma_taken_off(m, root, rule, edits, floors, w, rows, path, i);
    let n = rebuild::new_level(w, rule, next, f as nat)[0];
    lemma_level_says(m, root, rule, edits, floors, w, rows, f);
    assert(here(w, rule, next, f as nat, id));
    if path.take(i).contains(id) {
        let j = choose|j: int| 0 <= j < path.take(i).len() && path.take(i)[j] == id;
        lemma_path_apart(m, root, rule, edits, floors, w, rows, path, i, j);
    }
    let x = floors[f];
    if x.nodes.contains(n) {
        lemma_made(floors, f, n);
        let k = choose|k: int| 0 <= k < made.len() && made[k] == n;
        assert(apply::node_ids(made)[k] == id);
    }
    lemma_unmade_alone(m, root, rule, edits, floors, w, rows, path, f as nat, n);
    if tree_has(w, rule, next, id) {
        let g = choose|g: nat| g <= height(w, rule, next) && #[trigger] here(w, rule, next, g, id);
        lemma_not_off(m, root, rule, edits, floors, w, rows, path, g, id, i);
    }
}

/// A node that was left alone is one of the new tree, or fell off its root.
#[verifier::rlimit(60)]
#[verifier::spinoff_prover]
proof fn lemma_alone_goes(
    m: BlockMap,
    root: Seq<u8>,
    rule: Rule,
    edits: Seq<(Vec<u8>, Edit)>,
    floors: Seq<Floor>,
    w: BlockMap,
    rows: Seq<Row>,
    path: Seq<Seq<u8>>,
    id: Seq<u8>,
)
    requires
        came_of(m, root, rule, edits, floors, w, rows, path),
        left_alone(m, root, rule, floors, w, rows, id),
    ensures
        tree_has(w, rule, rebuild::changed(rows, edits), id) || apply::fell(
            apply::closed_nodes(floors),
            path,
            id,
        ),
{
    let next = rebuild::changed(rows, edits);
    let e = floors.len() - 1;
    assert(rebuild::setting(m, root, rule, edits, floors, w, rows) && floors.len() > 0) by {
        reveal(came_of);
    }
    lemma_ends(m, root, rule, edits, floors, w, rows, path);
    if rows.len() > 0 {
        let made = apply::closed_nodes(floors);
        let f = choose|f: nat|
            f <= height(w, rule, rows) && #[trigger] here(w, rule, rows, f, id) && (f
                >= floors.len() ==> !apply::is_top(floors.last())) && (f < floors.len()
                ==> !apply::slot_ids(apply::was_at(m, root, f as int, floors[f as int])).contains(id));
        let n = choose|n: NodeView| #[trigger]
            rebuild::new_level(w, rule, rows, f).contains(n) && chunk::node_id(n) == id;
        if f < floors.len() {
            lemma_level_says(m, root, rule, edits, floors, w, rows, f as int);
            assert(!rebuild::stood(apply::was_at(m, root, f as int, floors[f as int]), n));
            reveal(level_says);
        }
        let ns = rebuild::new_level(w, rule, next, f);
        assert(ns.contains(n));
        assert(here(w, rule, next, f, id));
        if next.len() == 0 {
            lemma_bare_up(w, rule, next, f);
        }
        if f > height(w, rule, next) {
            lemma_at_top(m, root, rule, edits, floors, w, rows, path, f as int);
            lemma_path_at(m, root, rule, edits, floors, w, rows, path, f as int);
            lemma_path_down(m, root, rule, edits, floors, w, rows, path);
            let i = e - f;
            assert(path[i] == id);
            if apply::node_ids(made).contains(id) {
                let ids = apply::node_ids(made);
                let k = choose|k: int| 0 <= k < ids.len() && ids[k] == id;
                assert(made.contains(made[k]));
                lemma_alone_not_made(m, root, rule, edits, floors, w, rows, path, id, made[k]);
            }
            assert(apply::fell_at(made, path, i));
        }
    }
}

/// What is owed is what is new; what was there and is not made again is what is gone.
#[verifier::rlimit(60)]
#[verifier::spinoff_prover]
proof fn lemma_renewed(
    m: BlockMap,
    root: Seq<u8>,
    rule: Rule,
    edits: Seq<(Vec<u8>, Edit)>,
    floors: Seq<Floor>,
    w: BlockMap,
    rows: Seq<Row>,
    path: Seq<Seq<u8>>,
    id: Seq<u8>,
)
    requires
        came_of(m, root, rule, edits, floors, w, rows, path),
    ensures
        apply::owed_node(m, root, floors, path, id) <==> tree_has(
            w,
            rule,
            rebuild::changed(rows, edits),
            id,
        ) && !tree_has(w, rule, rows, id),
        apply::was_old(m, root, floors, path, id) && !made_stays(floors, path, id) <==> tree_has(
            w,
            rule,
            rows,
            id,
        ) && !tree_has(w, rule, rebuild::changed(rows, edits), id),
{
    let next = rebuild::changed(rows, edits);
    let e = floors.len() - 1;
    assert(rebuild::setting(m, root, rule, edits, floors, w, rows) && floors.len() > 0) by {
        reveal(came_of);
    }
    reveal(apply::was_old);
    let made = apply::closed_nodes(floors);
    let noted = apply::old_nodes(m, root, floors).contains(id);
    let stays = made_stays(floors, path, id);
    let alone = left_alone(m, root, rule, floors, w, rows, id);
    if stays {
        let n = choose|n: NodeView| #[trigger]
            apply::stays(floors, path, n) && chunk::node_id(n) == id;
        lemma_stays_new(m, root, rule, edits, floors, w, rows, path, n);
        if alone {
            lemma_alone_not_made(m, root, rule, edits, floors, w, rows, path, id, n);
        }
    }
    if tree_has(w, rule, next, id) {
        lemma_new_is(m, root, rule, edits, floors, w, rows, path, id);
    }
    if tree_has(w, rule, rows, id) {
        lemma_old_is(m, root, rule, edits, floors, w, rows, path, id);
    }
    if alone {
        lemma_alone_is_old(m, root, rule, edits, floors, w, rows, path, id);
        lemma_alone_goes(m, root, rule, edits, floors, w, rows, path, id);
    }
    if noted {
        lemma_noted_is_old(m, root, rule, edits, floors, w, rows, path, id);
    }
    if apply::fell(made, path, id) {
        lemma_fell_is(m, root, rule, edits, floors, w, rows, path, id);
    }
}

// ---------------------------------------------------------------------------
// the law
// ---------------------------------------------------------------------------

/// Does what was handed over, and what was replaced, tell two trees apart: the values
/// owed and the nodes of the new tree alone, and the nodes of the old tree alone?
pub open spec fn tells_apart(
    m: BlockMap,
    root: Seq<u8>,
    edits: Seq<(Vec<u8>, Edit)>,
    w: BlockMap,
    a: apply::Applied,
    more: Seq<Put>,
) -> bool {
    &&& forall|id: Seq<u8>| #[trigger]
        apply::put_ids(more).contains(id) <==> apply::owed_value(m, root, edits, id) || (on_tree(
            w,
            a.root@,
            id,
        ) && !on_tree(w, root, id))
    &&& forall|id: Seq<u8>| #[trigger]
        node::cids_of(a.replaced@).contains(id) <==> on_tree(w, root, id) && !on_tree(
            w,
            a.root@,
            id,
        )
}

/// Is the answer to a change the root of the edited entries, and what was handed over and
/// replaced what tells the trees apart, in every store that has what it takes?
pub open spec fn parts(
    m: BlockMap,
    root: Seq<u8>,
    rule: Rule,
    edits: Seq<(Vec<u8>, Edit)>,
    made: Seq<NodeView>,
    a: apply::Applied,
    more: Seq<Put>,
) -> bool {
    forall|w: BlockMap, rows: Seq<Row>| #[trigger]
        rebuild::ready(m, root, rule, edits, made, w, rows) ==> build::delivers(
            w,
            rule,
            edits::edited(rows, apply::edit_rows(edits)),
            a.root@,
        ) && tells_apart(m, root, edits, w, a, more)
}

/// A change hands over what is new and replaces what is gone. Whatever apply answers
/// `Ok` with, there are nodes that it closed; and in every store in which the old tree
/// stands and which holds them, what it handed over is the values owed and the nodes of
/// the new tree that are not nodes of the old one, and what it replaced is the nodes of
/// the old tree that are not nodes of the new one.
pub proof fn law_a_change_tells_the_trees_apart(
    m: BlockMap,
    root: Seq<u8>,
    rule: Rule,
    edits: Seq<(Vec<u8>, Edit)>,
    a: apply::Applied,
    more: Seq<Put>,
)
    requires
        apply::taken_up(m, root, edits),
        apply::done_right(m, root, rule, true, edits, a, more),
    ensures
        exists|floors: Seq<Floor>, path: Seq<Seq<u8>>| #[trigger]
            apply::hands_over(m, root, edits, floors, path, more) && parts(
                m,
                root,
                rule,
                edits,
                apply::closed_nodes(floors),
                a,
                more,
            ),
{
    reveal(apply::done_right);
    let (floors, path) = choose|floors: Seq<Floor>, path: Seq<Seq<u8>>| #[trigger]
        apply::change(m, root, rule, true, edits, floors, path) && path.last() == a.root@
            && apply::hands_over(m, root, edits, floors, path, more) && apply::accounts(
            m,
            root,
            floors,
            path,
            a,
        );
    assert forall|w: BlockMap, rows: Seq<Row>| #[trigger]
        rebuild::ready(
            m,
            root,
            rule,
            edits,
            apply::closed_nodes(floors),
            w,
            rows,
        ) implies build::delivers(
        w,
        rule,
        edits::edited(rows, apply::edit_rows(edits)),
        a.root@,
    ) && tells_apart(m, root, edits, w, a, more) by {
        lemma_tells_apart(m, root, rule, edits, floors, w, rows, path, a, more);
    }
    assert(parts(m, root, rule, edits, apply::closed_nodes(floors), a, more));
    assert(apply::hands_over(m, root, edits, floors, path, more));
}

/// Do two lists name the same ids?
pub open spec fn same_ids(a: Seq<Seq<u8>>, b: Seq<Seq<u8>>) -> bool {
    forall|id: Seq<u8>| #![trigger a.contains(id)] #![trigger b.contains(id)]
        a.contains(id) <==> b.contains(id)
}

/// Two writers who make the same change agree. Each closed nodes of its own; in a store
/// that holds those of both besides the old tree, both answer the root of the edited
/// entries, hand over the same blocks in the same order and replace the same nodes. It
/// does not matter which call a writer makes, nor where the blocks it hands over go.
pub proof fn law_two_writers_of_one_change_agree(
    m: BlockMap,
    root: Seq<u8>,
    rule: Rule,
    edits: Seq<(Vec<u8>, Edit)>,
    a: apply::Applied,
    more_a: Seq<Put>,
    b: apply::Applied,
    more_b: Seq<Put>,
)
    requires
        apply::taken_up(m, root, edits),
        apply::done_right(m, root, rule, true, edits, a, more_a),
        apply::done_right(m, root, rule, true, edits, b, more_b),
    ensures
        exists|fa: Seq<Floor>, pa: Seq<Seq<u8>>, fb: Seq<Floor>, pb: Seq<Seq<u8>>|
            #![trigger
                apply::change(m, root, rule, true, edits, fa, pa),
                apply::change(m, root, rule, true, edits, fb, pb)]
            {
                &&& apply::change(m, root, rule, true, edits, fa, pa)
                &&& apply::change(m, root, rule, true, edits, fb, pb)
                &&& forall|w: BlockMap, rows: Seq<Row>| #[trigger]
                    rebuild::ready(m, root, rule, edits, apply::closed_nodes(fa), w, rows)
                        && rebuild::ready(m, root, rule, edits, apply::closed_nodes(fb), w, rows)
                        ==> agree(a, more_a, b, more_b)
            },
{
    reveal(apply::done_right);
    let (fa, pa) = choose|floors: Seq<Floor>, path: Seq<Seq<u8>>| #[trigger]
        apply::change(m, root, rule, true, edits, floors, path) && path.last() == a.root@
            && apply::hands_over(m, root, edits, floors, path, more_a) && apply::accounts(
            m,
            root,
            floors,
            path,
            a,
        );
    let (fb, pb) = choose|floors: Seq<Floor>, path: Seq<Seq<u8>>| #[trigger]
        apply::change(m, root, rule, true, edits, floors, path) && path.last() == b.root@
            && apply::hands_over(m, root, edits, floors, path, more_b) && apply::accounts(
            m,
            root,
            floors,
            path,
            b,
        );
    assert forall|w: BlockMap, rows: Seq<Row>| #[trigger]
        rebuild::ready(m, root, rule, edits, apply::closed_nodes(fa), w, rows) && rebuild::ready(
            m,
            root,
            rule,
            edits,
            apply::closed_nodes(fb),
            w,
            rows,
        ) implies agree(a, more_a, b, more_b) by {
        lemma_tells_apart(m, root, rule, edits, fa, w, rows, pa, a, more_a);
        lemma_tells_apart(m, root, rule, edits, fb, w, rows, pb, b, more_b);
        rebuild::law_equal_contents_have_equal_roots(
            w,
            rule,
            edits::edited(rows, apply::edit_rows(edits)),
            a.root@,
            b.root@,
        );
        rebuild::lemma_setting(m, root, rule, edits, fa, w, rows, pa);
        rebuild::lemma_setting(m, root, rule, edits, fb, w, rows, pb);
        lemma_same_list(m, root, rule, edits, fa, pa, more_a, fb, pb, more_b, w, rows);
    }
    assert(apply::change(m, root, rule, true, edits, fa, pa));
    assert(apply::change(m, root, rule, true, edits, fb, pb));
}

/// Do two answers to a change agree: one root, one list of blocks, and the same nodes
/// replaced?
pub open spec fn agree(
    a: apply::Applied,
    more_a: Seq<Put>,
    b: apply::Applied,
    more_b: Seq<Put>,
) -> bool {
    &&& a.root@ == b.root@
    &&& more_a == more_b
    &&& same_ids(node::cids_of(a.replaced@), node::cids_of(b.replaced@))
}

/// It does so in every store that has what it takes.
#[verifier::rlimit(60)]
#[verifier::spinoff_prover]
proof fn lemma_tells_apart(
    m: BlockMap,
    root: Seq<u8>,
    rule: Rule,
    edits: Seq<(Vec<u8>, Edit)>,
    floors: Seq<Floor>,
    w: BlockMap,
    rows: Seq<Row>,
    path: Seq<Seq<u8>>,
    a: apply::Applied,
    more: Seq<Put>,
)
    requires
        apply::taken_up(m, root, edits),
        apply::change(m, root, rule, true, edits, floors, path),
        path.last() == a.root@,
        apply::hands_over(m, root, edits, floors, path, more),
        apply::accounts(m, root, floors, path, a),
        rebuild::ready(m, root, rule, edits, apply::closed_nodes(floors), w, rows),
    ensures
        tells_apart(m, root, edits, w, a, more),
        build::delivers(w, rule, edits::edited(rows, apply::edit_rows(edits)), a.root@),
{
    let next = rebuild::changed(rows, edits);
    rebuild::law_a_changed_tree_is_a_rebuilt_one(m, root, rule, edits, floors, path, w, rows);
    rebuild::lemma_proper_fits(rows);
    rebuild::lemma_proper_fits(next);
    assert(came_of(m, root, rule, edits, floors, w, rows, path)) by {
        reveal(came_of);
        rebuild::lemma_setting(m, root, rule, edits, floors, w, rows, path);
        reveal(rebuild::ended);
        assert(rebuild::leads(w, root, floors, path)) by {
            reveal(apply::slides_in);
        }
    }
    assert forall|id: Seq<u8>| #[trigger]
        apply::put_ids(more).contains(id) <==> apply::owed_value(m, root, edits, id) || (on_tree(
            w,
            a.root@,
            id,
        ) && !on_tree(w, root, id)) by {
        lemma_renewed(m, root, rule, edits, floors, w, rows, path, id);
        lemma_on_tree(w, rule, rows, root, id);
        lemma_on_tree(w, rule, next, path.last(), id);
    }
    assert forall|id: Seq<u8>| #[trigger]
        node::cids_of(a.replaced@).contains(id) <==> on_tree(w, root, id) && !on_tree(
            w,
            a.root@,
            id,
        ) by {
        lemma_renewed(m, root, rule, edits, floors, w, rows, path, id);
        lemma_on_tree(w, rule, rows, root, id);
        lemma_on_tree(w, rule, next, path.last(), id);
    }
}

// ---------------------------------------------------------------------------
// what it takes
// ---------------------------------------------------------------------------

/// Do ids tell the closed nodes from everything else a store holds?
pub open spec fn told_by_id(w: BlockMap, made: Seq<NodeView>) -> bool {
    forall|i: int|
        0 <= i < made.len() && w.contains_key(chunk::node_id(#[trigger] made[i])) ==> w[chunk::node_id(
            made[i],
        )] == node::encode(made[i])
}

/// A store that has the old blocks, the batch's values, what a change handed over, and
/// the nodes that it took off the root; in which ids tell the nodes it closed from other
/// blocks; and in which the old tree stands.
pub open spec fn equipped(
    m: BlockMap,
    root: Seq<u8>,
    rule: Rule,
    edits: Seq<(Vec<u8>, Edit)>,
    made: Seq<NodeView>,
    path: Seq<Seq<u8>>,
    more: Seq<Put>,
    w: BlockMap,
    rows: Seq<Row>,
) -> bool {
    &&& m.submap_of(w)
    &&& apply::values_held(w, edits)
    &&& apply::all_held(w, apply::put_ids(more))
    &&& apply::all_held(w, path.drop_last())
    &&& told_by_id(w, made)
    &&& build::proper(rows)
    &&& build::delivers(w, rule, rows, root)
    &&& rebuild::tree_honest(w, rule, rows)
}

/// The old nodes that a change noted are held.
proof fn lemma_noted_held(
    m: BlockMap,
    root: Seq<u8>,
    rule: Rule,
    edits: Seq<(Vec<u8>, Edit)>,
    floors: Seq<Floor>,
    path: Seq<Seq<u8>>,
    id: Seq<u8>,
)
    requires
        apply::change(m, root, rule, true, edits, floors, path),
        apply::old_nodes(m, root, floors).contains(id),
    ensures
        m.contains_key(id),
{
    let olds = apply::floor_olds(m, root, floors, floors.len());
    let all = apply::old_nodes(m, root, floors);
    let i = choose|i: int| 0 <= i < all.len() && all[i] == id;
    if i < olds.len() {
        assert(olds[i] == id);
        let f = lemma_old_of(m, root, floors, floors.len(), id);
        let x = floors[f];
        assert(apply::floor_ok(m, root, rule, true, f, x)) by {
            reveal(apply::chain);
        }
        reveal(apply::floor_ok);
        let ids = apply::slot_ids(apply::was_at(m, root, f, x));
        if !(apply::old_height(m, root) < f && x.es.len() > 0) {
            reveal(apply::rewritten);
            apply::lemma_traced_held(m, root, f as u8, rule, x.ov, x.es, x.tr, true, x.tr.len());
        }
        let j = choose|j: int| 0 <= j < ids.len() && ids[j] == id;
        assert(m.contains_key(ids[j]));
    } else {
        let h = tree::root_slot(m, root).opened->Ok_0;
        let more = apply::above(m, h, root, floors.len() - 1);
        assert(m.contains_key(root)) by {
            reveal(store::loaded);
        }
        apply::lemma_above_held(m, h, root, floors.len() - 1);
        assert(more[i - olds.len()] == id);
    }
}

/// A store that has what it takes holds every node that was closed.
proof fn lemma_equipped(
    m: BlockMap,
    root: Seq<u8>,
    rule: Rule,
    edits: Seq<(Vec<u8>, Edit)>,
    floors: Seq<Floor>,
    path: Seq<Seq<u8>>,
    more: Seq<Put>,
    w: BlockMap,
    rows: Seq<Row>,
)
    requires
        apply::change(m, root, rule, true, edits, floors, path),
        apply::hands_over(m, root, edits, floors, path, more),
        equipped(m, root, rule, edits, apply::closed_nodes(floors), path, more, w, rows),
    ensures
        rebuild::ready(m, root, rule, edits, apply::closed_nodes(floors), w, rows),
{
    let made = apply::closed_nodes(floors);
    let blocks = build::blocks_of(made);
    assert forall|i: int| 0 <= i < blocks.len() implies w.contains_key((#[trigger] blocks[i]).id)
        && w[blocks[i].id] == blocks[i].bytes by {
        let n = made[i];
        let id = chunk::node_id(n);
        assert(made.contains(n));
        let front = path.drop_last();
        assert(w.contains_key(id)) by {
            if front.contains(id) {
                let k = choose|k: int| 0 <= k < front.len() && front[k] == id;
                assert(w.contains_key(front[k]));
            } else {
                assert(apply::stays(floors, path, n));
                reveal(apply::was_old);
                if apply::fell(made, path, id) {
                    let k = choose|k: int|
                        0 <= k < path.len() - 1 && path[k] == id && #[trigger] apply::fell_at(
                            made,
                            path,
                            k,
                        );
                    assert(front[k] == id);
                }
                if apply::old_nodes(m, root, floors).contains(id) {
                    lemma_noted_held(m, root, rule, edits, floors, path, id);
                    assert(m.dom().contains(id) && w.dom().contains(id));
                } else {
                    assert(apply::owed_node(m, root, floors, path, id));
                    let ids = apply::put_ids(more);
                    assert(ids.contains(id));
                    let k = choose|k: int| 0 <= k < ids.len() && ids[k] == id;
                    assert(w.contains_key(ids[k]));
                }
            }
        }
    }
    assert(build::agrees(w, blocks));
}

/// What is handed over is enough. Whatever apply answers `Ok` with: in every store that
/// has the old blocks, the batch's values, what was handed over and the nodes taken off
/// the root, and in which ids tell the closed nodes from other blocks, the root it
/// answers is that of a tree built from the edited entries, whatever tree and whatever
/// batch they came from, and the trees are told apart.
pub proof fn law_what_is_handed_over_is_enough(
    m: BlockMap,
    root: Seq<u8>,
    rule: Rule,
    edits: Seq<(Vec<u8>, Edit)>,
    a: apply::Applied,
    more: Seq<Put>,
)
    requires
        apply::taken_up(m, root, edits),
        apply::done_right(m, root, rule, true, edits, a, more),
    ensures
        exists|floors: Seq<Floor>, path: Seq<Seq<u8>>| #[trigger]
            apply::hands_over(m, root, edits, floors, path, more) && forall|
                w: BlockMap,
                rows: Seq<Row>,
            | #[trigger]
                equipped(m, root, rule, edits, apply::closed_nodes(floors), path, more, w, rows)
                    ==> build::delivers(
                    w,
                    rule,
                    edits::edited(rows, apply::edit_rows(edits)),
                    a.root@,
                ) && tells_apart(m, root, edits, w, a, more),
{
    reveal(apply::done_right);
    let (floors, path) = choose|floors: Seq<Floor>, path: Seq<Seq<u8>>| #[trigger]
        apply::change(m, root, rule, true, edits, floors, path) && path.last() == a.root@
            && apply::hands_over(m, root, edits, floors, path, more) && apply::accounts(
            m,
            root,
            floors,
            path,
            a,
        );
    assert forall|w: BlockMap, rows: Seq<Row>| #[trigger]
        equipped(
            m,
            root,
            rule,
            edits,
            apply::closed_nodes(floors),
            path,
            more,
            w,
            rows,
        ) implies build::delivers(
        w,
        rule,
        edits::edited(rows, apply::edit_rows(edits)),
        a.root@,
    ) && tells_apart(m, root, edits, w, a, more) by {
        lemma_equipped(m, root, rule, edits, floors, path, more, w, rows);
        lemma_tells_apart(m, root, rule, edits, floors, w, rows, path, a, more);
    }
    assert(apply::hands_over(m, root, edits, floors, path, more));
}

// ---------------------------------------------------------------------------
// the order
// ---------------------------------------------------------------------------

/// Where in a list a block that was put once stood.
spec fn put_from(had: Seq<Put>, list: Seq<Put>, i: int) -> int
    decreases list.len(),
{
    if list.len() == 0 || i >= apply::put_once(had, list.drop_last()).len() {
        list.len() - 1
    } else {
        put_from(had, list.drop_last(), i)
    }
}

/// What was put once came out of the list, in its order.
proof fn lemma_put_from(had: Seq<Put>, list: Seq<Put>, i: int)
    requires
        had.len() <= i < apply::put_once(had, list).len(),
    ensures
        0 <= put_from(had, list, i) < list.len(),
        list[put_from(had, list, i)] == apply::put_once(had, list)[i],
        apply::put_once(had, list.drop_last()).len() >= had.len(),
    decreases list.len(),
{
    let front = apply::put_once(had, list.drop_last());
    lemma_put_had(had, list.drop_last());
    if i < front.len() {
        lemma_put_from(had, list.drop_last(), i);
    }
}

/// What was there stays first.
proof fn lemma_put_had(had: Seq<Put>, list: Seq<Put>)
    ensures
        had.is_prefix_of(apply::put_once(had, list)),
    decreases list.len(),
{
    if list.len() > 0 {
        lemma_put_had(had, list.drop_last());
    }
}

proof fn lemma_put_order(had: Seq<Put>, list: Seq<Put>, i: int, j: int)
    requires
        had.len() <= i < j < apply::put_once(had, list).len(),
    ensures
        put_from(had, list, i) < put_from(had, list, j),
    decreases list.len(),
{
    let front = apply::put_once(had, list.drop_last());
    if j < front.len() {
        lemma_put_order(had, list.drop_last(), i, j);
    } else {
        assert(i < front.len());
        lemma_put_from(had, list.drop_last(), i);
    }
}

/// Which of the closed nodes a block that is due is of.
spec fn due_from(
    m: BlockMap,
    root: Seq<u8>,
    floors: Seq<Floor>,
    path: Seq<Seq<u8>>,
    nodes: Seq<NodeView>,
    i: int,
) -> int
    decreases nodes.len(),
{
    if nodes.len() == 0 || i >= apply::due_nodes(m, root, floors, path, nodes.drop_last()).len() {
        nodes.len() - 1
    } else {
        due_from(m, root, floors, path, nodes.drop_last(), i)
    }
}

/// What is due comes in the order of the nodes.
proof fn lemma_due_from(
    m: BlockMap,
    root: Seq<u8>,
    floors: Seq<Floor>,
    path: Seq<Seq<u8>>,
    nodes: Seq<NodeView>,
    i: int,
)
    requires
        0 <= i < apply::due_nodes(m, root, floors, path, nodes).len(),
    ensures
        0 <= due_from(m, root, floors, path, nodes, i) < nodes.len(),
        apply::due_nodes(m, root, floors, path, nodes)[i] == build::block_of(
            nodes[due_from(m, root, floors, path, nodes, i)],
        ),
    decreases nodes.len(),
{
    let front = apply::due_nodes(m, root, floors, path, nodes.drop_last());
    if i < front.len() {
        lemma_due_from(m, root, floors, path, nodes.drop_last(), i);
    }
}

proof fn lemma_due_order(
    m: BlockMap,
    root: Seq<u8>,
    floors: Seq<Floor>,
    path: Seq<Seq<u8>>,
    nodes: Seq<NodeView>,
    i: int,
    j: int,
)
    requires
        0 <= i < j < apply::due_nodes(m, root, floors, path, nodes).len(),
    ensures
        due_from(m, root, floors, path, nodes, i) < due_from(m, root, floors, path, nodes, j),
    decreases nodes.len(),
{
    let front = apply::due_nodes(m, root, floors, path, nodes.drop_last());
    if j < front.len() {
        lemma_due_order(m, root, floors, path, nodes.drop_last(), i, j);
    } else {
        assert(i < front.len());
        lemma_due_from(m, root, floors, path, nodes.drop_last(), i);
    }
}

/// On which level the `i`th closed node was closed.
spec fn floor_at(floors: Seq<Floor>, k: nat, i: int) -> int
    decreases k,
{
    if k == 0 {
        -1
    } else if i >= apply::floor_nodes(floors, (k - 1) as nat).len() {
        k - 1
    } else {
        floor_at(floors, (k - 1) as nat, i)
    }
}

proof fn lemma_floor_at(floors: Seq<Floor>, k: nat, i: int)
    requires
        k <= floors.len(),
        0 <= i < apply::floor_nodes(floors, k).len(),
    ensures
        0 <= floor_at(floors, k, i) < k,
        floors[floor_at(floors, k, i)].nodes.contains(apply::floor_nodes(floors, k)[i]),
    decreases k,
{
    let front = apply::floor_nodes(floors, (k - 1) as nat);
    if i < front.len() {
        lemma_floor_at(floors, (k - 1) as nat, i);
    } else {
        let ns = floors[k - 1].nodes;
        assert(ns[i - front.len()] == apply::floor_nodes(floors, k)[i]);
    }
}

/// Levels are closed from the leaves up.
proof fn lemma_floor_order(floors: Seq<Floor>, k: nat, i: int, j: int)
    requires
        k <= floors.len(),
        0 <= i < j < apply::floor_nodes(floors, k).len(),
    ensures
        floor_at(floors, k, i) <= floor_at(floors, k, j),
    decreases k,
{
    let front = apply::floor_nodes(floors, (k - 1) as nat);
    if j < front.len() {
        lemma_floor_order(floors, (k - 1) as nat, i, j);
    } else if i < front.len() {
        lemma_floor_at(floors, (k - 1) as nat, i);
    }
}

/// A row of a run is a row of all of them.
proof fn lemma_run_row(runs: Seq<Seq<Row>>, k: int, i: int) -> (x: int)
    requires
        0 <= k < runs.len(),
        0 <= i < runs[k].len(),
    ensures
        0 <= x < tower::joined(runs).len(),
        tower::joined(runs)[x] == runs[k][i],
{
    rebuild::lemma_joined_has(runs, k, i);
    choose|x: int| 0 <= x < tower::joined(runs).len() && #[trigger] tower::joined(runs)[x] == runs[k][i]
}

/// A child of a node of a level is a node of the level below.
proof fn lemma_child_below(
    w: BlockMap,
    rule: Rule,
    next: Seq<Row>,
    f: nat,
    n: NodeView,
    id: Seq<u8>,
)
    requires
        0 < f <= 255,
        tower::all_small(tower::level_rows(w, rule, next, f)),
        rebuild::new_level(w, rule, next, f).contains(n),
        merge::is_child(n, id),
    ensures
        here(w, rule, next, (f - 1) as nat, id),
{
    let r = tower::level_rows(w, rule, next, f);
    let runs = chunk::chunks(f as u8, rule, r);
    let ns = rebuild::new_level(w, rule, next, f);
    let below = rebuild::new_level(w, rule, next, (f - 1) as nat);
    tower::lemma_chunks(f as u8, rule, r);
    let k = choose|k: int| 0 <= k < ns.len() && ns[k] == n;
    assert(n == tower::node_of(w, f as u8, runs[k]));
    let i = choose|i: int| 0 <= i < n.rows.len() && store::child_cid(#[trigger] n.rows[i]) == id;
    let x = lemma_run_row(runs, k, i);
    assert(r == tower::child_rows(below));
    assert(r[x] == chunk::child_row(below[x]));
    assert(below.contains(below[x]));
}

/// A node that was closed is no child of one that was closed on its level or below.
#[verifier::rlimit(40)]
proof fn lemma_no_child_later(
    m: BlockMap,
    root: Seq<u8>,
    rule: Rule,
    edits: Seq<(Vec<u8>, Edit)>,
    floors: Seq<Floor>,
    w: BlockMap,
    rows: Seq<Row>,
    i: int,
    j: int,
)
    requires
        rebuild::setting(m, root, rule, edits, floors, w, rows),
        0 <= i < j < apply::closed_nodes(floors).len(),
        apply::closed_nodes(floors)[i].level > 0,
    ensures
        !merge::is_child(
            apply::closed_nodes(floors)[i],
            chunk::node_id(apply::closed_nodes(floors)[j]),
        ),
        tower::kept(w, apply::closed_nodes(floors)[i]),
{
    let made = apply::closed_nodes(floors);
    let all = apply::floor_nodes(floors, floors.len());
    let next = rebuild::changed(rows, edits);
    let n = made[i];
    let id = chunk::node_id(made[j]);
    assert(i < all.len() && made[i] == all[i]);
    let f = floor_at(floors, floors.len(), i);
    lemma_floor_at(floors, floors.len(), i);
    lemma_level_says(m, root, rule, edits, floors, w, rows, f);
    assert(sound_level(w, rule, next, f as nat) && rebuild::new_level(
        w,
        rule,
        next,
        f as nat,
    ).contains(n)) by {
        reveal(level_says);
    }
    assert(tower::kept(w, n) && n.level == f) by {
        reveal(sound_level);
    }
    if merge::is_child(n, id) {
        rebuild::lemma_level_done(m, root, rule, edits, floors, w, rows, f);
        assert(tower::all_small(tower::level_rows(w, rule, next, f as nat)) && f <= 255) by {
            reveal(rebuild::level_done);
        }
        lemma_child_below(w, rule, next, f as nat, n, id);
        lemma_level_says(m, root, rule, edits, floors, w, rows, f - 1);
        assert(sound_level(w, rule, next, (f - 1) as nat)) by {
            reveal(level_says);
        }
        if j < all.len() {
            assert(made[j] == all[j]);
            let g = floor_at(floors, floors.len(), j);
            lemma_floor_at(floors, floors.len(), j);
            lemma_floor_order(floors, floors.len(), i, j);
            lemma_level_says(m, root, rule, edits, floors, w, rows, g);
            assert(sound_level(w, rule, next, g as nat) && rebuild::new_level(
                w,
                rule,
                next,
                g as nat,
            ).contains(made[j])) by {
                reveal(level_says);
            }
            assert(here(w, rule, next, g as nat, id));
            let y = lemma_one_level(w, rule, next, (f - 1) as nat, next, g as nat, id);
        } else {
            let none = chunk::empty_node();
            assert(made[j] == none);
            let y = choose|y: NodeView| #[trigger]
                rebuild::new_level(w, rule, next, (f - 1) as nat).contains(y) && chunk::node_id(y)
                    == id;
            assert(tower::kept(w, y) && y.rows.len() > 0) by {
                reveal(sound_level);
            }
            lemma_none_kept(m, root, rule, edits, floors, w, rows, j);
            rebuild::lemma_one_id(w, y, none);
        }
    }
}

/// A closed node is held.
proof fn lemma_none_kept(
    m: BlockMap,
    root: Seq<u8>,
    rule: Rule,
    edits: Seq<(Vec<u8>, Edit)>,
    floors: Seq<Floor>,
    w: BlockMap,
    rows: Seq<Row>,
    j: int,
)
    requires
        rebuild::setting(m, root, rule, edits, floors, w, rows),
        0 <= j < apply::closed_nodes(floors).len(),
    ensures
        tower::kept(w, apply::closed_nodes(floors)[j]),
{
    let made = apply::closed_nodes(floors);
    reveal(rebuild::partway);
    reveal(rebuild::ended);
    reveal(tower::kept);
    assert(made[j].valid());
    let blocks = build::blocks_of(made);
    assert(blocks[j] == build::block_of(made[j]));
}

/// Does a node come before another: on a lower level, or earlier on the same?
spec fn earlier(a: NodeView, b: NodeView) -> bool {
    a.level < b.level || (a.level == b.level && order::lt(
        chunk::first_key(a.rows),
        chunk::first_key(b.rows),
    ))
}

/// Does every node come before those after it?
spec fn in_order(ns: Seq<NodeView>) -> bool {
    forall|i: int, j: int| 0 <= i < j < ns.len() ==> earlier(#[trigger] ns[i], #[trigger] ns[j])
}

/// The same nodes in order are the same list.
#[verifier::rlimit(60)]
#[verifier::spinoff_prover]
proof fn lemma_order_same(a: Seq<NodeView>, b: Seq<NodeView>)
    requires
        in_order(a),
        in_order(b),
        forall|n: NodeView| #[trigger] a.contains(n) ==> b.contains(n),
        forall|n: NodeView| #[trigger] b.contains(n) ==> a.contains(n),
    ensures
        a == b,
    decreases a.len(),
{
    if a.len() == 0 {
        if b.len() > 0 {
            assert(b.contains(b[0]));
        }
        assert(a =~= b);
    } else {
        let x = a.last();
        assert(a.contains(a[a.len() - 1]));
        let i = choose|i: int| 0 <= i < b.len() && b[i] == x;
        let y = b.last();
        assert(b.contains(b[b.len() - 1]));
        let j = choose|j: int| 0 <= j < a.len() && a[j] == y;
        order::lemma_lt_total(chunk::first_key(x.rows), chunk::first_key(y.rows));
        order::lemma_lt_irreflexive(chunk::first_key(x.rows));
        if i < b.len() - 1 {
            assert(earlier(b[i], b[b.len() - 1]));
            if j < a.len() - 1 {
                assert(earlier(a[j], a[a.len() - 1]));
            }
        }
        assert(x == y);
        let p = a.drop_last();
        let q = b.drop_last();
        assert forall|n: NodeView| #[trigger] p.contains(n) implies q.contains(n) by {
            let k = choose|k: int| 0 <= k < p.len() && p[k] == n;
            assert(a[k] == n);
            assert(a.contains(n));
            assert(earlier(a[k], a[a.len() - 1]));
            let l = choose|l: int| 0 <= l < b.len() && b[l] == n;
            assert(l < b.len() - 1);
            assert(q[l] == n);
        }
        assert forall|n: NodeView| #[trigger] q.contains(n) implies p.contains(n) by {
            let k = choose|k: int| 0 <= k < q.len() && q[k] == n;
            assert(b[k] == n);
            assert(b.contains(n));
            assert(earlier(b[k], b[b.len() - 1]));
            let l = choose|l: int| 0 <= l < a.len() && a[l] == n;
            assert(l < a.len() - 1);
            assert(p[l] == n);
        }
        lemma_order_same(p, q);
        assert(a =~= p.push(x));
        assert(b =~= q.push(y));
    }
}

/// Nodes are closed level by level, and in key order.
#[verifier::rlimit(60)]
#[verifier::spinoff_prover]
proof fn lemma_floors_order(
    m: BlockMap,
    root: Seq<u8>,
    rule: Rule,
    edits: Seq<(Vec<u8>, Edit)>,
    floors: Seq<Floor>,
    w: BlockMap,
    rows: Seq<Row>,
    k: nat,
)
    requires
        rebuild::partway(m, root, rule, edits, floors, w, rows),
        k <= floors.len(),
    ensures
        in_order(apply::floor_nodes(floors, k)),
        forall|i: int|
            0 <= i < apply::floor_nodes(floors, k).len() ==> (#[trigger] apply::floor_nodes(
                floors,
                k,
            )[i]).level < k,
    decreases k,
{
    if k > 0 {
        let f = k - 1;
        lemma_floors_order(m, root, rule, edits, floors, w, rows, f as nat);
        rebuild::lemma_nodes_ascend(m, root, rule, edits, floors, w, rows, f);
        let front = apply::floor_nodes(floors, f as nat);
        let ns = floors[f].nodes;
        let all = apply::floor_nodes(floors, k);
        assert forall|i: int| 0 <= i < ns.len() implies (#[trigger] ns[i]).level == f by {
            assert(ns.contains(ns[i]));
            lemma_made_node(m, root, rule, edits, floors, w, rows, f, ns[i]);
            lemma_new_node(m, root, rule, edits, floors, w, rows, f, ns[i]);
        }
        assert forall|i: int, j: int| 0 <= i < j < all.len() implies earlier(
            #[trigger] all[i],
            #[trigger] all[j],
        ) by {
            if j < front.len() {
                assert(all[i] == front[i] && all[j] == front[j]);
            } else {
                let y = j - front.len();
                assert(all[j] == ns[y]);
                if i < front.len() {
                    assert(all[i] == front[i]);
                } else {
                    let x = i - front.len();
                    assert(all[i] == ns[x]);
                    let up = tower::child_rows(ns);
                    assert(order::lt(up[x].key, up[y].key));
                }
            }
        }
        assert forall|i: int| 0 <= i < all.len() implies (#[trigger] all[i]).level < k by {
            if i < front.len() {
                assert(all[i] == front[i]);
            } else {
                assert(all[i] == ns[i - front.len()]);
            }
        }
    }
}

/// All closed nodes are in order.
#[verifier::rlimit(60)]
#[verifier::spinoff_prover]
proof fn lemma_closed_order(
    m: BlockMap,
    root: Seq<u8>,
    rule: Rule,
    edits: Seq<(Vec<u8>, Edit)>,
    floors: Seq<Floor>,
    w: BlockMap,
    rows: Seq<Row>,
)
    requires
        rebuild::partway(m, root, rule, edits, floors, w, rows),
    ensures
        in_order(apply::closed_nodes(floors)),
{
    let all = apply::floor_nodes(floors, floors.len());
    let made = apply::closed_nodes(floors);
    lemma_floors_order(m, root, rule, edits, floors, w, rows, floors.len());
    if made.len() > all.len() && all.len() > 0 {
        // nothing is left, and so nothing was closed
        let next = rebuild::changed(rows, edits);
        let e = floors.len() - 1;
        rebuild::lemma_level_done(m, root, rule, edits, floors, w, rows, e);
        let f = floor_at(floors, floors.len(), 0);
        lemma_floor_at(floors, floors.len(), 0);
        lemma_made_node(m, root, rule, edits, floors, w, rows, f, all[0]);
        if next.len() == 0 {
            lemma_bare_up(w, rule, next, f as nat);
        } else {
            lemma_some_up(m, root, rule, edits, floors, w, rows, e);
            assert(rebuild::new_level(w, rule, next, e as nat) == floors[e].nodes) by {
                reveal(rebuild::level_done);
            }
        }
    }
}

/// Over something there is something.
proof fn lemma_some_up(
    m: BlockMap,
    root: Seq<u8>,
    rule: Rule,
    edits: Seq<(Vec<u8>, Edit)>,
    floors: Seq<Floor>,
    w: BlockMap,
    rows: Seq<Row>,
    f: int,
)
    requires
        rebuild::partway(m, root, rule, edits, floors, w, rows),
        0 <= f < floors.len(),
        rebuild::changed(rows, edits).len() > 0,
    ensures
        rebuild::new_level(w, rule, rebuild::changed(rows, edits), f as nat).len() > 0,
    decreases f,
{
    let next = rebuild::changed(rows, edits);
    rebuild::lemma_level_done(m, root, rule, edits, floors, w, rows, f);
    rebuild::lemma_level_node(w, rule, next, f as nat, floors[f]);
    if f > 0 {
        lemma_some_up(m, root, rule, edits, floors, w, rows, f - 1);
        rebuild::lemma_level_done(m, root, rule, edits, floors, w, rows, f - 1);
        rebuild::lemma_level_node(w, rule, next, (f - 1) as nat, floors[f - 1]);
    }
}

/// What is handed over: the values, and then closed nodes in order.
#[verifier::rlimit(60)]
#[verifier::spinoff_prover]
proof fn lemma_handed_nodes(
    m: BlockMap,
    root: Seq<u8>,
    rule: Rule,
    edits: Seq<(Vec<u8>, Edit)>,
    floors: Seq<Floor>,
    w: BlockMap,
    rows: Seq<Row>,
    path: Seq<Seq<u8>>,
    more: Seq<Put>,
) -> (ns: Seq<NodeView>)
    requires
        rebuild::setting(m, root, rule, edits, floors, w, rows),
        apply::hands_over(m, root, edits, floors, path, more),
    ensures
        more == apply::put_once(
            Seq::empty(),
            apply::due_values(m, root, edits, edits.len()),
        ) + build::blocks_of(ns),
        in_order(ns),
        forall|i: int| 0 <= i < ns.len() ==> tower::kept(w, #[trigger] ns[i]),
{
    let made = apply::closed_nodes(floors);
    let vs = apply::put_once(Seq::empty(), apply::due_values(m, root, edits, edits.len()));
    let due = apply::due_nodes(m, root, floors, path, made);
    let k = vs.len() as int;
    lemma_put_had(vs, due);
    let at = |i: int| due_from(m, root, floors, path, made, put_from(vs, due, k + i));
    let ns = Seq::new((more.len() - k) as nat, |i: int| made[at(i)]);
    lemma_closed_order(m, root, rule, edits, floors, w, rows);
    assert forall|i: int| 0 <= i < ns.len() implies 0 <= #[trigger] at(i) < made.len() && more[k + i]
        == build::block_of(ns[i]) by {
        lemma_put_from(vs, due, k + i);
        lemma_due_from(m, root, floors, path, made, put_from(vs, due, k + i));
    }
    assert forall|i: int, j: int| 0 <= i < j < ns.len() implies earlier(
        #[trigger] ns[i],
        #[trigger] ns[j],
    ) by {
        lemma_put_from(vs, due, k + i);
        lemma_put_from(vs, due, k + j);
        lemma_put_order(vs, due, k + i, k + j);
        lemma_due_order(
            m,
            root,
            floors,
            path,
            made,
            put_from(vs, due, k + i),
            put_from(vs, due, k + j),
        );
        assert(0 <= at(i) < at(j) < made.len());
        assert(earlier(made[at(i)], made[at(j)]));
    }
    assert forall|i: int| 0 <= i < ns.len() implies tower::kept(w, #[trigger] ns[i]) by {
        assert(0 <= at(i) < made.len());
        lemma_none_kept(m, root, rule, edits, floors, w, rows, at(i));
    }
    let whole = vs + build::blocks_of(ns);
    assert forall|i: int| 0 <= i < more.len() implies more[i] == whole[i] by {
        if i >= k {
            assert(0 <= at(i - k) < made.len());
        }
    }
    assert(more =~= whole);
    ns
}

/// A node of one list of blocks is one of the other.
#[verifier::rlimit(60)]
#[verifier::spinoff_prover]
proof fn lemma_nodes_within(
    w: BlockMap,
    vs: Seq<Put>,
    a: Seq<NodeView>,
    b: Seq<NodeView>,
    x: Seq<Put>,
    y: Seq<Put>,
    n: NodeView,
)
    requires
        x == vs + build::blocks_of(a),
        y == vs + build::blocks_of(b),
        apply::put_ids(x).no_duplicates(),
        forall|id: Seq<u8>| #[trigger]
            apply::put_ids(x).contains(id) ==> apply::put_ids(y).contains(id),
        forall|i: int| 0 <= i < a.len() ==> tower::kept(w, #[trigger] a[i]),
        forall|i: int| 0 <= i < b.len() ==> tower::kept(w, #[trigger] b[i]),
        a.contains(n),
    ensures
        b.contains(n),
{
    let i = choose|i: int| 0 <= i < a.len() && a[i] == n;
    let k = vs.len() as int;
    let xs = apply::put_ids(x);
    let ys = apply::put_ids(y);
    let id = chunk::node_id(n);
    assert(x[k + i] == build::block_of(a[i]));
    assert(xs[k + i] == id);
    assert(xs.contains(id));
    let j = choose|j: int| 0 <= j < ys.len() && ys[j] == id;
    assert(y[j].id == id);
    if j < k {
        assert(x[j] == y[j]);
        assert(xs[j] == id);
    } else {
        assert(y[j] == build::block_of(b[j - k]));
        assert(tower::kept(w, a[i]) && tower::kept(w, b[j - k]));
        rebuild::lemma_one_id(w, a[i], b[j - k]);
        assert(b[j - k] == n);
    }
}

/// Two writers hand over one list.
proof fn lemma_same_list(
    m: BlockMap,
    root: Seq<u8>,
    rule: Rule,
    edits: Seq<(Vec<u8>, Edit)>,
    fa: Seq<Floor>,
    pa: Seq<Seq<u8>>,
    more_a: Seq<Put>,
    fb: Seq<Floor>,
    pb: Seq<Seq<u8>>,
    more_b: Seq<Put>,
    w: BlockMap,
    rows: Seq<Row>,
)
    requires
        rebuild::setting(m, root, rule, edits, fa, w, rows),
        rebuild::setting(m, root, rule, edits, fb, w, rows),
        apply::hands_over(m, root, edits, fa, pa, more_a),
        apply::hands_over(m, root, edits, fb, pb, more_b),
        same_ids(apply::put_ids(more_a), apply::put_ids(more_b)),
    ensures
        more_a == more_b,
{
    let vs = apply::put_once(Seq::empty(), apply::due_values(m, root, edits, edits.len()));
    let a = lemma_handed_nodes(m, root, rule, edits, fa, w, rows, pa, more_a);
    let b = lemma_handed_nodes(m, root, rule, edits, fb, w, rows, pb, more_b);
    assert forall|n: NodeView| #[trigger] a.contains(n) implies b.contains(n) by {
        lemma_nodes_within(w, vs, a, b, more_a, more_b, n);
    }
    assert forall|n: NodeView| #[trigger] b.contains(n) implies a.contains(n) by {
        lemma_nodes_within(w, vs, b, a, more_b, more_a, n);
    }
    lemma_order_same(a, b);
}

/// How many of the blocks that a change hands over are values.
pub open spec fn values_first(m: BlockMap, root: Seq<u8>, edits: Seq<(Vec<u8>, Edit)>) -> int {
    apply::put_once(Seq::empty(), apply::due_values(m, root, edits, edits.len())).len() as int
}

/// Does every child come before its parent: after the values, no block is a child of a
/// node that came before it?
pub open spec fn children_first(more: Seq<Put>, values: int) -> bool {
    forall|i: int, j: int, n: NodeView|
        #![trigger merge::is_child(n, more[j].id), build::block_of(n), more[i]]
        0 <= values <= i < j < more.len() && n.valid() && n.level > 0 && more[i]
            == build::block_of(n) ==> !merge::is_child(n, more[j].id)
}

/// A change hands children over before their parents. Whatever apply answers `Ok` with,
/// it hands over the values owed and then nodes; and in every store in which the old tree
/// stands and which holds the nodes that were closed, no node is a child of one that was
/// handed over before it.
pub proof fn law_children_come_before_their_parents(
    m: BlockMap,
    root: Seq<u8>,
    rule: Rule,
    edits: Seq<(Vec<u8>, Edit)>,
    a: apply::Applied,
    more: Seq<Put>,
)
    requires
        apply::taken_up(m, root, edits),
        apply::done_right(m, root, rule, true, edits, a, more),
    ensures
        exists|floors: Seq<Floor>, path: Seq<Seq<u8>>| #[trigger]
            apply::hands_over(m, root, edits, floors, path, more) && forall|
                w: BlockMap,
                rows: Seq<Row>,
            | #[trigger]
                rebuild::ready(m, root, rule, edits, apply::closed_nodes(floors), w, rows)
                    ==> children_first(more, values_first(m, root, edits)),
{
    reveal(apply::done_right);
    let (floors, path) = choose|floors: Seq<Floor>, path: Seq<Seq<u8>>| #[trigger]
        apply::change(m, root, rule, true, edits, floors, path) && path.last() == a.root@
            && apply::hands_over(m, root, edits, floors, path, more) && apply::accounts(
            m,
            root,
            floors,
            path,
            a,
        );
    assert forall|w: BlockMap, rows: Seq<Row>| #[trigger]
        rebuild::ready(
            m,
            root,
            rule,
            edits,
            apply::closed_nodes(floors),
            w,
            rows,
        ) implies children_first(more, values_first(m, root, edits)) by {
        lemma_children_first(m, root, rule, edits, floors, w, rows, path, more);
    }
    assert(apply::hands_over(m, root, edits, floors, path, more));
}

/// They come so in every store that has what it takes.
#[verifier::rlimit(60)]
#[verifier::spinoff_prover]
proof fn lemma_children_first(
    m: BlockMap,
    root: Seq<u8>,
    rule: Rule,
    edits: Seq<(Vec<u8>, Edit)>,
    floors: Seq<Floor>,
    w: BlockMap,
    rows: Seq<Row>,
    path: Seq<Seq<u8>>,
    more: Seq<Put>,
)
    requires
        apply::taken_up(m, root, edits),
        apply::change(m, root, rule, true, edits, floors, path),
        apply::hands_over(m, root, edits, floors, path, more),
        rebuild::ready(m, root, rule, edits, apply::closed_nodes(floors), w, rows),
    ensures
        children_first(more, values_first(m, root, edits)),
{
    let made = apply::closed_nodes(floors);
    let vs = apply::put_once(Seq::empty(), apply::due_values(m, root, edits, edits.len()));
    let due = apply::due_nodes(m, root, floors, path, made);
    rebuild::lemma_proper_fits(rows);
    rebuild::lemma_setting(m, root, rule, edits, floors, w, rows, path);
    assert forall|i: int, j: int, n: NodeView|
        #![trigger merge::is_child(n, more[j].id), build::block_of(n), more[i]]
        0 <= vs.len() <= i < j < more.len() && n.valid() && n.level > 0 && more[i]
            == build::block_of(n) implies !merge::is_child(n, more[j].id) by {
        lemma_put_from(vs, due, i);
        lemma_put_from(vs, due, j);
        lemma_put_order(vs, due, i, j);
        let x = put_from(vs, due, i);
        let y = put_from(vs, due, j);
        lemma_due_from(m, root, floors, path, made, x);
        lemma_due_from(m, root, floors, path, made, y);
        lemma_due_order(m, root, floors, path, made, x, y);
        let p = due_from(m, root, floors, path, made, x);
        let q = due_from(m, root, floors, path, made, y);
        lemma_none_kept(m, root, rule, edits, floors, w, rows, p);
        assert(tower::kept(w, n)) by {
            reveal(tower::kept);
        }
        rebuild::lemma_one_id(w, n, made[p]);
        lemma_no_child_later(m, root, rule, edits, floors, w, rows, p, q);
    }
}

} // verus!
