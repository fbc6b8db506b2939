//! The course of a diff, turn by turn: where a merge of two trees stands, what it does
//! next, and what a page that stops there holds.

use crate::cursor::StepView;
use crate::diff;
use crate::diff::Difference;
use crate::node::NodeView;
use crate::order;
use crate::range;
use crate::range::{End, RangeView, MAX_NEED};
use crate::slots;
use crate::slots::{Place, SlotView};
use crate::store;
use crate::store::{BlockMap, Fault, HeldView};
use vstd::prelude::*;

verus! {

/// How far a merge has come: where it stands in the old tree and in the new one, what
/// it told, the nodes of the new tree it opened, and the last key it decided.
#[verifier::ext_equal]
pub struct Merge {
    pub a: SlotView,
    pub b: SlotView,
    pub got: Seq<Difference>,
    pub ids: Seq<Seq<u8>>,
    pub last: Option<Seq<u8>>,
}

/// What a merge does next: it goes on, it has told what a page holds, it has told all,
/// or it cannot open a slot.
#[verifier::ext_equal]
pub enum Turn {
    On(Merge),
    Full,
    Over,
    Stuck(Merge, Fault),
}

/// Is all of the current slot outside the range?
pub open spec fn outside(v: SlotView, r: RangeView) -> bool {
    ||| !range::under(slots::key_of(v), r.hi)
    ||| match (slots::end_of(v), r.lo) {
        (Some(end), End::At(k)) => !order::lt(k, end),
        (Some(end), End::Past(k)) => !order::lt(k, end),
        _ => false,
    }
}

/// One side has keys that the other has passed: an entry is told, a subtree is opened.
pub open spec fn drained(m: BlockMap, r: RangeView, s: Merge, new: bool) -> Turn {
    let v = if new {
        s.b
    } else {
        s.a
    };
    match slots::place_of(v) {
        Place::Entry(p) => {
            let k = slots::key_of(v);
            let t = slots::advanced(v);
            if new {
                Turn::On(
                    Merge {
                        b: t,
                        got: s.got + diff::told(k, None, Some(p), r),
                        last: Some(k),
                        ..s
                    },
                )
            } else {
                Turn::On(
                    Merge {
                        a: t,
                        got: s.got + diff::told(k, Some(p), None, r),
                        last: Some(k),
                        ..s
                    },
                )
            }
        },
        Place::Sub { level, id } => match slots::descended(m, v) {
            Err(f) => Turn::Stuck(s, f),
            Ok(t) => if new {
                Turn::On(Merge { b: t, ids: s.ids.push(id), ..s })
            } else {
                Turn::On(Merge { a: t, ..s })
            },
        },
    }
}

/// Open the slot of the old tree, of the new tree, or of both, in that order.
pub open spec fn opened(m: BlockMap, s: Merge, old_side: bool, new_side: bool) -> Turn {
    let first: Result<SlotView, Fault> = if old_side {
        slots::descended(m, s.a)
    } else {
        Ok(s.a)
    };
    match first {
        Err(f) => Turn::Stuck(s, f),
        Ok(a) => {
            let t = Merge { a, ..s };
            if !new_side {
                Turn::On(t)
            } else {
                match slots::descended(m, s.b) {
                    Err(f) => Turn::Stuck(t, f),
                    Ok(b) => Turn::On(
                        Merge { b, ids: s.ids.push(slots::place_of(s.b)->id), ..t },
                    ),
                }
            }
        },
    }
}

/// Both sides begin at one key: two slots of one level and one id are skipped, two
/// entries are compared, and otherwise the side that reaches higher is opened.
pub open spec fn met(m: BlockMap, r: RangeView, s: Merge) -> Turn {
    match (slots::place_of(s.a), slots::place_of(s.b)) {
        (Place::Sub { level: la, id: ia }, Place::Sub { level: lb, id: ib }) => {
            if la == lb && ia == ib {
                Turn::On(Merge { a: slots::advanced(s.a), b: slots::advanced(s.b), ..s })
            } else {
                opened(m, s, la >= lb, lb >= la)
            }
        },
        (Place::Sub { .. }, Place::Entry(_)) => opened(m, s, true, false),
        (Place::Entry(_), Place::Sub { .. }) => opened(m, s, false, true),
        (Place::Entry(p), Place::Entry(q)) => {
            let k = slots::key_of(s.a);
            Turn::On(
                Merge {
                    a: slots::advanced(s.a),
                    b: slots::advanced(s.b),
                    got: s.got + diff::told(k, Some(p), Some(q), r),
                    last: Some(k),
                    ..s
                },
            )
        },
    }
}

/// What a merge does next.
#[verifier::opaque]
pub open spec fn turn(m: BlockMap, r: RangeView, s: Merge) -> Turn {
    if diff::full(s.got, r) {
        Turn::Full
    } else if !s.a.done && outside(s.a, r) {
        Turn::On(Merge { a: slots::advanced(s.a), ..s })
    } else if !s.b.done && outside(s.b, r) {
        Turn::On(Merge { b: slots::advanced(s.b), ..s })
    } else if s.a.done && s.b.done {
        Turn::Over
    } else if s.b.done || (!s.a.done && order::lt(slots::key_of(s.a), slots::key_of(s.b))) {
        drained(m, r, s, false)
    } else if s.a.done || order::lt(slots::key_of(s.b), slots::key_of(s.a)) {
        drained(m, r, s, true)
    } else {
        met(m, r, s)
    }
}

/// A merge after so many turns, or where it stopped before.
pub open spec fn after(m: BlockMap, r: RangeView, s: Merge, n: nat) -> Merge
    decreases n,
{
    if n == 0 {
        s
    } else {
        let t = after(m, r, s, (n - 1) as nat);
        match turn(m, r, t) {
            Turn::On(u) => u,
            _ => t,
        }
    }
}

/// A position at the start of a tree.
pub open spec fn start(m: BlockMap, root: Seq<u8>) -> SlotView {
    match store::loaded(m, root) {
        Ok(n) if n.rows.len() > 0 => SlotView {
            path: seq![StepView { cid: root, held: HeldView { node: n, upper: None }, taken: 0 }],
            at_root: true,
            done: false,
        },
        _ => SlotView { path: Seq::empty(), at_root: false, done: true },
    }
}

/// A merge of two trees at its start.
pub open spec fn fresh(m: BlockMap, a: Seq<u8>, b: Seq<u8>) -> Merge {
    Merge {
        a: start(m, a),
        b: start(m, b),
        got: Seq::empty(),
        ids: Seq::empty(),
        last: None,
    }
}

/// Does the merge of two trees stop, on this turn?
pub open spec fn stops(m: BlockMap, a: Seq<u8>, b: Seq<u8>, r: RangeView, s: Merge, t: Turn) -> bool {
    &&& !(t is On)
    &&& exists|n: nat|
        {
            let u = #[trigger] after(m, r, fresh(m, a, b), n);
            &&& turn(m, r, u) == t
            &&& s == match t {
                Turn::Stuck(x, _) => x,
                _ => u,
            }
        }
}

// ---------------------------------------------------------------------------
// what to ask for
// ---------------------------------------------------------------------------

/// One more block to ask for, each once and no more than there is room for.
pub open spec fn asks(need: Seq<Seq<u8>>, id: Seq<u8>) -> Seq<Seq<u8>> {
    if need.len() < MAX_NEED && !need.contains(id) {
        need.push(id)
    } else {
        need
    }
}

/// Does a node record this id as a child?
pub open spec fn is_child(n: NodeView, id: Seq<u8>) -> bool {
    exists|i: int| 0 <= i < n.rows.len() && store::child_cid(#[trigger] n.rows[i]) == id
}

/// Child `i` is asked for where it is missing, the other node has it not, and it begins
/// no later than `hi` and within the range.
pub open spec fn with_child(
    m: BlockMap,
    r: RangeView,
    n: NodeView,
    i: int,
    other: NodeView,
    hi: Seq<u8>,
    need: Seq<Seq<u8>>,
) -> Seq<Seq<u8>> {
    let key = n.rows[i].key;
    let id = store::child_cid(n.rows[i]);
    if !order::lt(hi, key) && range::under(key, r.hi) && !m.contains_key(id) && !is_child(
        other,
        id,
    ) {
        asks(need, id)
    } else {
        need
    }
}

/// The children of two nodes, from a slot of each on, in key order, those of the old
/// tree first.
pub open spec fn with_children(
    m: BlockMap,
    r: RangeView,
    an: NodeView,
    i: int,
    bn: NodeView,
    j: int,
    hi: Seq<u8>,
    need: Seq<Seq<u8>>,
) -> Seq<Seq<u8>>
    decreases
            (if i < an.rows.len() {
                an.rows.len() - i
            } else {
                0
            }) + (if j < bn.rows.len() {
                bn.rows.len() - j
            } else {
                0
            }),
{
    if i >= an.rows.len() && j >= bn.rows.len() {
        need
    } else if j >= bn.rows.len() || (i < an.rows.len() && !order::lt(
        bn.rows[j].key,
        an.rows[i].key,
    )) {
        with_children(m, r, an, i + 1, bn, j, hi, with_child(m, r, an, i, bn, hi, need))
    } else {
        with_children(m, r, an, i, bn, j + 1, hi, with_child(m, r, bn, j, an, hi, need))
    }
}

/// The step of a path, from `i` on, whose node is of a level.
pub open spec fn at_level(path: Seq<StepView>, level: int, i: int) -> Option<StepView>
    decreases path.len() - i,
{
    if i >= path.len() {
        None
    } else if path[i].held.node.level == level {
        Some(path[i])
    } else {
        at_level(path, level, i + 1)
    }
}

/// The level at which two positions can be compared: the higher of their nodes'.
pub open spec fn shared_level(a: SlotView, b: SlotView) -> int {
    let la = a.path.last().held.node.level as int;
    let lb = b.path.last().held.node.level as int;
    if la > lb {
        la
    } else {
        lb
    }
}

/// Where two nodes' rows both still begin: the earlier of their last keys.
pub open spec fn shared_end(an: NodeView, bn: NodeView) -> Seq<u8> {
    let x = an.rows.last().key;
    let y = bn.rows.last().key;
    if order::lt(x, y) {
        x
    } else {
        y
    }
}

/// The missing children of the two nodes that a merge stands in, at the level where they
/// can be compared, that the other has not.
pub open spec fn with_siblings(
    m: BlockMap,
    r: RangeView,
    a: SlotView,
    b: SlotView,
    need: Seq<Seq<u8>>,
) -> Seq<Seq<u8>> {
    let level = shared_level(a, b);
    if a.done || b.done || level == 0 {
        need
    } else {
        match (at_level(a.path, level, 0), at_level(b.path, level, 0)) {
            (Some(x), Some(y)) => with_children(
                m,
                r,
                x.held.node,
                x.taken,
                y.held.node,
                y.taken,
                shared_end(x.held.node, y.held.node),
                need,
            ),
            _ => need,
        }
    }
}

/// What a merge asks for that is stuck on a block: that block, and then its siblings.
pub open spec fn asked_at(m: BlockMap, r: RangeView, s: Merge, id: Seq<u8>) -> Seq<Seq<u8>> {
    with_siblings(m, r, s.a, s.b, asks(Seq::empty(), id))
}

/// A root that is not held is asked for.
pub open spec fn with_root(m: BlockMap, root: Seq<u8>, need: Seq<Seq<u8>>) -> Seq<Seq<u8>> {
    if store::loaded(m, root) is Err {
        asks(need, root)
    } else {
        need
    }
}

// ---------------------------------------------------------------------------
// what a page holds
// ---------------------------------------------------------------------------

/// A page of differences as a mathematical value.
#[verifier::ext_equal]
pub struct Sheet {
    pub changes: Seq<Difference>,
    pub next: Option<Seq<u8>>,
    pub need: Seq<Seq<u8>>,
    pub new_blocks: Seq<Seq<u8>>,
}

/// Where a page that stopped carries on: after the last key it decided, or where the
/// page before it stopped.
pub open spec fn carries_on(s: Merge, resume: Option<Seq<u8>>) -> Option<Seq<u8>> {
    if s.last is Some {
        s.last
    } else {
        resume
    }
}

/// The page of a merge that stopped on this turn.
pub open spec fn sheet_of(
    m: BlockMap,
    r: RangeView,
    resume: Option<Seq<u8>>,
    s: Merge,
    t: Turn,
) -> Sheet {
    Sheet {
        changes: s.got,
        next: match t {
            Turn::Over => None,
            _ => carries_on(s, resume),
        },
        need: match t {
            Turn::Stuck(_, Fault::Need(ids)) => asked_at(m, r, s, ids[0]),
            _ => Seq::empty(),
        },
        new_blocks: s.ids,
    }
}

/// Is a root missing?
pub open spec fn missing(m: BlockMap, root: Seq<u8>) -> bool {
    store::loaded(m, root) matches Err(f) && f is Need
}

/// Is this the page of the differences between two trees, within a range whose low end
/// was moved up to where the last page stopped?
///
/// Where a root is missing, nothing is told and the missing roots are asked for. Else it
/// is the page of the merge where that stops, on no block that is held and faulty.
pub open spec fn gives(
    m: BlockMap,
    a: Seq<u8>,
    b: Seq<u8>,
    r: RangeView,
    resume: Option<Seq<u8>>,
    page: Sheet,
) -> bool {
    &&& store::loaded(m, a) is Err ==> missing(m, a)
    &&& store::loaded(m, b) is Err ==> missing(m, b)
    &&& if missing(m, a) || missing(m, b) {
        page == Sheet {
            changes: Seq::empty(),
            next: resume,
            need: with_root(m, b, with_root(m, a, Seq::empty())),
            new_blocks: Seq::empty(),
        }
    } else {
        exists|s: Merge, t: Turn|
            {
                &&& #[trigger] stops(m, a, b, r, s, t)
                &&& t matches Turn::Stuck(_, f) ==> f is Need
                &&& page == sheet_of(m, r, resume, s, t)
            }
    }
}

/// Is this what keeps the differences from being told: the fault of the old root, else of
/// the new one, else of the slot that the merge is stuck on?
pub open spec fn fails(m: BlockMap, a: Seq<u8>, b: Seq<u8>, r: RangeView, f: Fault) -> bool {
    &&& !(f is Need)
    &&& if store::loaded(m, a) is Err && !missing(m, a) {
        store::loaded(m, a) == Err::<NodeView, Fault>(f)
    } else if store::loaded(m, b) is Err && !missing(m, b) {
        store::loaded(m, b) == Err::<NodeView, Fault>(f)
    } else {
        &&& !missing(m, a)
        &&& !missing(m, b)
        &&& exists|s: Merge| #[trigger] stops(m, a, b, r, s, Turn::Stuck(s, f))
    }
}

// ---------------------------------------------------------------------------
// turns
// ---------------------------------------------------------------------------

/// Turns add up.
pub proof fn lemma_after_sum(m: BlockMap, r: RangeView, s: Merge, n: nat, k: nat)
    ensures
        after(m, r, s, n + k) == after(m, r, after(m, r, s, n), k),
    decreases k,
{
    if k > 0 {
        lemma_after_sum(m, r, s, n, (k - 1) as nat);
        assert((n + k - 1) as nat == n + (k - 1) as nat);
    }
}

/// One more turn.
pub proof fn lemma_after_next(m: BlockMap, r: RangeView, s: Merge, n: nat, t: Merge)
    requires
        turn(m, r, after(m, r, s, n)) == Turn::On(t),
    ensures
        after(m, r, s, n + 1) == t,
{
}

/// A merge that stopped stays where it is.
pub proof fn lemma_after_stays(m: BlockMap, r: RangeView, s: Merge, n: nat, k: nat)
    requires
        !(turn(m, r, after(m, r, s, n)) is On),
    ensures
        after(m, r, s, n + k) == after(m, r, s, n),
    decreases k,
{
    if k > 0 {
        lemma_after_stays(m, r, s, n, (k - 1) as nat);
        assert((n + k - 1) as nat == n + (k - 1) as nat);
    }
}

/// A position some slots further on.
pub open spec fn skipped(v: SlotView, n: nat) -> SlotView
    decreases n,
{
    if n == 0 {
        v
    } else {
        slots::advanced(skipped(v, (n - 1) as nat))
    }
}

/// Are the slots from one position to another all outside the range?
pub open spec fn all_outside(v: SlotView, n: nat, r: RangeView) -> bool {
    forall|j: nat| j < n ==> !(#[trigger] skipped(v, j)).done && outside(skipped(v, j), r)
}

/// Does a position move on from one slot to another, over slots outside the range, until
/// it stands on one within?
pub open spec fn skips(v: SlotView, t: SlotView, r: RangeView) -> bool {
    &&& t.done || !outside(t, r)
    &&& exists|n: nat| t == #[trigger] skipped(v, n) && all_outside(v, n, r)
}

/// The turns that skip slots of the old tree.
pub proof fn lemma_skips_old(m: BlockMap, r: RangeView, s: Merge, n: nat)
    requires
        !diff::full(s.got, r),
        all_outside(s.a, n, r),
    ensures
        after(m, r, s, n) == (Merge { a: skipped(s.a, n), ..s }),
    decreases n,
{
    if n > 0 {
        let k = (n - 1) as nat;
        lemma_skips_old(m, r, s, k);
        assert(!skipped(s.a, k).done);
        reveal(turn);
    }
}

/// The turns that skip slots of the new tree.
pub proof fn lemma_skips_new(m: BlockMap, r: RangeView, s: Merge, n: nat)
    requires
        !diff::full(s.got, r),
        s.a.done || !outside(s.a, r),
        all_outside(s.b, n, r),
    ensures
        after(m, r, s, n) == (Merge { b: skipped(s.b, n), ..s }),
    decreases n,
{
    if n > 0 {
        let k = (n - 1) as nat;
        lemma_skips_new(m, r, s, k);
        assert(!skipped(s.b, k).done);
        reveal(turn);
    }
}

/// The turns that skip what the range excludes on both sides.
pub proof fn lemma_skips(
    m: BlockMap,
    r: RangeView,
    from: Merge,
    n: nat,
    va: SlotView,
    vb: SlotView,
) -> (k: nat)
    requires
        !diff::full(after(m, r, from, n).got, r),
        skips(after(m, r, from, n).a, va, r),
        skips(after(m, r, from, n).b, vb, r),
    ensures
        after(m, r, from, k) == (Merge { a: va, b: vb, ..after(m, r, from, n) }),
{
    let s = after(m, r, from, n);
    let i = choose|i: nat| va == #[trigger] skipped(s.a, i) && all_outside(s.a, i, r);
    let j = choose|j: nat| vb == #[trigger] skipped(s.b, j) && all_outside(s.b, j, r);
    lemma_skips_old(m, r, s, i);
    lemma_after_sum(m, r, from, n, i);
    let t = after(m, r, from, n + i);
    lemma_skips_new(m, r, t, j);
    lemma_after_sum(m, r, from, n + i, j);
    n + i + j
}

// ---------------------------------------------------------------------------
// one answer
// ---------------------------------------------------------------------------

/// A merge stops once.
proof fn lemma_one_stop(
    m: BlockMap,
    a: Seq<u8>,
    b: Seq<u8>,
    r: RangeView,
    s: Merge,
    t: Turn,
    s2: Merge,
    t2: Turn,
)
    requires
        stops(m, a, b, r, s, t),
        stops(m, a, b, r, s2, t2),
    ensures
        s == s2,
        t == t2,
{
    let from = fresh(m, a, b);
    let n = choose|n: nat| turn(m, r, #[trigger] after(m, r, from, n)) == t && s == match t {
        Turn::Stuck(x, _) => x,
        _ => after(m, r, from, n),
    };
    let k = choose|k: nat| turn(m, r, #[trigger] after(m, r, from, k)) == t2 && s2 == match t2 {
        Turn::Stuck(x, _) => x,
        _ => after(m, r, from, k),
    };
    if n <= k {
        lemma_after_stays(m, r, from, n, (k - n) as nat);
    } else {
        lemma_after_stays(m, r, from, k, (n - k) as nat);
    }
}

/// The differences between two trees, within one range and carried on from one place,
/// come as one page or fail in one way.
pub proof fn law_a_diff_has_one_answer(
    m: BlockMap,
    a: Seq<u8>,
    b: Seq<u8>,
    r: RangeView,
    resume: Option<Seq<u8>>,
    p: Sheet,
    q: Sheet,
    e: Fault,
    f: Fault,
)
    ensures
        gives(m, a, b, r, resume, p) && gives(m, a, b, r, resume, q) ==> p == q,
        fails(m, a, b, r, e) && fails(m, a, b, r, f) ==> e == f,
        !(gives(m, a, b, r, resume, p) && fails(m, a, b, r, f)),
{
    assert forall|s: Merge, t: Turn, s2: Merge, t2: Turn| #[trigger]
        stops(m, a, b, r, s, t) && #[trigger] stops(m, a, b, r, s2, t2) implies s == s2 && t
        == t2 by {
        lemma_one_stop(m, a, b, r, s, t, s2, t2);
    }
}

} // verus!
