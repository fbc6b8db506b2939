//! How much a page of differences holds: it keeps to the limits it was given, and it ends
//! early only where they are reached or a block is missing.

use crate::diff;
use crate::diff::Difference;
use crate::merge;
use crate::merge::{Merge, Sheet, Turn};
use crate::node::Payload;
use crate::order;
use crate::range::RangeView;
use crate::store::{BlockMap, Fault};
use vstd::prelude::*;

verus! {

/// How long a value is, wherever it lies; nothing where there is none.
pub open spec fn length_of(v: Option<Payload>) -> int {
    match v {
        None => 0,
        Some(Payload::Inline(b)) => b.len() as int,
        Some(Payload::Ref { len, .. }) => len as int,
        Some(Payload::Child { .. }) => 0,
    }
}

/// The keys and the values of some differences, those there were and those there are.
pub open spec fn sum_of(ds: Seq<Difference>) -> int
    decreases ds.len(),
{
    if ds.len() == 0 {
        0
    } else {
        sum_of(ds.drop_last()) + ds.last().key.len() + length_of(ds.last().was) + length_of(
            ds.last().is,
        )
    }
}

/// Has a page reached one of its limits? A limit of nought is none.
pub open spec fn at_a_limit(ds: Seq<Difference>, r: RangeView) -> bool {
    ||| r.max_entries > 0 && ds.len() >= r.max_entries
    ||| r.max_bytes > 0 && sum_of(ds) >= r.max_bytes
}

/// The sum is what is held against the byte limit.
proof fn lemma_sum(ds: Seq<Difference>)
    ensures
        sum_of(ds) == diff::total(ds),
    decreases ds.len(),
{
    if ds.len() > 0 {
        lemma_sum(ds.drop_last());
    }
}

/// What is known of a merge under way.
spec fn measured(r: RangeView, s: Merge) -> bool {
    &&& s.got.len() > 0 ==> !at_a_limit(s.got.drop_last(), r)
    &&& s.got.len() > 0 ==> s.last is Some
}

/// One more turn tells one difference at most, and none where a limit is reached.
#[verifier::rlimit(60)]
proof fn lemma_turn(m: BlockMap, r: RangeView, s: Merge, t: Merge)
    requires
        measured(r, s),
        merge::turn(m, r, s) == Turn::On(t),
    ensures
        measured(r, t),
{
    reveal(merge::turn);
    lemma_sum(s.got);
    assert(!at_a_limit(s.got, r));
    let none = Seq::<Difference>::empty();
    assert(s.got + none =~= s.got);
    if t.got != s.got {
        assert(t.got.len() == s.got.len() + 1);
        assert(t.got.drop_last() =~= s.got);
    }
}

/// All turns.
proof fn lemma_turns(m: BlockMap, r: RangeView, s: Merge, n: nat)
    requires
        measured(r, s),
    ensures
        measured(r, merge::after(m, r, s, n)),
    decreases n,
{
    if n > 0 {
        lemma_turns(m, r, s, (n - 1) as nat);
        let t = merge::after(m, r, s, (n - 1) as nat);
        if let Turn::On(u) = merge::turn(m, r, t) {
            lemma_turn(m, r, t, u);
        }
    }
}

/// A page of differences keeps to its limits, and uses them. Without the last change it
/// has reached neither: so it holds at most as many changes as were asked for, and all but
/// the last are less than the bytes that were asked for, each change counted with its key,
/// the value there was and the value there is, at their full length. And where nothing is
/// missing, it says where to carry on if and only if it has reached a limit.
pub proof fn law_a_diff_page_keeps_to_its_limits(
    m: BlockMap,
    a: Seq<u8>,
    b: Seq<u8>,
    r: RangeView,
    resume: Option<Seq<u8>>,
    page: Sheet,
)
    requires
        merge::gives(m, a, b, r, resume, page),
    ensures
        r.max_entries > 0 ==> page.changes.len() <= r.max_entries,
        r.max_bytes > 0 && page.changes.len() > 0 ==> sum_of(page.changes.drop_last())
            < r.max_bytes,
        page.need.len() == 0 ==> (page.next is Some <==> at_a_limit(page.changes, r)),
{
    if merge::missing(m, a) || merge::missing(m, b) {
        assert(page.need.len() > 0);
    } else {
        let (s, t) = choose|s: Merge, t: Turn|
            {
                &&& #[trigger] merge::stops(m, a, b, r, s, t)
                &&& t matches Turn::Stuck(_, f) ==> f is Need
                &&& page == merge::sheet_of(m, r, resume, s, t)
            };
        let from = merge::fresh(m, a, b);
        let n = choose|n: nat|
            {
                let u = #[trigger] merge::after(m, r, from, n);
                &&& merge::turn(m, r, u) == t
                &&& s == match t {
                    Turn::Stuck(x, _) => x,
                    _ => u,
                }
            };
        let u = merge::after(m, r, from, n);
        lemma_turns(m, r, from, n);
        reveal(merge::turn);
        assert(s.got == u.got && s.last == u.last);
        lemma_sum(s.got);
        assert(page.changes == s.got);
        if s.got.len() > 0 {
            assert(!at_a_limit(s.got.drop_last(), r));
        }
        match t {
            Turn::Stuck(_, Fault::Need(ids)) => {
                lemma_asks_first(m, r, s, ids[0]);
            },
            _ => {},
        }
    }
}

/// What a merge is stuck on it asks for, first.
proof fn lemma_asks_first(m: BlockMap, r: RangeView, s: Merge, id: Seq<u8>)
    ensures
        merge::asked_at(m, r, s, id).len() > 0,
        merge::asked_at(m, r, s, id)[0] == id,
{
    let none = Seq::<Seq<u8>>::empty();
    let one = merge::asks(none, id);
    assert(one =~= seq![id]);
    let level = merge::shared_level(s.a, s.b);
    match (merge::at_level(s.a.path, level, 0), merge::at_level(s.b.path, level, 0)) {
        (Some(x), Some(y)) => {
            lemma_children_kept(
                m,
                r,
                x.held.node,
                x.taken,
                y.held.node,
                y.taken,
                merge::shared_end(x.held.node, y.held.node),
                one,
            );
        },
        _ => {},
    }
}

/// What was asked for stays, in its place.
proof fn lemma_children_kept(
    m: BlockMap,
    r: RangeView,
    an: crate::node::NodeView,
    i: int,
    bn: crate::node::NodeView,
    j: int,
    hi: Seq<u8>,
    need: Seq<Seq<u8>>,
)
    requires
        need.len() > 0,
    ensures
        ({
            let all = merge::with_children(m, r, an, i, bn, j, hi, need);
            all.len() > 0 && all[0] == need[0]
        }),
    decreases
            (if i < an.rows.len() {
                an.rows.len() - i
            } else {
                0
            }) + (if j < bn.rows.len() {
                bn.rows.len() - j
            } else {
                0
            }),
{
    if i >= an.rows.len() && j >= bn.rows.len() {
    } else if j >= bn.rows.len() || (i < an.rows.len() && !order::lt(
        bn.rows[j].key,
        an.rows[i].key,
    )) {
        lemma_children_kept(
            m,
            r,
            an,
            i + 1,
            bn,
            j,
            hi,
            merge::with_child(m, r, an, i, bn, hi, need),
        );
    } else {
        lemma_children_kept(
            m,
            r,
            an,
            i,
            bn,
            j + 1,
            hi,
            merge::with_child(m, r, bn, j, an, hi, need),
        );
    }
}

} // verus!
