//! Change a tree: `apply(root, edits)` gives the tree a from-scratch build of the
//! edited contents would give, touching only the nodes the edits reach.
//!
//! Per level, left to right: restart the chunker at the first entry of the node that
//! holds the next edit (a chunker at the start of any node is in the same state
//! whatever lies to its left), stream old entries merged with the edits, and stop as
//! soon as the chunker closes a node exactly where an old node ended with no edit left
//! for the node that follows. From there on the old nodes are what a rebuild would
//! produce, and are kept by id. The run of nodes that was replaced becomes the edit
//! batch for the level above.
//!
//! Nothing is handed over until the whole change has succeeded. A refused batch, or
//! one that stops for a missing block, leaves no trace.

use crate::boundary::MAX_LOGICAL;
use crate::build;
use crate::build::{ParityBlocks, Put};
use crate::chunk;
use crate::chunk::{empty_leaf, same_body, Body, ByContent, Closed, Cut, Entry, LevelChunker, Pushed, Rule, SplitRule};
use crate::cursor;
use crate::cursor::{LevelCursor, Pick};
use crate::edits;
use crate::edits::EditRow;
use crate::node;
use crate::node::{Agg, BuildError, Node, NodeView, Payload, Row, Value, HEADER, MAX_INLINE, MAX_KEY};
pub use crate::node::MAX_VALUE;
use crate::order;
use crate::parity;
use crate::parity::Known;
use crate::store;
use crate::store::{BlockMap, Blocks, BlocksMut, Fault, Held, HeldView, MemBlocks, Overlay, ReadError};
use crate::tower;
use crate::tree;
use crate::tree::Slot;
use crate::Cid;
use vstd::prelude::*;

verus! {

/// Most missing blocks named at once. The caller fetches a round at a time, so naming
/// more than it can use only delays what it asked for.
pub const MAX_NEED: usize = 64;

/// One change to a key.
#[derive(Clone, Debug, PartialEq, Eq)]
pub enum Edit {
    /// Store these bytes under the key. The library decides whether they live in the
    /// leaf or in a block of their own.
    Put(Vec<u8>),
    Delete,
}

/// Why a change was not made.
#[derive(Clone, Debug, PartialEq, Eq)]
pub enum ApplyError {
    Read(ReadError),
    /// Keys in a batch must be strictly increasing (so: no key twice).
    NotSorted,
    KeyTooLong,
    ValueTooLong,
    Node(BuildError),
}

/// A change that was made.
#[derive(Clone, Debug, PartialEq, Eq)]
pub struct Applied {
    pub root: Cid,
    /// Nodes of the old tree that the new tree no longer uses. A hint for caches and
    /// retention, never a delete list: another tree may still use them. Value blocks
    /// are not listed: another key may hold the same value.
    pub replaced: Vec<Cid>,
    /// The parity blocks this rewrite coded, with their bytes: the redundancy the new
    /// nodes promise and nobody had until now. They are handed over apart from the
    /// nodes, because the order in which the two are stored is the caller's decision.
    /// Groups that were reused are not listed: their parity is already out.
    pub parity: ParityBlocks,
}

/// How to apply. The format is [`Options::default`]; anything else exists to show what
/// each part is for.
#[derive(Clone, Copy)]
pub struct Options<R: SplitRule + Copy> {
    pub rule: R,
    /// Cut the node before an edited first entry anew when it may have been closed by
    /// the hard limit.
    pub recheck_neighbour: bool,
}

impl Default for Options<ByContent> {
    fn default() -> (o: Options<ByContent>)
        ensures
            o.rule == ByContent,
            o.recheck_neighbour,
    {
        Options { rule: ByContent, recheck_neighbour: true }
    }
}

// ---------------------------------------------------------------------------
// the edits of a level
// ---------------------------------------------------------------------------

/// One edit of a level: what to store under the key, or nothing.
struct LevelEdit {
    key: Vec<u8>,
    body: Option<Body>,
}

impl View for LevelEdit {
    type V = EditRow;

    closed spec fn view(&self) -> EditRow {
        EditRow {
            key: self.key@,
            held: match self.body {
                None => None,
                Some(b) => Some(b@),
            },
        }
    }
}

/// The edits of a level.
spec fn edits_of(v: Seq<LevelEdit>) -> Seq<EditRow> {
    v.map_values(|e: LevelEdit| e@)
}

/// The error of a node that could not be built. A missing parity member is a read, not
/// a malformed tree: the caller fetches it and calls again.
fn from_build(e: BuildError) -> (r: ApplyError)
    ensures
        match chunk::missing(e) {
            Some(cid) => r matches ApplyError::Read(x) && x@ == Fault::Need(seq![cid]),
            None => r matches ApplyError::Node(x) && x == e,
        },
{
    match e {
        BuildError::MissingMember(cid) => ApplyError::Read(store::need_one(&cid)),
        other => ApplyError::Node(other),
    }
}

/// From a leaf's recorded aggregate alone: was it certainly not closed by the hard
/// limit?
pub open spec fn spec_not_forced(agg: Agg) -> bool {
    HEADER + 13 * agg.count + agg.bytes <= MAX_LOGICAL - (13 + MAX_KEY + MAX_INLINE)
}

/// From a leaf's recorded aggregate alone: can it be said that it was not closed by
/// the hard limit? A forced close needs the leaf and the next entry to be over the
/// limit together, the largest entry costs 13 bytes, its key and an inline value, and
/// a leaf's logical size is at most its header, 13 bytes an entry, and what the entries
/// stand for.
fn leaf_was_not_forced(agg: Agg) -> (r: bool)
    ensures
        r == spec_not_forced(agg),
{
    if agg.count > 12288 || agg.bytes > 12288 {
        return false;
    }
    28 + 13 * agg.count + agg.bytes <= 10739
}

// ---------------------------------------------------------------------------
// the trace of a level
// ---------------------------------------------------------------------------

/// The rows of a place.
pub open spec fn rows_at(s: Slot) -> Seq<Row> {
    s.opened->Ok_0.node.rows
}

/// The rows of the places from `i` up to `j`.
pub open spec fn slot_runs(a: Seq<Slot>, i: int, j: int) -> Seq<Seq<Row>> {
    Seq::new((j - i) as nat, |k: int| rows_at(a[i + k]))
}

/// The groups of the nodes at the places from `i` up to `j`.
pub open spec fn known_at(a: Seq<Slot>, i: int, j: int) -> Seq<Known>
    decreases j - i,
{
    if j <= i {
        Seq::empty()
    } else {
        known_at(a, i, j - 1) + parity::known_of(a[j - 1].opened->Ok_0.node)
    }
}

/// The rows of nodes.
pub open spec fn node_runs(nodes: Seq<NodeView>) -> Seq<Seq<Row>> {
    nodes.map_values(|n: NodeView| n.rows)
}

/// Was a node closed with what the store holds, and some of the groups known?
pub open spec fn closed_with(ov: BlockMap, known: Seq<Known>, level: u8, n: NodeView) -> bool {
    exists|k: int|
        0 <= k <= known.len() && (#[trigger] chunk::closing(ov, known.take(k), level, n.rows))
            is Ok && chunk::closing(ov, known.take(k), level, n.rows)->Ok_0.node == n
}

/// Were all nodes closed so?
pub open spec fn all_closed(ov: BlockMap, known: Seq<Known>, level: u8, nodes: Seq<NodeView>) -> bool {
    forall|i: int| 0 <= i < nodes.len() ==> closed_with(ov, known, level, #[trigger] nodes[i])
}

/// The parity blocks coded for the first `n` nodes, each closed with the first so many of
/// the groups known.
pub open spec fn coded_for(
    ov: BlockMap,
    known: Seq<Known>,
    level: u8,
    nodes: Seq<NodeView>,
    ks: Seq<int>,
    n: nat,
) -> Seq<Seq<u8>>
    decreases n,
{
    if n == 0 {
        Seq::empty()
    } else {
        coded_for(ov, known, level, nodes, ks, (n - 1) as nat) + chunk::closing(
            ov,
            known.take(ks[n - 1]),
            level,
            nodes[n - 1].rows,
        )->Ok_0.coded
    }
}

/// Was each node closed with the first so many of the groups known?
pub open spec fn closed_by(
    ov: BlockMap,
    known: Seq<Known>,
    level: u8,
    nodes: Seq<NodeView>,
    ks: Seq<int>,
) -> bool {
    &&& ks.len() == nodes.len()
    &&& forall|i: int|
        #![trigger ks[i]]
        0 <= i < ks.len() ==> 0 <= ks[i] <= known.len() && chunk::closing(
            ov,
            known.take(ks[i]),
            level,
            nodes[i].rows,
        ) is Ok
}

/// Are these the parity blocks that were coded when the nodes were closed? A group that
/// was among those known is not coded again.
#[verifier::opaque]
pub open spec fn coded_as(
    ov: BlockMap,
    known: Seq<Known>,
    level: u8,
    nodes: Seq<NodeView>,
    coded: Seq<Seq<u8>>,
) -> bool {
    exists|ks: Seq<int>|
        #[trigger] closed_by(ov, known, level, nodes, ks) && coded == coded_for(
            ov,
            known,
            level,
            nodes,
            ks,
            nodes.len(),
        )
}

/// The blocks of the first nodes do not depend on those after.
proof fn lemma_coded_front(
    ov: BlockMap,
    known: Seq<Known>,
    all: Seq<Known>,
    level: u8,
    a: Seq<NodeView>,
    b: Seq<NodeView>,
    x: Seq<int>,
    y: Seq<int>,
    n: nat,
)
    requires
        n <= a.len(),
        n <= b.len(),
        n <= x.len(),
        n <= y.len(),
        forall|i: int| 0 <= i < n ==> a[i] == b[i] && x[i] == y[i],
        forall|i: int| 0 <= i < n ==> 0 <= #[trigger] x[i] <= known.len(),
        known.is_prefix_of(all),
    ensures
        coded_for(ov, known, level, a, x, n) == coded_for(ov, all, level, b, y, n),
    decreases n,
{
    if n > 0 {
        lemma_coded_front(ov, known, all, level, a, b, x, y, (n - 1) as nat);
        assert(0 <= x[n - 1] <= known.len());
        assert(known.take(x[n - 1]) =~= all.take(y[n - 1]));
    }
}

/// Nothing is coded for no node.
proof fn lemma_coded_none(ov: BlockMap, known: Seq<Known>, level: u8)
    ensures
        coded_as(ov, known, level, Seq::empty(), Seq::empty()),
{
    reveal(coded_as);
    let none = Seq::<int>::empty();
    assert(closed_by(ov, known, level, Seq::empty(), none));
}

/// One more node, closed with all groups known.
proof fn lemma_coded_push(
    ov: BlockMap,
    known: Seq<Known>,
    level: u8,
    nodes: Seq<NodeView>,
    coded: Seq<Seq<u8>>,
    rows: Seq<Row>,
)
    requires
        coded_as(ov, known, level, nodes, coded),
        chunk::closing(ov, known, level, rows) is Ok,
    ensures
        coded_as(
            ov,
            known,
            level,
            nodes.push(chunk::closing(ov, known, level, rows)->Ok_0.node),
            coded + chunk::closing(ov, known, level, rows)->Ok_0.coded,
        ),
{
    reveal(coded_as);
    let ks = choose|ks: Seq<int>|
        #[trigger] closed_by(ov, known, level, nodes, ks) && coded == coded_for(
            ov,
            known,
            level,
            nodes,
            ks,
            nodes.len(),
        );
    let d = chunk::closing(ov, known, level, rows)->Ok_0;
    lemma_closed_node(ov, known, level, rows);
    let all = nodes.push(d.node);
    let more = ks.push(known.len() as int);
    assert(known.take(known.len() as int) =~= known);
    assert forall|i: int|
        #![trigger more[i]]
        0 <= i < more.len() implies 0 <= more[i] <= known.len() && chunk::closing(
        ov,
        known.take(more[i]),
        level,
        all[i].rows,
    ) is Ok by {
        if i < ks.len() {
            assert(more[i] == ks[i]);
        }
    }
    assert(closed_by(ov, known, level, all, more));
    lemma_coded_front(ov, known, known, level, nodes, all, ks, more, nodes.len());
    assert(coded_for(ov, known, level, all, more, all.len()) == coded + d.coded);
}

/// Coded with some groups known, coded with more known.
proof fn lemma_coded_more(
    ov: BlockMap,
    known: Seq<Known>,
    more: Seq<Known>,
    level: u8,
    nodes: Seq<NodeView>,
    coded: Seq<Seq<u8>>,
)
    requires
        coded_as(ov, known, level, nodes, coded),
    ensures
        coded_as(ov, known + more, level, nodes, coded),
{
    reveal(coded_as);
    let ks = choose|ks: Seq<int>|
        #[trigger] closed_by(ov, known, level, nodes, ks) && coded == coded_for(
            ov,
            known,
            level,
            nodes,
            ks,
            nodes.len(),
        );
    let all = known + more;
    assert forall|i: int|
        #![trigger ks[i]]
        0 <= i < ks.len() implies 0 <= ks[i] <= all.len() && chunk::closing(
        ov,
        all.take(ks[i]),
        level,
        nodes[i].rows,
    ) is Ok by {
        assert(all.take(ks[i]) =~= known.take(ks[i]));
    }
    assert(closed_by(ov, all, level, nodes, ks));
    assert(known.is_prefix_of(all));
    lemma_coded_front(ov, known, all, level, nodes, nodes, ks, ks, nodes.len());
}

/// Why a stretch may begin where it does.
pub enum Seam {
    /// At the start of the level.
    Start,
    /// Its first row is not touched.
    Untouched,
    /// The node before it is the last one of another stretch.
    Joined,
    /// The leaf before it was not closed by the hard limit.
    Unforced,
    /// Nobody looked.
    Unchecked,
}

/// A stretch of places, `first` to `last`, streamed anew with the edits `from` up to
/// `to`.
#[verifier::ext_equal]
pub struct Trace {
    pub first: int,
    pub last: int,
    pub from: int,
    pub to: int,
    pub nodes: Seq<NodeView>,
    /// The parity blocks coded for the nodes.
    pub coded: Seq<Seq<u8>>,
    pub ended: bool,
    pub seam: Seam,
}

/// Where the stretches so far end.
pub open spec fn resumed(tr: Seq<Trace>, k: int) -> int {
    if k <= 0 {
        0
    } else {
        tr[k - 1].last + 1
    }
}

/// How many edits they took.
pub open spec fn taken(tr: Seq<Trace>, k: int) -> int {
    if k <= 0 {
        0
    } else {
        tr[k - 1].to
    }
}

/// May a stretch begin at `first`, with edit `from`, after a stretch that ended at
/// place `prev`?
pub open spec fn seam_fits(
    a: Seq<Slot>,
    floor: u8,
    es: Seq<EditRow>,
    prev: int,
    first: int,
    from: int,
    seam: Seam,
    recheck: bool,
) -> bool {
    match seam {
        Seam::Start => first == 0,
        Seam::Untouched => from < es.len() && order::lt(a[first].key, es[from].key),
        Seam::Joined => prev >= 0 && first > 0 && a[first - 1].cid == a[prev].cid && a[first
            - 1].level == floor,
        Seam::Unforced => floor == 0 && first > 0 && a[first - 1].level == 0 && spec_not_forced(
            a[first - 1].agg,
        ),
        Seam::Unchecked => !recheck,
    }
}

/// What holds of one stretch by itself.
#[verifier::opaque]
pub open spec fn run_ok(
    a: Seq<Slot>,
    floor: u8,
    rule: Rule,
    ov: BlockMap,
    es: Seq<EditRow>,
    t: Trace,
) -> bool {
    let q = edits::edited(
        tower::joined(slot_runs(a, t.first, t.last + 1)),
        es.subrange(t.from, t.to),
    );
    &&& 0 <= t.first <= t.last < a.len()
    &&& forall|j: int| t.first <= j <= t.last ==> (#[trigger] a[j]).opened is Ok
    &&& 0 <= t.from <= t.to <= es.len()
    &&& t.first > 0 ==> edits::edits_from(es.skip(t.from), a[t.first].key)
    &&& t.last + 1 < a.len() ==> edits::edits_below(es.take(t.to), a[t.last + 1].key)
        && edits::edits_from(es.skip(t.to), a[t.last + 1].key)
    &&& t.ended <==> t.last + 1 == a.len()
    &&& t.ended ==> t.to == es.len() && node_runs(t.nodes) == chunk::chunks(floor, rule, q)
    &&& !t.ended ==> chunk::cut_from(floor, rule, chunk::uncut(), q) == Cut {
        closed: node_runs(t.nodes),
        open: Seq::empty(),
    }
    &&& all_closed(ov, known_at(a, t.first, t.last + 1), floor, t.nodes)
    &&& coded_as(ov, known_at(a, t.first, t.last + 1), floor, t.nodes, t.coded)
}

/// What holds of one stretch among the others.
pub open spec fn trace_ok(
    a: Seq<Slot>,
    floor: u8,
    rule: Rule,
    ov: BlockMap,
    es: Seq<EditRow>,
    tr: Seq<Trace>,
    k: int,
    recheck: bool,
) -> bool {
    let t = tr[k];
    &&& run_ok(a, floor, rule, ov, es, t)
    &&& 0 <= resumed(tr, k) <= t.first
    &&& t.from == taken(tr, k)
    &&& seam_fits(a, floor, es, resumed(tr, k) - 1, t.first, t.from, t.seam, recheck)
    &&& confined(a, floor, rule, es, t, recheck)
    &&& t.from < es.len()
    &&& barred_by(a, floor, es, resumed(tr, k), t.from, recheck) is None
    &&& t.first == start_of(a, floor, es, resumed(tr, k), t.from, recheck)
    &&& t.seam == seam_of(a, floor, es, resumed(tr, k), t.from, recheck)
    &&& run_exact(a, floor, rule, ov, es, t)
}

/// Was the node before a place the last one of another stretch, which ended at `done`?
pub open spec fn joins_at(a: Seq<Slot>, t: int, done: int) -> bool {
    done > 0 && a[t - 1].cid == a[done - 1].cid
}

/// Can the leaf before a place not have been closed by the hard limit?
pub open spec fn unforced_at(a: Seq<Slot>, floor: u8, t: int) -> bool {
    floor == 0 && spec_not_forced(a[t - 1].agg)
}

/// Where the stretch for edit `i` begins, after stretches that ended at `done`: at the
/// place of the edit; or one before it, where the edit is to the first entry of its node,
/// and the node before may have been closed because of that entry.
pub open spec fn start_of(
    a: Seq<Slot>,
    floor: u8,
    es: Seq<EditRow>,
    done: int,
    i: int,
    recheck: bool,
) -> int {
    let t = home(a, es[i].key);
    if beside(a, t, es[i].key, recheck) && !joins_at(a, t, done) && !unforced_at(a, floor, t) {
        t - 1
    } else {
        t
    }
}

/// Why no stretch can begin for edit `i`: its place cannot be opened, or the one before
/// where that is looked at. Whether it is can be told from the branch above.
pub open spec fn barred_by(
    a: Seq<Slot>,
    floor: u8,
    es: Seq<EditRow>,
    done: int,
    i: int,
    recheck: bool,
) -> Option<Fault> {
    let t = home(a, es[i].key);
    match a[t].opened {
        Err(f) => Some(f),
        Ok(_) => if beside(a, t, es[i].key, recheck) {
            match a[t - 1].opened {
                Err(f) => if a[t - 1].level > floor || !(joins_at(a, t, done) || unforced_at(
                    a,
                    floor,
                    t,
                )) {
                    Some(f)
                } else {
                    None
                },
                Ok(_) => None,
            }
        } else {
            None
        },
    }
}

/// Why it may begin there.
pub open spec fn seam_of(
    a: Seq<Slot>,
    floor: u8,
    es: Seq<EditRow>,
    done: int,
    i: int,
    recheck: bool,
) -> Seam {
    let t = home(a, es[i].key);
    if !recheck {
        Seam::Unchecked
    } else if t == 0 {
        Seam::Start
    } else if !beside(a, t, es[i].key, recheck) {
        Seam::Untouched
    } else if joins_at(a, t, done) {
        Seam::Joined
    } else if unforced_at(a, floor, t) {
        Seam::Unforced
    } else {
        Seam::Untouched
    }
}

/// What a stream of rows has come to: the nodes closed, the parity coded for them, and
/// the rows of the open node.
#[verifier::ext_equal]
pub struct Flow {
    pub nodes: Seq<NodeView>,
    pub coded: Seq<Seq<u8>>,
    pub open: Seq<Row>,
}

/// A stream that has not begun.
pub open spec fn dry() -> Flow {
    Flow { nodes: Seq::empty(), coded: Seq::empty(), open: Seq::empty() }
}

/// What it comes to after more rows, pushed one by one; or the first that is not taken.
#[verifier::opaque]
pub open spec fn poured(
    ov: BlockMap,
    index: Seq<Known>,
    level: u8,
    rule: Rule,
    s: Flow,
    rows: Seq<Row>,
) -> Result<Flow, Pushed>
    decreases rows.len(),
{
    if rows.len() == 0 {
        Ok(s)
    } else {
        match poured(ov, index, level, rule, s, rows.drop_last()) {
            Err(e) => Err(e),
            Ok(t) => match chunk::pushed(ov, index, level, rule, t.open, rows.last()) {
                Pushed::Done { closed, open, coded } => Ok(
                    Flow { nodes: t.nodes + closed, coded: t.coded + coded, open },
                ),
                e => Err(e),
            },
        }
    }
}

/// How many edits are taken up to place `p` of a stretch.
pub open spec fn upto(a: Seq<Slot>, es: Seq<EditRow>, first: int, from: int, p: int) -> int
    decreases p - first + 1,
{
    if p < first {
        from
    } else {
        reach(es, upto(a, es, first, from, p - 1), tree::next_key(a, None, p))
    }
}

/// What a stretch has come to after place `p`: place by place, the groups of the node
/// there become known, and its rows are streamed, merged with the edits that fall on it.
pub open spec fn stretch(
    a: Seq<Slot>,
    ov: BlockMap,
    floor: u8,
    rule: Rule,
    es: Seq<EditRow>,
    first: int,
    from: int,
    p: int,
) -> Result<Flow, Pushed>
    decreases p - first + 1,
{
    if p < first {
        Ok(dry())
    } else {
        match stretch(a, ov, floor, rule, es, first, from, p - 1) {
            Err(e) => Err(e),
            Ok(s) => poured(
                ov,
                known_at(a, first, p + 1),
                floor,
                rule,
                s,
                edits::edited(
                    rows_at(a[p]),
                    es.subrange(upto(a, es, first, from, p - 1), upto(a, es, first, from, p)),
                ),
            ),
        }
    }
}

/// Are these the nodes, and the parity, that a stream leaves: at the end of the level the
/// open node is closed, if it holds anything?
#[verifier::opaque]
pub open spec fn left_by(
    ov: BlockMap,
    index: Seq<Known>,
    level: u8,
    ended: bool,
    s: Flow,
    nodes: Seq<NodeView>,
    coded: Seq<Seq<u8>>,
) -> bool {
    if ended && s.open.len() > 0 {
        chunk::closing(ov, index, level, s.open) matches Ok(d) && (nodes == s.nodes.push(d.node)
            && coded == s.coded + d.coded)
    } else {
        nodes == s.nodes && coded == s.coded
    }
}

/// What stops a stream: a row that is not taken, or at the end a node that cannot be
/// closed.
pub open spec fn jam_of(
    ov: BlockMap,
    index: Seq<Known>,
    level: u8,
    ended: bool,
    r: Result<Flow, Pushed>,
) -> Option<Pushed> {
    match r {
        Err(x) => Some(x),
        Ok(s) => if ended && s.open.len() > 0 {
            match chunk::closing(ov, index, level, s.open) {
                Err(f) => Some(Pushed::Closing(f)),
                Ok(_) => None,
            }
        } else {
            None
        },
    }
}

/// Is this how it is reported?
pub open spec fn says(x: Pushed, e: ApplyError) -> bool {
    exists|b: BuildError| #[trigger] chunk::is_failure(b, x) && reported(b, e)
}

/// Does a stretch come to place `p`, and there to this error?
#[verifier::opaque]
pub open spec fn halt_at(
    a: Seq<Slot>,
    ov: BlockMap,
    floor: u8,
    rule: Rule,
    es: Seq<EditRow>,
    first: int,
    from: int,
    p: int,
    e: ApplyError,
) -> bool {
    &&& first <= p < a.len()
    &&& stretch(a, ov, floor, rule, es, first, from, p - 1) is Ok
    &&& match a[p].opened {
        Err(f) => e matches ApplyError::Read(x) && x@ == f,
        Ok(_) => jam_of(
            ov,
            known_at(a, first, p + 1),
            floor,
            p + 1 == a.len(),
            stretch(a, ov, floor, rule, es, first, from, p),
        ) matches Some(x) && says(x, e),
    }
}

/// A row of the next place is not taken.
proof fn lemma_come_err(
    a: Seq<Slot>,
    ov: BlockMap,
    floor: u8,
    rule: Rule,
    es: Seq<EditRow>,
    first: int,
    from: int,
    p: int,
    i: int,
    s: Flow,
    to: int,
    e: ApplyError,
)
    requires
        first <= p < a.len(),
        a[p].opened is Ok,
        come_to(a, ov, floor, rule, es, first, from, p - 1, i, s),
        to == reach(es, i, tree::next_key(a, None, p)),
        poured(
            ov,
            known_at(a, first, p + 1),
            floor,
            rule,
            s,
            edits::edited(rows_at(a[p]), es.subrange(i, to)),
        ) matches Err(x) && says(x, e),
    ensures
        halt_at(a, ov, floor, rule, es, first, from, p, e),
{
    reveal(come_to);
    reveal(halt_at);
}

/// What is open at the end of the level cannot be closed.
proof fn lemma_come_jam(
    a: Seq<Slot>,
    ov: BlockMap,
    floor: u8,
    rule: Rule,
    es: Seq<EditRow>,
    first: int,
    from: int,
    p: int,
    to: int,
    s: Flow,
    e: ApplyError,
)
    requires
        first <= p,
        p + 1 == a.len(),
        a[p].opened is Ok,
        come_to(a, ov, floor, rule, es, first, from, p, to, s),
        s.open.len() > 0,
        chunk::closing(ov, known_at(a, first, p + 1), floor, s.open) matches Err(f) && says(
            Pushed::Closing(f),
            e,
        ),
    ensures
        halt_at(a, ov, floor, rule, es, first, from, p, e),
{
    reveal(come_to);
    reveal(halt_at);
}

/// The next place cannot be opened.
proof fn lemma_come_shut(
    a: Seq<Slot>,
    ov: BlockMap,
    floor: u8,
    rule: Rule,
    es: Seq<EditRow>,
    first: int,
    from: int,
    p: int,
    to: int,
    s: Flow,
    x: ReadError,
)
    requires
        first <= p < a.len(),
        come_to(a, ov, floor, rule, es, first, from, p - 1, to, s),
        a[p].opened == Err::<HeldView, Fault>(x@),
    ensures
        halt_at(a, ov, floor, rule, es, first, from, p, ApplyError::Read(x)),
{
    reveal(come_to);
    reveal(halt_at);
}

/// A stream that was stopped stays so.
proof fn lemma_poured_err(
    ov: BlockMap,
    index: Seq<Known>,
    level: u8,
    rule: Rule,
    s: Flow,
    q: Seq<Row>,
    all: Seq<Row>,
)
    requires
        q.is_prefix_of(all),
        poured(ov, index, level, rule, s, q) is Err,
    ensures
        poured(ov, index, level, rule, s, all) == poured(ov, index, level, rule, s, q),
    decreases all.len(),
{
    if q.len() < all.len() {
        assert(q.is_prefix_of(all.drop_last()));
        lemma_poured_err(ov, index, level, rule, s, q, all.drop_last());
        reveal(poured);
    } else {
        assert(q =~= all);
    }
}

/// A stream that was stopped in the middle.
proof fn lemma_poured_part(
    ov: BlockMap,
    index: Seq<Known>,
    level: u8,
    rule: Rule,
    s: Flow,
    before: Seq<Row>,
    part: Seq<Row>,
    rest: Seq<Row>,
    all: Seq<Row>,
)
    requires
        before + all == before + part + rest,
        poured(ov, index, level, rule, s, part) is Err,
    ensures
        poured(ov, index, level, rule, s, all) == poured(ov, index, level, rule, s, part),
{
    assert(all =~= (before + all).skip(before.len() as int));
    assert(part + rest =~= (before + part + rest).skip(before.len() as int));
    assert(part.is_prefix_of(all));
    lemma_poured_err(ov, index, level, rule, s, part, all);
}

/// Has a stretch come to this after place `p`, with the edits up to `to` taken?
#[verifier::opaque]
spec fn come_to(
    a: Seq<Slot>,
    ov: BlockMap,
    floor: u8,
    rule: Rule,
    es: Seq<EditRow>,
    first: int,
    from: int,
    p: int,
    to: int,
    s: Flow,
) -> bool {
    &&& to == upto(a, es, first, from, p)
    &&& stretch(a, ov, floor, rule, es, first, from, p) == Ok::<Flow, Pushed>(s)
}

/// A stretch begins with nothing.
proof fn lemma_come_start(
    a: Seq<Slot>,
    ov: BlockMap,
    floor: u8,
    rule: Rule,
    es: Seq<EditRow>,
    first: int,
    from: int,
    s: Flow,
)
    requires
        s.nodes.len() == 0,
        s.coded.len() == 0,
        s.open.len() == 0,
    ensures
        come_to(a, ov, floor, rule, es, first, from, first - 1, from, s),
{
    reveal(come_to);
    assert(s =~= dry());
}

/// The next place of a stretch.
proof fn lemma_come_more(
    a: Seq<Slot>,
    ov: BlockMap,
    floor: u8,
    rule: Rule,
    es: Seq<EditRow>,
    first: int,
    from: int,
    p: int,
    i: int,
    s: Flow,
    to: int,
    next: Flow,
)
    requires
        first <= p,
        come_to(a, ov, floor, rule, es, first, from, p - 1, i, s),
        to == reach(es, i, tree::next_key(a, None, p)),
        poured(
            ov,
            known_at(a, first, p + 1),
            floor,
            rule,
            s,
            edits::edited(rows_at(a[p]), es.subrange(i, to)),
        ) == Ok::<Flow, Pushed>(next),
    ensures
        come_to(a, ov, floor, rule, es, first, from, p, to, next),
{
    reveal(come_to);
}

/// What a stretch leaves that ends there.
proof fn lemma_come_exact(
    a: Seq<Slot>,
    ov: BlockMap,
    floor: u8,
    rule: Rule,
    es: Seq<EditRow>,
    to: int,
    s: Flow,
    t: Trace,
)
    requires
        come_to(a, ov, floor, rule, es, t.first, t.from, t.last, to, s),
        left_by(
            ov,
            known_at(a, t.first, t.last + 1),
            floor,
            t.ended,
            s,
            t.nodes,
            t.coded,
        ),
    ensures
        run_exact(a, floor, rule, ov, es, t),
{
    reveal(come_to);
    reveal(run_exact);
}

/// Is a stretch what comes of streaming its places and edits?
#[verifier::opaque]
pub open spec fn run_exact(
    a: Seq<Slot>,
    floor: u8,
    rule: Rule,
    ov: BlockMap,
    es: Seq<EditRow>,
    t: Trace,
) -> bool {
    stretch(a, ov, floor, rule, es, t.first, t.from, t.last) matches Ok(s) && left_by(
        ov,
        known_at(a, t.first, t.last + 1),
        floor,
        t.ended,
        s,
        t.nodes,
        t.coded,
    )
}

/// What holds of all stretches so far.
#[verifier::opaque]
pub open spec fn traces_ok(
    a: Seq<Slot>,
    floor: u8,
    rule: Rule,
    ov: BlockMap,
    es: Seq<EditRow>,
    tr: Seq<Trace>,
    recheck: bool,
) -> bool {
    forall|k: int|
        0 <= k < tr.len() ==> #[trigger] trace_ok(a, floor, rule, ov, es, tr, k, recheck)
}

/// The nodes of the first `k` stretches.
pub open spec fn traced_nodes(tr: Seq<Trace>, k: nat) -> Seq<NodeView>
    decreases k,
{
    if k == 0 {
        Seq::empty()
    } else {
        traced_nodes(tr, (k - 1) as nat) + tr[k - 1].nodes
    }
}

/// The parity blocks coded in the first `k` stretches.
pub open spec fn traced_coded(tr: Seq<Trace>, k: nat) -> Seq<Seq<u8>>
    decreases k,
{
    if k == 0 {
        Seq::empty()
    } else {
        traced_coded(tr, (k - 1) as nat) + tr[k - 1].coded
    }
}

/// The places of the first `k` stretches.
pub open spec fn traced_slots(a: Seq<Slot>, tr: Seq<Trace>, k: nat) -> Seq<Slot>
    decreases k,
{
    if k == 0 {
        Seq::empty()
    } else {
        traced_slots(a, tr, (k - 1) as nat) + a.subrange(tr[k - 1].first, tr[k - 1].last + 1)
    }
}

/// One more stretch.
proof fn lemma_traces_push(
    a: Seq<Slot>,
    floor: u8,
    rule: Rule,
    ov: BlockMap,
    es: Seq<EditRow>,
    tr: Seq<Trace>,
    t: Trace,
    recheck: bool,
)
    requires
        traces_ok(a, floor, rule, ov, es, tr, recheck),
        trace_ok(a, floor, rule, ov, es, tr.push(t), tr.len() as int, recheck),
    ensures
        traces_ok(a, floor, rule, ov, es, tr.push(t), recheck),
        traced_nodes(tr.push(t), (tr.len() + 1) as nat) == traced_nodes(tr, tr.len()) + t.nodes,
        traced_slots(a, tr.push(t), (tr.len() + 1) as nat) == traced_slots(a, tr, tr.len())
            + a.subrange(t.first, t.last + 1),
        traced_coded(tr.push(t), (tr.len() + 1) as nat) == traced_coded(tr, tr.len()) + t.coded,
{
    reveal(traces_ok);
    let all = tr.push(t);
    assert forall|k: int| 0 <= k < all.len() implies #[trigger] trace_ok(
        a,
        floor,
        rule,
        ov,
        es,
        all,
        k,
        recheck,
    ) by {
        if k < tr.len() {
            assert(trace_ok(a, floor, rule, ov, es, tr, k, recheck));
            assert(all[k] == tr[k]);
            if k > 0 {
                assert(all[k - 1] == tr[k - 1]);
            }
        }
    }
    lemma_traced_prefix(a, tr, all, tr.len());
}

/// The first stretches are the same in a longer trace.
proof fn lemma_traced_prefix(a: Seq<Slot>, x: Seq<Trace>, y: Seq<Trace>, k: nat)
    requires
        k <= x.len(),
        k <= y.len(),
        forall|i: int| 0 <= i < k ==> x[i] == y[i],
    ensures
        traced_nodes(x, k) == traced_nodes(y, k),
        traced_slots(a, x, k) == traced_slots(a, y, k),
        traced_coded(x, k) == traced_coded(y, k),
    decreases k,
{
    if k > 0 {
        lemma_traced_prefix(a, x, y, (k - 1) as nat);
    }
}

/// What a push closes and leaves open is one more step of the cut, and each closed
/// node is closed with what the chunker knows.
proof fn lemma_pushed_cut(
    ov: BlockMap,
    index: Seq<Known>,
    level: u8,
    rule: Rule,
    c: Cut,
    row: Row,
    nodes: Seq<NodeView>,
    had: Seq<Seq<u8>>,
)
    requires
        coded_as(ov, index, level, nodes, had),
        chunk::pushed(ov, index, level, rule, c.open, row) is Done,
    ensures
        chunk::pushed(ov, index, level, rule, c.open, row) matches Pushed::Done {
            closed,
            open,
            coded,
        } && {
            &&& coded_as(ov, index, level, nodes + closed, had + coded)
            &&& chunk::step(level, rule, c, row) == Cut {
                closed: c.closed + node_runs(closed),
                open,
            }
            &&& all_closed(ov, index, level, closed)
        },
{
    let d = chunk::made_room(c, row);
    let next = d.open.push(row);
    assert(index.take(index.len() as int) =~= index);
    if chunk::overflows(c.open, row) {
        lemma_closed_node(ov, index, level, c.open);
    }
    if chunk::fires(level, rule, next) {
        lemma_closed_node(ov, index, level, next);
    }
    let none = Seq::<NodeView>::empty();
    if chunk::overflows(c.open, row) {
        let x = chunk::closing(ov, index, level, c.open)->Ok_0;
        lemma_coded_push(ov, index, level, nodes, had, c.open);
        assert(nodes + seq![x.node] =~= nodes.push(x.node));
        if chunk::fires(level, rule, next) {
            let y = chunk::closing(ov, index, level, next)->Ok_0;
            lemma_coded_push(ov, index, level, nodes.push(x.node), had + x.coded, next);
            assert(nodes + (seq![x.node] + seq![y.node]) =~= nodes.push(x.node).push(y.node));
            assert(had + (x.coded + y.coded) =~= had + x.coded + y.coded);
        } else {
            assert(nodes + (seq![x.node] + none) =~= nodes.push(x.node));
            assert(had + (x.coded + Seq::<Seq<u8>>::empty()) =~= had + x.coded);
        }
    } else if chunk::fires(level, rule, next) {
        let y = chunk::closing(ov, index, level, next)->Ok_0;
        lemma_coded_push(ov, index, level, nodes, had, next);
        assert(nodes + seq![y.node] =~= nodes.push(y.node));
    } else {
        assert(nodes + none =~= nodes);
        assert(had + Seq::<Seq<u8>>::empty() =~= had);
    }
    if let Pushed::Done { closed, open, coded } = chunk::pushed(ov, index, level, rule, c.open, row) {
        assert(chunk::step(level, rule, c, row).closed =~= c.closed + node_runs(closed));
        assert forall|i: int| 0 <= i < closed.len() implies closed_with(
            ov,
            index,
            level,
            #[trigger] closed[i],
        ) by {
            assert(chunk::closing(ov, index.take(index.len() as int), level, closed[i].rows) is Ok);
        }
    }
}

/// A node that was closed has the rows it was closed with.
proof fn lemma_closed_node(ov: BlockMap, index: Seq<Known>, level: u8, rows: Seq<Row>)
    ensures
        chunk::closing(ov, index, level, rows) is Ok ==> {
            let n = chunk::closing(ov, index, level, rows)->Ok_0.node;
            n.rows == rows && n.level == level
        },
{
    chunk::lemma_made_node(ov, index, level, rows, parity::groups(level, rows).len());
}

/// Closed with some groups known, closed with more known.
proof fn lemma_closed_more(
    ov: BlockMap,
    known: Seq<Known>,
    more: Seq<Known>,
    level: u8,
    nodes: Seq<NodeView>,
)
    requires
        all_closed(ov, known, level, nodes),
    ensures
        all_closed(ov, known + more, level, nodes),
{
    let all = known + more;
    assert forall|i: int| 0 <= i < nodes.len() implies closed_with(ov, all, level, #[trigger] nodes[i]) by {
        let n = nodes[i];
        assert(closed_with(ov, known, level, n));
        let k = choose|k: int|
            0 <= k <= known.len() && (#[trigger] chunk::closing(
                ov,
                known.take(k),
                level,
                n.rows,
            )) is Ok && chunk::closing(ov, known.take(k), level, n.rows)->Ok_0.node == n;
        assert(all.take(k) =~= known.take(k));
        assert(chunk::closing(ov, all.take(k), level, n.rows) is Ok);
    }
}

/// More closed nodes.
proof fn lemma_closed_join(
    ov: BlockMap,
    known: Seq<Known>,
    level: u8,
    a: Seq<NodeView>,
    b: Seq<NodeView>,
)
    requires
        all_closed(ov, known, level, a),
        all_closed(ov, known, level, b),
    ensures
        all_closed(ov, known, level, a + b),
{
    let all = a + b;
    assert forall|i: int| 0 <= i < all.len() implies closed_with(ov, known, level, #[trigger] all[i]) by {
        if i < a.len() {
            assert(all[i] == a[i]);
        } else {
            assert(all[i] == b[i - a.len()]);
        }
    }
}

/// Closed nodes, and more of them.
proof fn lemma_are_more(
    before: Seq<Closed>,
    after: Seq<Closed>,
    all: Seq<NodeView>,
    nodes: Seq<NodeView>,
)
    requires
        chunk::are(before, all),
        chunk::appended(before, after, nodes),
    ensures
        chunk::are(after, all + nodes),
{
    let n = before.len() as int;
    let both = all + nodes;
    assert forall|i: int| 0 <= i < after.len() implies (#[trigger] after[i]).is(both[i]) by {
        if i < n {
            assert(after.take(n)[i] == before[i]);
            assert(before[i].is(all[i]));
        } else {
            let tail = after.skip(n);
            assert(tail[i - n] == after[i]);
            assert(tail[i - n].is(nodes[i - n]));
        }
    }
}

// ---------------------------------------------------------------------------
// what an error says
// ---------------------------------------------------------------------------

/// Does a fault say what is so: blocks that are missing are not held, and a block that
/// is not what it should be is?
pub open spec fn told(m: BlockMap, f: Fault) -> bool {
    match f {
        Fault::Need(ids) => ids.len() > 0 && forall|i: int|
            0 <= i < ids.len() ==> !m.contains_key(#[trigger] ids[i]),
        Fault::Corrupt(cid, e) => m.contains_key(cid) && node::parse_spec(m[cid]) == Err::<
            NodeView,
            node::NodeError,
        >(e),
        Fault::Mismatch(cid) => m.contains_key(cid),
    }
}

/// Is every block of one store under an id of the other?
pub open spec fn covered(m: BlockMap, ov: BlockMap) -> bool {
    m.dom().subset_of(ov.dom())
}

/// Does an error that ends a change say what is so?
pub open spec fn excused(m: BlockMap, e: ApplyError) -> bool {
    match e {
        ApplyError::Read(x) => told(m, x@),
        ApplyError::Node(b) => chunk::missing(b) is None,
        _ => false,
    }
}

/// Is this how a change reports what a build came to?
pub open spec fn reported(b: BuildError, e: ApplyError) -> bool {
    match chunk::missing(b) {
        Some(cid) => e matches ApplyError::Read(x) && x@ == Fault::Need(seq![cid]),
        None => e matches ApplyError::Node(x) && x == b,
    }
}

/// Is this what pushing the last of these rows comes to, after the others?
pub open spec fn push_fails(
    ov: BlockMap,
    index: Seq<Known>,
    level: u8,
    rule: Rule,
    q: Seq<Row>,
    b: BuildError,
) -> bool {
    q.len() > 0 && chunk::is_failure(
        b,
        chunk::pushed(
            ov,
            index,
            level,
            rule,
            chunk::cut_from(level, rule, chunk::uncut(), q.drop_last()).open,
            q.last(),
        ),
    )
}

/// Is this what closing the node these rows leave open comes to?
pub open spec fn close_fails(
    ov: BlockMap,
    index: Seq<Known>,
    level: u8,
    rule: Rule,
    q: Seq<Row>,
    b: BuildError,
) -> bool {
    let open = chunk::cut_from(level, rule, chunk::uncut(), q).open;
    &&& open.len() > 0
    &&& chunk::closing(ov, index, level, open) matches Err(f) && chunk::is_fault(b, f)
}

/// Does pushing the last of these rows come to this error?
#[verifier::opaque]
pub open spec fn jams(
    ov: BlockMap,
    index: Seq<Known>,
    level: u8,
    rule: Rule,
    q: Seq<Row>,
    e: ApplyError,
) -> bool {
    exists|b: BuildError| #[trigger] push_fails(ov, index, level, rule, q, b) && reported(b, e)
}

/// Does closing what these rows leave open come to this error?
#[verifier::opaque]
pub open spec fn jams_closing(
    ov: BlockMap,
    index: Seq<Known>,
    level: u8,
    rule: Rule,
    q: Seq<Row>,
    e: ApplyError,
) -> bool {
    exists|b: BuildError| #[trigger] close_fails(ov, index, level, rule, q, b) && reported(b, e)
}

/// Does pushing one of these rows come to this error?
#[verifier::opaque]
pub open spec fn jams_in(
    ov: BlockMap,
    index: Seq<Known>,
    level: u8,
    rule: Rule,
    goal: Seq<Row>,
    e: ApplyError,
) -> bool {
    exists|q: Seq<Row>| #[trigger] jams(ov, index, level, rule, q, e) && q.is_prefix_of(goal)
}

/// How far the edits from `i` on stay under a bound.
pub open spec fn reach(es: Seq<EditRow>, i: int, upper: Option<Seq<u8>>) -> int
    decreases es.len() - i,
{
    if 0 <= i < es.len() && tree::under(es[i].key, upper) {
        reach(es, i + 1, upper)
    } else {
        i
    }
}

/// The rows of the places from `first` to `p`, merged with the edits from `from` on that
/// fall before what follows them.
pub open spec fn streamed(a: Seq<Slot>, es: Seq<EditRow>, first: int, from: int, p: int) -> Seq<
    Row,
> {
    edits::edited(
        tower::joined(slot_runs(a, first, p + 1)),
        es.subrange(from, reach(es, from, tree::next_key(a, None, p))),
    )
}

/// Is a node still open after place `p` of a stretch?
#[verifier::opaque]
pub open spec fn busy(
    a: Seq<Slot>,
    floor: u8,
    rule: Rule,
    es: Seq<EditRow>,
    first: int,
    from: int,
    p: int,
) -> bool {
    chunk::cut_from(
        floor,
        rule,
        chunk::uncut(),
        streamed(a, es, first, from, p),
    ).open.len() > 0
}

/// Does a stretch from `first` run up to place `p`: the places before it can be opened,
/// and after each of them a node is still open?
#[verifier::opaque]
pub open spec fn flows(
    a: Seq<Slot>,
    floor: u8,
    rule: Rule,
    es: Seq<EditRow>,
    first: int,
    from: int,
    p: int,
) -> bool {
    &&& 0 <= first <= p <= a.len()
    &&& forall|j: int|
        first <= j < p ==> (#[trigger] a[j]).opened is Ok && busy(
            a,
            floor,
            rule,
            es,
            first,
            from,
            j,
        )
}

/// Is this the place a key belongs at?
pub open spec fn holds_key(a: Seq<Slot>, t: int, key: Seq<u8>) -> bool {
    &&& 0 <= t < a.len()
    &&& t > 0 ==> order::le(a[t].key, key)
    &&& t + 1 < a.len() ==> order::lt(key, a[t + 1].key)
}

/// Is the place before `t` looked at too: the edit is to the first entry of the node, so
/// that the node before it may have been closed because of that entry?
pub open spec fn beside(a: Seq<Slot>, t: int, key: Seq<u8>, recheck: bool) -> bool {
    &&& recheck
    &&& t > 0
    &&& a[t].opened is Ok
    &&& rows_at(a[t]).len() > 0
    &&& rows_at(a[t])[0].key == key
}

/// May a stretch for edit `i` begin at `first`: at the place of the edit, or the one
/// before it?
pub open spec fn begins(
    a: Seq<Slot>,
    es: Seq<EditRow>,
    i: int,
    recheck: bool,
    first: int,
) -> bool {
    exists|t: int|
        #[trigger] holds_key(a, t, es[i].key) && (first == t || (first == t - 1 && beside(
            a,
            t,
            es[i].key,
            recheck,
        )))
}

/// Does a stretch go no further than its edits: it begins at the place of its first
/// edit, or the one before, and ends at the first place after which no node is open?
#[verifier::opaque]
pub open spec fn confined(
    a: Seq<Slot>,
    floor: u8,
    rule: Rule,
    es: Seq<EditRow>,
    t: Trace,
    recheck: bool,
) -> bool {
    &&& begins(a, es, t.from, recheck, t.first)
    &&& flows(a, floor, rule, es, t.first, t.from, t.last)
    &&& t.to == reach(es, t.from, tree::next_key(a, None, t.last))
}

/// Can the place of edit `i`, or the one before where that is looked at, not be opened,
/// with this fault?
#[verifier::opaque]
pub open spec fn barred(
    a: Seq<Slot>,
    es: Seq<EditRow>,
    i: int,
    recheck: bool,
    f: Fault,
) -> bool {
    exists|t: int|
        #[trigger] holds_key(a, t, es[i].key) && (a[t].opened == Err::<HeldView, Fault>(f) || (
        beside(a, t, es[i].key, recheck) && a[t - 1].opened == Err::<HeldView, Fault>(f)))
}

/// Does a stretch from `first` come to this error at place `p`: the place it runs into
/// cannot be opened, one of its rows cannot be pushed, or what is open at the end of the
/// level cannot be closed?
pub open spec fn run_halts(
    a: Seq<Slot>,
    ov: BlockMap,
    floor: u8,
    rule: Rule,
    es: Seq<EditRow>,
    first: int,
    from: int,
    p: int,
    e: ApplyError,
) -> bool {
    let index = known_at(a, first, p + 1);
    let q = streamed(a, es, first, from, p);
    &&& flows(a, floor, rule, es, first, from, p)
    &&& p < a.len()
    &&& halt_at(a, ov, floor, rule, es, first, from, p, e)
    &&& {
        ||| p > first && (e matches ApplyError::Read(x) && a[p].opened == Err::<HeldView, Fault>(
            x@,
        ))
        ||| a[p].opened is Ok && jams_in(ov, index, floor, rule, q, e)
        ||| a[p].opened is Ok && p + 1 == a.len() && jams_closing(ov, index, floor, rule, q, e)
    }
}

/// Why a level the old tree has could not be rewritten, after these stretches: the place
/// of the next edit cannot be opened, or the stretch that begins there comes to an error.
pub open spec fn halts_after(
    a: Seq<Slot>,
    ov: BlockMap,
    floor: u8,
    rule: Rule,
    recheck: bool,
    es: Seq<EditRow>,
    tr: Seq<Trace>,
    e: ApplyError,
) -> bool {
    let i = taken(tr, tr.len() as int);
    &&& 0 <= i < es.len()
    &&& {
        ||| e matches ApplyError::Read(x) && barred(a, es, i, recheck, x@) && barred_by(
            a,
            floor,
            es,
            resumed(tr, tr.len() as int),
            i,
            recheck,
        ) == Some(x@)
        ||| exists|first: int, p: int|
            #[trigger] run_halts(a, ov, floor, rule, es, first, i, p, e) && begins(
                a,
                es,
                i,
                recheck,
                first,
            ) && resumed(tr, tr.len() as int) <= first && first == start_of(
                a,
                floor,
                es,
                resumed(tr, tr.len() as int),
                i,
                recheck,
            ) && barred_by(a, floor, es, resumed(tr, tr.len() as int), i, recheck) is None
    }
}

/// Why a level could not be rewritten.
#[verifier::opaque]
pub open spec fn halted(
    m: BlockMap,
    root: Seq<u8>,
    ov: BlockMap,
    level: u8,
    rule: Rule,
    recheck: bool,
    es: Seq<EditRow>,
    e: ApplyError,
) -> bool {
    let a = cursor::level_of(m, root, level as int);
    if old_height(m, root) < level {
        let q = edits::edited(Seq::empty(), es);
        &&& jams_in(ov, Seq::empty(), level, rule, q, e) || jams_closing(
            ov,
            Seq::empty(),
            level,
            rule,
            q,
            e,
        )
        &&& jam_of(
            ov,
            Seq::empty(),
            level,
            true,
            poured(ov, Seq::empty(), level, rule, dry(), q),
        ) matches Some(x) && says(x, e)
    } else {
        exists|tr: Seq<Trace>|
            #[trigger] traces_ok(a, level, rule, ov, es, tr, recheck) && halts_after(
                a,
                ov,
                level,
                rule,
                recheck,
                es,
                tr,
                e,
            )
    }
}

/// Some first rows, of more.
proof fn lemma_jams_in(
    ov: BlockMap,
    index: Seq<Known>,
    level: u8,
    rule: Rule,
    q: Seq<Row>,
    goal: Seq<Row>,
    e: ApplyError,
)
    requires
        jams(ov, index, level, rule, q, e),
        q.is_prefix_of(goal),
    ensures
        jams_in(ov, index, level, rule, goal, e),
{
    reveal(jams_in);
}

/// A reach that is known.
proof fn lemma_reach_is(es: Seq<EditRow>, i: int, to: int, upper: Option<Seq<u8>>)
    requires
        0 <= i <= to <= es.len(),
        forall|t: int| i <= t < to ==> tree::under((#[trigger] es[t]).key, upper),
        to < es.len() ==> !tree::under(es[to].key, upper),
    ensures
        reach(es, i, upper) == to,
    decreases to - i,
{
    if i < to {
        lemma_reach_is(es, i + 1, to, upper);
    }
}

/// What a place that cannot be opened says is so.
proof fn lemma_slot_told(m: BlockMap, s: Slot, floor: int, i: int)
    requires
        s.opened is Err ==> told(m, s.opened->Err_0),
        0 <= i < tree::level_slots(m, s, floor).len(),
        tree::level_slots(m, s, floor)[i].opened is Err,
    ensures
        told(m, tree::level_slots(m, s, floor)[i].opened->Err_0),
    decreases tree::height_of(s), 1nat, 0nat,
{
    match s.opened {
        Err(_) => {},
        Ok(h) => if h.node.level > floor {
            lemma_child_told(m, h, floor, h.node.rows.len(), i);
        },
    }
}

/// What a place under the first children that cannot be opened says is so.
proof fn lemma_child_told(m: BlockMap, h: HeldView, floor: int, n: nat, i: int)
    requires
        n <= h.node.rows.len(),
        0 <= i < tree::child_slots(m, h, floor, n).len(),
        tree::child_slots(m, h, floor, n)[i].opened is Err,
    ensures
        told(m, tree::child_slots(m, h, floor, n)[i].opened->Err_0),
    decreases h.node.level as nat, 0nat, n,
{
    if n > 0 && h.node.level > 0 {
        let front = tree::child_slots(m, h, floor, (n - 1) as nat);
        if i < front.len() {
            lemma_child_told(m, h, floor, (n - 1) as nat, i);
        } else {
            let s = tree::child_slot(m, h, n - 1);
            assert(s.opened is Err ==> told(m, s.opened->Err_0)) by {
                lemma_loaded_told(m, s.cid);
            }
            assert(s.opened is Ok ==> tree::height_of(s) < h.node.level) by {
                reveal(tree::sound);
                tree::lemma_child_sound(m, h, n - 1);
            }
            assert(s.opened is Err ==> tree::height_of(s) == 0);
            lemma_slot_told(m, s, floor, i - front.len());
        }
    }
}

/// What a block that cannot be loaded says is so.
proof fn lemma_loaded_told(m: BlockMap, cid: Seq<u8>)
    ensures
        store::loaded(m, cid) is Err ==> told(m, store::loaded(m, cid)->Err_0),
        store::loaded(m, cid) is Ok ==> told(m, Fault::Mismatch(cid)),
{
    reveal(store::loaded);
    let ids = seq![cid];
    assert(forall|i: int| 0 <= i < ids.len() ==> ids[i] == cid);
}

/// What a place of a level that cannot be opened says is so.
proof fn lemma_level_told(m: BlockMap, root: Seq<u8>, floor: int, i: int)
    requires
        0 <= i < cursor::level_of(m, root, floor).len(),
        cursor::level_of(m, root, floor)[i].opened is Err,
    ensures
        told(m, cursor::level_of(m, root, floor)[i].opened->Err_0),
{
    lemma_loaded_told(m, root);
    lemma_slot_told(m, tree::root_slot(m, root), floor, i);
}

/// A member that is missing is not held.
proof fn lemma_missing_member(m: BlockMap, members: Seq<Seq<u8>>, i: int)
    requires
        0 <= i,
    ensures
        chunk::first_missing(m, members, i) is Some ==> !m.contains_key(
            chunk::first_missing(m, members, i)->Some_0,
        ),
    decreases members.len() - i,
{
    if i < members.len() {
        lemma_missing_member(m, members, i + 1);
    }
}

/// Ids are refused for reasons of their own.
proof fn lemma_with_ids_fault(n: NodeView, ids: Seq<Seq<u8>>, count: nat)
    ensures
        chunk::with_ids(n, ids, count) is Err ==> chunk::missing(
            chunk::with_ids(n, ids, count)->Err_0,
        ) is None,
    decreases count,
{
    if count > 0 {
        lemma_with_ids_fault(n, ids, (count - 1) as nat);
    }
}

/// Why a node cannot be closed is so.
proof fn lemma_made_fault(m: BlockMap, index: Seq<Known>, level: u8, rows: Seq<Row>, n: nat)
    ensures
        chunk::made(m, index, level, rows, n) matches Err(f) ==> match f {
            chunk::CloseFault::Missing(cid) => !m.contains_key(cid),
            chunk::CloseFault::Node(e) => chunk::missing(e) is None,
        },
    decreases n,
{
    if n > 0 {
        lemma_made_fault(m, index, level, rows, (n - 1) as nat);
        if let Ok(d) = chunk::made(m, index, level, rows, (n - 1) as nat) {
            let g = parity::groups(level, rows)[n - 1];
            lemma_missing_member(m, g.members, 0);
            if let Ok(c) = chunk::group_code(m, index, level == 0, g) {
                lemma_with_ids_fault(d.node, c.ids, c.ids.len());
            }
        }
    }
}

/// The error of a push that failed, or of a close, says what is so.
proof fn lemma_failure_told(m: BlockMap, ov: BlockMap, e: BuildError, f: chunk::CloseFault)
    requires
        covered(m, ov),
        chunk::is_fault(e, f),
        match f {
            chunk::CloseFault::Missing(cid) => !ov.contains_key(cid),
            chunk::CloseFault::Node(e) => chunk::missing(e) is None,
        },
    ensures
        match chunk::missing(e) {
            Some(cid) => told(m, Fault::Need(seq![cid])),
            None => true,
        },
{
    if let Some(cid) = chunk::missing(e) {
        let ids = seq![cid];
        assert(!m.contains_key(cid)) by {
            if m.contains_key(cid) {
                assert(m.dom().contains(cid));
                assert(ov.dom().contains(cid));
            }
        }
        assert(forall|i: int| 0 <= i < ids.len() ==> ids[i] == cid);
    }
}

/// A push that failed says what is so.
proof fn lemma_pushed_told(
    m: BlockMap,
    ov: BlockMap,
    index: Seq<Known>,
    level: u8,
    rule: Rule,
    open: Seq<Row>,
    row: Row,
    e: BuildError,
)
    requires
        covered(m, ov),
        chunk::is_failure(e, chunk::pushed(ov, index, level, rule, open, row)),
    ensures
        match chunk::missing(e) {
            Some(cid) => told(m, Fault::Need(seq![cid])),
            None => true,
        },
{
    lemma_made_fault(ov, index, level, open, parity::groups(level, open).len());
    let one = Seq::<Row>::empty().push(row);
    let next = open.push(row);
    lemma_made_fault(ov, index, level, one, parity::groups(level, one).len());
    lemma_made_fault(ov, index, level, next, parity::groups(level, next).len());
    if let Pushed::Closing(f) = chunk::pushed(ov, index, level, rule, open, row) {
        lemma_failure_told(m, ov, e, f);
    }
}

// ---------------------------------------------------------------------------
// streaming
// ---------------------------------------------------------------------------

/// Have these rows been cut into these nodes, with this node open?
#[verifier::opaque]
spec fn flowing(
    ov: BlockMap,
    level: u8,
    rule: Rule,
    index: Seq<Known>,
    open: Seq<Row>,
    coded: Seq<Seq<u8>>,
    q: Seq<Row>,
    nodes: Seq<NodeView>,
) -> bool {
    &&& chunk::cut_from(level, rule, chunk::uncut(), q) == Cut {
        closed: node_runs(nodes),
        open,
    }
    &&& all_closed(ov, index, level, nodes)
    &&& coded_as(ov, index, level, nodes, coded)
}

/// Push a row into the stream.
fn push_row<B: Blocks, R: SplitRule>(
    chunker: &mut LevelChunker<R>,
    key: &[u8],
    body: &Body,
    blocks: &B,
    out: &mut Vec<Closed>,
    Ghost(m): Ghost<BlockMap>,
    Ghost(before): Ghost<Seq<NodeView>>,
    Ghost(q): Ghost<Seq<Row>>,
    Ghost(nodes): Ghost<Seq<NodeView>>,
    Ghost(from): Ghost<Flow>,
    Ghost(part): Ghost<Seq<Row>>,
) -> (r: Result<Ghost<Seq<NodeView>>, ApplyError>)
    requires
        old(chunker).wf(),
        covered(m, blocks.held()),
        chunk::are(old(out)@, before + nodes),
        flowing(
            blocks.held(),
            old(chunker).level(),
            old(chunker).rule(),
            old(chunker).index(),
            old(chunker).open(),
            old(chunker).coded(),
            q,
            nodes,
        ),
        poured(
            blocks.held(),
            old(chunker).index(),
            old(chunker).level(),
            old(chunker).rule(),
            from,
            part,
        ) == Ok::<Flow, Pushed>(
            Flow { nodes, coded: old(chunker).coded(), open: old(chunker).open() },
        ),
    ensures
        final(chunker).wf(),
        r matches Ok(next) ==> poured(
            blocks.held(),
            final(chunker).index(),
            final(chunker).level(),
            final(chunker).rule(),
            from,
            part.push(Row { key: key@, held: body@ }),
        ) == Ok::<Flow, Pushed>(
            Flow { nodes: next@, coded: final(chunker).coded(), open: final(chunker).open() },
        ),
        final(chunker).level() == old(chunker).level(),
        final(chunker).rule() == old(chunker).rule(),
        final(chunker).index() == old(chunker).index(),
        match r {
            Ok(next) => {
                &&& chunk::are(final(out)@, before + next@)
                &&& flowing(
                    blocks.held(),
                    final(chunker).level(),
                    final(chunker).rule(),
                    final(chunker).index(),
                    final(chunker).open(),
                    final(chunker).coded(),
                    q.push(Row { key: key@, held: body@ }),
                    next@,
                )
            },
            Err(e) => {
                &&& excused(m, e)
                &&& jams(
                    blocks.held(),
                    old(chunker).index(),
                    old(chunker).level(),
                    old(chunker).rule(),
                    q.push(Row { key: key@, held: body@ }),
                    e,
                )
                &&& poured(
                    blocks.held(),
                    old(chunker).index(),
                    old(chunker).level(),
                    old(chunker).rule(),
                    from,
                    part.push(Row { key: key@, held: body@ }),
                ) matches Err(x) && says(x, e)
            },
        },
{
    let ghost row = Row { key: key@, held: body@ };
    let ghost was = out@;
    let ghost ov = blocks.held();
    let ghost level = chunker.level();
    let ghost rule = chunker.rule();
    let ghost index = chunker.index();
    let ghost open = chunker.open();
    let ghost had = chunker.coded();
    match chunker.push(key, body, blocks, out) {
        Err(e) => {
            proof {
                lemma_pushed_told(m, ov, index, level, rule, open, row, e);
            }
            let x = from_build(e);
            proof {
                reveal(flowing);
                let next = q.push(row);
                assert(next.drop_last() =~= q);
                assert(push_fails(ov, index, level, rule, next, e));
                reveal(jams);
                assert(part.push(row).drop_last() =~= part);
                assert(part.push(row).last() == row);
                reveal(poured);
                assert(chunk::is_failure(e, chunk::pushed(ov, index, level, rule, open, row)));
            }
            Err(x)
        },
        Ok(()) => {
            let ghost mut more: Seq<NodeView> = Seq::empty();
            proof {
                reveal(flowing);
                let c = Cut { closed: node_runs(nodes), open };
                lemma_pushed_cut(ov, index, level, rule, c, row, nodes, had);
                if let Pushed::Done { closed, open, coded } = chunk::pushed(
                    ov,
                    index,
                    level,
                    rule,
                    open,
                    row,
                ) {
                    more = closed;
                }
                assert(part.push(row).drop_last() =~= part);
                assert(part.push(row).last() == row);
                reveal(poured);
                lemma_are_more(was, out@, before + nodes, more);
                assert(before + (nodes + more) =~= before + nodes + more);
                lemma_closed_join(ov, index, level, nodes, more);
                let r = q.push(row);
                assert(r.drop_last() =~= q);
                assert(node_runs(nodes + more) =~= node_runs(nodes) + node_runs(more));
            }
            Ok(Ghost(nodes + more))
        },
    }
}

/// The key that follows, if one does.
spec fn key_of(k: Option<Vec<u8>>) -> Option<Seq<u8>> {
    match k {
        None => None,
        Some(v) => Some(v@),
    }
}

/// The edits up to there are under the bound, the others are not.
pub proof fn lemma_reach(es: Seq<EditRow>, i: int, upper: Option<Seq<u8>>)
    requires
        edits::sorted_edits(es),
        0 <= i <= es.len(),
    ensures
        i <= reach(es, i, upper) <= es.len(),
        forall|t: int|
            i <= t < reach(es, i, upper) ==> tree::under((#[trigger] es[t]).key, upper),
        forall|t: int|
            reach(es, i, upper) <= t < es.len() ==> upper is Some && order::le(
                upper->Some_0,
                (#[trigger] es[t]).key,
            ),
    decreases es.len() - i,
{
    if i < es.len() && tree::under(es[i].key, upper) {
        lemma_reach(es, i + 1, upper);
    } else if i < es.len() {
        let u = upper->Some_0;
        assert forall|t: int| i <= t < es.len() implies order::le(u, (#[trigger] es[t]).key) by {
            order::lemma_le_trans(u, es[i].key, es[t].key);
            if t > i {
                assert(order::lt(es[i].key, es[t].key));
            }
        }
    }
}

/// Which of the edits from `i` up to `to` change what these rows hold.
spec fn judged(
    effective: Seq<bool>,
    rows: Seq<Row>,
    es: Seq<EditRow>,
    i: int,
    to: int,
) -> bool {
    forall|t: int|
        i <= t < to ==> #[trigger] effective[t] == (edits::row_at(rows, es[t].key) != es[t].held)
}

/// What sorted rows hold under a key, from the first row that is not before it.
proof fn lemma_row_here(rows: Seq<Row>, j: int, k: Seq<u8>)
    requires
        node::sorted_rows(rows),
        0 <= j <= rows.len(),
        forall|p: int| 0 <= p < j ==> order::lt((#[trigger] rows[p]).key, k),
        j < rows.len() ==> order::le(k, rows[j].key),
    ensures
        edits::row_at(rows, k) == (if j < rows.len() && rows[j].key == k {
            Some(rows[j].held)
        } else {
            None
        }),
{
    if j < rows.len() && rows[j].key == k {
        edits::lemma_row_is(rows, j);
    } else if edits::row_at(rows, k) is Some {
        let p = edits::lemma_row_of(rows, k);
        order::lemma_lt_irreflexive(k);
        if p > j {
            assert(order::lt(rows[j].key, rows[p].key));
            order::lemma_lt_trans(k, rows[j].key, rows[p].key);
        }
    }
}

/// One step of a merge.
proof fn lemma_merge_step(rows: Seq<Row>, j: int, es: Seq<EditRow>, i: int, to: int)
    requires
        node::sorted_rows(rows),
        edits::sorted_edits(es),
        0 <= j <= rows.len(),
        0 <= i <= to <= es.len(),
    ensures
        ({
            let rest = edits::edited(rows.skip(j), es.subrange(i, to));
            if i < to && (j == rows.len() || order::lt(es[i].key, rows[j].key)) {
                rest == edits::left_by(es[i]) + edits::edited(
                    rows.skip(j),
                    es.subrange(i + 1, to),
                )
            } else if i < to && es[i].key == rows[j].key {
                rest == edits::left_by(es[i]) + edits::edited(
                    rows.skip(j + 1),
                    es.subrange(i + 1, to),
                )
            } else if j < rows.len() {
                rest == seq![rows[j]] + edits::edited(rows.skip(j + 1), es.subrange(i, to))
            } else {
                rest == Seq::<Row>::empty()
            }
        }),
{
    let a = rows.skip(j);
    let x = es.subrange(i, to);
    if j < rows.len() {
        assert(a.skip(1) =~= rows.skip(j + 1));
    }
    if i < to {
        assert(x.skip(1) =~= es.subrange(i + 1, to));
        if j < rows.len() {
            order::lemma_lt_total(es[i].key, rows[j].key);
        }
    } else {
        assert(es.subrange(i, to) =~= Seq::<EditRow>::empty());
        if j < rows.len() {
            assert(a =~= seq![rows[j]] + rows.skip(j + 1));
        } else {
            assert(a =~= Seq::<Row>::empty());
        }
    }
}

/// Does a node at one of these places hold already what an edit sets?
pub open spec fn held_already(a: Seq<Slot>, e: EditRow) -> bool {
    exists|p: int|
        0 <= p < a.len() && (#[trigger] a[p]).opened is Ok && edits::row_at(
            rows_at(a[p]),
            e.key,
        ) == e.held
}

/// Of the edits from `i` up to `to` that set something, are those marked that are not
/// held already?
#[verifier::opaque]
spec fn marked(effective: Seq<bool>, a: Seq<Slot>, es: Seq<EditRow>, i: int, to: int) -> bool {
    forall|t: int|
        i <= t < to && es[t].held is Some ==> #[trigger] effective[t] == !held_already(a, es[t])
}

/// A key that belongs at one place is at no other.
proof fn lemma_elsewhere(a: Seq<Slot>, p: int, key: Seq<u8>)
    requires
        a.len() > 1 ==> tree::spanned(a, a[0].key, None),
        holds_key(a, p, key),
    ensures
        forall|o: int|
            0 <= o < a.len() && o != p && (#[trigger] a[o]).opened is Ok ==> edits::row_at(
                rows_at(a[o]),
                key,
            ) is None,
{
    assert forall|o: int|
        0 <= o < a.len() && o != p && (#[trigger] a[o]).opened is Ok implies edits::row_at(
        rows_at(a[o]),
        key,
    ) is None by {
        lemma_rows_at(a, o);
        let rows = rows_at(a[o]);
        if edits::row_at(rows, key) is Some {
            let i = edits::lemma_row_of(rows, key);
            order::lemma_lt_irreflexive(key);
            if o < p {
                assert(order::lt(rows[i].key, a[o + 1].key));
                if o + 1 < p {
                    assert(order::lt(a[o + 1].key, a[p].key));
                }
                order::lemma_le_trans(a[o + 1].key, a[p].key, key);
                if a[o + 1].key != key {
                    order::lemma_lt_trans(key, a[o + 1].key, key);
                }
            } else {
                assert(order::le(a[o].key, rows[i].key));
                if p + 1 < o {
                    assert(order::lt(a[p + 1].key, a[o].key));
                }
                order::lemma_le_trans(a[p + 1].key, a[o].key, key);
                if a[p + 1].key != key {
                    order::lemma_lt_trans(key, a[p + 1].key, key);
                }
            }
        }
    }
}

/// The edits of one more node, judged by what it holds.
proof fn lemma_marked_more(
    was: Seq<bool>,
    now: Seq<bool>,
    a: Seq<Slot>,
    p: int,
    es: Seq<EditRow>,
    from: int,
    i: int,
    to: int,
)
    requires
        a.len() > 1 ==> tree::spanned(a, a[0].key, None),
        marked(was, a, es, from, i),
        0 <= from <= i <= to <= es.len(),
        now.len() == es.len(),
        0 <= p < a.len(),
        a[p].opened is Ok,
        judged(now, rows_at(a[p]), es, i, to),
        forall|t: int| i <= t < to ==> holds_key(a, p, (#[trigger] es[t]).key),
        forall|t: int| 0 <= t < es.len() && !(i <= t < to) ==> #[trigger] now[t] == was[t],
    ensures
        marked(now, a, es, from, to),
{
    reveal(marked);
    assert forall|t: int| from <= t < to && es[t].held is Some implies #[trigger] now[t]
        == !held_already(a, es[t]) by {
        if t < i {
            assert(now[t] == was[t]);
        } else {
            assert(holds_key(a, p, es[t].key));
            lemma_elsewhere(a, p, es[t].key);
            assert(a[p].opened is Ok);
            if held_already(a, es[t]) {
                let o = choose|o: int|
                    0 <= o < a.len() && (#[trigger] a[o]).opened is Ok && edits::row_at(
                        rows_at(a[o]),
                        es[t].key,
                    ) == es[t].held;
                assert(o == p);
            }
        }
    }
}

/// Marks that were not touched.
proof fn lemma_marked_kept(
    was: Seq<bool>,
    now: Seq<bool>,
    a: Seq<Slot>,
    es: Seq<EditRow>,
    i: int,
    to: int,
)
    requires
        marked(was, a, es, 0, i),
        marked(now, a, es, i, to),
        0 <= i <= to <= es.len(),
        forall|t: int| 0 <= t < i ==> #[trigger] now[t] == was[t],
    ensures
        marked(now, a, es, 0, to),
{
    reveal(marked);
    assert forall|t: int| 0 <= t < to && es[t].held is Some implies #[trigger] now[t]
        == !held_already(a, es[t]) by {
        if t < i {
            assert(now[t] == was[t]);
        }
    }
}

/// The edits a node takes belong there.
proof fn lemma_edits_here(
    m: BlockMap,
    root: Seq<u8>,
    floor: int,
    es: Seq<EditRow>,
    first: int,
    p: int,
    start: int,
    i: int,
    to: int,
)
    requires
        floor >= 0,
        edits::sorted_edits(es),
        0 <= first <= p < cursor::level_of(m, root, floor).len(),
        0 <= start <= i <= es.len(),
        p == first ==> i == start,
        first > 0 ==> edits::edits_from(
            es.skip(start),
            cursor::level_of(m, root, floor)[first].key,
        ),
        p > first ==> edits::edits_below(
            es.subrange(start, i),
            cursor::level_of(m, root, floor)[p].key,
        ) && edits::edits_from(es.skip(i), cursor::level_of(m, root, floor)[p].key),
        to == reach(es, i, tree::next_key(cursor::level_of(m, root, floor), None, p)),
    ensures
        i <= to <= es.len(),
        forall|t: int|
            i <= t < to ==> holds_key(
                cursor::level_of(m, root, floor),
                p,
                (#[trigger] es[t]).key,
            ),
        to == reach(es, start, tree::next_key(cursor::level_of(m, root, floor), None, p)),
{
    let a = cursor::level_of(m, root, floor);
    let up = tree::next_key(a, None, p);
    lemma_reach(es, i, up);
    if a.len() > 1 {
        lemma_level_spanned(m, root, floor);
    }
    assert forall|t: int| i <= t < to implies holds_key(a, p, (#[trigger] es[t]).key) by {
        assert(tree::under(es[t].key, up));
        if p > first {
            assert(es.skip(i)[t - i] == es[t]);
        } else if p > 0 {
            assert(es.skip(start)[t - start] == es[t]);
        }
    }
    assert forall|t: int| start <= t < to implies tree::under((#[trigger] es[t]).key, up) by {
        if t < i && p + 1 < a.len() {
            assert(es.subrange(start, i)[t - start] == es[t]);
            assert(order::lt(a[p].key, a[p + 1].key));
            order::lemma_lt_trans(es[t].key, a[p].key, a[p + 1].key);
        }
    }
    if to < es.len() {
        assert(order::le(up->Some_0, es[to].key));
        if tree::under(es[to].key, up) {
            order::lemma_lt_irreflexive(es[to].key);
            if up->Some_0 != es[to].key {
                order::lemma_lt_trans(es[to].key, up->Some_0, es[to].key);
            }
        }
    }
    lemma_reach_is(es, start, to, up);
}

/// The edits one more node takes: where they reach, and what they are judged by.
proof fn lemma_merged(
    m: BlockMap,
    root: Seq<u8>,
    floor: int,
    es: Seq<EditRow>,
    first: int,
    p: int,
    start: int,
    i: int,
    to: int,
    was: Seq<bool>,
    now: Seq<bool>,
)
    requires
        floor >= 0,
        edits::sorted_edits(es),
        0 <= first <= p < cursor::level_of(m, root, floor).len(),
        cursor::level_of(m, root, floor)[p].opened is Ok,
        0 <= start <= i <= es.len(),
        p == first ==> i == start,
        first > 0 ==> edits::edits_from(
            es.skip(start),
            cursor::level_of(m, root, floor)[first].key,
        ),
        p > first ==> edits::edits_below(
            es.subrange(start, i),
            cursor::level_of(m, root, floor)[p].key,
        ) && edits::edits_from(es.skip(i), cursor::level_of(m, root, floor)[p].key),
        to == reach(es, i, tree::next_key(cursor::level_of(m, root, floor), None, p)),
        marked(was, cursor::level_of(m, root, floor), es, start, i),
        now.len() == es.len(),
        judged(now, rows_at(cursor::level_of(m, root, floor)[p]), es, i, to),
        forall|t: int| 0 <= t < es.len() && !(i <= t < to) ==> #[trigger] now[t] == was[t],
    ensures
        marked(now, cursor::level_of(m, root, floor), es, start, to),
        to == reach(es, start, tree::next_key(cursor::level_of(m, root, floor), None, p)),
{
    let a = cursor::level_of(m, root, floor);
    lemma_edits_here(m, root, floor, es, first, p, start, i, to);
    if a.len() > 1 {
        lemma_level_spanned(m, root, floor);
    }
    lemma_marked_more(was, now, a, p, es, start, i, to);
}

/// One more place after which a node is open.
proof fn lemma_flows_more(
    a: Seq<Slot>,
    floor: u8,
    rule: Rule,
    es: Seq<EditRow>,
    first: int,
    from: int,
    p: int,
)
    requires
        flows(a, floor, rule, es, first, from, p),
        p < a.len(),
        a[p].opened is Ok,
        chunk::cut_from(
            floor,
            rule,
            chunk::uncut(),
            streamed(a, es, first, from, p),
        ).open.len() > 0,
    ensures
        flows(a, floor, rule, es, first, from, p + 1),
{
    reveal(flows);
    assert(busy(a, floor, rule, es, first, from, p)) by {
        reveal(busy);
    }
}

/// Stream an old node, merged with the edits that fall before what follows it.
#[verifier::rlimit(40)]
fn merge_node<B: Blocks, R: SplitRule>(
    chunker: &mut LevelChunker<R>,
    node: &Node<'_>,
    upper: &Option<Vec<u8>>,
    edits: &Vec<LevelEdit>,
    start: usize,
    effective: &mut Vec<bool>,
    blocks: &B,
    out: &mut Vec<Closed>,
    Ghost(m): Ghost<BlockMap>,
    Ghost(before): Ghost<Seq<NodeView>>,
    Ghost(q): Ghost<Seq<Row>>,
    Ghost(nodes): Ghost<Seq<NodeView>>,
    Ghost(from): Ghost<Flow>,
) -> (r: Result<(usize, Ghost<Seq<NodeView>>), ApplyError>)
    requires
        from == (Flow { nodes, coded: old(chunker).coded(), open: old(chunker).open() }),
        old(chunker).wf(),
        covered(m, blocks.held()),
        chunk::are(old(out)@, before + nodes),
        flowing(
            blocks.held(),
            old(chunker).level(),
            old(chunker).rule(),
            old(chunker).index(),
            old(chunker).open(),
            old(chunker).coded(),
            q,
            nodes,
        ),
        edits::sorted_edits(edits_of(edits@)),
        start <= edits@.len(),
        old(effective)@.len() == edits@.len(),
    ensures
        final(chunker).wf(),
        final(chunker).level() == old(chunker).level(),
        final(chunker).rule() == old(chunker).rule(),
        final(chunker).index() == old(chunker).index(),
        final(effective)@.len() == edits@.len(),
        match r {
            Ok(x) => {
                let es = edits_of(edits@);
                let next = x.1@;
                &&& start <= x.0 <= edits@.len()
                &&& x.0 == reach(es, start as int, key_of(*upper))
                &&& judged(final(effective)@, node@.rows, es, start as int, x.0 as int)
                &&& forall|t: int|
                    0 <= t < edits@.len() && !(start <= t < x.0)
                        ==> #[trigger] final(effective)@[t] == old(effective)@[t]
                &&& chunk::are(final(out)@, before + next)
                &&& poured(
                    blocks.held(),
                    final(chunker).index(),
                    final(chunker).level(),
                    final(chunker).rule(),
                    from,
                    edits::edited(node@.rows, es.subrange(start as int, x.0 as int)),
                ) == Ok::<Flow, Pushed>(
                    Flow { nodes: next, coded: final(chunker).coded(), open: final(chunker).open() },
                )
                &&& flowing(
                    blocks.held(),
                    final(chunker).level(),
                    final(chunker).rule(),
                    final(chunker).index(),
                    final(chunker).open(),
                    final(chunker).coded(),
                    q + edits::edited(node@.rows, es.subrange(start as int, x.0 as int)),
                    next,
                )
            },
            Err(e) => {
                let rows = edits::edited(
                    node@.rows,
                    edits_of(edits@).subrange(
                        start as int,
                        reach(edits_of(edits@), start as int, key_of(*upper)),
                    ),
                );
                &&& excused(m, e)
                &&& jams_in(
                    blocks.held(),
                    old(chunker).index(),
                    old(chunker).level(),
                    old(chunker).rule(),
                    q + rows,
                    e,
                )
                &&& poured(
                    blocks.held(),
                    old(chunker).index(),
                    old(chunker).level(),
                    old(chunker).rule(),
                    from,
                    rows,
                ) matches Err(x) && says(x, e)
            },
        },
{
    let ghost es = edits_of(edits@);
    let ghost rows = node@.rows;
    let ghost up = key_of(*upper);
    let ghost to = reach(es, start as int, up);
    let ghost goal = q + edits::edited(rows, es.subrange(start as int, to));
    let mut i: usize = start;
    let mut j: usize = 0;
    let ghost mut at: Seq<NodeView> = nodes;
    let ghost mut done: Seq<Row> = q;
    let ghost mut part: Seq<Row> = Seq::empty();
    proof {
        assert(q + part =~= q);
        reveal(poured);
    }
    node.known_valid();
    proof {
        lemma_reach(es, start as int, up);
        assert(rows.skip(0) =~= rows);
        assert(node::sorted_rows(rows));
    }
    loop
        invariant
            chunker.wf(),
            chunker.level() == old(chunker).level(),
            chunker.rule() == old(chunker).rule(),
            chunker.index() == old(chunker).index(),
            covered(m, blocks.held()),
            es == edits_of(edits@),
            rows == node@.rows,
            up == key_of(*upper),
            to == reach(es, start as int, up),
            start <= i <= to <= edits@.len(),
            j <= rows.len(),
            edits::sorted_edits(es),
            node::sorted_rows(rows),
            forall|t: int| start <= t < to ==> tree::under((#[trigger] es[t]).key, up),
            forall|t: int| to <= t < es.len() ==> up is Some && order::le(
                up->Some_0,
                (#[trigger] es[t]).key,
            ),
            forall|p: int, t: int|
                0 <= p < j && i <= t < to ==> order::lt((#[trigger] rows[p]).key, (#[trigger] es[t]).key),
            effective@.len() == edits@.len(),
            judged(effective@, rows, es, start as int, i as int),
            forall|t: int|
                0 <= t < edits@.len() && !(start <= t < i) ==> #[trigger] effective@[t] == old(
                    effective,
                )@[t],
            chunk::are(out@, before + at),
            flowing(
                blocks.held(),
                chunker.level(),
                chunker.rule(),
                chunker.index(),
                chunker.open(),
                chunker.coded(),
                done,
                at,
            ),
            done == q + part,
            poured(
                blocks.held(),
                chunker.index(),
                chunker.level(),
                chunker.rule(),
                from,
                part,
            ) == Ok::<Flow, Pushed>(
                Flow { nodes: at, coded: chunker.coded(), open: chunker.open() },
            ),
            goal == q + edits::edited(rows, es.subrange(start as int, to)),
            goal == done + edits::edited(rows.skip(j as int), es.subrange(i as int, to)),
        decreases (rows.len() - j) + (to - i),
    {
        proof {
            lemma_merge_step(rows, j as int, es, i as int, to);
        }
        let have = j < node.len();
        let mut open_edit = i < edits.len();
        if open_edit {
            assert(es[i as int] == edits@[i as int]@);
            if let Some(u) = upper {
                open_edit = order::before(edits[i].key.as_slice(), u.as_slice());
                proof {
                    order::lemma_le_trans(u@, es[i as int].key, es[i as int].key);
                }
            }
        }
        assert(open_edit == (i < to));
        if !open_edit && !have {
            proof {
                assert(done + Seq::<Row>::empty() =~= done);
                let all = edits::edited(rows, es.subrange(start as int, to));
                assert(part =~= (q + part).skip(q.len() as int));
                assert(all =~= (q + all).skip(q.len() as int));
            }
            return Ok((i, Ghost(at)));
        }
        let mut take_row = have;
        let mut same_key = false;
        let mut held: Option<Body> = None;
        if have {
            let e = Entry::of(node, j);
            if open_edit {
                proof {
                    order::lemma_lt_total(rows[j as int].key, es[i as int].key);
                }
                if order::before(e.key.as_slice(), edits[i].key.as_slice()) {
                } else {
                    take_row = false;
                    if order::same(e.key.as_slice(), edits[i].key.as_slice()) {
                        same_key = true;
                        held = Some(e.body);
                    }
                }
            }
        }
        if take_row {
            let e = Entry::of(node, j);
            let x = push_row(
                chunker,
                e.key.as_slice(),
                &e.body,
                blocks,
                out,
                Ghost(m),
                Ghost(before),
                Ghost(done),
                Ghost(at),
                Ghost(from),
                Ghost(part),
            );
            match x {
                Err(e) => {
                    proof {
                        let rest = edits::edited(rows.skip(j + 1), es.subrange(i as int, to));
                        let next = done.push(rows[j as int]);
                        assert(goal =~= next + rest);
                        assert(next =~= q + part.push(rows[j as int]));
                        lemma_jams_in(
                            blocks.held(),
                            chunker.index(),
                            chunker.level(),
                            chunker.rule(),
                            next,
                            goal,
                            e,
                        );
                        lemma_poured_part(
                            blocks.held(),
                            chunker.index(),
                            chunker.level(),
                            chunker.rule(),
                            from,
                            q,
                            part.push(rows[j as int]),
                            rest,
                            edits::edited(rows, es.subrange(start as int, to)),
                        );
                    }
                    return Err(e);
                },
                Ok(g) => proof {
                    let rest = edits::edited(rows.skip(j + 1), es.subrange(i as int, to));
                    assert(done + (seq![rows[j as int]] + rest) =~= done.push(rows[j as int])
                        + rest);
                    assert forall|p: int, t: int| 0 <= p < j + 1 && i <= t < to implies order::lt(
                        (#[trigger] rows[p]).key,
                        (#[trigger] es[t]).key,
                    ) by {
                        if p == j && t > i {
                            assert(order::lt(es[i as int].key, es[t].key));
                            order::lemma_lt_trans(rows[p].key, es[i as int].key, es[t].key);
                        }
                    }
                    assert(done.push(rows[j as int]) =~= q + part.push(rows[j as int]));
                    done = done.push(rows[j as int]);
                    part = part.push(rows[j as int]);
                    at = g@;
                },
            }
            j = j + 1;
        } else {
            let change = match (&held, &edits[i].body) {
                (None, None) => false,
                (Some(a), Some(b)) => !same_body(a, b),
                _ => true,
            };
            proof {
                assert(es[i as int] == edits@[i as int]@);
                lemma_row_here(rows, j as int, es[i as int].key);
            }
            effective.set(i, change);
            match &edits[i].body {
                None => proof {
                    let rest = edits::edited(
                        rows.skip(if same_key {
                            j + 1
                        } else {
                            j as int
                        }),
                        es.subrange(i + 1, to),
                    );
                    assert(edits::left_by(es[i as int]) + rest =~= rest);
                },
                Some(body) => {
                    let x = push_row(
                        chunker,
                        edits[i].key.as_slice(),
                        body,
                        blocks,
                        out,
                        Ghost(m),
                        Ghost(before),
                        Ghost(done),
                        Ghost(at),
                        Ghost(from),
                        Ghost(part),
                    );
                    match x {
                        Err(e) => {
                            proof {
                                let row = Row { key: es[i as int].key, held: body@ };
                                let rest = edits::edited(
                                    rows.skip(if same_key {
                                        j + 1
                                    } else {
                                        j as int
                                    }),
                                    es.subrange(i + 1, to),
                                );
                                let next = done.push(row);
                                assert(edits::left_by(es[i as int]) == seq![row]);
                                assert(goal =~= next + rest);
                                assert(next =~= q + part.push(row));
                                lemma_jams_in(
                                    blocks.held(),
                                    chunker.index(),
                                    chunker.level(),
                                    chunker.rule(),
                                    next,
                                    goal,
                                    e,
                                );
                                lemma_poured_part(
                                    blocks.held(),
                                    chunker.index(),
                                    chunker.level(),
                                    chunker.rule(),
                                    from,
                                    q,
                                    part.push(row),
                                    rest,
                                    edits::edited(rows, es.subrange(start as int, to)),
                                );
                            }
                            return Err(e);
                        },
                        Ok(g) => proof {
                            let row = Row { key: es[i as int].key, held: body@ };
                            let rest = edits::edited(
                                rows.skip(if same_key {
                                    j + 1
                                } else {
                                    j as int
                                }),
                                es.subrange(i + 1, to),
                            );
                            assert(edits::left_by(es[i as int]) == seq![row]);
                            assert(done + (seq![row] + rest) =~= done.push(row) + rest);
                            assert(done.push(row) =~= q + part.push(row));
                            done = done.push(row);
                            part = part.push(row);
                            at = g@;
                        },
                    }
                },
            }
            if same_key {
                proof {
                    assert forall|p: int, t: int| 0 <= p < j + 1 && i + 1 <= t < to implies order::lt(
                        (#[trigger] rows[p]).key,
                        (#[trigger] es[t]).key,
                    ) by {
                        if p == j {
                            assert(order::lt(es[i as int].key, es[t].key));
                        }
                    }
                }
                j = j + 1;
            }
            i = i + 1;
        }
    }
}

/// The places of a level ascend.
pub proof fn lemma_level_spanned(m: BlockMap, root: Seq<u8>, floor: int)
    requires
        floor >= 0,
        cursor::level_of(m, root, floor).len() > 1,
    ensures
        tree::spanned(
            cursor::level_of(m, root, floor),
            cursor::level_of(m, root, floor)[0].key,
            None,
        ),
{
    let s = tree::root_slot(m, root);
    tree::lemma_loaded(m, root);
    assert(s.opened is Ok && s.opened->Ok_0.node.rows.len() > 0);
    assert(tree::sound(s, None)) by {
        reveal(tree::sound);
    }
    tree::lemma_level_slots(m, s, None, floor);
}

/// The rows of a place lie between its key and the next.
proof fn lemma_rows_at(a: Seq<Slot>, p: int)
    requires
        tree::spanned(a, a[0].key, None),
        0 <= p < a.len(),
        a[p].opened is Ok,
    ensures
        edits::rows_from(rows_at(a[p]), a[p].key),
        p + 1 < a.len() ==> edits::rows_below(rows_at(a[p]), a[p + 1].key),
        rows_at(a[p]).len() > 0,
        rows_at(a[p])[0].key == a[p].key,
        node::sorted_rows(rows_at(a[p])),
{
    assert(tree::sound(a[p], tree::next_key(a, None, p)));
    reveal(tree::sound);
    let rows = rows_at(a[p]);
    assert forall|i: int| 0 <= i < rows.len() implies order::le(a[p].key, (#[trigger] rows[i]).key) by {
        if i > 0 {
            assert(order::lt(rows[0].key, rows[i].key));
        }
    }
    if p + 1 < a.len() {
        let u = a[p + 1].key;
        let n = rows.len() - 1;
        assert forall|i: int| 0 <= i < rows.len() implies order::lt((#[trigger] rows[i]).key, u) by {
            assert(order::lt(rows[n].key, u));
            if i < n {
                assert(order::lt(rows[i].key, rows[n].key));
                order::lemma_lt_trans(rows[i].key, rows[n].key, u);
            }
        }
    }
}

/// One more run.
proof fn lemma_runs_push(a: Seq<Slot>, i: int, j: int)
    requires
        i <= j,
    ensures
        tower::joined(slot_runs(a, i, j + 1)) == tower::joined(slot_runs(a, i, j)) + rows_at(a[j]),
{
    let r = slot_runs(a, i, j + 1);
    assert(r.drop_last() =~= slot_runs(a, i, j));
    assert(r.last() == rows_at(a[j]));
}

/// The rows of some places lie before the next place.
proof fn lemma_rows_before(a: Seq<Slot>, i: int, j: int)
    requires
        tree::spanned(a, a[0].key, None),
        0 <= i <= j < a.len(),
        forall|p: int| i <= p < j ==> (#[trigger] a[p]).opened is Ok,
    ensures
        edits::rows_below(tower::joined(slot_runs(a, i, j)), a[j].key),
    decreases j - i,
{
    let rows = tower::joined(slot_runs(a, i, j));
    if i < j {
        lemma_rows_before(a, i, j - 1);
        lemma_runs_push(a, i, j - 1);
        lemma_rows_at(a, j - 1);
        let front = tower::joined(slot_runs(a, i, j - 1));
        assert forall|t: int| 0 <= t < rows.len() implies order::lt((#[trigger] rows[t]).key, a[j].key) by {
            if t < front.len() {
                assert(rows[t] == front[t]);
                assert(order::lt(a[j - 1].key, a[j].key));
                order::lemma_lt_trans(rows[t].key, a[j - 1].key, a[j].key);
            } else {
                assert(rows[t] == rows_at(a[j - 1])[t - front.len()]);
            }
        }
    }
}

/// One more node streamed with its edits.
proof fn lemma_run_step(
    m: BlockMap,
    root: Seq<u8>,
    floor: int,
    es: Seq<EditRow>,
    first: int,
    p: int,
    start: int,
    i: int,
    to: int,
)
    requires
        floor >= 0,
        edits::sorted_edits(es),
        0 <= first <= p < cursor::level_of(m, root, floor).len(),
        forall|j: int| first <= j <= p ==> (#[trigger] cursor::level_of(m, root, floor)[j]).opened is Ok,
        0 <= start <= i <= to <= es.len(),
        p == first ==> i == start,
        p > first ==> {
            let u = cursor::level_of(m, root, floor)[p].key;
            edits::edits_below(es.subrange(start, i), u) && edits::edits_from(es.skip(i), u)
        },
    ensures
        ({
            let a = cursor::level_of(m, root, floor);
            edits::edited(tower::joined(slot_runs(a, first, p + 1)), es.subrange(start, to))
                == edits::edited(tower::joined(slot_runs(a, first, p)), es.subrange(start, i))
                + edits::edited(rows_at(a[p]), es.subrange(i, to))
        }),
{
    let a = cursor::level_of(m, root, floor);
    lemma_runs_push(a, first, p);
    let front = tower::joined(slot_runs(a, first, p));
    let x = es.subrange(start, i);
    let y = es.subrange(i, to);
    assert(x + y =~= es.subrange(start, to));
    if p > first {
        lemma_level_spanned(m, root, floor);
        lemma_rows_before(a, first, p);
        lemma_rows_at(a, p);
        let u = a[p].key;
        assert forall|t: int| 0 <= t < y.len() implies order::le(u, (#[trigger] y[t]).key) by {
            assert(y[t] == es.skip(i)[t]);
        }
        edits::lemma_edited_split(front, rows_at(a[p]), x, y, u);
    } else {
        assert(slot_runs(a, first, p) =~= Seq::<Seq<Row>>::empty());
        assert(front =~= Seq::<Row>::empty());
        assert(x =~= Seq::<EditRow>::empty());
        assert(front + rows_at(a[p]) =~= rows_at(a[p]));
        assert(x + y =~= y);
        assert(edits::edited(front, x) =~= Seq::<Row>::empty());
        assert(edits::edited(front, x) + edits::edited(rows_at(a[p]), y) =~= edits::edited(
            rows_at(a[p]),
            y,
        ));
    }
}

/// More groups known.
proof fn lemma_flowing_more(
    ov: BlockMap,
    level: u8,
    rule: Rule,
    index: Seq<Known>,
    more: Seq<Known>,
    open: Seq<Row>,
    coded: Seq<Seq<u8>>,
    q: Seq<Row>,
    nodes: Seq<NodeView>,
)
    requires
        flowing(ov, level, rule, index, open, coded, q, nodes),
    ensures
        flowing(ov, level, rule, index + more, open, coded, q, nodes),
{
    reveal(flowing);
    lemma_closed_more(ov, index, more, level, nodes);
    lemma_coded_more(ov, index, more, level, nodes, coded);
}

/// Nothing has been streamed yet.
proof fn lemma_flowing_start(ov: BlockMap, level: u8, rule: Rule, index: Seq<Known>)
    ensures
        flowing(
            ov,
            level,
            rule,
            index,
            Seq::empty(),
            Seq::empty(),
            Seq::empty(),
            Seq::empty(),
        ),
{
    reveal(flowing);
    lemma_coded_none(ov, index, level);
    assert(node_runs(Seq::empty()) =~= Seq::<Seq<Row>>::empty());
}

/// Close what is open at the end of a level.
fn end_stream<B: Blocks, R: SplitRule>(
    chunker: &mut LevelChunker<R>,
    blocks: &B,
    out: &mut Vec<Closed>,
    Ghost(m): Ghost<BlockMap>,
    Ghost(before): Ghost<Seq<NodeView>>,
    Ghost(q): Ghost<Seq<Row>>,
    Ghost(nodes): Ghost<Seq<NodeView>>,
) -> (r: Result<Ghost<Seq<NodeView>>, ApplyError>)
    requires
        old(chunker).wf(),
        covered(m, blocks.held()),
        chunk::are(old(out)@, before + nodes),
        flowing(
            blocks.held(),
            old(chunker).level(),
            old(chunker).rule(),
            old(chunker).index(),
            old(chunker).open(),
            old(chunker).coded(),
            q,
            nodes,
        ),
    ensures
        final(chunker).wf(),
        match r {
            Ok(next) => {
                &&& chunk::are(final(out)@, before + next@)
                &&& node_runs(next@) == chunk::chunks(
                    old(chunker).level(),
                    old(chunker).rule(),
                    q,
                )
                &&& all_closed(blocks.held(), old(chunker).index(), old(chunker).level(), next@)
                &&& coded_as(
                    blocks.held(),
                    old(chunker).index(),
                    old(chunker).level(),
                    next@,
                    final(chunker).coded(),
                )
                &&& left_by(
                    blocks.held(),
                    old(chunker).index(),
                    old(chunker).level(),
                    true,
                    Flow { nodes, coded: old(chunker).coded(), open: old(chunker).open() },
                    next@,
                    final(chunker).coded(),
                )
            },
            Err(e) => {
                &&& excused(m, e)
                &&& jams_closing(
                    blocks.held(),
                    old(chunker).index(),
                    old(chunker).level(),
                    old(chunker).rule(),
                    q,
                    e,
                )
                &&& old(chunker).open().len() > 0
                &&& chunk::closing(
                    blocks.held(),
                    old(chunker).index(),
                    old(chunker).level(),
                    old(chunker).open(),
                ) matches Err(f) && says(Pushed::Closing(f), e)
            },
        },
{
    let ghost was = out@;
    let ghost ov = blocks.held();
    let ghost level = chunker.level();
    let ghost rule = chunker.rule();
    let ghost index = chunker.index();
    let ghost open = chunker.open();
    let ghost had = chunker.coded();
    proof {
        reveal(flowing);
        reveal(left_by);
        lemma_made_fault(ov, index, level, open, parity::groups(level, open).len());
    }
    match chunker.finish(blocks, out) {
        Err(e) => {
            proof {
                lemma_failure_told(m, ov, e, chunk::closing(ov, index, level, open)->Err_0);
            }
            let x = from_build(e);
            proof {
                assert(close_fails(ov, index, level, rule, q, e));
                reveal(jams_closing);
                assert(chunk::is_failure(
                    e,
                    Pushed::Closing(chunk::closing(ov, index, level, open)->Err_0),
                ));
            }
            Err(x)
        },
        Ok(()) => {
            let ghost mut next = nodes;
            proof {
                if open.len() > 0 {
                    let n = chunk::closing(ov, index, level, open)->Ok_0.node;
                    let more = seq![n];
                    lemma_closed_node(ov, index, level, open);
                    lemma_are_more(was, out@, before + nodes, more);
                    assert(before + (nodes + more) =~= before + nodes + more);
                    assert(index.take(index.len() as int) =~= index);
                    assert forall|i: int| 0 <= i < more.len() implies closed_with(
                        ov,
                        index,
                        level,
                        #[trigger] more[i],
                    ) by {
                        assert(chunk::closing(
                            ov,
                            index.take(index.len() as int),
                            level,
                            more[i].rows,
                        ) is Ok);
                    }
                    lemma_closed_join(ov, index, level, nodes, more);
                    lemma_coded_push(ov, index, level, nodes, had, open);
                    assert(nodes + more =~= nodes.push(n));
                    assert(node_runs(nodes + more) =~= node_runs(nodes).push(open));
                    next = nodes + more;
                }
            }
            Ok(Ghost(next))
        },
    }
}

/// An old node that was streamed.
struct OldNode {
    cid: Cid,
    min_key: Vec<u8>,
}

/// Are these the nodes at these places?
spec fn olds(v: Seq<OldNode>, slots: Seq<Slot>) -> bool {
    &&& v.len() == slots.len()
    &&& forall|i: int|
        0 <= i < v.len() ==> (#[trigger] v[i]).cid@ == slots[i].cid && v[i].min_key@
            == chunk::first_key(rows_at(slots[i]))
}

/// What streaming a stretch came to.
struct Run {
    next: usize,
    ended: bool,
    resume_at: Option<Vec<u8>>,
    trace: Ghost<Trace>,
}

/// Stream old nodes from the cursor on, merged with the edits, until a node closes
/// exactly where an old node ended, or the level ends.
#[verifier::rlimit(100)]
#[verifier::spinoff_prover]
fn stream_run<S: Blocks, B: Blocks, R: SplitRule>(
    cur: &mut LevelCursor<'_, S>,
    rule: R,
    floor: u8,
    edits: &Vec<LevelEdit>,
    start: usize,
    effective: &mut Vec<bool>,
    blocks: &B,
    out: &mut Vec<Closed>,
    was: &mut Vec<OldNode>,
    coded: &mut Vec<(Cid, Vec<u8>)>,
    Ghost(before): Ghost<Seq<NodeView>>,
    Ghost(passed): Ghost<Seq<Slot>>,
) -> (r: Result<Run, ApplyError>)
    requires
        old(cur).wf(),
        old(cur).floor() == floor,
        covered(old(cur).source(), blocks.held()),
        edits::sorted_edits(edits_of(edits@)),
        start < edits@.len(),
        old(effective)@.len() == edits@.len(),
        chunk::are(old(out)@, before),
        olds(old(was)@, passed),
        chunk::coded_ok(old(coded)@),
        old(cur).at() > 0 ==> edits::edits_from(
            edits_of(edits@).skip(start as int),
            old(cur).slots()[old(cur).at()].key,
        ),
        start > 0 ==> edits::edits_below(
            edits_of(edits@).take(start as int),
            old(cur).slots()[old(cur).at()].key,
        ),
    ensures
        final(effective)@.len() == edits@.len(),
        match r {
            Ok(run) => {
                let a = old(cur).slots();
                let t = run.trace@;
                &&& run_ok(a, floor, chunk::rule_of(&rule), blocks.held(), edits_of(edits@), t)
                &&& run_exact(a, floor, chunk::rule_of(&rule), blocks.held(), edits_of(edits@), t)
                &&& t.first == old(cur).at()
                &&& t.from == start
                &&& t.to == run.next
                &&& t.ended == run.ended
                &&& t.ended <==> run.resume_at is None
                &&& run.resume_at is Some ==> run.resume_at->Some_0@ == a[t.last + 1].key
                &&& chunk::are(final(out)@, before + t.nodes)
                &&& olds(final(was)@, passed + a.subrange(t.first, t.last + 1))
                &&& chunk::coded_ok(final(coded)@)
                &&& chunk::coded_view(final(coded)@) == chunk::coded_view(old(coded)@) + t.coded
                &&& marked(final(effective)@, a, edits_of(edits@), start as int, run.next as int)
                &&& start <= run.next <= edits@.len()
                &&& flows(
                    a,
                    floor,
                    chunk::rule_of(&rule),
                    edits_of(edits@),
                    t.first,
                    t.from,
                    t.last,
                )
                &&& t.to == reach(edits_of(edits@), t.from, tree::next_key(a, None, t.last))
                &&& forall|t: int|
                    0 <= t < start ==> #[trigger] final(effective)@[t] == old(effective)@[t]
            },
            Err(e) => excused(old(cur).source(), e) && exists|p: int|
                #[trigger] run_halts(
                    old(cur).slots(),
                    blocks.held(),
                    floor,
                    chunk::rule_of(&rule),
                    edits_of(edits@),
                    old(cur).at(),
                    start as int,
                    p,
                    e,
                ),
        },
{
    let ghost m = cur.source();
    let ghost root = cur.root();
    let ghost a = cur.slots();
    let ghost first = cur.at();
    let ghost es = edits_of(edits@);
    let ghost ov = blocks.held();
    let ghost rl = chunk::rule_of(&rule);
    let ghost mut p: int = first;
    let ghost mut nodes: Seq<NodeView> = Seq::empty();
    let mut chunker = LevelChunker::new(floor, rule);
    let mut i: usize = start;
    proof {
        cur.lemma_here();
        lemma_flowing_start(ov, floor, rl, Seq::empty());
        assert(before + nodes =~= before);
        assert(slot_runs(a, first, first) =~= Seq::<Seq<Row>>::empty());
        assert(es.subrange(start as int, start as int) =~= Seq::<EditRow>::empty());
        assert(passed + a.subrange(first, first) =~= passed);
        assert(tower::joined(slot_runs(a, first, first)) =~= Seq::<Row>::empty());
        assert(marked(effective@, a, es, start as int, start as int)) by {
            reveal(marked);
        }
        assert(flows(a, floor, rl, es, first, start as int, first)) by {
            reveal(flows);
        }
        lemma_come_start(
            a,
            ov,
            floor,
            rl,
            es,
            first,
            start as int,
            Flow { nodes, coded: chunker.coded(), open: chunker.open() },
        );
    }
    loop
        invariant
            cur.wf(),
            cur.floor() == floor,
            cur.source() == m,
            cur.root() == root,
            cur.at() == p,
            a == cursor::level_of(m, root, floor as int),
            covered(m, ov),
            ov == blocks.held(),
            es == edits_of(edits@),
            edits::sorted_edits(es),
            0 <= first <= p < a.len(),
            start <= i <= edits@.len(),
            p == first ==> i == start,
            m == old(cur).source(),
            root == old(cur).root(),
            a == old(cur).slots(),
            first == old(cur).at(),
            rl == chunk::rule_of(&rule),
            effective@.len() == edits@.len(),
            marked(effective@, a, es, start as int, i as int),
            flows(a, floor, rl, es, first, start as int, p),
            forall|t: int| 0 <= t < start ==> #[trigger] effective@[t] == old(effective)@[t],
            forall|j: int| first <= j < p ==> (#[trigger] a[j]).opened is Ok,
            first > 0 ==> edits::edits_from(es.skip(start as int), a[first].key),
            start > 0 ==> edits::edits_below(es.take(start as int), a[first].key),
            p > first ==> edits::edits_below(es.subrange(start as int, i as int), a[p].key)
                && edits::edits_from(es.skip(i as int), a[p].key),
            chunk::are(out@, before + nodes),
            olds(was@, passed + a.subrange(first, p)),
            chunk::coded_ok(coded@),
            coded@ == old(coded)@,
            chunker.wf(),
            chunker.level() == floor,
            chunker.rule() == rl,
            chunker.index() == known_at(a, first, p),
            come_to(
                a,
                ov,
                floor,
                rl,
                es,
                first,
                start as int,
                p - 1,
                i as int,
                Flow { nodes, coded: chunker.coded(), open: chunker.open() },
            ),
            flowing(
                ov,
                floor,
                rl,
                chunker.index(),
                chunker.open(),
                chunker.coded(),
                edits::edited(
                    tower::joined(slot_runs(a, first, p)),
                    es.subrange(start as int, i as int),
                ),
                nodes,
            ),
        decreases a.len() - p,
    {
        proof {
            cur.lemma_here();
            lemma_flowing_more(
                ov,
                floor,
                rl,
                chunker.index(),
                parity::known_of(rows_node(a[p])),
                chunker.open(),
                chunker.coded(),
                edits::edited(
                    tower::joined(slot_runs(a, first, p)),
                    es.subrange(start as int, i as int),
                ),
                nodes,
            );
        }
        let node = cur.node();
        chunker.replacing(node);
        let upper = cur.next_min_key();
        let min_key = if node.is_empty() {
            Vec::new()
        } else {
            node.key(0)
        };
        let ghost was0 = was@;
        was.push(OldNode { cid: cur.id(), min_key });
        proof {
            assert(min_key@ =~= chunk::first_key(rows_at(a[p])));
            let all = passed + a.subrange(first, p + 1);
            assert(all =~= (passed + a.subrange(first, p)).push(a[p]));
            assert forall|k: int| 0 <= k < was@.len() implies (#[trigger] was@[k]).cid@
                == all[k].cid && was@[k].min_key@ == chunk::first_key(rows_at(all[k])) by {
                if k < was0.len() {
                    assert(was@[k] == was0[k]);
                }
            }
        }
        let ghost i0 = i as int;
        let ghost marks = effective@;
        let ghost flow = Flow { nodes, coded: chunker.coded(), open: chunker.open() };
        assert(chunker.index() == known_at(a, first, p + 1));
        let x = merge_node(
            &mut chunker,
            node,
            &upper,
            edits,
            i,
            effective,
            blocks,
            out,
            Ghost(m),
            Ghost(before),
            Ghost(
                edits::edited(
                    tower::joined(slot_runs(a, first, p)),
                    es.subrange(start as int, i as int),
                ),
            ),
            Ghost(nodes),
            Ghost(flow),
        );
        match x {
            Err(e) => {
                proof {
                    let to = reach(es, i0, key_of(upper));
                    lemma_edits_here(m, root, floor as int, es, first, p, start as int, i0, to);
                    lemma_run_step(m, root, floor as int, es, first, p, start as int, i0, to);
                    lemma_come_err(a, ov, floor, rl, es, first, start as int, p, i0, flow, to, e);
                    assert(run_halts(a, ov, floor, rl, es, first, start as int, p, e));
                }
                return Err(e);
            },
            Ok(y) => {
                i = y.0;
                proof {
                    nodes = y.1@;
                    lemma_merged(
                        m,
                        root,
                        floor as int,
                        es,
                        first,
                        p,
                        start as int,
                        i0,
                        i as int,
                        marks,
                        effective@,
                    );
                    lemma_run_step(
                        m,
                        root,
                        floor as int,
                        es,
                        first,
                        p,
                        start as int,
                        i0,
                        i as int,
                    );
                    lemma_run_edits(
                        m,
                        root,
                        floor as int,
                        es,
                        first,
                        p,
                        start as int,
                        i0,
                        i as int,
                    );
                }
            },
        }
        let ghost q = edits::edited(
            tower::joined(slot_runs(a, first, p + 1)),
            es.subrange(start as int, i as int),
        );
        let ghost here = Flow { nodes, coded: chunker.coded(), open: chunker.open() };
        proof {
            lemma_come_more(
                a,
                ov,
                floor,
                rl,
                es,
                first,
                start as int,
                p,
                i0,
                flow,
                i as int,
                here,
            );
        }
        if upper.is_none() {
            let x = end_stream(
                &mut chunker,
                blocks,
                out,
                Ghost(m),
                Ghost(before),
                Ghost(q),
                Ghost(nodes),
            );
            match x {
                Err(e) => {
                    proof {
                        assert(q == streamed(a, es, first, start as int, p));
                        lemma_come_jam(
                            a,
                            ov,
                            floor,
                            rl,
                            es,
                            first,
                            start as int,
                            p,
                            i as int,
                            here,
                            e,
                        );
                        assert(run_halts(a, ov, floor, rl, es, first, start as int, p, e));
                    }
                    return Err(e);
                },
                Ok(g) => {
                    let mut more = chunker.take_coded();
                    let ghost fresh = chunk::coded_view(more@);
                    append_coded(coded, &mut more);
                    let ghost t = Trace {
                        first,
                        last: p,
                        from: start as int,
                        to: i as int,
                        nodes: g@,
                        coded: fresh,
                        ended: true,
                        seam: Seam::Unchecked,
                    };
                    assert(run_ok(a, floor, rl, ov, es, t)) by {
                        reveal(run_ok);
                    }
                    proof {
                        lemma_come_exact(a, ov, floor, rl, es, i as int, here, t);
                    }
                    return Ok(Run { next: i, ended: true, resume_at: None, trace: Ghost(t) });
                },
            }
        }
        if chunker.is_clean() {
            let mut more = chunker.take_coded();
            let ghost fresh = chunk::coded_view(more@);
            append_coded(coded, &mut more);
            let ghost t = Trace {
                first,
                last: p,
                from: start as int,
                to: i as int,
                nodes,
                coded: fresh,
                ended: false,
                seam: Seam::Unchecked,
            };
            proof {
                reveal(flowing);
                assert(chunker.open() =~= Seq::<Row>::empty());
                assert(run_ok(a, floor, rl, ov, es, t)) by {
                    reveal(run_ok);
                }
                assert(left_by(
                    ov,
                    known_at(a, first, p + 1),
                    floor,
                    false,
                    here,
                    nodes,
                    fresh,
                )) by {
                    reveal(left_by);
                }
                lemma_come_exact(a, ov, floor, rl, es, i as int, here, t);
            }
            return Ok(Run { next: i, ended: false, resume_at: upper, trace: Ghost(t) });
        }
        proof {
            assert(q == streamed(a, es, first, start as int, p));
            assert(chunk::cut_from(floor, rl, chunk::uncut(), q).open == chunker.open()) by {
                reveal(flowing);
            }
            lemma_flows_more(a, floor, rl, es, first, start as int, p);
        }
        match cur.advance() {
            Err(e) => {
                proof {
                    lemma_level_told(m, root, floor as int, p + 1);
                    lemma_come_shut(
                        a,
                        ov,
                        floor,
                        rl,
                        es,
                        first,
                        start as int,
                        p + 1,
                        i as int,
                        here,
                        e,
                    );
                    assert(run_halts(
                        a,
                        ov,
                        floor,
                        rl,
                        es,
                        first,
                        start as int,
                        p + 1,
                        ApplyError::Read(e),
                    ));
                }
                return Err(ApplyError::Read(e));
            },
            Ok(_) => {},
        }
        proof {
            p = p + 1;
        }
    }
}

/// The node of a place.
spec fn rows_node(s: Slot) -> NodeView {
    s.opened->Ok_0.node
}

/// The edits before and after a key, from those of two parts.
proof fn lemma_edits_around(
    es: Seq<EditRow>,
    start: int,
    i: int,
    to: int,
    low: Seq<u8>,
    mid: Seq<u8>,
    u: Seq<u8>,
)
    requires
        0 <= start <= i <= to <= es.len(),
        order::lt(low, u),
        order::lt(mid, u),
        start < i ==> edits::edits_below(es.subrange(start, i), mid),
        start > 0 ==> edits::edits_below(es.take(start), low),
        forall|t: int| i <= t < to ==> order::lt((#[trigger] es[t]).key, u),
        forall|t: int| to <= t < es.len() ==> order::le(u, (#[trigger] es[t]).key),
    ensures
        edits::edits_below(es.subrange(start, to), u),
        edits::edits_from(es.skip(to), u),
        edits::edits_below(es.take(to), u),
{
    assert forall|t: int| 0 <= t < to implies order::lt((#[trigger] es[t]).key, u) by {
        if t < start {
            assert(es.take(start)[t] == es[t]);
            order::lemma_lt_trans(es[t].key, low, u);
        } else if t < i {
            assert(es.subrange(start, i)[t - start] == es[t]);
            order::lemma_lt_trans(es[t].key, mid, u);
        }
    }
    assert forall|t: int| 0 <= t < es.subrange(start, to).len() implies order::lt(
        (#[trigger] es.subrange(start, to)[t]).key,
        u,
    ) by {
        assert(es.subrange(start, to)[t] == es[start + t]);
    }
    assert forall|t: int| 0 <= t < es.take(to).len() implies order::lt(
        (#[trigger] es.take(to)[t]).key,
        u,
    ) by {
        assert(es.take(to)[t] == es[t]);
    }
    assert forall|t: int| 0 <= t < es.skip(to).len() implies order::le(
        u,
        (#[trigger] es.skip(to)[t]).key,
    ) by {
        assert(es.skip(to)[t] == es[to + t]);
    }
}

/// Which edits one more node takes.
#[verifier::rlimit(60)]
#[verifier::spinoff_prover]
proof fn lemma_run_edits(
    m: BlockMap,
    root: Seq<u8>,
    floor: int,
    es: Seq<EditRow>,
    first: int,
    p: int,
    start: int,
    i: int,
    to: int,
)
    requires
        floor >= 0,
        edits::sorted_edits(es),
        0 <= first <= p < cursor::level_of(m, root, floor).len(),
        0 <= start <= i <= to <= es.len(),
        p == first ==> i == start,
        p > first ==> edits::edits_below(
            es.subrange(start, i),
            cursor::level_of(m, root, floor)[p].key,
        ),
        start > 0 ==> edits::edits_below(
            es.take(start),
            cursor::level_of(m, root, floor)[first].key,
        ),
        to == reach(es, i, tree::next_key(cursor::level_of(m, root, floor), None, p)),
    ensures
        p + 1 < cursor::level_of(m, root, floor).len() ==> {
            let u = cursor::level_of(m, root, floor)[p + 1].key;
            &&& edits::edits_below(es.subrange(start, to), u)
            &&& edits::edits_from(es.skip(to), u)
            &&& edits::edits_below(es.take(to), u)
        },
        p + 1 == cursor::level_of(m, root, floor).len() ==> to == es.len(),
{
    let a = cursor::level_of(m, root, floor);
    let up = tree::next_key(a, None, p);
    lemma_reach(es, i, up);
    if p + 1 < a.len() {
        lemma_level_spanned(m, root, floor);
        let u = a[p + 1].key;
        assert(order::lt(a[p].key, u));
        assert(order::lt(a[first].key, u));
        assert(up == Some(u));
        lemma_edits_around(es, start, i, to, a[first].key, a[p].key, u);
    } else if to < es.len() {
        assert(order::le(up->Some_0, es[to].key));
    }
}

/// Coded blocks, and more of them.
fn append_coded(coded: &mut Vec<(Cid, Vec<u8>)>, more: &mut Vec<(Cid, Vec<u8>)>)
    requires
        chunk::coded_ok(old(coded)@),
        chunk::coded_ok(old(more)@),
    ensures
        chunk::coded_ok(final(coded)@),
        final(coded)@ == old(coded)@ + old(more)@,
        chunk::coded_view(final(coded)@) == chunk::coded_view(old(coded)@) + chunk::coded_view(
            old(more)@,
        ),
{
    let ghost a = coded@;
    let ghost b = more@;
    coded.append(more);
    proof {
        assert(chunk::coded_view(coded@) =~= chunk::coded_view(a) + chunk::coded_view(b));
        assert forall|i: int| 0 <= i < coded@.len() implies (#[trigger] coded@[i]).0@
            == crate::spec_block_id(crate::kind::PARITY, coded@[i].1@) by {
            if i < a.len() {
                assert(coded@[i] == a[i]);
            } else {
                assert(coded@[i] == b[i - a.len()]);
            }
        }
    }
}

// ---------------------------------------------------------------------------
// one level
// ---------------------------------------------------------------------------

/// What rewriting a level came to.
struct LevelResult {
    new: Vec<Closed>,
    /// Old nodes that were streamed.
    old: Vec<OldNode>,
    /// Every old node of the level was streamed: `new` is the level.
    whole: bool,
    /// Per edit: did it change anything?
    effective: Vec<bool>,
    /// Parity blocks coded while rewriting this level. A node closed here can still be
    /// dropped later, and its parity with it.
    coded: Vec<(Cid, Vec<u8>)>,
    trace: Ghost<Seq<Trace>>,
    nodes: Ghost<Seq<NodeView>>,
}

/// Do the stretches leave no node between them?
pub open spec fn unbroken(tr: Seq<Trace>) -> bool {
    forall|k: int| 0 <= k < tr.len() ==> (#[trigger] tr[k]).first == resumed(tr, k)
}

/// What rewriting a level the old tree has leaves.
#[verifier::opaque]
pub open spec fn rewritten(
    m: BlockMap,
    root: Seq<u8>,
    floor: u8,
    rule: Rule,
    ov: BlockMap,
    es: Seq<EditRow>,
    recheck: bool,
    tr: Seq<Trace>,
    nodes: Seq<NodeView>,
) -> bool {
    let a = cursor::level_of(m, root, floor as int);
    &&& traces_ok(a, floor, rule, ov, es, tr, recheck)
    &&& taken(tr, tr.len() as int) == es.len()
    &&& es.len() == 0 ==> tr.len() == 0
    &&& nodes == traced_nodes(tr, tr.len())
}

/// What building a level the old tree does not have leaves.
#[verifier::opaque]
pub open spec fn raised(
    floor: u8,
    rule: Rule,
    ov: BlockMap,
    es: Seq<EditRow>,
    nodes: Seq<NodeView>,
    coded: Seq<Seq<u8>>,
) -> bool {
    &&& node_runs(nodes) == chunk::chunks(floor, rule, edits::edited(Seq::empty(), es))
    &&& all_closed(ov, Seq::empty(), floor, nodes)
    &&& coded_as(ov, Seq::empty(), floor, nodes, coded)
    &&& poured(
        ov,
        Seq::empty(),
        floor,
        rule,
        dry(),
        edits::edited(Seq::empty(), es),
    ) matches Ok(s) && left_by(ov, Seq::empty(), floor, true, s, nodes, coded)
}

/// Some flags, none of them set.
fn unset(n: usize) -> (v: Vec<bool>)
    ensures
        v@.len() == n,
{
    let mut v: Vec<bool> = Vec::new();
    let mut i: usize = 0;
    while i < n
        invariant
            i <= n,
            v@.len() == i,
        decreases n - i,
    {
        v.push(false);
        i = i + 1;
    }
    v
}

/// A level above the old root: there is nothing old to merge with.
fn raise_level<B: Blocks, R: SplitRule>(
    rule: R,
    floor: u8,
    edits: &Vec<LevelEdit>,
    blocks: &B,
    Ghost(m): Ghost<BlockMap>,
) -> (r: Result<LevelResult, ApplyError>)
    requires
        covered(m, blocks.held()),
    ensures
        match r {
            Ok(x) => {
                &&& raised(
                    floor,
                    chunk::rule_of(&rule),
                    blocks.held(),
                    edits_of(edits@),
                    x.nodes@,
                    chunk::coded_view(x.coded@),
                )
                &&& chunk::are(x.new@, x.nodes@)
                &&& x.old@.len() == 0
                &&& x.whole
                &&& x.effective@.len() == edits@.len()
                &&& chunk::coded_ok(x.coded@)
            },
            Err(e) => {
                let q = edits::edited(Seq::empty(), edits_of(edits@));
                let rl = chunk::rule_of(&rule);
                &&& excused(m, e)
                &&& jams_in(blocks.held(), Seq::empty(), floor, rl, q, e) || jams_closing(
                    blocks.held(),
                    Seq::empty(),
                    floor,
                    rl,
                    q,
                    e,
                )
                &&& jam_of(
                    blocks.held(),
                    Seq::empty(),
                    floor,
                    true,
                    poured(blocks.held(), Seq::empty(), floor, rl, dry(), q),
                ) matches Some(x) && says(x, e)
            },
        },
{
    let ghost es = edits_of(edits@);
    let ghost ov = blocks.held();
    let ghost rl = chunk::rule_of(&rule);
    let ghost none = Seq::<NodeView>::empty();
    let ghost mut nodes: Seq<NodeView> = Seq::empty();
    let ghost mut done: Seq<Row> = Seq::empty();
    let ghost goal = edits::edited(Seq::empty(), es);
    let mut new: Vec<Closed> = Vec::new();
    let mut effective = unset(edits.len());
    let mut chunker = LevelChunker::new(floor, rule);
    let mut i: usize = 0;
    let ghost start = Flow { nodes, coded: chunker.coded(), open: chunker.open() };
    proof {
        reveal(poured);
        assert(start =~= dry());
        lemma_flowing_start(ov, floor, rl, Seq::empty());
        assert(none + nodes =~= nodes);
        assert(es.skip(0) =~= es);
        assert(done + goal =~= goal);
    }
    while i < edits.len()
        invariant
            i <= edits@.len(),
            es == edits_of(edits@),
            ov == blocks.held(),
            covered(m, ov),
            none == Seq::<NodeView>::empty(),
            chunker.wf(),
            chunker.level() == floor,
            chunker.rule() == rl,
            chunker.index() == Seq::<Known>::empty(),
            effective@.len() == edits@.len(),
            chunk::are(new@, none + nodes),
            goal == edits::edited(Seq::empty(), es),
            rl == chunk::rule_of(&rule),
            flowing(
                ov,
                floor,
                rl,
                chunker.index(),
                chunker.open(),
                chunker.coded(),
                done,
                nodes,
            ),
            start == dry(),
            poured(ov, chunker.index(), floor, rl, start, done) == Ok::<Flow, Pushed>(
                Flow { nodes, coded: chunker.coded(), open: chunker.open() },
            ),
            goal == done + edits::edited(Seq::empty(), es.skip(i as int)),
        decreases edits@.len() - i,
    {
        let ghost rest = edits::edited(Seq::empty(), es.skip(i + 1));
        proof {
            assert(es.skip(i as int)[0] == edits@[i as int]@);
            assert(es.skip(i as int).skip(1) =~= es.skip(i + 1));
        }
        match &edits[i].body {
            None => {
                assert(edits::left_by(es[i as int]) + rest =~= rest);
            },
            Some(body) => {
                let x = push_row(
                    &mut chunker,
                    edits[i].key.as_slice(),
                    body,
                    blocks,
                    &mut new,
                    Ghost(m),
                    Ghost(none),
                    Ghost(done),
                    Ghost(nodes),
                    Ghost(start),
                    Ghost(done),
                );
                match x {
                    Err(e) => {
                        proof {
                            let row = Row { key: es[i as int].key, held: body@ };
                            let next = done.push(row);
                            assert(edits::left_by(es[i as int]) == seq![row]);
                            assert(goal =~= next + rest);
                            lemma_jams_in(ov, Seq::empty(), floor, rl, next, goal, e);
                            lemma_poured_err(ov, Seq::empty(), floor, rl, start, next, goal);
                        }
                        return Err(e);
                    },
                    Ok(g) => proof {
                        let row = Row { key: es[i as int].key, held: body@ };
                        assert(edits::left_by(es[i as int]) == seq![row]);
                        assert(done + (seq![row] + rest) =~= done.push(row) + rest);
                        done = done.push(row);
                        nodes = g@;
                    },
                }
                effective.set(i, true);
            },
        }
        i = i + 1;
    }
    proof {
        assert(es.skip(i as int) =~= Seq::<EditRow>::empty());
        assert(goal =~= done);
    }
    let x = end_stream(
        &mut chunker,
        blocks,
        &mut new,
        Ghost(m),
        Ghost(none),
        Ghost(done),
        Ghost(nodes),
    );
    match x {
        Err(e) => Err(e),
        Ok(g) => {
            let coded = chunker.take_coded();
            assert(none + g@ =~= g@);
            assert(raised(floor, rl, ov, es, g@, chunk::coded_view(coded@))) by {
                reveal(raised);
            }
            Ok(
                LevelResult {
                    new,
                    old: Vec::new(),
                    whole: true,
                    effective,
                    coded,
                    trace: Ghost(Seq::empty()),
                    nodes: Ghost(g@),
                },
            )
        },
    }
}

/// Where the next edit goes, among the places after the stretches so far.
proof fn lemma_next_place(a: Seq<Slot>, es: Seq<EditRow>, i: int, done: int, key: &[u8])
    requires
        a.len() > 1 ==> tree::spanned(a, a[0].key, None),
        edits::sorted_edits(es),
        0 <= i < es.len(),
        key@ == es[i].key,
        0 <= done < a.len(),
        done > 0 ==> edits::edits_from(es.skip(i), a[done].key),
        done > 0 ==> edits::edits_below(es.take(i), a[done].key),
        done == 0 ==> i == 0,
    ensures
        ({
            let t = cursor::target(a, Pick::Key(key));
            &&& done <= t < a.len()
            &&& forall|p: int|
                done <= p <= t ==> (p > 0 ==> edits::edits_from(es.skip(i), (#[trigger] a[p]).key))
                    && (i > 0 ==> edits::edits_below(es.take(i), a[p].key))
            &&& t > 0 ==> order::le(a[t].key, es[i].key)
        }),
{
    let pick = Pick::Key(key);
    let t = cursor::target(a, pick);
    cursor::lemma_taken(a, pick, a.len());
    if done > 0 {
        assert(es.skip(i)[0] == es[i]);
        assert(pick.takes(a[done].key));
    }
    assert(done <= t);
    assert forall|p: int| done <= p <= t implies (p > 0 ==> edits::edits_from(
        es.skip(i),
        (#[trigger] a[p]).key,
    )) && (i > 0 ==> edits::edits_below(es.take(i), a[p].key)) by {
        if p > 0 {
            assert(order::le(a[t].key, es[i].key));
            if p < t {
                assert(order::lt(a[p].key, a[t].key));
            }
            assert forall|j: int| 0 <= j < es.skip(i).len() implies order::le(
                a[p].key,
                (#[trigger] es.skip(i)[j]).key,
            ) by {
                let e = es[i + j];
                order::lemma_le_trans(a[p].key, a[t].key, es[i].key);
                order::lemma_le_trans(a[p].key, es[i].key, e.key);
                if j > 0 {
                    assert(order::lt(es[i].key, es[i + j].key));
                }
            }
        }
        if i > 0 {
            assert forall|j: int| 0 <= j < es.take(i).len() implies order::lt(
                (#[trigger] es.take(i)[j]).key,
                a[p].key,
            ) by {
                if done < p {
                    assert(order::lt(a[done].key, a[p].key));
                    order::lemma_lt_trans(es.take(i)[j].key, a[done].key, a[p].key);
                }
            }
        }
    }
}

/// The place a search for a key leads to is where it belongs.
proof fn lemma_target_holds(a: Seq<Slot>, key: &[u8])
    requires
        a.len() > 0,
        a.len() > 1 ==> tree::spanned(a, a[0].key, None),
    ensures
        holds_key(a, cursor::target(a, Pick::Key(key)), key@),
{
    let pick = Pick::Key(key);
    let t = cursor::target(a, pick);
    cursor::lemma_taken(a, pick, a.len());
    if t + 1 < a.len() {
        assert(!pick.takes(a[t + 1].key));
        order::lemma_lt_total(key@, a[t + 1].key);
    }
}

/// A cursor where the next stretch begins: on the node that holds the next edit, or on
/// the one before, where that may have been closed by the hard limit because of the
/// entry the edit changes. `None` on a level above the old root.
#[verifier::rlimit(100)]
#[verifier::spinoff_prover]
fn start_run<'a, S: Blocks>(
    blocks: &'a S,
    root: &Cid,
    floor: u8,
    edits: &Vec<LevelEdit>,
    i: usize,
    recheck: bool,
    last_streamed: Option<Cid>,
    Ghost(done): Ghost<int>,
) -> (r: Result<Option<(LevelCursor<'a, S>, Ghost<Seam>)>, ApplyError>)
    requires
        edits::sorted_edits(edits_of(edits@)),
        i < edits@.len(),
        store::loaded(blocks.held(), root@) is Ok,
        store::loaded(blocks.held(), root@)->Ok_0.level >= floor ==> {
            let a = cursor::level_of(blocks.held(), root@, floor as int);
            let es = edits_of(edits@);
            &&& 0 <= done < a.len()
            &&& done > 0 ==> edits::edits_from(es.skip(i as int), a[done].key)
            &&& done > 0 ==> edits::edits_below(es.take(i as int), a[done].key)
            &&& done == 0 ==> i == 0
            &&& done > 0 ==> last_streamed is Some && last_streamed->Some_0@ == a[done - 1].cid
            &&& done == 0 ==> last_streamed is None
        },
    ensures
        match r {
            Ok(None) => store::loaded(blocks.held(), root@)->Ok_0.level < floor,
            Ok(Some(x)) => {
                let a = cursor::level_of(blocks.held(), root@, floor as int);
                let es = edits_of(edits@);
                let c = x.0;
                &&& store::loaded(blocks.held(), root@)->Ok_0.level >= floor
                &&& c.wf()
                &&& c.source() == blocks.held()
                &&& c.floor() == floor
                &&& c.root() == root@
                &&& done <= c.at() < a.len()
                &&& c.at() > 0 ==> edits::edits_from(es.skip(i as int), a[c.at()].key)
                &&& i > 0 ==> edits::edits_below(es.take(i as int), a[c.at()].key)
                &&& seam_fits(a, floor, es, done - 1, c.at(), i as int, x.1@, recheck)
                &&& begins(a, es, i as int, recheck, c.at())
                &&& barred_by(a, floor, es, done, i as int, recheck) is None
                &&& c.at() == start_of(a, floor, es, done, i as int, recheck)
                &&& x.1@ == seam_of(a, floor, es, done, i as int, recheck)
            },
            Err(e) => {
                &&& excused(blocks.held(), e)
                &&& store::loaded(blocks.held(), root@)->Ok_0.level >= floor
                &&& e matches ApplyError::Read(x) && barred(
                    cursor::level_of(blocks.held(), root@, floor as int),
                    edits_of(edits@),
                    i as int,
                    recheck,
                    x@,
                ) && barred_by(
                    cursor::level_of(blocks.held(), root@, floor as int),
                    floor,
                    edits_of(edits@),
                    done,
                    i as int,
                    recheck,
                ) == Some(x@)
            },
        },
{
    let ghost m = blocks.held();
    let ghost a = cursor::level_of(m, root@, floor as int);
    let ghost es = edits_of(edits@);
    let key = edits[i].key.as_slice();
    proof {
        assert(es[i as int] == edits@[i as int]@);
        if a.len() > 1 {
            lemma_level_spanned(m, root@, floor as int);
        }
        if store::loaded(m, root@)->Ok_0.level >= floor {
            lemma_next_place(a, es, i as int, done, key);
            lemma_target_holds(a, key);
            lemma_home(a, key);
        }
    }
    let mut cur = match LevelCursor::seek(blocks, root, floor, key) {
        Err(e) => {
            proof {
                let t = cursor::target(a, Pick::Key(key));
                lemma_level_told(m, root@, floor as int, t);
                reveal(barred);
                assert(holds_key(a, t, es[i as int].key));
            }
            return Err(ApplyError::Read(e));
        },
        Ok(None) => return Ok(None),
        Ok(Some(c)) => c,
    };
    let ghost t = cur.at();
    proof {
        cur.lemma_here();
        assert(holds_key(a, t, es[i as int].key));
        assert(home(a, es[i as int].key) == t);
        assert(a[t].opened is Ok);
        if a.len() > 1 {
            lemma_rows_at(a, t);
        }
    }
    if !recheck {
        return Ok(Some((cur, Ghost(Seam::Unchecked))));
    }
    let touched = !cur.node().is_empty() && order::same(
        cur.node().key(0).as_slice(),
        edits[i].key.as_slice(),
    );
    if !touched {
        let ghost seam = if t == 0 {
            Seam::Start
        } else {
            Seam::Untouched
        };
        return Ok(Some((cur, Ghost(seam))));
    }
    match cur.prev_info() {
        Err(e) => {
            proof {
                lemma_level_told(m, root@, floor as int, t - 1);
                assert(beside(a, t, es[i as int].key, recheck));
                assert(barred_by(a, floor, es, done, i as int, recheck) == Some(e@));
                reveal(barred);
            }
            Err(ApplyError::Read(e))
        },
        Ok(None) => Ok(Some((cur, Ghost(Seam::Start)))),
        Ok(Some(x)) => {
            proof {
                assert(a[t - 1].cid == x.0@ && a[t - 1].level == floor);
                assert(beside(a, t, es[i as int].key, recheck));
            }
            // A stretch stops only where the chunker is clean, and it is clean only
            // after a close by the rule: a node closed by the limit is still open at
            // the end of an old node's entries. So the node where the last stretch
            // stopped was not closed by the limit.
            if let Some(last) = last_streamed {
                if order::same(x.0.as_slice(), last.as_slice()) {
                    return Ok(Some((cur, Ghost(Seam::Joined))));
                }
            }
            if floor == 0 && leaf_was_not_forced(x.1) {
                return Ok(Some((cur, Ghost(Seam::Unforced))));
            }
            match cur.retreat() {
                Err(e) => {
                    proof {
                        lemma_level_told(m, root@, floor as int, t - 1);
                        assert(beside(a, t, es[i as int].key, recheck));
                        assert(!joins_at(a, t, done) && !unforced_at(a, floor, t));
                        reveal(barred);
                    }
                    Err(ApplyError::Read(e))
                },
                Ok(_) => {
                    proof {
                        cur.lemma_here();
                        assert(a[t - 1].opened is Ok);
                        assert(barred_by(a, floor, es, done, i as int, recheck) is None);
                        assert(a[t - 1].cid == x.0@);
                        assert(t - 1 >= done);
                        assert(beside(a, t, es[i as int].key, recheck));
                        assert(order::lt(a[t - 1].key, a[t].key));
                    }
                    Ok(Some((cur, Ghost(Seam::Untouched))))
                },
            }
        },
    }
}

/// Where the stretches so far leave the edits.
proof fn lemma_where_left(
    a: Seq<Slot>,
    floor: u8,
    rule: Rule,
    ov: BlockMap,
    es: Seq<EditRow>,
    tr: Seq<Trace>,
    recheck: bool,
)
    requires
        traces_ok(a, floor, rule, ov, es, tr, recheck),
        tr.len() > 0,
    ensures
        ({
            let t = tr.last();
            let done = resumed(tr, tr.len() as int);
            &&& done == t.last + 1
            &&& 0 < done <= a.len()
            &&& t.ended <==> done == a.len()
            &&& t.to <= es.len()
            &&& done < a.len() ==> edits::edits_below(es.take(t.to), a[done].key)
                && edits::edits_from(es.skip(t.to), a[done].key)
            &&& done == a.len() ==> t.to == es.len()
            &&& a[done - 1].opened is Ok
            &&& 0 <= t.first <= t.last < a.len()
        }),
{
    reveal(traces_ok);
    reveal(run_ok);
    assert(trace_ok(a, floor, rule, ov, es, tr, tr.len() - 1, recheck));
}

/// One more stretch, where it takes up.
proof fn lemma_unbroken_push(tr: Seq<Trace>, t: Trace)
    ensures
        unbroken(tr.push(t)) == (unbroken(tr) && t.first == resumed(tr, tr.len() as int)),
{
    let all = tr.push(t);
    let n = tr.len() as int;
    assert(resumed(all, n) == resumed(tr, n)) by {
        if n > 0 {
            assert(all[n - 1] == tr[n - 1]);
        }
    }
    assert(all[n] == t);
    if unbroken(all) {
        assert forall|k: int| 0 <= k < tr.len() implies (#[trigger] tr[k]).first == resumed(tr, k) by {
            assert(all[k] == tr[k]);
            if k > 0 {
                assert(all[k - 1] == tr[k - 1]);
            }
        }
    }
    if unbroken(tr) && t.first == resumed(tr, n) {
        assert forall|k: int| 0 <= k < all.len() implies (#[trigger] all[k]).first == resumed(
            all,
            k,
        ) by {
            if k < n {
                assert(all[k] == tr[k]);
                if k > 0 {
                    assert(all[k - 1] == tr[k - 1]);
                }
            }
        }
    }
}

/// Places ascend, so two with one key are one.
proof fn lemma_same_place(a: Seq<Slot>, i: int, j: int)
    requires
        a.len() > 1 ==> tree::spanned(a, a[0].key, None),
        0 <= i < a.len(),
        0 <= j < a.len(),
    ensures
        (a[i].key == a[j].key) == (i == j),
{
    order::lemma_lt_irreflexive(a[i].key);
    if i < j {
        assert(order::lt(a[i].key, a[j].key));
    } else if j < i {
        assert(order::lt(a[j].key, a[i].key));
    }
}

/// Rewrite one level: stream what the edits reach, keep the rest.
#[verifier::rlimit(60)]
fn rewrite_level<S: Blocks, B: Blocks, R: SplitRule + Copy>(
    blocks: &S,
    root: &Cid,
    floor: u8,
    edits: &Vec<LevelEdit>,
    overlay: &B,
    opts: Options<R>,
) -> (r: Result<LevelResult, ApplyError>)
    requires
        edits::sorted_edits(edits_of(edits@)),
        covered(blocks.held(), overlay.held()),
        store::loaded(blocks.held(), root@) is Ok,
    ensures
        match r {
            Ok(x) => {
                let m = blocks.held();
                let a = cursor::level_of(m, root@, floor as int);
                let es = edits_of(edits@);
                let tr = x.trace@;
                let rule = chunk::rule_of(&opts.rule);
                &&& chunk::are(x.new@, x.nodes@)
                &&& chunk::coded_ok(x.coded@)
                &&& x.effective@.len() == edits@.len()
                &&& if store::loaded(m, root@)->Ok_0.level < floor && es.len() > 0 {
                    &&& raised(
                        floor,
                        rule,
                        overlay.held(),
                        es,
                        x.nodes@,
                        chunk::coded_view(x.coded@),
                    )
                    &&& x.old@.len() == 0
                    &&& x.whole
                } else {
                    &&& rewritten(
                        m,
                        root@,
                        floor,
                        rule,
                        overlay.held(),
                        es,
                        opts.recheck_neighbour,
                        tr,
                        x.nodes@,
                    )
                    &&& chunk::coded_view(x.coded@) == traced_coded(tr, tr.len())
                    &&& marked(x.effective@, a, es, 0, es.len() as int)
                    &&& olds(x.old@, traced_slots(a, tr, tr.len()))
                    &&& x.whole <==> es.len() > 0 && unbroken(tr) && resumed(tr, tr.len() as int)
                        == a.len()
                }
            },
            Err(e) => excused(blocks.held(), e) && halted(
                blocks.held(),
                root@,
                overlay.held(),
                floor,
                chunk::rule_of(&opts.rule),
                opts.recheck_neighbour,
                edits_of(edits@),
                e,
            ),
        },
{
    let ghost m = blocks.held();
    let ghost ov = overlay.held();
    let ghost a = cursor::level_of(m, root@, floor as int);
    let ghost es = edits_of(edits@);
    let ghost rule = chunk::rule_of(&opts.rule);
    let ghost recheck = opts.recheck_neighbour;
    let ghost mut tr: Seq<Trace> = Seq::empty();
    let mut new: Vec<Closed> = Vec::new();
    let mut old_nodes: Vec<OldNode> = Vec::new();
    let mut coded: Vec<(Cid, Vec<u8>)> = Vec::new();
    let mut effective = unset(edits.len());
    let mut whole = true;
    let mut reached_end = false;
    let mut i: usize = 0;
    // Smallest key of the node after the last one streamed.
    let mut resume_at: Option<Vec<u8>> = None;
    proof {
        assert(traces_ok(a, floor, rule, ov, es, tr, recheck)) by {
            reveal(traces_ok);
        }
        assert(unbroken(tr));
        assert(chunk::coded_view(coded@) =~= Seq::<Seq<u8>>::empty());
        assert(marked(effective@, a, es, 0, 0)) by {
            reveal(marked);
        }
        if a.len() > 1 {
            lemma_level_spanned(m, root@, floor as int);
        }
        lemma_level_some(m, root@, floor as int);
    }
    while i < edits.len()
        invariant
            edits::sorted_edits(es),
            m == blocks.held(),
            ov == overlay.held(),
            covered(m, ov),
            store::loaded(m, root@) is Ok,
            a == cursor::level_of(m, root@, floor as int),
            a.len() > 0,
            a.len() > 1 ==> tree::spanned(a, a[0].key, None),
            es == edits_of(edits@),
            rule == chunk::rule_of(&opts.rule),
            recheck == opts.recheck_neighbour,
            store::loaded(m, root@)->Ok_0.level < floor ==> i == 0,
            i <= edits@.len(),
            effective@.len() == edits@.len(),
            marked(effective@, a, es, 0, i as int),
            traces_ok(a, floor, rule, ov, es, tr, recheck),
            taken(tr, tr.len() as int) == i,
            tr.len() == 0 ==> i == 0,
            es.len() == 0 ==> tr.len() == 0,
            chunk::are(new@, traced_nodes(tr, tr.len())),
            olds(old_nodes@, traced_slots(a, tr, tr.len())),
            chunk::coded_ok(coded@),
            chunk::coded_view(coded@) == traced_coded(tr, tr.len()),
            whole == unbroken(tr),
            tr.len() == 0 ==> resume_at is None && !reached_end,
            tr.len() > 0 ==> reached_end == tr.last().ended,
            tr.len() > 0 && !reached_end ==> resume_at is Some && resume_at->Some_0@
                == a[resumed(tr, tr.len() as int)].key,
        decreases a.len() - resumed(tr, tr.len() as int), edits@.len() - i,
    {
        let ghost done = resumed(tr, tr.len() as int);
        let n_old = old_nodes.len();
        let last_streamed = if n_old > 0 {
            Some(old_nodes[n_old - 1].cid)
        } else {
            None
        };
        proof {
            if tr.len() > 0 {
                lemma_where_left(a, floor, rule, ov, es, tr, recheck);
            }
            lemma_last_streamed(a, tr);
        }
        let found = start_run(
            blocks,
            root,
            floor,
            edits,
            i,
            opts.recheck_neighbour,
            last_streamed,
            Ghost(done),
        );
        let (mut cur, seam) = match found {
            Err(e) => {
                proof {
                    reveal(halted);
                    assert(halts_after(a, ov, floor, rule, recheck, es, tr, e));
                }
                return Err(e);
            },
            Ok(None) => {
                let r = raise_level(opts.rule, floor, edits, overlay, Ghost(m));
                proof {
                    if r is Err {
                        reveal(halted);
                    }
                }
                return r;
            },
            Ok(Some(x)) => x,
        };
        let ghost first = cur.at();
        proof {
            cur.lemma_here();
            if a.len() > 1 {
                lemma_rows_at(a, first);
            }
        }
        // Does this stretch start where the last one stopped, or at the start of the
        // level? Told from keys already in hand, not by loading anything.
        let joins = match &resume_at {
            None => cur.is_first(),
            Some(k) => !cur.node().is_empty() && order::same(
                k.as_slice(),
                cur.node().key(0).as_slice(),
            ),
        };
        proof {
            lemma_same_place(a, first, done);
        }
        assert(joins == (first == done));
        whole = whole && joins;
        let ghost marks = effective@;
        let ghost i0 = i as int;
        assert(0 <= i0 < es.len());
        let x = stream_run(
            &mut cur,
            opts.rule,
            floor,
            edits,
            i,
            &mut effective,
            overlay,
            &mut new,
            &mut old_nodes,
            &mut coded,
            Ghost(traced_nodes(tr, tr.len())),
            Ghost(traced_slots(a, tr, tr.len())),
        );
        match x {
            Err(e) => {
                proof {
                    reveal(halted);
                    assert(halts_after(a, ov, floor, rule, recheck, es, tr, e));
                }
                return Err(e);
            },
            Ok(run) => {
                i = run.next;
                reached_end = run.ended;
                resume_at = run.resume_at;
                proof {
                    lemma_marked_kept(marks, effective@, a, es, i0, i as int);
                    let t = Trace { seam: seam@, ..run.trace@ };
                    let all = tr.push(t);
                    let n = tr.len() as int;
                    assert(all[n] == t);
                    if n > 0 {
                        assert(all[n - 1] == tr[n - 1]);
                    }
                    assert(resumed(all, n) == done);
                    assert(taken(all, n) == taken(tr, n));
                    assert(run_ok(a, floor, rule, ov, es, t)) by {
                        reveal(run_ok);
                    }
                    assert(t.first <= t.last < a.len() && t.to <= es.len()) by {
                        reveal(run_ok);
                    }
                    assert(confined(a, floor, rule, es, t, recheck)) by {
                        reveal(confined);
                    }
                    assert(run_exact(a, floor, rule, ov, es, t)) by {
                        reveal(run_exact);
                    }
                    assert(trace_ok(a, floor, rule, ov, es, all, n, recheck));
                    lemma_traces_push(a, floor, rule, ov, es, tr, t, recheck);
                    lemma_unbroken_push(tr, t);
                    tr = all;
                }
            },
        }
    }
    proof {
        reveal(rewritten);
        if tr.len() > 0 {
            lemma_where_left(a, floor, rule, ov, es, tr, recheck);
        }
    }
    Ok(
        LevelResult {
            new,
            old: old_nodes,
            whole: whole && reached_end,
            effective,
            coded,
            trace: Ghost(tr),
            nodes: Ghost(traced_nodes(tr, tr.len())),
        },
    )
}

/// A level has a place.
proof fn lemma_level_some(m: BlockMap, root: Seq<u8>, floor: int)
    requires
        floor >= 0,
        store::loaded(m, root) is Ok,
    ensures
        cursor::level_of(m, root, floor).len() > 0,
{
    let s = tree::root_slot(m, root);
    tree::lemma_loaded(m, root);
    if s.opened->Ok_0.node.level > floor {
        assert(s.opened->Ok_0.node.rows.len() > 0);
        assert(tree::sound(s, None)) by {
            reveal(tree::sound);
        }
        tree::lemma_level_slots(m, s, None, floor);
    }
}

/// The last place streamed is the last of the last stretch.
proof fn lemma_last_streamed(a: Seq<Slot>, tr: Seq<Trace>)
    requires
        tr.len() > 0 ==> 0 <= tr.last().first <= tr.last().last < a.len(),
    ensures
        tr.len() == 0 ==> traced_slots(a, tr, tr.len()).len() == 0,
        tr.len() > 0 ==> traced_slots(a, tr, tr.len()).len() > 0 && traced_slots(
            a,
            tr,
            tr.len(),
        ).last() == a[tr.last().last],
{
}

// ---------------------------------------------------------------------------
// what goes up to the next level
// ---------------------------------------------------------------------------

/// The ids of some places.
pub open spec fn slot_ids(was: Seq<Slot>) -> Seq<Seq<u8>> {
    was.map_values(|s: Slot| s.cid)
}

/// The ids of some nodes.
pub open spec fn node_ids(nodes: Seq<NodeView>) -> Seq<Seq<u8>> {
    nodes.map_values(|n: NodeView| chunk::node_id(n))
}

/// Is one of the first `n` old nodes under this key, and no longer there?
pub open spec fn gone_at(was: Seq<Slot>, nodes: Seq<NodeView>, n: nat, k: Seq<u8>) -> bool
    decreases n,
{
    n > 0 && ((chunk::first_key(rows_at(was[n - 1])) == k && !node_ids(nodes).contains(
        was[n - 1].cid,
    )) || gone_at(was, nodes, (n - 1) as nat, k))
}

/// Does a new node go up? One that was there before is recorded by its parent already,
/// unless the tree is about to grow a level and there is no parent.
pub open spec fn goes_up(was: Seq<Slot>, n: NodeView, growing: bool) -> bool {
    growing || !slot_ids(was).contains(chunk::node_id(n))
}

/// What the first `n` new nodes put under a key of the level above.
pub open spec fn sent_at(
    was: Seq<Slot>,
    nodes: Seq<NodeView>,
    growing: bool,
    n: nat,
    k: Seq<u8>,
) -> Option<Payload>
    decreases n,
{
    if n == 0 {
        None
    } else if goes_up(was, nodes[n - 1], growing) && chunk::first_key(nodes[n - 1].rows) == k {
        Some(chunk::child_row(nodes[n - 1]).held)
    } else {
        sent_at(was, nodes, growing, (n - 1) as nat, k)
    }
}

/// What the level above is told of a key.
pub open spec fn up_at(was: Seq<Slot>, nodes: Seq<NodeView>, growing: bool, k: Seq<u8>) -> Option<
    EditRow,
> {
    match sent_at(was, nodes, growing, nodes.len(), k) {
        Some(p) => Some(EditRow { key: k, held: Some(p) }),
        None => if gone_at(was, nodes, was.len(), k) {
            Some(EditRow { key: k, held: None })
        } else {
            None
        },
    }
}

/// Set what an edit list says of a key.
fn put_edit(up: &mut Vec<LevelEdit>, key: Vec<u8>, body: Option<Body>)
    requires
        edits::sorted_edits(edits_of(old(up)@)),
    ensures
        edits::sorted_edits(edits_of(final(up)@)),
        forall|k: Seq<u8>|
            #[trigger] edits::edit_at(edits_of(final(up)@), k) == (if k == key@ {
                Some((LevelEdit { key, body })@)
            } else {
                edits::edit_at(edits_of(old(up)@), k)
            }),
{
    let ghost es = edits_of(up@);
    let ghost e = (LevelEdit { key, body })@;
    let mut p = up.len();
    let mut found = false;
    while p > 0 && !found
        invariant
            es == edits_of(up@),
            edits::sorted_edits(es),
            up@ == old(up)@,
            p <= up@.len(),
            e.key == key@,
            found ==> p < up@.len() && es[p as int].key == key@,
            forall|i: int| p <= i < es.len() && !(found && i == p) ==> order::lt(key@, (#[trigger] es[i]).key),
            forall|i: int| found && 0 <= i < p ==> order::lt((#[trigger] es[i]).key, key@),
        ensures
            found || p == 0 || order::lt(es[p - 1].key, key@),
        decreases p,
    {
        assert(es[p - 1] == up@[p - 1]@);
        match order::side(up[p - 1].key.as_slice(), key.as_slice()) {
            order::Side::Less => {
                break;
            },
            order::Side::Equal => {
                p = p - 1;
                found = true;
                assert forall|i: int| 0 <= i < p implies order::lt((#[trigger] es[i]).key, key@) by {
                    assert(order::lt(es[i].key, es[p as int].key));
                }
                assert forall|i: int| p <= i < es.len() && i != p implies order::lt(
                    key@,
                    (#[trigger] es[i]).key,
                ) by {
                    assert(order::lt(es[p as int].key, es[i].key));
                }
            },
            order::Side::Greater => {
                p = p - 1;
            },
        }
    }
    proof {
        assert forall|i: int| 0 <= i < p implies order::lt((#[trigger] es[i]).key, key@) by {
            if !found {
                if i < p - 1 {
                    assert(order::lt(es[i].key, es[p - 1].key));
                    order::lemma_lt_trans(es[i].key, es[p - 1].key, key@);
                }
            }
        }
    }
    if found {
        up.set(p, LevelEdit { key, body });
        assert(edits_of(up@) =~= es.update(p as int, e));
    } else {
        up.insert(p, LevelEdit { key, body });
        assert(edits_of(up@) =~= es.insert(p as int, e));
    }
    proof {
        edits::lemma_edit_put(es, edits_of(up@), p as int, e, found);
    }
}

/// Is this one of the closed nodes?
fn closed_has(new: &Vec<Closed>, cid: &Cid, Ghost(nodes): Ghost<Seq<NodeView>>) -> (r: bool)
    requires
        chunk::are(new@, nodes),
    ensures
        r == node_ids(nodes).contains(cid@),
{
    let mut i: usize = 0;
    while i < new.len()
        invariant
            i <= new@.len(),
            chunk::are(new@, nodes),
            forall|j: int| 0 <= j < i ==> #[trigger] node_ids(nodes)[j] != cid@,
        decreases new@.len() - i,
    {
        assert(new@[i as int].is(nodes[i as int]));
        if order::same(new[i].cid.as_slice(), cid.as_slice()) {
            assert(node_ids(nodes)[i as int] == cid@);
            return true;
        }
        i = i + 1;
    }
    false
}

/// Is this one of the old nodes?
fn olds_have(was: &Vec<OldNode>, cid: &Cid, Ghost(slots): Ghost<Seq<Slot>>) -> (r: bool)
    requires
        olds(was@, slots),
    ensures
        r == slot_ids(slots).contains(cid@),
{
    let mut i: usize = 0;
    while i < was.len()
        invariant
            i <= was@.len(),
            olds(was@, slots),
            forall|j: int| 0 <= j < i ==> #[trigger] slot_ids(slots)[j] != cid@,
        decreases was@.len() - i,
    {
        assert(was@[i as int].cid@ == slots[i as int].cid);
        if order::same(was[i].cid.as_slice(), cid.as_slice()) {
            assert(slot_ids(slots)[i as int] == cid@);
            return true;
        }
        i = i + 1;
    }
    false
}

/// The edits of the level above. Normally only the difference goes up. When this level
/// is the old root's and ends with more than one node, nothing holds any of them, so
/// every one goes up, also one that survived unchanged.
fn send_up(
    was: &Vec<OldNode>,
    new: &Vec<Closed>,
    growing: bool,
    Ghost(slots): Ghost<Seq<Slot>>,
    Ghost(nodes): Ghost<Seq<NodeView>>,
) -> (up: Vec<LevelEdit>)
    requires
        olds(was@, slots),
        chunk::are(new@, nodes),
    ensures
        edits::sorted_edits(edits_of(up@)),
        forall|k: Seq<u8>|
            #[trigger] edits::edit_at(edits_of(up@), k) == up_at(slots, nodes, growing, k),
{
    let mut up: Vec<LevelEdit> = Vec::new();
    let mut i: usize = 0;
    while i < was.len()
        invariant
            i <= was@.len(),
            olds(was@, slots),
            chunk::are(new@, nodes),
            edits::sorted_edits(edits_of(up@)),
            forall|k: Seq<u8>|
                #[trigger] edits::edit_at(edits_of(up@), k) == (if gone_at(
                    slots,
                    nodes,
                    i as nat,
                    k,
                ) {
                    Some(EditRow { key: k, held: None })
                } else {
                    None
                }),
        decreases was@.len() - i,
    {
        assert(was@[i as int].cid@ == slots[i as int].cid);
        if !closed_has(new, &was[i].cid, Ghost(nodes)) {
            put_edit(&mut up, vstd::slice::slice_to_vec(was[i].min_key.as_slice()), None);
        }
        i = i + 1;
    }
    let mut j: usize = 0;
    while j < new.len()
        invariant
            j <= new@.len(),
            olds(was@, slots),
            chunk::are(new@, nodes),
            edits::sorted_edits(edits_of(up@)),
            forall|k: Seq<u8>|
                #[trigger] edits::edit_at(edits_of(up@), k) == (match sent_at(
                    slots,
                    nodes,
                    growing,
                    j as nat,
                    k,
                ) {
                    Some(p) => Some(EditRow { key: k, held: Some(p) }),
                    None => if gone_at(slots, nodes, slots.len(), k) {
                        Some(EditRow { key: k, held: None })
                    } else {
                        None
                    },
                }),
        decreases new@.len() - j,
    {
        assert(new@[j as int].is(nodes[j as int]));
        if growing || !olds_have(was, &new[j].cid, Ghost(slots)) {
            let e = new[j].as_child();
            put_edit(&mut up, e.key, Some(e.body));
        }
        j = j + 1;
    }
    up
}

// ---------------------------------------------------------------------------
// the batch
// ---------------------------------------------------------------------------

/// What an edit stores.
pub open spec fn edit_row(e: (Vec<u8>, Edit)) -> EditRow {
    EditRow {
        key: e.0@,
        held: match e.1 {
            Edit::Put(v) => Some(node::stored_as(v@)),
            Edit::Delete => None,
        },
    }
}

/// What a batch stores.
pub open spec fn edit_rows(edits: Seq<(Vec<u8>, Edit)>) -> Seq<EditRow> {
    edits.map_values(|e: (Vec<u8>, Edit)| edit_row(e))
}

/// Why edit `i` of a batch is refused.
pub open spec fn edit_error(edits: Seq<(Vec<u8>, Edit)>, i: int) -> Option<ApplyError> {
    if i > 0 && !order::lt(edits[i - 1].0@, edits[i].0@) {
        Some(ApplyError::NotSorted)
    } else if edits[i].0@.len() > MAX_KEY {
        Some(ApplyError::KeyTooLong)
    } else {
        match edits[i].1 {
            Edit::Put(v) => if v@.len() > MAX_VALUE {
                Some(ApplyError::ValueTooLong)
            } else {
                None
            },
            Edit::Delete => None,
        }
    }
}

/// Why a batch is refused: the first edit that is, from `i` on.
pub open spec fn batch_error(edits: Seq<(Vec<u8>, Edit)>, i: int) -> Option<ApplyError>
    decreases edits.len() - i,
{
    if i < 0 || i >= edits.len() {
        None
    } else {
        match edit_error(edits, i) {
            Some(e) => Some(e),
            None => batch_error(edits, i + 1),
        }
    }
}

/// The block a batch keeps for edit `i`, if its value does not go into the leaf.
pub open spec fn value_of(e: (Vec<u8>, Edit)) -> Option<Put> {
    match e.1 {
        Edit::Put(v) => if v@.len() > MAX_INLINE {
            Some(Put { id: crate::spec_block_id(crate::kind::RAW, v@), bytes: v@ })
        } else {
            None
        },
        Edit::Delete => None,
    }
}

/// Does a store hold the values a batch puts into blocks of their own?
pub open spec fn values_held(w: BlockMap, edits: Seq<(Vec<u8>, Edit)>) -> bool {
    forall|i: int|
        #![trigger edits[i]]
        0 <= i < edits.len() && value_of(edits[i]) is Some ==> {
            let b = value_of(edits[i])->Some_0;
            w.contains_key(b.id) && w[b.id] == b.bytes
        }
}

/// Refuse a bad batch before anything is read.
fn check_batch(edits: &[(Vec<u8>, Edit)]) -> (r: Result<(), ApplyError>)
    ensures
        match r {
            Ok(()) => batch_error(edits@, 0) is None,
            Err(e) => batch_error(edits@, 0) == Some(e),
        },
        r is Ok ==> edits::sorted_edits(edit_rows(edits@)),
{
    let mut n: usize = 0;
    let len = edits.len();
    while n < len
        invariant
            len == edits@.len(),
            n <= len,
            batch_error(edits@, 0) == batch_error(edits@, n as int),
            forall|i: int, j: int|
                0 <= i < j < n ==> order::lt((#[trigger] edits@[i]).0@, (#[trigger] edits@[j]).0@),
        decreases len - n,
    {
        if n > 0 && !order::before(edits[n - 1].0.as_slice(), edits[n].0.as_slice()) {
            return Err(ApplyError::NotSorted);
        }
        if edits[n].0.len() > MAX_KEY {
            return Err(ApplyError::KeyTooLong);
        }
        match &edits[n].1 {
            Edit::Put(v) => {
                if v.len() > MAX_VALUE {
                    return Err(ApplyError::ValueTooLong);
                }
            },
            Edit::Delete => {},
        }
        proof {
            assert(edit_error(edits@, n as int) is None);
            assert forall|i: int, j: int| 0 <= i < j < n + 1 implies order::lt(
                (#[trigger] edits@[i]).0@,
                (#[trigger] edits@[j]).0@,
            ) by {
                if j == n && i < n - 1 {
                    assert(order::lt(edits@[i].0@, edits@[n - 1].0@));
                    order::lemma_lt_trans(edits@[i].0@, edits@[n - 1].0@, edits@[j].0@);
                }
            }
        }
        n = n + 1;
    }
    proof {
        let es = edit_rows(edits@);
        assert forall|i: int, j: int| 0 <= i < j < es.len() implies order::lt(
            (#[trigger] es[i]).key,
            (#[trigger] es[j]).key,
        ) by {
            assert(order::lt(edits@[i].0@, edits@[j].0@));
        }
    }
    Ok(())
}

/// The edits of the leaves, and the blocks of values that do not go into them.
fn leaf_edits(edits: &[(Vec<u8>, Edit)]) -> (r: (Vec<LevelEdit>, Vec<Option<(Cid, Vec<u8>)>>))
    ensures
        edits_of(r.0@) == edit_rows(edits@),
        r.1@.len() == edits@.len(),
        forall|i: int| 0 <= i < edits@.len() ==> is_value(#[trigger] r.1@[i], edits@[i]),
{
    let mut level: Vec<LevelEdit> = Vec::new();
    let mut values: Vec<Option<(Cid, Vec<u8>)>> = Vec::new();
    let mut n: usize = 0;
    let len = edits.len();
    while n < len
        invariant
            len == edits@.len(),
            n <= len,
            level@.len() == n,
            values@.len() == n,
            forall|i: int| 0 <= i < n ==> (#[trigger] level@[i])@ == edit_row(edits@[i]),
            forall|i: int| 0 <= i < n ==> is_value(#[trigger] values@[i], edits@[i]),
        decreases len - n,
    {
        let key = vstd::slice::slice_to_vec(edits[n].0.as_slice());
        match &edits[n].1 {
            Edit::Delete => {
                values.push(None);
                level.push(LevelEdit { key, body: None });
            },
            Edit::Put(v) => {
                let (value, block) = Value::for_bytes(v.as_slice());
                let body = match value {
                    Value::Inline(b) => Body::Inline(vstd::slice::slice_to_vec(b)),
                    Value::Ref { cid, len } => Body::Ref { cid, len },
                };
                match block {
                    None => values.push(None),
                    Some(x) => values.push(Some((x.0, vstd::slice::slice_to_vec(x.1)))),
                }
                level.push(LevelEdit { key, body: Some(body) });
            },
        }
        n = n + 1;
    }
    proof {
        assert(edits_of(level@) =~= edit_rows(edits@));
    }
    (level, values)
}

/// Is this the block of that edit's value?
spec fn is_value(v: Option<(Cid, Vec<u8>)>, e: (Vec<u8>, Edit)) -> bool {
    match v {
        None => value_of(e) is None,
        Some(x) => value_of(e) == Some(Put { id: x.0@, bytes: x.1@ }),
    }
}

// ---------------------------------------------------------------------------
// what the old tree has above a level
// ---------------------------------------------------------------------------

/// The ids of the nodes above a level, under a node.
pub open spec fn above(m: BlockMap, h: HeldView, cid: Seq<u8>, floor: int) -> Seq<Seq<u8>>
    decreases h.node.level as nat, 1nat, 0nat,
{
    if h.node.level <= floor {
        Seq::empty()
    } else {
        seq![cid] + above_children(m, h, floor, h.node.rows.len())
    }
}

/// The ids of the nodes above a level, under the first `n` children, from the last on.
pub open spec fn above_children(m: BlockMap, h: HeldView, floor: int, n: nat) -> Seq<Seq<u8>>
    decreases h.node.level as nat, 0nat, n,
{
    if n == 0 || h.node.level <= floor + 1 {
        Seq::empty()
    } else {
        let s = tree::child_slot(m, h, n - 1);
        match s.opened {
            Err(_) => Seq::empty(),
            Ok(c) => if c.node.level < h.node.level {
                above(m, c, s.cid, floor) + above_children(m, h, floor, (n - 1) as nat)
            } else {
                Seq::empty()
            },
        }
    }
}

/// Ids of blocks a store holds.
pub open spec fn all_held(m: BlockMap, ids: Seq<Seq<u8>>) -> bool {
    forall|i: int| 0 <= i < ids.len() ==> m.contains_key(#[trigger] ids[i])
}

/// Two lists of ids.
proof fn lemma_held_join(m: BlockMap, a: Seq<Seq<u8>>, b: Seq<Seq<u8>>)
    requires
        all_held(m, a),
        all_held(m, b),
    ensures
        all_held(m, a + b),
{
    let c = a + b;
    assert forall|i: int| 0 <= i < c.len() implies m.contains_key(#[trigger] c[i]) by {
        if i < a.len() {
            assert(c[i] == a[i]);
        } else {
            assert(c[i] == b[i - a.len()]);
        }
    }
}

/// Every node above a level is held.
pub proof fn lemma_above_held(m: BlockMap, h: HeldView, cid: Seq<u8>, floor: int)
    requires
        m.contains_key(cid),
    ensures
        all_held(m, above(m, h, cid, floor)),
    decreases h.node.level as nat, 1nat, 0nat,
{
    if h.node.level > floor {
        lemma_above_children_held(m, h, floor, h.node.rows.len());
        lemma_held_join(m, seq![cid], above_children(m, h, floor, h.node.rows.len()));
    }
}

/// Every node above a level is held.
proof fn lemma_above_children_held(m: BlockMap, h: HeldView, floor: int, n: nat)
    ensures
        all_held(m, above_children(m, h, floor, n)),
    decreases h.node.level as nat, 0nat, n,
{
    if n > 0 && h.node.level > floor + 1 {
        let s = tree::child_slot(m, h, n - 1);
        if let Ok(c) = s.opened {
            if c.node.level < h.node.level {
                lemma_loaded_told(m, s.cid);
                lemma_above_held(m, c, s.cid, floor);
                lemma_above_children_held(m, h, floor, (n - 1) as nat);
                lemma_held_join(
                    m,
                    above(m, c, s.cid, floor),
                    above_children(m, h, floor, (n - 1) as nat),
                );
            }
        }
    }
}

/// Can one of these places not be opened, with this fault?
spec fn gap_in(slots: Seq<Slot>, f: Fault) -> bool {
    exists|j: int|
        0 <= j < slots.len() && (#[trigger] slots[j]).opened == Err::<HeldView, Fault>(f)
}

/// A place under a child that cannot be opened is one under the node.
proof fn lemma_gap_under(m: BlockMap, h: HeldView, floor: int, n: nat, i: int, j: int)
    requires
        h.node.level > 0,
        0 <= i < n <= h.node.rows.len(),
        0 <= j < tree::level_slots(m, tree::child_slot(m, h, i), floor).len(),
        tree::level_slots(m, tree::child_slot(m, h, i), floor)[j].opened is Err,
    ensures
        gap_in(
            tree::child_slots(m, h, floor, n),
            tree::level_slots(m, tree::child_slot(m, h, i), floor)[j].opened->Err_0,
        ),
    decreases n,
{
    let front = tree::child_slots(m, h, floor, (n - 1) as nat);
    let here = tree::level_slots(m, tree::child_slot(m, h, n - 1), floor);
    let f = tree::level_slots(m, tree::child_slot(m, h, i), floor)[j].opened->Err_0;
    let all = tree::child_slots(m, h, floor, n);
    assert(all == front + here);
    if i == n - 1 {
        assert(all[front.len() + j] == here[j]);
    } else {
        lemma_gap_under(m, h, floor, (n - 1) as nat, i, j);
        let k = choose|k: int|
            0 <= k < front.len() && (#[trigger] front[k]).opened == Err::<HeldView, Fault>(f);
        assert(all[k] == front[k]);
    }
}

/// Ids of every node above a level, under a node.
fn nodes_above_at<B: Blocks>(
    blocks: &B,
    node: &Held<'_>,
    id: &Cid,
    floor: u8,
    out: &mut Vec<Cid>,
) -> (r: Result<(), ReadError>)
    ensures
        match r {
            Ok(()) => node::cids_of(final(out)@) == node::cids_of(old(out)@) + above(
                blocks.held(),
                node@,
                id@,
                floor as int,
            ),
            Err(e) => node@.node.level > floor && told(blocks.held(), e@) && gap_in(
                tree::child_slots(
                    blocks.held(),
                    node@,
                    floor as int,
                    node@.node.rows.len(),
                ),
                e@,
            ),
        },
    decreases node@.node.level,
{
    let ghost m = blocks.held();
    let level = node.node().level();
    let ghost start = node::cids_of(out@);
    if level <= floor {
        assert(start + Seq::<Seq<u8>>::empty() =~= start);
        return Ok(());
    }
    out.push(*id);
    let ghost head = node::cids_of(out@);
    assert(head =~= start.push(id@));
    let len = node.node().len();
    if level - 1 <= floor {
        proof {
            assert(above_children(m, node@, floor as int, len as nat) =~= Seq::<Seq<u8>>::empty());
            assert(head =~= start + (seq![id@] + Seq::<Seq<u8>>::empty()));
        }
        return Ok(());
    }
    let mut kids: Vec<Held<'_>> = Vec::new();
    let mut i: usize = 0;
    while i < len
        invariant
            i <= len,
            len == node@.node.rows.len(),
            node@.node.level > floor + 1,
            m == blocks.held(),
            kids@.len() == i,
            forall|j: int|
                0 <= j < i ==> store::opened(m, node@, j) == Ok::<HeldView, Fault>(
                    (#[trigger] kids@[j])@,
                ),
        decreases len - i,
    {
        match node.open(blocks, i) {
            Err(e) => {
                proof {
                    lemma_loaded_told(m, store::child_cid(node@.node.rows[i as int]));
                    let s = tree::child_slot(m, node@, i as int);
                    assert(tree::level_slots(m, s, floor as int)[0].opened == Err::<
                        HeldView,
                        Fault,
                    >(e@));
                    lemma_gap_under(m, node@, floor as int, len as nat, i as int, 0);
                }
                return Err(e);
            },
            Ok(k) => kids.push(k),
        }
        i = i + 1;
    }
    let ghost all = above_children(m, node@, floor as int, len as nat);
    assert(head + all =~= start + (seq![id@] + all));
    assert(Seq::<Seq<u8>>::empty() + all =~= all);
    let ghost mut done: Seq<Seq<u8>> = Seq::empty();
    assert(head + done =~= head);
    while i > 0
        invariant
            i <= len,
            len == node@.node.rows.len(),
            len == kids@.len(),
            node@.node.level > floor + 1,
            m == blocks.held(),
            forall|j: int|
                0 <= j < len ==> store::opened(m, node@, j) == Ok::<HeldView, Fault>(
                    (#[trigger] kids@[j])@,
                ),
            node::cids_of(out@) == head + done,
            all == done + above_children(m, node@, floor as int, i as nat),
        decreases i,
    {
        i = i - 1;
        let (cid, _) = node.node().child(i);
        proof {
            let s = tree::child_slot(m, node@, i as int);
            assert(s.opened == Ok::<HeldView, Fault>(kids@[i as int]@));
            tree::lemma_child_sound(m, node@, i as int);
            reveal(tree::sound);
            assert(kids@[i as int]@.node.level == node@.node.level - 1);
        }
        match nodes_above_at(blocks, &kids[i], &cid, floor, out) {
            Err(e) => {
                proof {
                    let s = tree::child_slot(m, node@, i as int);
                    let under = tree::level_slots(m, s, floor as int);
                    let j = choose|j: int|
                        0 <= j < under.len() && (#[trigger] under[j]).opened == Err::<
                            HeldView,
                            Fault,
                        >(e@);
                    lemma_gap_under(m, node@, floor as int, len as nat, i as int, j);
                }
                return Err(e);
            },
            Ok(()) => {},
        }
        proof {
            let x = above(m, kids@[i as int]@, cid@, floor as int);
            let rest = above_children(m, node@, floor as int, i as nat);
            assert(done + (x + rest) =~= (done + x) + rest);
            assert(head + done + x =~= head + (done + x));
            done = done + x;
        }
    }
    proof {
        assert(above_children(m, node@, floor as int, 0) =~= Seq::<Seq<u8>>::empty());
        assert(all =~= done);
    }
    Ok(())
}

/// Ids of every node of the tree at `root` above `floor`.
fn nodes_above<B: Blocks>(blocks: &B, root: &Cid, floor: u8, out: &mut Vec<Cid>) -> (r: Result<
    (),
    ReadError,
>)
    requires
        store::loaded(blocks.held(), root@) is Ok,
        all_open(cursor::level_of(blocks.held(), root@, floor as int)),
    ensures
        r is Ok,
        node::cids_of(final(out)@) == node::cids_of(old(out)@) + above(
            blocks.held(),
            tree::root_slot(blocks.held(), root@).opened->Ok_0,
            root@,
            floor as int,
        ),
{
    match Held::root(blocks, root) {
        Err(e) => Err(e),
        Ok(h) => {
            assert(h@ == tree::root_slot(blocks.held(), root@).opened->Ok_0);
            let r = nodes_above_at(blocks, &h, root, floor, out);
            proof {
                if r is Err {
                    let e = r->Err_0;
                    let under = tree::child_slots(
                        blocks.held(),
                        h@,
                        floor as int,
                        h@.node.rows.len(),
                    );
                    let j = choose|j: int|
                        0 <= j < under.len() && (#[trigger] under[j]).opened == Err::<
                            HeldView,
                            Fault,
                        >(e@);
                    assert(under == cursor::level_of(blocks.held(), root@, floor as int));
                    assert(under[j].opened is Ok);
                }
            }
            r
        },
    }
}

/// Can every place be opened?
pub open spec fn all_open(a: Seq<Slot>) -> bool {
    forall|i: int| 0 <= i < a.len() ==> (#[trigger] a[i]).opened is Ok
}

/// Stretches without a gap between them leave no place unopened.
proof fn lemma_unbroken_open(
    a: Seq<Slot>,
    floor: u8,
    rule: Rule,
    ov: BlockMap,
    es: Seq<EditRow>,
    tr: Seq<Trace>,
    recheck: bool,
    k: int,
)
    requires
        traces_ok(a, floor, rule, ov, es, tr, recheck),
        unbroken(tr),
        0 <= k <= tr.len(),
    ensures
        forall|i: int| 0 <= i < resumed(tr, k) ==> (#[trigger] a[i]).opened is Ok,
    decreases k,
{
    if k > 0 {
        lemma_unbroken_open(a, floor, rule, ov, es, tr, recheck, k - 1);
        let t = tr[k - 1];
        assert(t.first == resumed(tr, k - 1));
        assert(run_ok(a, floor, rule, ov, es, t)) by {
            reveal(traces_ok);
            assert(trace_ok(a, floor, rule, ov, es, tr, k - 1, recheck));
        }
        reveal(run_ok);
    }
}

// ---------------------------------------------------------------------------
// level by level
// ---------------------------------------------------------------------------

/// A store with more blocks put into it.
pub open spec fn with_puts(m: BlockMap, puts: Seq<Put>) -> BlockMap
    decreases puts.len(),
{
    if puts.len() == 0 {
        m
    } else {
        with_puts(m, puts.drop_last()).insert(puts.last().id, puts.last().bytes)
    }
}

/// A level that was rewritten: its edits, the store they were applied over, and what
/// came of it.
#[verifier::ext_equal]
pub struct Floor {
    pub es: Seq<EditRow>,
    pub ov: BlockMap,
    pub tr: Seq<Trace>,
    pub nodes: Seq<NodeView>,
    /// The parity blocks coded for the nodes.
    pub coded: Seq<Seq<u8>>,
    pub whole: bool,
}

/// How tall the old tree is.
pub open spec fn old_height(m: BlockMap, root: Seq<u8>) -> u8 {
    store::loaded(m, root)->Ok_0.level
}

/// The old nodes of a level that were streamed.
pub open spec fn was_at(m: BlockMap, root: Seq<u8>, f: int, x: Floor) -> Seq<Slot> {
    traced_slots(cursor::level_of(m, root, f), x.tr, x.tr.len())
}

/// What holds of a level that was rewritten.
#[verifier::opaque]
pub open spec fn floor_ok(
    m: BlockMap,
    root: Seq<u8>,
    rule: Rule,
    recheck: bool,
    f: int,
    x: Floor,
) -> bool {
    let a = cursor::level_of(m, root, f);
    &&& 0 <= f <= 255
    &&& edits::sorted_edits(x.es)
    &&& if old_height(m, root) < f && x.es.len() > 0 {
        &&& raised(f as u8, rule, x.ov, x.es, x.nodes, x.coded)
        &&& x.tr.len() == 0
        &&& x.whole
    } else {
        &&& rewritten(m, root, f as u8, rule, x.ov, x.es, recheck, x.tr, x.nodes)
        &&& x.coded == traced_coded(x.tr, x.tr.len())
        &&& x.whole <==> x.es.len() > 0 && unbroken(x.tr) && resumed(x.tr, x.tr.len() as int)
            == a.len()
    }
}

/// Is the tree about to grow a level?
pub open spec fn grows_at(m: BlockMap, root: Seq<u8>, f: int, x: Floor) -> bool {
    f == old_height(m, root) && x.nodes.len() > 1
}

/// Are these the edits of the level above?
#[verifier::opaque]
pub open spec fn tells(m: BlockMap, root: Seq<u8>, f: int, x: Floor, es: Seq<EditRow>) -> bool {
    &&& edits::sorted_edits(es)
    &&& forall|k: Seq<u8>|
        #[trigger] edits::edit_at(es, k) == up_at(
            was_at(m, root, f, x),
            x.nodes,
            grows_at(m, root, f, x),
            k,
        )
}

/// Is this the level of the root?
pub open spec fn is_top(x: Floor) -> bool {
    x.whole && x.nodes.len() <= 1
}

/// Does each level take up what the one below says?
#[verifier::opaque]
pub open spec fn chain(
    m: BlockMap,
    root: Seq<u8>,
    rule: Rule,
    recheck: bool,
    es: Seq<EditRow>,
    ov: BlockMap,
    floors: Seq<Floor>,
) -> bool {
    &&& floors.len() > 0 ==> floors[0].es == es && floors[0].ov == ov
    &&& forall|f: int|
        0 <= f < floors.len() ==> floor_ok(m, root, rule, recheck, f, #[trigger] floors[f])
    &&& forall|f: int|
        #![trigger floors[f]]
        0 <= f && f + 1 < floors.len() ==> {
            &&& tells(m, root, f, floors[f], floors[f + 1].es)
            &&& floors[f + 1].es.len() > 0
            &&& floors[f + 1].ov == with_puts(floors[f].ov, build::blocks_of(floors[f].nodes))
            &&& !is_top(floors[f])
        }
}

/// Does nothing go up from the last level?
pub open spec fn chain_ends(m: BlockMap, root: Seq<u8>, floors: Seq<Floor>) -> bool {
    &&& floors.len() > 0
    &&& is_top(floors.last()) || tells(m, root, floors.len() - 1, floors.last(), Seq::empty())
}

/// The nodes of the first `n` levels.
pub open spec fn floor_nodes(floors: Seq<Floor>, n: nat) -> Seq<NodeView>
    decreases n,
{
    if n == 0 {
        Seq::empty()
    } else {
        floor_nodes(floors, (n - 1) as nat) + floors[n - 1].nodes
    }
}

/// The parity blocks coded on the first `n` levels.
pub open spec fn floor_coded(floors: Seq<Floor>, n: nat) -> Seq<Seq<u8>>
    decreases n,
{
    if n == 0 {
        Seq::empty()
    } else {
        floor_coded(floors, (n - 1) as nat) + floors[n - 1].coded
    }
}

/// Is this the id of a parity block that was coded for a closed node?
pub open spec fn was_coded(floors: Seq<Floor>, id: Seq<u8>) -> bool {
    let coded = floor_coded(floors, floors.len());
    exists|i: int|
        0 <= i < coded.len() && crate::spec_block_id(crate::kind::PARITY, #[trigger] coded[i])
            == id
}

/// Every node a change closed, the empty leaf where nothing is left among them.
pub open spec fn closed_nodes(floors: Seq<Floor>) -> Seq<NodeView> {
    let ns = floor_nodes(floors, floors.len());
    if floors.len() > 0 && is_top(floors.last()) && floors.last().nodes.len() == 0 {
        ns.push(chunk::empty_node())
    } else {
        ns
    }
}

/// The ids of the old nodes that were streamed on the first `n` levels.
pub open spec fn floor_olds(m: BlockMap, root: Seq<u8>, floors: Seq<Floor>, n: nat) -> Seq<
    Seq<u8>,
>
    decreases n,
{
    if n == 0 {
        Seq::empty()
    } else {
        floor_olds(m, root, floors, (n - 1) as nat) + slot_ids(
            was_at(m, root, n - 1, floors[n - 1]),
        )
    }
}

/// The ids of the old nodes a change goes through: those that were streamed, and where
/// the levels end at a new root those above it.
pub open spec fn old_nodes(m: BlockMap, root: Seq<u8>, floors: Seq<Floor>) -> Seq<Seq<u8>> {
    let ids = floor_olds(m, root, floors, floors.len());
    if floors.len() > 0 && is_top(floors.last()) {
        ids + above(m, tree::root_slot(m, root).opened->Ok_0, root, floors.len() - 1)
    } else {
        ids
    }
}

/// One more level leaves those below as they are.
proof fn lemma_floor_olds(m: BlockMap, root: Seq<u8>, floors: Seq<Floor>, x: Floor, n: nat)
    requires
        n <= floors.len(),
    ensures
        floor_olds(m, root, floors.push(x), n) == floor_olds(m, root, floors, n),
        n == floors.len() ==> floor_olds(m, root, floors.push(x), (n + 1) as nat) == floor_olds(
            m,
            root,
            floors,
            n,
        ) + slot_ids(was_at(m, root, n as int, x)),
    decreases n,
{
    if n > 0 {
        lemma_floor_olds(m, root, floors, x, (n - 1) as nat);
        assert(floors.push(x)[n - 1] == floors[n - 1]);
    }
    if n == floors.len() {
        let more = floors.push(x);
        let k = (n + 1) as nat;
        assert(more[n as int] == x);
        assert(floor_olds(m, root, more, k) == floor_olds(m, root, more, (k - 1) as nat)
            + slot_ids(was_at(m, root, k - 1, more[k - 1])));
        assert((k - 1) as nat == n);
    }
}

/// The root before single-child branches are taken off it.
pub open spec fn tip(root: Seq<u8>, floors: Seq<Floor>) -> Seq<u8> {
    let x = floors.last();
    if is_top(x) {
        if x.nodes.len() == 1 {
            chunk::node_id(x.nodes[0])
        } else {
            chunk::node_id(chunk::empty_node())
        }
    } else {
        root
    }
}

/// One more level.
proof fn lemma_chain_push(
    m: BlockMap,
    root: Seq<u8>,
    rule: Rule,
    recheck: bool,
    es: Seq<EditRow>,
    ov: BlockMap,
    floors: Seq<Floor>,
    x: Floor,
)
    requires
        chain(m, root, rule, recheck, es, ov, floors),
        floor_ok(m, root, rule, recheck, floors.len() as int, x),
        floors.len() == 0 ==> x.es == es && x.ov == ov,
        floors.len() > 0 ==> {
            let y = floors.last();
            &&& tells(m, root, floors.len() - 1, y, x.es)
            &&& x.es.len() > 0
            &&& x.ov == with_puts(y.ov, build::blocks_of(y.nodes))
            &&& !is_top(y)
        },
    ensures
        chain(m, root, rule, recheck, es, ov, floors.push(x)),
        floor_nodes(floors.push(x), floors.len() + 1) == floor_nodes(floors, floors.len())
            + x.nodes,
        floor_coded(floors.push(x), floors.len() + 1) == floor_coded(floors, floors.len())
            + x.coded,
{
    reveal(chain);
    let all = floors.push(x);
    let n = floors.len() as int;
    assert forall|f: int| 0 <= f < all.len() implies floor_ok(
        m,
        root,
        rule,
        recheck,
        f,
        #[trigger] all[f],
    ) by {
        if f < n {
            assert(all[f] == floors[f]);
        }
    }
    assert forall|f: int|
        #![trigger all[f]]
        0 <= f && f + 1 < all.len() implies {
            &&& tells(m, root, f, all[f], all[f + 1].es)
            &&& all[f + 1].es.len() > 0
            &&& all[f + 1].ov == with_puts(all[f].ov, build::blocks_of(all[f].nodes))
            &&& !is_top(all[f])
        } by {
        assert(all[f] == floors[f]);
        if f + 1 < n {
            assert(all[f + 1] == floors[f + 1]);
        }
    }
    if n > 0 {
        assert(all[0] == floors[0]);
    }
    lemma_floor_nodes(floors, all, floors.len());
}

/// The first levels of a longer list.
proof fn lemma_floor_nodes(a: Seq<Floor>, b: Seq<Floor>, n: nat)
    requires
        n <= a.len(),
        n <= b.len(),
        forall|i: int| 0 <= i < n ==> a[i] == b[i],
    ensures
        floor_nodes(a, n) == floor_nodes(b, n),
        floor_coded(a, n) == floor_coded(b, n),
    decreases n,
{
    if n > 0 {
        lemma_floor_nodes(a, b, (n - 1) as nat);
    }
}

/// How far a change got.
struct Progress {
    tip: Cid,
    new_nodes: Vec<Closed>,
    /// Every parity block coded anywhere in this rewrite. Not what is reported: a node
    /// closed at one level can still be dropped at the next.
    coded: Vec<(Cid, Vec<u8>)>,
    old_ids: Vec<Cid>,
    effective: Vec<bool>,
    floors: Ghost<Seq<Floor>>,
}

/// Put closed nodes where the next level can read them.
fn put_nodes<B: Blocks>(overlay: &mut Overlay<'_, B>, new: &Vec<Closed>, Ghost(nodes): Ghost<
    Seq<NodeView>,
>)
    requires
        chunk::are(new@, nodes),
    ensures
        final(overlay).held() == with_puts(old(overlay).held(), build::blocks_of(nodes)),
        covered(old(overlay).held(), final(overlay).held()),
{
    let ghost puts = build::blocks_of(nodes);
    let ghost start = overlay.held();
    let mut i: usize = 0;
    assert(puts.take(0) =~= Seq::<Put>::empty());
    while i < new.len()
        invariant
            i <= new@.len(),
            chunk::are(new@, nodes),
            puts == build::blocks_of(nodes),
            overlay.held() == with_puts(start, puts.take(i as int)),
            covered(start, overlay.held()),
        decreases new@.len() - i,
    {
        assert(new@[i as int].is(nodes[i as int]));
        overlay.put(new[i].cid, new[i].bytes.as_slice());
        proof {
            let next = puts.take(i + 1);
            assert(next.drop_last() =~= puts.take(i as int));
            assert(next.last() == puts[i as int]);
        }
        i = i + 1;
    }
    assert(puts.take(i as int) =~= puts);
}

/// The ids of old nodes, taken down.
fn note_old(old_ids: &mut Vec<Cid>, was: &Vec<OldNode>, Ghost(m): Ghost<BlockMap>, Ghost(
    slots,
): Ghost<Seq<Slot>>)
    requires
        olds(was@, slots),
        all_held(m, slot_ids(slots)),
        all_held(m, node::cids_of(old(old_ids)@)),
    ensures
        node::cids_of(final(old_ids)@) == node::cids_of(old(old_ids)@) + slot_ids(slots),
        all_held(m, node::cids_of(final(old_ids)@)),
{
    let ghost start = node::cids_of(old_ids@);
    let ghost ids = slot_ids(slots);
    let mut i: usize = 0;
    assert(start + ids.take(0) =~= start);
    while i < was.len()
        invariant
            i <= was@.len(),
            olds(was@, slots),
            ids == slot_ids(slots),
            node::cids_of(old_ids@) == start + ids.take(i as int),
        decreases was@.len() - i,
    {
        let ghost before = old_ids@;
        assert(was@[i as int].cid@ == slots[i as int].cid);
        old_ids.push(was[i].cid);
        proof {
            assert(ids[i as int] == was@[i as int].cid@);
            assert(node::cids_of(old_ids@) =~= node::cids_of(before).push(ids[i as int]));
            assert(ids.take(i + 1) =~= ids.take(i as int).push(ids[i as int]));
            assert(node::cids_of(old_ids@) =~= start + ids.take(i + 1));
        }
        i = i + 1;
    }
    proof {
        assert(ids.take(i as int) =~= ids);
        lemma_held_join(m, start, ids);
    }
}

/// The streamed places are held.
pub proof fn lemma_traced_held(
    m: BlockMap,
    root: Seq<u8>,
    floor: u8,
    rule: Rule,
    ov: BlockMap,
    es: Seq<EditRow>,
    tr: Seq<Trace>,
    recheck: bool,
    n: nat,
)
    requires
        traces_ok(cursor::level_of(m, root, floor as int), floor, rule, ov, es, tr, recheck),
        n <= tr.len(),
    ensures
        all_held(m, slot_ids(traced_slots(cursor::level_of(m, root, floor as int), tr, n))),
    decreases n,
{
    let a = cursor::level_of(m, root, floor as int);
    if n > 0 {
        lemma_traced_held(m, root, floor, rule, ov, es, tr, recheck, (n - 1) as nat);
        let t = tr[n - 1];
        let part = a.subrange(t.first, t.last + 1);
        assert(run_ok(a, floor, rule, ov, es, t)) by {
            reveal(traces_ok);
            assert(trace_ok(a, floor, rule, ov, es, tr, n - 1, recheck));
        }
        reveal(run_ok);
        assert forall|i: int| 0 <= i < slot_ids(part).len() implies m.contains_key(
            #[trigger] slot_ids(part)[i],
        ) by {
            let j = t.first + i;
            assert(part[i] == a[j]);
            assert(a[j].opened is Ok);
            lemma_loaded_told(m, root);
            lemma_slot_held(m, tree::root_slot(m, root), floor as int, j);
        }
        let front = traced_slots(a, tr, (n - 1) as nat);
        lemma_held_join(m, slot_ids(front), slot_ids(part));
        assert(slot_ids(front + part) =~= slot_ids(front) + slot_ids(part));
    }
}

/// A place that can be opened is held.
proof fn lemma_slot_held(m: BlockMap, s: Slot, floor: int, i: int)
    requires
        s.opened is Ok ==> m.contains_key(s.cid),
        0 <= i < tree::level_slots(m, s, floor).len(),
        tree::level_slots(m, s, floor)[i].opened is Ok,
    ensures
        m.contains_key(tree::level_slots(m, s, floor)[i].cid),
    decreases tree::height_of(s), 1nat, 0nat,
{
    match s.opened {
        Err(_) => {},
        Ok(h) => if h.node.level > floor {
            lemma_child_held(m, h, floor, h.node.rows.len(), i);
        },
    }
}

/// A place under the first children that can be opened is held.
proof fn lemma_child_held(m: BlockMap, h: HeldView, floor: int, n: nat, i: int)
    requires
        n <= h.node.rows.len(),
        0 <= i < tree::child_slots(m, h, floor, n).len(),
        tree::child_slots(m, h, floor, n)[i].opened is Ok,
    ensures
        m.contains_key(tree::child_slots(m, h, floor, n)[i].cid),
    decreases h.node.level as nat, 0nat, n,
{
    if n > 0 && h.node.level > 0 {
        let front = tree::child_slots(m, h, floor, (n - 1) as nat);
        if i < front.len() {
            lemma_child_held(m, h, floor, (n - 1) as nat, i);
        } else {
            let s = tree::child_slot(m, h, n - 1);
            lemma_loaded_told(m, s.cid);
            assert(s.opened is Ok ==> tree::height_of(s) < h.node.level) by {
                reveal(tree::sound);
                tree::lemma_child_sound(m, h, n - 1);
            }
            lemma_slot_held(m, s, floor, i - front.len());
        }
    }
}

/// Rewrite one level, and take down what came of it.
fn one_level<S: Blocks, B: Blocks, R: SplitRule + Copy>(
    blocks: &S,
    root: &Cid,
    floor: u8,
    edits: &Vec<LevelEdit>,
    overlay: &B,
    opts: Options<R>,
) -> (r: Result<(LevelResult, Ghost<Floor>), ApplyError>)
    requires
        edits::sorted_edits(edits_of(edits@)),
        covered(blocks.held(), overlay.held()),
        store::loaded(blocks.held(), root@) is Ok,
    ensures
        match r {
            Ok(y) => {
                let x = y.1@;
                let m = blocks.held();
                &&& floor_ok(
                    m,
                    root@,
                    chunk::rule_of(&opts.rule),
                    opts.recheck_neighbour,
                    floor as int,
                    x,
                )
                &&& x.es == edits_of(edits@)
                &&& x.ov == overlay.held()
                &&& x.whole == y.0.whole
                &&& chunk::are(y.0.new@, x.nodes)
                &&& olds(y.0.old@, was_at(m, root@, floor as int, x))
                &&& all_held(m, slot_ids(was_at(m, root@, floor as int, x)))
                &&& chunk::coded_ok(y.0.coded@)
                &&& chunk::coded_view(y.0.coded@) == x.coded
                &&& y.0.effective@.len() == edits@.len()
                &&& !(old_height(m, root@) < floor && edits@.len() > 0) ==> marked(
                    y.0.effective@,
                    cursor::level_of(m, root@, floor as int),
                    edits_of(edits@),
                    0,
                    edits@.len() as int,
                )
            },
            Err(e) => excused(blocks.held(), e) && halted(
                blocks.held(),
                root@,
                overlay.held(),
                floor,
                chunk::rule_of(&opts.rule),
                opts.recheck_neighbour,
                edits_of(edits@),
                e,
            ),
        },
{
    let ghost m = blocks.held();
    let ghost rule = chunk::rule_of(&opts.rule);
    let ghost recheck = opts.recheck_neighbour;
    match rewrite_level(blocks, root, floor, edits, overlay, opts) {
        Err(e) => Err(e),
        Ok(r) => {
            let ghost x = Floor {
                es: edits_of(edits@),
                ov: overlay.held(),
                tr: if old_height(m, root@) < floor && edits@.len() > 0 {
                    Seq::empty()
                } else {
                    r.trace@
                },
                nodes: r.nodes@,
                coded: chunk::coded_view(r.coded@),
                whole: r.whole,
            };
            proof {
                reveal(floor_ok);
                reveal(rewritten);
                if !(old_height(m, root@) < floor && edits@.len() > 0) {
                    lemma_traced_held(
                        m,
                        root@,
                        floor,
                        rule,
                        x.ov,
                        x.es,
                        x.tr,
                        recheck,
                        x.tr.len(),
                    );
                }
            }
            Ok((r, Ghost(x)))
        },
    }
}

/// The root, where a level that was streamed whole has one node or none.
fn take_top<S: Blocks>(
    blocks: &S,
    root: &Cid,
    floor: u8,
    new: &Vec<Closed>,
    new_nodes: &mut Vec<Closed>,
    old_ids: &mut Vec<Cid>,
    Ghost(nodes): Ghost<Seq<NodeView>>,
    Ghost(had): Ghost<Seq<NodeView>>,
) -> (r: Result<Cid, ApplyError>)
    requires
        store::loaded(blocks.held(), root@) is Ok,
        all_open(cursor::level_of(blocks.held(), root@, floor as int)),
        chunk::are(new@, nodes),
        nodes.len() <= 1,
        chunk::are(old(new_nodes)@, had),
        all_held(blocks.held(), node::cids_of(old(old_ids)@)),
    ensures
        match r {
            Ok(top) => {
                &&& all_held(blocks.held(), node::cids_of(final(old_ids)@))
                &&& node::cids_of(final(old_ids)@) == node::cids_of(old(old_ids)@) + above(
                    blocks.held(),
                    tree::root_slot(blocks.held(), root@).opened->Ok_0,
                    root@,
                    floor as int,
                )
                &&& if nodes.len() == 1 {
                    &&& top@ == chunk::node_id(nodes[0])
                    &&& chunk::are(final(new_nodes)@, had)
                } else {
                    &&& top@ == chunk::node_id(chunk::empty_node())
                    &&& chunk::are(final(new_nodes)@, had.push(chunk::empty_node()))
                }
            },
            Err(e) => false,
        },
{
    let ghost m = blocks.held();
    let ghost before = new_nodes@;
    let top = if new.len() == 1 {
        assert(new@[0].is(nodes[0]));
        new[0].cid
    } else {
        let leaf = empty_leaf();
        let cid = leaf.cid;
        new_nodes.push(leaf);
        proof {
            let all = had.push(chunk::empty_node());
            assert forall|i: int| 0 <= i < new_nodes@.len() implies (#[trigger] new_nodes@[i]).is(
                all[i],
            ) by {
                if i < before.len() {
                    assert(new_nodes@[i] == before[i]);
                    assert(before[i].is(had[i]));
                }
            }
        }
        cid
    };
    let ghost noted = node::cids_of(old_ids@);
    match nodes_above(blocks, root, floor, old_ids) {
        Err(e) => return Err(ApplyError::Read(e)),
        Ok(()) => {},
    }
    proof {
        lemma_loaded_told(m, root@);
        let h = tree::root_slot(m, root@).opened->Ok_0;
        lemma_above_held(m, h, root@, floor as int);
        lemma_held_join(m, noted, above(m, h, root@, floor as int));
    }
    Ok(top)
}

/// Are these the edits of the level after these, and the store they are applied over?
#[verifier::opaque]
pub open spec fn goes_on(
    m: BlockMap,
    root: Seq<u8>,
    es0: Seq<EditRow>,
    ov0: BlockMap,
    floors: Seq<Floor>,
    es: Seq<EditRow>,
    ov: BlockMap,
) -> bool {
    if floors.len() == 0 {
        es == es0 && ov == ov0
    } else {
        let y = floors.last();
        &&& !is_top(y)
        &&& tells(m, root, floors.len() - 1, y, es)
        &&& es.len() > 0
        &&& ov == with_puts(y.ov, build::blocks_of(y.nodes))
    }
}

/// Can the level after these, with these edits over this store, not be rewritten?
pub open spec fn halts_next(
    m: BlockMap,
    root: Seq<u8>,
    rule: Rule,
    recheck: bool,
    es0: Seq<EditRow>,
    ov0: BlockMap,
    floors: Seq<Floor>,
    es: Seq<EditRow>,
    ov: BlockMap,
    floor: u8,
    e: ApplyError,
) -> bool {
    &&& floors.len() == floor
    &&& goes_on(m, root, es0, ov0, floors, es, ov)
    &&& halted(m, root, ov, floor, rule, recheck, es, e)
}

/// Why the levels after these could not be rewritten: the next one could not, or there is
/// none left to number.
pub open spec fn stops_after(
    m: BlockMap,
    root: Seq<u8>,
    rule: Rule,
    recheck: bool,
    es0: Seq<EditRow>,
    ov0: BlockMap,
    floors: Seq<Floor>,
    e: ApplyError,
) -> bool {
    ||| exists|es: Seq<EditRow>, ov: BlockMap, floor: u8|
        #[trigger] halts_next(m, root, rule, recheck, es0, ov0, floors, es, ov, floor, e)
    ||| floors.len() == 256 && !is_top(floors.last()) && !tells(
        m,
        root,
        255,
        floors.last(),
        Seq::empty(),
    ) && e == ApplyError::Node(BuildError::Overflow)
}

/// Why the levels of a tree could not be rewritten.
#[verifier::opaque]
pub open spec fn stopped(
    m: BlockMap,
    root: Seq<u8>,
    rule: Rule,
    recheck: bool,
    es: Seq<EditRow>,
    ov: BlockMap,
    e: ApplyError,
) -> bool {
    exists|floors: Seq<Floor>|
        #[trigger] chain(m, root, rule, recheck, es, ov, floors) && stops_after(
            m,
            root,
            rule,
            recheck,
            es,
            ov,
            floors,
            e,
        )
}

/// The next level could not be rewritten.
proof fn lemma_stopped_next(
    m: BlockMap,
    root: Seq<u8>,
    rule: Rule,
    recheck: bool,
    es0: Seq<EditRow>,
    ov0: BlockMap,
    floors: Seq<Floor>,
    es: Seq<EditRow>,
    ov: BlockMap,
    floor: u8,
    e: ApplyError,
)
    requires
        chain(m, root, rule, recheck, es0, ov0, floors),
        floors.len() == floor,
        goes_on(m, root, es0, ov0, floors, es, ov),
        halted(m, root, ov, floor, rule, recheck, es, e),
    ensures
        stopped(m, root, rule, recheck, es0, ov0, e),
{
    assert(halts_next(m, root, rule, recheck, es0, ov0, floors, es, ov, floor, e));
    reveal(stopped);
    assert(stops_after(m, root, rule, recheck, es0, ov0, floors, e));
}

/// A level that was streamed whole can be read whole.
pub proof fn lemma_whole_open(m: BlockMap, root: Seq<u8>, rule: Rule, recheck: bool, f: int, x: Floor)
    requires
        floor_ok(m, root, rule, recheck, f, x),
        store::loaded(m, root) is Ok,
        x.whole,
    ensures
        all_open(cursor::level_of(m, root, f)),
{
    reveal(floor_ok);
    let a = cursor::level_of(m, root, f);
    if old_height(m, root) < f && x.es.len() > 0 {
        assert(a =~= seq![tree::root_slot(m, root)]);
    } else {
        reveal(rewritten);
        lemma_unbroken_open(a, f as u8, rule, x.ov, x.es, x.tr, recheck, x.tr.len() as int);
    }
}

/// There is no level left to number.
proof fn lemma_stopped_full(
    m: BlockMap,
    root: Seq<u8>,
    rule: Rule,
    recheck: bool,
    es0: Seq<EditRow>,
    ov0: BlockMap,
    floors: Seq<Floor>,
)
    requires
        chain(m, root, rule, recheck, es0, ov0, floors),
        floors.len() == 256,
        !is_top(floors.last()),
        !tells(m, root, 255, floors.last(), Seq::empty()),
    ensures
        stopped(m, root, rule, recheck, es0, ov0, ApplyError::Node(BuildError::Overflow)),
{
    reveal(stopped);
    assert(stops_after(
        m,
        root,
        rule,
        recheck,
        es0,
        ov0,
        floors,
        ApplyError::Node(BuildError::Overflow),
    ));
}

/// Rewrite level by level, until nothing goes up.
#[verifier::rlimit(100)]
#[verifier::spinoff_prover]
fn run_levels<S: Blocks, R: SplitRule + Copy>(
    opts: Options<R>,
    blocks: &S,
    root: &Cid,
    leaf_edits: Vec<LevelEdit>,
    overlay: &mut Overlay<'_, S>,
) -> (r: Result<Progress, ApplyError>)
    requires
        edits::sorted_edits(edits_of(leaf_edits@)),
        covered(blocks.held(), old(overlay).held()),
        store::loaded(blocks.held(), root@) is Ok,
    ensures
        match r {
            Ok(p) => {
                let m = blocks.held();
                &&& chain(
                    m,
                    root@,
                    chunk::rule_of(&opts.rule),
                    opts.recheck_neighbour,
                    edits_of(leaf_edits@),
                    old(overlay).held(),
                    p.floors@,
                )
                &&& chain_ends(m, root@, p.floors@)
                &&& p.tip@ == tip(root@, p.floors@)
                &&& chunk::are(p.new_nodes@, closed_nodes(p.floors@))
                &&& chunk::coded_ok(p.coded@)
                &&& chunk::coded_view(p.coded@) == floor_coded(p.floors@, p.floors@.len())
                &&& all_held(m, node::cids_of(p.old_ids@))
                &&& node::cids_of(p.old_ids@) == old_nodes(m, root@, p.floors@)
                &&& p.effective@.len() == leaf_edits@.len()
                &&& marked(
                    p.effective@,
                    cursor::level_of(m, root@, 0),
                    edits_of(leaf_edits@),
                    0,
                    leaf_edits@.len() as int,
                )
            },
            Err(e) => excused(blocks.held(), e) && stopped(
                blocks.held(),
                root@,
                chunk::rule_of(&opts.rule),
                opts.recheck_neighbour,
                edits_of(leaf_edits@),
                old(overlay).held(),
                e,
            ),
        },
{
    let ghost m = blocks.held();
    let ghost rule = chunk::rule_of(&opts.rule);
    let ghost recheck = opts.recheck_neighbour;
    let ghost es0 = edits_of(leaf_edits@);
    let ghost ov0 = overlay.held();
    let ghost mut floors: Seq<Floor> = Seq::empty();
    let count = leaf_edits.len();
    let old_root_level = match store::load(blocks, root) {
        Err(e) => {
            assert(false);
            return Err(ApplyError::Read(e));
        },
        Ok(n) => n.level(),
    };
    let mut level = leaf_edits;
    let mut new_nodes: Vec<Closed> = Vec::new();
    let mut coded: Vec<(Cid, Vec<u8>)> = Vec::new();
    let mut old_ids: Vec<Cid> = Vec::new();
    let mut effective: Vec<bool> = unset(count);
    let mut floor: u8 = 0;
    proof {
        assert(chain(m, root@, rule, recheck, es0, ov0, floors)) by {
            reveal(chain);
        }
        assert(node::cids_of(old_ids@) =~= Seq::<Seq<u8>>::empty());
        assert(chunk::coded_view(coded@) =~= Seq::<Seq<u8>>::empty());
    }
    loop
        invariant
            m == blocks.held(),
            rule == chunk::rule_of(&opts.rule),
            recheck == opts.recheck_neighbour,
            store::loaded(m, root@) is Ok,
            old_root_level == old_height(m, root@),
            covered(m, overlay.held()),
            count == effective@.len(),
            floor > 0 ==> marked(
                effective@,
                cursor::level_of(m, root@, 0),
                es0,
                0,
                es0.len() as int,
            ),
            count == es0.len(),
            es0 == edits_of(leaf_edits@),
            ov0 == old(overlay).held(),
            floors.len() == floor,
            edits::sorted_edits(edits_of(level@)),
            chain(m, root@, rule, recheck, es0, ov0, floors),
            floor == 0 ==> edits_of(level@) == es0 && overlay.held() == ov0,
            floor > 0 ==> {
                let y = floors.last();
                &&& tells(m, root@, floor - 1, y, edits_of(level@))
                &&& level@.len() > 0
                &&& overlay.held() == with_puts(y.ov, build::blocks_of(y.nodes))
                &&& !is_top(y)
            },
            chunk::are(new_nodes@, floor_nodes(floors, floors.len())),
            chunk::coded_ok(coded@),
            chunk::coded_view(coded@) == floor_coded(floors, floors.len()),
            all_held(m, node::cids_of(old_ids@)),
            node::cids_of(old_ids@) == floor_olds(m, root@, floors, floors.len()),
        decreases 256 - floor,
    {
        let (mut r, found) = match one_level(blocks, root, floor, &level, overlay, opts) {
            Err(e) => {
                proof {
                    assert(goes_on(
                        m,
                        root@,
                        es0,
                        ov0,
                        floors,
                        edits_of(level@),
                        overlay.held(),
                    )) by {
                        reveal(goes_on);
                    }
                    lemma_stopped_next(
                        m,
                        root@,
                        rule,
                        recheck,
                        es0,
                        ov0,
                        floors,
                        edits_of(level@),
                        overlay.held(),
                        floor,
                        e,
                    );
                }
                return Err(e);
            },
            Ok(y) => y,
        };
        let ghost x = found@;
        let ghost slots = was_at(m, root@, floor as int, x);
        let ghost had = floor_nodes(floors, floors.len());
        proof {
            lemma_chain_push(m, root@, rule, recheck, es0, ov0, floors, x);
            lemma_floor_olds(m, root@, floors, x, floors.len());
            floors = floors.push(x);
            assert(floors.last() == x);
        }
        if floor == 0 {
            effective = r.effective;
        }
        note_old(&mut old_ids, &r.old, Ghost(m), Ghost(slots));
        append_coded(&mut coded, &mut r.coded);
        let n_new = r.new.len();
        if r.whole && n_new <= 1 {
            proof {
                lemma_whole_open(m, root@, rule, recheck, floor as int, x);
            }
            // The lowest level with exactly one node is the root.
            let top = match take_top(
                blocks,
                root,
                floor,
                &r.new,
                &mut new_nodes,
                &mut old_ids,
                Ghost(x.nodes),
                Ghost(had),
            ) {
                Err(e) => return Err(e),
                Ok(top) => top,
            };
            let ghost before = if n_new == 1 {
                had
            } else {
                had.push(chunk::empty_node())
            };
            append_closed(&mut new_nodes, &mut r.new, Ghost(before), Ghost(x.nodes));
            proof {
                if n_new == 1 {
                    assert(closed_nodes(floors) =~= before + x.nodes);
                } else {
                    assert(x.nodes =~= Seq::<NodeView>::empty());
                    assert(had + x.nodes =~= had);
                    assert(closed_nodes(floors) =~= before + x.nodes);
                }
            }
            return Ok(
                Progress {
                    tip: top,
                    new_nodes,
                    coded,
                    old_ids,
                    effective,
                    floors: Ghost(floors),
                },
            );
        }
        let growing = floor == old_root_level && n_new > 1;
        let up = send_up(&r.old, &r.new, growing, Ghost(slots), Ghost(x.nodes));
        assert(tells(m, root@, floor as int, x, edits_of(up@))) by {
            reveal(tells);
        }
        if up.len() > 0 && floor < 255 {
            put_nodes(overlay, &r.new, Ghost(x.nodes));
        }
        append_closed(&mut new_nodes, &mut r.new, Ghost(had), Ghost(x.nodes));
        if up.len() == 0 {
            assert(edits_of(up@) =~= Seq::<EditRow>::empty());
            assert(old_nodes(m, root@, floors) =~= floor_olds(m, root@, floors, floors.len()));
            return Ok(
                Progress {
                    tip: *root,
                    new_nodes,
                    coded,
                    old_ids,
                    effective,
                    floors: Ghost(floors),
                },
            );
        }
        if floor == 255 {
            proof {
                lemma_still_told(m, root@, 255, x, edits_of(up@));
                lemma_stopped_full(m, root@, rule, recheck, es0, ov0, floors);
            }
            return Err(ApplyError::Node(BuildError::Overflow));
        }
        level = up;
        floor = floor + 1;
    }
}

/// A level that is told something is not told nothing.
proof fn lemma_still_told(m: BlockMap, root: Seq<u8>, f: int, x: Floor, es: Seq<EditRow>)
    requires
        tells(m, root, f, x, es),
        es.len() > 0,
    ensures
        !tells(m, root, f, x, Seq::empty()),
{
    reveal(tells);
    let k = es[0].key;
    edits::lemma_edit_is(es, 0);
    if tells(m, root, f, x, Seq::empty()) {
        assert(edits::edit_at(Seq::empty(), k) == edits::edit_at(es, k));
    }
}

/// Closed nodes, and more of them.
fn append_closed(
    all: &mut Vec<Closed>,
    more: &mut Vec<Closed>,
    Ghost(a): Ghost<Seq<NodeView>>,
    Ghost(b): Ghost<Seq<NodeView>>,
)
    requires
        chunk::are(old(all)@, a),
        chunk::are(old(more)@, b),
    ensures
        chunk::are(final(all)@, a + b),
{
    let ghost x = all@;
    let ghost y = more@;
    all.append(more);
    proof {
        let c = a + b;
        assert forall|i: int| 0 <= i < all@.len() implies (#[trigger] all@[i]).is(c[i]) by {
            if i < x.len() {
                assert(all@[i] == x[i]);
                assert(x[i].is(a[i]));
            } else {
                assert(all@[i] == y[i - x.len()]);
                assert(y[i - x.len()].is(b[i - x.len()]));
            }
        }
    }
}

// ---------------------------------------------------------------------------
// the root
// ---------------------------------------------------------------------------

/// The only child of a branch that has one.
pub open spec fn lone(w: BlockMap, id: Seq<u8>) -> Option<Seq<u8>> {
    match store::loaded(w, id) {
        Ok(n) => if n.level > 0 && n.rows.len() == 1 {
            Some(store::child_cid(n.rows[0]))
        } else {
            None
        },
        Err(_) => None,
    }
}

/// Does an id of a path lead to the next as its only child?
pub open spec fn slides_at(w: BlockMap, path: Seq<Seq<u8>>, i: int) -> bool {
    lone(w, path[i]) == Some(path[i + 1])
}

/// Does each id of a path lead to the next as its only child?
pub open spec fn slides(w: BlockMap, path: Seq<Seq<u8>>) -> bool {
    forall|i: int| 0 <= i && i + 1 < path.len() ==> #[trigger] slides_at(w, path, i)
}

/// Does a store hold the old blocks and the nodes a change closed?
pub open spec fn holds_all(w: BlockMap, m: BlockMap, made: Seq<NodeView>) -> bool {
    m.submap_of(w) && build::agrees(w, build::blocks_of(made))
}

/// Is the path right wherever the blocks are held?
#[verifier::opaque]
pub open spec fn slides_in(m: BlockMap, made: Seq<NodeView>, path: Seq<Seq<u8>>) -> bool {
    forall|w: BlockMap| #[trigger] holds_all(w, m, made) ==> slides(w, path)
}

/// The nodes without those of an id.
pub open spec fn without(nodes: Seq<NodeView>, id: Seq<u8>) -> Seq<NodeView>
    decreases nodes.len(),
{
    if nodes.len() == 0 {
        Seq::empty()
    } else if chunk::node_id(nodes.last()) == id {
        without(nodes.drop_last(), id)
    } else {
        without(nodes.drop_last(), id).push(nodes.last())
    }
}

/// Which nodes those are.
proof fn lemma_without(nodes: Seq<NodeView>, id: Seq<u8>)
    ensures
        forall|n: NodeView|
            #[trigger] without(nodes, id).contains(n) <==> nodes.contains(n) && chunk::node_id(n)
                != id,
    decreases nodes.len(),
{
    if nodes.len() > 0 {
        let front = nodes.drop_last();
        lemma_without(front, id);
        let got = without(front, id);
        assert forall|n: NodeView|
            #[trigger] without(nodes, id).contains(n) <==> nodes.contains(n) && chunk::node_id(n)
                != id by {
            assert(nodes.contains(n) <==> front.contains(n) || n == nodes.last()) by {
                if nodes.contains(n) {
                    let i = choose|i: int| 0 <= i < nodes.len() && nodes[i] == n;
                    if i < front.len() {
                        assert(front[i] == n);
                    }
                }
                if front.contains(n) {
                    let i = choose|i: int| 0 <= i < front.len() && front[i] == n;
                    assert(nodes[i] == n);
                }
                assert(nodes[nodes.len() - 1] == nodes.last());
            }
            let last = got.push(nodes.last());
            assert(last.contains(n) <==> got.contains(n) || n == nodes.last()) by {
                if last.contains(n) {
                    let i = choose|i: int| 0 <= i < last.len() && last[i] == n;
                    if i < got.len() {
                        assert(got[i] == n);
                    }
                }
                if got.contains(n) {
                    let i = choose|i: int| 0 <= i < got.len() && got[i] == n;
                    assert(last[i] == n);
                }
                assert(last[got.len() as int] == nodes.last());
            }
        }
    }
}

/// Take the nodes of an id out.
fn remove_closed(all: Vec<Closed>, id: &Cid, Ghost(nodes): Ghost<Seq<NodeView>>) -> (r: Vec<Closed>)
    requires
        chunk::are(all@, nodes),
    ensures
        chunk::are(r@, without(nodes, id@)),
{
    let mut all = all;
    let mut out: Vec<Closed> = Vec::new();
    let mut i: usize = 0;
    let n = all.len();
    assert(nodes.take(0) =~= Seq::<NodeView>::empty());
    while i < n
        invariant
            i <= n,
            n == all@.len(),
            n == nodes.len(),
            forall|j: int| i <= j < n ==> (#[trigger] all@[j]).is(nodes[j]),
            chunk::are(out@, without(nodes.take(i as int), id@)),
        decreases n - i,
    {
        let ghost front = without(nodes.take(i as int), id@);
        let ghost was = out@;
        assert(all@[i as int].is(nodes[i as int]));
        proof {
            let t = nodes.take(i + 1);
            assert(t.drop_last() =~= nodes.take(i as int));
            assert(t.last() == nodes[i as int]);
        }
        if !order::same(all[i].cid.as_slice(), id.as_slice()) {
            let mut c = Closed {
                min_key: Vec::new(),
                cid: all[i].cid,
                agg: all[i].agg,
                bytes: Vec::new(),
            };
            let ghost moved = all@[i as int];
            std::mem::swap(&mut c, &mut all[i]);
            assert(c == moved);
            out.push(c);
            proof {
                let next = front.push(nodes[i as int]);
                assert forall|j: int| 0 <= j < out@.len() implies (#[trigger] out@[j]).is(next[j]) by {
                    if j < was.len() {
                        assert(out@[j] == was[j]);
                        assert(was[j].is(front[j]));
                    }
                }
            }
        }
        i = i + 1;
    }
    assert(nodes.take(i as int) =~= nodes);
    out
}

/// Where a closed node of this id is.
fn find_closed(all: &Vec<Closed>, id: &Cid, Ghost(nodes): Ghost<Seq<NodeView>>) -> (r: Option<usize>)
    requires
        chunk::are(all@, nodes),
    ensures
        match r {
            Some(i) => i < all@.len() && chunk::node_id(nodes[i as int]) == id@,
            None => !node_ids(nodes).contains(id@),
        },
{
    let mut i: usize = 0;
    while i < all.len()
        invariant
            i <= all@.len(),
            chunk::are(all@, nodes),
            forall|j: int| 0 <= j < i ==> #[trigger] node_ids(nodes)[j] != id@,
        decreases all@.len() - i,
    {
        assert(all@[i as int].is(nodes[i as int]));
        if order::same(all[i].cid.as_slice(), id.as_slice()) {
            return Some(i);
        }
        i = i + 1;
    }
    None
}

/// What a held block loads as.
proof fn lemma_loaded_in(w: BlockMap, m: BlockMap, made: Seq<NodeView>, id: Seq<u8>)
    requires
        holds_all(w, m, made),
    ensures
        m.contains_key(id) ==> store::loaded(w, id) == store::loaded(m, id),
        forall|n: NodeView|
            #[trigger] made.contains(n) && n.valid() && chunk::node_id(n) == id
                ==> store::loaded(w, id) == Ok::<NodeView, Fault>(n),
{
    reveal(store::loaded);
    if m.contains_key(id) {
        assert(m.dom().contains(id));
        assert(w.dom().contains(id));
    }
    assert forall|n: NodeView| #[trigger]
        made.contains(n) && n.valid() && chunk::node_id(n) == id implies store::loaded(w, id)
        == Ok::<NodeView, Fault>(n) by {
        let i = choose|i: int| 0 <= i < made.len() && made[i] == n;
        assert(build::blocks_of(made)[i] == build::block_of(n));
        crate::canon::law_the_encoding_parses(n);
    }
}

/// One more step of a path.
proof fn lemma_slides_push(m: BlockMap, made: Seq<NodeView>, path: Seq<Seq<u8>>, next: Seq<u8>)
    requires
        path.len() > 0,
        slides_in(m, made, path),
        forall|w: BlockMap| #[trigger] holds_all(w, m, made) ==> lone(w, path.last()) == Some(next),
    ensures
        slides_in(m, made, path.push(next)),
{
    reveal(slides_in);
    let all = path.push(next);
    assert forall|w: BlockMap| #[trigger] holds_all(w, m, made) implies slides(w, all) by {
        assert(slides(w, path));
        assert forall|i: int| 0 <= i && i + 1 < all.len() implies #[trigger] slides_at(w, all, i) by {
            assert(all[i] == path[i]);
            if i + 1 < path.len() {
                assert(slides_at(w, path, i));
                assert(all[i + 1] == path[i + 1]);
            }
        }
    }
}

/// The nodes without those of some ids.
pub open spec fn off(nodes: Seq<NodeView>, ids: Seq<Seq<u8>>) -> Seq<NodeView>
    decreases nodes.len(),
{
    if nodes.len() == 0 {
        Seq::empty()
    } else if ids.contains(chunk::node_id(nodes.last())) {
        off(nodes.drop_last(), ids)
    } else {
        off(nodes.drop_last(), ids).push(nodes.last())
    }
}

/// Without none they are all there.
proof fn lemma_off_none(nodes: Seq<NodeView>)
    ensures
        off(nodes, Seq::empty()) == nodes,
    decreases nodes.len(),
{
    if nodes.len() > 0 {
        lemma_off_none(nodes.drop_last());
        assert(nodes.drop_last().push(nodes.last()) =~= nodes);
    }
}

/// One more id.
proof fn lemma_off_push(nodes: Seq<NodeView>, ids: Seq<Seq<u8>>, id: Seq<u8>)
    ensures
        off(nodes, ids.push(id)) == without(off(nodes, ids), id),
    decreases nodes.len(),
{
    if nodes.len() > 0 {
        let front = nodes.drop_last();
        let x = chunk::node_id(nodes.last());
        lemma_off_push(front, ids, id);
        lemma_grown_ids(ids, id);
        if !ids.contains(x) {
            assert(off(front, ids).push(nodes.last()).drop_last() =~= off(front, ids));
        }
    }
}

/// An id that no node has.
proof fn lemma_without_none(nodes: Seq<NodeView>, id: Seq<u8>)
    requires
        !node_ids(nodes).contains(id),
    ensures
        without(nodes, id) == nodes,
    decreases nodes.len(),
{
    if nodes.len() > 0 {
        let front = nodes.drop_last();
        assert(node_ids(nodes)[nodes.len() - 1] == chunk::node_id(nodes.last()));
        assert(!node_ids(front).contains(id)) by {
            if node_ids(front).contains(id) {
                let i = choose|i: int| 0 <= i < node_ids(front).len() && node_ids(front)[i] == id;
                assert(node_ids(nodes)[i] == id);
            }
        }
        lemma_without_none(front, id);
        assert(front.push(nodes.last()) =~= nodes);
    }
}

/// What became of the nodes when single-child branches were taken off.
#[verifier::opaque]
pub open spec fn pruned(made: Seq<NodeView>, path: Seq<Seq<u8>>, kept: Seq<NodeView>) -> bool {
    &&& kept == off(made, path.drop_last())
    &&& forall|n: NodeView|
        #[trigger] kept.contains(n) <==> made.contains(n) && !path.drop_last().contains(
            chunk::node_id(n),
        )
}

/// Was the branch at step `i` of a path taken off the root an old one: no closed node
/// that was still kept?
pub open spec fn fell_at(made: Seq<NodeView>, path: Seq<Seq<u8>>, i: int) -> bool {
    !node_ids(made).contains(path[i]) || path.take(i).contains(path[i])
}

/// Is this the id of an old branch that was taken off the root?
pub open spec fn fell(made: Seq<NodeView>, path: Seq<Seq<u8>>, id: Seq<u8>) -> bool {
    exists|i: int| 0 <= i < path.len() - 1 && path[i] == id && #[trigger] fell_at(made, path, i)
}

/// The old branches among the first `n` steps of a path, in order.
pub open spec fn fallen(made: Seq<NodeView>, path: Seq<Seq<u8>>, n: nat) -> Seq<Seq<u8>>
    decreases n,
{
    if n == 0 {
        Seq::empty()
    } else if fell_at(made, path, n - 1) {
        fallen(made, path, (n - 1) as nat).push(path[n - 1])
    } else {
        fallen(made, path, (n - 1) as nat)
    }
}

/// They do not depend on the steps after.
proof fn lemma_fallen_push(made: Seq<NodeView>, path: Seq<Seq<u8>>, next: Seq<u8>, n: nat)
    requires
        n <= path.len(),
    ensures
        fallen(made, path.push(next), n) == fallen(made, path, n),
    decreases n,
{
    if n > 0 {
        lemma_fallen_push(made, path, next, (n - 1) as nat);
        assert(path.push(next).take(n - 1) =~= path.take(n - 1));
    }
}

/// Are some ids those there were, and those of the old branches taken off?
#[verifier::opaque]
spec fn gathered(
    now: Seq<Seq<u8>>,
    was: Seq<Seq<u8>>,
    made: Seq<NodeView>,
    path: Seq<Seq<u8>>,
) -> bool {
    &&& now == was + fallen(made, path, (path.len() - 1) as nat)
    &&& forall|id: Seq<u8>|
        #[trigger] now.contains(id) <==> was.contains(id) || fell(made, path, id)
}

/// One more step of a path, noted.
proof fn lemma_gathered_push(
    now: Seq<Seq<u8>>,
    was: Seq<Seq<u8>>,
    made: Seq<NodeView>,
    path: Seq<Seq<u8>>,
    kept: Seq<NodeView>,
    next: Seq<u8>,
    found: bool,
)
    requires
        gathered(now, was, made, path),
        path.len() > 0,
        pruned(made, path, kept),
        found ==> exists|n: NodeView| #[trigger] kept.contains(n) && chunk::node_id(n) == path.last(),
        !found ==> !node_ids(kept).contains(path.last()),
    ensures
        found ==> gathered(now, was, made, path.push(next)),
        !found ==> gathered(now.push(path.last()), was, made, path.push(next)),
{
    reveal(gathered);
    lemma_fell_push(made, path, kept, next, found);
    lemma_grown_ids(now, path.last());
    let after = if found {
        now
    } else {
        now.push(path.last())
    };
    assert(after == was + fallen(made, path.push(next), path.len())) by {
        let f = fallen(made, path, (path.len() - 1) as nat);
        assert((was + f).push(path.last()) =~= was + f.push(path.last()));
    }
    assert forall|id: Seq<u8>|
        #[trigger] after.contains(id) <==> was.contains(id) || fell(made, path.push(next), id) by {
        assert(now.contains(id) <==> was.contains(id) || fell(made, path, id));
    }
}

/// One more step of a path.
proof fn lemma_fell_push(
    made: Seq<NodeView>,
    path: Seq<Seq<u8>>,
    kept: Seq<NodeView>,
    next: Seq<u8>,
    found: bool,
)
    requires
        path.len() > 0,
        pruned(made, path, kept),
        found ==> exists|n: NodeView| #[trigger] kept.contains(n) && chunk::node_id(n) == path.last(),
        !found ==> !node_ids(kept).contains(path.last()),
    ensures
        forall|id: Seq<u8>|
            #[trigger] fell(made, path.push(next), id) <==> fell(made, path, id) || (!found && id
                == path.last()),
        found ==> fallen(made, path.push(next), path.len()) == fallen(
            made,
            path,
            (path.len() - 1) as nat,
        ),
        !found ==> fallen(made, path.push(next), path.len()) == fallen(
            made,
            path,
            (path.len() - 1) as nat,
        ).push(path.last()),
{
    reveal(pruned);
    lemma_fallen_push(made, path, next, (path.len() - 1) as nat);
    let all = path.push(next);
    let k = path.len() - 1;
    assert(all.take(k) =~= path.drop_last());
    assert(fell_at(made, all, k) == !found) by {
        if found {
            let n = choose|n: NodeView| #[trigger] kept.contains(n) && chunk::node_id(n) == path.last();
            assert(made.contains(n) && !path.drop_last().contains(path.last()));
            let j = choose|j: int| 0 <= j < made.len() && made[j] == n;
            assert(node_ids(made)[j] == path.last());
        } else if node_ids(made).contains(path.last()) && !path.drop_last().contains(path.last()) {
            let j = choose|j: int| 0 <= j < made.len() && node_ids(made)[j] == path.last();
            let n = made[j];
            assert(made.contains(n));
            assert(kept.contains(n));
            let q = choose|q: int| 0 <= q < kept.len() && kept[q] == n;
            assert(node_ids(kept)[q] == path.last());
        }
    }
    assert forall|i: int| 0 <= i < k implies fell_at(made, all, i) == #[trigger] fell_at(
        made,
        path,
        i,
    ) by {
        assert(all.take(i) =~= path.take(i));
    }
    assert forall|id: Seq<u8>|
        #[trigger] fell(made, all, id) <==> fell(made, path, id) || (!found && id == path.last()) by {
        if fell(made, all, id) {
            let i = choose|i: int|
                0 <= i < all.len() - 1 && all[i] == id && #[trigger] fell_at(made, all, i);
            if i < k {
                assert(fell_at(made, path, i));
            }
        }
        if fell(made, path, id) {
            let i = choose|i: int|
                0 <= i < path.len() - 1 && path[i] == id && #[trigger] fell_at(made, path, i);
            assert(all[i] == id && fell_at(made, all, i));
        }
        if !found && id == path.last() {
            assert(all[k] == id && fell_at(made, all, k));
        }
    }
}

/// Is an id the id of no closed node, but of those taken off the root?
pub open spec fn unmade(made: Seq<NodeView>, path: Seq<Seq<u8>>) -> bool {
    forall|n: NodeView| #[trigger]
        off(made, path.drop_last()).contains(n) ==> chunk::node_id(n) != path.last()
}

/// Was a step of a path found: among the closed nodes that are still kept, or in the
/// store?
pub open spec fn found_at(m: BlockMap, made: Seq<NodeView>, path: Seq<Seq<u8>>, i: int) -> bool {
    !unmade(made, path.take(i + 1)) || store::loaded(m, path[i]) is Ok
}

/// Were the first `n` steps of a path found?
#[verifier::opaque]
pub open spec fn walked(m: BlockMap, made: Seq<NodeView>, path: Seq<Seq<u8>>, n: int) -> bool {
    forall|i: int| 0 <= i < n ==> #[trigger] found_at(m, made, path, i)
}

/// One more step of a path that was found.
proof fn lemma_walked(
    m: BlockMap,
    made: Seq<NodeView>,
    path: Seq<Seq<u8>>,
    kept: Seq<NodeView>,
    next: Seq<u8>,
)
    requires
        path.len() > 0,
        pruned(made, path, kept),
        walked(m, made, path, path.len() - 1),
        (exists|n: NodeView| #[trigger] kept.contains(n) && chunk::node_id(n) == path.last())
            || store::loaded(m, path.last()) is Ok,
    ensures
        walked(m, made, path, path.len() as int),
        walked(m, made, path.push(next), path.len() as int),
{
    reveal(walked);
    reveal(pruned);
    let k = path.len() - 1;
    assert(path.take(k + 1) =~= path);
    assert(found_at(m, made, path, k));
    let all = path.push(next);
    assert forall|i: int| 0 <= i < path.len() implies #[trigger] found_at(m, made, all, i) by {
        assert(all.take(i + 1) =~= path.take(i + 1));
        assert(found_at(m, made, path, i));
    }
}

/// Why a root could not be settled: below single-child branches stands a block that was
/// not closed and cannot be loaded, or they never end.
#[verifier::opaque]
pub open spec fn lost(m: BlockMap, made: Seq<NodeView>, tip: Seq<u8>, e: ApplyError) -> bool {
    exists|path: Seq<Seq<u8>>|
        path.len() > 0 && path[0] == tip && #[trigger] slides_in(m, made, path) && walked(
            m,
            made,
            path,
            path.len() - 1,
        ) && match e {
            ApplyError::Read(x) => store::loaded(m, path.last()) == Err::<NodeView, Fault>(x@)
                && unmade(made, path) && path.len() <= u64::MAX,
            ApplyError::Node(b) => b == BuildError::Overflow && path.len() > u64::MAX,
            _ => false,
        }
}

/// A block below single-child branches that was not closed and cannot be loaded.
#[verifier::rlimit(60)]
#[verifier::spinoff_prover]
proof fn lemma_lost(
    m: BlockMap,
    made: Seq<NodeView>,
    path: Seq<Seq<u8>>,
    kept: Seq<NodeView>,
    x: ReadError,
)
    requires
        path.len() > 0,
        slides_in(m, made, path),
        pruned(made, path, kept),
        store::loaded(m, path.last()) == Err::<NodeView, Fault>(x@),
        !node_ids(kept).contains(path.last()),
        walked(m, made, path, path.len() - 1),
        path.len() <= u64::MAX,
    ensures
        lost(m, made, path[0], ApplyError::Read(x)),
{
    reveal(lost);
    reveal(pruned);
    assert forall|n: NodeView| #[trigger]
        off(made, path.drop_last()).contains(n) implies chunk::node_id(n) != path.last() by {
        let i = choose|i: int| 0 <= i < kept.len() && kept[i] == n;
        assert(node_ids(kept)[i] == chunk::node_id(n));
    }
}

/// The root is the lowest level with exactly one node. A level can end up with one
/// node that no edit touched, where everything around it was deleted; the levels above
/// then shrink to branches with a single child, which a build would never make. A real
/// root branch has at least two children, so while the root is a single-child branch,
/// the child is the root.
#[verifier::rlimit(80)]
#[verifier::spinoff_prover]
fn settle_root<S: Blocks>(
    blocks: &S,
    tip: &Cid,
    new_nodes: Vec<Closed>,
    old_ids: &mut Vec<Cid>,
    Ghost(made): Ghost<Seq<NodeView>>,
) -> (r: Result<(Cid, Vec<Closed>, Ghost<Seq<NodeView>>, Ghost<Seq<Seq<u8>>>), ApplyError>)
    requires
        chunk::are(new_nodes@, made),
        all_held(blocks.held(), node::cids_of(old(old_ids)@)),
    ensures
        match r {
            Ok(x) => {
                let m = blocks.held();
                let kept = x.2@;
                let path = x.3@;
                &&& chunk::are(x.1@, kept)
                &&& path.len() > 0
                &&& path[0] == tip@
                &&& path.last() == x.0@
                &&& path.len() <= u64::MAX
                &&& slides_in(m, made, path)
                &&& walked(m, made, path, path.len() as int)
                &&& pruned(made, path, kept)
                &&& forall|w: BlockMap|
                    #[trigger] holds_all(w, m, made) ==> lone(w, x.0@) is None && store::loaded(
                        w,
                        x.0@,
                    ) is Ok
                &&& all_held(m, node::cids_of(final(old_ids)@))
                &&& gathered(
                    node::cids_of(final(old_ids)@),
                    node::cids_of(old(old_ids)@),
                    made,
                    path,
                )
            },
            Err(e) => excused(blocks.held(), e) && lost(blocks.held(), made, tip@, e),
        },
{
    let ghost m = blocks.held();
    let ghost mut path: Seq<Seq<u8>> = seq![tip@];
    let ghost mut kept = made;
    let mut nodes = new_nodes;
    let mut root = *tip;
    let mut left: u64 = u64::MAX;
    proof {
        assert(slides_in(m, made, path)) by {
            reveal(slides_in);
        }
        assert(walked(m, made, path, 0)) by {
            reveal(walked);
        }
        assert(pruned(made, path, kept)) by {
            reveal(pruned);
            assert(path.drop_last() =~= Seq::<Seq<u8>>::empty());
            lemma_off_none(made);
        }
        assert(gathered(node::cids_of(old_ids@), node::cids_of(old_ids@), made, path)) by {
            reveal(gathered);
            let ids = node::cids_of(old_ids@);
            assert(ids + fallen(made, path, 0) =~= ids);
        }
    }
    while left > 0
        invariant
            m == blocks.held(),
            chunk::are(nodes@, kept),
            path.len() > 0,
            path.len() + left == u64::MAX + 1,
            path[0] == tip@,
            path.last() == root@,
            slides_in(m, made, path),
            walked(m, made, path, path.len() - 1),
            pruned(made, path, kept),
            all_held(m, node::cids_of(old_ids@)),
            gathered(node::cids_of(old_ids@), node::cids_of(old(old_ids)@), made, path),
        decreases left,
    {
        left = left - 1;
        let found = find_closed(&nodes, &root, Ghost(kept));
        let bytes: &[u8] = match found {
            Some(i) => {
                assert(nodes@[i as int].is(kept[i as int]));
                nodes[i].bytes.as_slice()
            },
            None => match blocks.get(&root) {
                None => {
                    let x = store::need_one(&root);
                    proof {
                        lemma_loaded_told(m, root@);
                        assert(store::loaded(m, root@) == Err::<NodeView, Fault>(x@)) by {
                            reveal(store::loaded);
                        }
                        lemma_lost(m, made, path, kept, x);
                    }
                    return Err(ApplyError::Read(x));
                },
                Some(b) => b,
            },
        };
        proof {
            if found is Some {
                let n = kept[found->Some_0 as int];
                crate::canon::law_the_encoding_parses(n);
                assert(kept.contains(n));
                assert(made.contains(n)) by {
                    reveal(pruned);
                }
            }
        }
        let node = match Node::parse(bytes) {
            Err(e) => {
                let x = ReadError::Corrupt(root, e);
                proof {
                    lemma_loaded_told(m, root@);
                    assert(store::loaded(m, root@) == Err::<NodeView, Fault>(x@)) by {
                        reveal(store::loaded);
                    }
                    lemma_lost(m, made, path, kept, x);
                }
                return Err(ApplyError::Read(x));
            },
            Ok(n) => n,
        };
        proof {
            assert forall|w: BlockMap| #[trigger] holds_all(w, m, made) implies store::loaded(
                w,
                root@,
            ) == Ok::<NodeView, Fault>(node@) by {
                lemma_loaded_in(w, m, made, root@);
                if found is None {
                    reveal(store::loaded);
                }
            }
        }
        proof {
            if found is Some {
                let n = kept[found->Some_0 as int];
                assert(kept.contains(n) && chunk::node_id(n) == path.last());
            } else {
                assert(store::loaded(m, root@) is Ok) by {
                    reveal(store::loaded);
                }
            }
            lemma_walked(m, made, path, kept, path.last());
        }
        if node.is_leaf() || node.len() != 1 {
            return Ok((root, nodes, Ghost(kept), Ghost(path)));
        }
        let (child, _) = node.child(0);
        let dropped = root;
        let ghost before = kept;
        proof {
            lemma_without(kept, dropped@);
            lemma_slides_push(m, made, path, child@);
            lemma_walked(m, made, path, kept, child@);
            lemma_gathered_push(
                node::cids_of(old_ids@),
                node::cids_of(old(old_ids)@),
                made,
                path,
                kept,
                child@,
                found is Some,
            );
        }
        match found {
            Some(_) => {
                nodes = remove_closed(nodes, &dropped, Ghost(kept));
                proof {
                    kept = without(before, dropped@);
                }
            },
            None => {
                let ghost before_ids = node::cids_of(old_ids@);
                old_ids.push(dropped);
                proof {
                    assert(node::cids_of(old_ids@) =~= before_ids.push(dropped@));
                    assert(before_ids.push(dropped@) =~= before_ids + seq![dropped@]);
                    lemma_held_join(m, before_ids, seq![dropped@]);
                }
            },
        }
        proof {
            lemma_pruned_step(made, path, before, kept, child@, found is Some);
            path = path.push(child@);
        }
        root = child;
    }
    proof {
        reveal(lost);
    }
    Err(ApplyError::Node(BuildError::Overflow))
}

/// One more node taken off.
proof fn lemma_pruned_step(
    made: Seq<NodeView>,
    path: Seq<Seq<u8>>,
    before: Seq<NodeView>,
    after: Seq<NodeView>,
    next: Seq<u8>,
    found: bool,
)
    requires
        path.len() > 0,
        pruned(made, path, before),
        found ==> after == without(before, path.last()),
        !found ==> after == before && !node_ids(before).contains(path.last()),
    ensures
        pruned(made, path.push(next), after),
{
    reveal(pruned);
    let front = path.drop_last();
    assert(path.push(next).drop_last() =~= path);
    assert(front.push(path.last()) =~= path);
    lemma_off_push(made, front, path.last());
    lemma_without(before, path.last());
    if !found {
        lemma_without_none(before, path.last());
    }
    assert forall|n: NodeView|
        #[trigger] after.contains(n) <==> made.contains(n) && !path.contains(chunk::node_id(n)) by {
        let id = chunk::node_id(n);
        assert(path.contains(id) <==> front.contains(id) || id == path.last()) by {
            if path.contains(id) {
                let i = choose|i: int| 0 <= i < path.len() && path[i] == id;
                if i < front.len() {
                    assert(front[i] == id);
                }
            }
            if front.contains(id) {
                let i = choose|i: int| 0 <= i < front.len() && front[i] == id;
                assert(path[i] == id);
            }
            assert(path[path.len() - 1] == path.last());
        }
        assert(before.contains(n) <==> made.contains(n) && !front.contains(id));
        if !found && before.contains(n) && id == path.last() {
            let i = choose|i: int| 0 <= i < before.len() && before[i] == n;
            assert(node_ids(before)[i] == id);
        }
    }
}

// ---------------------------------------------------------------------------
// what is missing
// ---------------------------------------------------------------------------

/// How many of the first `n` places begin at or before a key.
pub open spec fn begun(slots: Seq<Slot>, key: Seq<u8>, n: nat) -> nat
    decreases n,
{
    if n == 0 {
        0
    } else if order::le(slots[n - 1].key, key) {
        n
    } else {
        begun(slots, key, (n - 1) as nat)
    }
}

/// The place a key belongs to.
pub open spec fn home(slots: Seq<Slot>, key: Seq<u8>) -> int {
    let n = begun(slots, key, slots.len());
    if n == 0 {
        0
    } else {
        n - 1
    }
}

/// It is the place a cursor goes to.
proof fn lemma_home(slots: Seq<Slot>, key: &[u8])
    ensures
        cursor::target(slots, Pick::Key(key)) == home(slots, key@),
{
    lemma_begun(slots, key, slots.len());
}

/// It is what a cursor counts.
proof fn lemma_begun(slots: Seq<Slot>, key: &[u8], n: nat)
    ensures
        cursor::taken_of(slots, Pick::Key(key), n) == begun(slots, key@, n),
    decreases n,
{
    if n > 0 {
        lemma_begun(slots, key, (n - 1) as nat);
    }
}

/// Why the leaf a key belongs to cannot be read.
pub open spec fn hindered(m: BlockMap, root: Seq<u8>, key: Seq<u8>) -> Option<Fault> {
    match store::loaded(m, root) {
        Err(f) => Some(f),
        Ok(_) => {
            let s = tree::leaves(m, root)[home(tree::leaves(m, root), key)];
            match s.opened {
                Err(f) => Some(f),
                Ok(_) => None,
            }
        },
    }
}

/// Ids, and the first `n` of more that are not among them, as long as there is room.
pub open spec fn noted(ids: Seq<Seq<u8>>, more: Seq<Seq<u8>>, n: nat) -> Seq<Seq<u8>>
    decreases n,
{
    if n == 0 {
        ids
    } else {
        let so_far = noted(ids, more, (n - 1) as nat);
        if !so_far.contains(more[n - 1]) && so_far.len() < MAX_NEED {
            so_far.push(more[n - 1])
        } else {
            so_far
        }
    }
}

/// The missing blocks the first `n` edits point at, or the first fault of another kind.
pub open spec fn lacking(m: BlockMap, root: Seq<u8>, es: Seq<EditRow>, n: nat) -> Result<
    Seq<Seq<u8>>,
    Fault,
>
    decreases n,
{
    if n == 0 {
        Ok(Seq::empty())
    } else {
        match lacking(m, root, es, (n - 1) as nat) {
            Err(f) => Err(f),
            Ok(ids) => match hindered(m, root, es[n - 1].key) {
                None => Ok(ids),
                Some(Fault::Need(more)) => Ok(noted(ids, more, more.len())),
                Some(f) => Err(f),
            },
        }
    }
}

/// A fault of another kind stays.
proof fn lemma_lacking_err(m: BlockMap, root: Seq<u8>, es: Seq<EditRow>, k: nat, n: nat)
    requires
        k <= n,
        lacking(m, root, es, k) is Err,
    ensures
        lacking(m, root, es, n) == lacking(m, root, es, k),
    decreases n,
{
    if k < n {
        lemma_lacking_err(m, root, es, k, (n - 1) as nat);
    }
}

/// Is an id among these?
fn has_id(ids: &Vec<Cid>, id: &Cid) -> (r: bool)
    ensures
        r == node::cids_of(ids@).contains(id@),
{
    let mut i: usize = 0;
    while i < ids.len()
        invariant
            i <= ids@.len(),
            forall|j: int| 0 <= j < i ==> #[trigger] node::cids_of(ids@)[j] != id@,
        decreases ids@.len() - i,
    {
        if order::same(ids[i].as_slice(), id.as_slice()) {
            assert(node::cids_of(ids@)[i as int] == id@);
            return true;
        }
        assert(node::cids_of(ids@)[i as int] != id@);
        i = i + 1;
    }
    false
}

/// Name every missing block the edits already point at, in one go.
fn missing_leaves<S: Blocks>(blocks: &S, root: &Cid, edits: &Vec<LevelEdit>) -> (r: Result<
    (),
    ReadError,
>)
    ensures
        match lacking(blocks.held(), root@, edits_of(edits@), edits@.len()) {
            Err(f) => r matches Err(e) && e@ == f,
            Ok(ids) => if ids.len() == 0 {
                r is Ok
            } else {
                r matches Err(e) && e@ == Fault::Need(ids)
            },
        },
        r is Err ==> told(blocks.held(), r->Err_0@),
{
    let ghost m = blocks.held();
    let ghost es = edits_of(edits@);
    let ghost slots = cursor::level_of(m, root@, 0);
    let mut need: Vec<Cid> = Vec::new();
    let mut n: usize = 0;
    assert(node::cids_of(need@) =~= Seq::<Seq<u8>>::empty());
    while n < edits.len()
        invariant
            n <= edits@.len(),
            m == blocks.held(),
            es == edits_of(edits@),
            slots == cursor::level_of(m, root@, 0),
            lacking(m, root@, es, n as nat) == Ok::<Seq<Seq<u8>>, Fault>(node::cids_of(need@)),
            forall|i: int|
                0 <= i < need@.len() ==> !m.contains_key(#[trigger] node::cids_of(need@)[i]),
        decreases edits@.len() - n,
    {
        let key = edits[n].key.as_slice();
        proof {
            assert(es[n as int] == edits@[n as int]@);
            lemma_home(slots, key);
            lemma_loaded_told(m, root@);
            assert(tree::leaves(m, root@) == slots);
        }
        match LevelCursor::seek(blocks, root, 0, key) {
            Ok(_) => {},
            Err(e) => {
                let ghost f = e@;
                proof {
                    assert(hindered(m, root@, es[n as int].key) == Some(f));
                    if store::loaded(m, root@) is Ok {
                        lemma_level_told(m, root@, 0, cursor::target(slots, Pick::Key(key)));
                    }
                }
                match e {
                    ReadError::Need(ids) => {
                        let ghost had = node::cids_of(need@);
                        let ghost more = node::cids_of(ids@);
                        let mut j: usize = 0;
                        while j < ids.len()
                            invariant
                                j <= ids@.len(),
                                more == node::cids_of(ids@),
                                told(m, Fault::Need(more)),
                                node::cids_of(need@) == noted(had, more, j as nat),
                                forall|i: int|
                                    0 <= i < need@.len() ==> !m.contains_key(
                                        #[trigger] node::cids_of(need@)[i],
                                    ),
                            decreases ids@.len() - j,
                        {
                            let ghost before = need@;
                            let full = need.len() >= MAX_NEED;
                            if !has_id(&need, &ids[j]) && !full {
                                need.push(ids[j]);
                                proof {
                                    assert(more[j as int] == ids@[j as int]@);
                                    let got = node::cids_of(before);
                                    assert(node::cids_of(need@) =~= got.push(more[j as int]));
                                    assert forall|i: int| 0 <= i < need@.len() implies !m.contains_key(
                                        #[trigger] node::cids_of(need@)[i],
                                    ) by {
                                        if i < before.len() {
                                            assert(node::cids_of(need@)[i] == got[i]);
                                        } else {
                                            assert(!m.contains_key(more[j as int]));
                                        }
                                    }
                                }
                            } else {
                                assert(more[j as int] == ids@[j as int]@);
                            }
                            j = j + 1;
                        }
                    },
                    other => {
                        proof {
                            lemma_lacking_err(m, root@, es, (n + 1) as nat, edits@.len());
                        }
                        return Err(other);
                    },
                }
            },
        }
        n = n + 1;
    }
    if need.len() > 0 {
        return Err(ReadError::Need(need));
    }
    Ok(())
}

// ---------------------------------------------------------------------------
// handing over
// ---------------------------------------------------------------------------

/// The ids of some blocks.
pub open spec fn put_ids(puts: Seq<Put>) -> Seq<Seq<u8>> {
    puts.map_values(|p: Put| p.id)
}

/// Is every block one the edits keep for a value, or a node that was closed?
pub open spec fn all_made(
    puts: Seq<Put>,
    edits: Seq<(Vec<u8>, Edit)>,
    made: Seq<NodeView>,
) -> bool {
    forall|i: int|
        0 <= i < puts.len() ==> {
            ||| is_edit_value(edits, #[trigger] puts[i])
            ||| is_block_of(made, puts[i])
        }
}

/// Is this the block of an edit's value?
pub open spec fn is_edit_value(edits: Seq<(Vec<u8>, Edit)>, p: Put) -> bool {
    exists|j: int| 0 <= j < edits.len() && value_of(#[trigger] edits[j]) == Some(p)
}

/// Is this the block of the value of an edit that is marked?
pub open spec fn is_used_value(edits: Seq<(Vec<u8>, Edit)>, used: Seq<bool>, p: Put) -> bool {
    exists|j: int| 0 <= j < edits.len() && used[j] && value_of(#[trigger] edits[j]) == Some(p)
}

/// Is this the block of one of the nodes?
pub open spec fn is_block_of(made: Seq<NodeView>, p: Put) -> bool {
    exists|n: NodeView| #[trigger] made.contains(n) && p == build::block_of(n)
}

/// Are these ids in the set?
spec fn indexed(set: BlockMap, ids: Seq<Seq<u8>>) -> bool {
    forall|id: Seq<u8>| #[trigger] set.contains_key(id) <==> ids.contains(id)
}

/// One more id.
proof fn lemma_indexed_push(set: BlockMap, ids: Seq<Seq<u8>>, id: Seq<u8>, bytes: Seq<u8>)
    requires
        indexed(set, ids),
    ensures
        indexed(set.insert(id, bytes), ids.push(id)),
{
    let next = ids.push(id);
    assert forall|x: Seq<u8>| #[trigger] set.insert(id, bytes).contains_key(x) <==> next.contains(x) by {
        if next.contains(x) {
            let i = choose|i: int| 0 <= i < next.len() && next[i] == x;
            if i < ids.len() {
                assert(ids[i] == x);
            }
        }
        if ids.contains(x) {
            let i = choose|i: int| 0 <= i < ids.len() && ids[i] == x;
            assert(next[i] == x);
        }
        assert(next[ids.len() as int] == id);
    }
}

/// A set of ids.
fn index_ids(ids: &Vec<Cid>) -> (set: MemBlocks)
    ensures
        indexed(set.held(), node::cids_of(ids@)),
{
    let mut set = MemBlocks::new();
    let none: Vec<u8> = Vec::new();
    let mut i: usize = 0;
    let ghost all = node::cids_of(ids@);
    assert(all.take(0) =~= Seq::<Seq<u8>>::empty());
    while i < ids.len()
        invariant
            i <= ids@.len(),
            all == node::cids_of(ids@),
            indexed(set.held(), all.take(i as int)),
        decreases ids@.len() - i,
    {
        proof {
            lemma_indexed_push(set.held(), all.take(i as int), ids@[i as int]@, none@);
            assert(all.take(i + 1) =~= all.take(i as int).push(ids@[i as int]@));
        }
        set.insert(ids[i], none.as_slice());
        i = i + 1;
    }
    assert(all.take(i as int) =~= all);
    set
}

/// A list of blocks with more of them at its end, each id once.
pub open spec fn put_once(had: Seq<Put>, list: Seq<Put>) -> Seq<Put>
    decreases list.len(),
{
    if list.len() == 0 {
        had
    } else {
        let front = put_once(had, list.drop_last());
        if put_ids(front).contains(list.last().id) {
            front
        } else {
            front.push(list.last())
        }
    }
}

/// The blocks of the values of the first `n` edits that are marked, in order.
spec fn used_values(edits: Seq<(Vec<u8>, Edit)>, used: Seq<bool>, n: nat) -> Seq<Put>
    decreases n,
{
    if n == 0 {
        Seq::empty()
    } else {
        let front = used_values(edits, used, (n - 1) as nat);
        match value_of(edits[n - 1]) {
            Some(p) => if used[n - 1] {
                front.push(p)
            } else {
                front
            },
            None => front,
        }
    }
}

/// The blocks of the nodes whose ids a set lacks, in order.
spec fn fresh_nodes(nodes: Seq<NodeView>, set: BlockMap) -> Seq<Put>
    decreases nodes.len(),
{
    if nodes.len() == 0 {
        Seq::empty()
    } else {
        let front = fresh_nodes(nodes.drop_last(), set);
        if set.contains_key(chunk::node_id(nodes.last())) {
            front
        } else {
            front.push(build::block_of(nodes.last()))
        }
    }
}

/// The blocks of values, each once.
#[verifier::rlimit(40)]
fn hand_values(
    values: Vec<Option<(Cid, Vec<u8>)>>,
    effective: &Vec<bool>,
    sent: &mut MemBlocks,
    Ghost(edits): Ghost<Seq<(Vec<u8>, Edit)>>,
) -> (out: Vec<(Cid, Vec<u8>)>)
    requires
        values@.len() == edits.len(),
        effective@.len() == edits.len(),
        forall|i: int| 0 <= i < edits.len() ==> is_value(#[trigger] values@[i], edits[i]),
        indexed(old(sent).held(), Seq::empty()),
    ensures
        ({
            let puts = build::puts_of(out@);
            &&& indexed(final(sent).held(), put_ids(puts))
            &&& puts == put_once(Seq::empty(), used_values(edits, effective@, edits.len()))
            &&& put_ids(puts).no_duplicates()
            &&& all_made(puts, edits, Seq::empty())
            &&& forall|i: int|
                #![trigger edits[i]]
                0 <= i < edits.len() && effective@[i] && value_of(edits[i]) is Some
                    ==> put_ids(puts).contains(value_of(edits[i])->Some_0.id)
            &&& forall|j: int|
                0 <= j < puts.len() ==> is_used_value(edits, effective@, #[trigger] puts[j])
        }),
{
    let mut out: Vec<(Cid, Vec<u8>)> = Vec::new();
    let mut values = values;
    let mut i: usize = 0;
    let n = values.len();
    assert(put_ids(build::puts_of(out@)) =~= Seq::<Seq<u8>>::empty());
    assert(build::puts_of(out@) =~= Seq::<Put>::empty());
    while i < n
        invariant
            i <= n,
            n == values@.len(),
            n == edits.len(),
            effective@.len() == edits.len(),
            build::puts_of(out@) == put_once(
                Seq::empty(),
                used_values(edits, effective@, i as nat),
            ),
            forall|k: int| i <= k < edits.len() ==> is_value(#[trigger] values@[k], edits[k]),
            indexed(sent.held(), put_ids(build::puts_of(out@))),
            put_ids(build::puts_of(out@)).no_duplicates(),
            all_made(build::puts_of(out@), edits, Seq::empty()),
            forall|k: int|
                #![trigger edits[k]]
                0 <= k < i && effective@[k] && value_of(edits[k]) is Some ==> put_ids(
                    build::puts_of(out@),
                ).contains(value_of(edits[k])->Some_0.id),
            forall|j: int|
                0 <= j < out@.len() ==> is_used_value(
                    edits,
                    effective@,
                    #[trigger] build::puts_of(out@)[j],
                ),
        decreases n - i,
    {
        let ghost before = out@;
        let ghost had = put_ids(build::puts_of(before));
        let mut v: Option<(Cid, Vec<u8>)> = None;
        assert(is_value(values@[i as int], edits[i as int]));
        proof {
            let front = used_values(edits, effective@, i as nat);
            if let Some(p) = value_of(edits[i as int]) {
                assert(front.push(p).drop_last() =~= front);
            }
        }
        std::mem::swap(&mut v, &mut values[i]);
        if effective[i] {
            if let Some(x) = v {
                if sent.get(&x.0).is_none() {
                    let none: Vec<u8> = Vec::new();
                    proof {
                        lemma_indexed_push(sent.held(), had, x.0@, none@);
                    }
                    sent.insert(x.0, none.as_slice());
                    out.push(x);
                    proof {
                        let puts = build::puts_of(out@);
                        let p = Put { id: x.0@, bytes: x.1@ };
                        assert(puts =~= build::puts_of(before).push(p));
                        assert(put_ids(puts) =~= had.push(x.0@));
                        assert forall|j: int| 0 <= j < puts.len() implies {
                            ||| is_edit_value(edits, #[trigger] puts[j])
                            ||| is_block_of(Seq::empty(), puts[j])
                        } by {
                            if j < before.len() {
                                assert(puts[j] == build::puts_of(before)[j]);
                            } else {
                                assert(value_of(edits[i as int]) == Some(p));
                            }
                        }
                        assert forall|j: int| 0 <= j < out@.len() implies is_used_value(
                            edits,
                            effective@,
                            #[trigger] puts[j],
                        ) by {
                            if j < before.len() {
                                assert(puts[j] == build::puts_of(before)[j]);
                            } else {
                                assert(value_of(edits[i as int]) == Some(puts[j]));
                            }
                        }
                        lemma_grown_ids(had, x.0@);
                    }
                }
                assert(put_ids(build::puts_of(out@)).contains(x.0@));
            }
        }
        i = i + 1;
    }
    out
}

/// What was among some ids is among more.
proof fn lemma_grown_ids(ids: Seq<Seq<u8>>, id: Seq<u8>)
    ensures
        ids.push(id).contains(id),
        forall|x: Seq<u8>| #[trigger] ids.contains(x) ==> ids.push(id).contains(x),
        forall|x: Seq<u8>| #[trigger] ids.push(id).contains(x) ==> ids.contains(x) || x == id,
{
    let next = ids.push(id);
    assert(next[ids.len() as int] == id);
    assert forall|x: Seq<u8>| #[trigger] next.contains(x) implies ids.contains(x) || x == id by {
        let i = choose|i: int| 0 <= i < next.len() && next[i] == x;
        if i < ids.len() {
            assert(ids[i] == x);
        }
    }
    assert forall|x: Seq<u8>| #[trigger] ids.contains(x) implies next.contains(x) by {
        let i = choose|i: int| 0 <= i < ids.len() && ids[i] == x;
        assert(next[i] == x);
    }
}

/// The new nodes, each once, children before parents.
#[verifier::rlimit(40)]
fn hand_nodes(
    new_nodes: &Vec<Closed>,
    old_set: &MemBlocks,
    sent: &mut MemBlocks,
    out: &mut Vec<(Cid, Vec<u8>)>,
    Ghost(edits): Ghost<Seq<(Vec<u8>, Edit)>>,
    Ghost(kept): Ghost<Seq<NodeView>>,
)
    requires
        chunk::are(new_nodes@, kept),
        indexed(old(sent).held(), put_ids(build::puts_of(old(out)@))),
        put_ids(build::puts_of(old(out)@)).no_duplicates(),
        all_made(build::puts_of(old(out)@), edits, Seq::empty()),
    ensures
        ({
            let puts = build::puts_of(final(out)@);
            let had = build::puts_of(old(out)@);
            &&& puts == put_once(had, fresh_nodes(kept, old_set.held()))
            &&& put_ids(puts).no_duplicates()
            &&& all_made(puts, edits, kept)
            &&& puts.len() >= had.len()
            &&& puts.take(had.len() as int) == had
            &&& forall|j: int|
                had.len() <= j < puts.len() ==> !old_set.held().contains_key((#[trigger] puts[j]).id)
                    && is_block_of(kept, puts[j])
            &&& forall|n: NodeView|
                #[trigger] kept.contains(n) ==> old_set.held().contains_key(chunk::node_id(n))
                    || put_ids(puts).contains(chunk::node_id(n))
        }),
{
    let ghost had = build::puts_of(out@);
    let mut i: usize = 0;
    proof {
        assert(kept.take(0) =~= Seq::<NodeView>::empty());
        assert(had.take(had.len() as int) =~= had);
        assert forall|j: int| 0 <= j < had.len() implies {
            ||| is_edit_value(edits, #[trigger] had[j])
            ||| is_block_of(kept, had[j])
        } by {
            assert(is_edit_value(edits, had[j]) || is_block_of(Seq::empty(), had[j]));
        }
    }
    while i < new_nodes.len()
        invariant
            i <= new_nodes@.len(),
            chunk::are(new_nodes@, kept),
            had == build::puts_of(old(out)@),
            build::puts_of(out@) == put_once(
                had,
                fresh_nodes(kept.take(i as int), old_set.held()),
            ),
            indexed(sent.held(), put_ids(build::puts_of(out@))),
            put_ids(build::puts_of(out@)).no_duplicates(),
            all_made(build::puts_of(out@), edits, kept),
            out@.len() >= had.len(),
            build::puts_of(out@).take(had.len() as int) == had,
            forall|j: int|
                had.len() <= j < out@.len() ==> !old_set.held().contains_key(
                    (#[trigger] build::puts_of(out@)[j]).id,
                ) && is_block_of(kept, build::puts_of(out@)[j]),
            forall|k: int|
                0 <= k < i ==> old_set.held().contains_key(chunk::node_id(#[trigger] kept[k]))
                    || put_ids(build::puts_of(out@)).contains(chunk::node_id(kept[k])),
        decreases new_nodes@.len() - i,
    {
        let ghost before = out@;
        let ghost ids = put_ids(build::puts_of(before));
        assert(new_nodes@[i as int].is(kept[i as int]));
        proof {
            let front = kept.take(i as int);
            let due = fresh_nodes(front, old_set.held());
            assert(kept.take(i + 1).drop_last() =~= front);
            assert(due.push(build::block_of(kept[i as int])).drop_last() =~= due);
            assert(sent.held().contains_key(chunk::node_id(kept[i as int])) <==> ids.contains(
                chunk::node_id(kept[i as int]),
            ));
        }
        let cid = new_nodes[i].cid;
        if old_set.get(&cid).is_none() && sent.get(&cid).is_none() {
            let none: Vec<u8> = Vec::new();
            proof {
                lemma_indexed_push(sent.held(), ids, cid@, none@);
            }
            sent.insert(cid, none.as_slice());
            out.push((cid, vstd::slice::slice_to_vec(new_nodes[i].bytes.as_slice())));
            proof {
                let puts = build::puts_of(out@);
                let p = build::block_of(kept[i as int]);
                assert(puts =~= build::puts_of(before).push(p));
                assert(put_ids(puts) =~= ids.push(cid@));
                assert(kept.contains(kept[i as int]));
                assert forall|j: int| 0 <= j < puts.len() implies {
                    ||| is_edit_value(edits, #[trigger] puts[j])
                    ||| is_block_of(kept, puts[j])
                } by {
                    if j < before.len() {
                        assert(puts[j] == build::puts_of(before)[j]);
                    } else {
                        assert(puts[j] == p);
                    }
                }
                assert forall|j: int| had.len() <= j < out@.len() implies !old_set.held().contains_key(
                    (#[trigger] puts[j]).id,
                ) && is_block_of(kept, puts[j]) by {
                    if j < before.len() {
                        assert(puts[j] == build::puts_of(before)[j]);
                    } else {
                        assert(puts[j] == p);
                    }
                }
                assert(puts.take(had.len() as int) =~= build::puts_of(before).take(
                    had.len() as int,
                ));
                lemma_grown_ids(ids, cid@);
            }
        }
        i = i + 1;
    }
    proof {
        assert(kept.take(i as int) =~= kept);
        let puts = build::puts_of(out@);
        assert forall|n: NodeView| #[trigger] kept.contains(n) implies old_set.held().contains_key(
            chunk::node_id(n),
        ) || put_ids(puts).contains(chunk::node_id(n)) by {
            let k = choose|k: int| 0 <= k < kept.len() && kept[k] == n;
            assert(kept[k] == n);
        }
    }
}

/// Those of some ids that are not among others, each once, in order.
pub open spec fn left_out(ids: Seq<Seq<u8>>, kept: Seq<Seq<u8>>) -> Seq<Seq<u8>>
    decreases ids.len(),
{
    if ids.len() == 0 {
        Seq::empty()
    } else {
        let front = left_out(ids.drop_last(), kept);
        if kept.contains(ids.last()) || front.contains(ids.last()) {
            front
        } else {
            front.push(ids.last())
        }
    }
}

/// The old nodes the new tree no longer uses, each once.
#[verifier::rlimit(40)]
fn replaced_nodes(old_ids: &Vec<Cid>, new_nodes: &Vec<Closed>, Ghost(kept): Ghost<
    Seq<NodeView>,
>) -> (out: Vec<Cid>)
    requires
        chunk::are(new_nodes@, kept),
    ensures
        node::cids_of(out@) == left_out(node::cids_of(old_ids@), node_ids(kept)),
        node::cids_of(out@).no_duplicates(),
        forall|id: Seq<u8>|
            #[trigger] node::cids_of(out@).contains(id) <==> node::cids_of(old_ids@).contains(id)
                && !node_ids(kept).contains(id),
{
    let mut kept_set = MemBlocks::new();
    let none: Vec<u8> = Vec::new();
    let ghost ids = node_ids(kept);
    let mut i: usize = 0;
    assert(ids.take(0) =~= Seq::<Seq<u8>>::empty());
    while i < new_nodes.len()
        invariant
            i <= new_nodes@.len(),
            chunk::are(new_nodes@, kept),
            ids == node_ids(kept),
            indexed(kept_set.held(), ids.take(i as int)),
        decreases new_nodes@.len() - i,
    {
        assert(new_nodes@[i as int].is(kept[i as int]));
        proof {
            lemma_indexed_push(kept_set.held(), ids.take(i as int), ids[i as int], none@);
            assert(ids.take(i + 1) =~= ids.take(i as int).push(ids[i as int]));
        }
        kept_set.insert(new_nodes[i].cid, none.as_slice());
        i = i + 1;
    }
    assert(ids.take(i as int) =~= ids);
    let mut out: Vec<Cid> = Vec::new();
    let mut seen = MemBlocks::new();
    let ghost olds = node::cids_of(old_ids@);
    let mut j: usize = 0;
    assert(node::cids_of(out@) =~= Seq::<Seq<u8>>::empty());
    while j < old_ids.len()
        invariant
            j <= old_ids@.len(),
            olds == node::cids_of(old_ids@),
            ids == node_ids(kept),
            indexed(kept_set.held(), ids),
            indexed(seen.held(), node::cids_of(out@)),
            node::cids_of(out@) == left_out(olds.take(j as int), ids),
            node::cids_of(out@).no_duplicates(),
            forall|id: Seq<u8>|
                #[trigger] node::cids_of(out@).contains(id) <==> olds.take(j as int).contains(id)
                    && !ids.contains(id),
        decreases old_ids@.len() - j,
    {
        let ghost before = node::cids_of(out@);
        let ghost id = old_ids@[j as int]@;
        let ghost front = olds.take(j as int);
        proof {
            assert(olds.take(j + 1) =~= front.push(id));
            assert(front.push(id).drop_last() =~= front);
            lemma_grown_ids(front, id);
        }
        let ghost had = seen.held();
        let fresh = kept_set.get(&old_ids[j]).is_none() && seen.get(&old_ids[j]).is_none();
        assert(fresh == (!ids.contains(id) && !before.contains(id))) by {
            assert(kept_set.held().contains_key(id) <==> ids.contains(id));
            assert(had.contains_key(id) <==> before.contains(id));
        }
        if fresh {
            proof {
                lemma_indexed_push(seen.held(), before, id, none@);
                lemma_grown_ids(before, id);
            }
            seen.insert(old_ids[j], none.as_slice());
            out.push(old_ids[j]);
            assert(node::cids_of(out@) =~= before.push(id));
        }
        proof {
            let next = node::cids_of(out@);
            assert forall|x: Seq<u8>| #[trigger] next.contains(x) <==> olds.take(j + 1).contains(x)
                && !ids.contains(x) by {
                assert(before.contains(x) <==> front.contains(x) && !ids.contains(x));
                assert(front.push(id).contains(x) <==> front.contains(x) || x == id);
                if fresh {
                    assert(before.push(id).contains(x) <==> before.contains(x) || x == id);
                }
            }
        }
        j = j + 1;
    }
    assert(olds.take(j as int) =~= olds);
    out
}

/// Do blocks and their ids agree?
spec fn parity_index(set: BlockMap) -> bool {
    forall|id: Seq<u8>|
        #[trigger] set.contains_key(id) ==> crate::spec_block_id(crate::kind::PARITY, set[id])
            == id
}

/// Parity blocks by id, the first of each.
pub open spec fn coded_map(blocks: Seq<Seq<u8>>) -> BlockMap
    decreases blocks.len(),
{
    if blocks.len() == 0 {
        Map::empty()
    } else {
        let front = coded_map(blocks.drop_last());
        let id = crate::spec_block_id(crate::kind::PARITY, blocks.last());
        if front.contains_key(id) {
            front
        } else {
            front.insert(id, blocks.last())
        }
    }
}

/// Those of some promised blocks that are there, after some, each once.
pub open spec fn told_once(have: BlockMap, had: Seq<Put>, ids: Seq<Seq<u8>>) -> Seq<Put>
    decreases ids.len(),
{
    if ids.len() == 0 {
        had
    } else {
        let front = told_once(have, had, ids.drop_last());
        let id = ids.last();
        if have.contains_key(id) && !put_ids(front).contains(id) {
            front.push(Put { id, bytes: have[id] })
        } else {
            front
        }
    }
}

/// The blocks that some nodes promise and that are there, node by node, each once.
pub open spec fn told_by(have: BlockMap, nodes: Seq<NodeView>) -> Seq<Put>
    decreases nodes.len(),
{
    if nodes.len() == 0 {
        Seq::empty()
    } else {
        told_once(have, told_by(have, nodes.drop_last()), nodes.last().parity)
    }
}

/// The parity blocks that were coded, by id.
fn index_coded(coded: &Vec<(Cid, Vec<u8>)>) -> (set: MemBlocks)
    requires
        chunk::coded_ok(coded@),
    ensures
        set.held() == coded_map(chunk::coded_view(coded@)),
        parity_index(set.held()),
        indexed(set.held(), put_ids(build::puts_of(coded@))),
{
    let mut set = MemBlocks::new();
    let mut i: usize = 0;
    let ghost ids = put_ids(build::puts_of(coded@));
    let ghost all = chunk::coded_view(coded@);
    assert(ids.take(0) =~= Seq::<Seq<u8>>::empty());
    assert(all.take(0) =~= Seq::<Seq<u8>>::empty());
    while i < coded.len()
        invariant
            i <= coded@.len(),
            chunk::coded_ok(coded@),
            ids == put_ids(build::puts_of(coded@)),
            all == chunk::coded_view(coded@),
            set.held() == coded_map(all.take(i as int)),
            parity_index(set.held()),
            indexed(set.held(), ids.take(i as int)),
        decreases coded@.len() - i,
    {
        let ghost front = ids.take(i as int);
        let ghost id = coded@[i as int].0@;
        let ghost before = set.held();
        proof {
            assert(ids.take(i + 1) =~= front.push(id));
            assert(all.take(i + 1) =~= all.take(i as int).push(coded@[i as int].1@));
            assert(all.take(i + 1).drop_last() =~= all.take(i as int));
            lemma_grown_ids(front, id);
            lemma_indexed_push(before, front, id, coded@[i as int].1@);
        }
        if set.get(&coded[i].0).is_none() {
            set.insert(coded[i].0, coded[i].1.as_slice());
        } else {
            assert forall|x: Seq<u8>| #[trigger] before.contains_key(x) <==> front.push(id).contains(
                x,
            ) by {
                assert(front.push(id).contains(x) <==> front.contains(x) || x == id);
            }
        }
        i = i + 1;
    }
    assert(ids.take(i as int) =~= ids);
    assert(all.take(i as int) =~= all);
    set
}

/// Does a node of the list promise this parity block?
pub open spec fn promised(nodes: Seq<NodeView>, id: Seq<u8>) -> bool {
    exists|n: NodeView| #[trigger] nodes.contains(n) && n.parity.contains(id)
}

/// The parity the new nodes promise and that was coded for them, each block once. The
/// nodes' own lists decide: nothing is reported that no node lists, and nothing is left
/// out but a group that was reused, whose parity is already out.
#[verifier::rlimit(40)]
fn report_parity(coded: &Vec<(Cid, Vec<u8>)>, new_nodes: &Vec<Closed>, Ghost(kept): Ghost<
    Seq<NodeView>,
>) -> (out: ParityBlocks)
    requires
        chunk::coded_ok(coded@),
        chunk::are(new_nodes@, kept),
    ensures
        ({
            let ids = put_ids(build::puts_of(out@));
            &&& build::puts_of(out@) == told_by(coded_map(chunk::coded_view(coded@)), kept)
            &&& chunk::coded_ok(out@)
            &&& ids.no_duplicates()
            &&& forall|id: Seq<u8>|
                #[trigger] ids.contains(id) <==> promised(kept, id) && put_ids(
                    build::puts_of(coded@),
                ).contains(id)
        }),
{
    let have = index_coded(coded);
    let ghost all = put_ids(build::puts_of(coded@));
    let mut reported = MemBlocks::new();
    let none: Vec<u8> = Vec::new();
    let mut out: ParityBlocks = Vec::new();
    let mut i: usize = 0;
    let ghost first = put_ids(build::puts_of(out@));
    assert(first =~= Seq::<Seq<u8>>::empty());
    assert(build::puts_of(out@) =~= Seq::<Put>::empty());
    assert(kept.take(0) =~= Seq::<NodeView>::empty());
    while i < new_nodes.len()
        invariant
            i <= new_nodes@.len(),
            chunk::are(new_nodes@, kept),
            build::puts_of(out@) == told_by(have.held(), kept.take(i as int)),
            parity_index(have.held()),
            indexed(have.held(), all),
            chunk::coded_ok(out@),
            indexed(reported.held(), put_ids(build::puts_of(out@))),
            put_ids(build::puts_of(out@)).no_duplicates(),
            forall|id: Seq<u8>|
                #[trigger] put_ids(build::puts_of(out@)).contains(id) <==> promised(
                    kept.take(i as int),
                    id,
                ) && all.contains(id),
        decreases new_nodes@.len() - i,
    {
        assert(new_nodes@[i as int].is(kept[i as int]));
        proof {
            crate::canon::law_the_encoding_parses(kept[i as int]);
        }
        let listed = match Node::parse(new_nodes[i].bytes.as_slice()) {
            Err(_) => {
                assert(false);
                Vec::new()
            },
            Ok(n) => n.parity(),
        };
        let ghost front = kept.take(i as int);
        let ghost ids0 = kept[i as int].parity;
        let ghost start = put_ids(build::puts_of(out@));
        let ghost told = build::puts_of(out@);
        let mut j: usize = 0;
        assert(ids0.take(0) =~= Seq::<Seq<u8>>::empty());
        while j < listed.len()
            invariant
                j <= listed@.len(),
                node::cids_of(listed@) == ids0,
                build::puts_of(out@) == told_once(have.held(), told, ids0.take(j as int)),
                parity_index(have.held()),
                indexed(have.held(), all),
                chunk::coded_ok(out@),
                indexed(reported.held(), put_ids(build::puts_of(out@))),
                put_ids(build::puts_of(out@)).no_duplicates(),
                forall|id: Seq<u8>|
                    #[trigger] put_ids(build::puts_of(out@)).contains(id) <==> start.contains(id)
                        || (ids0.take(j as int).contains(id) && all.contains(id)),
            decreases listed@.len() - j,
        {
            let ghost before = out@;
            let ghost had = put_ids(build::puts_of(before));
            let ghost seen = reported.held();
            let ghost id = listed@[j as int]@;
            let ghost part = ids0.take(j as int);
            proof {
                assert(ids0[j as int] == id);
                assert(ids0.take(j + 1) =~= part.push(id));
                assert(part.push(id).drop_last() =~= part);
                lemma_grown_ids(part, id);
                lemma_grown_ids(had, id);
                assert(have.held().contains_key(id) <==> all.contains(id));
                assert(seen.contains_key(id) <==> had.contains(id));
            }
            let mut pushed = false;
            if let Some(bytes) = have.get(&listed[j]) {
                if reported.get(&listed[j]).is_none() {
                    proof {
                        lemma_indexed_push(reported.held(), had, id, none@);
                    }
                    reported.insert(listed[j], none.as_slice());
                    out.push((listed[j], vstd::slice::slice_to_vec(bytes)));
                    pushed = true;
                    proof {
                        let puts = build::puts_of(out@);
                        assert(puts =~= build::puts_of(before).push(
                            Put { id, bytes: have.held()[id] },
                        ));
                        assert(put_ids(puts) =~= had.push(id));
                        assert forall|k: int| 0 <= k < out@.len() implies (#[trigger] out@[k]).0@
                            == crate::spec_block_id(crate::kind::PARITY, out@[k].1@) by {
                            if k < before.len() {
                                assert(out@[k] == before[k]);
                            }
                        }
                    }
                }
            }
            proof {
                let now = put_ids(build::puts_of(out@));
                assert forall|x: Seq<u8>| #[trigger] now.contains(x) <==> start.contains(x) || (
                ids0.take(j + 1).contains(x) && all.contains(x)) by {
                    assert(had.contains(x) <==> start.contains(x) || (part.contains(x)
                        && all.contains(x)));
                    assert(part.push(id).contains(x) <==> part.contains(x) || x == id);
                    if pushed {
                        assert(had.push(id).contains(x) <==> had.contains(x) || x == id);
                    }
                }
            }
            j = j + 1;
        }
        proof {
            assert(ids0.take(j as int) =~= ids0);
            let now = put_ids(build::puts_of(out@));
            let next = kept.take(i + 1);
            assert(next.drop_last() =~= front);
            assert(next.last() == kept[i as int]);
            assert forall|x: Seq<u8>| #[trigger] now.contains(x) <==> promised(next, x)
                && all.contains(x) by {
                assert(start.contains(x) <==> promised(front, x) && all.contains(x));
                lemma_promised_push(kept, i as int, x);
            }
        }
        i = i + 1;
    }
    assert(kept.take(i as int) =~= kept);
    out
}

/// One more node's promises.
proof fn lemma_promised_push(kept: Seq<NodeView>, i: int, id: Seq<u8>)
    requires
        0 <= i < kept.len(),
    ensures
        promised(kept.take(i + 1), id) <==> promised(kept.take(i), id) || kept[i].parity.contains(
            id,
        ),
{
    let a = kept.take(i);
    let b = kept.take(i + 1);
    if promised(b, id) {
        let n = choose|n: NodeView| #[trigger] b.contains(n) && n.parity.contains(id);
        let k = choose|k: int| 0 <= k < b.len() && b[k] == n;
        if k < i {
            assert(a[k] == n);
            assert(a.contains(n));
        }
    }
    if promised(a, id) {
        let n = choose|n: NodeView| #[trigger] a.contains(n) && n.parity.contains(id);
        let k = choose|k: int| 0 <= k < a.len() && a[k] == n;
        assert(b[k] == n);
        assert(b.contains(n));
    }
    if kept[i].parity.contains(id) {
        assert(b[i] == kept[i]);
        assert(b.contains(kept[i]));
    }
}

// ---------------------------------------------------------------------------
// changing a tree
// ---------------------------------------------------------------------------

/// The blocks of the first `n` edits' values.
pub open spec fn value_puts(edits: Seq<(Vec<u8>, Edit)>, n: nat) -> Seq<Put>
    decreases n,
{
    if n == 0 {
        Seq::empty()
    } else {
        match value_of(edits[n - 1]) {
            None => value_puts(edits, (n - 1) as nat),
            Some(p) => value_puts(edits, (n - 1) as nat).push(p),
        }
    }
}

/// The old blocks, and the values that do not go into leaves.
pub open spec fn with_values(m: BlockMap, edits: Seq<(Vec<u8>, Edit)>) -> BlockMap {
    with_puts(m, value_puts(edits, edits.len()))
}

/// Put values where the leaves that refer to them can read them.
fn put_values<B: Blocks>(overlay: &mut Overlay<'_, B>, values: &Vec<Option<(Cid, Vec<u8>)>>, Ghost(
    edits,
): Ghost<Seq<(Vec<u8>, Edit)>>)
    requires
        values@.len() == edits.len(),
        forall|i: int| 0 <= i < edits.len() ==> is_value(#[trigger] values@[i], edits[i]),
    ensures
        final(overlay).held() == with_values(old(overlay).held(), edits),
        covered(old(overlay).held(), final(overlay).held()),
{
    let ghost start = overlay.held();
    let mut i: usize = 0;
    while i < values.len()
        invariant
            i <= values@.len(),
            values@.len() == edits.len(),
            forall|k: int| 0 <= k < edits.len() ==> is_value(#[trigger] values@[k], edits[k]),
            overlay.held() == with_puts(start, value_puts(edits, i as nat)),
            covered(start, overlay.held()),
        decreases values@.len() - i,
    {
        assert(is_value(values@[i as int], edits[i as int]));
        match &values[i] {
            None => {},
            Some(x) => {
                overlay.put(x.0, x.1.as_slice());
                proof {
                    let all = value_puts(edits, (i + 1) as nat);
                    assert(all.drop_last() =~= value_puts(edits, i as nat));
                }
            },
        }
        i = i + 1;
    }
}

/// How a change went, level by level: what every level was told and what came of it,
/// and the single-child branches that were then taken off the root.
pub open spec fn change(
    m: BlockMap,
    root: Seq<u8>,
    rule: Rule,
    recheck: bool,
    edits: Seq<(Vec<u8>, Edit)>,
    floors: Seq<Floor>,
    path: Seq<Seq<u8>>,
) -> bool {
    &&& store::loaded(m, root) is Ok
    &&& edits::sorted_edits(edit_rows(edits))
    &&& chain(m, root, rule, recheck, edit_rows(edits), with_values(m, edits), floors)
    &&& chain_ends(m, root, floors)
    &&& forall|i: int|
        0 <= i < closed_nodes(floors).len() ==> (#[trigger] closed_nodes(floors)[i]).valid()
    &&& 0 < path.len() <= u64::MAX
    &&& path[0] == tip(root, floors)
    &&& slides_in(m, closed_nodes(floors), path)
    &&& walked(m, closed_nodes(floors), path, path.len() as int)
    &&& forall|w: BlockMap|
        #[trigger] holds_all(w, m, closed_nodes(floors)) ==> lone(w, path.last()) is None
            && store::loaded(w, path.last()) is Ok
}

/// Is this the id of an old node that a change goes through?
#[verifier::opaque]
pub open spec fn was_old(
    m: BlockMap,
    root: Seq<u8>,
    floors: Seq<Floor>,
    path: Seq<Seq<u8>>,
    id: Seq<u8>,
) -> bool {
    old_nodes(m, root, floors).contains(id) || fell(closed_nodes(floors), path, id)
}

/// Is this a node that was closed and not taken off the root?
pub open spec fn stays(floors: Seq<Floor>, path: Seq<Seq<u8>>, n: NodeView) -> bool {
    closed_nodes(floors).contains(n) && !path.drop_last().contains(chunk::node_id(n))
}

/// Is this the id of the block of a value that the tree does not hold under its key
/// already?
pub open spec fn owed_value(
    m: BlockMap,
    root: Seq<u8>,
    edits: Seq<(Vec<u8>, Edit)>,
    id: Seq<u8>,
) -> bool {
    exists|i: int|
        0 <= i < edits.len() && (value_of(#[trigger] edits[i]) matches Some(p) && p.id == id)
            && !held_already(cursor::level_of(m, root, 0), edit_rows(edits)[i])
}

/// Is this the id of a node of the new tree that is no old one?
pub open spec fn owed_node(
    m: BlockMap,
    root: Seq<u8>,
    floors: Seq<Floor>,
    path: Seq<Seq<u8>>,
    id: Seq<u8>,
) -> bool {
    &&& exists|n: NodeView| #[trigger] stays(floors, path, n) && chunk::node_id(n) == id
    &&& !was_old(m, root, floors, path, id)
}

/// The blocks of the values of the first `n` edits that are not held already, in order.
pub open spec fn due_values(
    m: BlockMap,
    root: Seq<u8>,
    edits: Seq<(Vec<u8>, Edit)>,
    n: nat,
) -> Seq<Put>
    decreases n,
{
    if n == 0 {
        Seq::empty()
    } else {
        let front = due_values(m, root, edits, (n - 1) as nat);
        match value_of(edits[n - 1]) {
            Some(p) => if held_already(cursor::level_of(m, root, 0), edit_rows(edits)[n - 1]) {
                front
            } else {
                front.push(p)
            },
            None => front,
        }
    }
}

/// The blocks of those of some nodes that stay and are no old ones, in order.
pub open spec fn due_nodes(
    m: BlockMap,
    root: Seq<u8>,
    floors: Seq<Floor>,
    path: Seq<Seq<u8>>,
    nodes: Seq<NodeView>,
) -> Seq<Put>
    decreases nodes.len(),
{
    if nodes.len() == 0 {
        Seq::empty()
    } else {
        let front = due_nodes(m, root, floors, path, nodes.drop_last());
        let id = chunk::node_id(nodes.last());
        if path.drop_last().contains(id) || was_old(m, root, floors, path, id) {
            front
        } else {
            front.push(build::block_of(nodes.last()))
        }
    }
}

/// What a change hands over, in order: the values in the order of the edits, and the
/// nodes in the order they were closed, level by level from the leaves up, so that a
/// child comes before its parent. Each id once.
pub open spec fn handed_list(
    m: BlockMap,
    root: Seq<u8>,
    edits: Seq<(Vec<u8>, Edit)>,
    floors: Seq<Floor>,
    path: Seq<Seq<u8>>,
) -> Seq<Put> {
    put_once(
        put_once(Seq::empty(), due_values(m, root, edits, edits.len())),
        due_nodes(m, root, floors, path, closed_nodes(floors)),
    )
}

/// What a change hands over: the blocks of the values that are not held already, and the
/// closed nodes of the new tree that are no old ones. Those, each once, in the order of
/// the edits and of closing, and no others.
pub open spec fn hands_over(
    m: BlockMap,
    root: Seq<u8>,
    edits: Seq<(Vec<u8>, Edit)>,
    floors: Seq<Floor>,
    path: Seq<Seq<u8>>,
    more: Seq<Put>,
) -> bool {
    &&& more == handed_list(m, root, edits, floors, path)
    &&& all_made(more, edits, closed_nodes(floors))
    &&& put_ids(more).no_duplicates()
    &&& forall|id: Seq<u8>|
        #[trigger] put_ids(more).contains(id) <==> owed_value(m, root, edits, id) || owed_node(
            m,
            root,
            floors,
            path,
            id,
        )
}

/// The old nodes that a change goes through, in order: level by level from the leaves up,
/// and then the old branches taken off the root.
pub open spec fn old_list(
    m: BlockMap,
    root: Seq<u8>,
    floors: Seq<Floor>,
    path: Seq<Seq<u8>>,
) -> Seq<Seq<u8>> {
    old_nodes(m, root, floors) + fallen(closed_nodes(floors), path, (path.len() - 1) as nat)
}

/// The closed nodes that were not taken off the root, in order.
pub open spec fn new_list(floors: Seq<Floor>, path: Seq<Seq<u8>>) -> Seq<NodeView> {
    off(closed_nodes(floors), path.drop_last())
}

/// What a change says of itself: the old nodes it goes through that the new tree does
/// not keep, in the order it goes through them, and the parity that its closed nodes
/// promise and that was coded for one of them, in the order of the nodes. Those, each
/// once, and no others.
pub open spec fn accounts(
    m: BlockMap,
    root: Seq<u8>,
    floors: Seq<Floor>,
    path: Seq<Seq<u8>>,
    a: Applied,
) -> bool {
    let gone = node::cids_of(a.replaced@);
    let ids = put_ids(build::puts_of(a.parity@));
    &&& gone == left_out(old_list(m, root, floors, path), node_ids(new_list(floors, path)))
    &&& build::puts_of(a.parity@) == told_by(
        coded_map(floor_coded(floors, floors.len())),
        new_list(floors, path),
    )
    &&& gone.no_duplicates()
    &&& all_held(m, gone)
    &&& forall|id: Seq<u8>|
        #[trigger] gone.contains(id) <==> was_old(m, root, floors, path, id) && !exists|n: NodeView|
            #[trigger] stays(floors, path, n) && chunk::node_id(n) == id
    &&& chunk::coded_ok(a.parity@)
    &&& ids.no_duplicates()
    &&& forall|id: Seq<u8>|
        #[trigger] ids.contains(id) <==> was_coded(floors, id) && exists|n: NodeView|
            #[trigger] stays(floors, path, n) && n.parity.contains(id)
}

/// More blocks after those there were.
pub open spec fn more_puts(before: Seq<(Cid, Vec<u8>)>, after: Seq<(Cid, Vec<u8>)>) -> Seq<Put> {
    build::puts_of(after.skip(before.len() as int))
}

/// What a change that was made comes to.
#[verifier::opaque]
pub open spec fn done_right(
    m: BlockMap,
    root: Seq<u8>,
    rule: Rule,
    recheck: bool,
    edits: Seq<(Vec<u8>, Edit)>,
    a: Applied,
    more: Seq<Put>,
) -> bool {
    exists|floors: Seq<Floor>, path: Seq<Seq<u8>>|
        #[trigger] change(m, root, rule, recheck, edits, floors, path) && path.last() == a.root@
            && hands_over(m, root, edits, floors, path, more) && accounts(
            m,
            root,
            floors,
            path,
            a,
        )
}

/// Why a batch that was taken up could not be carried out: the root cannot be loaded, a
/// level cannot be rewritten, or the new root cannot be settled.
#[verifier::opaque]
pub open spec fn undone(
    m: BlockMap,
    root: Seq<u8>,
    rule: Rule,
    recheck: bool,
    edits: Seq<(Vec<u8>, Edit)>,
    e: ApplyError,
) -> bool {
    ||| e matches ApplyError::Read(x) && store::loaded(m, root) == Err::<NodeView, Fault>(x@)
    ||| store::loaded(m, root) is Ok && stopped(
        m,
        root,
        rule,
        recheck,
        edit_rows(edits),
        with_values(m, edits),
        e,
    )
    ||| store::loaded(m, root) is Ok && exists|floors: Seq<Floor>|
        #[trigger] chain(m, root, rule, recheck, edit_rows(edits), with_values(m, edits), floors)
            && chain_ends(m, root, floors) && lost(m, closed_nodes(floors), tip(root, floors), e)
}

/// Which errors a batch is owed: the first that is wrong with it, the leaves that are
/// missing, or what then kept it from being carried out.
pub open spec fn owed_error(
    m: BlockMap,
    root: Seq<u8>,
    rule: Rule,
    recheck: bool,
    edits: Seq<(Vec<u8>, Edit)>,
    e: ApplyError,
) -> bool {
    match batch_error(edits, 0) {
        Some(x) => e == x,
        None => match lacking(m, root, edit_rows(edits), edits.len()) {
            Err(f) => e matches ApplyError::Read(x) && x@ == f,
            Ok(ids) => if ids.len() > 0 {
                e matches ApplyError::Read(x) && x@ == Fault::Need(ids)
            } else {
                excused(m, e) && undone(m, root, rule, recheck, edits, e)
            },
        },
    }
}

/// Is a batch taken up at all: it is in order, and the leaves it points at can be read?
pub open spec fn taken_up(m: BlockMap, root: Seq<u8>, edits: Seq<(Vec<u8>, Edit)>) -> bool {
    &&& batch_error(edits, 0) is None
    &&& lacking(m, root, edit_rows(edits), edits.len()) == Ok::<Seq<Seq<u8>>, Fault>(Seq::empty())
}

/// [`apply`] with other [`Options`].
#[verifier::rlimit(60)]
pub fn apply_with<B: Blocks, R: SplitRule + Copy>(
    opts: Options<R>,
    blocks: &B,
    root: &Cid,
    edits: &[(Vec<u8>, Edit)],
    sink: &mut Vec<(Cid, Vec<u8>)>,
) -> (r: Result<Applied, ApplyError>)
    ensures
        match r {
            Ok(a) => {
                &&& taken_up(blocks.held(), root@, edits@)
                &&& final(sink)@.len() >= old(sink)@.len()
                &&& final(sink)@.take(old(sink)@.len() as int) == old(sink)@
                &&& done_right(
                    blocks.held(),
                    root@,
                    chunk::rule_of(&opts.rule),
                    opts.recheck_neighbour,
                    edits@,
                    a,
                    more_puts(old(sink)@, final(sink)@),
                )
            },
            Err(e) => {
                &&& final(sink)@ == old(sink)@
                &&& owed_error(
                    blocks.held(),
                    root@,
                    chunk::rule_of(&opts.rule),
                    opts.recheck_neighbour,
                    edits@,
                    e,
                )
            },
        },
{
    let ghost m = blocks.held();
    let ghost rule = chunk::rule_of(&opts.rule);
    let ghost recheck = opts.recheck_neighbour;
    // 1. Refuse a bad batch before anything is read.
    match check_batch(edits) {
        Err(e) => return Err(e),
        Ok(()) => {},
    }
    // 2. The values this call is writing must be readable as parity members before the
    //    leaf that refers to them is coded.
    let mut overlay = Overlay::new(Some(blocks));
    let (level, values) = leaf_edits(edits);
    put_values(&mut overlay, &values, Ghost(edits@));
    // 3. Name every missing block the edits already point at, in one go.
    proof {
        assert(edits_of(level@).len() == edit_rows(edits@).len());
        if let Ok(ids) = lacking(m, root@, edit_rows(edits@), edits@.len()) {
            if ids.len() == 0 {
                assert(ids =~= Seq::<Seq<u8>>::empty());
            }
        }
    }
    match missing_leaves(blocks, root, &level) {
        Err(e) => return Err(ApplyError::Read(e)),
        Ok(()) => {},
    }
    match store::load(blocks, root) {
        Err(e) => {
            proof {
                lemma_loaded_told(m, root@);
                reveal(undone);
            }
            return Err(ApplyError::Read(e));
        },
        Ok(_) => {},
    }
    // 4. Rewrite level by level.
    let p = match run_levels(opts, blocks, root, level, &mut overlay) {
        Err(e) => {
            proof {
                reveal(undone);
            }
            return Err(e);
        },
        Ok(p) => p,
    };
    let ghost floors = p.floors@;
    let ghost made = closed_nodes(floors);
    proof {
        assert forall|i: int| 0 <= i < made.len() implies (#[trigger] made[i]).valid() by {
            assert(p.new_nodes@[i].is(made[i]));
        }
    }
    // 5. The root is the lowest level with exactly one node.
    let mut old_ids = p.old_ids;
    let coded = p.coded;
    let effective = p.effective;
    let (new_root, new_nodes, kept_g, path_g) = match settle_root(
        blocks,
        &p.tip,
        p.new_nodes,
        &mut old_ids,
        Ghost(made),
    ) {
        Err(e) => {
            proof {
                reveal(undone);
            }
            return Err(e);
        },
        Ok(x) => x,
    };
    let ghost kept = kept_g@;
    let ghost path = path_g@;
    // 6. Success: hand over what is new, children before parents.
    let old_set = index_ids(&old_ids);
    let mut sent = MemBlocks::new();
    let mut out = hand_values(values, &effective, &mut sent, Ghost(edits@));
    let ghost had = build::puts_of(out@);
    proof {
        lemma_values_handed(m, root@, edits@, effective@, had);
    }
    let ghost olds = node::cids_of(old_ids@);
    proof {
        lemma_was_old(m, root@, floors, path, olds);
    }
    hand_nodes(&new_nodes, &old_set, &mut sent, &mut out, Ghost(edits@), Ghost(kept));
    let replaced = replaced_nodes(&old_ids, &new_nodes, Ghost(kept));
    let parity = report_parity(&coded, &new_nodes, Ghost(kept));
    let a = Applied { root: new_root, replaced, parity };
    let ghost given = out@;
    let ghost before = sink@;
    sink.append(&mut out);
    proof {
        let more = more_puts(before, sink@);
        assert(sink@.skip(before.len() as int) =~= given);
        assert(sink@.take(before.len() as int) =~= before);
        lemma_hands_over(m, root@, edits@, floors, path, kept, olds, old_set.held(), had, more);
        lemma_accounts(m, root@, floors, path, kept, olds, a, coded@);
        assert(change(m, root@, rule, recheck, edits@, floors, path));
        assert(done_right(m, root@, rule, recheck, edits@, a, more)) by {
            reveal(done_right);
        }
    }
    Ok(a)
}

/// The values of the edits that are marked are those that are due.
proof fn lemma_used_due(
    m: BlockMap,
    root: Seq<u8>,
    edits: Seq<(Vec<u8>, Edit)>,
    effective: Seq<bool>,
    n: nat,
)
    requires
        marked(
            effective,
            cursor::level_of(m, root, 0),
            edit_rows(edits),
            0,
            edits.len() as int,
        ),
        n <= edits.len(),
    ensures
        used_values(edits, effective, n) == due_values(m, root, edits, n),
    decreases n,
{
    reveal(marked);
    if n > 0 {
        lemma_used_due(m, root, edits, effective, (n - 1) as nat);
        let i = n - 1;
        if value_of(edits[i]) is Some {
            assert(edit_rows(edits)[i].held is Some);
            assert(effective[i] == !held_already(
                cursor::level_of(m, root, 0),
                edit_rows(edits)[i],
            ));
        }
    }
}

/// The nodes that are kept and not old are those that are due.
proof fn lemma_fresh_due(
    m: BlockMap,
    root: Seq<u8>,
    floors: Seq<Floor>,
    path: Seq<Seq<u8>>,
    nodes: Seq<NodeView>,
    olds: Seq<Seq<u8>>,
    set: BlockMap,
)
    requires
        indexed(set, olds),
        forall|id: Seq<u8>| #[trigger] olds.contains(id) <==> was_old(m, root, floors, path, id),
    ensures
        fresh_nodes(off(nodes, path.drop_last()), set) == due_nodes(m, root, floors, path, nodes),
    decreases nodes.len(),
{
    if nodes.len() > 0 {
        let front = nodes.drop_last();
        let id = chunk::node_id(nodes.last());
        lemma_fresh_due(m, root, floors, path, front, olds, set);
        let kept = off(front, path.drop_last());
        assert(kept.push(nodes.last()).drop_last() =~= kept);
        assert(set.contains_key(id) <==> olds.contains(id));
        assert(olds.contains(id) <==> was_old(m, root, floors, path, id));
    }
}

/// The values of the edits that are marked are handed over, and no others.
proof fn lemma_values_handed(
    m: BlockMap,
    root: Seq<u8>,
    edits: Seq<(Vec<u8>, Edit)>,
    effective: Seq<bool>,
    puts: Seq<Put>,
)
    requires
        marked(
            effective,
            cursor::level_of(m, root, 0),
            edit_rows(edits),
            0,
            edits.len() as int,
        ),
        forall|i: int|
            #![trigger edits[i]]
            0 <= i < edits.len() && effective[i] && value_of(edits[i]) is Some ==> put_ids(
                puts,
            ).contains(value_of(edits[i])->Some_0.id),
        forall|j: int|
            0 <= j < puts.len() ==> is_used_value(edits, effective, #[trigger] puts[j]),
    ensures
        forall|id: Seq<u8>|
            #[trigger] put_ids(puts).contains(id) <==> owed_value(m, root, edits, id),
        used_values(edits, effective, edits.len()) == due_values(m, root, edits, edits.len()),
{
    lemma_used_due(m, root, edits, effective, edits.len());
    reveal(marked);
    let a = cursor::level_of(m, root, 0);
    let es = edit_rows(edits);
    assert forall|id: Seq<u8>|
        #[trigger] put_ids(puts).contains(id) <==> owed_value(m, root, edits, id) by {
        if put_ids(puts).contains(id) {
            let j = choose|j: int| 0 <= j < put_ids(puts).len() && put_ids(puts)[j] == id;
            assert(is_used_value(edits, effective, puts[j]));
            let i = choose|i: int|
                0 <= i < edits.len() && effective[i] && value_of(#[trigger] edits[i]) == Some(
                    puts[j],
                );
            assert(es[i].held is Some);
            assert(effective[i] == !held_already(a, es[i]));
        }
        if owed_value(m, root, edits, id) {
            let i = choose|i: int|
                0 <= i < edits.len() && (value_of(#[trigger] edits[i]) matches Some(p) && p.id
                    == id) && !held_already(a, es[i]);
            assert(es[i].held is Some);
            assert(effective[i] == !held_already(a, es[i]));
        }
    }
}

/// The ids that were noted are those of the old nodes.
proof fn lemma_was_old(
    m: BlockMap,
    root: Seq<u8>,
    floors: Seq<Floor>,
    path: Seq<Seq<u8>>,
    olds: Seq<Seq<u8>>,
)
    requires
        gathered(olds, old_nodes(m, root, floors), closed_nodes(floors), path),
    ensures
        olds == old_list(m, root, floors, path),
        forall|id: Seq<u8>| #[trigger] olds.contains(id) <==> was_old(m, root, floors, path, id),
{
    reveal(gathered);
    reveal(was_old);
}

/// What is handed over is what is owed.
#[verifier::rlimit(60)]
#[verifier::spinoff_prover]
proof fn lemma_hands_over(
    m: BlockMap,
    root: Seq<u8>,
    edits: Seq<(Vec<u8>, Edit)>,
    floors: Seq<Floor>,
    path: Seq<Seq<u8>>,
    kept: Seq<NodeView>,
    olds: Seq<Seq<u8>>,
    old_set: BlockMap,
    had: Seq<Put>,
    more: Seq<Put>,
)
    requires
        pruned(closed_nodes(floors), path, kept),
        indexed(old_set, olds),
        forall|id: Seq<u8>| #[trigger] olds.contains(id) <==> was_old(m, root, floors, path, id),
        all_made(more, edits, kept),
        put_ids(more).no_duplicates(),
        more.len() >= had.len(),
        more.take(had.len() as int) == had,
        had == put_once(Seq::empty(), due_values(m, root, edits, edits.len())),
        more == put_once(had, fresh_nodes(kept, old_set)),
        forall|id: Seq<u8>|
            #[trigger] put_ids(had).contains(id) <==> owed_value(m, root, edits, id),
        forall|j: int|
            had.len() <= j < more.len() ==> !old_set.contains_key((#[trigger] more[j]).id)
                && is_block_of(kept, more[j]),
        forall|n: NodeView|
            #[trigger] kept.contains(n) ==> old_set.contains_key(chunk::node_id(n)) || put_ids(
                more,
            ).contains(chunk::node_id(n)),
    ensures
        hands_over(m, root, edits, floors, path, more),
{
    reveal(pruned);
    let made = closed_nodes(floors);
    lemma_fresh_due(m, root, floors, path, made, olds, old_set);
    assert forall|n: NodeView| kept.contains(n) == #[trigger] stays(floors, path, n) by {
    }
    assert forall|i: int| 0 <= i < more.len() implies {
        ||| is_edit_value(edits, #[trigger] more[i])
        ||| is_block_of(made, more[i])
    } by {
        if !is_edit_value(edits, more[i]) {
            assert(is_block_of(kept, more[i]));
            let n = choose|n: NodeView| #[trigger] kept.contains(n) && more[i] == build::block_of(n);
            assert(made.contains(n));
        }
    }
    assert forall|id: Seq<u8>|
        #[trigger] put_ids(more).contains(id) <==> owed_value(m, root, edits, id) || owed_node(
            m,
            root,
            floors,
            path,
            id,
        ) by {
        let owed = owed_value(m, root, edits, id) || owed_node(m, root, floors, path, id);
        assert(old_set.contains_key(id) <==> olds.contains(id));
        assert(olds.contains(id) <==> was_old(m, root, floors, path, id));
        if put_ids(more).contains(id) {
            let j = choose|j: int| 0 <= j < put_ids(more).len() && put_ids(more)[j] == id;
            assert(more[j].id == id);
            if j < had.len() {
                assert(more.take(had.len() as int)[j] == more[j]);
                assert(put_ids(had)[j] == id);
                assert(put_ids(had).contains(id));
            } else {
                assert(is_block_of(kept, more[j]) && !old_set.contains_key(more[j].id));
                let n = choose|n: NodeView|
                    #[trigger] kept.contains(n) && more[j] == build::block_of(n);
                assert(stays(floors, path, n));
                assert(chunk::node_id(n) == id);
                assert(owed_node(m, root, floors, path, id));
            }
            assert(owed);
        }
        if owed_value(m, root, edits, id) {
            assert(put_ids(had).contains(id));
            let j = choose|j: int| 0 <= j < put_ids(had).len() && put_ids(had)[j] == id;
            assert(more.take(had.len() as int)[j] == more[j]);
            assert(put_ids(more)[j] == id);
            assert(put_ids(more).contains(id));
        }
        if owed_node(m, root, floors, path, id) {
            let n = choose|n: NodeView| #[trigger] stays(floors, path, n) && chunk::node_id(n) == id;
            assert(kept.contains(n));
            assert(!old_set.contains_key(chunk::node_id(n)));
            assert(put_ids(more).contains(id));
        }
    }
}

/// What is replaced is old and not kept.
#[verifier::rlimit(60)]
#[verifier::spinoff_prover]
proof fn lemma_accounts(
    m: BlockMap,
    root: Seq<u8>,
    floors: Seq<Floor>,
    path: Seq<Seq<u8>>,
    kept: Seq<NodeView>,
    olds: Seq<Seq<u8>>,
    a: Applied,
    coded: Seq<(Cid, Vec<u8>)>,
)
    requires
        pruned(closed_nodes(floors), path, kept),
        all_held(m, olds),
        olds == old_list(m, root, floors, path),
        node::cids_of(a.replaced@) == left_out(olds, node_ids(kept)),
        build::puts_of(a.parity@) == told_by(coded_map(chunk::coded_view(coded)), kept),
        forall|id: Seq<u8>| #[trigger] olds.contains(id) <==> was_old(m, root, floors, path, id),
        node::cids_of(a.replaced@).no_duplicates(),
        forall|id: Seq<u8>|
            #[trigger] node::cids_of(a.replaced@).contains(id) <==> olds.contains(id)
                && !node_ids(kept).contains(id),
        chunk::coded_ok(a.parity@),
        put_ids(build::puts_of(a.parity@)).no_duplicates(),
        forall|id: Seq<u8>|
            #[trigger] put_ids(build::puts_of(a.parity@)).contains(id) <==> promised(kept, id)
                && put_ids(build::puts_of(coded)).contains(id),
        chunk::coded_ok(coded),
        chunk::coded_view(coded) == floor_coded(floors, floors.len()),
    ensures
        accounts(m, root, floors, path, a),
{
    reveal(pruned);
    let made = closed_nodes(floors);
    assert forall|n: NodeView| kept.contains(n) == #[trigger] stays(floors, path, n) by {
    }
    let gone = node::cids_of(a.replaced@);
    assert forall|i: int| 0 <= i < gone.len() implies m.contains_key(#[trigger] gone[i]) by {
        assert(gone.contains(gone[i]));
        let j = choose|j: int| 0 <= j < olds.len() && olds[j] == gone[i];
        assert(m.contains_key(olds[j]));
    }
    assert forall|id: Seq<u8>|
        #[trigger] gone.contains(id) <==> was_old(m, root, floors, path, id) && !exists|n: NodeView|
            #[trigger] stays(floors, path, n) && chunk::node_id(n) == id by {
        assert(olds.contains(id) <==> was_old(m, root, floors, path, id));
        if node_ids(kept).contains(id) {
            let i = choose|i: int| 0 <= i < kept.len() && node_ids(kept)[i] == id;
            assert(kept.contains(kept[i]));
            assert(stays(floors, path, kept[i]));
        }
        if exists|n: NodeView| #[trigger] stays(floors, path, n) && chunk::node_id(n) == id {
            let n = choose|n: NodeView| #[trigger] stays(floors, path, n) && chunk::node_id(n) == id;
            let i = choose|i: int| 0 <= i < kept.len() && kept[i] == n;
            assert(node_ids(kept)[i] == id);
        }
    }
    let ids = put_ids(build::puts_of(a.parity@));
    let all = put_ids(build::puts_of(coded));
    let blocks = floor_coded(floors, floors.len());
    assert forall|id: Seq<u8>|
        #[trigger] ids.contains(id) <==> was_coded(floors, id) && exists|n: NodeView|
            #[trigger] stays(floors, path, n) && n.parity.contains(id) by {
        if promised(kept, id) {
            let n = choose|n: NodeView| #[trigger] kept.contains(n) && n.parity.contains(id);
            assert(stays(floors, path, n));
        }
        if exists|n: NodeView| #[trigger] stays(floors, path, n) && n.parity.contains(id) {
            let n = choose|n: NodeView| #[trigger] stays(floors, path, n) && n.parity.contains(id);
            assert(kept.contains(n));
        }
        if all.contains(id) {
            let i = choose|i: int| 0 <= i < all.len() && all[i] == id;
            assert(coded[i].0@ == crate::spec_block_id(crate::kind::PARITY, coded[i].1@));
            assert(chunk::coded_view(coded)[i] == coded[i].1@);
            assert(crate::spec_block_id(crate::kind::PARITY, blocks[i]) == id);
        }
        if was_coded(floors, id) {
            let i = choose|i: int|
                0 <= i < blocks.len() && crate::spec_block_id(
                    crate::kind::PARITY,
                    #[trigger] blocks[i],
                ) == id;
            assert(chunk::coded_view(coded)[i] == coded[i].1@);
            assert(coded[i].0@ == crate::spec_block_id(crate::kind::PARITY, coded[i].1@));
            assert(all[i] == id);
        }
    }
}

/// Apply a batch of edits, sorted by key, to the tree at `root`.
///
/// New blocks are appended to `sink`, and only if the whole batch succeeds. An edit
/// that changes nothing (the same value again, a delete of an absent key) costs
/// nothing: same root, nothing emitted.
///
/// Where blocks are missing the caller fetches them and calls again with the same
/// arguments.
pub fn apply<B: Blocks>(
    blocks: &B,
    root: &Cid,
    edits: &[(Vec<u8>, Edit)],
    sink: &mut Vec<(Cid, Vec<u8>)>,
) -> (r: Result<Applied, ApplyError>)
    ensures
        match r {
            Ok(a) => {
                &&& taken_up(blocks.held(), root@, edits@)
                &&& final(sink)@.len() >= old(sink)@.len()
                &&& final(sink)@.take(old(sink)@.len() as int) == old(sink)@
                &&& done_right(
                    blocks.held(),
                    root@,
                    chunk::rule_of(&ByContent),
                    true,
                    edits@,
                    a,
                    more_puts(old(sink)@, final(sink)@),
                )
            },
            Err(e) => {
                &&& final(sink)@ == old(sink)@
                &&& owed_error(
                    blocks.held(),
                    root@,
                    chunk::rule_of(&ByContent),
                    true,
                    edits@,
                    e,
                )
            },
        },
{
    apply_with(Options { rule: ByContent, recheck_neighbour: true }, blocks, root, edits, sink)
}

/// [`apply`], writing every block it emits back into `blocks`. A refused batch emits
/// nothing, so nothing is written and the store is left exactly as it was.
pub fn apply_into<B: BlocksMut>(blocks: &mut B, root: &Cid, edits: &[(Vec<u8>, Edit)]) -> (r: Result<
    Applied,
    ApplyError,
>)
    ensures
        match r {
            Ok(a) => {
                &&& taken_up(old(blocks).held(), root@, edits@)
                &&& exists|more: Seq<Put>|
                    #[trigger] done_right(
                        old(blocks).held(),
                        root@,
                        chunk::rule_of(&ByContent),
                        true,
                        edits@,
                        a,
                        more,
                    ) && final(blocks).held() == with_puts(old(blocks).held(), more)
            },
            Err(e) => {
                &&& final(blocks).held() == old(blocks).held()
                &&& owed_error(
                    old(blocks).held(),
                    root@,
                    chunk::rule_of(&ByContent),
                    true,
                    edits@,
                    e,
                )
            },
        },
{
    let ghost m = blocks.held();
    let mut emitted: Vec<(Cid, Vec<u8>)> = Vec::new();
    let ghost none = emitted@;
    let a = match apply(&*blocks, root, edits, &mut emitted) {
        Err(e) => return Err(e),
        Ok(a) => a,
    };
    let ghost more = more_puts(none, emitted@);
    assert(emitted@.skip(0) =~= emitted@);
    let mut i: usize = 0;
    assert(more.take(0) =~= Seq::<Put>::empty());
    while i < emitted.len()
        invariant
            i <= emitted@.len(),
            more == build::puts_of(emitted@),
            blocks.held() == with_puts(m, more.take(i as int)),
        decreases emitted@.len() - i,
    {
        blocks.insert_block(emitted[i].0, emitted[i].1.as_slice());
        proof {
            let next = more.take(i + 1);
            assert(next.drop_last() =~= more.take(i as int));
            assert(next.last() == more[i as int]);
        }
        i = i + 1;
    }
    assert(more.take(i as int) =~= more);
    Ok(a)
}

} // verus!
