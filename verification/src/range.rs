//! Ordered scan over a key range, forward or reverse.
//!
//! A scan serves what it can from the blocks in hand, says where to resume by key,
//! and names the blocks it is missing so the caller can fetch a whole round's worth
//! at once. Resuming by key, never by a position in a node, is what makes a page
//! survive the tree changing underneath it.
//!
//! Aggregates are believed for budgeting and never for content: what a page serves
//! comes from leaves the reader has loaded and checked against their parents, while
//! what it names is decided from numbers a branch records about children nobody has
//! seen yet.

pub use crate::apply::MAX_NEED;
use crate::boundary::MAX_LOGICAL;
use crate::cursor;
use crate::cursor::{Cursor, Spot};
use crate::node;
use crate::node::{Agg, Payload, Row, Value};
use crate::order;
use crate::order::Side;
use crate::store;
use crate::store::{BlockMap, Blocks, Fault, Held, HeldView, ReadError};
use crate::tree;
use crate::tree::Item;
use crate::Cid;
use vstd::prelude::*;

verus! {

/// One end of a range.
#[derive(Clone, Debug, PartialEq, Eq)]
pub enum Bound {
    Unbounded,
    Included(Vec<u8>),
    Excluded(Vec<u8>),
}

/// One end of a range, as a mathematical value.
#[verifier::ext_equal]
pub enum End {
    Open,
    At(Seq<u8>),
    Past(Seq<u8>),
}

impl View for Bound {
    type V = End;

    open spec fn view(&self) -> End {
        match *self {
            Bound::Unbounded => End::Open,
            Bound::Included(k) => End::At(k@),
            Bound::Excluded(k) => End::Past(k@),
        }
    }
}

/// Why a page could not be made.
#[derive(Clone, Debug, PartialEq, Eq)]
pub enum RangeError {
    Read(ReadError),
    /// `max_entries` was 0. A page that can never hold an entry is a caller
    /// mistake, not an empty result.
    NoLimit,
}

/// How the frontier of a page is bounded. The defaults are the format's behaviour.
#[derive(Clone, Copy, Debug)]
pub struct Options {
    /// Stop naming blocks once the named aggregates cover the caller's limit.
    pub agg_bound: bool,
    /// Budget a leaf's bytes by what a page can take from it, not by the logical
    /// bytes its aggregate records.
    pub cap_leaf_bytes: bool,
}

impl Default for Options {
    fn default() -> (o: Options)
        ensures
            o == (Options { agg_bound: true, cap_leaf_bytes: true }),
    {
        Options { agg_bound: true, cap_leaf_bytes: true }
    }
}

/// What to scan. `lo` and `hi` are the range; `after` is where to resume.
#[derive(Clone, Debug)]
pub struct Range {
    pub lo: Bound,
    pub hi: Bound,
    pub reverse: bool,
    /// Resume strictly after this key in scan order: forward, keys greater than it;
    /// reverse, keys less than it. Intersected with `lo` and `hi`, and a key outside
    /// them is not an error.
    pub after: Option<Vec<u8>>,
    pub max_entries: usize,
    pub max_bytes: usize,
}

/// What to scan, as a mathematical value.
#[verifier::ext_equal]
pub struct RangeView {
    pub lo: End,
    pub hi: End,
    pub reverse: bool,
    pub after: Option<Seq<u8>>,
    pub max_entries: usize,
    pub max_bytes: usize,
}

impl View for Range {
    type V = RangeView;

    open spec fn view(&self) -> RangeView {
        RangeView {
            lo: self.lo@,
            hi: self.hi@,
            reverse: self.reverse,
            after: match self.after {
                Some(k) => Some(k@),
                None => None,
            },
            max_entries: self.max_entries,
            max_bytes: self.max_bytes,
        }
    }
}

/// The whole tree, in pages of the usual size.
pub open spec fn whole() -> RangeView {
    RangeView {
        lo: End::Open,
        hi: End::Open,
        reverse: false,
        after: None,
        max_entries: 1024,
        max_bytes: 262144,
    }
}

impl Default for Range {
    fn default() -> (r: Range)
        ensures
            r@ == whole(),
    {
        Range {
            lo: Bound::Unbounded,
            hi: Bound::Unbounded,
            reverse: false,
            after: None,
            max_entries: 1024,
            max_bytes: 262144,
        }
    }
}

/// Does `key` start with `p`?
pub open spec fn starts_with(key: Seq<u8>, p: Seq<u8>) -> bool {
    key.len() >= p.len() && key.take(p.len() as int) == p
}

/// Where the last byte below `0xff` is, among the first `n`.
pub open spec fn last_below(p: Seq<u8>, n: nat) -> Option<int>
    decreases n,
{
    if n == 0 {
        None
    } else if p[n - 1] != 0xff {
        Some(n - 1)
    } else {
        last_below(p, (n - 1) as nat)
    }
}

/// The smallest key after every key that starts with `p`: the last byte below
/// `0xff` is incremented and the rest dropped. A prefix with no such byte has none.
pub open spec fn spec_successor(p: Seq<u8>) -> Option<Seq<u8>> {
    match last_below(p, p.len()) {
        None => None,
        Some(cut) => Some(p.take(cut).push((p[cut] + 1) as u8)),
    }
}

/// Smallest key that is greater than every key starting with `p`.
fn successor(p: &[u8]) -> (r: Option<Vec<u8>>)
    ensures
        r is Some <==> spec_successor(p@) is Some,
        r is Some ==> r->Some_0@ == spec_successor(p@)->Some_0,
{
    let mut n = p.len();
    while n > 0
        invariant
            n <= p@.len(),
            last_below(p@, p@.len()) == last_below(p@, n as nat),
        decreases n,
    {
        let b = p[n - 1];
        if b != 0xff {
            let mut s = vstd::slice::slice_to_vec(vstd::slice::slice_subrange(p, 0, n - 1));
            s.push(b + 1);
            assert(s@ =~= p@.take(n - 1).push((p@[n - 1] + 1) as u8));
            return Some(s);
        }
        n = n - 1;
    }
    None
}

/// The range of a prefix.
pub open spec fn of_prefix(p: Seq<u8>) -> RangeView {
    RangeView {
        lo: End::At(p),
        hi: match spec_successor(p) {
            Some(s) => End::Past(s),
            None => End::Open,
        },
        ..whole()
    }
}

impl Range {
    /// Every key starting with `p`, i.e. `[p, successor(p))`.
    ///
    /// A prefix that is empty or all `0xff` has no successor, so the range runs to
    /// the end.
    pub fn prefix(p: &[u8]) -> (r: Range)
        ensures
            r@ == of_prefix(p@),
    {
        let hi = match successor(p) {
            Some(s) => Bound::Excluded(s),
            None => Bound::Unbounded,
        };
        Range {
            lo: Bound::Included(vstd::slice::slice_to_vec(p)),
            hi,
            reverse: false,
            after: None,
            max_entries: 1024,
            max_bytes: 262144,
        }
    }
}

/// One page of a scan. `entries` borrow from `blocks`, so consume a page before
/// inserting newly fetched blocks into the source.
#[derive(Debug)]
pub struct Page<'a> {
    pub entries: Vec<(Vec<u8>, Value<'a>)>,
    /// Resume by passing the original `lo` and `hi` again with `after = next`. It
    /// does not promise that more entries exist.
    pub next: Option<Vec<u8>>,
    /// Blocks to fetch, in scan order: the leaf the scan stopped at, plus further
    /// blocks of the range that the held branches can name.
    pub need: Vec<Cid>,
    /// Why the page ended. Only [`PageEnd::Blocked`] leaves work undone.
    pub end: PageEnd,
}

/// How a page ended.
#[derive(Clone, Copy, Debug, PartialEq, Eq, Structural)]
pub enum PageEnd {
    /// The entry or byte limit was reached. More may follow.
    Limit,
    /// The scan walked off the end of the range.
    EndOfRange,
    /// The scan walked off the end of the tree.
    EndOfTree,
    /// A block was missing. Nothing here says the range is exhausted.
    Blocked,
}

/// A page, as a mathematical value.
#[verifier::ext_equal]
pub struct PageView {
    pub entries: Seq<Row>,
    pub next: Option<Seq<u8>>,
    pub need: Seq<Seq<u8>>,
    pub end: PageEnd,
}

/// Served entries as rows.
pub open spec fn rows_of(v: Seq<(Vec<u8>, Value<'_>)>) -> Seq<Row> {
    v.map_values(|e: (Vec<u8>, Value<'_>)| Row { key: e.0@, held: e.1@ })
}

impl<'a> View for Page<'a> {
    type V = PageView;

    open spec fn view(&self) -> PageView {
        PageView {
            entries: rows_of(self.entries@),
            next: match self.next {
                Some(k) => Some(k@),
                None => None,
            },
            need: node::cids_of(self.need@),
            end: self.end,
        }
    }
}

impl<'a> Page<'a> {
    /// The scan is over: it ran out of range or out of tree, and it got there by
    /// scanning rather than by failing to fetch something.
    pub fn finished(&self) -> (r: bool)
        ensures
            r == (self@.end == PageEnd::EndOfRange || self@.end == PageEnd::EndOfTree),
    {
        match self.end {
            PageEnd::EndOfRange => true,
            PageEnd::EndOfTree => true,
            _ => false,
        }
    }
}

// ---------------------------------------------------------------------------
// bounds
// ---------------------------------------------------------------------------

/// Does `key` satisfy the low end of a range?
pub open spec fn above(key: Seq<u8>, lo: End) -> bool {
    match lo {
        End::Open => true,
        End::At(k) => order::le(k, key),
        End::Past(k) => order::lt(k, key),
    }
}

/// Does `key` satisfy the high end of a range?
pub open spec fn under(key: Seq<u8>, hi: End) -> bool {
    match hi {
        End::Open => true,
        End::At(k) => order::le(key, k),
        End::Past(k) => order::lt(key, k),
    }
}

/// Is `key` in the range?
pub open spec fn within(key: Seq<u8>, r: RangeView) -> bool {
    above(key, r.lo) && under(key, r.hi)
}

/// The last byte below `0xff`: there is none after it.
proof fn lemma_last_below(p: Seq<u8>, n: nat)
    requires
        n <= p.len(),
    ensures
        match last_below(p, n) {
            None => forall|i: int| 0 <= i < n ==> #[trigger] p[i] == 0xff,
            Some(cut) => 0 <= cut < n && p[cut] != 0xff && forall|i: int|
                cut < i < n ==> #[trigger] p[i] == 0xff,
        },
    decreases n,
{
    if n > 0 && p[n - 1] == 0xff {
        lemma_last_below(p, (n - 1) as nat);
    }
}

/// The range of a prefix holds exactly the keys that start with it.
pub proof fn law_a_prefix_range_holds_its_keys(p: Seq<u8>, key: Seq<u8>)
    ensures
        within(key, of_prefix(p)) <==> starts_with(key, p),
{
    lemma_last_below(p, p.len());
    order::lemma_lt_irreflexive(key);
    order::lemma_lt_irreflexive(p);
    order::lemma_shared_len(key, p, 0);
    let n = order::shared_len(key, p, 0);
    let next = spec_successor(p);
    if n == p.len() {
        assert(key.take(n) =~= p);
        if key.len() > n {
            assert(key.take(n) =~= p.take(n));
            order::lemma_lt_at(p, key, n);
        } else {
            assert(key =~= p);
        }
        if let Some(s) = next {
            let cut = last_below(p, p.len())->Some_0;
            assert(key.take(cut) =~= s.take(cut));
            order::lemma_lt_at(key, s, cut);
        }
    } else {
        assert(!starts_with(key, p)) by {
            if starts_with(key, p) {
                assert(key.take(p.len() as int)[n] == key[n]);
            }
        }
        assert(key.take(n) =~= p.take(n));
        order::lemma_lt_at(key, p, n);
        order::lemma_lt_at(p, key, n);
        if n < key.len() && key[n] > p[n] {
            let cut = last_below(p, p.len())->Some_0;
            let s = next->Some_0;
            assert(key.take(n) =~= s.take(n));
            if cut == n && s[n] == key[n] {
                assert(key.take(n + 1) =~= s.take(n + 1));
                if key.len() > n + 1 {
                    order::lemma_lt_at(s, key, n + 1);
                } else {
                    assert(key =~= s);
                }
            } else {
                order::lemma_lt_at(s, key, n);
            }
            if order::lt(key, s) && order::lt(s, key) {
                order::lemma_lt_trans(key, s, key);
            }
        } else if order::lt(p, key) && order::lt(key, p) {
            order::lemma_lt_trans(key, p, key);
        }
    }
}

/// Where a scan starts, with `after` folded into the bound it tightens. An `after`
/// outside the range leaves the bound alone.
pub open spec fn start_of(r: RangeView) -> End {
    let bound = if r.reverse {
        r.hi
    } else {
        r.lo
    };
    match r.after {
        None => bound,
        Some(a) => if if r.reverse {
            under(a, bound)
        } else {
            above(a, bound)
        } {
            End::Past(a)
        } else {
            bound
        },
    }
}

/// Do the bounds already say the range is empty?
pub open spec fn hopeless(r: RangeView) -> bool {
    let far = if r.reverse {
        r.lo
    } else {
        r.hi
    };
    match (start_of(r), far) {
        (End::Open, _) => false,
        (_, End::Open) => false,
        (End::At(s), End::At(f)) => if r.reverse {
            order::lt(s, f)
        } else {
            order::lt(f, s)
        },
        (End::At(s), End::Past(f)) => crossed(r.reverse, s, f),
        (End::Past(s), End::At(f)) => crossed(r.reverse, s, f),
        (End::Past(s), End::Past(f)) => crossed(r.reverse, s, f),
    }
}

/// Is there no room strictly between the two ends?
pub open spec fn crossed(reverse: bool, s: Seq<u8>, f: Seq<u8>) -> bool {
    if reverse {
        order::le(s, f)
    } else {
        order::le(f, s)
    }
}

/// A copy of a bound.
fn copy_bound(b: &Bound) -> (r: Bound)
    ensures
        r@ == b@,
{
    match b {
        Bound::Unbounded => Bound::Unbounded,
        Bound::Included(k) => Bound::Included(vstd::slice::slice_to_vec(k.as_slice())),
        Bound::Excluded(k) => Bound::Excluded(vstd::slice::slice_to_vec(k.as_slice())),
    }
}

/// A copy of a range.
pub(crate) fn copy_range(r: &Range) -> (c: Range)
    ensures
        c@ == r@,
{
    Range {
        lo: copy_bound(&r.lo),
        hi: copy_bound(&r.hi),
        reverse: r.reverse,
        after: match &r.after {
            None => None,
            Some(k) => Some(vstd::slice::slice_to_vec(k.as_slice())),
        },
        max_entries: r.max_entries,
        max_bytes: r.max_bytes,
    }
}

/// Is `a` at or before `b`?
fn at_most(a: &[u8], b: &[u8]) -> (r: bool)
    ensures
        r == order::le(a@, b@),
{
    match order::side(a, b) {
        Side::Less => true,
        Side::Equal => true,
        Side::Greater => {
            proof {
                order::lemma_lt_total(a@, b@);
                order::lemma_lt_irreflexive(a@);
            }
            false
        },
    }
}

/// Does `key` satisfy the low end of the range?
pub fn above_lo(key: &[u8], lo: &Bound) -> (r: bool)
    ensures
        r == above(key@, lo@),
{
    match lo {
        Bound::Unbounded => true,
        Bound::Included(k) => at_most(k.as_slice(), key),
        Bound::Excluded(k) => order::before(k.as_slice(), key),
    }
}

/// Does `key` satisfy the high end of the range?
pub fn below_hi(key: &[u8], hi: &Bound) -> (r: bool)
    ensures
        r == under(key@, hi@),
{
    match hi {
        Bound::Unbounded => true,
        Bound::Included(k) => at_most(key, k.as_slice()),
        Bound::Excluded(k) => order::before(key, k.as_slice()),
    }
}

/// Is `key` in the range?
pub fn in_range(key: &[u8], r: &Range) -> (b: bool)
    ensures
        b == within(key@, r@),
{
    above_lo(key, &r.lo) && below_hi(key, &r.hi)
}

/// Where a scan starts, with `after` folded into the bound it tightens.
fn start_bound(r: &Range) -> (b: Bound)
    ensures
        b@ == start_of(r@),
{
    let bound = if r.reverse {
        &r.hi
    } else {
        &r.lo
    };
    match &r.after {
        None => copy_bound(bound),
        Some(a) => {
            let inside = if r.reverse {
                below_hi(a.as_slice(), bound)
            } else {
                above_lo(a.as_slice(), bound)
            };
            if inside {
                Bound::Excluded(vstd::slice::slice_to_vec(a.as_slice()))
            } else {
                copy_bound(bound)
            }
        },
    }
}

/// Do the bounds already say the range is empty? Decided from the bounds alone,
/// before anything is read.
pub fn bounds_are_empty(r: &Range) -> (b: bool)
    ensures
        b == hopeless(r@),
{
    let start = start_bound(r);
    let far = if r.reverse {
        &r.lo
    } else {
        &r.hi
    };
    let (s, open_start) = match &start {
        Bound::Unbounded => return false,
        Bound::Included(k) => (k, false),
        Bound::Excluded(k) => (k, true),
    };
    let (f, open_far) = match far {
        Bound::Unbounded => return false,
        Bound::Included(k) => (k, false),
        Bound::Excluded(k) => (k, true),
    };
    if open_start || open_far {
        if r.reverse {
            at_most(s.as_slice(), f.as_slice())
        } else {
            at_most(f.as_slice(), s.as_slice())
        }
    } else if r.reverse {
        order::before(s.as_slice(), f.as_slice())
    } else {
        order::before(f.as_slice(), s.as_slice())
    }
}

/// What a page carries for one entry: the key, and the value as the page holds it.
/// A referenced value is 32 bytes of id here, whatever its real length.
pub open spec fn carried(row: Row) -> int {
    (row.key.len() + node::stored(row.held).len()) as int
}

/// What a page carries for one entry.
pub fn entry_bytes(key: &[u8], v: &Value<'_>) -> (n: usize)
    requires
        key@.len() + node::stored(v@).len() <= usize::MAX,
    ensures
        n == carried(Row { key: key@, held: v@ }),
{
    match v {
        Value::Inline(b) => key.len() + b.len(),
        Value::Ref { .. } => key.len() + 32,
    }
}

// ---------------------------------------------------------------------------
// what a scan does
// ---------------------------------------------------------------------------

/// How a scan stops.
#[verifier::ext_equal]
pub enum Stop {
    Limit,
    EndOfRange,
    EndOfTree,
    /// At a gap in the range.
    Gap(Fault),
}

/// What a scan serves, and how it stops.
#[verifier::ext_equal]
pub struct Scan {
    pub served: Seq<Row>,
    pub stop: Stop,
}

/// Is the scan, having served `key`, at the low end of its range?
pub open spec fn at_bottom(key: Seq<u8>, lo: End) -> bool {
    match lo {
        End::Open => false,
        End::At(k) => order::le(key, k),
        End::Past(k) => order::le(key, k),
    }
}

/// The scan from item `q`, an entry, with `served` already in the page.
pub open spec fn scan_from(its: Seq<Item>, r: RangeView, q: int, served: Seq<Row>, bytes: int) -> Scan
    decreases
            if r.reverse {
                q
            } else {
                its.len() - q
            },
{
    let row = Row { key: its[q].key, held: its[q].what->Ok_0 };
    if q < 0 || q >= its.len() {
        Scan { served, stop: Stop::EndOfTree }
    } else if !within(row.key, r) {
        Scan { served, stop: Stop::EndOfRange }
    } else if served.len() > 0 && bytes + carried(row) > r.max_bytes {
        Scan { served, stop: Stop::Limit }
    } else {
        let more = served.push(row);
        let total = bytes + carried(row);
        if more.len() >= r.max_entries {
            Scan { served: more, stop: Stop::Limit }
        } else if r.reverse {
            if at_bottom(row.key, r.lo) {
                Scan { served: more, stop: Stop::EndOfRange }
            } else if q == 0 {
                Scan { served: more, stop: Stop::EndOfTree }
            } else {
                match its[q - 1].what {
                    Err(f) => Scan { served: more, stop: Stop::Gap(f) },
                    Ok(_) => scan_from(its, r, q - 1, more, total),
                }
            }
        } else {
            if q + 1 == its.len() {
                Scan { served: more, stop: Stop::EndOfTree }
            } else if !under(its[q + 1].key, r.hi) {
                Scan { served: more, stop: Stop::EndOfRange }
            } else {
                match its[q + 1].what {
                    Err(f) => Scan { served: more, stop: Stop::Gap(f) },
                    Ok(_) => scan_from(its, r, q + 1, more, total),
                }
            }
        }
    }
}

/// Nothing served.
pub open spec fn nothing(stop: Stop) -> Scan {
    Scan { served: Seq::empty(), stop }
}

/// The scan from where a cursor landed.
pub open spec fn scan_at(its: Seq<Item>, r: RangeView, at: Result<Spot, Fault>, none: Stop) -> Scan {
    match at {
        Err(f) => nothing(Stop::Gap(f)),
        Ok(Spot::At(q)) => scan_from(its, r, q, Seq::empty(), 0),
        Ok(_) => nothing(none),
    }
}

/// The scan of a range over the items of a tree.
pub open spec fn scan(its: Seq<Item>, r: RangeView) -> Scan {
    if r.reverse {
        match start_of(r) {
            End::Open => scan_at(
                its,
                r,
                cursor::lands(its, its.len() - 1, Spot::BeforeStart),
                Stop::EndOfTree,
            ),
            End::At(k) => scan_at(its, r, cursor::back_spot(its, k, true), Stop::EndOfRange),
            End::Past(k) => scan_at(its, r, cursor::back_spot(its, k, false), Stop::EndOfRange),
        }
    } else {
        match start_of(r) {
            End::Open => scan_at(its, r, cursor::seek_spot(its, Seq::empty()), Stop::EndOfTree),
            End::At(k) => scan_at(its, r, cursor::seek_spot(its, k), Stop::EndOfTree),
            End::Past(k) => match cursor::seek_spot(its, k) {
                Ok(Spot::At(q)) if its[q].key == k => if q + 1 < its.len() && !under(
                    its[q + 1].key,
                    r.hi,
                ) {
                    nothing(Stop::EndOfRange)
                } else {
                    scan_at(its, r, cursor::lands(its, q + 1, Spot::AfterEnd), Stop::EndOfTree)
                },
                at => scan_at(its, r, at, Stop::EndOfTree),
            },
        }
    }
}

// ---------------------------------------------------------------------------
// which children a range reaches
// ---------------------------------------------------------------------------

/// Which part of the range a child covers.
#[derive(Clone, Copy, Debug, PartialEq, Eq, Structural)]
pub enum Span {
    /// Wholly inside the range: its aggregate counts exactly.
    Inside,
    /// Straddles an end of the range: its aggregate is an upper bound.
    Edge,
}

/// One child of a branch, as a walk sees it, before anything is loaded.
#[derive(Clone, Copy, Debug)]
pub struct Child {
    /// Which child of the parent this is.
    pub idx: usize,
    pub id: Cid,
    pub agg: Agg,
    pub span: Span,
    /// A child of a level-1 branch is a leaf.
    pub is_leaf: bool,
}

/// Is a key at or before the key of a bound?
pub open spec fn reaches_only(key: Seq<u8>, end: End) -> bool {
    match end {
        End::Open => false,
        End::At(k) => order::le(key, k),
        End::Past(k) => order::le(key, k),
    }
}

/// Can child `i` hold a key of the range? Every key it holds is at or after its
/// first key and before its next sibling's.
pub open spec fn intersects(h: HeldView, i: int, r: RangeView) -> bool {
    let rows = h.node.rows;
    &&& under(rows[i].key, r.hi)
    &&& !(i + 1 < rows.len() && reaches_only(rows[i + 1].key, r.lo))
}

/// Does every key child `i` can hold lie in the range?
pub open spec fn inside(h: HeldView, i: int, r: RangeView) -> bool {
    &&& above(h.node.rows[i].key, r.lo)
    &&& match r.hi {
        End::Open => true,
        _ => match store::child_bound(h, i) {
            Some(u) => reaches_only(u, r.hi),
            None => false,
        },
    }
}

/// Is a key at or before the key of a bound?
fn only_reaches(key: &[u8], end: &Bound) -> (r: bool)
    ensures
        r == reaches_only(key@, end@),
{
    match end {
        Bound::Unbounded => false,
        Bound::Included(k) => at_most(key, k.as_slice()),
        Bound::Excluded(k) => at_most(key, k.as_slice()),
    }
}

/// Child `i` of `node`, if it intersects `r`. Classifying a child reads the parent
/// only.
pub fn classify(node: &Held<'_>, i: usize, r: &Range) -> (c: Option<Child>)
    requires
        node@.node.level > 0,
        i < node@.node.rows.len(),
    ensures
        match c {
            None => !intersects(node@, i as int, r@),
            Some(c) => {
                &&& intersects(node@, i as int, r@)
                &&& c.idx == i
                &&& c.id@ == store::child_cid(node@.node.rows[i as int])
                &&& c.agg == store::child_agg(node@.node.rows[i as int])
                &&& c.span == (if inside(node@, i as int, r@) {
                    Span::Inside
                } else {
                    Span::Edge
                })
                &&& c.is_leaf == (node@.node.level == 1)
            },
        },
{
    let n = node.node().len();
    let min = node.node().key(i);
    // Wholly above the range: its smallest key is already past the top.
    if !below_hi(min.as_slice(), &r.hi) {
        return None;
    }
    // Wholly below it: everything it holds is under the next key.
    if i + 1 < n {
        let next = node.node().key(i + 1);
        if only_reaches(next.as_slice(), &r.lo) {
            return None;
        }
    }
    let tops = match &r.hi {
        Bound::Unbounded => true,
        _ => match node.child_upper(i) {
            Some(u) => only_reaches(u.as_slice(), &r.hi),
            None => false,
        },
    };
    let span = if above_lo(min.as_slice(), &r.lo) && tops {
        Span::Inside
    } else {
        Span::Edge
    };
    let (id, agg) = node.node().child(i);
    node.node().known_valid();
    assert(node::row_fits(node@.node.level, node@.node.rows[i as int]));
    Some(Child { idx: i, id, agg, span, is_leaf: node.node().level() == 1 })
}

// ---------------------------------------------------------------------------
// which blocks to fetch
// ---------------------------------------------------------------------------

/// The blocks named so far, and what they can contribute.
#[verifier::ext_equal]
pub struct Front {
    pub out: Seq<Seq<u8>>,
    pub entries: int,
    pub bytes: int,
    /// Enough has been named.
    pub covered: bool,
}

/// A sum that stays within 64 bits.
pub open spec fn capped(a: int, b: int) -> int {
    if a + b > u64::MAX {
        u64::MAX as int
    } else {
        a + b
    }
}

/// Counting a block against the caller's limit. A leaf contributes at most what a
/// page can take from it; either limit being covered is enough.
pub open spec fn counted(f: Front, agg: Agg, leaf: bool, r: RangeView, o: Options) -> Front {
    let b = if leaf && o.cap_leaf_bytes && agg.bytes > MAX_LOGICAL {
        MAX_LOGICAL as int
    } else {
        agg.bytes as int
    };
    let entries = capped(f.entries, agg.count as int);
    let bytes = capped(f.bytes, b);
    Front {
        out: f.out,
        entries,
        bytes,
        covered: f.covered || f.out.len() >= MAX_NEED || (o.agg_bound && (entries >= r.max_entries
            || bytes >= r.max_bytes)),
    }
}

/// Naming a block that is not held.
pub open spec fn named(
    f: Front,
    cid: Seq<u8>,
    agg: Agg,
    leaf: bool,
    r: RangeView,
    o: Options,
) -> Front {
    if f.out.contains(cid) {
        f
    } else {
        counted(Front { out: f.out.push(cid), ..f }, agg, leaf, r, o)
    }
}

/// A leaf that is held needs no fetch, but it fills the caller's limit, once
/// something has been named.
pub open spec fn passed(f: Front, agg: Agg, r: RangeView, o: Options) -> Front {
    if f.out.len() == 0 {
        f
    } else {
        counted(f, agg, true, r, o)
    }
}

/// The child that a scan visits as its `k`th.
pub open spec fn visited(h: HeldView, r: RangeView, k: int) -> int {
    if r.reverse {
        h.node.rows.len() - 1 - k
    } else {
        k
    }
}

/// The frontier after the first `n` children of a branch, in scan order.
pub open spec fn front_children(
    m: BlockMap,
    h: HeldView,
    r: RangeView,
    o: Options,
    f: Front,
    n: nat,
) -> Result<Front, Fault>
    decreases h.node.level, 1nat, n,
{
    if n == 0 || h.node.level == 0 {
        Ok(f)
    } else {
        match front_children(m, h, r, o, f, (n - 1) as nat) {
            Err(e) => Err(e),
            Ok(g) => front_child(m, h, r, o, g, visited(h, r, n - 1)),
        }
    }
}

/// The frontier after one child more.
pub open spec fn front_child(
    m: BlockMap,
    h: HeldView,
    r: RangeView,
    o: Options,
    g: Front,
    i: int,
) -> Result<Front, Fault>
    decreases h.node.level, 0nat, 0nat,
{
    let row = h.node.rows[i];
    let cid = store::child_cid(row);
    let agg = store::child_agg(row);
    let leaf = h.node.level == 1;
    if !intersects(h, i, r) || g.covered {
        Ok(g)
    } else if !m.contains_key(cid) {
        Ok(named(g, cid, agg, leaf, r, o))
    } else if leaf {
        Ok(passed(g, agg, r, o))
    } else {
        match store::opened(m, h, i) {
            Err(f) => Err(f),
            Ok(c) => front_children(m, c, r, o, g, c.node.rows.len()),
        }
    }
}

/// The blocks a scan of `r` needs, in scan order, named from the held branches
/// alone.
pub open spec fn spec_frontier(m: BlockMap, root: Seq<u8>, r: RangeView, o: Options) -> Result<
    Seq<Seq<u8>>,
    Fault,
> {
    match store::loaded(m, root) {
        Err(f) => Err(f),
        Ok(n) => {
            let h = HeldView { node: n, upper: None };
            let f = Front { out: Seq::empty(), entries: 0, bytes: 0, covered: false };
            match front_children(m, h, r, o, f, n.rows.len()) {
                Err(f) => Err(f),
                Ok(g) => Ok(g.out),
            }
        },
    }
}

struct Walk {
    out: Vec<Cid>,
    entries: u64,
    bytes: u64,
    covered: bool,
}

impl View for Walk {
    type V = Front;

    closed spec fn view(&self) -> Front {
        Front {
            out: node::cids_of(self.out@),
            entries: self.entries as int,
            bytes: self.bytes as int,
            covered: self.covered,
        }
    }
}

/// Is an id in a list?
pub(crate) fn has_id(ids: &Vec<Cid>, id: &Cid) -> (r: bool)
    ensures
        r == node::cids_of(ids@).contains(id@),
{
    let mut i: usize = 0;
    while i < ids.len()
        invariant
            i <= ids@.len(),
            forall|j: int| 0 <= j < i ==> (#[trigger] ids@[j])@ != id@,
        decreases ids@.len() - i,
    {
        if order::same(ids[i].as_slice(), id.as_slice()) {
            assert(node::cids_of(ids@)[i as int] == id@);
            return true;
        }
        i = i + 1;
    }
    assert forall|j: int| 0 <= j < node::cids_of(ids@).len() implies node::cids_of(ids@)[j]
        != id@ by {
        assert(ids@[j]@ != id@);
    }
    false
}

fn capped_sum(a: u64, b: u64) -> (s: u64)
    ensures
        s == capped(a as int, b as int),
{
    match a.checked_add(b) {
        Some(s) => s,
        None => 18446744073709551615,
    }
}

impl Walk {
    fn add(&mut self, agg: Agg, leaf: bool, r: &Range, o: Options)
        ensures
            final(self)@ == counted(old(self)@, agg, leaf, r@, o),
    {
        let b = if leaf && o.cap_leaf_bytes && agg.bytes > MAX_LOGICAL as u64 {
            MAX_LOGICAL as u64
        } else {
            agg.bytes
        };
        self.entries = capped_sum(self.entries, agg.count);
        self.bytes = capped_sum(self.bytes, b);
        let enough = o.agg_bound && (self.entries >= r.max_entries as u64 || self.bytes
            >= r.max_bytes as u64);
        assert(node::cids_of(self.out@).len() == self.out@.len());
        if self.out.len() >= MAX_NEED || enough {
            self.covered = true;
        }
    }

    /// Name a block, and record what it can contribute. The block that stopped the
    /// scan is always named, however tight the limit is.
    fn name(&mut self, id: Cid, agg: Agg, leaf: bool, r: &Range, o: Options)
        ensures
            final(self)@ == named(old(self)@, id@, agg, leaf, r@, o),
    {
        if has_id(&self.out, &id) {
            return;
        }
        let ghost before = self.out@;
        self.out.push(id);
        assert(node::cids_of(self.out@) =~= node::cids_of(before).push(id@));
        self.add(agg, leaf, r, o);
    }

    /// A leaf that is already held still fills the caller's limit, but never before
    /// something has been named.
    fn hold(&mut self, agg: Agg, r: &Range, o: Options)
        ensures
            final(self)@ == passed(old(self)@, agg, r@, o),
    {
        assert(node::cids_of(self.out@).len() == self.out@.len());
        if self.out.len() == 0 {
            return;
        }
        self.add(agg, true, r, o);
    }
}

/// A child that fails, fails the walk.
proof fn lemma_front_err(
    m: BlockMap,
    h: HeldView,
    r: RangeView,
    o: Options,
    f: Front,
    k: nat,
    n: nat,
)
    requires
        k <= n,
        front_children(m, h, r, o, f, k) is Err,
    ensures
        front_children(m, h, r, o, f, n) == front_children(m, h, r, o, f, k),
    decreases n,
{
    if k < n {
        lemma_front_err(m, h, r, o, f, k, (n - 1) as nat);
    }
}

/// Walk the held branches and name the blocks that are not held. A missing branch
/// is named and not descended: its children are unknowable until it arrives.
fn walk<'a, B: Blocks>(blocks: &'a B, node: &Held<'a>, r: &Range, o: Options, f: &mut Walk) -> (x:
    Result<(), ReadError>)
    ensures
        ({
            let want = front_children(
                blocks.held(),
                node@,
                r@,
                o,
                old(f)@,
                node@.node.rows.len(),
            );
            match x {
                Ok(_) => want == Ok::<Front, Fault>(final(f)@),
                Err(e) => want == Err::<Front, Fault>(e@),
            }
        }),
    decreases node@.node.level,
{
    let ghost m = blocks.held();
    let ghost h = node@;
    let ghost f0 = f@;
    let n = node.node().len();
    if node.node().level() == 0 {
        return Ok(());
    }
    let mut k: usize = 0;
    while k < n
        invariant
            k <= n,
            n == h.node.rows.len(),
            h == node@,
            h.node.level > 0,
            m == blocks.held(),
            f0 == old(f)@,
            front_children(m, h, r@, o, f0, k as nat) == Ok::<Front, Fault>(f@),
        decreases n - k,
    {
        let i = if r.reverse {
            n - 1 - k
        } else {
            k
        };
        assert(visited(h, r@, k as int) == i);
        if let Some(c) = classify(node, i, r) {
            if !f.covered {
                if blocks.get(&c.id).is_none() {
                    f.name(c.id, c.agg, c.is_leaf, r, o);
                } else if c.is_leaf {
                    f.hold(c.agg, r, o);
                } else {
                    match node.open(blocks, i) {
                        Err(e) => {
                            proof {
                                assert(front_child(m, h, r@, o, f@, i as int) == Err::<
                                    Front,
                                    Fault,
                                >(e@));
                                lemma_front_err(m, h, r@, o, f0, (k + 1) as nat, n as nat);
                            }
                            return Err(e);
                        },
                        Ok(child) => match walk(blocks, &child, r, o, f) {
                            Err(e) => {
                                proof {
                                    lemma_front_err(m, h, r@, o, f0, (k + 1) as nat, n as nat);
                                }
                                return Err(e);
                            },
                            Ok(_) => {},
                        },
                    }
                }
            }
        }
        k = k + 1;
    }
    Ok(())
}

/// The frontier, with its bounds.
fn frontier<B: Blocks>(opts: Options, blocks: &B, root: &Cid, rest: &Range) -> (x: Result<
    Vec<Cid>,
    ReadError,
>)
    ensures
        match x {
            Ok(ids) => spec_frontier(blocks.held(), root@, rest@, opts) == Ok::<
                Seq<Seq<u8>>,
                Fault,
            >(node::cids_of(ids@)),
            Err(e) => spec_frontier(blocks.held(), root@, rest@, opts) == Err::<
                Seq<Seq<u8>>,
                Fault,
            >(e@),
        },
{
    let mut f = Walk { out: Vec::new(), entries: 0, bytes: 0, covered: false };
    assert(node::cids_of(f.out@) =~= Seq::<Seq<u8>>::empty());
    let h = match Held::root(blocks, root) {
        Err(e) => return Err(e),
        Ok(h) => h,
    };
    match walk(blocks, &h, rest, opts, &mut f) {
        Err(e) => Err(e),
        Ok(_) => Ok(f.out),
    }
}

/// The blocks a scan of `rest` needs, in scan order, named from the held branches
/// alone.
pub fn frontier_of<B: Blocks>(blocks: &B, root: &Cid, rest: &Range) -> (x: Result<
    Vec<Cid>,
    ReadError,
>)
    ensures
        ({
            let o = Options { agg_bound: true, cap_leaf_bytes: true };
            match x {
                Ok(ids) => spec_frontier(blocks.held(), root@, rest@, o) == Ok::<
                    Seq<Seq<u8>>,
                    Fault,
                >(node::cids_of(ids@)),
                Err(e) => spec_frontier(blocks.held(), root@, rest@, o) == Err::<
                    Seq<Seq<u8>>,
                    Fault,
                >(e@),
            }
        }),
{
    frontier(Options::default(), blocks, root, rest)
}

// ---------------------------------------------------------------------------
// pages
// ---------------------------------------------------------------------------

/// The part of `r` still to come after `key` in scan order.
pub open spec fn spec_rest_after(r: RangeView, key: Seq<u8>) -> RangeView {
    if r.reverse {
        RangeView { hi: End::Past(key), after: None, ..r }
    } else {
        RangeView { lo: End::Past(key), after: None, ..r }
    }
}

/// The part of `r` the scan has not started yet, with `after` folded in.
pub open spec fn spec_rest_from_start(r: RangeView) -> RangeView {
    if r.reverse {
        RangeView { hi: start_of(r), after: None, ..r }
    } else {
        RangeView { lo: start_of(r), after: None, ..r }
    }
}

/// The part of `r` still to come after `key` in scan order.
fn rest_after(r: &Range, key: &[u8]) -> (x: Range)
    ensures
        x@ == spec_rest_after(r@, key@),
{
    let past = Bound::Excluded(vstd::slice::slice_to_vec(key));
    if r.reverse {
        Range {
            lo: copy_bound(&r.lo),
            hi: past,
            reverse: true,
            after: None,
            max_entries: r.max_entries,
            max_bytes: r.max_bytes,
        }
    } else {
        Range {
            lo: past,
            hi: copy_bound(&r.hi),
            reverse: false,
            after: None,
            max_entries: r.max_entries,
            max_bytes: r.max_bytes,
        }
    }
}

/// The part of `r` the scan has not started yet, with `after` folded in.
fn rest_from_start(r: &Range) -> (x: Range)
    ensures
        x@ == spec_rest_from_start(r@),
{
    let start = start_bound(r);
    if r.reverse {
        Range {
            lo: copy_bound(&r.lo),
            hi: start,
            reverse: true,
            after: None,
            max_entries: r.max_entries,
            max_bytes: r.max_bytes,
        }
    } else {
        Range {
            lo: start,
            hi: copy_bound(&r.hi),
            reverse: false,
            after: None,
            max_entries: r.max_entries,
            max_bytes: r.max_bytes,
        }
    }
}

/// The page of a scan that stopped at a gap: the blocks to fetch are the frontier of
/// what is left, or the block that stopped it where that names nothing. A gap that
/// is not just missing is an error.
pub open spec fn blocked(
    m: BlockMap,
    root: Seq<u8>,
    o: Options,
    served: Seq<Row>,
    rest: RangeView,
    f: Fault,
) -> Result<PageView, Fault> {
    match f {
        Fault::Need(ids) => match spec_frontier(m, root, rest, o) {
            Err(e) => Err(e),
            Ok(out) => Ok(
                PageView {
                    entries: served,
                    next: if served.len() > 0 {
                        Some(served.last().key)
                    } else {
                        None
                    },
                    need: if out.len() == 0 {
                        ids
                    } else {
                        out
                    },
                    end: PageEnd::Blocked,
                },
            ),
        },
        other => Err(other),
    }
}

/// The page of a scan.
pub open spec fn page_of(
    m: BlockMap,
    root: Seq<u8>,
    r: RangeView,
    o: Options,
    s: Scan,
) -> Result<PageView, Fault> {
    let done = PageView { entries: s.served, next: None, need: Seq::empty(), end: PageEnd::Limit };
    match s.stop {
        Stop::EndOfRange => Ok(PageView { end: PageEnd::EndOfRange, ..done }),
        Stop::EndOfTree => Ok(PageView { end: PageEnd::EndOfTree, ..done }),
        Stop::Limit => Ok(PageView { next: Some(s.served.last().key), ..done }),
        Stop::Gap(f) => {
            let rest = if s.served.len() > 0 {
                spec_rest_after(r, s.served.last().key)
            } else {
                spec_rest_from_start(r)
            };
            blocked(m, root, o, s.served, rest, f)
        },
    }
}

/// The page that a range gives.
pub open spec fn spec_page(m: BlockMap, root: Seq<u8>, r: RangeView, o: Options) -> Result<
    PageView,
    Fault,
> {
    let empty = PageView {
        entries: Seq::empty(),
        next: None,
        need: Seq::empty(),
        end: PageEnd::EndOfRange,
    };
    if hopeless(r) {
        Ok(empty)
    } else if !m.contains_key(root) {
        Ok(PageView { need: seq![root], end: PageEnd::Blocked, ..empty })
    } else {
        page_of(m, root, r, o, scan(tree::items(m, root), r))
    }
}

/// A page that is over, with what it has served.
fn closed_page<'a>(entries: Vec<(Vec<u8>, Value<'a>)>, end: PageEnd) -> (p: Page<'a>)
    ensures
        p@ == (PageView { entries: rows_of(entries@), next: None, need: Seq::empty(), end }),
{
    let p = Page { entries, next: None, need: Vec::new(), end };
    assert(node::cids_of(p.need@) =~= Seq::<Seq<u8>>::empty());
    p
}

/// The key of the last entry served.
fn last_key<'a>(entries: &Vec<(Vec<u8>, Value<'a>)>) -> (r: Option<Vec<u8>>)
    ensures
        match r {
            None => entries@.len() == 0,
            Some(k) => entries@.len() > 0 && k@ == rows_of(entries@).last().key,
        },
{
    let n = entries.len();
    if n == 0 {
        None
    } else {
        Some(vstd::slice::slice_to_vec(entries[n - 1].0.as_slice()))
    }
}

/// The page of a scan that stopped at a gap.
fn stopped<'a, B: Blocks>(
    opts: Options,
    blocks: &'a B,
    root: &Cid,
    entries: Vec<(Vec<u8>, Value<'a>)>,
    rest: &Range,
    e: ReadError,
) -> (x: Result<Page<'a>, RangeError>)
    ensures
        ({
            let want = blocked(blocks.held(), root@, opts, rows_of(entries@), rest@, e@);
            match x {
                Ok(p) => want == Ok::<PageView, Fault>(p@),
                Err(RangeError::Read(f)) => want == Err::<PageView, Fault>(f@),
                Err(RangeError::NoLimit) => false,
            }
        }),
{
    match e {
        ReadError::Need(ids) => match frontier(opts, blocks, root, rest) {
            Err(f) => Err(RangeError::Read(f)),
            Ok(out) => {
                assert(node::cids_of(out@).len() == out@.len());
                let need = if out.len() == 0 {
                    ids
                } else {
                    out
                };
                let next = last_key(&entries);
                Ok(Page { entries, next, need, end: PageEnd::Blocked })
            },
        },
        other => Err(RangeError::Read(other)),
    }
}

/// Place a cursor at the first entry of the scan, or say how the scan is over
/// before it starts.
fn open<'a, B: Blocks>(blocks: &'a B, root: &Cid, r: &Range) -> (x: Result<
    Result<Cursor<'a, B>, PageEnd>,
    ReadError,
>)
    ensures
        ({
            let its = tree::items(blocks.held(), root@);
            match x {
                Ok(Ok(c)) => {
                    &&& c.wf()
                    &&& c.source() == blocks.held()
                    &&& c.root() == root@
                    &&& c.spot() is At
                    &&& 0 <= c.spot()->At_0 < its.len()
                    &&& scan(its, r@) == scan_from(its, r@, c.spot()->At_0, Seq::empty(), 0)
                },
                Ok(Err(end)) => {
                    ||| end == PageEnd::EndOfRange && scan(its, r@) == nothing(Stop::EndOfRange)
                    ||| end == PageEnd::EndOfTree && scan(its, r@) == nothing(Stop::EndOfTree)
                },
                Err(e) => scan(its, r@) == nothing(Stop::Gap(e@)),
            }
        }),
{
    let ghost its = tree::items(blocks.held(), root@);
    let start = start_bound(r);
    if r.reverse {
        match &start {
            Bound::Unbounded => match Cursor::seek_last(blocks, root) {
                Err(e) => Err(e),
                Ok(c) => if c.on_entry() {
                    Ok(Ok(c))
                } else {
                    Ok(Err(PageEnd::EndOfTree))
                },
            },
            Bound::Included(k) => match Cursor::seek_back(blocks, root, k.as_slice(), true) {
                Err(e) => Err(e),
                Ok(c) => if c.on_entry() {
                    Ok(Ok(c))
                } else {
                    Ok(Err(PageEnd::EndOfRange))
                },
            },
            Bound::Excluded(k) => match Cursor::seek_back(blocks, root, k.as_slice(), false) {
                Err(e) => Err(e),
                Ok(c) => if c.on_entry() {
                    Ok(Ok(c))
                } else {
                    Ok(Err(PageEnd::EndOfRange))
                },
            },
        }
    } else {
        match &start {
            Bound::Unbounded => {
                let none: [u8; 0] = [];
                assert(none@ =~= Seq::<u8>::empty());
                match Cursor::seek(blocks, root, none.as_slice()) {
                    Err(e) => Err(e),
                    Ok(c) => if c.on_entry() {
                        Ok(Ok(c))
                    } else {
                        Ok(Err(PageEnd::EndOfTree))
                    },
                }
            },
            Bound::Included(k) => match Cursor::seek(blocks, root, k.as_slice()) {
                Err(e) => Err(e),
                Ok(c) => if c.on_entry() {
                    Ok(Ok(c))
                } else {
                    Ok(Err(PageEnd::EndOfTree))
                },
            },
            Bound::Excluded(k) => match Cursor::seek(blocks, root, k.as_slice()) {
                Err(e) => Err(e),
                Ok(c) => match c.peek() {
                    None => Ok(Err(PageEnd::EndOfTree)),
                    Some((got, _)) => {
                        if !order::same(got.as_slice(), k.as_slice()) {
                            return Ok(Ok(c));
                        }
                        // The only step left may leave the range, and that step is
                        // not paid for.
                        if let Some(next) = c.next_key() {
                            if !below_hi(next.as_slice(), &r.hi) {
                                return Ok(Err(PageEnd::EndOfRange));
                            }
                        }
                        let mut c = c;
                        match c.next() {
                            Err(e) => Err(e),
                            Ok(true) => Ok(Ok(c)),
                            Ok(false) => Ok(Err(PageEnd::EndOfTree)),
                        }
                    },
                },
            },
        }
    }
}

/// Serve as much of `r` from `blocks` as the limits and the held blocks allow.
///
/// Never skips a hole: the page stops at the first missing leaf, and `need` names
/// it. Values are borrowed from `blocks`.
pub fn range<'a, B: Blocks>(blocks: &'a B, root: &Cid, r: &Range) -> (x: Result<
    Page<'a>,
    RangeError,
>)
    ensures
        ({
            let o = Options { agg_bound: true, cap_leaf_bytes: true };
            let want = spec_page(blocks.held(), root@, r@, o);
            match x {
                Ok(p) => r.max_entries > 0 && want == Ok::<PageView, Fault>(p@),
                Err(RangeError::Read(f)) => r.max_entries > 0 && want == Err::<PageView, Fault>(f@),
                Err(RangeError::NoLimit) => r.max_entries == 0,
            }
        }),
{
    range_with(Options::default(), blocks, root, r)
}

/// [`range`], with the frontier bounded as `opts` says.
pub fn range_with<'a, B: Blocks>(opts: Options, blocks: &'a B, root: &Cid, r: &Range) -> (x: Result<
    Page<'a>,
    RangeError,
>)
    ensures
        ({
            let want = spec_page(blocks.held(), root@, r@, opts);
            match x {
                Ok(p) => r.max_entries > 0 && want == Ok::<PageView, Fault>(p@),
                Err(RangeError::Read(f)) => r.max_entries > 0 && want == Err::<PageView, Fault>(f@),
                Err(RangeError::NoLimit) => r.max_entries == 0,
            }
        }),
{
    let ghost m = blocks.held();
    let ghost its = tree::items(m, root@);
    if r.max_entries == 0 {
        return Err(RangeError::NoLimit);
    }
    let mut entries: Vec<(Vec<u8>, Value<'a>)> = Vec::new();
    assert(rows_of(entries@) =~= Seq::<Row>::empty());
    // Bounds that cannot hold a key: no block is read to find out.
    if bounds_are_empty(r) {
        return Ok(closed_page(entries, PageEnd::EndOfRange));
    }
    if blocks.get(root).is_none() {
        let mut need: Vec<Cid> = Vec::new();
        need.push(*root);
        assert(node::cids_of(need@) =~= seq![root@]);
        return Ok(Page { entries, next: None, need, end: PageEnd::Blocked });
    }
    let mut cur = match open(blocks, root, r) {
        Ok(Ok(c)) => c,
        Ok(Err(end)) => return Ok(closed_page(entries, end)),
        Err(e) => {
            // Nothing served. Nothing to fetch is not nothing to serve: where the
            // frontier names nothing, the block the descent stopped on is named.
            let rest = rest_from_start(r);
            return stopped(opts, blocks, root, entries, &rest, e);
        },
    };
    let mut bytes: usize = 0;
    let ghost whole_scan = scan(its, r@);
    loop
        invariant
            m == blocks.held(),
            its == tree::items(m, root@),
            r.max_entries > 0,
            cur.wf(),
            cur.source() == m,
            cur.root() == root@,
            cur.spot() is At,
            0 <= cur.spot()->At_0 < its.len(),
            entries@.len() < r.max_entries,
            entries@.len() > 0 ==> bytes <= r.max_bytes || entries@.len() == 1,
            entries@.len() == 0 ==> bytes == 0,
            bytes <= r.max_bytes || bytes <= 32768,
            whole_scan == scan(its, r@),
            spec_page(m, root@, r@, opts) == page_of(m, root@, r@, opts, whole_scan),
            whole_scan == scan_from(
                its,
                r@,
                cur.spot()->At_0,
                rows_of(entries@),
                bytes as int,
            ),
        decreases
                if r.reverse {
                    cur.spot()->At_0
                } else {
                    its.len() - cur.spot()->At_0
                },
    {
        let ghost q = cur.spot()->At_0;
        let (key, value) = match cur.peek() {
            None => {
                assert(false);
                return Ok(closed_page(entries, PageEnd::EndOfTree));
            },
            Some(e) => e,
        };
        let ghost row = Row { key: key@, held: value@ };
        assert(its[q].key == row.key && its[q].what == Ok::<Payload, Fault>(row.held));
        if !in_range(key.as_slice(), r) {
            // Past the far end of the range: complete.
            return Ok(closed_page(entries, PageEnd::EndOfRange));
        }
        let cost = cur.entry_cost();
        // A page always returns one entry if one is available, even when that entry
        // alone is over the byte limit.
        if entries.len() > 0 && (bytes > r.max_bytes || cost > r.max_bytes - bytes) {
            let next = last_key(&entries);
            let need: Vec<Cid> = Vec::new();
            assert(node::cids_of(need@) =~= Seq::<Seq<u8>>::empty());
            return Ok(Page { entries, next, need, end: PageEnd::Limit });
        }
        let ghost before = entries@;
        bytes = bytes + cost;
        let kept = vstd::slice::slice_to_vec(key.as_slice());
        entries.push((kept, value));
        assert(rows_of(entries@) =~= rows_of(before).push(row));
        if entries.len() >= r.max_entries {
            let need: Vec<Cid> = Vec::new();
            assert(node::cids_of(need@) =~= Seq::<Seq<u8>>::empty());
            assert(rows_of(entries@).last().key == key@);
            return Ok(Page { entries, next: Some(key), need, end: PageEnd::Limit });
        }
        // Stepping to the neighbouring leaf costs a block, and the ancestors already
        // say which keys it holds.
        let edge = if r.reverse {
            bottom_reached(key.as_slice(), &r.lo)
        } else {
            match cur.next_key() {
                None => false,
                Some(next) => !below_hi(next.as_slice(), &r.hi),
            }
        };
        if edge {
            return Ok(closed_page(entries, PageEnd::EndOfRange));
        }
        let moved = if r.reverse {
            cur.prev()
        } else {
            cur.next()
        };
        match moved {
            Ok(true) => {},
            Ok(false) => {
                return Ok(closed_page(entries, PageEnd::EndOfTree));
            },
            Err(e) => {
                let rest = rest_after(r, key.as_slice());
                assert(rows_of(entries@).last().key == key@);
                return stopped(opts, blocks, root, entries, &rest, e);
            },
        }
    }
}

/// Is the scan, having served `key`, at the low end of its range?
fn bottom_reached(key: &[u8], lo: &Bound) -> (r: bool)
    ensures
        r == at_bottom(key@, lo@),
{
    only_reaches(key, lo)
}

// ---------------------------------------------------------------------------
// values
// ---------------------------------------------------------------------------

/// The bytes of a value that lives in its own block: what is held under its id, if
/// it is as long as the leaf says.
pub open spec fn spec_value(m: BlockMap, v: Payload) -> Result<Seq<u8>, Fault> {
    match v {
        Payload::Inline(b) => Ok(b),
        Payload::Ref { cid, len } => if !m.contains_key(cid) {
            Err(Fault::Need(seq![cid]))
        } else if m[cid].len() != len {
            Err(Fault::Mismatch(cid))
        } else {
            Ok(m[cid])
        },
        Payload::Child { cid, .. } => Err(Fault::Mismatch(cid)),
    }
}

/// The bytes of a value that lives in its own block. The recorded length is
/// checked, because a leaf's length and the block are two separate statements.
pub fn value_bytes<'a, B: Blocks>(blocks: &'a B, cid: &Cid, len: u32) -> (r: Result<
    &'a [u8],
    ReadError,
>)
    ensures
        match r {
            Ok(b) => spec_value(blocks.held(), Payload::Ref { cid: cid@, len }) == Ok::<
                Seq<u8>,
                Fault,
            >(b@),
            Err(e) => spec_value(blocks.held(), Payload::Ref { cid: cid@, len }) == Err::<
                Seq<u8>,
                Fault,
            >(e@),
        },
{
    match blocks.get(cid) {
        None => Err(store::need_one(cid)),
        Some(b) => if b.len() != len as usize {
            Err(ReadError::Mismatch(*cid))
        } else {
            Ok(b)
        },
    }
}

/// The bytes of a value, wherever the format put it.
pub fn read_value<'a, B: Blocks>(blocks: &'a B, v: Value<'a>) -> (r: Result<&'a [u8], ReadError>)
    ensures
        match r {
            Ok(b) => spec_value(blocks.held(), v@) == Ok::<Seq<u8>, Fault>(b@),
            Err(e) => spec_value(blocks.held(), v@) == Err::<Seq<u8>, Fault>(e@),
        },
{
    match v {
        Value::Inline(b) => Ok(b),
        Value::Ref { cid, len } => value_bytes(blocks, &cid, len),
    }
}

} // verus!
