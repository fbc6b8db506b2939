//! Counting a range without reading it.
//!
//! A branch records, for each child, what that child's subtree contains. So a count
//! can touch two root-to-leaf paths instead of every entry: a subtree that lies
//! wholly inside the range contributes its recorded aggregate and is never loaded.
//!
//! A subtree inside the range is then never opened, so nothing checks that what its
//! parent says about it is true. The two answers are different types, and there is
//! no conversion from one to the other:
//!
//! - [`Claimed`]: fast, and believed. Fine for display.
//! - [`Verified`]: every node in range is read and checked against its parent.
//!   Anything that gates must use this.

use crate::node;
use crate::node::{Agg, Node, NodeView, Row};
use crate::order;
use crate::range;
use crate::range::{classify, has_id, in_range, Range, RangeView, Span, MAX_NEED};
use crate::store;
use crate::store::{BlockMap, Blocks, Fault, Held, HeldView, ReadError};
use crate::tree;
use crate::tree::Item;
use crate::{block_id, kind, Cid};
use vstd::prelude::*;

verus! {

/// A count taken from what branches record about subtrees nobody opened.
#[derive(Clone, Copy, Debug, PartialEq, Eq)]
pub struct Claimed(Agg);

/// A count where every node in the range was read and checked against its parent.
/// The field is private, so [`aggregate_verified`] is the only way to get one.
#[derive(Clone, Copy, Debug, PartialEq, Eq)]
pub struct Verified(Agg);

impl Claimed {
    pub closed spec fn value(&self) -> Agg {
        self.0
    }

    /// The numbers, with whatever trust the type carries.
    pub fn agg(&self) -> (a: Agg)
        ensures
            a == self.value(),
    {
        self.0
    }
}

impl Verified {
    pub closed spec fn value(&self) -> Agg {
        self.0
    }

    /// The numbers.
    pub fn agg(&self) -> (a: Agg)
        ensures
            a == self.value(),
    {
        self.0
    }
}

/// Why there is no count.
#[derive(Clone, Debug, PartialEq, Eq)]
pub enum AggError {
    Read(ReadError),
    /// The range carried a paging instruction. An aggregate of a page is a
    /// different question, so it is refused.
    NotWholeRange(&'static str),
}

// ---------------------------------------------------------------------------
// the model
// ---------------------------------------------------------------------------

/// What has been counted, and the blocks that are needed to go on.
#[verifier::ext_equal]
pub struct Tally {
    pub agg: Agg,
    pub need: Seq<Seq<u8>>,
}

/// What one entry adds.
pub open spec fn weight(row: Row) -> Agg {
    Agg { count: 1, bytes: (row.key.len() + node::value_len(row.held)) as u64 }
}

/// The fault of a sum that does not fit.
pub open spec fn too_much() -> Fault {
    Fault::Mismatch(crate::spec_block_id(kind::TREE_NODE, Seq::empty()))
}

/// Counting the first `n` rows of a leaf.
pub open spec fn count_rows(rows: Seq<Row>, r: RangeView, a: Agg, n: nat) -> Result<Agg, Fault>
    decreases n,
{
    if n == 0 {
        Ok(a)
    } else {
        match count_rows(rows, r, a, (n - 1) as nat) {
            Err(f) => Err(f),
            Ok(b) => if !range::within(rows[n - 1].key, r) {
                Ok(b)
            } else {
                match b.spec_add(weight(rows[n - 1])) {
                    Some(c) => Ok(c),
                    None => Err(too_much()),
                }
            },
        }
    }
}

/// Asking for a block, at most so many and each once.
pub open spec fn asked(need: Seq<Seq<u8>>, cid: Seq<u8>) -> Seq<Seq<u8>> {
    if need.len() < MAX_NEED && !need.contains(cid) {
        need.push(cid)
    } else {
        need
    }
}

/// Counting a node.
pub open spec fn count_node(m: BlockMap, h: HeldView, r: RangeView, verify: bool, t: Tally) -> Result<
    Tally,
    Fault,
>
    decreases h.node.level, 2nat, 0nat,
{
    if h.node.level == 0 {
        match count_rows(h.node.rows, r, t.agg, h.node.rows.len()) {
            Err(f) => Err(f),
            Ok(a) => Ok(Tally { agg: a, need: t.need }),
        }
    } else {
        count_children(m, h, r, verify, t, h.node.rows.len())
    }
}

/// Counting the first `n` children of a branch.
pub open spec fn count_children(
    m: BlockMap,
    h: HeldView,
    r: RangeView,
    verify: bool,
    t: Tally,
    n: nat,
) -> Result<Tally, Fault>
    decreases h.node.level, 1nat, n,
{
    if n == 0 || h.node.level == 0 {
        Ok(t)
    } else {
        match count_children(m, h, r, verify, t, (n - 1) as nat) {
            Err(f) => Err(f),
            Ok(u) => count_child(m, h, r, verify, u, n - 1),
        }
    }
}

/// Counting one child: a subtree wholly inside the range by what its parent says,
/// unless that is to be verified; any other by opening it.
pub open spec fn count_child(
    m: BlockMap,
    h: HeldView,
    r: RangeView,
    verify: bool,
    t: Tally,
    i: int,
) -> Result<Tally, Fault>
    decreases h.node.level, 0nat, 0nat,
{
    let cid = store::child_cid(h.node.rows[i]);
    let agg = store::child_agg(h.node.rows[i]);
    if !range::intersects(h, i, r) {
        Ok(t)
    } else if range::inside(h, i, r) && !verify {
        match t.agg.spec_add(agg) {
            Some(a) => Ok(Tally { agg: a, need: t.need }),
            None => Err(Fault::Mismatch(cid)),
        }
    } else if !m.contains_key(cid) {
        Ok(Tally { agg: t.agg, need: asked(t.need, cid) })
    } else {
        match store::opened(m, h, i) {
            Err(f) => Err(f),
            Ok(c) => if c.node.level < h.node.level {
                count_node(m, c, r, verify, t)
            } else {
                Ok(t)
            },
        }
    }
}

/// The count of a range.
pub open spec fn spec_count(m: BlockMap, root: Seq<u8>, r: RangeView, verify: bool) -> Result<
    Agg,
    Fault,
> {
    match store::loaded(m, root) {
        Err(f) => Err(f),
        Ok(n) => {
            let t = Tally { agg: Agg { count: 0, bytes: 0 }, need: Seq::empty() };
            match count_node(m, HeldView { node: n, upper: None }, r, verify, t) {
                Err(f) => Err(f),
                Ok(u) => if u.need.len() > 0 {
                    Err(Fault::Need(u.need))
                } else {
                    Ok(u.agg)
                },
            }
        },
    }
}

/// The paging instruction a range carries, if any.
pub open spec fn instruction(r: RangeView) -> Option<Seq<char>> {
    if r.reverse {
        Some("reverse"@)
    } else if r.after is Some {
        Some("after"@)
    } else if r.max_entries != range::whole().max_entries || r.max_bytes
        != range::whole().max_bytes {
        Some("a limit"@)
    } else {
        None
    }
}

// ---------------------------------------------------------------------------
// counting
// ---------------------------------------------------------------------------

/// An aggregate answers about a whole range. Paging is a different question.
fn whole_range(r: &Range) -> (x: Result<(), AggError>)
    ensures
        match x {
            Ok(_) => instruction(r@) is None,
            Err(AggError::NotWholeRange(s)) => instruction(r@) == Some(s@),
            Err(AggError::Read(_)) => false,
        },
{
    if r.reverse {
        return Err(AggError::NotWholeRange("reverse"));
    }
    if r.after.is_some() {
        return Err(AggError::NotWholeRange("after"));
    }
    let d = Range::default();
    if r.max_entries != d.max_entries || r.max_bytes != d.max_bytes {
        return Err(AggError::NotWholeRange("a limit"));
    }
    Ok(())
}

/// A row that fails, fails the leaf.
proof fn lemma_rows_err(rows: Seq<Row>, r: RangeView, a: Agg, k: nat, n: nat)
    requires
        k <= n,
        count_rows(rows, r, a, k) is Err,
    ensures
        count_rows(rows, r, a, n) == count_rows(rows, r, a, k),
    decreases n,
{
    if k < n {
        lemma_rows_err(rows, r, a, k, (n - 1) as nat);
    }
}

/// A child that fails, fails the branch.
proof fn lemma_children_err(
    m: BlockMap,
    h: HeldView,
    r: RangeView,
    verify: bool,
    t: Tally,
    k: nat,
    n: nat,
)
    requires
        k <= n,
        count_children(m, h, r, verify, t, k) is Err,
    ensures
        count_children(m, h, r, verify, t, n) == count_children(m, h, r, verify, t, k),
    decreases n,
{
    if k < n {
        lemma_children_err(m, h, r, verify, t, k, (n - 1) as nat);
    }
}

/// The entries of a leaf, one by one.
fn count_leaf(node: &Node<'_>, r: &Range, out: Agg) -> (x: Result<Agg, ReadError>)
    requires
        node@.level == 0,
    ensures
        match x {
            Ok(a) => count_rows(node@.rows, r@, out, node@.rows.len()) == Ok::<Agg, Fault>(a),
            Err(e) => count_rows(node@.rows, r@, out, node@.rows.len()) == Err::<Agg, Fault>(e@),
        },
{
    let ghost rows = node@.rows;
    let mut a = out;
    let n = node.len();
    node.known_valid();
    let mut i: usize = 0;
    while i < n
        invariant
            i <= n,
            n == rows.len(),
            rows == node@.rows,
            node@.level == 0,
            forall|j: int| 0 <= j < rows.len() ==> node::row_fits(0, #[trigger] rows[j]),
            count_rows(rows, r@, out, i as nat) == Ok::<Agg, Fault>(a),
        decreases n - i,
    {
        assert(node::row_fits(0, rows[i as int]));
        let key = node.key(i);
        if in_range(key.as_slice(), r) {
            let vlen = node.value(i).logical_len();
            let w = Agg { count: 1, bytes: key.len() as u64 + vlen };
            match a.checked_add(w) {
                Some(b) => a = b,
                None => {
                    let none: [u8; 0] = [];
                    assert(none@ =~= Seq::<u8>::empty());
                    proof {
                        lemma_rows_err(rows, r@, out, (i + 1) as nat, n as nat);
                    }
                    return Err(ReadError::Mismatch(block_id(kind::TREE_NODE, none.as_slice())));
                },
            }
        }
        i = i + 1;
    }
    Ok(a)
}

/// Count a node's share of the range.
fn count<'a, B: Blocks>(
    blocks: &'a B,
    node: &Held<'a>,
    r: &Range,
    verify: bool,
    out: Agg,
    need: &mut Vec<Cid>,
) -> (x: Result<Agg, ReadError>)
    ensures
        ({
            let want = count_node(
                blocks.held(),
                node@,
                r@,
                verify,
                Tally { agg: out, need: node::cids_of(old(need)@) },
            );
            match x {
                Ok(a) => want == Ok::<Tally, Fault>(
                    Tally { agg: a, need: node::cids_of(final(need)@) },
                ),
                Err(e) => want == Err::<Tally, Fault>(e@),
            }
        }),
    decreases node@.node.level,
{
    let ghost m = blocks.held();
    let ghost h = node@;
    let ghost t = Tally { agg: out, need: node::cids_of(need@) };
    if node.node().is_leaf() {
        return count_leaf(node.node(), r, out);
    }
    let n = node.node().len();
    let mut a = out;
    let mut i: usize = 0;
    while i < n
        invariant
            i <= n,
            n == h.node.rows.len(),
            h == node@,
            h.node.level > 0,
            m == blocks.held(),
            t == (Tally { agg: out, need: node::cids_of(old(need)@) }),
            count_children(m, h, r@, verify, t, i as nat) == Ok::<Tally, Fault>(
                Tally { agg: a, need: node::cids_of(need@) },
            ),
        decreases n - i,
    {
        let ghost u = Tally { agg: a, need: node::cids_of(need@) };
        let ghost after = count_child(m, h, r@, verify, u, i as int);
        proof {
            assert(count_children(m, h, r@, verify, t, (i + 1) as nat) == after);
            if after is Err {
                lemma_children_err(m, h, r@, verify, t, (i + 1) as nat, n as nat);
            }
        }
        if let Some(c) = classify(node, i, r) {
            let within = match c.span {
                Span::Inside => true,
                Span::Edge => false,
            };
            if within && !verify {
                // A subtree wholly inside the range: take what the parent says and
                // do not open it.
                match a.checked_add(c.agg) {
                    Some(b) => a = b,
                    None => return Err(ReadError::Mismatch(c.id)),
                }
            } else if blocks.get(&c.id).is_none() {
                assert(node::cids_of(need@).len() == need@.len());
                if need.len() < MAX_NEED && !has_id(need, &c.id) {
                    let ghost before = need@;
                    need.push(c.id);
                    assert(node::cids_of(need@) =~= node::cids_of(before).push(c.id@));
                }
            } else {
                match node.open(blocks, i) {
                    Err(e) => return Err(e),
                    Ok(child) => match count(blocks, &child, r, verify, a, need) {
                        Err(e) => return Err(e),
                        Ok(b) => a = b,
                    },
                }
            }
        }
        i = i + 1;
    }
    Ok(a)
}

fn run<B: Blocks>(blocks: &B, root: &Cid, r: &Range, verify: bool) -> (x: Result<Agg, AggError>)
    ensures
        match x {
            Ok(a) => instruction(r@) is None && spec_count(blocks.held(), root@, r@, verify)
                == Ok::<Agg, Fault>(a),
            Err(AggError::NotWholeRange(s)) => instruction(r@) == Some(s@),
            Err(AggError::Read(e)) => instruction(r@) is None && spec_count(
                blocks.held(),
                root@,
                r@,
                verify,
            ) == Err::<Agg, Fault>(e@),
        },
{
    if let Err(e) = whole_range(r) {
        return Err(e);
    }
    let h = match Held::root(blocks, root) {
        Err(e) => return Err(AggError::Read(e)),
        Ok(h) => h,
    };
    let mut need: Vec<Cid> = Vec::new();
    assert(node::cids_of(need@) =~= Seq::<Seq<u8>>::empty());
    assert(h@ == HeldView { node: h@.node, upper: None });
    match count(blocks, &h, r, verify, Agg { count: 0, bytes: 0 }, &mut need) {
        Err(e) => Err(AggError::Read(e)),
        Ok(a) => {
            assert(node::cids_of(need@).len() == need@.len());
            if need.len() > 0 {
                Err(AggError::Read(ReadError::Need(need)))
            } else {
                Ok(a)
            }
        },
    }
}

/// `{count, bytes}` of the entries in `r`, from the aggregates branches carry. Reads
/// two root-to-leaf paths, not the range. Use [`aggregate_verified`] for anything
/// that gates.
pub fn aggregate<B: Blocks>(blocks: &B, root: &Cid, r: &Range) -> (x: Result<Claimed, AggError>)
    ensures
        match x {
            Ok(c) => instruction(r@) is None && spec_count(blocks.held(), root@, r@, false)
                == Ok::<Agg, Fault>(c.value()),
            Err(AggError::NotWholeRange(s)) => instruction(r@) == Some(s@),
            Err(AggError::Read(e)) => instruction(r@) is None && spec_count(
                blocks.held(),
                root@,
                r@,
                false,
            ) == Err::<Agg, Fault>(e@),
        },
{
    match run(blocks, root, r, false) {
        Ok(a) => Ok(Claimed(a)),
        Err(e) => Err(e),
    }
}

/// The same numbers, with every node in the range read and checked against its
/// parent.
pub fn aggregate_verified<B: Blocks>(blocks: &B, root: &Cid, r: &Range) -> (x: Result<
    Verified,
    AggError,
>)
    ensures
        match x {
            Ok(c) => instruction(r@) is None && spec_count(blocks.held(), root@, r@, true) == Ok::<
                Agg,
                Fault,
            >(c.value()),
            Err(AggError::NotWholeRange(s)) => instruction(r@) == Some(s@),
            Err(AggError::Read(e)) => instruction(r@) is None && spec_count(
                blocks.held(),
                root@,
                r@,
                true,
            ) == Err::<Agg, Fault>(e@),
        },
{
    match run(blocks, root, r, true) {
        Ok(a) => Ok(Verified(a)),
        Err(e) => Err(e),
    }
}

// ---------------------------------------------------------------------------
// refuting a claim
// ---------------------------------------------------------------------------

/// Does what `p` records of child `i` contradict the child?
pub open spec fn contradicts(p: NodeView, i: int, c: NodeView) -> bool {
    ||| store::child_agg(p.rows[i]) != c.agg()
    ||| !node::spec_one_level_below(p.level, c.level)
    ||| c.rows.len() > 0 && p.rows[i].key != c.rows[0].key
}

/// Do two blocks refute each other?
pub open spec fn spec_fraud(parent: Seq<u8>, child: Seq<u8>) -> bool {
    match (node::parse_spec(parent), node::parse_spec(child)) {
        (Ok(p), Ok(c)) => p.level > 0 && exists|i: int|
            0 <= i < p.rows.len() && store::child_cid(#[trigger] p.rows[i])
                == crate::spec_block_id(kind::TREE_NODE, child) && contradicts(p, i, c),
        _ => false,
    }
}

/// Do these two blocks refute each other?
///
/// A parent records three things about each child: its id, its first key, and what
/// its subtree adds up to. The child's own header states the last two. If they
/// disagree, the pair is a proof: both blocks are hash-keyed, and nothing else is
/// needed. `true` means that these two cannot both be right; it does not say which
/// of them is the liar. It is `false` for anything that is not such a pair.
pub fn fraud(parent: &[u8], child: &[u8]) -> (r: bool)
    ensures
        r == spec_fraud(parent@, child@),
{
    let p = match Node::parse(parent) {
        Err(_) => return false,
        Ok(n) => n,
    };
    let c = match Node::parse(child) {
        Err(_) => return false,
        Ok(n) => n,
    };
    // A leaf names no children, so it can hold no claim about this block.
    if p.is_leaf() {
        return false;
    }
    let id = block_id(kind::TREE_NODE, child);
    let n = p.len();
    p.known_valid();
    let mut i: usize = 0;
    while i < n
        invariant
            i <= n,
            n == p@.rows.len(),
            p@.level > 0,
            node::parse_spec(parent@) == Ok::<NodeView, node::NodeError>(p@),
            node::parse_spec(child@) == Ok::<NodeView, node::NodeError>(c@),
            id@ == crate::spec_block_id(kind::TREE_NODE, child@),
            forall|j: int| 0 <= j < p@.rows.len() ==> node::row_fits(p@.level, #[trigger] p@.rows[j]),
            forall|j: int|
                0 <= j < i && store::child_cid(#[trigger] p@.rows[j]) == id@ ==> !contradicts(
                    p@,
                    j,
                    c@,
                ),
        decreases n - i,
    {
        assert(node::row_fits(p@.level, p@.rows[i as int]));
        let (cid, agg) = p.child(i);
        if order::same(cid.as_slice(), id.as_slice()) {
            if agg != c.agg() || !node::one_level_below(p.level(), c.level()) {
                assert(contradicts(p@, i as int, c@));
                return true;
            }
            if !c.is_empty() {
                let a = p.key(i);
                let b = c.key(0);
                if !order::same(a.as_slice(), b.as_slice()) {
                    assert(contradicts(p@, i as int, c@));
                    return true;
                }
            }
        }
        i = i + 1;
    }
    false
}

// ---------------------------------------------------------------------------
// what the numbers mean
// ---------------------------------------------------------------------------

/// How many entries of a list are in a range.
pub open spec fn entries_in(its: Seq<Item>, r: RangeView) -> int
    decreases its.len(),
{
    if its.len() == 0 {
        0
    } else {
        entries_in(its.drop_last(), r) + if its.last().what is Ok && range::within(
            its.last().key,
            r,
        ) {
            1int
        } else {
            0
        }
    }
}

/// How many logical bytes those entries stand for.
pub open spec fn bytes_in(its: Seq<Item>, r: RangeView) -> int
    decreases its.len(),
{
    if its.len() == 0 {
        0
    } else {
        bytes_in(its.drop_last(), r) + if its.last().what is Ok && range::within(
            its.last().key,
            r,
        ) {
            its.last().key.len() + node::value_len(its.last().what->Ok_0)
        } else {
            0
        }
    }
}

/// Does every item in the range stand for an entry?
pub open spec fn no_gap_in(its: Seq<Item>, r: RangeView) -> bool {
    forall|i: int|
        0 <= i < its.len() && range::within((#[trigger] its[i]).key, r) ==> its[i].what is Ok
}

/// Did a count add exactly the entries of `its` that are in the range?
pub open spec fn added(a: Agg, b: Agg, its: Seq<Item>, r: RangeView) -> bool {
    &&& b.count == a.count + entries_in(its, r)
    &&& b.bytes == a.bytes + bytes_in(its, r)
    &&& no_gap_in(its, r)
}

/// One list after another.
pub proof fn lemma_in_join(a: Seq<Item>, b: Seq<Item>, r: RangeView)
    ensures
        entries_in(a + b, r) == entries_in(a, r) + entries_in(b, r),
        bytes_in(a + b, r) == bytes_in(a, r) + bytes_in(b, r),
        no_gap_in(a, r) && no_gap_in(b, r) ==> no_gap_in(a + b, r),
    decreases b.len(),
{
    if b.len() == 0 {
        assert(a + b =~= a);
    } else {
        lemma_in_join(a, b.drop_last(), r);
        assert((a + b).drop_last() =~= a + b.drop_last());
        assert((a + b).last() == b.last());
    }
    if no_gap_in(a, r) && no_gap_in(b, r) {
        assert forall|i: int|
            0 <= i < (a + b).len() && range::within((#[trigger] (a + b)[i]).key, r) implies (a
            + b)[i].what is Ok by {
            if i < a.len() {
                assert((a + b)[i] == a[i]);
            } else {
                assert((a + b)[i] == b[i - a.len()]);
            }
        }
    }
}

/// A list with nothing in the range adds nothing.
pub proof fn lemma_none_in(its: Seq<Item>, r: RangeView)
    requires
        forall|i: int| 0 <= i < its.len() ==> !range::within((#[trigger] its[i]).key, r),
    ensures
        entries_in(its, r) == 0,
        bytes_in(its, r) == 0,
        no_gap_in(its, r),
    decreases its.len(),
{
    if its.len() > 0 {
        let k = its.len() - 1;
        assert(!range::within(its[k].key, r));
        assert forall|i: int| 0 <= i < its.drop_last().len() implies !range::within(
            (#[trigger] its.drop_last()[i]).key,
            r,
        ) by {
            assert(its.drop_last()[i] == its[i]);
        }
        lemma_none_in(its.drop_last(), r);
    }
}

/// The first rows of a leaf.
pub proof fn lemma_leaf_added(h: HeldView, r: RangeView, a: Agg, n: nat)
    requires
        h.node.valid(),
        h.node.level == 0,
        n <= h.node.rows.len(),
        count_rows(h.node.rows, r, a, n) is Ok,
    ensures
        added(
            a,
            count_rows(h.node.rows, r, a, n)->Ok_0,
            h.node.rows.take(n as int).map_values(|x: Row| tree::entry(x)),
            r,
        ),
    decreases n,
{
    let rows = h.node.rows;
    let f = |x: Row| tree::entry(x);
    let its = rows.take(n as int).map_values(f);
    if n > 0 {
        lemma_leaf_added(h, r, a, (n - 1) as nat);
        let before = rows.take(n - 1).map_values(f);
        assert(node::row_fits(0, rows[n - 1]));
        assert(its.drop_last() =~= before);
        assert(its.last() == tree::entry(rows[n - 1]));
        assert forall|i: int|
            0 <= i < its.len() && range::within((#[trigger] its[i]).key, r) implies its[i].what is Ok by {
            if i < n - 1 {
                assert(its[i] == before[i]);
            }
        }
    }
}

/// Nothing under a child that cannot hold a key of the range is in the range.
pub proof fn lemma_outside(m: BlockMap, h: HeldView, r: RangeView, i: int)
    requires
        tree::steady(h),
        h.node.level > 0,
        0 <= i < h.node.rows.len(),
        !range::intersects(h, i, r),
    ensures
        forall|j: int|
            0 <= j < tree::flat(tree::level_slots(m, tree::child_slot(m, h, i), 0)).len()
                ==> !range::within(
                (#[trigger] tree::flat(tree::level_slots(m, tree::child_slot(m, h, i), 0))[j]).key,
                r,
            ),
{
    let s = tree::child_slot(m, h, i);
    let slots = tree::level_slots(m, s, 0);
    let its = tree::flat(slots);
    let bound = store::child_bound(h, i);
    tree::lemma_child_sound(m, h, i);
    tree::lemma_child_under(h, i);
    tree::lemma_level_slots(m, s, bound, 0);
    tree::lemma_flat_span(slots, s.key, bound);
    assert forall|j: int| 0 <= j < its.len() implies !range::within((#[trigger] its[j]).key, r) by {
        let k = its[j].key;
        if j > 0 {
            assert(order::lt(its[0].key, its[j].key));
        }
        assert(order::le(s.key, k));
        assert(tree::under(k, bound));
        if range::within(k, r) {
            lemma_between(h, i, r, k);
        }
    }
}

/// A child with a key of the range can hold one.
proof fn lemma_between(h: HeldView, i: int, r: RangeView, k: Seq<u8>)
    requires
        0 <= i < h.node.rows.len(),
        order::le(h.node.rows[i].key, k),
        tree::under(k, store::child_bound(h, i)),
        range::within(k, r),
    ensures
        range::intersects(h, i, r),
{
    let rows = h.node.rows;
    let low = rows[i].key;
    match r.hi {
        range::End::Open => {},
        range::End::At(e) => {
            order::lemma_le_trans(low, k, e);
        },
        range::End::Past(e) => {
            if low != k {
                order::lemma_lt_trans(low, k, e);
            }
        },
    }
    if i + 1 < rows.len() && range::reaches_only(rows[i + 1].key, r.lo) {
        let next = rows[i + 1].key;
        let e = match r.lo {
            range::End::Open => Seq::empty(),
            range::End::At(e) => e,
            range::End::Past(e) => e,
        };
        order::lemma_le_trans(next, e, k);
        if next != k {
            order::lemma_lt_trans(k, next, k);
        }
        order::lemma_lt_irreflexive(k);
    }
}

/// The entries under a held node.
pub open spec fn items_under(m: BlockMap, h: HeldView) -> Seq<Item> {
    if h.node.level == 0 {
        h.node.rows.map_values(|x: Row| tree::entry(x))
    } else {
        tree::flat(tree::child_slots(m, h, 0, h.node.rows.len()))
    }
}

/// The entries under the place of an opened child are those under the child.
pub proof fn lemma_under_child(m: BlockMap, h: HeldView, i: int)
    requires
        h.node.level > 0,
        0 <= i < h.node.rows.len(),
        store::opened(m, h, i) is Ok,
    ensures
        tree::flat(tree::level_slots(m, tree::child_slot(m, h, i), 0)) == items_under(
            m,
            store::opened(m, h, i)->Ok_0,
        ),
{
    let s = tree::child_slot(m, h, i);
    let c = store::opened(m, h, i)->Ok_0;
    if c.node.level == 0 {
        assert(tree::level_slots(m, s, 0) =~= seq![s]);
        tree::lemma_flat_one(s);
    }
}

/// A node that was opened is steady, and one level down.
pub proof fn lemma_opened_steady(m: BlockMap, h: HeldView, i: int)
    requires
        h.node.level > 0,
        0 <= i < h.node.rows.len(),
        store::opened(m, h, i) is Ok,
    ensures
        tree::steady(store::opened(m, h, i)->Ok_0),
        store::opened(m, h, i)->Ok_0.node.level < h.node.level,
{
    reveal(tree::steady);
    tree::lemma_loaded(m, store::child_cid(h.node.rows[i]));
}

/// What is asked for stays asked for, over the children of a branch.
proof fn lemma_children_grow(
    m: BlockMap,
    h: HeldView,
    r: RangeView,
    verify: bool,
    t: Tally,
    n: nat,
)
    requires
        h.node.level > 0,
    ensures
        count_children(m, h, r, verify, t, n) is Ok ==> count_children(
            m,
            h,
            r,
            verify,
            t,
            n,
        )->Ok_0.need.len() >= t.need.len(),
    decreases h.node.level, n,
{
    if n > 0 {
        let before = count_children(m, h, r, verify, t, (n - 1) as nat);
        lemma_children_grow(m, h, r, verify, t, (n - 1) as nat);
        if before is Ok {
            let u = before->Ok_0;
            lemma_child_grows(m, h, r, verify, u, n - 1);
        }
    }
}

/// What is asked for stays asked for, over one child.
pub proof fn lemma_child_grows(
    m: BlockMap,
    h: HeldView,
    r: RangeView,
    verify: bool,
    t: Tally,
    i: int,
)
    requires
        h.node.level > 0,
    ensures
        count_child(m, h, r, verify, t, i) is Ok ==> count_child(
            m,
            h,
            r,
            verify,
            t,
            i,
        )->Ok_0.need.len() >= t.need.len(),
    decreases h.node.level, 0nat,
{
    if store::opened(m, h, i) is Ok && store::opened(m, h, i)->Ok_0.node.level < h.node.level {
        let c = store::opened(m, h, i)->Ok_0;
        if c.node.level > 0 {
            lemma_children_grow(m, c, r, verify, t, c.node.rows.len());
        }
    }
}

/// A verified count of a subtree that named no missing block added exactly the
/// entries of the range.
pub proof fn lemma_node_added(m: BlockMap, h: HeldView, r: RangeView, t: Tally)
    requires
        tree::steady(h),
        count_node(m, h, r, true, t) is Ok,
        count_node(m, h, r, true, t)->Ok_0.need.len() == 0,
    ensures
        added(t.agg, count_node(m, h, r, true, t)->Ok_0.agg, items_under(m, h), r),
    decreases h.node.level, 2nat, 0nat,
{
    if h.node.level == 0 {
        assert(h.node.valid()) by {
            reveal(tree::steady);
        }
        lemma_leaf_added(h, r, t.agg, h.node.rows.len());
        assert(h.node.rows.take(h.node.rows.len() as int) =~= h.node.rows);
    } else {
        lemma_children_added(m, h, r, t, h.node.rows.len());
    }
}

/// The same of the first children of a branch.
pub proof fn lemma_children_added(m: BlockMap, h: HeldView, r: RangeView, t: Tally, n: nat)
    requires
        tree::steady(h),
        h.node.level > 0,
        n <= h.node.rows.len(),
        count_children(m, h, r, true, t, n) is Ok,
        count_children(m, h, r, true, t, n)->Ok_0.need.len() == 0,
    ensures
        added(
            t.agg,
            count_children(m, h, r, true, t, n)->Ok_0.agg,
            tree::flat(tree::child_slots(m, h, 0, n)),
            r,
        ),
    decreases h.node.level, 1nat, n,
{
    if n > 0 {
        let k = (n - 1) as nat;
        let before = count_children(m, h, r, true, t, k);
        let u = before->Ok_0;
        let v = count_children(m, h, r, true, t, n)->Ok_0;
        assert(count_children(m, h, r, true, t, n) == count_child(m, h, r, true, u, k as int));
        lemma_child_grows(m, h, r, true, u, k as int);
        lemma_children_added(m, h, r, t, k);
        let s = tree::child_slot(m, h, k as int);
        let slots = tree::level_slots(m, s, 0);
        let its = tree::flat(slots);
        tree::lemma_flat_join(tree::child_slots(m, h, 0, k), slots);
        assert(added(u.agg, v.agg, its, r)) by {
            if !range::intersects(h, k as int, r) {
                lemma_outside(m, h, r, k as int);
                lemma_none_in(its, r);
            } else if !m.contains_key(s.cid) {
                assert(asked(u.need, s.cid).len() > 0);
            } else {
                lemma_opened_steady(m, h, k as int);
                lemma_under_child(m, h, k as int);
                lemma_node_added(m, store::opened(m, h, k as int)->Ok_0, r, u);
            }
        }
        lemma_in_join(tree::flat(tree::child_slots(m, h, 0, k)), its, r);
    }
}

/// A verified count is exact: it is how many entries of the tree lie in the range
/// and how many bytes they stand for, and no gap lies there.
pub proof fn law_a_verified_count_is_exact(m: BlockMap, root: Seq<u8>, r: RangeView)
    requires
        spec_count(m, root, r, true) is Ok,
    ensures
        spec_count(m, root, r, true)->Ok_0.count == entries_in(tree::items(m, root), r),
        spec_count(m, root, r, true)->Ok_0.bytes == bytes_in(tree::items(m, root), r),
        no_gap_in(tree::items(m, root), r),
{
    let n = store::loaded(m, root)->Ok_0;
    let h = HeldView { node: n, upper: None };
    let t = Tally { agg: Agg { count: 0, bytes: 0 }, need: Seq::empty() };
    tree::lemma_loaded(m, root);
    assert(tree::steady(h)) by {
        reveal(tree::steady);
    }
    lemma_node_added(m, h, r, t);
    let s = tree::root_slot(m, root);
    if n.level == 0 {
        assert(tree::leaves(m, root) =~= seq![s]);
        tree::lemma_flat_one(s);
    }
    assert(tree::items(m, root) == items_under(m, h));
}

/// Does every key a node can hold lie in the range?
spec fn covered(h: HeldView, r: RangeView) -> bool {
    &&& h.node.rows.len() > 0
    &&& range::above(h.node.rows[0].key, r.lo)
    &&& match r.hi {
        range::End::Open => true,
        _ => h.upper is Some && range::reaches_only(h.upper->Some_0, r.hi),
    }
}

/// What lies after a key above the low end is above it.
proof fn lemma_above_after(a: Seq<u8>, b: Seq<u8>, lo: range::End)
    requires
        range::above(a, lo),
        order::le(a, b),
    ensures
        range::above(b, lo),
{
    match lo {
        range::End::Open => {},
        range::End::At(e) => {
            order::lemma_le_trans(e, a, b);
        },
        range::End::Past(e) => {
            if a != b {
                order::lemma_lt_trans(e, a, b);
            }
        },
    }
}

/// What lies before a key that only reaches the high end is under it.
proof fn lemma_under_before(a: Seq<u8>, b: Seq<u8>, hi: range::End)
    requires
        range::reaches_only(b, hi),
        order::lt(a, b),
    ensures
        range::under(a, hi),
        range::reaches_only(a, hi),
{
    match hi {
        range::End::Open => {},
        range::End::At(e) => {
            order::lemma_le_trans(a, b, e);
        },
        range::End::Past(e) => {
            order::lemma_le_trans(a, b, e);
            if b != e {
                order::lemma_lt_trans(a, b, e);
            }
        },
    }
}

/// Each key of a covered node is in the range, and each child of one is inside it.
proof fn lemma_covered(h: HeldView, r: RangeView, i: int)
    requires
        tree::steady(h),
        covered(h, r),
        0 <= i < h.node.rows.len(),
    ensures
        range::within(h.node.rows[i].key, r),
        range::intersects(h, i, r),
        range::inside(h, i, r),
{
    reveal(tree::steady);
    let rows = h.node.rows;
    let k = rows[i].key;
    if i > 0 {
        assert(order::lt(rows[0].key, rows[i].key));
    }
    lemma_above_after(rows[0].key, k, r.lo);
    tree::lemma_child_under(h, i);
    if i + 1 < rows.len() {
        assert(order::lt(rows[i].key, rows[i + 1].key));
    }
    match r.hi {
        range::End::Open => {},
        _ => {
            let u = h.upper->Some_0;
            let last = rows[rows.len() - 1].key;
            if i + 1 < rows.len() {
                let next = rows[i + 1].key;
                if i + 2 < rows.len() {
                    assert(order::lt(rows[i + 1].key, rows[rows.len() - 1].key));
                    order::lemma_lt_trans(next, last, u);
                }
                lemma_under_before(next, u, r.hi);
                lemma_under_before(k, next, r.hi);
            } else {
                lemma_under_before(k, u, r.hi);
            }
        },
    }
    order::lemma_lt_total(k, k);
    lemma_between(h, i, r, k);
}

/// An inside child that was opened is covered.
proof fn lemma_inside_covered(m: BlockMap, h: HeldView, r: RangeView, i: int)
    requires
        0 <= i < h.node.rows.len(),
        range::inside(h, i, r),
        store::opened(m, h, i) is Ok,
    ensures
        covered(store::opened(m, h, i)->Ok_0, r),
{
}

/// Counting a covered subtree adds up to what the node says of itself.
proof fn lemma_covered_total(m: BlockMap, h: HeldView, r: RangeView, t: Tally)
    requires
        tree::steady(h),
        covered(h, r),
        count_node(m, h, r, true, t) is Ok,
        count_node(m, h, r, true, t)->Ok_0.need.len() == 0,
    ensures
        t.agg.spec_add(h.node.agg()) == Some(count_node(m, h, r, true, t)->Ok_0.agg),
    decreases h.node.level, 2nat, 0nat,
{
    let rows = h.node.rows;
    assert(rows.take(rows.len() as int) =~= rows);
    let u = count_node(m, h, r, true, t)->Ok_0;
    if h.node.level == 0 {
        lemma_covered_rows(h, r, t.agg, rows.len());
    } else {
        lemma_covered_children(m, h, r, t, rows.len());
    }
    node::lemma_sums(rows);
    assert(u.agg.count == t.agg.count + node::sum_count(rows));
    assert(u.agg.bytes == t.agg.bytes + node::sum_weight(rows));
}

/// The rows of a covered leaf.
proof fn lemma_covered_rows(h: HeldView, r: RangeView, a: Agg, n: nat)
    requires
        tree::steady(h),
        covered(h, r),
        h.node.level == 0,
        n <= h.node.rows.len(),
        count_rows(h.node.rows, r, a, n) is Ok,
    ensures
        ({
            let b = count_rows(h.node.rows, r, a, n)->Ok_0;
            &&& b.count == a.count + node::sum_count(h.node.rows.take(n as int))
            &&& b.bytes == a.bytes + node::sum_weight(h.node.rows.take(n as int))
        }),
    decreases n,
{
    let rows = h.node.rows;
    if n > 0 {
        lemma_covered_rows(h, r, a, (n - 1) as nat);
        lemma_covered(h, r, n - 1);
        assert(rows.take(n as int).drop_last() =~= rows.take(n - 1));
        assert(rows.take(n as int).last() == rows[n - 1]);
        assert(node::row_fits(0, rows[n - 1])) by {
            reveal(tree::steady);
        }
    }
}

/// The children of a covered branch.
proof fn lemma_covered_children(m: BlockMap, h: HeldView, r: RangeView, t: Tally, n: nat)
    requires
        tree::steady(h),
        covered(h, r),
        h.node.level > 0,
        n <= h.node.rows.len(),
        count_children(m, h, r, true, t, n) is Ok,
        count_children(m, h, r, true, t, n)->Ok_0.need.len() == 0,
    ensures
        ({
            let b = count_children(m, h, r, true, t, n)->Ok_0.agg;
            &&& b.count == t.agg.count + node::sum_count(h.node.rows.take(n as int))
            &&& b.bytes == t.agg.bytes + node::sum_weight(h.node.rows.take(n as int))
        }),
    decreases h.node.level, 1nat, n,
{
    let rows = h.node.rows;
    if n > 0 {
        let k = (n - 1) as nat;
        let u = count_children(m, h, r, true, t, k)->Ok_0;
        assert(count_children(m, h, r, true, t, n) == count_child(m, h, r, true, u, k as int));
        lemma_child_grows(m, h, r, true, u, k as int);
        lemma_covered_children(m, h, r, t, k);
        lemma_covered(h, r, k as int);
        assert(asked(u.need, store::child_cid(rows[k as int])).len() > 0);
        let c = store::opened(m, h, k as int)->Ok_0;
        lemma_opened_steady(m, h, k as int);
        lemma_inside_covered(m, h, r, k as int);
        lemma_covered_total(m, c, r, u);
        assert(rows.take(n as int).drop_last() =~= rows.take(k as int));
        assert(rows.take(n as int).last() == rows[k as int]);
        assert(node::row_fits(h.node.level, rows[k as int])) by {
            reveal(tree::steady);
        }
    }
}

/// A verified count of a subtree is what would have been claimed of it.
proof fn lemma_claimed(m: BlockMap, h: HeldView, r: RangeView, t: Tally)
    requires
        tree::steady(h),
        count_node(m, h, r, true, t) is Ok,
        count_node(m, h, r, true, t)->Ok_0.need.len() == 0,
    ensures
        count_node(m, h, r, false, t) == count_node(m, h, r, true, t),
    decreases h.node.level, 2nat, 0nat,
{
    if h.node.level > 0 {
        lemma_claimed_children(m, h, r, t, h.node.rows.len());
    }
}

/// The same of the first children of a branch.
proof fn lemma_claimed_children(m: BlockMap, h: HeldView, r: RangeView, t: Tally, n: nat)
    requires
        tree::steady(h),
        h.node.level > 0,
        n <= h.node.rows.len(),
        count_children(m, h, r, true, t, n) is Ok,
        count_children(m, h, r, true, t, n)->Ok_0.need.len() == 0,
    ensures
        count_children(m, h, r, false, t, n) == count_children(m, h, r, true, t, n),
    decreases h.node.level, 1nat, n,
{
    if n > 0 {
        let k = (n - 1) as nat;
        let u = count_children(m, h, r, true, t, k)->Ok_0;
        let i = k as int;
        assert(count_children(m, h, r, true, t, n) == count_child(m, h, r, true, u, i));
        lemma_child_grows(m, h, r, true, u, i);
        lemma_claimed_children(m, h, r, t, k);
        assert(count_children(m, h, r, false, t, n) == count_child(m, h, r, false, u, i));
        if range::intersects(h, i, r) {
            assert(asked(u.need, store::child_cid(h.node.rows[i])).len() > 0);
            let c = store::opened(m, h, i)->Ok_0;
            lemma_opened_steady(m, h, i);
            let v = count_node(m, c, r, true, u)->Ok_0;
            assert(u.need =~= Seq::<Seq<u8>>::empty());
            assert(v.need =~= Seq::<Seq<u8>>::empty());
            if range::inside(h, i, r) {
                lemma_inside_covered(m, h, r, i);
                lemma_covered_total(m, c, r, u);
                assert(store::child_agg(h.node.rows[i]) == c.node.agg());
            } else {
                lemma_claimed(m, c, r, u);
            }
        }
    }
}

/// Where a count can be verified, the claimed count is the same: reading two paths
/// gives what reading every node in the range gives.
pub proof fn law_what_can_be_verified_was_claimed(m: BlockMap, root: Seq<u8>, r: RangeView)
    requires
        spec_count(m, root, r, true) is Ok,
    ensures
        spec_count(m, root, r, false) == spec_count(m, root, r, true),
{
    let n = store::loaded(m, root)->Ok_0;
    let h = HeldView { node: n, upper: None };
    let t = Tally { agg: Agg { count: 0, bytes: 0 }, need: Seq::empty() };
    tree::lemma_loaded(m, root);
    assert(tree::steady(h)) by {
        reveal(tree::steady);
    }
    lemma_claimed(m, h, r, t);
}

} // verus!
