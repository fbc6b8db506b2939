//! Chunk one level: entries in, closed nodes out. A build from scratch and an
//! incremental edit both go through this, so they cannot disagree about where a
//! node ends.

use crate::boundary;
use crate::boundary::MAX_LOGICAL;
use crate::node;
use crate::node::{Agg, BuildError, Node, NodeBuilder, NodeView, Payload, Row, Value, MAX_NODE};
use crate::order;
use crate::parity;
use crate::parity::{GroupIndex, Known};
use crate::seqs;
use crate::store::{BlockMap, Blocks};
use crate::{block_id, kind, Cid};
use vstd::prelude::*;

verus! {

/// What an entry holds, owned.
#[derive(Clone, Debug, PartialEq, Eq)]
pub enum Body {
    Inline(Vec<u8>),
    Ref { cid: Cid, len: u32 },
    Child { cid: Cid, agg: Agg },
}

impl View for Body {
    type V = Payload;

    open spec fn view(&self) -> Payload {
        match *self {
            Body::Inline(b) => Payload::Inline(b@),
            Body::Ref { cid, len } => Payload::Ref { cid: cid@, len },
            Body::Child { cid, agg } => Payload::Child { cid: cid@, agg },
        }
    }
}

/// An entry of a node, owned.
#[derive(Clone, Debug, PartialEq, Eq)]
pub struct Entry {
    pub key: Vec<u8>,
    pub body: Body,
}

impl View for Entry {
    type V = Row;

    open spec fn view(&self) -> Row {
        Row { key: self.key@, held: self.body@ }
    }
}

impl Entry {
    /// Entry `i` of `node`.
    pub fn of(node: &Node<'_>, i: usize) -> (e: Entry)
        requires
            i < node@.rows.len(),
        ensures
            e@ == node@.rows[i as int],
    {
        node.known_valid();
        assert(node::row_fits(node@.level, node@.rows[i as int]));
        let body = if node.is_leaf() {
            match node.value(i) {
                Value::Inline(b) => Body::Inline(vstd::slice::slice_to_vec(b)),
                Value::Ref { cid, len } => Body::Ref { cid, len },
            }
        } else {
            let (cid, agg) = node.child(i);
            Body::Child { cid, agg }
        };
        Entry { key: node.key(i), body }
    }
}

/// A copy of a body.
pub fn copy_body(b: &Body) -> (r: Body)
    ensures
        r@ == b@,
{
    match b {
        Body::Inline(v) => Body::Inline(vstd::slice::slice_to_vec(v.as_slice())),
        Body::Ref { cid, len } => Body::Ref { cid: *cid, len: *len },
        Body::Child { cid, agg } => Body::Child { cid: *cid, agg: *agg },
    }
}

/// Are two bodies the same?
pub fn same_body(a: &Body, b: &Body) -> (r: bool)
    ensures
        r == (a@ == b@),
{
    match (a, b) {
        (Body::Inline(x), Body::Inline(y)) => order::same(x.as_slice(), y.as_slice()),
        (Body::Ref { cid: c, len: l }, Body::Ref { cid: d, len: n }) => {
            *l == *n && order::same(c.as_slice(), d.as_slice())
        },
        (Body::Child { cid: c, agg: x }, Body::Child { cid: d, agg: y }) => {
            *x == *y && order::same(c.as_slice(), d.as_slice())
        },
        _ => false,
    }
}

// ---------------------------------------------------------------------------
// where a level is cut
// ---------------------------------------------------------------------------

/// The decision of a split rule: `(level, key, size before, size after)`.
pub type Rule = spec_fn(u8, Seq<u8>, int, int) -> bool;

/// Decides whether a node closes after an entry.
pub trait SplitRule {
    /// What the rule decides.
    spec fn decides(&self, level: u8, key: Seq<u8>, before: int, after: int) -> bool;

    /// Does a node at `level` close after the entry with `key`, which grew its
    /// logical length from `before` to `after`?
    fn splits(&self, level: u8, key: &[u8], before: usize, after: usize) -> (r: bool)
        requires
            before < after <= MAX_NODE,
        ensures
            r == self.decides(level, key@, before as int, after as int),
    ;
}

/// The rule of a value, as a function.
pub open spec fn rule_of<R: SplitRule>(r: &R) -> Rule {
    |level: u8, key: Seq<u8>, before: int, after: int| r.decides(level, key, before, after)
}

/// The format's rule: [`boundary::splits_after`].
#[derive(Clone, Copy, Debug)]
pub struct ByContent;

impl SplitRule for ByContent {
    open spec fn decides(&self, level: u8, key: Seq<u8>, before: int, after: int) -> bool {
        boundary::spec_splits_after(level, key, before, after)
    }

    fn splits(&self, level: u8, key: &[u8], before: usize, after: usize) -> (r: bool) {
        boundary::splits_after(level, key, before, after)
    }
}

/// Nodes closed so far, and the rows of the open one.
#[verifier::ext_equal]
pub struct Cut {
    pub closed: Seq<Seq<Row>>,
    pub open: Seq<Row>,
}

/// Would this row push the open node past the hard limit?
pub open spec fn overflows(open: Seq<Row>, row: Row) -> bool {
    node::logical(open) + node::row_cost(row) > MAX_LOGICAL
}

/// The hard limit closes the node before the row that would overflow it.
pub open spec fn made_room(c: Cut, row: Row) -> Cut {
    if overflows(c.open, row) {
        Cut { closed: c.closed.push(c.open), open: Seq::empty() }
    } else {
        c
    }
}

/// Does the rule close a node with these rows, after the last of them?
pub open spec fn fires(level: u8, rule: Rule, rows: Seq<Row>) -> bool {
    rule(level, rows.last().key, node::logical(rows.drop_last()), node::logical(rows))
}

/// One more row.
pub open spec fn step(level: u8, rule: Rule, c: Cut, row: Row) -> Cut {
    let d = made_room(c, row);
    let open = d.open.push(row);
    if fires(level, rule, open) {
        Cut { closed: d.closed.push(open), open: Seq::empty() }
    } else {
        Cut { closed: d.closed, open }
    }
}

/// Cutting rows, from some state on.
pub open spec fn cut_from(level: u8, rule: Rule, c: Cut, rows: Seq<Row>) -> Cut
    decreases rows.len(),
{
    if rows.len() == 0 {
        c
    } else {
        step(level, rule, cut_from(level, rule, c, rows.drop_last()), rows.last())
    }
}

/// Nothing cut yet.
pub open spec fn uncut() -> Cut {
    Cut { closed: Seq::empty(), open: Seq::empty() }
}

/// At the end of the level the open node closes, if it holds anything.
pub open spec fn finished(c: Cut) -> Seq<Seq<Row>> {
    if c.open.len() > 0 {
        c.closed.push(c.open)
    } else {
        c.closed
    }
}

/// Where a level with these rows is cut.
pub open spec fn chunks(level: u8, rule: Rule, rows: Seq<Row>) -> Seq<Seq<Row>> {
    finished(cut_from(level, rule, uncut(), rows))
}

// ---------------------------------------------------------------------------
// the parity of a node
// ---------------------------------------------------------------------------

/// The kind of a node's members: values under a leaf, nodes under a branch.
pub open spec fn member_kind(leaf: bool) -> u8 {
    if leaf {
        kind::RAW
    } else {
        kind::TREE_NODE
    }
}

/// The state of a block: `kind || body`.
pub open spec fn state_of(m: BlockMap, leaf: bool, cid: Seq<u8>) -> Seq<u8> {
    seq![member_kind(leaf)] + m[cid]
}

/// The states of a group's members.
pub open spec fn states_of(m: BlockMap, leaf: bool, members: Seq<Seq<u8>>) -> Seq<Seq<u8>> {
    Seq::new(members.len(), |i: int| state_of(m, leaf, members[i]))
}

/// The first member, from `i` on, whose bytes are not to hand.
pub open spec fn first_missing(m: BlockMap, members: Seq<Seq<u8>>, i: int) -> Option<Seq<u8>>
    decreases members.len() - i,
{
    if i < 0 || i >= members.len() {
        None
    } else if !m.contains_key(members[i]) {
        Some(members[i])
    } else {
        first_missing(m, members, i + 1)
    }
}

/// The ids of parity blocks.
pub open spec fn parity_ids(blocks: Seq<Seq<u8>>) -> Seq<Seq<u8>> {
    Seq::new(blocks.len(), |i: int| crate::spec_block_id(kind::PARITY, blocks[i]))
}

/// The ids of a group's parity, and the blocks that had to be coded for them.
#[verifier::ext_equal]
pub struct Coded {
    pub ids: Seq<Seq<u8>>,
    pub blocks: Seq<Seq<u8>>,
}

/// A group whose parity blocks are these, fresh.
pub open spec fn fresh(blocks: Seq<Seq<u8>>) -> Coded {
    Coded { ids: parity_ids(blocks), blocks }
}

/// Are the old parity blocks and the old member to hand?
pub open spec fn correctable(m: BlockMap, o: parity::OneOff) -> bool {
    &&& forall|r: int| 0 <= r < o.ids.len() ==> m.contains_key(#[trigger] o.ids[r])
    &&& m.contains_key(o.was)
}

/// A group's parity blocks, corrected for the one member that changed.
pub open spec fn corrected_blocks(
    m: BlockMap,
    leaf: bool,
    members: Seq<Seq<u8>>,
    o: parity::OneOff,
) -> Seq<Seq<u8>> {
    Seq::new(
        parity::PARITY as nat,
        |r: int|
            parity::corrected_block(
                m[o.ids[r]],
                r,
                o.pos,
                state_of(m, leaf, o.was),
                state_of(m, leaf, members[o.pos]),
            ),
    )
}

/// Where a group's parity comes from. A node that is being replaced may have had
/// the same group: its ids are copied. It may have had a group that differs in one
/// member: its parity is corrected. Otherwise the group is coded from its members.
/// A member whose bytes are needed and not to hand is an error.
pub open spec fn group_code(m: BlockMap, old: Seq<Known>, leaf: bool, g: parity::Group) -> Result<
    Coded,
    Seq<u8>,
> {
    match parity::find_exact(old, g.class, g.members, 0) {
        Some(ids) => Ok(Coded { ids, blocks: Seq::empty() }),
        None => {
            let near = parity::find_one_off(old, g.class, g.members, 0);
            if near is Some && correctable(m, near->Some_0) {
                let o = near->Some_0;
                if m.contains_key(g.members[o.pos]) {
                    Ok(fresh(corrected_blocks(m, leaf, g.members, o)))
                } else {
                    Err(g.members[o.pos])
                }
            } else {
                match first_missing(m, g.members, 0) {
                    Some(cid) => Err(cid),
                    None => Ok(fresh(parity::group_parity(states_of(m, leaf, g.members)))),
                }
            }
        },
    }
}

/// A node that has been closed, and the parity blocks that were coded for it.
#[verifier::ext_equal]
pub struct Made {
    pub node: NodeView,
    pub coded: Seq<Seq<u8>>,
}

/// The id a `MissingMember` names.
pub open spec fn missing(e: BuildError) -> Option<Seq<u8>> {
    match e {
        BuildError::MissingMember(cid) => Some(cid@),
        _ => None,
    }
}

/// Why closing a node failed: a member is missing, or the parity does not fit.
#[verifier::ext_equal]
pub enum CloseFault {
    Missing(Seq<u8>),
    Node(BuildError),
}

/// Listing ids one after the other, from the `n`th on.
pub open spec fn with_ids(n: NodeView, ids: Seq<Seq<u8>>, count: nat) -> Result<NodeView, BuildError>
    decreases count,
{
    if count == 0 {
        Ok(n)
    } else {
        match with_ids(n, ids, (count - 1) as nat) {
            Err(e) => Err(e),
            Ok(p) => match node::parity_error(p) {
                Some(e) => Err(e),
                None => Ok(p.with_parity(ids[count - 1])),
            },
        }
    }
}

/// A node with these rows and the parity of its first `n` groups.
pub open spec fn made(
    m: BlockMap,
    old: Seq<Known>,
    level: u8,
    rows: Seq<Row>,
    n: nat,
) -> Result<Made, CloseFault>
    decreases n,
{
    if n == 0 {
        Ok(
            Made {
                node: NodeView { level, rows, parity: Seq::empty() },
                coded: Seq::empty(),
            },
        )
    } else {
        match made(m, old, level, rows, (n - 1) as nat) {
            Err(e) => Err(e),
            Ok(d) => match group_code(m, old, level == 0, parity::groups(level, rows)[n - 1]) {
                Err(cid) => Err(CloseFault::Missing(cid)),
                Ok(g) => match with_ids(d.node, g.ids, g.ids.len()) {
                    Err(e) => Err(CloseFault::Node(e)),
                    Ok(node) => Ok(Made { node, coded: d.coded + g.blocks }),
                },
            },
        }
    }
}

/// The parity blocks that are coded for the first `n` groups of a node, up to where
/// closing it stops.
pub open spec fn coded_to(
    m: BlockMap,
    old: Seq<Known>,
    level: u8,
    rows: Seq<Row>,
    n: nat,
) -> Seq<Seq<u8>>
    decreases n,
{
    if n == 0 {
        Seq::empty()
    } else {
        match made(m, old, level, rows, (n - 1) as nat) {
            Err(_) => coded_to(m, old, level, rows, (n - 1) as nat),
            Ok(d) => match group_code(m, old, level == 0, parity::groups(level, rows)[n - 1]) {
                Err(_) => d.coded,
                Ok(g) => d.coded + g.blocks,
            },
        }
    }
}

/// The parity blocks that closing a node codes, whether it closes or not.
pub open spec fn tried(m: BlockMap, old: Seq<Known>, level: u8, rows: Seq<Row>) -> Seq<Seq<u8>> {
    coded_to(m, old, level, rows, parity::groups(level, rows).len())
}

/// Closing a node with these rows.
pub open spec fn closing(m: BlockMap, old: Seq<Known>, level: u8, rows: Seq<Row>) -> Result<
    Made,
    CloseFault,
> {
    match made(m, old, level, rows, parity::groups(level, rows).len()) {
        Err(e) => Err(e),
        Ok(d) => if level > 0 && rows.len() == 0 {
            Err(CloseFault::Node(BuildError::WrongKind))
        } else {
            Ok(d)
        },
    }
}

/// Is this error that fault?
pub open spec fn is_fault(e: BuildError, f: CloseFault) -> bool {
    match f {
        CloseFault::Missing(cid) => missing(e) == Some(cid),
        CloseFault::Node(x) => e == x,
    }
}

// ---------------------------------------------------------------------------
// closed nodes
// ---------------------------------------------------------------------------

/// A node that has been closed.
#[derive(Clone, Debug)]
pub struct Closed {
    pub min_key: Vec<u8>,
    pub cid: Cid,
    pub agg: Agg,
    pub bytes: Vec<u8>,
}

/// The smallest key of some rows; empty where there are none.
pub open spec fn first_key(rows: Seq<Row>) -> Seq<u8> {
    if rows.len() > 0 {
        rows[0].key
    } else {
        Seq::empty()
    }
}

/// The id of a node.
pub open spec fn node_id(n: NodeView) -> Seq<u8> {
    crate::spec_block_id(kind::TREE_NODE, node::encode(n))
}

/// A node as an entry of the level above.
pub open spec fn child_row(n: NodeView) -> Row {
    Row { key: first_key(n.rows), held: Payload::Child { cid: node_id(n), agg: n.agg() } }
}

impl Closed {
    /// Is this that node, closed?
    pub open spec fn is(&self, n: NodeView) -> bool {
        &&& n.valid()
        &&& self.min_key@ == first_key(n.rows)
        &&& self.cid@ == node_id(n)
        &&& self.agg == n.agg()
        &&& self.bytes@ == node::encode(n)
    }

    /// This node as an entry of the level above.
    pub fn as_child(&self) -> (e: Entry)
        ensures
            e@ == (Row {
                key: self.min_key@,
                held: Payload::Child { cid: self.cid@, agg: self.agg },
            }),
    {
        Entry {
            key: vstd::slice::slice_to_vec(self.min_key.as_slice()),
            body: Body::Child { cid: self.cid, agg: self.agg },
        }
    }
}

/// Closed nodes are those nodes.
pub open spec fn are(out: Seq<Closed>, nodes: Seq<NodeView>) -> bool {
    out.len() == nodes.len() && forall|i: int|
        0 <= i < out.len() ==> (#[trigger] out[i]).is(nodes[i])
}

/// Coded blocks with their ids, as they are held.
pub open spec fn coded_view(v: Seq<(Cid, Vec<u8>)>) -> Seq<Seq<u8>> {
    v.map_values(|b: (Cid, Vec<u8>)| b.1@)
}

/// Every coded block is under its id.
pub open spec fn coded_ok(v: Seq<(Cid, Vec<u8>)>) -> bool {
    forall|i: int|
        0 <= i < v.len() ==> (#[trigger] v[i]).0@ == crate::spec_block_id(kind::PARITY, v[i].1@)
}

/// The empty tree: one empty leaf.
pub open spec fn empty_node() -> NodeView {
    NodeView { level: 0, rows: Seq::empty(), parity: Seq::empty() }
}

/// The empty tree: one empty leaf.
pub fn empty_leaf() -> (c: Closed)
    ensures
        c.is(empty_node()),
{
    let b = NodeBuilder::leaf();
    let agg = b.agg();
    let ghost n = b@;
    match b.finish() {
        Ok(bytes) => {
            let cid = block_id(kind::TREE_NODE, bytes.as_slice());
            let c = Closed { min_key: Vec::new(), cid, agg, bytes };
            assert(c.min_key@ =~= Seq::<u8>::empty());
            c
        },
        Err(_) => {
            assert(false);
            Closed { min_key: Vec::new(), cid: [0u8; 32], agg, bytes: Vec::new() }
        },
    }
}

// ---------------------------------------------------------------------------
// coding a group
// ---------------------------------------------------------------------------

/// The state of one member, from the store.
fn state<B: Blocks>(blocks: &B, leaf: bool, cid: &Cid) -> (r: Option<Vec<u8>>)
    ensures
        match r {
            None => !blocks.held().contains_key(cid@),
            Some(s) => blocks.held().contains_key(cid@) && s@ == state_of(
                blocks.held(),
                leaf,
                cid@,
            ),
        },
{
    match blocks.get(cid) {
        None => None,
        Some(b) => {
            let mut st: Vec<u8> = Vec::new();
            st.push(
                if leaf {
                    kind::RAW
                } else {
                    kind::TREE_NODE
                },
            );
            st.extend_from_slice(b);
            assert(st@ =~= state_of(blocks.held(), leaf, cid@));
            Some(st)
        },
    }
}

/// Code a group from its members.
fn recode<B: Blocks>(blocks: &B, leaf: bool, members: &Vec<Cid>) -> (r: Result<
    Vec<Vec<u8>>,
    BuildError,
>)
    requires
        0 < members@.len() <= parity::MAX_GROUP,
    ensures
        match r {
            Ok(out) => first_missing(blocks.held(), node::cids_of(members@), 0) is None
                && seqs::views(out@) == parity::group_parity(
                states_of(blocks.held(), leaf, node::cids_of(members@)),
            ),
            Err(e) => missing(e) is Some && first_missing(
                blocks.held(),
                node::cids_of(members@),
                0,
            ) == missing(e),
        },
{
    let ghost m = blocks.held();
    let ghost ms = node::cids_of(members@);
    let mut states: Vec<Vec<u8>> = Vec::new();
    let mut i: usize = 0;
    while i < members.len()
        invariant
            i <= members@.len(),
            m == blocks.held(),
            ms == node::cids_of(members@),
            states@.len() == i,
            forall|j: int| 0 <= j < i ==> (#[trigger] states@[j])@ == state_of(m, leaf, ms[j]),
            first_missing(m, ms, 0) == first_missing(m, ms, i as int),
        decreases members@.len() - i,
    {
        match state(blocks, leaf, &members[i]) {
            None => return Err(BuildError::MissingMember(members[i])),
            Some(s) => states.push(s),
        }
        i = i + 1;
    }
    assert(seqs::views(states@) =~= states_of(m, leaf, ms));
    match parity::encode_group(states.as_slice()) {
        Ok(out) => Ok(out),
        Err(_) => {
            assert(false);
            Err(BuildError::NodeTooLarge)
        },
    }
}

/// Correct a group's parity for a single member changing in place. `None` when the
/// old parity blocks or the old member are not to hand: the caller recodes.
fn correct<B: Blocks>(
    blocks: &B,
    leaf: bool,
    members: &Vec<Cid>,
    pos: usize,
    was: &Cid,
    ids: &[Cid; 3],
) -> (r: Result<Option<Vec<Vec<u8>>>, BuildError>)
    requires
        pos < members@.len() <= parity::MAX_GROUP,
    ensures
        ({
            let m = blocks.held();
            let o = parity::OneOff { pos: pos as int, was: was@, ids: node::cids_of(ids@) };
            match r {
                Ok(None) => !correctable(m, o),
                Ok(Some(out)) => {
                    &&& correctable(m, o)
                    &&& m.contains_key(members@[pos as int]@)
                    &&& seqs::views(out@) == corrected_blocks(
                        m,
                        leaf,
                        node::cids_of(members@),
                        o,
                    )
                },
                Err(e) => {
                    &&& correctable(m, o)
                    &&& !m.contains_key(members@[pos as int]@)
                    &&& missing(e) == Some(members@[pos as int]@)
                },
            }
        }),
{
    let ghost m = blocks.held();
    let ghost o = parity::OneOff { pos: pos as int, was: was@, ids: node::cids_of(ids@) };
    let mut old_parity: Vec<Vec<u8>> = Vec::new();
    let mut i: usize = 0;
    while i < 3
        invariant
            i <= 3,
            m == blocks.held(),
            o == (parity::OneOff { pos: pos as int, was: was@, ids: node::cids_of(ids@) }),
            old_parity@.len() == i,
            forall|j: int|
                0 <= j < i ==> m.contains_key(#[trigger] o.ids[j]) && old_parity@[j]@ == m[o.ids[j]],
        decreases 3 - i,
    {
        assert(o.ids[i as int] == ids@[i as int]@);
        match blocks.get(&ids[i]) {
            None => {
                assert(!m.contains_key(o.ids[i as int]));
                return Ok(None);
            },
            Some(b) => old_parity.push(vstd::slice::slice_to_vec(b)),
        }
        i = i + 1;
    }
    let old_state = match state(blocks, leaf, was) {
        None => return Ok(None),
        Some(s) => s,
    };
    let new_state = match state(blocks, leaf, &members[pos]) {
        None => return Err(BuildError::MissingMember(members[pos])),
        Some(s) => s,
    };
    match parity::update_group(
        old_parity.as_slice(),
        pos,
        old_state.as_slice(),
        new_state.as_slice(),
    ) {
        Ok(out) => {
            proof {
                let want = corrected_blocks(m, leaf, node::cids_of(members@), o);
                assert forall|r: int| 0 <= r < 3 implies seqs::views(out@)[r] == want[r] by {
                    parity::lemma_corrected_block(
                        out@[r]@,
                        old_parity@[r]@,
                        r,
                        pos as int,
                        old_state@,
                        new_state@,
                    );
                }
                assert(seqs::views(out@) =~= want);
            }
            Ok(Some(out))
        },
        Err(_) => {
            assert(false);
            Err(BuildError::NodeTooLarge)
        },
    }
}

/// Hand over freshly coded parity blocks and return their ids.
fn record(coded: &mut Vec<(Cid, Vec<u8>)>, blocks: Vec<Vec<u8>>) -> (ids: Vec<Cid>)
    requires
        coded_ok(old(coded)@),
    ensures
        node::cids_of(ids@) == parity_ids(seqs::views(blocks@)),
        coded_view(final(coded)@) == coded_view(old(coded)@) + seqs::views(blocks@),
        coded_ok(final(coded)@),
{
    let mut ids: Vec<Cid> = Vec::new();
    let mut i: usize = 0;
    let ghost bs = seqs::views(blocks@);
    assert(coded_view(coded@) =~= coded_view(old(coded)@) + bs.take(0));
    while i < blocks.len()
        invariant
            i <= blocks@.len(),
            bs == seqs::views(blocks@),
            ids@.len() == i,
            forall|j: int| 0 <= j < i ==> (#[trigger] ids@[j])@ == crate::spec_block_id(kind::PARITY, bs[j]),
            coded_view(coded@) == coded_view(old(coded)@) + bs.take(i as int),
            coded_ok(coded@),
        decreases blocks@.len() - i,
    {
        let b = vstd::slice::slice_to_vec(blocks[i].as_slice());
        let id = block_id(kind::PARITY, b.as_slice());
        ids.push(id);
        let ghost before = coded@;
        coded.push((id, b));
        proof {
            assert(coded_view(coded@) =~= coded_view(before).push(bs[i as int]));
            assert(bs.take(i + 1) =~= bs.take(i as int).push(bs[i as int]));
            assert(coded_view(coded@) =~= coded_view(old(coded)@) + bs.take(i + 1));
        }
        i = i + 1;
    }
    assert(bs.take(i as int) =~= bs);
    assert(node::cids_of(ids@) =~= parity_ids(bs));
    ids
}

/// The ids of a group's parity.
fn group_ids<B: Blocks>(
    blocks: &B,
    leaf: bool,
    index: &GroupIndex,
    class: usize,
    members: &Vec<Cid>,
    coded: &mut Vec<(Cid, Vec<u8>)>,
) -> (r: Result<Vec<Cid>, BuildError>)
    requires
        0 < members@.len() <= parity::MAX_GROUP,
        coded_ok(old(coded)@),
    ensures
        coded_ok(final(coded)@),
        ({
            let g = parity::Group { class: class as int, members: node::cids_of(members@) };
            match r {
                Ok(ids) => {
                    let c = group_code(blocks.held(), index@, leaf, g);
                    &&& c is Ok
                    &&& node::cids_of(ids@) == c->Ok_0.ids
                    &&& coded_view(final(coded)@) == coded_view(old(coded)@) + c->Ok_0.blocks
                },
                Err(e) => group_code(blocks.held(), index@, leaf, g) == Err::<Coded, Seq<u8>>(
                    missing(e)->Some_0,
                ) && missing(e) is Some && final(coded)@ == old(coded)@,
            }
        }),
{
    let ghost m = blocks.held();
    let ghost was_coded = coded_view(coded@);
    if let Some(ids) = index.exact(class, members.as_slice()) {
        let mut out: Vec<Cid> = Vec::new();
        out.push(ids[0]);
        out.push(ids[1]);
        out.push(ids[2]);
        assert(node::cids_of(out@) =~= node::cids_of(ids@));
        assert(coded_view(coded@) =~= was_coded + Seq::<Seq<u8>>::empty());
        return Ok(out);
    }
    if let Some((pos, was, ids)) = index.one_off(class, members.as_slice()) {
        assert(node::cids_of(members@)[pos as int] == members@[pos as int]@);
        match correct(blocks, leaf, members, pos, &was, &ids) {
            Err(e) => return Err(e),
            Ok(Some(out)) => return Ok(record(coded, out)),
            Ok(None) => {},
        }
    }
    match recode(blocks, leaf, members) {
        Err(e) => Err(e),
        Ok(out) => Ok(record(coded, out)),
    }
}

// ---------------------------------------------------------------------------
// the chunker
// ---------------------------------------------------------------------------

/// The members among some rows, in key order: class, grouping hash and id.
spec fn listed(members: Seq<(usize, u32, Cid)>, level: u8, rows: Seq<Row>) -> bool
    decreases rows.len(),
{
    if rows.len() == 0 {
        members.len() == 0
    } else {
        match parity::member(rows.last()) {
            None => listed(members, level, rows.drop_last()),
            Some(x) => {
                &&& members.len() > 0
                &&& members.last().0 == x.class
                &&& members.last().1 == parity::group_hash(level, rows.last().key)
                &&& members.last().2@ == x.cid
                &&& listed(members.drop_last(), level, rows.drop_last())
            },
        }
    }
}

/// The hashes of one class.
spec fn class_hashes(members: Seq<(usize, u32, Cid)>, class: int) -> Seq<u32>
    decreases members.len(),
{
    if members.len() == 0 {
        Seq::empty()
    } else {
        let rest = class_hashes(members.drop_last(), class);
        if members.last().0 == class {
            rest.push(members.last().1)
        } else {
            rest
        }
    }
}

/// The ids of one class.
spec fn class_cids(members: Seq<(usize, u32, Cid)>, class: int) -> Seq<Seq<u8>>
    decreases members.len(),
{
    if members.len() == 0 {
        Seq::empty()
    } else {
        let rest = class_cids(members.drop_last(), class);
        if members.last().0 == class {
            rest.push(members.last().2@)
        } else {
            rest
        }
    }
}

/// The members of a class are the run of that class.
proof fn lemma_listed(members: Seq<(usize, u32, Cid)>, level: u8, rows: Seq<Row>, class: int)
    requires
        listed(members, level, rows),
    ensures
        class_hashes(members, class) == parity::run_hashes(level, rows, class),
        class_cids(members, class) == parity::run_cids(rows, class),
    decreases rows.len(),
{
    if rows.len() > 0 {
        match parity::member(rows.last()) {
            None => lemma_listed(members, level, rows.drop_last(), class),
            Some(_) => lemma_listed(members.drop_last(), level, rows.drop_last(), class),
        }
    }
}

/// The hashes and ids of one class.
fn class_run(members: &Vec<(usize, u32, Cid)>, class: usize) -> (r: (Vec<u32>, Vec<Cid>))
    ensures
        r.0@ == class_hashes(members@, class as int),
        node::cids_of(r.1@) == class_cids(members@, class as int),
        r.0@.len() == r.1@.len(),
{
    let mut hashes: Vec<u32> = Vec::new();
    let mut cids: Vec<Cid> = Vec::new();
    let mut i: usize = 0;
    assert(members@.take(0) =~= Seq::<(usize, u32, Cid)>::empty());
    assert(node::cids_of(cids@) =~= Seq::<Seq<u8>>::empty());
    while i < members.len()
        invariant
            i <= members@.len(),
            hashes@ == class_hashes(members@.take(i as int), class as int),
            node::cids_of(cids@) == class_cids(members@.take(i as int), class as int),
            hashes@.len() == cids@.len(),
        decreases members@.len() - i,
    {
        proof {
            assert(members@.take(i + 1).drop_last() =~= members@.take(i as int));
        }
        if members[i].0 == class {
            hashes.push(members[i].1);
            let ghost before = cids@;
            cids.push(members[i].2);
            assert(node::cids_of(cids@) =~= node::cids_of(before).push(members@[i as int].2@));
        }
        i = i + 1;
    }
    assert(members@.take(i as int) =~= members@);
    (hashes, cids)
}

/// The groups of the members.
fn groups_of(members: &Vec<(usize, u32, Cid)>, Ghost(level): Ghost<u8>, Ghost(rows): Ghost<
    Seq<Row>,
>) -> (r: Vec<(usize, Vec<Cid>)>)
    requires
        listed(members@, level, rows),
    ensures
        parity::groups_view(r@) == parity::groups(level, rows),
{
    let mut out: Vec<(usize, Vec<Cid>)> = Vec::new();
    let mut class: usize = 0;
    assert(parity::groups_view(out@) =~= Seq::<parity::Group>::empty());
    while class < 4
        invariant
            class <= 4,
            listed(members@, level, rows),
            parity::groups_view(out@) == parity::groups_below(level, rows, class as nat),
        decreases 4 - class,
    {
        let (hashes, cids) = class_run(members, class);
        proof {
            lemma_listed(members@, level, rows, class as int);
        }
        parity::cut_run(class, &hashes, &cids, &mut out);
        class = class + 1;
    }
    out
}

/// Cuts the rows of one level into nodes, as they come.
pub struct LevelChunker<R: SplitRule> {
    level: u8,
    rule: R,
    open: NodeBuilder,
    /// The parity members of the open node.
    members: Vec<(usize, u32, Cid)>,
    /// The groups of every node this rewrite is replacing. Empty for a build from
    /// scratch, where there is nothing to reuse.
    index: GroupIndex,
    /// Parity blocks this chunker has coded, with their bytes. They are kept apart
    /// from the closed nodes, because the order in which the two are stored is the
    /// caller's to choose.
    coded: Vec<(Cid, Vec<u8>)>,
}

fn new_node(level: u8) -> (b: NodeBuilder)
    ensures
        b.wf(),
        b@ == (NodeView { level, rows: Seq::empty(), parity: Seq::empty() }),
{
    if level == 0 {
        NodeBuilder::leaf()
    } else {
        NodeBuilder::branch(level)
    }
}

/// What a push does: the nodes it closes and what is open afterwards, or why it
/// fails.
#[verifier::ext_equal]
pub enum Pushed {
    Done { closed: Seq<NodeView>, open: Seq<Row>, coded: Seq<Seq<u8>> },
    Closing(CloseFault),
    Row(BuildError),
}

/// Adding a row to the open node, then closing it where the rule says so.
pub open spec fn settled(
    m: BlockMap,
    index: Seq<Known>,
    level: u8,
    rule: Rule,
    open: Seq<Row>,
    row: Row,
) -> Pushed {
    match node::push_error(NodeView { level, rows: open, parity: Seq::empty() }, row) {
        Some(e) => Pushed::Row(e),
        None => {
            let next = open.push(row);
            if fires(level, rule, next) {
                match closing(m, index, level, next) {
                    Err(f) => Pushed::Closing(f),
                    Ok(d) => Pushed::Done {
                        closed: seq![d.node],
                        open: Seq::empty(),
                        coded: d.coded,
                    },
                }
            } else {
                Pushed::Done { closed: Seq::empty(), open: next, coded: Seq::empty() }
            }
        },
    }
}

/// Pushing a row: the hard limit first, then the row, then the rule.
pub open spec fn pushed(
    m: BlockMap,
    index: Seq<Known>,
    level: u8,
    rule: Rule,
    open: Seq<Row>,
    row: Row,
) -> Pushed {
    if overflows(open, row) {
        match closing(m, index, level, open) {
            Err(f) => Pushed::Closing(f),
            Ok(d) => match settled(m, index, level, rule, Seq::empty(), row) {
                Pushed::Done { closed, open, coded } => Pushed::Done {
                    closed: seq![d.node] + closed,
                    open,
                    coded: d.coded + coded,
                },
                other => other,
            },
        }
    } else {
        settled(m, index, level, rule, open, row)
    }
}

/// Is this error that failure?
pub open spec fn is_failure(e: BuildError, p: Pushed) -> bool {
    match p {
        Pushed::Done { .. } => false,
        Pushed::Closing(f) => is_fault(e, f),
        Pushed::Row(x) => e == x,
    }
}

/// What a row that could not be pushed leaves: the nodes that were closed before it was
/// refused, the rows of the open node, and the parity blocks coded meanwhile. A row that
/// is refused itself leaves the open node as it was; a node that could not be closed is
/// gone, and the parity coded for it stays.
pub open spec fn left_over(
    m: BlockMap,
    index: Seq<Known>,
    level: u8,
    open: Seq<Row>,
    row: Row,
) -> (Seq<NodeView>, Seq<Row>, Seq<Seq<u8>>) {
    if overflows(open, row) {
        match closing(m, index, level, open) {
            Err(_) => (Seq::empty(), Seq::empty(), tried(m, index, level, open)),
            Ok(d) => (
                seq![d.node],
                Seq::empty(),
                d.coded + unsettled(m, index, level, Seq::empty(), row),
            ),
        }
    } else if node::push_error(NodeView { level, rows: open, parity: Seq::empty() }, row) is Some {
        (Seq::empty(), open, Seq::empty())
    } else {
        (Seq::empty(), Seq::empty(), unsettled(m, index, level, open, row))
    }
}

/// The parity blocks that are coded where a row does not go in, or its node does not
/// close.
pub open spec fn unsettled(
    m: BlockMap,
    index: Seq<Known>,
    level: u8,
    open: Seq<Row>,
    row: Row,
) -> Seq<Seq<u8>> {
    if node::push_error(NodeView { level, rows: open, parity: Seq::empty() }, row) is Some {
        Seq::empty()
    } else {
        tried(m, index, level, open.push(row))
    }
}

/// More closed nodes after those there were.
pub open spec fn appended(before: Seq<Closed>, after: Seq<Closed>, nodes: Seq<NodeView>) -> bool {
    &&& after.len() == before.len() + nodes.len()
    &&& after.take(before.len() as int) == before
    &&& are(after.skip(before.len() as int), nodes)
}

impl<R: SplitRule> LevelChunker<R> {
    pub closed spec fn level(&self) -> u8 {
        self.level
    }

    pub closed spec fn rule(&self) -> Rule {
        rule_of(&self.rule)
    }

    /// The rows of the open node.
    pub closed spec fn open(&self) -> Seq<Row> {
        self.open@.rows
    }

    /// The groups of the nodes being replaced.
    pub closed spec fn index(&self) -> Seq<Known> {
        self.index@
    }

    /// The parity blocks coded and not yet taken.
    pub closed spec fn coded(&self) -> Seq<Seq<u8>> {
        coded_view(self.coded@)
    }

    /// The open node has no parity yet, and its members are listed.
    pub closed spec fn wf(&self) -> bool {
        &&& self.open.wf()
        &&& self.open@.level == self.level
        &&& self.open@.parity.len() == 0
        &&& listed(self.members@, self.level, self.open@.rows)
        &&& coded_ok(self.coded@)
    }

    pub fn new(level: u8, rule: R) -> (r: Self)
        ensures
            r.wf(),
            r.level() == level,
            r.rule() == rule_of(&rule),
            r.open() == Seq::<Row>::empty(),
            r.index() == Seq::<Known>::empty(),
            r.coded() == Seq::<Seq<u8>>::empty(),
    {
        let r = LevelChunker {
            level,
            rule,
            open: new_node(level),
            members: Vec::new(),
            index: GroupIndex::default(),
            coded: Vec::new(),
        };
        assert(r.coded() =~= Seq::<Seq<u8>>::empty());
        r
    }

    /// True when no entry is waiting in an open node: the chunker is in the state
    /// it has at the start of any node.
    pub fn is_clean(&self) -> (r: bool)
        ensures
            r == (self.open().len() == 0),
    {
        self.open.is_empty()
    }

    /// An old node this rewrite is replacing. Its groups are where untouched parity
    /// is copied from. They are not cleared when a node closes, because boundaries
    /// move: a group that survives can land in a different node than it started in.
    pub fn replacing(&mut self, node: &Node<'_>)
        requires
            old(self).wf(),
        ensures
            final(self).wf(),
            final(self).level() == old(self).level(),
            final(self).rule() == old(self).rule(),
            final(self).open() == old(self).open(),
            final(self).coded() == old(self).coded(),
            final(self).index() == old(self).index() + parity::known_of(node@),
    {
        self.index.add(node);
    }

    /// The parity blocks coded since the last call, and their ids. Taking them
    /// empties the list, so a caller draining as it goes never reports one twice.
    pub fn take_coded(&mut self) -> (r: Vec<(Cid, Vec<u8>)>)
        requires
            old(self).wf(),
        ensures
            final(self).wf(),
            final(self).level() == old(self).level(),
            final(self).rule() == old(self).rule(),
            final(self).open() == old(self).open(),
            final(self).index() == old(self).index(),
            final(self).coded() == Seq::<Seq<u8>>::empty(),
            coded_view(r@) == old(self).coded(),
            coded_ok(r@),
    {
        let mut out: Vec<(Cid, Vec<u8>)> = Vec::new();
        std::mem::swap(&mut out, &mut self.coded);
        assert(self.coded() =~= Seq::<Seq<u8>>::empty());
        out
    }

    /// List the parity of the open node, group by group.
    fn add_parity<B: Blocks>(&mut self, blocks: &B) -> (r: Result<(), BuildError>)
        requires
            old(self).wf(),
        ensures
            final(self).open.wf(),
            final(self).level == old(self).level,
            final(self).rule == old(self).rule,
            final(self).index@ == old(self).index@,
            coded_ok(final(self).coded@),
            ({
                let rows = old(self).open@.rows;
                let gs = parity::groups(old(self).level, rows);
                let want = made(blocks.held(), old(self).index@, old(self).level, rows, gs.len());
                match r {
                    Ok(_) => {
                        &&& want is Ok
                        &&& final(self).open@ == want->Ok_0.node
                        &&& coded_view(final(self).coded@) == coded_view(old(self).coded@)
                            + want->Ok_0.coded
                    },
                    Err(e) => {
                        &&& want is Err
                        &&& is_fault(e, want->Err_0)
                        &&& coded_view(final(self).coded@) == coded_view(old(self).coded@) + tried(
                            blocks.held(),
                            old(self).index@,
                            old(self).level,
                            rows,
                        )
                    },
                }
            }),
    {
        let ghost rows = self.open@.rows;
        let ghost level = self.level;
        let ghost m = blocks.held();
        let ghost index = self.index@;
        let ghost gs = parity::groups(level, rows);
        let ghost coded0 = coded_view(self.coded@);
        let groups = groups_of(&self.members, Ghost(level), Ghost(rows));
        assert(parity::groups_view(groups@).len() == groups@.len());
        let leaf = self.level == 0;
        let mut i: usize = 0;
        assert(self.open@.parity =~= Seq::<Seq<u8>>::empty());
        assert(coded_view(self.coded@) =~= coded0 + Seq::<Seq<u8>>::empty());
        while i < groups.len()
            invariant
                i <= groups@.len(),
                leaf == (level == 0),
                m == blocks.held(),
                index == self.index@,
                level == self.level,
                self.rule == old(self).rule,
                level == old(self).level,
                index == old(self).index@,
                rows == old(self).open@.rows,
                coded0 == coded_view(old(self).coded@),
                gs == parity::groups(level, rows),
                parity::groups_view(groups@) == gs,
                groups@.len() == gs.len(),
                self.open.wf(),
                coded_ok(self.coded@),
                made(m, index, level, rows, i as nat) is Ok,
                self.open@ == made(m, index, level, rows, i as nat)->Ok_0.node,
                coded_view(self.coded@) == coded0 + made(
                    m,
                    index,
                    level,
                    rows,
                    i as nat,
                )->Ok_0.coded,
            decreases groups@.len() - i,
        {
            let g = &groups[i];
            let ghost spec_g = gs[i as int];
            let ghost before = made(m, index, level, rows, i as nat)->Ok_0;
            let ghost coded1 = coded_view(self.coded@);
            proof {
                assert(parity::groups_view(groups@)[i as int] == spec_g);
                parity::lemma_group_sizes(level, rows, i as int);
                assert(node::cids_of(g.1@).len() == g.1@.len());
                lemma_made_err(m, index, level, rows, (i + 1) as nat, gs.len());
                lemma_coded_to(m, index, level, rows, (i + 1) as nat, gs.len());
            }
            let ids = match group_ids(blocks, leaf, &self.index, g.0, &g.1, &mut self.coded) {
                Err(e) => return Err(e),
                Ok(ids) => ids,
            };
            let ghost code = group_code(m, index, leaf, spec_g)->Ok_0;
            assert(node::cids_of(ids@).len() == ids@.len());
            let mut j: usize = 0;
            while j < ids.len()
                invariant
                    j <= ids@.len(),
                    self.open.wf(),
                    self.level == level,
                    self.index@ == index,
                    self.rule == old(self).rule,
                    coded_ok(self.coded@),
                    coded_view(self.coded@) == coded1 + code.blocks,
                    node::cids_of(ids@) == code.ids,
                    ids@.len() == code.ids.len(),
                    with_ids(before.node, code.ids, j as nat) == Ok::<NodeView, BuildError>(
                        self.open@,
                    ),
                    // for the exits
                    i < gs.len(),
                    gs == parity::groups(level, rows),
                    level == old(self).level,
                    index == old(self).index@,
                    rows == old(self).open@.rows,
                    leaf == (level == 0),
                    m == blocks.held(),
                    made(m, index, level, rows, i as nat) == Ok::<Made, CloseFault>(before),
                    group_code(m, index, leaf, gs[i as int]) == Ok::<Coded, Seq<u8>>(code),
                    made(m, index, level, rows, (i + 1) as nat) is Err ==> made(
                        m,
                        index,
                        level,
                        rows,
                        gs.len(),
                    ) == made(m, index, level, rows, (i + 1) as nat),
                    made(m, index, level, rows, (i + 1) as nat) is Err ==> coded_to(
                        m,
                        index,
                        level,
                        rows,
                        gs.len(),
                    ) == before.coded + code.blocks,
                    coded1 == coded0 + before.coded,
                    coded0 == coded_view(old(self).coded@),
                decreases ids@.len() - j,
            {
                assert(code.ids[j as int] == ids@[j as int]@);
                match self.open.push_parity(ids[j]) {
                    Err(e) => {
                        proof {
                            lemma_with_ids_err(before.node, code.ids, (j + 1) as nat, code.ids.len());
                            assert(coded0 + before.coded + code.blocks =~= coded0 + (before.coded
                                + code.blocks));
                        }
                        return Err(e);
                    },
                    Ok(_) => {},
                }
                j = j + 1;
            }
            proof {
                let next = made(m, index, level, rows, (i + 1) as nat)->Ok_0;
                assert(coded0 + before.coded + code.blocks =~= coded0 + (before.coded
                    + code.blocks));
            }
            i = i + 1;
        }
        Ok(())
    }

    /// Close the open node.
    fn close<B: Blocks>(&mut self, blocks: &B, out: &mut Vec<Closed>) -> (r: Result<(), BuildError>)
        requires
            old(self).wf(),
        ensures
            final(self).wf(),
            final(self).level() == old(self).level(),
            final(self).rule() == old(self).rule(),
            final(self).index() == old(self).index(),
            final(self).open() == Seq::<Row>::empty(),
            ({
                let want = closing(
                    blocks.held(),
                    old(self).index(),
                    old(self).level(),
                    old(self).open(),
                );
                match r {
                    Ok(_) => {
                        &&& want is Ok
                        &&& appended(old(out)@, final(out)@, seq![want->Ok_0.node])
                        &&& final(self).coded() == old(self).coded() + want->Ok_0.coded
                    },
                    Err(e) => {
                        &&& want is Err
                        &&& is_fault(e, want->Err_0)
                        &&& final(out)@ == old(out)@
                        &&& final(self).coded() == old(self).coded() + tried(
                            blocks.held(),
                            old(self).index(),
                            old(self).level(),
                            old(self).open(),
                        )
                    },
                }
            }),
    {
        let r = self.add_parity(blocks);
        let mut done = new_node(self.level);
        std::mem::swap(&mut done, &mut self.open);
        self.members = Vec::new();
        match r {
            Err(e) => Err(e),
            Ok(_) => {
                let ghost n = done@;
                let min_key = match done.min_key() {
                    None => Vec::new(),
                    Some(k) => vstd::slice::slice_to_vec(k),
                };
                assert(min_key@ =~= first_key(n.rows));
                let agg = done.agg();
                proof {
                    let n = parity::groups(old(self).level, old(self).open@.rows).len();
                    lemma_made_node(
                        blocks.held(),
                        old(self).index@,
                        old(self).level,
                        old(self).open@.rows,
                        n,
                    );
                    lemma_coded_to(
                        blocks.held(),
                        old(self).index@,
                        old(self).level,
                        old(self).open@.rows,
                        n,
                        n,
                    );
                }
                match done.finish() {
                    Err(e) => Err(e),
                    Ok(bytes) => {
                        let cid = block_id(kind::TREE_NODE, bytes.as_slice());
                        let c = Closed { min_key, cid, agg, bytes };
                        out.push(c);
                        proof {
                            assert(out@.take(old(out)@.len() as int) =~= old(out)@);
                            assert(out@.skip(old(out)@.len() as int) =~= seq![c]);
                        }
                        Ok(())
                    },
                }
            },
        }
    }
}

impl<R: SplitRule> LevelChunker<R> {
    /// Add a row to the open node, and close it where the rule says so.
    fn settle<B: Blocks>(&mut self, key: &[u8], body: &Body, blocks: &B, out: &mut Vec<Closed>) -> (r:
        Result<(), BuildError>)
        requires
            old(self).wf(),
            !overflows(old(self).open(), (Row { key: key@, held: body@ })) || old(self).open().len()
                == 0,
        ensures
            final(self).wf(),
            final(self).level() == old(self).level(),
            final(self).rule() == old(self).rule(),
            final(self).index() == old(self).index(),
            ({
                let want = settled(
                    blocks.held(),
                    old(self).index(),
                    old(self).level(),
                    old(self).rule(),
                    old(self).open(),
                    Row { key: key@, held: body@ },
                );
                match r {
                    Ok(_) => {
                        &&& want matches Pushed::Done { closed, open, coded }
                        &&& appended(old(out)@, final(out)@, closed)
                        &&& final(self).open() == open
                        &&& final(self).coded() == old(self).coded() + coded
                    },
                    Err(e) => {
                        &&& is_failure(e, want)
                        &&& final(out)@ == old(out)@
                        &&& final(self).open() == if want is Row {
                            old(self).open()
                        } else {
                            Seq::empty()
                        }
                        &&& final(self).coded() == old(self).coded() + if want is Row {
                            Seq::empty()
                        } else {
                            tried(
                                blocks.held(),
                                old(self).index(),
                                old(self).level(),
                                old(self).open().push(Row { key: key@, held: body@ }),
                            )
                        }
                    },
                }
            }),
    {
        let ghost row = Row { key: key@, held: body@ };
        let ghost rows = self.open@.rows;
        let before = self.open.logical_len();
        assert(self.open@ =~= NodeView {
            level: self.level,
            rows,
            parity: Seq::<Seq<u8>>::empty(),
        });
        let pushed = match body {
            Body::Inline(b) => self.open.push(key, Value::Inline(b.as_slice())),
            Body::Ref { cid, len } => self.open.push(key, Value::Ref { cid: *cid, len: *len }),
            Body::Child { cid, agg } => self.open.push_child(key, *cid, *agg),
        };
        if let Err(e) = pushed {
            assert(self.coded() =~= old(self).coded() + Seq::<Seq<u8>>::empty());
            return Err(e);
        }
        let none: [u8; 0] = [];
        assert(key@ + none@ =~= key@);
        let ghost members0 = self.members@;
        match body {
            Body::Inline(_) => {},
            Body::Ref { cid, len } => {
                let h = parity::group_hash_parts(self.level, key, none.as_slice());
                self.members.push((parity::class_of(*len as usize), h, *cid));
            },
            Body::Child { cid, .. } => {
                let h = parity::group_hash_parts(self.level, key, none.as_slice());
                self.members.push((0, h, *cid));
            },
        }
        proof {
            assert(self.open@.rows == rows.push(row));
            assert(rows.push(row).drop_last() =~= rows);
            assert(self.members@.len() > members0.len() ==> self.members@.drop_last()
                =~= members0);
            assert(listed(self.members@, self.level, self.open@.rows));
            node::lemma_logical_lower(rows, 0);
            self.open.lemma_wf();
            assert(node::logical(self.open@.rows) <= MAX_NODE) by {
                if rows.len() == 0 {
                    assert(node::encoded(self.open@) == node::logical(self.open@.rows)) by {
                        assert((self.open@.rows.len() - 1) * node::prefix_len(self.open@.rows)
                            == 0) by (nonlinear_arith)
                            requires
                                self.open@.rows.len() == 1,
                        ;
                    }
                }
            }
        }
        let after = self.open.logical_len();
        if self.rule.splits(self.level, key, before, after) {
            self.close(blocks, out)
        } else {
            proof {
                assert(out@.take(out@.len() as int) =~= out@);
                assert(self.coded() =~= old(self).coded() + Seq::<Seq<u8>>::empty());
            }
            Ok(())
        }
    }

    /// Add the next entry (keys strictly increasing). Nodes this closes are
    /// appended to `out`.
    ///
    /// `blocks` is where a parity member's bytes come from: every child of a
    /// branch, every referenced value of a leaf. A member whose bytes are needed
    /// and cannot be found is refused: coding it as absent would give a node whose
    /// parity does not protect what it claims to. The parity blocks coded before that
    /// stay where they are, and may then be of no node.
    pub fn push<B: Blocks>(
        &mut self,
        key: &[u8],
        body: &Body,
        blocks: &B,
        out: &mut Vec<Closed>,
    ) -> (r: Result<(), BuildError>)
        requires
            old(self).wf(),
        ensures
            final(self).wf(),
            final(self).level() == old(self).level(),
            final(self).rule() == old(self).rule(),
            final(self).index() == old(self).index(),
            ({
                let want = pushed(
                    blocks.held(),
                    old(self).index(),
                    old(self).level(),
                    old(self).rule(),
                    old(self).open(),
                    Row { key: key@, held: body@ },
                );
                match r {
                    Ok(_) => {
                        &&& want matches Pushed::Done { closed, open, coded }
                        &&& appended(old(out)@, final(out)@, closed)
                        &&& final(self).open() == open
                        &&& final(self).coded() == old(self).coded() + coded
                    },
                    Err(e) => {
                        let left = left_over(
                            blocks.held(),
                            old(self).index(),
                            old(self).level(),
                            old(self).open(),
                            Row { key: key@, held: body@ },
                        );
                        &&& is_failure(e, want)
                        &&& appended(old(out)@, final(out)@, left.0)
                        &&& final(self).open() == left.1
                        &&& final(self).coded() == old(self).coded() + left.2
                    },
                }
            }),
    {
        let ghost row = Row { key: key@, held: body@ };
        let stored: usize = match body {
            Body::Inline(b) => b.len(),
            Body::Ref { .. } => 32,
            Body::Child { .. } => 43,
        };
        let size = self.open.logical_len();
        // The hard limit closes the node before the entry that would overflow it.
        if size > MAX_LOGICAL || key.len() > MAX_LOGICAL || stored > MAX_LOGICAL || size + 13
            + key.len() + stored > MAX_LOGICAL {
            let ghost coded0 = self.coded();
            let ghost out0 = out@;
            proof {
                node::lemma_logical_lower(self.open@.rows, 0);
            }
            proof {
                lemma_appended_none(out0);
            }
            match self.close(blocks, out) {
                Err(e) => return Err(e),
                Ok(_) => {},
            }
            let ghost out1 = out@;
            let ghost coded1 = self.coded();
            let r = self.settle(key, body, blocks, out);
            proof {
                if r is Ok {
                    let d = closing(
                        blocks.held(),
                        old(self).index(),
                        old(self).level(),
                        old(self).open(),
                    )->Ok_0;
                    let more = settled(
                        blocks.held(),
                        old(self).index(),
                        old(self).level(),
                        old(self).rule(),
                        Seq::empty(),
                        row,
                    );
                    if let Pushed::Done { closed, open, coded } = more {
                        lemma_appended(out0, out1, out@, seq![d.node], closed);
                        assert(coded0 + d.coded + coded =~= coded0 + (d.coded + coded));
                    }
                } else {
                    let d = closing(
                        blocks.held(),
                        old(self).index(),
                        old(self).level(),
                        old(self).open(),
                    )->Ok_0;
                    let rest = unsettled(
                        blocks.held(),
                        old(self).index(),
                        old(self).level(),
                        Seq::empty(),
                        row,
                    );
                    assert(coded0 + d.coded + rest =~= coded0 + (d.coded + rest));
                }
            }
            r
        } else {
            proof {
                lemma_appended_none(out@);
            }
            self.settle(key, body, blocks, out)
        }
    }

    /// Close the open node, if it holds anything (end of the level).
    pub fn finish<B: Blocks>(&mut self, blocks: &B, out: &mut Vec<Closed>) -> (r: Result<
        (),
        BuildError,
    >)
        requires
            old(self).wf(),
        ensures
            final(self).wf(),
            final(self).level() == old(self).level(),
            final(self).rule() == old(self).rule(),
            final(self).index() == old(self).index(),
            final(self).open() == Seq::<Row>::empty(),
            ({
                let want = closing(
                    blocks.held(),
                    old(self).index(),
                    old(self).level(),
                    old(self).open(),
                );
                match r {
                    Ok(_) => if old(self).open().len() == 0 {
                        final(out)@ == old(out)@ && final(self).coded() == old(self).coded()
                    } else {
                        &&& want is Ok
                        &&& appended(old(out)@, final(out)@, seq![want->Ok_0.node])
                        &&& final(self).coded() == old(self).coded() + want->Ok_0.coded
                    },
                    Err(e) => {
                        &&& old(self).open().len() > 0
                        &&& want is Err
                        &&& is_fault(e, want->Err_0)
                        &&& final(out)@ == old(out)@
                        &&& final(self).coded() == old(self).coded() + tried(
                            blocks.held(),
                            old(self).index(),
                            old(self).level(),
                            old(self).open(),
                        )
                    },
                }
            }),
    {
        if self.open.is_empty() {
            assert(self.open() =~= Seq::<Row>::empty());
            Ok(())
        } else {
            self.close(blocks, out)
        }
    }
}

/// Appending nothing.
proof fn lemma_appended_none(a: Seq<Closed>)
    ensures
        appended(a, a, Seq::empty()),
{
    assert(a.take(a.len() as int) =~= a);
    assert(a.skip(a.len() as int) =~= Seq::<Closed>::empty());
}

/// Appending twice.
pub proof fn lemma_appended(
    a: Seq<Closed>,
    b: Seq<Closed>,
    c: Seq<Closed>,
    x: Seq<NodeView>,
    y: Seq<NodeView>,
)
    requires
        appended(a, b, x),
        appended(b, c, y),
    ensures
        appended(a, c, x + y),
{
    let n = a.len() as int;
    let k = b.len() as int;
    assert(c.take(n) =~= c.take(k).take(n));
    let tail = c.skip(n);
    assert forall|i: int| 0 <= i < tail.len() implies (#[trigger] tail[i]).is((x + y)[i]) by {
        if i < x.len() {
            assert(tail[i] == c.take(k)[n + i]);
            assert(b.skip(n)[i] == b[n + i]);
            assert(b.skip(n)[i].is(x[i]));
        } else {
            assert(tail[i] == c.skip(k)[i - x.len()]);
            assert(c.skip(k)[i - x.len()].is(y[i - x.len()]));
        }
    }
}

/// Ids are refused once and for all.
proof fn lemma_with_ids_err(n: NodeView, ids: Seq<Seq<u8>>, k: nat, count: nat)
    requires
        k <= count,
        with_ids(n, ids, k) is Err,
    ensures
        with_ids(n, ids, count) == with_ids(n, ids, k),
    decreases count,
{
    if k < count {
        lemma_with_ids_err(n, ids, k, (count - 1) as nat);
    }
}

/// Where closing stops, nothing more is coded; where it does not, all is.
proof fn lemma_coded_to(
    m: BlockMap,
    index: Seq<Known>,
    level: u8,
    rows: Seq<Row>,
    k: nat,
    n: nat,
)
    requires
        k <= n,
    ensures
        made(m, index, level, rows, k) is Err ==> coded_to(m, index, level, rows, n) == coded_to(
            m,
            index,
            level,
            rows,
            k,
        ),
        made(m, index, level, rows, n) is Ok ==> coded_to(m, index, level, rows, n) == made(
            m,
            index,
            level,
            rows,
            n,
        )->Ok_0.coded,
    decreases n,
{
    if k < n {
        lemma_coded_to(m, index, level, rows, k, (n - 1) as nat);
        lemma_made_err(m, index, level, rows, k, (n - 1) as nat);
    }
}

/// A group that fails, fails the node.
proof fn lemma_made_err(
    m: BlockMap,
    index: Seq<Known>,
    level: u8,
    rows: Seq<Row>,
    k: nat,
    n: nat,
)
    requires
        k <= n,
    ensures
        made(m, index, level, rows, k) is Err ==> made(m, index, level, rows, n) == made(
            m,
            index,
            level,
            rows,
            k,
        ),
    decreases n,
{
    if k < n {
        lemma_made_err(m, index, level, rows, k, (n - 1) as nat);
    }
}

/// Listing ids changes nothing but the ids.
proof fn lemma_with_ids_node(n: NodeView, ids: Seq<Seq<u8>>, count: nat)
    requires
        with_ids(n, ids, count) is Ok,
    ensures
        with_ids(n, ids, count)->Ok_0.level == n.level,
        with_ids(n, ids, count)->Ok_0.rows == n.rows,
    decreases count,
{
    if count > 0 {
        lemma_with_ids_node(n, ids, (count - 1) as nat);
    }
}

/// A closed node has the rows it was closed with.
pub proof fn lemma_made_node(m: BlockMap, index: Seq<Known>, level: u8, rows: Seq<Row>, n: nat)
    ensures
        made(m, index, level, rows, n) is Ok ==> {
            let d = made(m, index, level, rows, n)->Ok_0;
            d.node.level == level && d.node.rows == rows
        },
    decreases n,
{
    if n > 0 && made(m, index, level, rows, n) is Ok {
        lemma_made_node(m, index, level, rows, (n - 1) as nat);
        let d = made(m, index, level, rows, (n - 1) as nat)->Ok_0;
        let g = group_code(m, index, level == 0, parity::groups(level, rows)[n - 1])->Ok_0;
        lemma_with_ids_node(d.node, g.ids, g.ids.len());
    }
}

} // verus!
