//! Where blocks come from.
//!
//! Tree operations are pure functions of a root and a [`Blocks`] source. They never
//! wait: an operation that reaches a block the source does not hold stops with
//! [`ReadError::Need`] naming it, the caller fetches it, and runs the same operation
//! again.

use crate::node;
use crate::node::{Node, NodeError, NodeView, Payload};
use crate::order;
use crate::seqs;
use crate::Cid;
use std::collections::HashMap;
use vstd::prelude::*;

verus! {

/// Blocks by id.
pub type BlockMap = Map<Seq<u8>, Seq<u8>>;

/// A source of blocks by id. An implementation must only return a body whose
/// [`block_id`](crate::block_id) for its kind is `cid` (hash-keyed storage gives
/// this for free). `get` lends bytes that live as long as the source, so a source
/// is a map of blocks already in memory: what is missing is reported as
/// [`ReadError::Need`], fetched by the caller, added to the map, and the operation
/// is run again.
pub trait Blocks {
    /// The blocks held.
    spec fn held(&self) -> BlockMap;

    /// The bytes of a block, where it is held.
    fn get(&self, cid: &Cid) -> (r: Option<&[u8]>)
        ensures
            match r {
                None => !self.held().contains_key(cid@),
                Some(b) => self.held().contains_key(cid@) && b@ == self.held()[cid@],
            },
    ;
}

/// So a `&B` is a block source wherever `B` is.
impl<B: Blocks> Blocks for &B {
    open spec fn held(&self) -> BlockMap {
        (**self).held()
    }

    fn get(&self, cid: &Cid) -> (r: Option<&[u8]>) {
        (**self).get(cid)
    }
}

/// A block source that can also be written to.
pub trait BlocksMut: Blocks {
    /// Hold `bytes` under `cid`.
    fn insert_block(&mut self, cid: Cid, bytes: &[u8])
        ensures
            final(self).held() == old(self).held().insert(cid@, bytes@),
    ;
}

/// Which bucket an id falls in.
spec fn slot(cid: Seq<u8>) -> u64 {
    seqs::le64(cid, 0) as u64
}

/// The bytes under an id in a bucket, from `i` on.
spec fn find(bucket: Seq<(Cid, Vec<u8>)>, cid: Seq<u8>, i: int) -> Option<Seq<u8>>
    decreases bucket.len() - i,
{
    if i < 0 || i >= bucket.len() {
        None
    } else if bucket[i].0@ == cid {
        Some(bucket[i].1@)
    } else {
        find(bucket, cid, i + 1)
    }
}

/// Blocks held in memory.
pub struct MemBlocks {
    buckets: HashMap<u64, Vec<(Cid, Vec<u8>)>>,
}

/// The bytes under an id in some buckets.
spec fn look_up(buckets: Map<u64, Vec<(Cid, Vec<u8>)>>, cid: Seq<u8>) -> Option<Seq<u8>> {
    if buckets.contains_key(slot(cid)) {
        find(buckets[slot(cid)]@, cid, 0)
    } else {
        None
    }
}

/// The map that some buckets make.
spec fn as_map(buckets: Map<u64, Vec<(Cid, Vec<u8>)>>) -> BlockMap {
    Map::new(|c: Seq<u8>| look_up(buckets, c) is Some, |c: Seq<u8>| look_up(buckets, c)->Some_0)
}

/// Where an id is in a bucket.
fn position(bucket: &Vec<(Cid, Vec<u8>)>, cid: &Cid) -> (r: Option<usize>)
    ensures
        match r {
            None => {
                &&& find(bucket@, cid@, 0) is None
                &&& forall|j: int| 0 <= j < bucket@.len() ==> (#[trigger] bucket@[j]).0@ != cid@
            },
            Some(p) => {
                &&& p < bucket@.len()
                &&& bucket@[p as int].0@ == cid@
                &&& find(bucket@, cid@, 0) == Some(bucket@[p as int].1@)
                &&& forall|j: int| 0 <= j < p ==> (#[trigger] bucket@[j]).0@ != cid@
            },
        },
{
    let mut i: usize = 0;
    while i < bucket.len()
        invariant
            i <= bucket@.len(),
            find(bucket@, cid@, 0) == find(bucket@, cid@, i as int),
            forall|j: int| 0 <= j < i ==> (#[trigger] bucket@[j]).0@ != cid@,
        decreases bucket@.len() - i,
    {
        if order::same(bucket[i].0.as_slice(), cid.as_slice()) {
            return Some(i);
        }
        i = i + 1;
    }
    None
}

/// What a bucket holds after its entry for `cid` is replaced at `p`, or added at
/// the end.
proof fn lemma_find(
    bucket: Seq<(Cid, Vec<u8>)>,
    next: Seq<(Cid, Vec<u8>)>,
    cid: Seq<u8>,
    bytes: Seq<u8>,
    p: int,
    other: Seq<u8>,
    i: int,
)
    requires
        0 <= p < next.len(),
        p <= bucket.len(),
        next.len() == (if p < bucket.len() {
            bucket.len()
        } else {
            bucket.len() + 1
        }),
        next[p].0@ == cid,
        next[p].1@ == bytes,
        p < bucket.len() ==> bucket[p].0@ == cid,
        forall|j: int| 0 <= j < bucket.len() && j != p ==> next[j] == bucket[j],
        forall|j: int| 0 <= j < p ==> (#[trigger] bucket[j]).0@ != cid,
        0 <= i <= next.len(),
    ensures
        find(next, other, i) == (if other == cid && i <= p {
            Some(bytes)
        } else {
            find(bucket, other, i)
        }) || (other == cid && i > p),
    decreases next.len() - i,
{
    if i < next.len() {
        lemma_find(bucket, next, cid, bytes, p, other, i + 1);
    }
}

impl MemBlocks {
    /// No blocks at all.
    pub fn new() -> (r: MemBlocks)
        ensures
            r.held() == Map::<Seq<u8>, Seq<u8>>::empty(),
    {
        let r = MemBlocks { buckets: HashMap::new() };
        assert(r.held() =~= Map::<Seq<u8>, Seq<u8>>::empty());
        r
    }

    /// Hold `bytes` under `cid`.
    pub fn insert(&mut self, cid: Cid, bytes: &[u8])
        ensures
            final(self).held() == old(self).held().insert(cid@, bytes@),
    {
        broadcast use vstd::std_specs::hash::group_hash_axioms;

        let s = seqs::u64_at(cid.as_slice(), 0);
        let ghost before = self.buckets@;
        let mut bucket: Vec<(Cid, Vec<u8>)> = match self.buckets.remove(&s) {
            None => Vec::new(),
            Some(b) => b,
        };
        let ghost was = bucket@;
        let copy = vstd::slice::slice_to_vec(bytes);
        let ghost p: int;
        match position(&bucket, &cid) {
            Some(i) => {
                bucket[i] = (cid, copy);
                proof {
                    p = i as int;
                }
            },
            None => {
                bucket.push((cid, copy));
                proof {
                    p = was.len() as int;
                }
            },
        }
        let ghost now = bucket@;
        self.buckets.insert(s, bucket);
        proof {
            assert(self.buckets@ =~= before.insert(s, bucket));
            assert forall|c: Seq<u8>| look_up(self.buckets@, c) == (if c == cid@ {
                Some(bytes@)
            } else {
                look_up(before, c)
            }) by {
                if slot(c) == s {
                    lemma_find(was, now, cid@, bytes@, p, c, 0);
                    if !before.contains_key(s) {
                        assert(find(was, c, 0) is None);
                    }
                }
            }
            assert(self.held() =~= old(self).held().insert(cid@, bytes@));
        }
    }
}

impl Default for MemBlocks {
    fn default() -> (r: MemBlocks)
        ensures
            r.held() == Map::<Seq<u8>, Seq<u8>>::empty(),
    {
        MemBlocks::new()
    }
}

impl Blocks for MemBlocks {
    closed spec fn held(&self) -> BlockMap {
        as_map(self.buckets@)
    }

    fn get(&self, cid: &Cid) -> (r: Option<&[u8]>) {
        broadcast use vstd::std_specs::hash::group_hash_axioms;

        let s = seqs::u64_at(cid.as_slice(), 0);
        match self.buckets.get(&s) {
            None => None,
            Some(bucket) => match position(bucket, cid) {
                None => None,
                Some(i) => Some(bucket[i].1.as_slice()),
            },
        }
    }
}

impl BlocksMut for MemBlocks {
    fn insert_block(&mut self, cid: Cid, bytes: &[u8]) {
        self.insert(cid, bytes);
    }
}

/// Fresh blocks first, a base store second.
///
/// A rebuild needs its own output back: a branch's parity members are its children,
/// and when a branch closes those children were created moments ago and are not in
/// the caller's store yet. So writes look here first and fall through. A build with
/// no base store uses an overlay over nothing.
pub struct Overlay<'a, B: Blocks> {
    fresh: MemBlocks,
    base: Option<&'a B>,
}

impl<'a, B: Blocks> Overlay<'a, B> {
    /// The blocks put so far.
    pub closed spec fn fresh(&self) -> BlockMap {
        self.fresh.held()
    }

    /// The blocks below.
    pub closed spec fn base(&self) -> BlockMap {
        match self.base {
            Some(b) => b.held(),
            None => Map::empty(),
        }
    }

    pub fn new(base: Option<&'a B>) -> (r: Self)
        ensures
            r.fresh() == Map::<Seq<u8>, Seq<u8>>::empty(),
            r.base() == (match base {
                Some(b) => b.held(),
                None => Map::empty(),
            }),
            r.held() == r.base(),
    {
        let r = Overlay { fresh: MemBlocks::new(), base };
        assert(r.held() =~= r.base());
        r
    }

    /// Remember a block this call produced or was handed.
    pub fn put(&mut self, cid: Cid, bytes: &[u8])
        ensures
            final(self).fresh() == old(self).fresh().insert(cid@, bytes@),
            final(self).base() == old(self).base(),
            final(self).held() == old(self).held().insert(cid@, bytes@),
    {
        self.fresh.insert(cid, bytes);
        assert(self.held() =~= old(self).held().insert(cid@, bytes@));
    }

    /// Was this block put here?
    pub fn holds(&self, cid: &Cid) -> (r: bool)
        ensures
            r == self.fresh().contains_key(cid@),
    {
        self.fresh.get(cid).is_some()
    }
}

impl<'a, B: Blocks> Blocks for Overlay<'a, B> {
    closed spec fn held(&self) -> BlockMap {
        self.base().union_prefer_right(self.fresh())
    }

    fn get(&self, cid: &Cid) -> (r: Option<&[u8]>) {
        match self.fresh.get(cid) {
            Some(b) => Some(b),
            None => match self.base {
                Some(base) => base.get(cid),
                None => None,
            },
        }
    }
}

// ---------------------------------------------------------------------------
// reading nodes
// ---------------------------------------------------------------------------

/// Why a read stopped.
#[derive(Clone, Debug, PartialEq, Eq)]
pub enum ReadError {
    /// These blocks are required and not held. Fetch them and run again.
    Need(Vec<Cid>),
    /// A block does not parse as a node.
    Corrupt(Cid, NodeError),
    /// A child is not what its parent says: wrong level, first key or aggregate.
    Mismatch(Cid),
}

/// Why a read stopped, as a mathematical value.
#[verifier::ext_equal]
pub enum Fault {
    Need(Seq<Seq<u8>>),
    Corrupt(Seq<u8>, NodeError),
    Mismatch(Seq<u8>),
}

impl View for ReadError {
    type V = Fault;

    open spec fn view(&self) -> Fault {
        match *self {
            ReadError::Need(ids) => Fault::Need(node::cids_of(ids@)),
            ReadError::Corrupt(cid, e) => Fault::Corrupt(cid@, e),
            ReadError::Mismatch(cid) => Fault::Mismatch(cid@),
        }
    }
}

/// The read error for one block that is not held.
pub fn need_one(cid: &Cid) -> (e: ReadError)
    ensures
        e@ == Fault::Need(seq![cid@]),
{
    let mut ids: Vec<Cid> = Vec::new();
    ids.push(*cid);
    assert(node::cids_of(ids@) =~= seq![cid@]);
    ReadError::Need(ids)
}

/// What loading `cid` gives.
#[verifier::opaque]
pub open spec fn loaded(m: BlockMap, cid: Seq<u8>) -> Result<NodeView, Fault> {
    if !m.contains_key(cid) {
        Err(Fault::Need(seq![cid]))
    } else {
        match node::parse_spec(m[cid]) {
            Err(e) => Err(Fault::Corrupt(cid, e)),
            Ok(n) => Ok(n),
        }
    }
}

/// Load and parse the node `cid`, unchecked: for a root, or a block looked at on
/// its own. A child reached from a parent is opened with [`Held::open`], which is
/// what checks it.
pub fn load<'a, B: Blocks>(blocks: &'a B, cid: &Cid) -> (r: Result<Node<'a>, ReadError>)
    ensures
        match r {
            Ok(n) => loaded(blocks.held(), cid@) == Ok::<NodeView, Fault>(n@) && n.raw()
                == blocks.held()[cid@] && blocks.held().contains_key(cid@),
            Err(e) => loaded(blocks.held(), cid@) == Err::<NodeView, Fault>(e@),
        },
{
    reveal(loaded);
    match blocks.get(cid) {
        None => Err(need_one(cid)),
        Some(bytes) => match Node::parse(bytes) {
            Err(e) => Err(ReadError::Corrupt(*cid, e)),
            Ok(n) => Ok(n),
        },
    }
}

/// A node reached from a root, as a mathematical value.
#[verifier::ext_equal]
pub struct HeldView {
    pub node: NodeView,
    pub upper: Option<Seq<u8>>,
}

/// The id a row names.
pub open spec fn child_cid(row: node::Row) -> Seq<u8> {
    match row.held {
        Payload::Child { cid, .. } => cid,
        _ => Seq::empty(),
    }
}

/// The aggregate a row records.
pub open spec fn child_agg(row: node::Row) -> node::Agg {
    match row.held {
        Payload::Child { agg, .. } => agg,
        _ => node::Agg { count: 0, bytes: 0 },
    }
}

/// The bound child `i` is held to: its next sibling's key, else its parent's bound.
pub open spec fn child_bound(h: HeldView, i: int) -> Option<Seq<u8>> {
    if i + 1 < h.node.rows.len() {
        Some(h.node.rows[i + 1].key)
    } else {
        h.upper
    }
}

/// Does a node end before a bound?
pub open spec fn ends_before(n: NodeView, upper: Option<Seq<u8>>) -> bool {
    upper is Some && n.rows.len() > 0 ==> order::lt(n.rows.last().key, upper->Some_0)
}

/// Is `c` what its parent records of child `i`: its level, its first key, its
/// aggregate, and do its keys end before the bound it inherits?
pub open spec fn is_child(h: HeldView, i: int, c: NodeView) -> bool {
    &&& node::spec_one_level_below(h.node.level, c.level)
    &&& c.rows.len() > 0
    &&& c.agg() == child_agg(h.node.rows[i])
    &&& c.rows[0].key == h.node.rows[i].key
    &&& ends_before(c, child_bound(h, i))
}

/// What opening child `i` gives.
pub open spec fn opened(m: BlockMap, h: HeldView, i: int) -> Result<HeldView, Fault> {
    let cid = child_cid(h.node.rows[i]);
    match loaded(m, cid) {
        Err(f) => Err(f),
        Ok(c) => if is_child(h, i, c) {
            Ok(HeldView { node: c, upper: child_bound(h, i) })
        } else {
            Err(Fault::Mismatch(cid))
        },
    }
}

/// A node reached from a trusted root, carrying the bound its keys must stay under.
///
/// The only way to hold a child. A parent records each child's first key and
/// nothing about its last, so without the bound a writer could put a key in a leaf
/// where a point read does not look for it, while a range read finds it there. A
/// child's keys end before whatever follows it, and that bound is inherited: a leaf
/// that is the last child of its parent is bounded by the parent's own successor,
/// which only the path from the root knows. So the bound travels with the node:
/// [`Held::root`] is the only way in and [`Held::open`] the only way down.
pub struct Held<'a> {
    node: Node<'a>,
    /// The smallest key after this node's whole subtree. `None` at the right edge
    /// of the tree.
    upper: Option<Vec<u8>>,
}

impl<'a> View for Held<'a> {
    type V = HeldView;

    closed spec fn view(&self) -> HeldView {
        HeldView {
            node: self.node@,
            upper: match self.upper {
                Some(k) => Some(k@),
                None => None,
            },
        }
    }
}

/// A copy of a key, where there is one.
fn copy_key(k: &Option<Vec<u8>>) -> (r: Option<Vec<u8>>)
    ensures
        r is Some <==> k is Some,
        r is Some ==> r->Some_0@ == k->Some_0@,
{
    match k {
        None => None,
        Some(v) => Some(vstd::slice::slice_to_vec(v.as_slice())),
    }
}

impl<'a> Held<'a> {
    /// The only way in. Nothing follows a whole tree, so a root is unbounded.
    pub fn root<B: Blocks>(blocks: &'a B, cid: &Cid) -> (r: Result<Held<'a>, ReadError>)
        ensures
            match r {
                Ok(h) => loaded(blocks.held(), cid@) == Ok::<NodeView, Fault>(h@.node) && h@.upper
                    is None,
                Err(e) => loaded(blocks.held(), cid@) == Err::<NodeView, Fault>(e@),
            },
    {
        match load(blocks, cid) {
            Err(e) => Err(e),
            Ok(node) => Ok(Held { node, upper: None }),
        }
    }

    /// The only way down: load child `i` and check it against what this node
    /// records, and that its keys end before the bound it inherits.
    pub fn open<B: Blocks>(&self, blocks: &'a B, i: usize) -> (r: Result<Held<'a>, ReadError>)
        requires
            self@.node.level > 0,
            i < self@.node.rows.len(),
        ensures
            match r {
                Ok(h) => opened(blocks.held(), self@, i as int) == Ok::<HeldView, Fault>(h@),
                Err(e) => opened(blocks.held(), self@, i as int) == Err::<HeldView, Fault>(e@),
            },
    {
        let (cid, agg) = self.node.child(i);
        let child = match load(blocks, &cid) {
            Err(e) => return Err(e),
            Ok(n) => n,
        };
        let upper = self.child_upper(i);
        if !node::one_level_below(self.node.level(), child.level()) || child.is_empty()
            || child.agg() != agg {
            return Err(ReadError::Mismatch(cid));
        }
        if !order::same(child.key(0).as_slice(), self.node.key(i).as_slice()) {
            return Err(ReadError::Mismatch(cid));
        }
        if let Some(end) = &upper {
            let last = child.key(child.len() - 1);
            if !order::before(last.as_slice(), end.as_slice()) {
                return Err(ReadError::Mismatch(cid));
            }
        }
        Ok(Held { node: child, upper })
    }

    /// The smallest key after this node's subtree; `None` at the right edge.
    pub fn upper(&self) -> (r: Option<&[u8]>)
        ensures
            r is Some <==> self@.upper is Some,
            r is Some ==> r->Some_0@ == self@.upper->Some_0,
    {
        match &self.upper {
            None => None,
            Some(k) => Some(k.as_slice()),
        }
    }

    /// The bound child `i` will be held to, without loading it.
    pub fn child_upper(&self, i: usize) -> (r: Option<Vec<u8>>)
        requires
            i < self@.node.rows.len(),
        ensures
            r is Some <==> child_bound(self@, i as int) is Some,
            r is Some ==> r->Some_0@ == child_bound(self@, i as int)->Some_0,
    {
        let n = self.node.len();
        if i + 1 < n {
            Some(self.node.key(i + 1))
        } else {
            copy_key(&self.upper)
        }
    }

    /// The node itself.
    pub fn node(&self) -> (n: &Node<'a>)
        ensures
            n@ == self@.node,
    {
        &self.node
    }
}

} // verus!
