//! Tree node format `PT01`: one node is one block, read in place.
//!
//! ```text
//! header (28 B)
//!   magic   "PT01"      4
//!   level   u8          0 = leaf
//!   flags   u8          reserved, must be 0
//!   count   u16         entries
//!   agg     count:u64 || bytes:u64     this subtree
//!   pcount  u16         parity cids
//!   plen    u16         length of the key prefix that every entry shares
//! prefix  [u8; plen]    the longest prefix shared by every key, stored once
//! offs    [u16; count]  offset of each entry from the start of the node
//! keys4   [u32; count]  first 4 suffix bytes, big-endian, zero-padded
//! entries, contiguous, in key order
//!   leaf    slen:u16 || vkind:u8 || vlen:u32 || suffix || val
//!             vkind 0 = inline bytes (vlen = their length)
//!             vkind 1 = reference: val is cid(32); vlen = referenced length
//!   branch  slen:u16 || child:cid(32) || child_agg(16) || suffix
//!             key = child's smallest key
//! parity [cid; pcount]
//! ```
//! All integers little-endian except `keys4`, which is big-endian so that integer
//! order equals byte order.
//!
//! [`Node::parse`] accepts exactly the bytes [`NodeBuilder`] can produce: a node
//! that parses is sorted, tiled with no gaps or trailing bytes, stores its shared
//! prefix once and whole, and carries an aggregate equal to the fold of its
//! entries. A leaf carries parity only over values it refers to.

use crate::canon;
use crate::chunk::{Body, Entry};
use crate::order;
use crate::order::Side;
use crate::seqs;
use crate::{block_id, kind, Cid};
use vstd::prelude::*;

verus! {

/// The first four bytes of a node: "PT01".
pub const MAGIC: [u8; 4] = [0x50, 0x54, 0x30, 0x31];

/// Hard cap on an encoded node. The chunker clamps well below this.
pub const MAX_NODE: usize = 16384;

/// Bytes before the shared prefix.
pub const HEADER: usize = 28;

/// The longest key.
pub const MAX_KEY: usize = 512;

/// The longest value kept in its leaf; a longer one is kept in a block of its own.
pub const MAX_INLINE: usize = 1024;

/// The longest value.
pub const MAX_VALUE: usize = 262144;

const LEAF_FIXED: usize = 7;

const BRANCH_FIXED: usize = 50;

const REF_LEN: usize = 32;

/// Rolled-up statistics of a subtree.
#[derive(Clone, Copy, Debug, PartialEq, Eq, Structural)]
pub struct Agg {
    /// Leaf entries in the subtree.
    pub count: u64,
    /// Logical bytes: key length + value length (referenced length for refs).
    pub bytes: u64,
}

impl Default for Agg {
    fn default() -> (a: Agg)
        ensures
            a == (Agg { count: 0, bytes: 0 }),
    {
        Agg { count: 0, bytes: 0 }
    }
}

impl Agg {
    /// The sum of two aggregates, where it fits.
    pub open spec fn spec_add(self, o: Agg) -> Option<Agg> {
        if self.count + o.count <= u64::MAX && self.bytes + o.bytes <= u64::MAX {
            Some(
                Agg { count: (self.count + o.count) as u64, bytes: (self.bytes + o.bytes) as u64 },
            )
        } else {
            None
        }
    }

    /// Overflow-checked sum; `None` on overflow.
    pub fn checked_add(self, o: Agg) -> (r: Option<Agg>)
        ensures
            r == self.spec_add(o),
    {
        match self.count.checked_add(o.count) {
            None => None,
            Some(count) => match self.bytes.checked_add(o.bytes) {
                None => None,
                Some(bytes) => Some(Agg { count, bytes }),
            },
        }
    }
}

/// What an entry holds, as a mathematical value.
#[verifier::ext_equal]
pub enum Payload {
    Inline(Seq<u8>),
    Ref { cid: Seq<u8>, len: u32 },
    Child { cid: Seq<u8>, agg: Agg },
}

/// An entry of a node, as a mathematical value.
#[verifier::ext_equal]
pub struct Row {
    pub key: Seq<u8>,
    pub held: Payload,
}

/// A node, as a mathematical value.
#[verifier::ext_equal]
pub struct NodeView {
    pub level: u8,
    pub rows: Seq<Row>,
    pub parity: Seq<Seq<u8>>,
}

/// A value as a leaf holds it.
#[derive(Clone, Copy, Debug, PartialEq, Eq)]
pub enum Value<'a> {
    Inline(&'a [u8]),
    /// A value stored in its own block.
    Ref { cid: Cid, len: u32 },
}

impl<'a> View for Value<'a> {
    type V = Payload;

    open spec fn view(&self) -> Payload {
        match *self {
            Value::Inline(b) => Payload::Inline(b@),
            Value::Ref { cid, len } => Payload::Ref { cid: cid@, len },
        }
    }
}

/// The value's own length: what a reference refers to, not the reference.
pub open spec fn value_len(h: Payload) -> int {
    match h {
        Payload::Inline(b) => b.len() as int,
        Payload::Ref { len, .. } => len as int,
        Payload::Child { .. } => 0,
    }
}

/// The length that `Value::for_bytes` records for `n` bytes.
pub open spec fn recorded_len(n: nat) -> u32 {
    if n > u32::MAX {
        u32::MAX
    } else {
        n as u32
    }
}

/// How the format stores a value of these bytes: short ones inline, longer ones by
/// reference to a raw block.
pub open spec fn stored_as(bytes: Seq<u8>) -> Payload {
    if bytes.len() <= MAX_INLINE {
        Payload::Inline(bytes)
    } else {
        Payload::Ref {
            cid: crate::spec_block_id(kind::RAW, bytes),
            len: recorded_len(bytes.len()),
        }
    }
}

impl<'a> Value<'a> {
    /// The value's own length.
    pub fn logical_len(&self) -> (n: u64)
        ensures
            n == value_len(self@),
    {
        match self {
            Value::Inline(b) => b.len() as u64,
            Value::Ref { len, .. } => *len as u64,
        }
    }

    /// How the format stores these bytes, and the block to keep when they do not
    /// go into the leaf. This is the one place that decides.
    pub fn for_bytes(bytes: &'a [u8]) -> (r: (Value<'a>, Option<(Cid, &'a [u8])>))
        ensures
            r.0@ == stored_as(bytes@),
            match r.1 {
                None => bytes@.len() <= MAX_INLINE,
                Some((cid, b)) => bytes@.len() > MAX_INLINE && b@ == bytes@ && cid@
                    == crate::spec_block_id(kind::RAW, bytes@),
            },
    {
        if bytes.len() <= MAX_INLINE {
            (Value::Inline(bytes), None)
        } else {
            let cid = block_id(kind::RAW, bytes);
            let len: u32 = if bytes.len() > 4294967295 {
                4294967295
            } else {
                bytes.len() as u32
            };
            (Value::Ref { cid, len }, Some((cid, bytes)))
        }
    }
}

/// Why bytes are not a node.
#[derive(Clone, Copy, Debug, PartialEq, Eq, Structural)]
pub enum NodeError {
    TooShort,
    TooLarge,
    BadMagic,
    BadFlags,
    /// Parity on a leaf that refers to nothing, an empty branch, or a prefix with
    /// no entry to share it.
    BadShape,
    OffsetOutOfRange,
    /// Entries do not tile the entry region exactly.
    BadTiling,
    BadEntry,
    KeyTooLong,
    KeysNotSorted,
    BadKeyPrefix,
    /// The stored prefix is not the longest one the keys share.
    NonCanonicalPrefix,
    AggMismatch,
    Overflow,
    TrailingBytes,
}

/// Why an entry or a node cannot be built.
#[derive(Clone, Copy, Debug, PartialEq, Eq)]
pub enum BuildError {
    /// Keys must be pushed in strictly increasing order.
    NotSorted,
    KeyTooLong,
    ValueTooLong,
    TooManyEntries,
    NodeTooLarge,
    /// A value was pushed to a branch, or a child to a leaf, or parity to a leaf
    /// that refers to nothing, or a short value by reference.
    WrongKind,
    Overflow,
    /// The bytes of a parity member are not to hand.
    MissingMember(Cid),
}

// ---------------------------------------------------------------------------
// the model
// ---------------------------------------------------------------------------

/// First four bytes as a big-endian number, zero-padded.
pub open spec fn spec_key4(key: Seq<u8>) -> int {
    16777216 * seqs::byte_of(key, 0) + 65536 * seqs::byte_of(key, 1) + 256 * seqs::byte_of(key, 2)
        + seqs::byte_of(key, 3)
}

/// Is a node at `child` what a node at `parent` may name? One level below, and no
/// arithmetic that can wrap.
pub open spec fn spec_one_level_below(parent: u8, child: u8) -> bool {
    parent == child + 1
}

/// Bytes of an entry before its suffix.
pub open spec fn fixed(level: u8) -> int {
    if level == 0 {
        7
    } else {
        50
    }
}

/// What an entry stores after its suffix.
pub open spec fn stored(h: Payload) -> Seq<u8> {
    match h {
        Payload::Inline(b) => b,
        Payload::Ref { cid, .. } => cid,
        Payload::Child { .. } => Seq::empty(),
    }
}

/// The suffix of a key past the shared prefix.
pub open spec fn suffix_of(key: Seq<u8>, plen: int) -> Seq<u8> {
    key.subrange(plen, key.len() as int)
}

/// The encoded entry.
pub open spec fn row_bytes(row: Row, plen: int) -> Seq<u8> {
    let s = suffix_of(row.key, plen);
    match row.held {
        Payload::Inline(b) => seqs::to_le16(s.len() as int) + seq![0u8] + seqs::to_le32(b.len() as int)
            + s + b,
        Payload::Ref { cid, len } => seqs::to_le16(s.len() as int) + seq![1u8] + seqs::to_le32(
            len as int,
        ) + s + cid,
        Payload::Child { cid, agg } => seqs::to_le16(s.len() as int) + cid + seqs::to_le64(
            agg.count as int,
        ) + seqs::to_le64(agg.bytes as int) + s,
    }
}

/// The encoded length of an entry.
pub open spec fn row_len(level: u8, row: Row, plen: int) -> int {
    fixed(level) + (row.key.len() - plen) + stored(row.held).len()
}

/// What an entry adds to the aggregate: how many entries.
pub open spec fn row_count(row: Row) -> int {
    match row.held {
        Payload::Child { agg, .. } => agg.count as int,
        _ => 1,
    }
}

/// What an entry adds to the aggregate: how many bytes.
pub open spec fn row_weight(row: Row) -> int {
    match row.held {
        Payload::Child { agg, .. } => agg.bytes as int,
        _ => row.key.len() + value_len(row.held),
    }
}

/// How many entries the rows stand for.
pub open spec fn sum_count(rows: Seq<Row>) -> int
    decreases rows.len(),
{
    if rows.len() == 0 {
        0
    } else {
        sum_count(rows.drop_last()) + row_count(rows.last())
    }
}

/// How many logical bytes the rows stand for.
pub open spec fn sum_weight(rows: Seq<Row>) -> int
    decreases rows.len(),
{
    if rows.len() == 0 {
        0
    } else {
        sum_weight(rows.drop_last()) + row_weight(rows.last())
    }
}

/// How many leading bytes every key shares. A lone key is all prefix.
pub open spec fn prefix_len(rows: Seq<Row>) -> int
    decreases rows.len(),
{
    if rows.len() == 0 {
        0
    } else if rows.len() == 1 {
        rows[0].key.len() as int
    } else {
        let p = prefix_len(rows.drop_last());
        let q = order::shared_len(rows[0].key, rows.last().key, 0);
        if q < p {
            q
        } else {
            p
        }
    }
}

/// Does a leaf refer to any value outside it?
pub open spec fn has_ref(rows: Seq<Row>) -> bool {
    exists|i: int| 0 <= i < rows.len() && (#[trigger] rows[i]).held is Ref
}

/// What an entry costs the boundary measure: its encoding with the key in full.
pub open spec fn row_cost(row: Row) -> int {
    match row.held {
        Payload::Inline(b) => 13int + row.key.len() + b.len(),
        Payload::Ref { .. } => 13int + row.key.len() + 32,
        Payload::Child { .. } => 56int + row.key.len(),
    }
}

/// The boundary measure of a node's rows.
pub open spec fn logical(rows: Seq<Row>) -> int
    decreases rows.len(),
{
    if rows.len() == 0 {
        HEADER as int
    } else {
        logical(rows.drop_last()) + row_cost(rows.last())
    }
}

/// The encoded length of a node: its measure, less the prefix every key but one
/// does not store, plus its parity.
pub open spec fn encoded(n: NodeView) -> int {
    logical(n.rows) - (if n.rows.len() == 0 {
        0
    } else {
        (n.rows.len() - 1) * prefix_len(n.rows)
    }) + 32 * n.parity.len()
}

/// The row is of the kind its level holds.
pub open spec fn row_fits(level: u8, row: Row) -> bool {
    &&& row.key.len() <= MAX_KEY
    &&& match row.held {
        Payload::Inline(b) => level == 0 && b.len() <= u32::MAX,
        Payload::Ref { cid, .. } => level == 0 && cid.len() == 32,
        Payload::Child { cid, .. } => level > 0 && cid.len() == 32,
    }
}

/// Keys strictly increase.
pub open spec fn sorted_rows(rows: Seq<Row>) -> bool {
    forall|i: int, j: int|
        0 <= i < j < rows.len() ==> order::lt((#[trigger] rows[i]).key, (#[trigger] rows[j]).key)
}

impl NodeView {
    /// A node that has an encoding, but that a branch may still be empty.
    pub open spec fn fits(self) -> bool {
        &&& forall|i: int| 0 <= i < self.rows.len() ==> row_fits(self.level, #[trigger] self.rows[i])
        &&& sorted_rows(self.rows)
        &&& forall|i: int| 0 <= i < self.parity.len() ==> (#[trigger] self.parity[i]).len() == 32
        &&& self.level == 0 && self.parity.len() > 0 ==> has_ref(self.rows)
        &&& sum_count(self.rows) <= u64::MAX
        &&& sum_weight(self.rows) <= u64::MAX
        &&& encoded(self) <= MAX_NODE
    }

    /// A node that has an encoding.
    pub open spec fn valid(self) -> bool {
        &&& self.fits()
        &&& self.level > 0 ==> self.rows.len() > 0
    }

    pub open spec fn agg(self) -> Agg {
        Agg { count: sum_count(self.rows) as u64, bytes: sum_weight(self.rows) as u64 }
    }
}

/// Every entry, encoded one after the other.
pub open spec fn rows_bytes(rows: Seq<Row>, plen: int) -> Seq<u8>
    decreases rows.len(),
{
    if rows.len() == 0 {
        Seq::empty()
    } else {
        rows_bytes(rows.drop_last(), plen) + row_bytes(rows.last(), plen)
    }
}

/// The offset table: where each of the first `n` entries starts.
pub open spec fn offs_bytes(rows: Seq<Row>, plen: int, base: int, n: nat) -> Seq<u8>
    decreases n,
{
    if n == 0 {
        Seq::empty()
    } else {
        offs_bytes(rows, plen, base, (n - 1) as nat) + seqs::to_le16(
            base + rows_bytes(rows.take(n - 1), plen).len(),
        )
    }
}

/// The suffix index: the first four suffix bytes of each of the first `n` entries.
pub open spec fn keys4_bytes(rows: Seq<Row>, plen: int, n: nat) -> Seq<u8>
    decreases n,
{
    if n == 0 {
        Seq::empty()
    } else {
        keys4_bytes(rows, plen, (n - 1) as nat) + seqs::to_be32(
            spec_key4(suffix_of(rows[n - 1].key, plen)),
        )
    }
}

/// The first `n` ids, one after the other.
pub open spec fn cids_bytes(cids: Seq<Seq<u8>>, n: nat) -> Seq<u8>
    decreases n,
{
    if n == 0 {
        Seq::empty()
    } else {
        cids_bytes(cids, (n - 1) as nat) + cids[n - 1]
    }
}

/// The header of a node.
pub open spec fn header_bytes(n: NodeView) -> Seq<u8> {
    seq![0x50u8, 0x54, 0x30, 0x31] + seq![n.level, 0u8] + seqs::to_le16(n.rows.len() as int)
        + seqs::to_le64(sum_count(n.rows)) + seqs::to_le64(sum_weight(n.rows)) + seqs::to_le16(
        n.parity.len() as int,
    ) + seqs::to_le16(prefix_len(n.rows))
}

/// The shared prefix of a node's keys.
pub open spec fn prefix_bytes(rows: Seq<Row>) -> Seq<u8> {
    if rows.len() == 0 {
        Seq::empty()
    } else {
        rows[0].key.take(prefix_len(rows))
    }
}

/// The one encoding of a node.
pub open spec fn encode(n: NodeView) -> Seq<u8> {
    let p = prefix_len(n.rows);
    let base = HEADER + p + 6 * n.rows.len();
    header_bytes(n) + prefix_bytes(n.rows) + offs_bytes(n.rows, p, base, n.rows.len())
        + keys4_bytes(n.rows, p, n.rows.len()) + rows_bytes(n.rows, p) + cids_bytes(
        n.parity,
        n.parity.len(),
    )
}

// ---------------------------------------------------------------------------
// what parsing does
// ---------------------------------------------------------------------------

/// The fields of a header that decide where everything else is.
pub struct Layout {
    pub level: u8,
    pub count: int,
    pub pcount: int,
    pub plen: int,
    /// Where the entries start.
    pub start: int,
    /// Where the entries end and the parity starts.
    pub end: int,
}

/// Entries read so far, and where the next one must start.
#[verifier::ext_equal]
pub struct Progress {
    pub rows: Seq<Row>,
    pub at: int,
}

/// Read the header: what the node's layout is, or why it cannot be a node.
pub open spec fn layout_of(b: Seq<u8>) -> Result<Layout, NodeError> {
    if b.len() < HEADER {
        Err(NodeError::TooShort)
    } else if b.len() > MAX_NODE {
        Err(NodeError::TooLarge)
    } else if !(b[0] == 0x50 && b[1] == 0x54 && b[2] == 0x30 && b[3] == 0x31) {
        Err(NodeError::BadMagic)
    } else if b[5] != 0 {
        Err(NodeError::BadFlags)
    } else {
        let level = b[4];
        let count = seqs::le16(b, 6);
        let pcount = seqs::le16(b, 24);
        let plen = seqs::le16(b, 26);
        let start = HEADER + plen + 6 * count;
        if level > 0 && count == 0 {
            Err(NodeError::BadShape)
        } else if count == 0 && plen > 0 {
            Err(NodeError::BadShape)
        } else if level == 0 && pcount > 0 && start + 32 + 32 * pcount > b.len() {
            // A leaf with parity refers to a value, and a reference alone is 32 B.
            Err(NodeError::BadShape)
        } else if start + 32 * pcount > b.len() {
            Err(NodeError::TooShort)
        } else {
            Ok(Layout { level, count, pcount, plen, start, end: b.len() - 32 * pcount })
        }
    }
}

/// The entry that starts at `off`.
pub open spec fn row_at(b: Seq<u8>, l: Layout, off: int) -> Row {
    let slen = seqs::le16(b, off);
    let at = off + fixed(l.level);
    let key = b.subrange(HEADER as int, HEADER + l.plen) + b.subrange(at, at + slen);
    let held = if l.level > 0 {
        Payload::Child {
            cid: b.subrange(off + 2, off + 34),
            agg: Agg {
                count: seqs::le64(b, off + 34) as u64,
                bytes: seqs::le64(b, off + 42) as u64,
            },
        }
    } else if b[off + 2] == 0 {
        Payload::Inline(b.subrange(at + slen, at + slen + seqs::le32(b, off + 3)))
    } else {
        Payload::Ref {
            cid: b.subrange(at + slen, at + slen + 32),
            len: seqs::le32(b, off + 3) as u32,
        }
    };
    Row { key, held }
}

/// Where the entry that starts at `off` ends.
pub open spec fn row_end(b: Seq<u8>, l: Layout, off: int) -> int {
    let slen = seqs::le16(b, off);
    off + fixed(l.level) + slen + (if l.level > 0 {
        0
    } else if b[off + 2] == 0 {
        seqs::le32(b, off + 3)
    } else {
        32
    })
}

/// Read entry `i`, after the ones before it.
pub open spec fn read_row(b: Seq<u8>, l: Layout, i: int, done: Progress) -> Result<
    Progress,
    NodeError,
> {
    let off = seqs::le16(b, HEADER + l.plen + 2 * i);
    if off != done.at {
        if off < l.start || off >= l.end {
            Err(NodeError::OffsetOutOfRange)
        } else {
            Err(NodeError::BadTiling)
        }
    } else if off + fixed(l.level) > l.end {
        Err(NodeError::BadEntry)
    } else if l.level == 0 && b[off + 2] > 1 {
        Err(NodeError::BadEntry)
    } else if row_end(b, l, off) > l.end {
        Err(NodeError::BadEntry)
    } else if l.plen + seqs::le16(b, off) > MAX_KEY {
        Err(NodeError::KeyTooLong)
    } else {
        let row = row_at(b, l, off);
        let rows = done.rows.push(row);
        if done.rows.len() > 0 && !order::lt(done.rows.last().key, row.key) {
            Err(NodeError::KeysNotSorted)
        } else if seqs::be32(b, HEADER + l.plen + 2 * l.count + 4 * i) != spec_key4(
            suffix_of(row.key, l.plen),
        ) {
            Err(NodeError::BadKeyPrefix)
        } else if sum_count(rows) > u64::MAX || sum_weight(rows) > u64::MAX {
            Err(NodeError::Overflow)
        } else {
            Ok(Progress { rows, at: row_end(b, l, off) })
        }
    }
}

/// Read the first `n` entries.
pub open spec fn read_rows(b: Seq<u8>, l: Layout, n: nat) -> Result<Progress, NodeError>
    decreases n,
{
    if n == 0 {
        Ok(Progress { rows: Seq::empty(), at: l.start })
    } else {
        match read_rows(b, l, (n - 1) as nat) {
            Err(e) => Err(e),
            Ok(done) => read_row(b, l, n - 1, done),
        }
    }
}

/// The parity ids of a node.
pub open spec fn parity_of(b: Seq<u8>, l: Layout) -> Seq<Seq<u8>> {
    Seq::new(l.pcount as nat, |i: int| b.subrange(l.end + 32 * i, l.end + 32 * i + 32))
}

/// What [`Node::parse`] makes of some bytes: the node they encode, or the first
/// thing that is wrong with them.
pub open spec fn parse_spec(b: Seq<u8>) -> Result<NodeView, NodeError> {
    match layout_of(b) {
        Err(e) => Err(e),
        Ok(l) => match read_rows(b, l, l.count as nat) {
            Err(e) => Err(e),
            Ok(done) => {
                if done.at != l.end {
                    Err(NodeError::TrailingBytes)
                } else if l.level == 0 && l.pcount > 0 && !has_ref(done.rows) {
                    Err(NodeError::BadShape)
                } else if prefix_len(done.rows) != l.plen {
                    Err(NodeError::NonCanonicalPrefix)
                } else if sum_count(done.rows) != seqs::le64(b, 8) || sum_weight(done.rows)
                    != seqs::le64(b, 16) {
                    Err(NodeError::AggMismatch)
                } else {
                    Ok(NodeView { level: l.level, rows: done.rows, parity: parity_of(b, l) })
                }
            },
        },
    }
}

// ---------------------------------------------------------------------------
// facts about the model
// ---------------------------------------------------------------------------

pub proof fn lemma_read_rows_err(b: Seq<u8>, l: Layout, n: nat, m: nat)
    requires
        n <= m,
        read_rows(b, l, n) is Err,
    ensures
        read_rows(b, l, m) == read_rows(b, l, n),
    decreases m - n,
{
    if n < m {
        lemma_read_rows_err(b, l, n, (m - 1) as nat);
    }
}

/// What is known of entries that have been read.
pub proof fn lemma_read_rows(b: Seq<u8>, l: Layout, n: nat)
    requires
        layout_of(b) == Ok::<Layout, NodeError>(l),
        n <= l.count,
        read_rows(b, l, n) is Ok,
    ensures
        ({
            let done = read_rows(b, l, n)->Ok_0;
            &&& done.rows.len() == n
            &&& l.start <= done.at <= l.end
            &&& sorted_rows(done.rows)
            &&& sum_count(done.rows) <= u64::MAX
            &&& sum_weight(done.rows) <= u64::MAX
            &&& forall|i: int|
                0 <= i < n ==> {
                    let off = seqs::le16(b, HEADER + l.plen + 2 * i);
                    &&& (#[trigger] done.rows[i]) == row_at(b, l, off)
                    &&& row_fits(l.level, done.rows[i])
                    &&& l.start <= off
                    &&& off + fixed(l.level) <= row_end(b, l, off) <= done.at
                    &&& l.level == 0 ==> b[off + 2] <= 1
                    &&& seqs::be32(b, HEADER + l.plen + 2 * l.count + 4 * i) == spec_key4(
                        suffix_of(done.rows[i].key, l.plen),
                    )
                    &&& done.rows[i].key.len() == l.plen + seqs::le16(b, off)
                }
        }),
    decreases n,
{
    if n > 0 {
        let m = (n - 1) as nat;
        lemma_read_rows(b, l, m);
        let before = read_rows(b, l, m)->Ok_0;
        let done = read_rows(b, l, n)->Ok_0;
        let off = before.at;
        let row = row_at(b, l, off);
        assert(done.rows == before.rows.push(row));
        let slen = seqs::le16(b, off);
        assert(row.key.len() == l.plen + slen);
        assert(row_fits(l.level, row));
        assert forall|i: int, j: int| 0 <= i < j < done.rows.len() implies order::lt(
            (#[trigger] done.rows[i]).key,
            (#[trigger] done.rows[j]).key,
        ) by {
            if j == n - 1 {
                if i < n - 2 {
                    assert(order::lt(before.rows[i].key, before.rows[n - 2].key));
                    order::lemma_lt_trans(before.rows[i].key, before.rows[n - 2].key, row.key);
                }
            } else {
                assert(order::lt(before.rows[i].key, before.rows[j].key));
            }
        }
        assert forall|i: int| 0 <= i < n implies {
            let o = seqs::le16(b, HEADER + l.plen + 2 * i);
            &&& (#[trigger] done.rows[i]) == row_at(b, l, o)
            &&& row_fits(l.level, done.rows[i])
            &&& l.start <= o
            &&& o + fixed(l.level) <= row_end(b, l, o) <= done.at
            &&& l.level == 0 ==> b[o + 2] <= 1
            &&& seqs::be32(b, HEADER + l.plen + 2 * l.count + 4 * i) == spec_key4(
                suffix_of(done.rows[i].key, l.plen),
            )
            &&& done.rows[i].key.len() == l.plen + seqs::le16(b, o)
        } by {
            if i < n - 1 {
                assert(done.rows[i] == before.rows[i]);
            }
        }
    }
}

/// Between sorted strings, what the ends share the middle shares too.
pub proof fn lemma_shared_between(a: Seq<u8>, b: Seq<u8>, c: Seq<u8>)
    requires
        order::lt(a, b),
        order::lt(b, c),
    ensures
        order::shared_len(a, c, 0) <= order::shared_len(a, b, 0),
{
    order::lemma_shared_len(a, c, 0);
    order::lemma_shared_len(a, b, 0);
    let n = order::shared_len(a, c, 0);
    let m = order::shared_len(a, b, 0);
    if m < n {
        order::lemma_lt_at(a, b, m);
        order::lemma_lt_at(b, a, m);
        order::lemma_lt_total(a, b);
        assert(forall|j: int| 0 <= j < m ==> b[j] == c[j]);
        order::lemma_lt_at(b, c, m);
        order::lemma_lt_at(c, b, m);
        order::lemma_lt_total(b, c);
    }
}

/// Of sorted rows, the first and the last decide the shared prefix.
pub proof fn lemma_prefix_len(rows: Seq<Row>)
    requires
        sorted_rows(rows),
        rows.len() >= 2,
    ensures
        prefix_len(rows) == order::shared_len(rows[0].key, rows.last().key, 0),
    decreases rows.len(),
{
    let n = rows.len();
    order::lemma_shared_len(rows[0].key, rows.last().key, 0);
    if n > 2 {
        let rest = rows.drop_last();
        assert(sorted_rows(rest)) by {
            assert forall|i: int, j: int| 0 <= i < j < rest.len() implies order::lt(
                (#[trigger] rest[i]).key,
                (#[trigger] rest[j]).key,
            ) by {
                assert(rest[i] == rows[i] && rest[j] == rows[j]);
            }
        }
        lemma_prefix_len(rest);
        assert(rest[0] == rows[0] && rest.last() == rows[n - 2]);
        assert(order::lt(rows[0].key, rows[n - 2].key));
        assert(order::lt(rows[n - 2].key, rows[n - 1].key));
        lemma_shared_between(rows[0].key, rows[n - 2].key, rows[n - 1].key);
    } else {
        let one = rows.drop_last();
        assert(one.len() == 1);
        assert(one[0] == rows[0]);
        assert(prefix_len(one) == rows[0].key.len());
    }
}

/// The shared prefix is one: every key has it.
pub proof fn lemma_prefix_shared(rows: Seq<Row>, i: int)
    requires
        0 <= i < rows.len(),
    ensures
        0 <= prefix_len(rows) <= rows[i].key.len(),
        prefix_len(rows) <= rows[0].key.len(),
        rows[i].key.take(prefix_len(rows)) == rows[0].key.take(prefix_len(rows)),
    decreases rows.len(),
{
    let p = prefix_len(rows);
    if rows.len() > 1 {
        let rest = rows.drop_last();
        let last = rows.last().key;
        order::lemma_shared_len(rows[0].key, last, 0);
        let q = order::shared_len(rows[0].key, last, 0);
        lemma_prefix_shared(rest, 0);
        assert(rest[0] == rows[0]);
        if i < rows.len() - 1 {
            lemma_prefix_shared(rest, i);
            assert(rest[i] == rows[i]);
            let r = prefix_len(rest);
            assert(rows[i].key.take(p) =~= rows[i].key.take(r).take(p));
            assert(rows[0].key.take(p) =~= rows[0].key.take(r).take(p));
        } else {
            assert(last.take(p) =~= last.take(q).take(p));
            assert(rows[0].key.take(p) =~= rows[0].key.take(q).take(p));
        }
    }
}

/// The order of the index agrees with the order of what it indexes.
pub proof fn lemma_key4_order(a: Seq<u8>, b: Seq<u8>)
    ensures
        spec_key4(a) < spec_key4(b) ==> order::lt(a, b),
        0 <= spec_key4(a) < 4294967296,
{
    if spec_key4(a) < spec_key4(b) {
        let a0 = seqs::byte_of(a, 0);
        let a1 = seqs::byte_of(a, 1);
        let a2 = seqs::byte_of(a, 2);
        let a3 = seqs::byte_of(a, 3);
        let b0 = seqs::byte_of(b, 0);
        let b1 = seqs::byte_of(b, 1);
        let b2 = seqs::byte_of(b, 2);
        let b3 = seqs::byte_of(b, 3);
        order::lemma_lt_total(a, b);
        if a0 != b0 {
            assert(a0 < b0);
            if a.len() == 0 {
                order::lemma_lt_at(a, b, 0);
            } else {
                order::lemma_lt_at(a, b, 0);
            }
        } else if a1 != b1 {
            assert(a1 < b1);
            lemma_key4_tie(a, b, 1);
        } else if a2 != b2 {
            assert(a2 < b2);
            lemma_key4_tie(a, b, 2);
        } else {
            assert(a3 < b3);
            lemma_key4_tie(a, b, 3);
        }
    }
}

/// Padded strings that agree up to `n`, where the second has a larger byte.
proof fn lemma_key4_tie(a: Seq<u8>, b: Seq<u8>, n: int)
    requires
        0 <= n < 4,
        forall|i: int| 0 <= i < n ==> #[trigger] seqs::byte_of(a, i) == seqs::byte_of(b, i),
        seqs::byte_of(a, n) < seqs::byte_of(b, n),
    ensures
        order::lt(a, b),
{
    assert(n < b.len());
    let m = if a.len() < n {
        a.len() as int
    } else {
        n
    };
    assert forall|j: int| 0 <= j < m implies a[j] == b[j] by {
        assert(seqs::byte_of(a, j) == seqs::byte_of(b, j));
    }
    order::lemma_lt_at(a, b, m);
}

// ---------------------------------------------------------------------------
// reading
// ---------------------------------------------------------------------------

/// First four key bytes as a big-endian integer, zero-padded.
pub fn key4(key: &[u8]) -> (x: u32)
    ensures
        x == spec_key4(key@),
{
    let n = key.len();
    let a: u32 = if n > 0 {
        key[0] as u32
    } else {
        0
    };
    let b: u32 = if n > 1 {
        key[1] as u32
    } else {
        0
    };
    let c: u32 = if n > 2 {
        key[2] as u32
    } else {
        0
    };
    let d: u32 = if n > 3 {
        key[3] as u32
    } else {
        0
    };
    16777216 * a + 65536 * b + 256 * c + d
}

/// May a node at level `parent` name a child at level `child`? No arithmetic on a
/// stranger's number that could wrap.
pub fn one_level_below(parent: u8, child: u8) -> (r: bool)
    ensures
        r == spec_one_level_below(parent, child),
{
    parent > 0 && parent - 1 == child
}

/// The id at `i`.
fn cid_at(b: &[u8], i: usize) -> (c: Cid)
    requires
        i + 32 <= b@.len(),
    ensures
        c@ == b@.subrange(i as int, i + 32),
{
    let mut c: Cid = [0u8;32];
    let mut j: usize = 0;
    let n = b.len();
    while j < 32
        invariant
            j <= 32,
            i + 32 <= n,
            n == b@.len(),
            forall|k: int| 0 <= k < j ==> #[trigger] c@[k] == b@[i + k],
        decreases 32 - j,
    {
        c[j] = b[i + j];
        j += 1;
    }
    assert(c@ =~= b@.subrange(i as int, i + 32));
    c
}

/// One entry as a parse reads it.
struct ReadEntry<'a> {
    suffix: &'a [u8],
    is_ref: bool,
    fold: Agg,
    stop: usize,
}

/// Read entry `i` of a node, after the ones before it, and check everything about
/// it that the entries before it do not decide on their own.
#[verifier::rlimit(40)]
fn read_entry<'a>(
    bytes: &'a [u8],
    level: u8,
    count: usize,
    plen: usize,
    start: usize,
    end: usize,
    at: usize,
    i: usize,
    prev: Option<&'a [u8]>,
    fold: Agg,
    Ghost(l): Ghost<Layout>,
) -> (r: Result<ReadEntry<'a>, NodeError>)
    requires
        layout_of(bytes@) == Ok::<Layout, NodeError>(l),
        level == l.level,
        count == l.count,
        plen == l.plen,
        start == l.start,
        end == l.end,
        i < count,
        read_rows(bytes@, l, i as nat) is Ok,
        read_rows(bytes@, l, i as nat)->Ok_0.at == at,
        fold.count == sum_count(read_rows(bytes@, l, i as nat)->Ok_0.rows),
        fold.bytes == sum_weight(read_rows(bytes@, l, i as nat)->Ok_0.rows),
        i == 0 ==> prev is None,
        i > 0 ==> prev is Some && prev->0@ == suffix_of(
            read_rows(bytes@, l, i as nat)->Ok_0.rows[i - 1].key,
            plen as int,
        ),
    ensures
        ({
            let done = read_rows(bytes@, l, i as nat)->Ok_0;
            let step = read_row(bytes@, l, i as int, done);
            match r {
                Err(e) => step == Err::<Progress, NodeError>(e),
                Ok(e) => {
                    &&& step is Ok
                    &&& step->Ok_0.rows.len() == i + 1
                    &&& step->Ok_0.rows.take(i as int) == done.rows
                    &&& step->Ok_0.at == e.stop
                    &&& start <= e.stop <= end
                    &&& e.is_ref == step->Ok_0.rows[i as int].held is Ref
                    &&& e.suffix@ == suffix_of(step->Ok_0.rows[i as int].key, plen as int)
                    &&& e.fold.count == sum_count(step->Ok_0.rows)
                    &&& e.fold.bytes == sum_weight(step->Ok_0.rows)
                },
            }
        }),
{
    let ghost b = bytes@;
    let ghost done = read_rows(b, l, i as nat)->Ok_0;
    let total = bytes.len();
    assert(done.rows.len() == i && l.start <= done.at <= l.end && (i > 0 ==> {
        let o = seqs::le16(b, HEADER + l.plen + 2 * (i - 1));
        done.rows[i - 1] == row_at(b, l, o) && done.rows[i - 1].key.len() == l.plen + seqs::le16(
            b,
            o,
        )
    })) by {
        lemma_read_rows(b, l, i as nat);
        if i > 0 {
            let o = seqs::le16(b, HEADER + l.plen + 2 * (i - 1));
            assert(done.rows[i - 1] == row_at(b, l, o));
        }
    }
    let off = seqs::u16_at(bytes, HEADER + plen + 2 * i);
    // Entries must tile: each starts exactly where the previous ended.
    if off != at {
        if off < start || off >= end {
            return Err(NodeError::OffsetOutOfRange);
        }
        return Err(NodeError::BadTiling);
    }
    let fix: usize = if level == 0 {
        LEAF_FIXED
    } else {
        BRANCH_FIXED
    };
    if off + fix > end {
        return Err(NodeError::BadEntry);
    }
    let slen = seqs::u16_at(bytes, off);
    let mut tail: u64 = 0;
    let mut vlen: u32 = 0;
    let mut is_ref = false;
    if level == 0 {
        let vkind = bytes[off + 2];
        if vkind > 1 {
            return Err(NodeError::BadEntry);
        }
        is_ref = vkind == 1;
        vlen = seqs::u32_at(bytes, off + 3);
        tail = if vkind == 0 {
            vlen as u64
        } else {
            32
        };
    }
    let suffix_at = off + fix;
    let stop: u64 = suffix_at as u64 + slen as u64 + tail;
    assert(stop == row_end(b, l, off as int));
    if stop > end as u64 {
        return Err(NodeError::BadEntry);
    }
    if plen + slen > MAX_KEY {
        return Err(NodeError::KeyTooLong);
    }
    let suffix = vstd::slice::slice_subrange(bytes, suffix_at, suffix_at + slen);
    let ghost row = row_at(b, l, off as int);
    let ghost rows = done.rows.push(row);
    let ghost p = b.subrange(HEADER as int, HEADER + plen);
    proof {
        assert(row.key == p + suffix@);
        assert(suffix_of(row.key, plen as int) =~= suffix@);
        assert(rows.drop_last() =~= done.rows);
        assert(rows.take(i as int) =~= done.rows);
        assert(rows.last() == row);
        assert(is_ref == (row.held is Ref));
    }
    if let Some(last) = prev {
        proof {
            let before = done.rows[i - 1];
            let o = seqs::le16(b, HEADER + l.plen + 2 * (i - 1));
            assert(before == row_at(b, l, o));
            assert(before.key =~= p + last@);
            order::lemma_lt_prefix(p, last@, suffix@);
            assert(done.rows.last() == before);
        }
        if !order::before(last, suffix) {
            return Err(NodeError::KeysNotSorted);
        }
    }
    if seqs::u32_at_be(bytes, HEADER + plen + 2 * count + 4 * i) != key4(suffix) {
        return Err(NodeError::BadKeyPrefix);
    }
    let entry_agg = if level == 0 {
        Agg { count: 1, bytes: (plen + slen) as u64 + vlen as u64 }
    } else {
        Agg { count: seqs::u64_at(bytes, off + 34), bytes: seqs::u64_at(bytes, off + 42) }
    };
    assert(entry_agg.count == row_count(row));
    assert(entry_agg.bytes == row_weight(row));
    match fold.checked_add(entry_agg) {
        None => Err(NodeError::Overflow),
        Some(sum) => Ok(ReadEntry { suffix, is_ref, fold: sum, stop: stop as usize }),
    }
}

/// A validated, borrowed view of an encoded node.
#[derive(Clone, Copy, Debug)]
pub struct Node<'a> {
    bytes: &'a [u8],
    level: u8,
    count: usize,
    pcount: usize,
    plen: usize,
    agg: Agg,
}

impl<'a> View for Node<'a> {
    type V = NodeView;

    closed spec fn view(&self) -> NodeView {
        parse_spec(self.bytes@)->Ok_0
    }
}

impl<'a> Node<'a> {
    /// The bytes this node was read from.
    pub closed spec fn raw(&self) -> Seq<u8> {
        self.bytes@
    }

    #[verifier::type_invariant]
    spec fn wf(self) -> bool {
        &&& parse_spec(self.bytes@) is Ok
        &&& layout_of(self.bytes@) is Ok
        &&& self.level == layout_of(self.bytes@)->Ok_0.level
        &&& self.count == layout_of(self.bytes@)->Ok_0.count
        &&& self.pcount == layout_of(self.bytes@)->Ok_0.pcount
        &&& self.plen == layout_of(self.bytes@)->Ok_0.plen
        &&& self.agg.count == seqs::le64(self.bytes@, 8)
        &&& self.agg.bytes == seqs::le64(self.bytes@, 16)
    }

    /// Validate `bytes` completely.
    pub fn parse(bytes: &'a [u8]) -> (r: Result<Self, NodeError>)
        ensures
            match r {
                Ok(n) => parse_spec(bytes@) == Ok::<NodeView, NodeError>(n@) && n.raw() == bytes@,
                Err(e) => parse_spec(bytes@) == Err::<NodeView, NodeError>(e),
            },
    {
        let total = bytes.len();
        if total < HEADER {
            return Err(NodeError::TooShort);
        }
        if total > MAX_NODE {
            return Err(NodeError::TooLarge);
        }
        if !(bytes[0] == 0x50 && bytes[1] == 0x54 && bytes[2] == 0x30 && bytes[3] == 0x31) {
            return Err(NodeError::BadMagic);
        }
        if bytes[5] != 0 {
            return Err(NodeError::BadFlags);
        }
        let level = bytes[4];
        let count = seqs::u16_at(bytes, 6);
        let agg = Agg { count: seqs::u64_at(bytes, 8), bytes: seqs::u64_at(bytes, 16) };
        let pcount = seqs::u16_at(bytes, 24);
        let plen = seqs::u16_at(bytes, 26);
        // A branch with no children is meaningless; an empty leaf is the empty tree.
        if level > 0 && count == 0 {
            return Err(NodeError::BadShape);
        }
        if count == 0 && plen > 0 {
            return Err(NodeError::BadShape);
        }
        let start = HEADER + plen + 6 * count;
        let parity_len = 32 * pcount;
        if level == 0 && pcount > 0 && start + 32 + parity_len > total {
            return Err(NodeError::BadShape);
        }
        if start + parity_len > total {
            return Err(NodeError::TooShort);
        }
        let end = total - parity_len;
        let ghost l = layout_of(bytes@)->Ok_0;
        let ghost b = bytes@;
        assert(layout_of(b) == Ok::<Layout, NodeError>(l));

        let mut at = start;
        let mut fold = Agg { count: 0, bytes: 0 };
        let mut refs = false;
        let mut i: usize = 0;
        let mut first: &[u8] = bytes;
        let mut last: &[u8] = bytes;
        while i < count
            invariant
                i <= count,
                b == bytes@,
                layout_of(b) == Ok::<Layout, NodeError>(l),
                total == b.len(),
                HEADER <= total <= MAX_NODE,
                level == l.level,
                count == l.count,
                pcount == l.pcount,
                plen == l.plen,
                start == l.start,
                end == l.end,
                start == HEADER + plen + 6 * count,
                start <= end <= total,
                read_rows(b, l, i as nat) is Ok,
                read_rows(b, l, i as nat)->Ok_0.at == at,
                read_rows(b, l, i as nat)->Ok_0.rows.len() == i,
                start <= at <= end,
                fold.count == sum_count(read_rows(b, l, i as nat)->Ok_0.rows),
                fold.bytes == sum_weight(read_rows(b, l, i as nat)->Ok_0.rows),
                refs == has_ref(read_rows(b, l, i as nat)->Ok_0.rows),
                i > 0 ==> first@ == suffix_of(
                    read_rows(b, l, i as nat)->Ok_0.rows[0].key,
                    plen as int,
                ),
                i > 0 ==> last@ == suffix_of(
                    read_rows(b, l, i as nat)->Ok_0.rows[i - 1].key,
                    plen as int,
                ),
            decreases count - i,
        {
            let ghost done = read_rows(b, l, i as nat)->Ok_0;
            proof {
                assert(read_rows(b, l, (i + 1) as nat) == read_row(b, l, i as int, done));
                if read_rows(b, l, (i + 1) as nat) is Err {
                    lemma_read_rows_err(b, l, (i + 1) as nat, count as nat);
                }
            }
            let prev = if i > 0 {
                Some(last)
            } else {
                None
            };
            match read_entry(bytes, level, count, plen, start, end, at, i, prev, fold, Ghost(l)) {
                Err(e) => {
                    return Err(e);
                },
                Ok(r) => {
                    proof {
                        let rows = read_rows(b, l, (i + 1) as nat)->Ok_0.rows;
                        assert(rows.drop_last() =~= done.rows);
                        if refs {
                            let j = choose|j: int|
                                0 <= j < done.rows.len() && (#[trigger] done.rows[j]).held is Ref;
                            assert(rows[j].held is Ref);
                        }
                        if r.is_ref {
                            assert(rows[i as int].held is Ref);
                        }
                        if has_ref(rows) && !r.is_ref {
                            let j = choose|j: int|
                                0 <= j < rows.len() && (#[trigger] rows[j]).held is Ref;
                            assert(done.rows[j].held is Ref);
                        }
                    }
                    refs = refs || r.is_ref;
                    fold = r.fold;
                    if i == 0 {
                        first = r.suffix;
                    }
                    last = r.suffix;
                    at = r.stop;
                },
            }
            i += 1;
        }
        let ghost done = read_rows(b, l, count as nat)->Ok_0;
        proof {
            lemma_read_rows(b, l, count as nat);
        }
        if at != end {
            return Err(NodeError::TrailingBytes);
        }
        if level == 0 && pcount > 0 && !refs {
            return Err(NodeError::BadShape);
        }
        // The prefix must be the whole of what the keys share.
        let rest: usize = if count == 0 {
            0
        } else if count == 1 {
            last.len()
        } else {
            order::shared(first, last)
        };
        proof {
            lemma_rest_of_prefix(b, l, done, first@, last@, rest as int);
        }
        if rest != 0 {
            return Err(NodeError::NonCanonicalPrefix);
        }
        if fold.count != agg.count || fold.bytes != agg.bytes {
            return Err(NodeError::AggMismatch);
        }
        Ok(Node { bytes, level, count, pcount, plen, agg })
    }

    /// What every parsed node is.
    proof fn lemma_parsed(b: Seq<u8>)
        requires
            parse_spec(b) is Ok,
        ensures
            layout_of(b) is Ok,
            ({
                let l = layout_of(b)->Ok_0;
                let n = parse_spec(b)->Ok_0;
                &&& read_rows(b, l, l.count as nat) is Ok
                &&& n.rows == read_rows(b, l, l.count as nat)->Ok_0.rows
                &&& n.rows.len() == l.count
                &&& n.level == l.level
                &&& n.parity == parity_of(b, l)
                &&& n.agg().count == seqs::le64(b, 8)
                &&& n.agg().bytes == seqs::le64(b, 16)
                &&& l.plen == prefix_len(n.rows)
            }),
    {
        let l = layout_of(b)->Ok_0;
        lemma_read_rows(b, l, l.count as nat);
    }

    /// A parsed node is valid, and its bytes are its encoding. There is nothing to
    /// run: the call makes what parsing established known to a proof.
    pub(crate) fn known_valid(&self)
        ensures
            self@.valid(),
            self.raw() == encode(self@),
            self@.rows.len() < 65536,
            parse_spec(self.raw()) == Ok::<NodeView, NodeError>(self@),
    {
        proof {
            use_type_invariant(self);
            Self::lemma_parsed(self.bytes@);
            canon::law_parsed_bytes_are_the_encoding(self.bytes@);
        }
    }

    /// The node's level; 0 is a leaf.
    pub fn level(&self) -> (l: u8)
        ensures
            l == self@.level,
    {
        proof {
            use_type_invariant(self);
        }
        self.level
    }

    /// Is this a leaf?
    pub fn is_leaf(&self) -> (r: bool)
        ensures
            r == (self@.level == 0),
    {
        proof {
            use_type_invariant(self);
        }
        self.level == 0
    }

    /// How many entries the node has.
    pub fn len(&self) -> (n: usize)
        ensures
            n == self@.rows.len(),
    {
        proof {
            use_type_invariant(self);
            Self::lemma_parsed(self.bytes@);
        }
        self.count
    }

    /// Has the node no entries?
    pub fn is_empty(&self) -> (r: bool)
        ensures
            r == (self@.rows.len() == 0),
    {
        proof {
            use_type_invariant(self);
            Self::lemma_parsed(self.bytes@);
        }
        self.count == 0
    }

    /// What the node's subtree adds up to.
    pub fn agg(&self) -> (a: Agg)
        ensures
            a == self@.agg(),
    {
        proof {
            use_type_invariant(self);
            Self::lemma_parsed(self.bytes@);
        }
        self.agg
    }

    /// The encoded node.
    pub fn as_bytes(&self) -> (b: &'a [u8])
        ensures
            b@ == self.raw(),
            parse_spec(b@) == Ok::<NodeView, NodeError>(self@),
    {
        proof {
            use_type_invariant(self);
        }
        self.bytes
    }

    /// The prefix every key of this node shares.
    pub fn prefix(&self) -> (p: &'a [u8])
        ensures
            p@ == prefix_bytes(self@.rows),
    {
        proof {
            use_type_invariant(self);
            Self::lemma_parsed(self.bytes@);
            let b = self.bytes@;
            let l = layout_of(b)->Ok_0;
            lemma_read_rows(b, l, l.count as nat);
            if l.count > 0 {
                let o = seqs::le16(b, HEADER + l.plen + 2 * 0);
                let row = self@.rows[0];
                assert(row == row_at(b, l, o));
                assert(row.key.take(l.plen) =~= b.subrange(HEADER as int, HEADER + l.plen));
            } else {
                assert(b.subrange(HEADER as int, HEADER + l.plen) =~= Seq::<u8>::empty());
            }
        }
        vstd::slice::slice_subrange(self.bytes, HEADER, HEADER + self.plen)
    }

    /// Where entry `i` starts.
    fn off(&self, i: usize) -> (off: usize)
        requires
            i < self@.rows.len(),
        ensures
            ({
                let b = self.bytes@;
                let l = layout_of(b)->Ok_0;
                &&& layout_of(b) is Ok
                &&& off == seqs::le16(b, HEADER + l.plen + 2 * i)
                &&& self@.rows[i as int] == row_at(b, l, off as int)
                &&& self@.rows[i as int].key.len() == l.plen + seqs::le16(b, off as int)
                &&& off + fixed(l.level) <= row_end(b, l, off as int) <= b.len()
                &&& b.len() <= MAX_NODE
                &&& l.level == 0 ==> b[off + 2] <= 1
                &&& l.level == self@.level
                &&& l.plen == prefix_len(self@.rows)
                &&& self.level == l.level
                &&& self.plen == l.plen
            }),
    {
        proof {
            use_type_invariant(self);
            Self::lemma_parsed(self.bytes@);
            let b = self.bytes@;
            let l = layout_of(b)->Ok_0;
            lemma_read_rows(b, l, l.count as nat);
            assert(self@.rows[i as int] == read_rows(b, l, l.count as nat)->Ok_0.rows[i as int]);
        }
        seqs::u16_at(self.bytes, HEADER + self.plen + i * 2)
    }

    /// The part of key `i` past the shared prefix.
    pub fn suffix(&self, i: usize) -> (s: &'a [u8])
        requires
            i < self@.rows.len(),
        ensures
            s@ == suffix_of(self@.rows[i as int].key, prefix_len(self@.rows)),
            prefix_bytes(self@.rows) + s@ == self@.rows[i as int].key,
    {
        let off = self.off(i);
        let slen = seqs::u16_at(self.bytes, off);
        let at = off + if self.level == 0 {
            LEAF_FIXED
        } else {
            BRANCH_FIXED
        };
        let s = vstd::slice::slice_subrange(self.bytes, at, at + slen);
        proof {
            let k = self@.rows[i as int].key;
            let p = prefix_len(self@.rows);
            assert(s@ =~= suffix_of(k, p));
            lemma_prefix_shared(self@.rows, i as int);
            assert(k =~= k.take(p) + suffix_of(k, p));
        }
        s
    }

    /// The key of entry `i`.
    pub fn key(&self, i: usize) -> (k: Vec<u8>)
        requires
            i < self@.rows.len(),
        ensures
            k@ == self@.rows[i as int].key,
    {
        let mut k: Vec<u8> = Vec::new();
        k.extend_from_slice(self.prefix());
        k.extend_from_slice(self.suffix(i));
        assert(k@ =~= self@.rows[i as int].key);
        k
    }

    /// Value of leaf entry `i`.
    pub fn value(&self, i: usize) -> (v: Value<'a>)
        requires
            self@.level == 0,
            i < self@.rows.len(),
        ensures
            v@ == self@.rows[i as int].held,
            stored(v@).len() <= MAX_NODE,
    {
        let off = self.off(i);
        let slen = seqs::u16_at(self.bytes, off);
        let vlen = seqs::u32_at(self.bytes, off + 3);
        let at = off + LEAF_FIXED + slen;
        if self.bytes[off + 2] == 0 {
            Value::Inline(vstd::slice::slice_subrange(self.bytes, at, at + vlen as usize))
        } else {
            Value::Ref { cid: cid_at(self.bytes, at), len: vlen }
        }
    }

    /// Child of branch entry `i`, and what this node records of it.
    pub fn child(&self, i: usize) -> (r: (Cid, Agg))
        requires
            self@.level > 0,
            i < self@.rows.len(),
        ensures
            (Payload::Child { cid: r.0@, agg: r.1 }) == self@.rows[i as int].held,
    {
        let off = self.off(i);
        let count = seqs::u64_at(self.bytes, off + 34);
        let bytes = seqs::u64_at(self.bytes, off + 42);
        (cid_at(self.bytes, off + 2), Agg { count, bytes })
    }

    /// How many parity ids the node lists.
    pub fn parity_count(&self) -> (n: usize)
        ensures
            n == self@.parity.len(),
    {
        proof {
            use_type_invariant(self);
            Self::lemma_parsed(self.bytes@);
        }
        self.pcount
    }

    /// The parity ids the node lists.
    pub fn parity(&self) -> (ids: Vec<Cid>)
        ensures
            ids@.len() == self@.parity.len(),
            cids_of(ids@) == self@.parity,
            forall|i: int| 0 <= i < ids@.len() ==> (#[trigger] ids@[i])@ == self@.parity[i],
    {
        proof {
            use_type_invariant(self);
            Self::lemma_parsed(self.bytes@);
        }
        let start = self.bytes.len() - self.pcount * 32;
        let mut ids: Vec<Cid> = Vec::new();
        let mut i: usize = 0;
        while i < self.pcount
            invariant
                i <= self.pcount,
                self.pcount < 65536,
                layout_of(self.bytes@) is Ok,
                self.pcount == layout_of(self.bytes@)->Ok_0.pcount,
                self@.parity == parity_of(self.bytes@, layout_of(self.bytes@)->Ok_0),
                start == layout_of(self.bytes@)->Ok_0.end,
                ids@.len() == i,
                forall|j: int| 0 <= j < i ==> (#[trigger] ids@[j])@ == self@.parity[j],
            decreases self.pcount - i,
        {
            ids.push(cid_at(self.bytes, start + i * 32));
            i += 1;
        }
        ids
    }

    /// Binary search: `Ok(i)` if entry `i` has `key`, else `Err(i)` = insertion
    /// point. The prefix is compared once; after that the 4-byte suffix index is
    /// compared first, touching the suffix bytes only when it ties.
    pub fn search(&self, key: &[u8]) -> (r: Result<usize, usize>)
        ensures
            match r {
                Ok(i) => i < self@.rows.len() && self@.rows[i as int].key == key@,
                Err(i) => {
                    &&& i <= self@.rows.len()
                    &&& forall|j: int| 0 <= j < i ==> order::lt((#[trigger] self@.rows[j]).key, key@)
                    &&& forall|j: int|
                        i <= j < self@.rows.len() ==> order::lt(key@, (#[trigger] self@.rows[j]).key)
                },
            },
    {
        let n = self.len();
        let prefix = self.prefix();
        let ghost rows = self@.rows;
        let ghost plen = prefix_len(rows);
        let m = order::shared(prefix, key);
        proof {
            use_type_invariant(self);
            Self::lemma_parsed(self.bytes@);
            lemma_read_rows(
                self.bytes@,
                layout_of(self.bytes@)->Ok_0,
                layout_of(self.bytes@)->Ok_0.count as nat,
            );
            order::lemma_shared_len(prefix@, key@, 0);
            if n > 0 {
                lemma_prefix_shared(rows, 0);
            }
        }
        if m < prefix.len() {
            // The key leaves the prefix: every entry is on one side of it.
            let above = m == key.len() || key[m] < prefix[m];
            proof {
                assert forall|j: int| 0 <= j < rows.len() implies (if above {
                    order::lt(key@, (#[trigger] rows[j]).key)
                } else {
                    order::lt(rows[j].key, key@)
                }) by {
                    let k = rows[j].key;
                    lemma_prefix_shared(rows, j);
                    assert forall|x: int| 0 <= x < plen implies k[x] == prefix@[x] by {
                        assert(k.take(plen)[x] == rows[0].key.take(plen)[x]);
                    }
                    order::lemma_lt_at(key@, k, m as int);
                    order::lemma_lt_at(k, key@, m as int);
                }
            }
            if above {
                return Err(0);
            }
            return Err(n);
        }
        let rest = vstd::slice::slice_subrange(key, m, key.len());
        assert(key@ =~= prefix@ + rest@);
        let want = key4(rest);
        let mut lo: usize = 0;
        let mut hi: usize = n;
        while lo < hi
            invariant
                lo <= hi <= n,
                n == rows.len(),
                rows == self@.rows,
                plen == prefix_len(rows),
                key@ == prefix@ + rest@,
                prefix@ == prefix_bytes(rows),
                want == spec_key4(rest@),
                sorted_rows(rows),
                forall|j: int| 0 <= j < lo ==> order::lt((#[trigger] rows[j]).key, key@),
                forall|j: int| hi <= j < n ==> order::lt(key@, (#[trigger] rows[j]).key),
            decreases hi - lo,
        {
            let mid = lo + (hi - lo) / 2;
            let have = self.index4(mid);
            let s = self.suffix(mid);
            proof {
                lemma_key4_order(s@, rest@);
                lemma_key4_order(rest@, s@);
                order::lemma_lt_prefix(prefix@, s@, rest@);
                order::lemma_lt_prefix(prefix@, rest@, s@);
                assert(rows[mid as int].key == prefix@ + s@);
            }
            let side = if have < want {
                Side::Less
            } else if have > want {
                Side::Greater
            } else {
                order::side(s, rest)
            };
            match side {
                Side::Less => {
                    proof {
                        assert forall|j: int| 0 <= j < mid + 1 implies order::lt(
                            (#[trigger] rows[j]).key,
                            key@,
                        ) by {
                            if j < mid {
                                assert(order::lt(rows[j].key, rows[mid as int].key));
                                order::lemma_lt_trans(rows[j].key, rows[mid as int].key, key@);
                            }
                        }
                    }
                    lo = mid + 1;
                },
                Side::Greater => {
                    proof {
                        assert forall|j: int| mid <= j < n implies order::lt(
                            key@,
                            (#[trigger] rows[j]).key,
                        ) by {
                            if j > mid {
                                assert(order::lt(rows[mid as int].key, rows[j].key));
                                order::lemma_lt_trans(key@, rows[mid as int].key, rows[j].key);
                            }
                        }
                    }
                    hi = mid;
                },
                Side::Equal => {
                    return Ok(mid);
                },
            }
        }
        Err(lo)
    }

    /// Entry `i` of the suffix index.
    fn index4(&self, i: usize) -> (x: u32)
        requires
            i < self@.rows.len(),
        ensures
            x == spec_key4(suffix_of(self@.rows[i as int].key, prefix_len(self@.rows))),
    {
        proof {
            use_type_invariant(self);
            Self::lemma_parsed(self.bytes@);
            let b = self.bytes@;
            let l = layout_of(b)->Ok_0;
            lemma_read_rows(b, l, l.count as nat);
            assert(self@.rows[i as int] == read_rows(b, l, l.count as nat)->Ok_0.rows[i as int]);
        }
        seqs::u32_at_be(self.bytes, HEADER + self.plen + 2 * self.count + 4 * i)
    }
}

/// What the last check of a parse decides: the stored prefix is the whole of what
/// the keys share exactly when the first and last suffix share nothing.
proof fn lemma_rest_of_prefix(
    b: Seq<u8>,
    l: Layout,
    done: Progress,
    first: Seq<u8>,
    last: Seq<u8>,
    rest: int,
)
    requires
        layout_of(b) == Ok::<Layout, NodeError>(l),
        read_rows(b, l, l.count as nat) == Ok::<Progress, NodeError>(done),
        l.count > 0 ==> first == suffix_of(done.rows[0].key, l.plen),
        l.count > 0 ==> last == suffix_of(done.rows[l.count - 1].key, l.plen),
        rest == (if l.count == 0 {
            0
        } else if l.count == 1 {
            last.len() as int
        } else {
            order::shared_len(first, last, 0)
        }),
    ensures
        prefix_len(done.rows) == l.plen <==> rest == 0,
{
    lemma_read_rows(b, l, l.count as nat);
    let rows = done.rows;
    let p = b.subrange(HEADER as int, HEADER + l.plen);
    if l.count == 1 {
        assert(rows[0].key.len() == l.plen + last.len());
    } else if l.count > 1 {
        lemma_prefix_len(rows);
        let x = rows[0].key;
        let y = rows[l.count - 1].key;
        assert(x =~= p + first) by {
            assert(rows[0] == row_at(b, l, seqs::le16(b, HEADER + l.plen + 2 * 0)));
        }
        assert(y =~= p + last) by {
            assert(rows[l.count - 1] == row_at(
                b,
                l,
                seqs::le16(b, HEADER + l.plen + 2 * (l.count - 1)),
            ));
        }
        order::lemma_shared_len(first, last, 0);
        let n = l.plen + rest;
        assert forall|j: int| 0 <= j < n implies x[j] == y[j] by {
            if j >= l.plen {
                assert(first[j - l.plen] == last[j - l.plen]);
            }
        }
        order::lemma_shared_len_is(x, y, n);
    }
}

// ---------------------------------------------------------------------------
// building
// ---------------------------------------------------------------------------

/// The rows of a list of entries.
pub open spec fn rows_of(entries: Seq<Entry>) -> Seq<Row> {
    Seq::new(entries.len(), |i: int| entries[i]@)
}

/// The contents of a list of ids.
pub open spec fn cids_of(ids: Seq<Cid>) -> Seq<Seq<u8>> {
    Seq::new(ids.len(), |i: int| ids[i]@)
}

impl NodeView {
    /// This node with one more row.
    pub open spec fn with_row(self, row: Row) -> NodeView {
        NodeView { rows: self.rows.push(row), ..self }
    }

    /// This node with one more parity id.
    pub open spec fn with_parity(self, cid: Seq<u8>) -> NodeView {
        NodeView { parity: self.parity.push(cid), ..self }
    }
}

/// Why a node does not take a row, if it does not.
pub open spec fn push_error(n: NodeView, row: Row) -> Option<BuildError> {
    if (n.level == 0) == (row.held is Child) {
        Some(BuildError::WrongKind)
    } else if row.held matches Payload::Inline(b) && b.len() > u32::MAX {
        Some(BuildError::ValueTooLong)
    } else if encoded(n.with_row(row)) > MAX_NODE {
        Some(BuildError::NodeTooLarge)
    } else if row.key.len() > MAX_KEY {
        Some(BuildError::KeyTooLong)
    } else if n.rows.len() > 0 && !order::lt(n.rows.last().key, row.key) {
        Some(BuildError::NotSorted)
    } else if sum_count(n.rows.push(row)) > u64::MAX || sum_weight(n.rows.push(row)) > u64::MAX {
        Some(BuildError::Overflow)
    } else {
        None
    }
}

/// Sums of counts and lengths are not negative.
pub proof fn lemma_sums(rows: Seq<Row>)
    ensures
        0 <= sum_count(rows),
        0 <= sum_weight(rows),
    decreases rows.len(),
{
    if rows.len() > 0 {
        lemma_sums(rows.drop_last());
    }
}

/// Every entry costs at least its fixed part and the prefix it shares.
pub proof fn lemma_logical_lower(rows: Seq<Row>, p: int)
    requires
        0 <= p,
        forall|i: int| 0 <= i < rows.len() ==> p <= (#[trigger] rows[i]).key.len(),
    ensures
        logical(rows) >= HEADER + rows.len() * (13 + p),
    decreases rows.len(),
{
    if rows.len() > 0 {
        let rest = rows.drop_last();
        assert forall|i: int| 0 <= i < rest.len() implies p <= (#[trigger] rest[i]).key.len() by {
            assert(rest[i] == rows[i]);
        }
        lemma_logical_lower(rest, p);
        assert(rows[rows.len() - 1].key.len() >= p);
        let n = rows.len() as int;
        assert(n * (13 + p) == (n - 1) * (13 + p) + (13 + p)) by (nonlinear_arith);
    }
}

/// What a node costs with one more row: the sum, less the prefixes not stored.
pub proof fn lemma_encoded_push(n: NodeView, row: Row)
    ensures
        prefix_len(n.rows.push(row)) == (if n.rows.len() == 0 {
            row.key.len() as int
        } else {
            let q = order::shared_len(n.rows[0].key, row.key, 0);
            if q < prefix_len(n.rows) {
                q
            } else {
                prefix_len(n.rows)
            }
        }),
        encoded(n.with_row(row)) == logical(n.rows) + row_cost(row) - n.rows.len() * prefix_len(
            n.rows.push(row),
        ) + 32 * n.parity.len(),
        encoded(n.with_row(row)) >= HEADER + row_cost(row) + 13 * n.rows.len() + 32
            * n.parity.len(),
{
    let rows = n.rows.push(row);
    assert(rows.drop_last() =~= n.rows);
    let p = prefix_len(rows);
    if n.rows.len() > 0 {
        assert(rows[0] == n.rows[0]);
    }
    lemma_prefix_shared(rows, rows.len() - 1);
    assert forall|i: int| 0 <= i < n.rows.len() implies p <= (#[trigger] n.rows[i]).key.len() by {
        lemma_prefix_shared(rows, i);
        assert(rows[i] == n.rows[i]);
    }
    lemma_logical_lower(n.rows, p);
    let m = n.rows.len() as int;
    assert(m * (13 + p) == 13 * m + m * p) by (nonlinear_arith);
    if m == 0 {
        assert(m * p == 0) by (nonlinear_arith)
            requires
                m == 0,
        ;
    }
}

/// The encoded length bounds the number of rows.
pub proof fn lemma_encoded_bounds(n: NodeView)
    ensures
        encoded(n) >= HEADER + 13 * n.rows.len() + 32 * n.parity.len(),
{
    if n.rows.len() > 0 {
        let rest = NodeView { rows: n.rows.drop_last(), ..n };
        lemma_encoded_push(rest, n.rows.last());
        assert(rest.rows.push(n.rows.last()) =~= n.rows);
        assert(rest.with_row(n.rows.last()) == n);
    }
}

/// Builds the canonical encoding of a node. Entries must arrive in key order.
pub struct NodeBuilder {
    level: u8,
    rows: Vec<Entry>,
    plen: usize,
    size: usize,
    refs: bool,
    parity: Vec<Cid>,
    agg: Agg,
}

impl View for NodeBuilder {
    type V = NodeView;

    closed spec fn view(&self) -> NodeView {
        NodeView { level: self.level, rows: rows_of(self.rows@), parity: cids_of(self.parity@) }
    }
}

impl NodeBuilder {
    /// What has been pushed has an encoding, and the running totals are its own.
    pub closed spec fn wf(&self) -> bool {
        &&& self@.fits()
        &&& self.plen == prefix_len(self@.rows)
        &&& self.size == logical(self@.rows)
        &&& self.refs == has_ref(self@.rows)
        &&& self.agg == self@.agg()
    }

    /// A builder that is well formed holds what fits a node.
    pub proof fn lemma_wf(&self)
        requires
            self.wf(),
        ensures
            self@.fits(),
    {
    }

    /// An empty leaf.
    pub fn leaf() -> (b: Self)
        ensures
            b.wf(),
            b@ == (NodeView { level: 0, rows: Seq::empty(), parity: Seq::empty() }),
    {
        Self::new(0)
    }

    /// An empty branch. `level` must be at least 1.
    pub fn branch(level: u8) -> (b: Self)
        requires
            level >= 1,
        ensures
            b.wf(),
            b@ == (NodeView { level, rows: Seq::empty(), parity: Seq::empty() }),
    {
        Self::new(level)
    }

    fn new(level: u8) -> (b: Self)
        ensures
            b.wf(),
            b@ == (NodeView { level, rows: Seq::empty(), parity: Seq::empty() }),
    {
        let b = NodeBuilder {
            level,
            rows: Vec::new(),
            plen: 0,
            size: HEADER,
            refs: false,
            parity: Vec::new(),
            agg: Agg { count: 0, bytes: 0 },
        };
        assert(b@.rows =~= Seq::<Row>::empty());
        assert(b@.parity =~= Seq::<Seq<u8>>::empty());
        b
    }

    /// How many entries have been pushed.
    pub fn len(&self) -> (n: usize)
        ensures
            n == self@.rows.len(),
    {
        self.rows.len()
    }

    /// Has nothing been pushed?
    pub fn is_empty(&self) -> (r: bool)
        ensures
            r == (self@.rows.len() == 0),
    {
        self.rows.len() == 0
    }

    /// Encoded size if finished now.
    pub fn encoded_len(&self) -> (n: usize)
        requires
            self.wf(),
        ensures
            n == encoded(self@),
    {
        proof {
            lemma_encoded_bounds(self@);
            self.lemma_saved();
        }
        let n = self.rows.len();
        let saved = if n == 0 {
            0
        } else {
            (n - 1) * self.plen
        };
        self.size - saved + 32 * self.parity.len()
    }

    /// The prefixes that are not stored fit the measure they are taken from.
    proof fn lemma_saved(&self)
        requires
            self.wf(),
        ensures
            self@.rows.len() > 0 ==> 0 <= (self@.rows.len() - 1) * self.plen <= self.size,
            self.plen <= MAX_KEY,
            self@.rows.len() <= 1258,
            self@.parity.len() <= 512,
            self.size <= 700000,
    {
        lemma_encoded_bounds(self@);
        let n = self@.rows.len() as int;
        let p = self.plen as int;
        if n > 0 {
            lemma_prefix_shared(self@.rows, 0);
            assert(row_fits(self.level, self@.rows[0]));
            assert(0 <= (n - 1) * p <= 1258 * 512) by (nonlinear_arith)
                requires
                    0 < n <= 1258,
                    0 <= p <= 512,
            ;
            assert(encoded(self@) == self.size - (n - 1) * p + 32 * self@.parity.len());
        }
    }

    /// The boundary measure of what has been pushed: the encoding with every key
    /// in full, and without parity.
    pub fn logical_len(&self) -> (n: usize)
        requires
            self.wf(),
        ensures
            n == logical(self@.rows),
    {
        self.size
    }

    /// What an entry costs the boundary measure.
    pub fn leaf_cost(key: &[u8], value: &Value<'_>) -> (n: usize)
        requires
            key@.len() + stored(value@).len() + 13 <= usize::MAX,
        ensures
            n == row_cost(Row { key: key@, held: value@ }),
    {
        Self::leaf_cost_len(key.len(), value)
    }

    /// [`NodeBuilder::leaf_cost`] from the key's length alone.
    pub fn leaf_cost_len(key_len: usize, value: &Value<'_>) -> (n: usize)
        requires
            key_len + stored(value@).len() + 13 <= usize::MAX,
        ensures
            n == key_len + 13 + stored(value@).len(),
    {
        match value {
            Value::Inline(b) => 13 + key_len + b.len(),
            Value::Ref { .. } => 13 + key_len + 32,
        }
    }

    /// What a child costs the boundary measure.
    pub fn child_cost(key: &[u8]) -> (n: usize)
        requires
            key@.len() + 64 <= usize::MAX,
        ensures
            n == key@.len() + 56,
    {
        Self::child_cost_len(key.len())
    }

    /// [`NodeBuilder::child_cost`] from the key's length alone.
    pub fn child_cost_len(key_len: usize) -> (n: usize)
        requires
            key_len + 64 <= usize::MAX,
        ensures
            n == key_len + 56,
    {
        56 + key_len
    }

    /// Would the format store this entry so? A key of a legal length, a short
    /// value inline and a longer one by reference.
    pub fn check_leaf(key: &[u8], value: &Value<'_>) -> (r: Result<(), BuildError>)
        ensures
            r == leaf_verdict(key@, value@),
    {
        if key.len() > MAX_KEY {
            return Err(BuildError::KeyTooLong);
        }
        match value {
            Value::Inline(b) => if b.len() > MAX_INLINE {
                Err(BuildError::ValueTooLong)
            } else {
                Ok(())
            },
            Value::Ref { len, .. } => if *len as usize > MAX_VALUE {
                Err(BuildError::ValueTooLong)
            } else if *len as usize <= MAX_INLINE {
                Err(BuildError::WrongKind)
            } else {
                Ok(())
            },
        }
    }

    /// The smallest key pushed, if any.
    pub fn min_key(&self) -> (k: Option<&[u8]>)
        ensures
            match k {
                None => self@.rows.len() == 0,
                Some(k) => self@.rows.len() > 0 && k@ == self@.rows[0].key,
            },
    {
        if self.rows.len() == 0 {
            None
        } else {
            Some(self.rows[0].key.as_slice())
        }
    }

    /// What has been pushed adds up to.
    pub fn agg(&self) -> (a: Agg)
        requires
            self.wf(),
        ensures
            a == self@.agg(),
    {
        self.agg
    }

    /// Take one entry, of the kind this level holds, if the node has room for it.
    fn accept(&mut self, entry: Entry, cost: usize, entry_agg: Agg) -> (r: Result<(), BuildError>)
        requires
            old(self).wf(),
            row_fits(old(self)@.level, entry@) || entry@.key.len() > MAX_KEY,
            (old(self)@.level == 0) != (entry@.held is Child),
            entry@.held matches Payload::Inline(b) ==> b.len() <= u32::MAX,
            match entry@.held {
                Payload::Ref { cid, .. } => cid.len() == 32,
                Payload::Child { cid, .. } => cid.len() == 32,
                _ => true,
            },
            entry@.key.len() <= MAX_NODE,
            cost <= 2 * MAX_NODE + 64,
            cost == row_cost(entry@),
            entry_agg.count == row_count(entry@),
            entry_agg.bytes == row_weight(entry@),
        ensures
            final(self).wf(),
            match r {
                Ok(()) => push_error(old(self)@, entry@) is None && final(self)@ == old(self)@.with_row(entry@),
                Err(e) => push_error(old(self)@, entry@) == Some(e) && final(self)@ == old(self)@,
            },
    {
        let ghost n0 = self@;
        let ghost row = entry@;
        proof {
            self.lemma_saved();
            lemma_encoded_push(n0, row);
        }
        let n = self.rows.len();
        let plen = if n == 0 {
            entry.key.len()
        } else {
            let q = order::shared(&self.rows[0].key, &entry.key);
            assert(self@.rows[0] == self.rows@[0]@);
            if q < self.plen {
                q
            } else {
                self.plen
            }
        };
        assert(plen == prefix_len(n0.rows.push(row)));
        assert(n * plen <= 1258 * 16384) by (nonlinear_arith)
            requires
                0 <= n <= 1258,
                0 <= plen <= 16384,
        ;
        let total = self.size + cost + 32 * self.parity.len() - n * plen;
        if total > MAX_NODE {
            return Err(BuildError::NodeTooLarge);
        }
        if entry.key.len() > MAX_KEY {
            return Err(BuildError::KeyTooLong);
        }
        if n > 0 {
            assert(self@.rows[n - 1] == self.rows@[n - 1]@);
            if !order::before(&self.rows[n - 1].key, &entry.key) {
                return Err(BuildError::NotSorted);
            }
        }
        let ghost rows = n0.rows.push(row);
        assert(rows.drop_last() =~= n0.rows);
        proof {
            lemma_sums(n0.rows);
            lemma_sums(rows);
        }
        let agg = match self.agg.checked_add(entry_agg) {
            None => {
                return Err(BuildError::Overflow);
            },
            Some(a) => a,
        };
        let is_ref = match entry.body {
            Body::Ref { .. } => true,
            _ => false,
        };
        proof {
            let n1 = n0.with_row(row);
            assert forall|i: int, j: int| 0 <= i < j < rows.len() implies order::lt(
                (#[trigger] rows[i]).key,
                (#[trigger] rows[j]).key,
            ) by {
                if j == n {
                    if i < n - 1 {
                        assert(order::lt(n0.rows[i].key, n0.rows[n - 1].key));
                        order::lemma_lt_trans(n0.rows[i].key, n0.rows[n - 1].key, row.key);
                    }
                } else {
                    assert(order::lt(n0.rows[i].key, n0.rows[j].key));
                }
            }
            assert forall|i: int| 0 <= i < rows.len() implies row_fits(
                n0.level,
                #[trigger] rows[i],
            ) by {
                if i < n {
                    assert(rows[i] == n0.rows[i]);
                }
            }
            if has_ref(n0.rows) {
                let j = choose|j: int| 0 <= j < n0.rows.len() && (#[trigger] n0.rows[j]).held is Ref;
                assert(rows[j].held is Ref);
            }
            if is_ref {
                assert(rows[n as int].held is Ref);
            }
            if has_ref(rows) && !is_ref {
                let j = choose|j: int| 0 <= j < rows.len() && (#[trigger] rows[j]).held is Ref;
                assert(n0.rows[j].held is Ref);
            }
            assert(n1.fits());
        }
        self.rows.push(entry);
        self.plen = plen;
        self.size = self.size + cost;
        self.refs = self.refs || is_ref;
        self.agg = agg;
        assert(self@.rows =~= rows);
        Ok(())
    }

    /// Add the next entry of a leaf.
    pub fn push(&mut self, key: &[u8], value: Value<'_>) -> (r: Result<(), BuildError>)
        requires
            old(self).wf(),
        ensures
            final(self).wf(),
            match r {
                Ok(()) => push_error(old(self)@, (Row { key: key@, held: value@ })) is None && final(self)@ == old(self)@.with_row(Row { key: key@, held: value@ }),
                Err(e) => push_error(old(self)@, (Row { key: key@, held: value@ })) == Some(e)
                    && final(self)@ == old(self)@,
            },
    {
        if self.level != 0 {
            return Err(BuildError::WrongKind);
        }
        let ghost row = Row { key: key@, held: value@ };
        proof {
            lemma_encoded_push(self@, row);
        }
        let vlen: u64 = value.logical_len();
        let body = match value {
            Value::Inline(b) => {
                if b.len() > 4294967295 {
                    return Err(BuildError::ValueTooLong);
                }
                if b.len() > MAX_NODE {
                    return Err(BuildError::NodeTooLarge);
                }
                Body::Inline(vstd::slice::slice_to_vec(b))
            },
            Value::Ref { cid, len } => Body::Ref { cid, len },
        };
        if key.len() > MAX_NODE {
            return Err(BuildError::NodeTooLarge);
        }
        let cost = match value {
            Value::Inline(b) => 13 + key.len() + b.len(),
            Value::Ref { .. } => 13 + key.len() + 32,
        };
        let entry_agg = Agg { count: 1, bytes: key.len() as u64 + vlen };
        let entry = Entry { key: vstd::slice::slice_to_vec(key), body };
        assert(entry@ == row);
        self.accept(entry, cost, entry_agg)
    }

    /// Add the next child of a branch.
    pub fn push_child(&mut self, min_key: &[u8], child: Cid, child_agg: Agg) -> (r: Result<
        (),
        BuildError,
    >)
        requires
            old(self).wf(),
        ensures
            final(self).wf(),
            ({
                let row = Row {
                    key: min_key@,
                    held: Payload::Child { cid: child@, agg: child_agg },
                };
                match r {
                    Ok(()) => push_error(old(self)@, row) is None && final(self)@ == old(self)@.with_row(row),
                    Err(e) => push_error(old(self)@, row) == Some(e) && final(self)@ == old(self)@,
                }
            }),
    {
        if self.level == 0 {
            return Err(BuildError::WrongKind);
        }
        let ghost row = Row { key: min_key@, held: Payload::Child { cid: child@, agg: child_agg } };
        proof {
            lemma_encoded_push(self@, row);
        }
        if min_key.len() > MAX_NODE {
            return Err(BuildError::NodeTooLarge);
        }
        let cost = 56 + min_key.len();
        let entry = Entry {
            key: vstd::slice::slice_to_vec(min_key),
            body: Body::Child { cid: child, agg: child_agg },
        };
        assert(entry@ == row);
        self.accept(entry, cost, child_agg)
    }

    /// List one more parity id.
    pub fn push_parity(&mut self, cid: Cid) -> (r: Result<(), BuildError>)
        requires
            old(self).wf(),
        ensures
            final(self).wf(),
            match r {
                Ok(()) => parity_error(old(self)@) is None && final(self)@ == old(self)@.with_parity(cid@),
                Err(e) => parity_error(old(self)@) == Some(e) && final(self)@ == old(self)@,
            },
    {
        if self.level == 0 && !self.refs {
            return Err(BuildError::WrongKind);
        }
        proof {
            lemma_encoded_bounds(self@);
        }
        if self.encoded_len() + 32 > MAX_NODE {
            return Err(BuildError::NodeTooLarge);
        }
        let ghost n0 = self@;
        self.parity.push(cid);
        proof {
            assert(self@.parity =~= n0.parity.push(cid@));
            assert(self@.rows == n0.rows);
            assert(encoded(self@) == encoded(n0) + 32);
        }
        Ok(())
    }

    /// The encoded node.
    pub fn finish(self) -> (r: Result<Vec<u8>, BuildError>)
        requires
            self.wf(),
        ensures
            match r {
                Ok(b) => self@.valid() && b@ == encode(self@),
                Err(e) => e == BuildError::WrongKind && self@.level > 0 && self@.rows.len() == 0,
            },
    {
        if self.level > 0 && self.rows.len() == 0 {
            return Err(BuildError::WrongKind);
        }
        let ghost v = self@;
        let ghost p = prefix_len(v.rows);
        proof {
            self.lemma_saved();
            lemma_encoded_bounds(v);
            assert forall|i: int| 0 <= i < v.rows.len() implies p <= (
            #[trigger] v.rows[i]).key.len() by {
                lemma_prefix_shared(v.rows, i);
            }
            lemma_rows_bytes_len(v.level, v.rows, p);
            assert(writable(self.rows@, v.level, p)) by {
                assert forall|i: int| 0 <= i < self.rows@.len() implies row_fits(
                    v.level,
                    #[trigger] self.rows@[i]@,
                ) && p <= self.rows@[i]@.key.len() by {
                    assert(v.rows[i] == self.rows@[i]@);
                }
            }
        }
        let n = self.rows.len();
        let base = HEADER + self.plen + 6 * n;
        let mut out: Vec<u8> = Vec::with_capacity(self.encoded_len());
        out.push(0x50);
        out.push(0x54);
        out.push(0x30);
        out.push(0x31);
        out.push(self.level);
        out.push(0);
        seqs::put_u16(&mut out, n as u16);
        seqs::put_u64(&mut out, self.agg.count);
        seqs::put_u64(&mut out, self.agg.bytes);
        seqs::put_u16(&mut out, self.parity.len() as u16);
        seqs::put_u16(&mut out, self.plen as u16);
        proof {
            lemma_sums(v.rows);
        }
        assert(out@ =~= header_bytes(v));
        if n > 0 {
            assert(v.rows[0] == self.rows@[0]@);
            let first = self.rows[0].key.as_slice();
            out.extend_from_slice(vstd::slice::slice_subrange(first, 0, self.plen));
        }
        assert(out@ =~= header_bytes(v) + prefix_bytes(v.rows));
        let ghost rl = rows_bytes(v.rows, p).len();
        let ghost m = v.rows.len() as int;
        proof {
            if m > 0 {
                assert((m - 1) * p + p == m * p) by (nonlinear_arith);
            } else {
                assert(m * p == 0) by (nonlinear_arith)
                    requires
                        m == 0,
                ;
            }
            assert(base + rl + 32 * v.parity.len() == encoded(v));
        }
        put_offs(&mut out, &self.rows, self.plen, base, Ghost(v.level));
        put_keys4(&mut out, &self.rows, self.plen);
        put_rows(&mut out, &self.rows, self.plen, Ghost(v.level));
        put_cids(&mut out, &self.parity);
        assert(out@ =~= encode(v));
        Ok(out)
    }
}

/// The entries fit their level and have the prefix.
spec fn writable(entries: Seq<Entry>, level: u8, p: int) -> bool {
    forall|i: int|
        0 <= i < entries.len() ==> row_fits(level, #[trigger] entries[i]@) && p
            <= entries[i]@.key.len()
}

/// Append the offset table.
fn put_offs(out: &mut Vec<u8>, entries: &Vec<Entry>, plen: usize, base: usize, Ghost(level): Ghost<u8>)
    requires
        writable(entries@, level, plen as int),
        base + rows_bytes(rows_of(entries@), plen as int).len() <= MAX_NODE,
    ensures
        final(out)@ == old(out)@ + offs_bytes(
            rows_of(entries@),
            plen as int,
            base as int,
            entries@.len(),
        ),
{
    let ghost head = out@;
    let ghost rows = rows_of(entries@);
    let ghost p = plen as int;
    let n = entries.len();
    let mut at: usize = base;
    let mut i: usize = 0;
    assert(out@ =~= head + offs_bytes(rows, p, base as int, 0));
    assert(rows.take(0) =~= Seq::<Row>::empty());
    while i < n
        invariant
            i <= n,
            n == entries@.len(),
            rows == rows_of(entries@),
            p == plen,
            writable(entries@, level, p),
            at == base + rows_bytes(rows.take(i as int), p).len(),
            base + rows_bytes(rows, p).len() <= MAX_NODE,
            i == n || at <= MAX_NODE,
            out@ == head + offs_bytes(rows, p, base as int, i as nat),
        decreases n - i,
    {
        proof {
            lemma_rows_bytes_take(rows, p, i as int);
            assert(rows[i as int] == entries@[i as int]@);
            assert(row_fits(level, entries@[i as int]@));
            lemma_row_bytes_len(level, rows[i as int], p);
        }
        seqs::put_u16(out, at as u16);
        assert(out@ =~= head + offs_bytes(rows, p, base as int, (i + 1) as nat));
        let e = &entries[i];
        let len = match &e.body {
            Body::Inline(b) => LEAF_FIXED + (e.key.len() - plen) + b.len(),
            Body::Ref { .. } => LEAF_FIXED + (e.key.len() - plen) + 32,
            Body::Child { .. } => BRANCH_FIXED + (e.key.len() - plen),
        };
        at = at + len;
        i += 1;
    }
}

/// Append the suffix index.
fn put_keys4(out: &mut Vec<u8>, entries: &Vec<Entry>, plen: usize)
    requires
        forall|i: int| 0 <= i < entries@.len() ==> plen <= (#[trigger] entries@[i])@.key.len(),
    ensures
        final(out)@ == old(out)@ + keys4_bytes(rows_of(entries@), plen as int, entries@.len()),
{
    let ghost head = out@;
    let ghost rows = rows_of(entries@);
    let mut i: usize = 0;
    assert(out@ =~= head + keys4_bytes(rows, plen as int, 0));
    while i < entries.len()
        invariant
            i <= entries@.len(),
            rows == rows_of(entries@),
            forall|i: int| 0 <= i < entries@.len() ==> plen <= (#[trigger] entries@[i])@.key.len(),
            out@ == head + keys4_bytes(rows, plen as int, i as nat),
        decreases entries@.len() - i,
    {
        assert(rows[i as int] == entries@[i as int]@);
        let k = entries[i].key.as_slice();
        seqs::put_u32_be(out, key4(vstd::slice::slice_subrange(k, plen, k.len())));
        assert(out@ =~= head + keys4_bytes(rows, plen as int, (i + 1) as nat));
        i += 1;
    }
}

/// Append the entries.
fn put_rows(out: &mut Vec<u8>, entries: &Vec<Entry>, plen: usize, Ghost(level): Ghost<u8>)
    requires
        writable(entries@, level, plen as int),
    ensures
        final(out)@ == old(out)@ + rows_bytes(rows_of(entries@), plen as int),
{
    let ghost head = out@;
    let ghost rows = rows_of(entries@);
    let ghost p = plen as int;
    let n = entries.len();
    let mut i: usize = 0;
    assert(rows.take(0) =~= Seq::<Row>::empty());
    assert(out@ =~= head + rows_bytes(rows.take(0), p));
    while i < n
        invariant
            i <= n,
            n == entries@.len(),
            rows == rows_of(entries@),
            p == plen,
            writable(entries@, level, p),
            out@ == head + rows_bytes(rows.take(i as int), p),
        decreases n - i,
    {
        proof {
            assert(rows[i as int] == entries@[i as int]@);
            assert(row_fits(level, entries@[i as int]@));
            lemma_rows_bytes_step(rows, p, i as int);
        }
        put_row(out, &entries[i], plen);
        assert(out@ =~= head + rows_bytes(rows.take(i + 1), p));
        i += 1;
    }
    assert(rows.take(n as int) =~= rows);
}

/// Append ids.
fn put_cids(out: &mut Vec<u8>, ids: &Vec<Cid>)
    ensures
        final(out)@ == old(out)@ + cids_bytes(cids_of(ids@), ids@.len()),
{
    let ghost head = out@;
    let ghost cs = cids_of(ids@);
    let mut i: usize = 0;
    assert(out@ =~= head + cids_bytes(cs, 0));
    while i < ids.len()
        invariant
            i <= ids@.len(),
            cs == cids_of(ids@),
            out@ == head + cids_bytes(cs, i as nat),
        decreases ids@.len() - i,
    {
        assert(cs[i as int] == ids@[i as int]@);
        out.extend_from_slice(ids[i].as_slice());
        assert(out@ =~= head + cids_bytes(cs, (i + 1) as nat));
        i += 1;
    }
}

/// Why a node does not take a parity id, if it does not.
pub open spec fn parity_error(n: NodeView) -> Option<BuildError> {
    if n.level == 0 && !has_ref(n.rows) {
        Some(BuildError::WrongKind)
    } else if encoded(n) + 32 > MAX_NODE {
        Some(BuildError::NodeTooLarge)
    } else {
        None
    }
}

/// Whether the format would store an entry so, and if not why.
pub open spec fn leaf_verdict(key: Seq<u8>, held: Payload) -> Result<(), BuildError> {
    if key.len() > MAX_KEY {
        Err(BuildError::KeyTooLong)
    } else {
        match held {
            Payload::Inline(b) => if b.len() > MAX_INLINE {
                Err(BuildError::ValueTooLong)
            } else {
                Ok(())
            },
            Payload::Ref { len, .. } => if len > MAX_VALUE {
                Err(BuildError::ValueTooLong)
            } else if len <= MAX_INLINE {
                Err(BuildError::WrongKind)
            } else {
                Ok(())
            },
            Payload::Child { .. } => Err(BuildError::WrongKind),
        }
    }
}

/// The length of an encoded entry.
pub proof fn lemma_row_bytes_len(level: u8, row: Row, p: int)
    requires
        row_fits(level, row),
        0 <= p <= row.key.len(),
    ensures
        row_bytes(row, p).len() == row_len(level, row, p),
        6 + row_len(level, row, p) + p == row_cost(row),
{
}

/// The length of the entries of a node.
pub proof fn lemma_rows_bytes_len(level: u8, rows: Seq<Row>, p: int)
    requires
        0 <= p,
        forall|i: int| 0 <= i < rows.len() ==> row_fits(level, #[trigger] rows[i]),
        forall|i: int| 0 <= i < rows.len() ==> p <= (#[trigger] rows[i]).key.len(),
    ensures
        HEADER + 6 * rows.len() + rows_bytes(rows, p).len() + rows.len() * p == logical(rows),
    decreases rows.len(),
{
    let n = rows.len() as int;
    if n == 0 {
        assert(n * p == 0) by (nonlinear_arith)
            requires
                n == 0,
        ;
    } else {
        let rest = rows.drop_last();
        assert forall|i: int| 0 <= i < rest.len() implies row_fits(level, #[trigger] rest[i])
            && p <= rest[i].key.len() by {
            assert(rest[i] == rows[i]);
        }
        lemma_rows_bytes_len(level, rest, p);
        assert(row_fits(level, rows[n - 1]));
        lemma_row_bytes_len(level, rows[n - 1], p);
        assert(n * p == (n - 1) * p + p) by (nonlinear_arith);
    }
}

/// One more entry.
pub proof fn lemma_rows_bytes_step(rows: Seq<Row>, p: int, i: int)
    requires
        0 <= i < rows.len(),
    ensures
        rows_bytes(rows.take(i + 1), p) == rows_bytes(rows.take(i), p) + row_bytes(rows[i], p),
{
    assert(rows.take(i + 1).drop_last() =~= rows.take(i));
    assert(rows.take(i + 1).last() == rows[i]);
}

/// The entries before one, and it, are part of all of them.
pub proof fn lemma_rows_bytes_take(rows: Seq<Row>, p: int, i: int)
    requires
        0 <= i < rows.len(),
    ensures
        rows_bytes(rows.take(i + 1), p).len() == rows_bytes(rows.take(i), p).len() + row_bytes(
            rows[i],
            p,
        ).len(),
        rows_bytes(rows.take(i + 1), p).len() <= rows_bytes(rows, p).len(),
    decreases rows.len() - i,
{
    lemma_rows_bytes_step(rows, p, i);
    if i + 1 < rows.len() {
        lemma_rows_bytes_take(rows, p, i + 1);
    } else {
        assert(rows.take(i + 1) =~= rows);
    }
}

/// Append one encoded entry.
fn put_row(out: &mut Vec<u8>, e: &Entry, plen: usize)
    requires
        plen <= e@.key.len() <= MAX_KEY,
        match e@.held {
            Payload::Inline(b) => b.len() <= u32::MAX,
            _ => true,
        },
    ensures
        final(out)@ == old(out)@ + row_bytes(e@, plen as int),
{
    let k = e.key.as_slice();
    let suffix = vstd::slice::slice_subrange(k, plen, k.len());
    seqs::put_u16(out, suffix.len() as u16);
    match &e.body {
        Body::Inline(b) => {
            out.push(0);
            seqs::put_u32(out, b.len() as u32);
            out.extend_from_slice(suffix);
            out.extend_from_slice(b.as_slice());
        },
        Body::Ref { cid, len } => {
            out.push(1);
            seqs::put_u32(out, *len);
            out.extend_from_slice(suffix);
            out.extend_from_slice(cid.as_slice());
        },
        Body::Child { cid, agg } => {
            out.extend_from_slice(cid.as_slice());
            seqs::put_u64(out, agg.count);
            seqs::put_u64(out, agg.bytes);
            out.extend_from_slice(suffix);
        },
    }
    assert(out@ =~= old(out)@ + row_bytes(e@, plen as int));
}

} // verus!
