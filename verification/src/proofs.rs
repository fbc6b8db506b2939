//! Checking one key against a root you trust, without holding the tree.
//!
//! A reader who has a root and nothing else can be handed a proof and decide for itself
//! whether a key is present, what its value is, or that it is absent. Every block in a
//! proof is checked against the pointer that names it, and the chain of pointers ends at
//! the root the reader already trusted.
//!
//! Verifying is reading: the blocks of the proof make a store, keyed the way every block
//! is keyed, and the library's own reader runs over it. A block that is not what its
//! parent says cannot be found there, and a proof that lacks a block is incomplete,
//! never an answer.
//!
//! Canonicity comes on top. No block of a proof can be left out, none is there twice,
//! and they come in the format's own order: level descending, then first key ascending.
//!
//! A proof is bytes from a stranger, so its shape is checked before the bytes are. The
//! root's level bounds how many blocks a proof against it can need, and one parse and
//! one hash decide whether the rest is worth touching.
//!
//! A proof claims what the reader returns against this root, and no more: not that the
//! root is current, not what a count over subtrees nobody opened comes to, and not the
//! bytes behind a referenced value, unless it carries them.

use crate::aggregate;
use crate::aggregate::{AggError, Claimed};
use crate::canon;
use crate::grow;
use crate::kind;
use crate::node;
use crate::node::{Agg, Node, NodeView, Payload, Row, Value, MAX_NODE, MAX_VALUE};
use crate::order;
use crate::pick;
use crate::range;
use crate::range::{bounds_are_empty, range, PageEnd, PageView, Range, RangeError, RangeView};
use crate::read;
use crate::seqs;
use crate::store;
use crate::store::{BlockMap, Blocks, Fault, MemBlocks, ReadError};
use crate::tree;
use crate::{block_id, Cid};
use vstd::prelude::*;

verus! {

/// The proof format's magic. Bumped if the encoding changes.
pub const MAGIC: [u8; 4] = [0x50, 0x50, 0x30, 0x31];

/// The node bodies on the path from a root to one key, root first. Optionally the raw
/// bytes of a referenced value, so a proof about a key whose value lives outside the
/// leaf can carry the value too.
#[derive(Clone, Debug, PartialEq, Eq)]
pub struct Proof {
    /// Root first, exactly the path a read takes.
    pub nodes: Vec<Vec<u8>>,
    /// The bytes behind a `Value::Ref`, if the prover chose to carry them. With and
    /// without it the proof makes two different claims, and the answer says which.
    pub value: Option<Vec<u8>>,
}

/// A proof, as a mathematical value.
#[verifier::ext_equal]
pub struct ProofView {
    pub nodes: Seq<Seq<u8>>,
    pub value: Option<Seq<u8>>,
}

impl View for Proof {
    type V = ProofView;

    open spec fn view(&self) -> ProofView {
        ProofView {
            nodes: seqs::views(self.nodes@),
            value: match self.value {
                None => None,
                Some(v) => Some(v@),
            },
        }
    }
}

impl Default for Proof {
    fn default() -> (p: Proof)
        ensures
            p@ == (ProofView { nodes: Seq::empty(), value: None }),
    {
        let p = Proof { nodes: Vec::new(), value: None };
        assert(p@.nodes =~= Seq::<Seq<u8>>::empty());
        p
    }
}

/// What a verified proof says about the key.
#[derive(Clone, Debug, PartialEq, Eq)]
pub enum Proven<'a> {
    /// The key is in the tree with this value. A `Ref` means the proof authenticated
    /// the value's id and length but did not carry its bytes.
    Present(Value<'a>),
    /// The key is not in the tree. A statement about this root and no other.
    Absent,
}

/// Why a proof proves nothing.
#[derive(Clone, Debug, PartialEq, Eq)]
pub enum ProofError {
    /// Not a proof: wrong magic, truncated, a length that runs off the end.
    Malformed(&'static str),
    /// A block in the proof is not a node.
    NotANode,
    /// The proof does not hold the whole path: the read ran out of blocks.
    Incomplete,
    /// A block, or a value, that nothing reads.
    Extra,
    /// The blocks are not in the format's order, or one is repeated.
    OutOfOrder,
    /// The first block is not the root being proved against.
    WrongRoot,
    /// A block is not what its parent says it is.
    Mismatch(Cid),
    /// The carried value is not the one the leaf names, or is carried where there is
    /// nothing for it to prove.
    BadValue,
    /// The proof is for a different range than the one being verified.
    WrongRange,
    /// More blocks than a proof against this root could need, or a block larger than a
    /// block can be. Refused before the work of parsing and hashing them is done.
    TooLarge(&'static str),
    /// A request a proof cannot be made for.
    Unsupported(&'static str),
    /// The page is short because a block was missing, so the listing is not complete
    /// for the span it claims.
    NotComplete,
}

/// Why a proof proves nothing, as a mathematical value.
#[verifier::ext_equal]
pub enum Refused {
    Malformed(Seq<char>),
    NotANode,
    Incomplete,
    Extra,
    OutOfOrder,
    WrongRoot,
    Mismatch(Seq<u8>),
    BadValue,
    WrongRange,
    TooLarge(Seq<char>),
    Unsupported(Seq<char>),
    NotComplete,
}

impl View for ProofError {
    type V = Refused;

    open spec fn view(&self) -> Refused {
        match *self {
            ProofError::Malformed(w) => Refused::Malformed(w@),
            ProofError::NotANode => Refused::NotANode,
            ProofError::Incomplete => Refused::Incomplete,
            ProofError::Extra => Refused::Extra,
            ProofError::OutOfOrder => Refused::OutOfOrder,
            ProofError::WrongRoot => Refused::WrongRoot,
            ProofError::Mismatch(c) => Refused::Mismatch(c@),
            ProofError::BadValue => Refused::BadValue,
            ProofError::WrongRange => Refused::WrongRange,
            ProofError::TooLarge(w) => Refused::TooLarge(w@),
            ProofError::Unsupported(w) => Refused::Unsupported(w@),
            ProofError::NotComplete => Refused::NotComplete,
        }
    }
}

/// What an error says, in words.
pub open spec fn words(e: Refused) -> Seq<char> {
    match e {
        Refused::Malformed(w) => "not a proof: "@ + w,
        Refused::NotANode => "a block in the proof is not a node"@,
        Refused::Incomplete => "the proof does not contain the whole path"@,
        Refused::Extra => "the proof carries a block that is not on the path"@,
        Refused::OutOfOrder => "the proof's blocks are not in read order"@,
        Refused::WrongRoot => "the proof does not start at this root"@,
        Refused::Mismatch(_) => "a block is not what its parent says it is"@,
        Refused::BadValue => "the carried value is not the one the leaf names"@,
        Refused::WrongRange => "the proof is for a different range"@,
        Refused::TooLarge(w) => "the proof is impossibly large: "@ + w,
        Refused::Unsupported(w) => "a proof cannot be made for "@ + w,
        Refused::NotComplete => "the listing is missing entries it should contain"@,
    }
}

/// Two texts, one after the other.
fn said(a: &str, b: &str) -> (s: String)
    ensures
        s@ == a@ + b@,
{
    let mut s = String::from_str(a);
    s.append(b);
    s
}

impl ProofError {
    /// The error in words.
    pub fn message(&self) -> (s: String)
        ensures
            s@ == words(self@),
    {
        match self {
            ProofError::Malformed(w) => said("not a proof: ", w),
            ProofError::NotANode => String::from_str("a block in the proof is not a node"),
            ProofError::Incomplete => String::from_str("the proof does not contain the whole path"),
            ProofError::Extra => String::from_str(
                "the proof carries a block that is not on the path",
            ),
            ProofError::OutOfOrder => String::from_str("the proof's blocks are not in read order"),
            ProofError::WrongRoot => String::from_str("the proof does not start at this root"),
            ProofError::Mismatch(_) => String::from_str(
                "a block is not what its parent says it is",
            ),
            ProofError::BadValue => String::from_str(
                "the carried value is not the one the leaf names",
            ),
            ProofError::WrongRange => String::from_str("the proof is for a different range"),
            ProofError::TooLarge(w) => said("the proof is impossibly large: ", w),
            ProofError::Unsupported(w) => said("a proof cannot be made for ", w),
            ProofError::NotComplete => String::from_str(
                "the listing is missing entries it should contain",
            ),
        }
    }
}

// ---------------------------------------------------------------------------
// encoding
// ---------------------------------------------------------------------------

/// A body after its length.
pub open spec fn framed(b: Seq<u8>) -> Seq<u8> {
    seqs::to_le32((b.len() % 4294967296) as int) + b
}

/// The first `n` bodies, each after its length.
pub open spec fn framed_all(nodes: Seq<Seq<u8>>, n: nat) -> Seq<u8>
    decreases n,
{
    if n == 0 {
        Seq::empty()
    } else {
        framed_all(nodes, (n - 1) as nat) + framed(nodes[n - 1])
    }
}

/// The carried value after its length; all ones where there is none.
pub open spec fn trailer(v: Option<Seq<u8>>) -> Seq<u8> {
    match v {
        None => seqs::to_le32(4294967295),
        Some(b) => framed(b),
    }
}

/// `"PP01" || count u16 || (len u32 || bytes)* || value_len u32 || value`, little-endian.
pub open spec fn spec_encode(p: ProofView) -> Seq<u8> {
    MAGIC@ + seqs::to_le16((p.nodes.len() % 65536) as int) + framed_all(p.nodes, p.nodes.len())
        + trailer(p.value)
}

/// Why `n` bytes cannot be taken at `at`.
pub open spec fn short(b: Seq<u8>, at: int, n: int) -> Option<Refused> {
    if at + n > usize::MAX {
        Some(Refused::Malformed("length"@))
    } else if at + n > b.len() {
        Some(Refused::Malformed("truncated"@))
    } else {
        None
    }
}

/// Bodies read so far, and where the rest begins.
#[verifier::ext_equal]
pub struct Taken {
    pub nodes: Seq<Seq<u8>>,
    pub at: int,
}

/// The length at `at`, where it is one a node can have.
pub open spec fn node_len(b: Seq<u8>, at: int) -> Result<int, Refused> {
    match short(b, at, 4) {
        Some(e) => Err(e),
        None => if seqs::le32(b, at) > MAX_NODE {
            Err(Refused::TooLarge("a node"@))
        } else {
            Ok(seqs::le32(b, at))
        },
    }
}

/// The first `n` bodies.
pub open spec fn take_nodes(b: Seq<u8>, n: nat) -> Result<Taken, Refused>
    decreases n,
{
    if n == 0 {
        Ok(Taken { nodes: Seq::empty(), at: 6 })
    } else {
        match take_nodes(b, (n - 1) as nat) {
            Err(e) => Err(e),
            Ok(t) => match node_len(b, t.at) {
                Err(e) => Err(e),
                Ok(len) => match short(b, t.at + 4, len) {
                    Some(e) => Err(e),
                    None => Ok(
                        Taken {
                            nodes: t.nodes.push(b.subrange(t.at + 4, t.at + 4 + len)),
                            at: t.at + 4 + len,
                        },
                    ),
                },
            },
        }
    }
}

/// How many bodies there are said to be.
pub open spec fn head(b: Seq<u8>) -> Result<int, Refused> {
    match short(b, 0, 4) {
        Some(e) => Err(e),
        None => if b.subrange(0, 4) != MAGIC@ {
            Err(Refused::Malformed("magic"@))
        } else {
            match short(b, 4, 2) {
                Some(e) => Err(e),
                None => Ok(seqs::le16(b, 4)),
            }
        },
    }
}

/// Are the first `n` bodies there, and the next one not, unless all are?
pub open spec fn copies(b: Seq<u8>, n: int) -> bool {
    &&& 0 <= n
    &&& take_nodes(b, n as nat) is Ok
    &&& head(b) == Ok::<int, Refused>(n) || take_nodes(b, (n + 1) as nat) is Err
}

/// The value at `at`, and where it ends.
pub open spec fn take_value(b: Seq<u8>, at: int) -> Result<(Option<Seq<u8>>, int), Refused> {
    match short(b, at, 4) {
        Some(e) => Err(e),
        None => {
            let len = seqs::le32(b, at);
            if len == 4294967295 {
                Ok((None, at + 4))
            } else if len > MAX_VALUE {
                Err(Refused::TooLarge("a value"@))
            } else {
                match short(b, at + 4, len) {
                    Some(e) => Err(e),
                    None => Ok((Some(b.subrange(at + 4, at + 4 + len)), at + 4 + len)),
                }
            }
        },
    }
}

/// The proof some bytes are.
pub open spec fn spec_decode(b: Seq<u8>) -> Result<ProofView, Refused> {
    match head(b) {
        Err(e) => Err(e),
        Ok(count) => match take_nodes(b, count as nat) {
            Err(e) => Err(e),
            Ok(t) => match take_value(b, t.at) {
                Err(e) => Err(e),
                Ok(v) => {
                    let end = v.1;
                    if end != b.len() {
                        Err(Refused::Malformed("trailing bytes"@))
                    } else {
                        Ok(ProofView { nodes: t.nodes, value: v.0 })
                    }
                },
            },
        },
    }
}

/// Can `n` bytes be taken at `at`?
fn room(b: &[u8], at: usize, n: usize) -> (r: Result<(), ProofError>)
    ensures
        match r {
            Ok(()) => short(b@, at as int, n as int) is None,
            Err(e) => short(b@, at as int, n as int) == Some(e@),
        },
{
    if at > usize::MAX - n {
        return Err(ProofError::Malformed("length"));
    }
    if at + n > b.len() {
        return Err(ProofError::Malformed("truncated"));
    }
    Ok(())
}

/// How many bodies some bytes say they hold.
fn count_of(b: &[u8]) -> (r: Result<usize, ProofError>)
    ensures
        match r {
            Ok(n) => head(b@) == Ok::<int, Refused>(n as int) && n < 65536,
            Err(e) => head(b@) == Err::<int, Refused>(e@),
        },
{
    match room(b, 0, 4) {
        Err(e) => return Err(e),
        Ok(()) => {},
    }
    if !order::same(vstd::slice::slice_subrange(b, 0, 4), MAGIC.as_slice()) {
        return Err(ProofError::Malformed("magic"));
    }
    match room(b, 4, 2) {
        Err(e) => return Err(e),
        Ok(()) => {},
    }
    Ok(seqs::u16_at(b, 4))
}

/// The length of the body at `at`.
fn len_at(b: &[u8], at: usize) -> (r: Result<usize, ProofError>)
    ensures
        match r {
            Ok(n) => node_len(b@, at as int) == Ok::<int, Refused>(n as int) && n <= MAX_NODE && at
                + 4 <= b@.len(),
            Err(e) => node_len(b@, at as int) == Err::<int, Refused>(e@),
        },
{
    match room(b, at, 4) {
        Err(e) => return Err(e),
        Ok(()) => {},
    }
    let len = seqs::u32_at(b, at);
    // A block cannot be larger than a block. Checked before the bytes are copied, so a
    // lying length costs nothing.
    if len > 16384 {
        return Err(ProofError::TooLarge("a node"));
    }
    Ok(len as usize)
}

/// Bodies that cannot be read stay so.
proof fn lemma_take_err(b: Seq<u8>, k: nat, n: nat)
    requires
        k <= n,
        take_nodes(b, k) is Err,
    ensures
        take_nodes(b, n) == take_nodes(b, k),
    decreases n,
{
    if k < n {
        lemma_take_err(b, k, (n - 1) as nat);
    }
}

impl Proof {
    /// The proof as bytes. "No value" and "an empty value" are different encodings.
    pub fn encode(&self) -> (out: Vec<u8>)
        ensures
            out@ == spec_encode(self@),
    {
        let ghost p = self@;
        let mut out: Vec<u8> = Vec::new();
        out.extend_from_slice(MAGIC.as_slice());
        assert(out@ =~= MAGIC@);
        seqs::put_u16(&mut out, (self.nodes.len() % 65536) as u16);
        let ghost start = out@;
        let mut i: usize = 0;
        assert(start + framed_all(p.nodes, 0) =~= start);
        while i < self.nodes.len()
            invariant
                i <= self.nodes@.len(),
                p == self@,
                out@ == start + framed_all(p.nodes, i as nat),
            decreases self.nodes@.len() - i,
        {
            let ghost before = out@;
            put_framed(&mut out, self.nodes[i].as_slice());
            assert(p.nodes[i as int] == self.nodes@[i as int]@);
            assert(out@ =~= start + framed_all(p.nodes, (i + 1) as nat));
            i = i + 1;
        }
        match &self.value {
            Some(v) => put_framed(&mut out, v.as_slice()),
            None => seqs::put_u32(&mut out, 4294967295),
        }
        assert(out@ =~= spec_encode(p));
        out
    }

    /// Read a proof from bytes a stranger sent. Every length is checked against what is
    /// left before it is used.
    pub fn decode(bytes: &[u8]) -> (r: Result<Proof, ProofError>)
        ensures
            match r {
                Ok(p) => spec_decode(bytes@) == Ok::<ProofView, Refused>(p@),
                Err(e) => spec_decode(bytes@) == Err::<ProofView, Refused>(e@),
            },
    {
        let (r, _) = Self::decode_counted(bytes);
        r
    }

    /// [`Proof::decode`], and how many node bodies it copied.
    pub fn decode_counted(bytes: &[u8]) -> (r: (Result<Proof, ProofError>, usize))
        ensures
            match r.0 {
                Ok(p) => spec_decode(bytes@) == Ok::<ProofView, Refused>(p@) && r.1
                    == p@.nodes.len(),
                Err(e) => spec_decode(bytes@) == Err::<ProofView, Refused>(e@),
            },
            head(bytes@) is Err ==> r.1 == 0,
            head(bytes@) matches Ok(n) ==> r.1 <= n,
            head(bytes@) is Ok ==> copies(bytes@, r.1 as int),
    {
        let ghost b = bytes@;
        let count = match count_of(bytes) {
            Err(e) => return (Err(e), 0),
            Ok(n) => n,
        };
        let mut nodes: Vec<Vec<u8>> = Vec::new();
        let mut at: usize = 6;
        let mut i: usize = 0;
        assert(seqs::views(nodes@) =~= Seq::<Seq<u8>>::empty());
        while i < count
            invariant
                b == bytes@,
                i <= count < 65536,
                head(b) == Ok::<int, Refused>(count as int),
                nodes@.len() == i,
                at <= b.len(),
                take_nodes(b, i as nat) == Ok::<Taken, Refused>(
                    Taken { nodes: seqs::views(nodes@), at: at as int },
                ),
            decreases count - i,
        {
            let len = match len_at(bytes, at) {
                Err(e) => {
                    proof {
                        lemma_take_err(b, (i + 1) as nat, count as nat);
                    }
                    return (Err(e), i);
                },
                Ok(n) => n,
            };
            match room(bytes, at + 4, len) {
                Err(e) => {
                    proof {
                        lemma_take_err(b, (i + 1) as nat, count as nat);
                    }
                    return (Err(e), i);
                },
                Ok(()) => {},
            }
            let body = vstd::slice::slice_to_vec(
                vstd::slice::slice_subrange(bytes, at + 4, at + 4 + len),
            );
            let ghost before = seqs::views(nodes@);
            nodes.push(body);
            assert(seqs::views(nodes@) =~= before.push(body@));
            at = at + 4 + len;
            i = i + 1;
        }
        match room(bytes, at, 4) {
            Err(e) => return (Err(e), i),
            Ok(()) => {},
        }
        let vlen = seqs::u32_at(bytes, at);
        let mut value: Option<Vec<u8>> = None;
        let mut end: usize = at + 4;
        if vlen != 4294967295 {
            if vlen > 262144 {
                return (Err(ProofError::TooLarge("a value")), i);
            }
            match room(bytes, at + 4, vlen as usize) {
                Err(e) => return (Err(e), i),
                Ok(()) => {},
            }
            end = at + 4 + vlen as usize;
            value = Some(
                vstd::slice::slice_to_vec(vstd::slice::slice_subrange(bytes, at + 4, end)),
            );
        }
        if end != bytes.len() {
            return (Err(ProofError::Malformed("trailing bytes")), i);
        }
        (Ok(Proof { nodes, value }), i)
    }

    /// What this proof costs to send.
    pub fn bytes(&self) -> (n: usize)
        ensures
            n == spec_encode(self@).len(),
    {
        self.encode().len()
    }
}

/// Append a body after its length.
fn put_framed(out: &mut Vec<u8>, body: &[u8])
    ensures
        final(out)@ == old(out)@ + framed(body@),
{
    let ghost before = out@;
    let n = body.len() as u64;
    seqs::put_u32(out, (n % 4294967296) as u32);
    out.extend_from_slice(body);
    assert(out@ =~= before + framed(body@));
}

// ---------------------------------------------------------------------------
// questions
// ---------------------------------------------------------------------------

/// What is asked of a tree.
pub enum Question<'a> {
    /// What does this key hold?
    Key { root: &'a Cid, key: &'a [u8] },
    /// How much is in this range?
    Count { root: &'a Cid, range: &'a Range },
    /// What is on this page?
    Page { root: &'a Cid, range: &'a Range },
}

/// What is asked of a tree, as a mathematical value.
pub enum Asked {
    Key { root: Seq<u8>, key: Seq<u8> },
    Count { root: Seq<u8>, range: RangeView },
    Page { root: Seq<u8>, range: RangeView },
}

impl<'a> View for Question<'a> {
    type V = Asked;

    open spec fn view(&self) -> Asked {
        match *self {
            Question::Key { root, key } => Asked::Key { root: root@, key: key@ },
            Question::Count { root, range } => Asked::Count { root: root@, range: range@ },
            Question::Page { root, range } => Asked::Page { root: root@, range: range@ },
        }
    }
}

/// The page some blocks hold.
pub open spec fn page_in(m: BlockMap, root: Seq<u8>, r: RangeView) -> Result<PageView, Fault> {
    range::spec_page(m, root, r, range::Options { agg_bound: true, cap_leaf_bytes: true })
}

/// Do some blocks answer a question to its end?
pub open spec fn settled(m: BlockMap, q: Asked) -> bool {
    match q {
        Asked::Key { root, key } => tree::lookup(tree::items(m, root), key) is Ok,
        Asked::Count { root, range } => aggregate::spec_count(m, root, range, false) is Ok,
        Asked::Page { root, range } => page_in(m, root, range) matches Ok(p) && p.end
            != PageEnd::Blocked,
    }
}

/// What some blocks settle, more blocks settle too.
pub proof fn lemma_settled_stays(m: BlockMap, w: BlockMap, q: Asked)
    requires
        m.submap_of(w),
        settled(m, q),
    ensures
        settled(w, q),
{
    match q {
        Asked::Key { root, key } => grow::law_an_answer_stays(m, w, root, key),
        Asked::Count { root, range } => grow::law_a_count_stays(m, w, root, range, false),
        Asked::Page { root, range } => grow::law_a_page_stays(
            m,
            w,
            root,
            range,
            range::Options { agg_bound: true, cap_leaf_bytes: true },
        ),
    }
}

/// Do the blocks settle the question? A page is only asked for with an entry limit, and
/// a count only of a whole range.
fn settles<B: Blocks>(blocks: &B, q: &Question<'_>) -> (r: bool)
    requires
        q@ matches Asked::Page { range, .. } ==> range.max_entries > 0,
        q@ matches Asked::Count { range, .. } ==> aggregate::instruction(range) is None,
    ensures
        r == settled(blocks.held(), q@),
{
    match q {
        Question::Key { root, key } => read::get(blocks, root, key).is_ok(),
        Question::Count { root, range } => aggregate::aggregate(blocks, root, range).is_ok(),
        Question::Page { root, range: r } => match range(blocks, root, r) {
            Ok(p) => p.end != PageEnd::Blocked,
            Err(_) => false,
        },
    }
}

/// A source without one of its blocks.
struct Without<'a, B: Blocks> {
    inner: &'a B,
    skip: Cid,
}

impl<'a, B: Blocks> Blocks for Without<'a, B> {
    closed spec fn held(&self) -> BlockMap {
        self.inner.held().remove(self.skip@)
    }

    fn get(&self, cid: &Cid) -> (r: Option<&[u8]>) {
        if order::same(cid.as_slice(), self.skip.as_slice()) {
            None
        } else {
            self.inner.get(cid)
        }
    }
}

/// Do the blocks settle the question without this one?
pub(crate) fn settles_without<B: Blocks>(blocks: &B, cid: &Cid, q: &Question<'_>) -> (r: bool)
    requires
        q@ matches Asked::Page { range, .. } ==> range.max_entries > 0,
        q@ matches Asked::Count { range, .. } ==> aggregate::instruction(range) is None,
    ensures
        r == settled(blocks.held().remove(cid@), q@),
{
    let rest = Without { inner: blocks, skip: *cid };
    settles(&rest, q)
}

// ---------------------------------------------------------------------------
// verifying
// ---------------------------------------------------------------------------

/// The id of a body as a tree node.
pub open spec fn node_id(b: Seq<u8>) -> Seq<u8> {
    crate::spec_block_id(kind::TREE_NODE, b)
}

/// The root of a proof, from its first block only.
pub open spec fn first_node(nodes: Seq<Seq<u8>>, root: Seq<u8>) -> Result<NodeView, Refused> {
    if nodes.len() == 0 {
        Err(Refused::Incomplete)
    } else if node_id(nodes[0]) != root {
        Err(Refused::WrongRoot)
    } else {
        match node::parse_spec(nodes[0]) {
            Err(_) => Err(Refused::NotANode),
            Ok(n) => Ok(n),
        }
    }
}

/// Why a list of blocks is not the shape of a proof against `root`: one that reads at
/// most `per_level` blocks at each level holds no more than that, and the root.
pub open spec fn misshapen(nodes: Seq<Seq<u8>>, root: Seq<u8>, per_level: int) -> Option<Refused> {
    match first_node(nodes, root) {
        Err(e) => Some(e),
        Ok(n) => if nodes.len() > per_level * (n.level + 1) + 1 {
            Some(Refused::TooLarge("more blocks than the tree is tall"@))
        } else {
            None
        },
    }
}

/// Why a list of blocks is not the shape of a proof of a page of at most `entries`.
pub open spec fn misshapen_page(nodes: Seq<Seq<u8>>, root: Seq<u8>, entries: int) -> Option<
    Refused,
> {
    match first_node(nodes, root) {
        Err(e) => Some(e),
        Ok(n) => if nodes.len() > 2 * (n.level + 1) + entries {
            Some(Refused::TooLarge("more blocks than the page can need"@))
        } else {
            None
        },
    }
}

/// The store the first `n` blocks make, keyed by the ids their bytes have.
pub open spec fn gathered(nodes: Seq<Seq<u8>>, n: nat) -> Result<BlockMap, Refused>
    decreases n,
{
    if n == 0 {
        Ok(Map::empty())
    } else {
        match gathered(nodes, (n - 1) as nat) {
            Err(e) => Err(e),
            Ok(m) => {
                let b = nodes[n - 1];
                if node::parse_spec(b) is Err {
                    Err(Refused::NotANode)
                } else if m.contains_key(node_id(b)) {
                    Err(Refused::OutOfOrder)
                } else {
                    Ok(m.insert(node_id(b), b))
                }
            },
        }
    }
}

/// The first key of a node; nothing for the empty tree's root.
pub open spec fn opening(n: NodeView) -> Seq<u8> {
    if n.rows.len() == 0 {
        Seq::empty()
    } else {
        n.rows[0].key
    }
}

/// Does `b` come after `a` in the format's order: level descending, then first key
/// ascending?
pub open spec fn comes_after(a: NodeView, b: NodeView) -> bool {
    a.level > b.level || a.level == b.level && order::lt(opening(a), opening(b))
}

/// Does block `i + 1` come after block `i`?
pub open spec fn ordered_at(nodes: Seq<Seq<u8>>, i: int) -> bool {
    match (node::parse_spec(nodes[i]), node::parse_spec(nodes[i + 1])) {
        (Ok(a), Ok(b)) => comes_after(a, b),
        _ => false,
    }
}

/// Are the blocks in the format's order?
pub open spec fn in_order(nodes: Seq<Seq<u8>>) -> bool {
    forall|i: int| 0 <= i && i + 1 < nodes.len() ==> #[trigger] ordered_at(nodes, i)
}

/// Can no block of the list be left out?
pub open spec fn all_needed(nodes: Seq<Seq<u8>>, m: BlockMap, q: Asked) -> bool {
    forall|i: int|
        0 <= i < nodes.len() ==> !settled(m.remove(node_id(#[trigger] nodes[i])), q)
}

/// Why a list of blocks that answers a question is not the canonical one.
pub open spec fn uncanonical(nodes: Seq<Seq<u8>>, m: BlockMap, q: Asked) -> Option<Refused> {
    if !all_needed(nodes, m, q) {
        Some(Refused::Extra)
    } else if !in_order(nodes) {
        Some(Refused::OutOfOrder)
    } else {
        None
    }
}

/// What a read error makes of a proof.
pub open spec fn read_refusal(f: Fault) -> Refused {
    match f {
        Fault::Need(_) => Refused::Incomplete,
        Fault::Mismatch(c) => Refused::Mismatch(c),
        Fault::Corrupt(_, _) => Refused::NotANode,
    }
}

/// What a node says of a key on its own: nothing, unless it is a leaf.
pub open spec fn said_by(body: Seq<u8>, key: Seq<u8>) -> Option<Payload> {
    match node::parse_spec(body) {
        Err(_) => None,
        Ok(n) => if n.level > 0 {
            None
        } else if exists|i: int| 0 <= i < n.rows.len() && (#[trigger] n.rows[i]).key == key {
            Some(n.rows[choose|i: int| 0 <= i < n.rows.len() && (#[trigger] n.rows[i]).key == key].held)
        } else {
            None
        },
    }
}

/// What a key proof comes to once its blocks have answered `found`.
pub open spec fn with_trailer(found: Option<Payload>, value: Option<Seq<u8>>) -> Result<
    Option<Payload>,
    Refused,
> {
    match value {
        None => Ok(found),
        Some(v) => match found {
            Some(Payload::Ref { cid, len }) => if v.len() == len && crate::spec_block_id(
                kind::RAW,
                v,
            ) == cid {
                Ok(Some(Payload::Inline(v)))
            } else {
                Err(Refused::BadValue)
            },
            _ => Err(Refused::BadValue),
        },
    }
}

/// What a key proof says of a key under a root.
pub open spec fn spec_verify(root: Seq<u8>, key: Seq<u8>, p: ProofView) -> Result<
    Option<Payload>,
    Refused,
> {
    match misshapen(p.nodes, root, 1) {
        Some(e) => Err(e),
        None => match gathered(p.nodes, p.nodes.len()) {
            Err(e) => Err(e),
            Ok(m) => match tree::lookup(tree::items(m, root), key) {
                Err(f) => Err(read_refusal(f)),
                Ok(found) => match uncanonical(p.nodes, m, Asked::Key { root, key }) {
                    Some(e) => Err(e),
                    None => if said_by(p.nodes.last(), key) != found {
                        Err(Refused::OutOfOrder)
                    } else {
                        with_trailer(found, p.value)
                    },
                },
            },
        },
    }
}

/// What an aggregate proof says of a range under a root.
pub open spec fn spec_verify_aggregate(root: Seq<u8>, r: RangeView, p: ProofView) -> Result<
    Agg,
    Refused,
> {
    if p.value is Some {
        Err(Refused::Extra)
    } else {
        match misshapen(p.nodes, root, 2) {
            Some(e) => Err(e),
            None => match gathered(p.nodes, p.nodes.len()) {
                Err(e) => Err(e),
                Ok(m) => if aggregate::instruction(r) is Some {
                    Err(Refused::WrongRange)
                } else {
                    match aggregate::spec_count(m, root, r, false) {
                        Err(f) => Err(read_refusal(f)),
                        Ok(a) => match uncanonical(p.nodes, m, Asked::Count { root, range: r }) {
                            Some(e) => Err(e),
                            None => Ok(a),
                        },
                    }
                },
            },
        }
    }
}

/// The entries a page proof establishes, and where its span ends.
#[verifier::ext_equal]
pub struct PageClaim {
    pub entries: Seq<Row>,
    pub next: Option<Seq<u8>>,
}

/// What a page proof says of a range under a root.
pub open spec fn spec_verify_range(root: Seq<u8>, r: RangeView, p: ProofView) -> Result<
    PageClaim,
    Refused,
> {
    if p.value is Some {
        Err(Refused::Extra)
    } else if r.max_entries == 0 {
        Err(Refused::Unsupported("a page with no entry limit"@))
    } else if range::hopeless(r) {
        if p.nodes.len() > 0 {
            Err(Refused::Extra)
        } else {
            Ok(PageClaim { entries: Seq::empty(), next: None })
        }
    } else {
        match misshapen_page(p.nodes, root, r.max_entries as int) {
            Some(e) => Err(e),
            None => match gathered(p.nodes, p.nodes.len()) {
                Err(e) => Err(e),
                Ok(m) => match page_in(m, root, r) {
                    Err(f) => Err(read_refusal(f)),
                    Ok(page) => if page.end == PageEnd::Blocked {
                        Err(Refused::NotComplete)
                    } else {
                        match uncanonical(p.nodes, m, Asked::Page { root, range: r }) {
                            Some(e) => Err(e),
                            None => Ok(PageClaim { entries: page.entries, next: page.next }),
                        }
                    },
                },
            },
        }
    }
}

/// What a read error makes of a proof.
fn read_err(e: ReadError) -> (p: ProofError)
    ensures
        p@ == read_refusal(e@),
{
    match e {
        ReadError::Need(_) => ProofError::Incomplete,
        ReadError::Mismatch(c) => ProofError::Mismatch(c),
        ReadError::Corrupt(_, _) => ProofError::NotANode,
    }
}

/// The root's height, from the first block only.
fn node_height(proof: &Proof, root: &Cid) -> (r: Result<usize, ProofError>)
    ensures
        match r {
            Ok(h) => first_node(proof@.nodes, root@) matches Ok(n) && h == n.level + 1,
            Err(e) => first_node(proof@.nodes, root@) == Err::<NodeView, Refused>(e@),
        },
{
    if proof.nodes.len() == 0 {
        return Err(ProofError::Incomplete);
    }
    assert(proof@.nodes[0] == proof.nodes@[0]@);
    let first = proof.nodes[0].as_slice();
    if !order::same(block_id(kind::TREE_NODE, first).as_slice(), root.as_slice()) {
        return Err(ProofError::WrongRoot);
    }
    match Node::parse(first) {
        Err(_) => Err(ProofError::NotANode),
        Ok(n) => Ok(n.level() as usize + 1),
    }
}

/// Could this be a proof against `root` at all? One hash and one parse decide, whatever
/// else is in it.
fn shape(proof: &Proof, root: &Cid, per_level: usize) -> (r: Result<(), ProofError>)
    requires
        per_level <= 2,
    ensures
        match r {
            Ok(()) => misshapen(proof@.nodes, root@, per_level as int) is None,
            Err(e) => misshapen(proof@.nodes, root@, per_level as int) == Some(e@),
        },
{
    let height = match node_height(proof, root) {
        Err(e) => return Err(e),
        Ok(h) => h,
    };
    assert(per_level * height <= 2 * 256) by (nonlinear_arith)
        requires
            per_level <= 2,
            height <= 256,
    ;
    if proof.nodes.len() > per_level * height + 1 {
        return Err(ProofError::TooLarge("more blocks than the tree is tall"));
    }
    Ok(())
}

/// The shape of a page proof: the root's level bounds the two edge paths, the entry
/// limit bounds the leaves.
fn shape_page(proof: &Proof, root: &Cid, per_page: usize) -> (r: Result<(), ProofError>)
    ensures
        match r {
            Ok(()) => misshapen_page(proof@.nodes, root@, per_page as int) is None,
            Err(e) => misshapen_page(proof@.nodes, root@, per_page as int) == Some(e@),
        },
{
    let height = match node_height(proof, root) {
        Err(e) => return Err(e),
        Ok(h) => h,
    };
    let edges = 2 * height;
    if proof.nodes.len() > edges && proof.nodes.len() - edges > per_page {
        return Err(ProofError::TooLarge("more blocks than the page can need"));
    }
    Ok(())
}

/// Blocks that cannot be gathered stay so.
proof fn lemma_gathered_err(nodes: Seq<Seq<u8>>, k: nat, n: nat)
    requires
        k <= n,
        gathered(nodes, k) is Err,
    ensures
        gathered(nodes, n) == gathered(nodes, k),
    decreases n,
{
    if k < n {
        lemma_gathered_err(nodes, k, (n - 1) as nat);
    }
}

/// Are the first `n` blocks those that are hashed: all of them, or those up to the first
/// that cannot be gathered?
pub open spec fn hashes(nodes: Seq<Seq<u8>>, n: int) -> bool {
    &&& 0 <= n <= nodes.len()
    &&& match gathered(nodes, nodes.len()) {
        Ok(_) => n == nodes.len(),
        Err(_) => n > 0 && gathered(nodes, n as nat) is Err && gathered(nodes, (n - 1) as nat) is Ok,
    }
}

/// The store a proof's blocks make, and how many were hashed. Each is parsed here, so
/// one that is not a node is refused as such rather than read as missing.
fn gather(proof: &Proof) -> (r: (Result<MemBlocks, ProofError>, usize))
    ensures
        r.1 <= proof@.nodes.len(),
        hashes(proof@.nodes, r.1 as int),
        match r.0 {
            Ok(s) => gathered(proof@.nodes, proof@.nodes.len()) == Ok::<BlockMap, Refused>(
                s.held(),
            ) && r.1 == proof@.nodes.len(),
            Err(e) => gathered(proof@.nodes, proof@.nodes.len()) == Err::<BlockMap, Refused>(e@),
        },
{
    let ghost nodes = proof@.nodes;
    let mut s = MemBlocks::new();
    let mut i: usize = 0;
    while i < proof.nodes.len()
        invariant
            i <= proof.nodes@.len(),
            nodes == proof@.nodes,
            gathered(nodes, i as nat) == Ok::<BlockMap, Refused>(s.held()),
        decreases proof.nodes@.len() - i,
    {
        let body = proof.nodes[i].as_slice();
        assert(nodes[i as int] == body@);
        if Node::parse(body).is_err() {
            proof {
                lemma_gathered_err(nodes, (i + 1) as nat, nodes.len());
            }
            return (Err(ProofError::NotANode), i + 1);
        }
        let id = block_id(kind::TREE_NODE, body);
        if s.get(&id).is_some() {
            proof {
                lemma_gathered_err(nodes, (i + 1) as nat, nodes.len());
            }
            return (Err(ProofError::OutOfOrder), i + 1);
        }
        s.insert(id, body);
        i = i + 1;
    }
    (Ok(s), i)
}

/// Does `b` come after `a`?
fn ordered(a: &[u8], b: &[u8]) -> (r: bool)
    ensures
        r == (match (node::parse_spec(a@), node::parse_spec(b@)) {
            (Ok(x), Ok(y)) => comes_after(x, y),
            _ => false,
        }),
{
    match (Node::parse(a), Node::parse(b)) {
        (Ok(x), Ok(y)) => {
            if x.level() != y.level() {
                return x.level() > y.level();
            }
            order::before(first_key(&x).as_slice(), first_key(&y).as_slice())
        },
        _ => false,
    }
}

/// The first key of a node; nothing for the empty tree's root.
fn first_key(n: &Node<'_>) -> (k: Vec<u8>)
    ensures
        k@ == opening(n@),
{
    if n.is_empty() {
        Vec::new()
    } else {
        n.key(0)
    }
}

/// Is the list exactly the canonical one for this question? A block the answer does not
/// hang on, and a list out of order, are two different refusals.
fn check_canonical(proof: &Proof, s: &MemBlocks, q: &Question<'_>) -> (r: Result<(), ProofError>)
    requires
        q@ matches Asked::Page { range, .. } ==> range.max_entries > 0,
        q@ matches Asked::Count { range, .. } ==> aggregate::instruction(range) is None,
    ensures
        match r {
            Ok(()) => uncanonical(proof@.nodes, s.held(), q@) is None,
            Err(e) => uncanonical(proof@.nodes, s.held(), q@) == Some(e@),
        },
{
    let ghost nodes = proof@.nodes;
    let ghost m = s.held();
    let mut i: usize = 0;
    while i < proof.nodes.len()
        invariant
            i <= proof.nodes@.len(),
            nodes == proof@.nodes,
            m == s.held(),
            q@ matches Asked::Page { range, .. } ==> range.max_entries > 0,
            q@ matches Asked::Count { range, .. } ==> aggregate::instruction(range) is None,
            forall|j: int| 0 <= j < i ==> !settled(m.remove(node_id(#[trigger] nodes[j])), q@),
        decreases proof.nodes@.len() - i,
    {
        let body = proof.nodes[i].as_slice();
        assert(nodes[i as int] == body@);
        if settles_without(s, &block_id(kind::TREE_NODE, body), q) {
            return Err(ProofError::Extra);
        }
        i = i + 1;
    }
    assert(all_needed(nodes, m, q@));
    if !check_order(proof) {
        return Err(ProofError::OutOfOrder);
    }
    Ok(())
}

/// Are the blocks in the format's order?
fn check_order(proof: &Proof) -> (r: bool)
    ensures
        r == in_order(proof@.nodes),
{
    let ghost nodes = proof@.nodes;
    let mut j: usize = 1;
    while j < proof.nodes.len()
        invariant
            1 <= j,
            nodes == proof@.nodes,
            forall|k: int| 0 <= k && k + 1 < j && k + 1 < nodes.len() ==> #[trigger] ordered_at(
                nodes,
                k,
            ),
        decreases proof.nodes@.len() - j,
    {
        let a = proof.nodes[j - 1].as_slice();
        let b = proof.nodes[j].as_slice();
        assert(nodes[j - 1] == a@ && nodes[j as int] == b@);
        assert(nodes[(j - 1) + 1] == b@);
        let fine = ordered(a, b);
        assert(fine == ordered_at(nodes, j - 1));
        if !fine {
            return false;
        }
        j = j + 1;
    }
    true
}

/// What a proof cost to check.
#[derive(Clone, Copy, Debug, PartialEq, Eq)]
pub struct Work {
    /// Blocks parsed and hashed past the shape of the proof.
    pub hashed: usize,
    /// Node bodies copied out of wire bytes.
    pub copied: usize,
}

impl<'a> View for Proven<'a> {
    type V = Option<Payload>;

    open spec fn view(&self) -> Option<Payload> {
        match *self {
            Proven::Present(v) => Some(v@),
            Proven::Absent => None,
        }
    }
}

/// What the leaf in `body` holds under a key.
fn read_again<'a>(body: &'a [u8], key: &[u8]) -> (r: Option<Value<'a>>)
    ensures
        match r {
            None => said_by(body@, key@) is None,
            Some(v) => said_by(body@, key@) == Some(v@),
        },
{
    let n = match Node::parse(body) {
        Err(_) => return None,
        Ok(n) => n,
    };
    if !n.is_leaf() {
        return None;
    }
    match n.search(key) {
        Err(i) => {
            proof {
                assert forall|j: int| 0 <= j < n@.rows.len() implies (#[trigger] n@.rows[j]).key
                    != key@ by {
                    order::lemma_lt_irreflexive(key@);
                }
            }
            None
        },
        Ok(i) => {
            proof {
                let c = choose|j: int|
                    0 <= j < n@.rows.len() && (#[trigger] n@.rows[j]).key == key@;
                canon::law_parsed_bytes_are_the_encoding(body@);
                order::lemma_lt_irreflexive(key@);
                assert(n@.rows[c].key == key@ && n@.rows[i as int].key == key@);
                assert(node::sorted_rows(n@.rows));
            }
            Some(n.value(i))
        },
    }
}

/// Are two answers the same?
fn agree(a: &Option<Value<'_>>, b: &Option<Value<'_>>) -> (r: bool)
    ensures
        r == (match (*a, *b) {
            (None, None) => true,
            (Some(x), Some(y)) => x@ == y@,
            _ => false,
        }),
{
    match (a, b) {
        (None, None) => true,
        (Some(Value::Inline(x)), Some(Value::Inline(y))) => order::same(x, y),
        (Some(Value::Ref { cid, len }), Some(Value::Ref { cid: c, len: l })) => order::same(
            cid.as_slice(),
            c.as_slice(),
        ) && *len == *l,
        _ => false,
    }
}

/// Check a proof against a root, and say what it establishes about `key`.
///
/// The proof is only as good as the root: this says what is in the tree at `root`, and
/// nothing about whether `root` is the tree you should be looking at.
pub fn verify<'a>(root: &Cid, key: &[u8], proof: &'a Proof) -> (r: Result<Proven<'a>, ProofError>)
    ensures
        match r {
            Ok(p) => spec_verify(root@, key@, proof@) == Ok::<Option<Payload>, Refused>(p@),
            Err(e) => spec_verify(root@, key@, proof@) == Err::<Option<Payload>, Refused>(e@),
        },
{
    let (r, _) = verify_counted(root, key, proof);
    r
}

/// [`verify`], and how many of the proof's blocks it took in. A block is hashed once, when
/// it is taken in; a proof of an impossible shape has none taken in. Answering the
/// question, and showing that no block can be left out, read those blocks again by their
/// ids, and that is not counted.
pub fn verify_counted<'a>(root: &Cid, key: &[u8], proof: &'a Proof) -> (r: (
    Result<Proven<'a>, ProofError>,
    usize,
))
    ensures
        match r.0 {
            Ok(p) => spec_verify(root@, key@, proof@) == Ok::<Option<Payload>, Refused>(p@) && r.1
                == proof@.nodes.len(),
            Err(e) => spec_verify(root@, key@, proof@) == Err::<Option<Payload>, Refused>(e@),
        },
        misshapen(proof@.nodes, root@, 1) is Some ==> r.1 == 0,
        misshapen(proof@.nodes, root@, 1) is None ==> hashes(proof@.nodes, r.1 as int),
        r.1 <= proof@.nodes.len(),
{
    match shape(proof, root, 1) {
        Err(e) => return (Err(e), 0),
        Ok(()) => {},
    }
    let (s, hashed) = gather(proof);
    let s = match s {
        Err(e) => return (Err(e), hashed),
        Ok(s) => s,
    };
    let found = match read::get(&s, root, key) {
        Err(e) => return (Err(read_err(e)), hashed),
        Ok(f) => f,
    };
    match check_canonical(proof, &s, &Question::Key { root, key }) {
        Err(e) => return (Err(e), hashed),
        Ok(()) => {},
    }
    // The answer is the reader's. What is returned has to borrow the proof, so it is
    // read again from the last block of the path, and the two are compared.
    let last = proof.nodes[proof.nodes.len() - 1].as_slice();
    assert(proof@.nodes.last() == last@);
    let again = read_again(last, key);
    if !agree(&again, &found) {
        return (Err(ProofError::OutOfOrder), hashed);
    }
    match &proof.value {
        None => match again {
            None => (Ok(Proven::Absent), hashed),
            Some(v) => (Ok(Proven::Present(v)), hashed),
        },
        // A trailer is only meaningful for a value that lives in its own block.
        Some(v) => match again {
            Some(Value::Ref { cid, len }) => {
                if v.len() as u64 != len as u64 || !order::same(
                    block_id(kind::RAW, v.as_slice()).as_slice(),
                    cid.as_slice(),
                ) {
                    return (Err(ProofError::BadValue), hashed);
                }
                (Ok(Proven::Present(Value::Inline(v.as_slice()))), hashed)
            },
            _ => (Err(ProofError::BadValue), hashed),
        },
    }
}

/// Check an aggregate proof. What comes back is still a claim: the proof authenticates
/// the path and the arithmetic against this root, and no subtree was opened.
pub fn verify_aggregate(root: &Cid, r: &Range, proof: &Proof) -> (x: Result<Claimed, ProofError>)
    ensures
        match x {
            Ok(c) => spec_verify_aggregate(root@, r@, proof@) == Ok::<Agg, Refused>(c.value()),
            Err(e) => spec_verify_aggregate(root@, r@, proof@) == Err::<Agg, Refused>(e@),
        },
{
    if proof.value.is_some() {
        return Err(ProofError::Extra);
    }
    // An aggregate reads at most the two edge paths, so two blocks per level.
    match shape(proof, root, 2) {
        Err(e) => return Err(e),
        Ok(()) => {},
    }
    let (s, _) = gather(proof);
    let s = match s {
        Err(e) => return Err(e),
        Ok(s) => s,
    };
    let got = match aggregate::aggregate(&s, root, r) {
        Err(AggError::Read(e)) => return Err(read_err(e)),
        Err(AggError::NotWholeRange(_)) => return Err(ProofError::WrongRange),
        Ok(c) => c,
    };
    match check_canonical(proof, &s, &Question::Count { root, range: r }) {
        Err(e) => Err(e),
        Ok(()) => Ok(got),
    }
}

// ---------------------------------------------------------------------------
// page proofs: a listing is complete
// ---------------------------------------------------------------------------

/// A value as a proven page carries it: the bytes, or the reference the leaf holds. The
/// same two claims as [`Proven`].
#[derive(Clone, Debug, PartialEq, Eq)]
pub enum ProvenValue {
    Inline(Vec<u8>),
    Ref { cid: Cid, len: u32 },
}

impl View for ProvenValue {
    type V = Payload;

    open spec fn view(&self) -> Payload {
        match *self {
            ProvenValue::Inline(b) => Payload::Inline(b@),
            ProvenValue::Ref { cid, len } => Payload::Ref { cid: cid@, len },
        }
    }
}

/// A page a proof establishes, owned: the store that checked the blocks is dropped when
/// verification finishes.
#[derive(Clone, Debug, PartialEq, Eq)]
pub struct ProvenPage {
    pub entries: Vec<(Vec<u8>, ProvenValue)>,
    /// Where the proved span ends. The claim is about the entries from the start of the
    /// range up to here.
    pub next: Option<Vec<u8>>,
}

/// Proven entries as rows.
pub open spec fn proven_rows(v: Seq<(Vec<u8>, ProvenValue)>) -> Seq<Row> {
    v.map_values(|e: (Vec<u8>, ProvenValue)| Row { key: e.0@, held: e.1@ })
}

impl View for ProvenPage {
    type V = PageClaim;

    open spec fn view(&self) -> PageClaim {
        PageClaim {
            entries: proven_rows(self.entries@),
            next: match self.next {
                None => None,
                Some(k) => Some(k@),
            },
        }
    }
}

/// [`Proven`], owned: what [`verify_bytes`] answers.
#[derive(Clone, Debug, PartialEq, Eq)]
pub enum ProvenOwned {
    Present(ProvenValue),
    Absent,
}

impl View for ProvenOwned {
    type V = Option<Payload>;

    open spec fn view(&self) -> Option<Payload> {
        match *self {
            ProvenOwned::Present(v) => Some(v@),
            ProvenOwned::Absent => None,
        }
    }
}

/// A value of one's own.
fn own(v: &Value<'_>) -> (p: ProvenValue)
    ensures
        p@ == v@,
{
    match v {
        Value::Inline(b) => ProvenValue::Inline(vstd::slice::slice_to_vec(b)),
        Value::Ref { cid, len } => ProvenValue::Ref { cid: *cid, len: *len },
    }
}

/// The entry limit of a page. Only a finite one bounds what a proof of it can need, and
/// it has to be known before the proof is looked at.
fn bounded(r: &Range) -> (x: Result<usize, ProofError>)
    ensures
        match x {
            Ok(n) => n > 0 && n == r@.max_entries,
            Err(e) => r@.max_entries == 0 && e@ == Refused::Unsupported(
                "a page with no entry limit"@,
            ),
        },
{
    if r.max_entries == 0 {
        return Err(ProofError::Unsupported("a page with no entry limit"));
    }
    Ok(r.max_entries)
}

/// A page with nothing on it.
fn empty_page() -> (p: ProvenPage)
    ensures
        p@ == (PageClaim { entries: Seq::empty(), next: None }),
{
    let p = ProvenPage { entries: Vec::new(), next: None };
    assert(p@.entries =~= Seq::<Row>::empty());
    p
}

/// Check a page against a root, from the proof alone.
///
/// The claim is exactly: under this root, the entries of `r` from its start up to
/// `next` are these and no others. A continuation page proves its own span and says
/// nothing of the pages before it.
///
/// Completeness rests on how the page ended, never on `need` being empty. A question
/// whose bounds cannot hold a key is answered from the range alone, and its one proof
/// is the empty one.
pub fn verify_range(root: &Cid, r: &Range, proof: &Proof) -> (x: Result<ProvenPage, ProofError>)
    ensures
        match x {
            Ok(p) => spec_verify_range(root@, r@, proof@) == Ok::<PageClaim, Refused>(p@),
            Err(e) => spec_verify_range(root@, r@, proof@) == Err::<PageClaim, Refused>(e@),
        },
{
    let (x, _) = verify_range_counted(root, r, proof);
    x
}

/// [`verify_range`], and how many of the proof's blocks it took in. A block is hashed once,
/// when it is taken in; a question without an entry limit, one that no key can answer, and
/// a proof of an impossible shape have none taken in. Answering the question, and showing
/// that no block can be left out, read those blocks again by their ids, and that is not
/// counted.
pub fn verify_range_counted(root: &Cid, r: &Range, proof: &Proof) -> (x: (
    Result<ProvenPage, ProofError>,
    usize,
))
    ensures
        match x.0 {
            Ok(p) => spec_verify_range(root@, r@, proof@) == Ok::<PageClaim, Refused>(p@) && x.1
                == proof@.nodes.len(),
            Err(e) => spec_verify_range(root@, r@, proof@) == Err::<PageClaim, Refused>(e@),
        },
        r@.max_entries == 0 || range::hopeless(r@) || misshapen_page(
            proof@.nodes,
            root@,
            r@.max_entries as int,
        ) is Some ==> x.1 == 0,
        proof@.value is Some ==> x.1 == 0,
        proof@.value is None && r@.max_entries > 0 && !range::hopeless(r@) && misshapen_page(
            proof@.nodes,
            root@,
            r@.max_entries as int,
        ) is None ==> hashes(proof@.nodes, x.1 as int),
        x.1 <= proof@.nodes.len(),
{
    if proof.value.is_some() {
        return (Err(ProofError::Extra), 0);
    }
    let per_page = match bounded(r) {
        Err(e) => return (Err(e), 0),
        Ok(n) => n,
    };
    if bounds_are_empty(r) {
        if proof.nodes.len() > 0 {
            return (Err(ProofError::Extra), 0);
        }
        return (Ok(empty_page()), 0);
    }
    match shape_page(proof, root, per_page) {
        Err(e) => return (Err(e), 0),
        Ok(()) => {},
    }
    let (s, hashed) = gather(proof);
    let s = match s {
        Err(e) => return (Err(e), hashed),
        Ok(s) => s,
    };
    let page = match range(&s, root, r) {
        Err(RangeError::Read(e)) => return (Err(read_err(e)), hashed),
        Err(_) => return (Err(ProofError::Unsupported("this range")), hashed),
        Ok(p) => p,
    };
    if page.end == PageEnd::Blocked {
        return (Err(ProofError::NotComplete), hashed);
    }
    match check_canonical(proof, &s, &Question::Page { root, range: r }) {
        Err(e) => return (Err(e), hashed),
        Ok(()) => {},
    }
    let mut entries: Vec<(Vec<u8>, ProvenValue)> = Vec::new();
    let mut i: usize = 0;
    assert(proven_rows(entries@) =~= page@.entries.take(0));
    while i < page.entries.len()
        invariant
            i <= page.entries@.len(),
            proven_rows(entries@) == page@.entries.take(i as int),
            page@.entries == range::rows_of(page.entries@),
        decreases page.entries@.len() - i,
    {
        let ghost before = entries@;
        let e = &page.entries[i];
        entries.push((vstd::slice::slice_to_vec(e.0.as_slice()), own(&e.1)));
        assert(proven_rows(entries@) =~= proven_rows(before).push(page@.entries[i as int]));
        assert(proven_rows(entries@) =~= page@.entries.take(i + 1));
        i = i + 1;
    }
    let next = match &page.next {
        None => None,
        Some(k) => Some(vstd::slice::slice_to_vec(k.as_slice())),
    };
    let out = ProvenPage { entries, next };
    assert(out@.entries =~= page@.entries);
    (Ok(out), hashed)
}

// ---------------------------------------------------------------------------
// refusing without copying
// ---------------------------------------------------------------------------

/// Why wire bytes cannot be a proof against `root`, from the first block in place.
pub open spec fn misshapen_bytes(b: Seq<u8>, root: Seq<u8>, per_level: int, extra: int) -> Option<
    Refused,
> {
    match head(b) {
        Err(e) => Some(e),
        Ok(count) => match node_len(b, 6) {
            Err(e) => Some(e),
            Ok(len) => match short(b, 10, len) {
                Some(e) => Some(e),
                None => {
                    let first = b.subrange(10, 10 + len);
                    if node_id(first) != root {
                        Some(Refused::WrongRoot)
                    } else {
                        match node::parse_spec(first) {
                            Err(_) => Some(Refused::NotANode),
                            Ok(n) => if count > per_level * (n.level + 1) + extra + 1 {
                                Some(Refused::TooLarge("more blocks than the tree is tall"@))
                            } else {
                                None
                            },
                        }
                    }
                },
            },
        },
    }
}

/// The count of blocks that wire bytes claim, and the first of them, in place.
fn peek_first<'a>(bytes: &'a [u8]) -> (r: Result<(usize, &'a [u8]), ProofError>)
    ensures
        match r {
            Ok(c) => head(bytes@) == Ok::<int, Refused>(c.0 as int) && c.0 < 65536 && (node_len(
                bytes@,
                6,
            ) matches Ok(len) && short(bytes@, 10, len) is None && c.1@ == bytes@.subrange(
                10,
                10 + len,
            )),
            Err(e) => match head(bytes@) {
                Err(f) => f == e@,
                Ok(_) => match node_len(bytes@, 6) {
                    Err(f) => f == e@,
                    Ok(len) => short(bytes@, 10, len) == Some(e@),
                },
            },
        },
{
    let count = match count_of(bytes) {
        Err(e) => return Err(e),
        Ok(n) => n,
    };
    let len = match len_at(bytes, 6) {
        Err(e) => return Err(e),
        Ok(n) => n,
    };
    match room(bytes, 10, len) {
        Err(e) => return Err(e),
        Ok(()) => {},
    }
    Ok((count, vstd::slice::slice_subrange(bytes, 10, 10 + len)))
}

/// The shape of a proof, read out of its wire bytes without copying any of it, so the
/// price of refusing does not depend on what a stranger attached.
fn shape_of_bytes(bytes: &[u8], root: &Cid, per_level: usize, extra: usize) -> (r: Result<
    (),
    ProofError,
>)
    requires
        per_level <= 2,
    ensures
        match r {
            Ok(()) => misshapen_bytes(bytes@, root@, per_level as int, extra as int) is None,
            Err(e) => misshapen_bytes(bytes@, root@, per_level as int, extra as int) == Some(e@),
        },
{
    let (count, first) = match peek_first(bytes) {
        Err(e) => return Err(e),
        Ok(c) => c,
    };
    if !order::same(block_id(kind::TREE_NODE, first).as_slice(), root.as_slice()) {
        return Err(ProofError::WrongRoot);
    }
    let n = match Node::parse(first) {
        Err(_) => return Err(ProofError::NotANode),
        Ok(n) => n,
    };
    let height = n.level() as usize + 1;
    assert(per_level * height <= 2 * 256) by (nonlinear_arith)
        requires
            per_level <= 2,
            height <= 256,
    ;
    let edges = per_level * height + 1;
    if count > edges && count - edges > extra {
        return Err(ProofError::TooLarge("more blocks than the tree is tall"));
    }
    Ok(())
}

/// What wire bytes say of a key under a root.
pub open spec fn spec_verify_bytes(root: Seq<u8>, key: Seq<u8>, b: Seq<u8>) -> Result<
    Option<Payload>,
    Refused,
> {
    match misshapen_bytes(b, root, 1, 0) {
        Some(e) => Err(e),
        None => match spec_decode(b) {
            Err(e) => Err(e),
            Ok(p) => spec_verify(root, key, p),
        },
    }
}

/// What wire bytes say of a page under a root.
pub open spec fn spec_verify_range_bytes(root: Seq<u8>, r: RangeView, b: Seq<u8>) -> Result<
    PageClaim,
    Refused,
> {
    if r.max_entries == 0 {
        Err(Refused::Unsupported("a page with no entry limit"@))
    } else if range::hopeless(r) {
        if b != spec_encode(ProofView { nodes: Seq::empty(), value: None }) {
            Err(Refused::Extra)
        } else {
            Ok(PageClaim { entries: Seq::empty(), next: None })
        }
    } else {
        match misshapen_bytes(b, root, 2, r.max_entries as int) {
            Some(e) => Err(e),
            None => match spec_decode(b) {
                Err(e) => Err(e),
                Ok(p) => spec_verify_range(root, r, p),
            },
        }
    }
}

/// [`verify`] from the wire form, refusing an impossible proof before it is copied.
pub fn verify_bytes(root: &Cid, key: &[u8], bytes: &[u8]) -> (r: Result<ProvenOwned, ProofError>)
    ensures
        match r {
            Ok(p) => spec_verify_bytes(root@, key@, bytes@) == Ok::<Option<Payload>, Refused>(p@),
            Err(e) => spec_verify_bytes(root@, key@, bytes@) == Err::<Option<Payload>, Refused>(e@),
        },
{
    match shape_of_bytes(bytes, root, 1, 0) {
        Err(e) => return Err(e),
        Ok(()) => {},
    }
    let given = match Proof::decode(bytes) {
        Err(e) => return Err(e),
        Ok(p) => p,
    };
    match verify(root, key, &given) {
        Err(e) => Err(e),
        Ok(Proven::Absent) => Ok(ProvenOwned::Absent),
        Ok(Proven::Present(v)) => Ok(ProvenOwned::Present(own(&v))),
    }
}

/// [`verify_range`] from the wire form, refusing before copying.
pub fn verify_range_bytes(root: &Cid, r: &Range, bytes: &[u8]) -> (x: Result<
    ProvenPage,
    ProofError,
>)
    ensures
        match x {
            Ok(p) => spec_verify_range_bytes(root@, r@, bytes@) == Ok::<PageClaim, Refused>(p@),
            Err(e) => spec_verify_range_bytes(root@, r@, bytes@) == Err::<PageClaim, Refused>(e@),
        },
{
    let (x, _) = verify_range_bytes_counted(root, r, bytes);
    x
}

/// [`verify_range_bytes`], and what it cost. Bytes of an impossible shape are neither
/// copied nor hashed.
pub fn verify_range_bytes_counted(root: &Cid, r: &Range, bytes: &[u8]) -> (x: (
    Result<ProvenPage, ProofError>,
    Work,
))
    ensures
        match x.0 {
            Ok(p) => spec_verify_range_bytes(root@, r@, bytes@) == Ok::<PageClaim, Refused>(p@),
            Err(e) => spec_verify_range_bytes(root@, r@, bytes@) == Err::<PageClaim, Refused>(e@),
        },
        r@.max_entries == 0 || range::hopeless(r@) || misshapen_bytes(
            bytes@,
            root@,
            2,
            r@.max_entries as int,
        ) is Some ==> x.1.hashed == 0 && x.1.copied == 0,
        r@.max_entries > 0 && !range::hopeless(r@) && misshapen_bytes(
            bytes@,
            root@,
            2,
            r@.max_entries as int,
        ) is None ==> copies(bytes@, x.1.copied as int) && match spec_decode(bytes@) {
            Err(_) => x.1.hashed == 0,
            Ok(p) => if p.value is None && misshapen_page(
                p.nodes,
                root@,
                r@.max_entries as int,
            ) is None {
                hashes(p.nodes, x.1.hashed as int)
            } else {
                x.1.hashed == 0
            },
        },
{
    let none = Work { hashed: 0, copied: 0 };
    let per_page = match bounded(r) {
        Err(e) => return (Err(e), none),
        Ok(n) => n,
    };
    // Before the shape, which reads the root's level out of a first block that the
    // empty proof does not have.
    if bounds_are_empty(r) {
        if !order::same(bytes, Proof::default().encode().as_slice()) {
            return (Err(ProofError::Extra), none);
        }
        return (Ok(empty_page()), none);
    }
    match shape_of_bytes(bytes, root, 2, per_page) {
        Err(e) => return (Err(e), none),
        Ok(()) => {},
    }
    let (decoded, copied) = Proof::decode_counted(bytes);
    let given = match decoded {
        Err(e) => return (Err(e), Work { hashed: 0, copied }),
        Ok(p) => p,
    };
    let (x, hashed) = verify_range_counted(root, r, &given);
    (x, Work { hashed, copied })
}

// ---------------------------------------------------------------------------
// proving
// ---------------------------------------------------------------------------

/// Are `nodes` bodies out of a store that settle a question, none to spare, each once
/// and in the format's order?
pub open spec fn proves(m: BlockMap, q: Asked, nodes: Seq<Seq<u8>>) -> bool {
    exists|ids: Seq<Seq<u8>>| #[trigger] pick::picked(m, q, ids, nodes)
}

/// The path a read of `key` takes, as a proof. The proof holds what the read needed and
/// nothing else, and says nothing of the bytes behind a referenced value.
pub fn prove<B: Blocks>(blocks: &B, root: &Cid, key: &[u8]) -> (r: Result<Proof, ReadError>)
    ensures
        ({
            let found = tree::lookup(tree::items(blocks.held(), root@), key@);
            match r {
                Ok(p) => found is Ok && p@.value is None && proves(
                    blocks.held(),
                    Asked::Key { root: root@, key: key@ },
                    p@.nodes,
                ),
                Err(e) => found == Err::<Option<Payload>, Fault>(e@),
            }
        }),
{
    match read::get(blocks, root, key) {
        Err(e) => Err(e),
        Ok(_) => Ok(
            Proof { nodes: pick::pick(blocks, root, &Question::Key { root, key }), value: None },
        ),
    }
}

/// [`prove`], carrying the value's bytes when they live in their own block.
pub fn prove_with_value<B: Blocks>(blocks: &B, root: &Cid, key: &[u8]) -> (r: Result<
    Proof,
    ReadError,
>)
    ensures
        ({
            let m = blocks.held();
            let found = tree::lookup(tree::items(m, root@), key@);
            match r {
                Ok(p) => {
                    &&& found is Ok
                    &&& proves(m, Asked::Key { root: root@, key: key@ }, p@.nodes)
                    &&& match found->Ok_0 {
                        Some(Payload::Ref { cid, .. }) => m.contains_key(cid) && p@.value == Some(
                            m[cid],
                        ),
                        _ => p@.value is None,
                    }
                },
                Err(e) => found == Err::<Option<Payload>, Fault>(e@) || (found matches Ok(
                    Some(Payload::Ref { cid, .. }),
                ) && !m.contains_key(cid) && e@ == Fault::Need(seq![cid])),
            }
        }),
{
    let mut p = match prove(blocks, root, key) {
        Err(e) => return Err(e),
        Ok(p) => p,
    };
    match read::get(blocks, root, key) {
        Err(e) => return Err(e),
        Ok(Some(Value::Ref { cid, .. })) => match blocks.get(&cid) {
            None => return Err(store::need_one(&cid)),
            Some(b) => {
                p.value = Some(vstd::slice::slice_to_vec(b));
            },
        },
        Ok(_) => {},
    }
    Ok(p)
}

/// The blocks an aggregate query reads, in the format's order. Their bytes depend on the
/// question alone, not on the order the query walks in.
pub fn prove_aggregate<B: Blocks>(blocks: &B, root: &Cid, r: &Range) -> (x: Result<Proof, AggError>)
    ensures
        ({
            let count = aggregate::spec_count(blocks.held(), root@, r@, false);
            match x {
                Ok(p) => aggregate::instruction(r@) is None && count is Ok && p@.value is None
                    && proves(
                    blocks.held(),
                    Asked::Count { root: root@, range: r@ },
                    p@.nodes,
                ),
                Err(AggError::NotWholeRange(s)) => aggregate::instruction(r@) == Some(s@),
                Err(AggError::Read(e)) => aggregate::instruction(r@) is None && count == Err::<
                    Agg,
                    Fault,
                >(e@),
            }
        }),
{
    match aggregate::aggregate(blocks, root, r) {
        Err(e) => Err(e),
        Ok(_) => Ok(
            Proof {
                nodes: pick::pick(blocks, root, &Question::Count { root, range: r }),
                value: None,
            },
        ),
    }
}

/// The blocks a page needs, in the format's order. A page without an entry limit cannot
/// be proved, and a prover that cannot complete the page refuses.
pub fn prove_range<B: Blocks>(blocks: &B, root: &Cid, r: &Range) -> (x: Result<Proof, ProofError>)
    ensures
        ({
            let page = page_in(blocks.held(), root@, r@);
            match x {
                Ok(p) => r@.max_entries > 0 && p@.value is None && (page matches Ok(v) && v.end
                    != PageEnd::Blocked) && proves(
                    blocks.held(),
                    Asked::Page { root: root@, range: r@ },
                    p@.nodes,
                ),
                Err(e) => if r@.max_entries == 0 {
                    e@ == Refused::Unsupported("a page with no entry limit"@)
                } else {
                    match page {
                        Err(f) => e@ == read_refusal(f),
                        Ok(v) => v.end == PageEnd::Blocked && e@ == Refused::Incomplete,
                    }
                },
            }
        }),
{
    match bounded(r) {
        Err(e) => return Err(e),
        Ok(_) => {},
    }
    match range(blocks, root, r) {
        Err(RangeError::Read(e)) => Err(read_err(e)),
        Err(_) => Err(ProofError::Unsupported("this range")),
        Ok(page) => {
            if page.end == PageEnd::Blocked {
                return Err(ProofError::Incomplete);
            }
            Ok(
                Proof {
                    nodes: pick::pick(blocks, root, &Question::Page { root, range: r }),
                    value: None,
                },
            )
        },
    }
}

// ---------------------------------------------------------------------------
// laws
// ---------------------------------------------------------------------------

/// A proof that the wire form can hold.
pub open spec fn sendable(p: ProofView) -> bool {
    &&& p.nodes.len() < 65536
    &&& forall|i: int| 0 <= i < p.nodes.len() ==> (#[trigger] p.nodes[i]).len() <= MAX_NODE
    &&& p.value matches Some(v) ==> v.len() <= MAX_VALUE
    &&& spec_encode(p).len() <= usize::MAX
}

/// Bodies read out of a longer input.
proof fn lemma_take_framed(nodes: Seq<Seq<u8>>, b: Seq<u8>, n: nat)
    requires
        n <= nodes.len(),
        forall|i: int| 0 <= i < nodes.len() ==> (#[trigger] nodes[i]).len() <= MAX_NODE,
        6 + framed_all(nodes, n).len() <= b.len() <= usize::MAX,
        b.subrange(6, 6 + framed_all(nodes, n).len() as int) == framed_all(nodes, n),
    ensures
        take_nodes(b, n) == Ok::<Taken, Refused>(
            Taken { nodes: nodes.take(n as int), at: 6 + framed_all(nodes, n).len() as int },
        ),
    decreases n,
{
    let all = framed_all(nodes, n);
    if n == 0 {
        assert(nodes.take(0) =~= Seq::<Seq<u8>>::empty());
    } else {
        let k = (n - 1) as nat;
        let front = framed_all(nodes, k);
        let body = nodes[n - 1];
        let at = 6 + front.len() as int;
        assert(framed(body).len() == 4 + body.len());
        assert(all == front + framed(body));
        assert(b.subrange(6, 6 + front.len() as int) =~= all.subrange(0, front.len() as int));
        assert(all.subrange(0, front.len() as int) =~= front);
        lemma_take_framed(nodes, b, k);
        let w = b.subrange(6, 6 + all.len() as int);
        let v = b.subrange(at, at + 4 + body.len());
        assert forall|i: int| 0 <= i < 4 + body.len() implies v[i] == framed(body)[i] by {
            assert(w[front.len() + i] == b[at + i]);
        }
        assert(v =~= framed(body));
        let len = seqs::to_le32(body.len() as int);
        assert(body.len() % 4294967296 == body.len());
        seqs::lemma_le32(body.len() as int);
        assert(seqs::le32(b, at) == body.len()) by {
            assert(b.subrange(at, at + 4) =~= v.subrange(0, 4));
            assert(v.subrange(0, 4) =~= len.subrange(0, 4));
            seqs::lemma_le_window(b, at, len, 0, 4);
        }
        assert(b.subrange(at + 4, at + 4 + body.len()) =~= v.subrange(4, v.len() as int));
        assert(v.subrange(4, v.len() as int) =~= body);
        assert(nodes.take(n as int) =~= nodes.take(k as int).push(body));
    }
}

/// Decoding gives back what was encoded.
#[verifier::rlimit(60)]
#[verifier::spinoff_prover]
pub proof fn law_decoding_undoes_encoding(p: ProofView)
    requires
        sendable(p),
    ensures
        spec_decode(spec_encode(p)) == Ok::<ProofView, Refused>(p),
{
    let b = spec_encode(p);
    let n = p.nodes.len();
    let all = framed_all(p.nodes, n);
    let tail = trailer(p.value);
    assert(MAGIC@.len() == 4);
    assert(b.subrange(0, 4) =~= MAGIC@);
    let count = seqs::to_le16(n as int);
    assert(n % 65536 == n);
    seqs::lemma_le16(n as int);
    assert(seqs::le16(b, 4) == n) by {
        assert(b.subrange(4, 6) =~= count.subrange(0, 2));
        seqs::lemma_le_window(b, 4, count, 0, 2);
    }
    assert(b.subrange(6, 6 + all.len() as int) =~= all);
    lemma_take_framed(p.nodes, b, n);
    assert(p.nodes.take(n as int) =~= p.nodes);
    let at = 6 + all.len() as int;
    assert(b.subrange(at, at + tail.len()) =~= tail);
    match p.value {
        None => {
            seqs::lemma_le32(4294967295);
            assert(tail.len() == 4);
            assert(b.subrange(at, at + 4) =~= tail.subrange(0, 4));
            seqs::lemma_le_window(b, at, tail, 0, 4);
        },
        Some(v) => {
            let len = seqs::to_le32(v.len() as int);
            assert(v.len() % 4294967296 == v.len());
            seqs::lemma_le32(v.len() as int);
            assert(tail =~= len + v);
            assert(b.subrange(at, at + 4) =~= tail.subrange(0, 4));
            assert(tail.subrange(0, 4) =~= len.subrange(0, 4));
            seqs::lemma_le_window(b, at, len, 0, 4);
            assert(b.subrange(at + 4, at + 4 + v.len()) =~= tail.subrange(4, 4 + v.len() as int));
            assert(tail.subrange(4, 4 + v.len() as int) =~= v);
        },
    }
}

/// Does a store hold the blocks of a list, each under its id?
pub open spec fn holds_nodes(w: BlockMap, nodes: Seq<Seq<u8>>) -> bool {
    forall|i: int|
        0 <= i < nodes.len() ==> w.contains_key(node_id(#[trigger] nodes[i])) && w[node_id(
            nodes[i],
        )] == nodes[i]
}

/// What blocks make is in every store that holds them.
proof fn lemma_gathered_within(w: BlockMap, nodes: Seq<Seq<u8>>, n: nat)
    requires
        n <= nodes.len(),
        holds_nodes(w, nodes),
    ensures
        gathered(nodes, n) matches Ok(m) ==> m.submap_of(w),
    decreases n,
{
    if n > 0 {
        lemma_gathered_within(w, nodes, (n - 1) as nat);
        if let Ok(m) = gathered(nodes, n) {
            let was = gathered(nodes, (n - 1) as nat)->Ok_0;
            let b = nodes[n - 1];
            assert forall|k: Seq<u8>| #[trigger] m.dom().contains(k) implies w.dom().contains(k)
                && m[k] == w[k] by {
                if k != node_id(b) {
                    assert(was.dom().contains(k));
                }
            }
        }
    }
}

/// A key proof tells the truth: whatever tree has the root and the blocks of the proof,
/// a read of the key there gives what the proof says, the carried value standing for the
/// reference to it.
pub proof fn law_a_proven_answer_is_the_trees(
    w: BlockMap,
    root: Seq<u8>,
    key: Seq<u8>,
    p: ProofView,
)
    requires
        spec_verify(root, key, p) is Ok,
        holds_nodes(w, p.nodes),
    ensures
        ({
            let found = tree::lookup(tree::items(w, root), key);
            &&& found is Ok
            &&& spec_verify(root, key, p) == with_trailer(found->Ok_0, p.value)
        }),
{
    let m = gathered(p.nodes, p.nodes.len())->Ok_0;
    lemma_gathered_within(w, p.nodes, p.nodes.len());
    grow::law_an_answer_stays(m, w, root, key);
}

/// An aggregate proof tells the truth: whatever tree has the root and the blocks of the
/// proof, the aggregates there come to what the proof says.
pub proof fn law_a_proven_count_is_the_trees(w: BlockMap, root: Seq<u8>, r: RangeView, p: ProofView)
    requires
        spec_verify_aggregate(root, r, p) is Ok,
        holds_nodes(w, p.nodes),
    ensures
        aggregate::spec_count(w, root, r, false) == Ok::<Agg, Fault>(
            spec_verify_aggregate(root, r, p)->Ok_0,
        ),
{
    let m = gathered(p.nodes, p.nodes.len())->Ok_0;
    lemma_gathered_within(w, p.nodes, p.nodes.len());
    grow::law_a_count_stays(m, w, root, r, false);
}

/// A page proof tells the truth: whatever tree has the root and the blocks of the proof,
/// the page there is complete, and holds the entries that the proof says and no others.
pub proof fn law_a_proven_page_is_the_trees(w: BlockMap, root: Seq<u8>, r: RangeView, p: ProofView)
    requires
        spec_verify_range(root, r, p) is Ok,
        holds_nodes(w, p.nodes),
    ensures
        ({
            let claim = spec_verify_range(root, r, p)->Ok_0;
            page_in(w, root, r) matches Ok(page) && page.end != PageEnd::Blocked && page.entries
                == claim.entries && page.next == claim.next
        }),
{
    if !range::hopeless(r) {
        let m = gathered(p.nodes, p.nodes.len())->Ok_0;
        lemma_gathered_within(w, p.nodes, p.nodes.len());
        grow::law_a_page_stays(
            m,
            w,
            root,
            r,
            range::Options { agg_bound: true, cap_leaf_bytes: true },
        );
    }
}

} // verus!
