//! `PACK`: a set of blocks carried together.
//!
//! A pack is not a layout. No pointer anywhere names a place in a pack: it is a
//! transport, and the blocks inside it are the same blocks with the same ids.
//!
//! ```text
//! body   = "PK01" || count:u16 || member*
//! member = kind:u8 || len:u32 || bytes
//! ```
//!
//! Members are strictly ascending by their own block id, which states "a set of
//! blocks" directly: the id is a block's identity, so ordering by it forbids
//! duplicates and gives one encoding per set. Two writers packing the same blocks
//! produce the same pack.
//!
//! Which kinds may ride in a pack, what makes a body a valid block of its kind, and
//! each kind's ceiling are not the format's to decide. They arrive through
//! [`Policy`].

use crate::order;
use crate::seqs;
use crate::{block_id, Cid};
use vstd::prelude::*;

verus! {

/// Magic for the pack body.
pub const MAGIC: [u8; 4] = [0x50, 0x4b, 0x30, 0x31];

/// The ceiling on a pack's body. A ceiling, not a target.
pub const MAX_PACK: usize = 1048576;

/// The smallest a member can be: a kind byte, a length, and an empty body.
pub const MIN_MEMBER: usize = 5;

/// `MAGIC || count:u16`.
pub const HEADER: usize = 6;

/// What is decided about a member outside the format.
///
/// The three questions are answered at three points of the walk: `packable` and
/// `max_body` are decided from a kind byte and a length field, before any byte of
/// the member is read; `well_formed` costs real work and runs last.
pub trait Policy {
    /// What [`Policy::packable`] answers.
    spec fn spec_packable(&self, kind: u8) -> bool;

    /// What [`Policy::max_body`] answers.
    spec fn spec_max_body(&self, kind: u8) -> usize;

    /// What [`Policy::well_formed`] answers.
    spec fn spec_well_formed(&self, kind: u8, body: Seq<u8>) -> bool;

    /// May this kind ride in a pack? Decided from the kind byte alone.
    fn packable(&self, kind: u8) -> (r: bool)
        ensures
            r == self.spec_packable(kind),
    ;

    /// The largest body this kind may have. Compared against the length field.
    fn max_body(&self, kind: u8) -> (n: usize)
        ensures
            n == self.spec_max_body(kind),
    ;

    /// Is this a well-formed block of that kind? The expensive question.
    fn well_formed(&self, kind: u8, body: &[u8]) -> (r: bool)
        ensures
            r == self.spec_well_formed(kind, body@),
    ;
}

/// The format and nothing else: every kind rides, every body is well formed, and
/// the only ceiling is the format's own. This is what [`members`] walks with.
pub struct FormatOnly;

impl Policy for FormatOnly {
    open spec fn spec_packable(&self, kind: u8) -> bool {
        true
    }

    open spec fn spec_max_body(&self, kind: u8) -> usize {
        MAX_PACK
    }

    open spec fn spec_well_formed(&self, kind: u8, body: Seq<u8>) -> bool {
        true
    }

    fn packable(&self, kind: u8) -> (r: bool) {
        true
    }

    fn max_body(&self, kind: u8) -> (n: usize) {
        MAX_PACK
    }

    fn well_formed(&self, kind: u8, body: &[u8]) -> (r: bool) {
        true
    }
}

/// A member, as it sits in the body.
#[derive(Clone, Copy, Debug, PartialEq, Eq)]
pub struct Member<'a> {
    pub kind: u8,
    pub body: &'a [u8],
    /// `BLAKE3(kind || body)`.
    pub id: Cid,
}

/// A member, as a mathematical value.
#[verifier::ext_equal]
pub struct Found {
    pub kind: u8,
    pub body: Seq<u8>,
    pub id: Seq<u8>,
}

impl<'a> View for Member<'a> {
    type V = Found;

    open spec fn view(&self) -> Found {
        Found { kind: self.kind, body: self.body@, id: self.id@ }
    }
}

/// Members as mathematical values.
pub open spec fn found(v: Seq<Member<'_>>) -> Seq<Found> {
    v.map_values(|m: Member<'_>| m@)
}

/// Why a body is not a pack.
#[derive(Clone, Copy, Debug, PartialEq, Eq, Structural)]
pub enum PackError {
    /// Shorter than the header, or the magic is not `PK01`.
    NotAPack,
    /// A pack of nothing is not a pack.
    Empty,
    /// The declared count cannot fit in what follows, at [`MIN_MEMBER`] each.
    CountDoesNotFit { count: usize, have: usize },
    /// A member ran off the end of the body.
    Truncated { member: usize },
    /// The policy refuses this kind in a pack.
    KindNotPackable { member: usize, kind: u8 },
    /// The length field is above what the policy allows that kind.
    MemberTooLong { member: usize, len: usize, max: usize },
    /// Members must strictly ascend by block id: this one did not.
    OutOfOrder { member: usize },
    /// The policy refuses this member as a block of its kind.
    MemberNotWellFormed { member: usize, kind: u8 },
    /// The lengths did not tile the body: trailing bytes are a second encoding of
    /// the same set.
    TrailingBytes { left: usize },
}

/// Why a set of members cannot be made into a pack.
#[derive(Clone, Copy, Debug, PartialEq, Eq, Structural)]
pub enum BuildError {
    /// A pack of nothing is not a pack.
    Empty,
    /// More members than the u16 count can express.
    TooManyMembers(usize),
    /// A member longer than the u32 length field can express.
    MemberTooLong(usize),
    /// The body would exceed [`MAX_PACK`].
    TooLarge(usize),
}

// ---------------------------------------------------------------------------
// what walking a pack does
// ---------------------------------------------------------------------------

/// The outcome of a walk, and what it cost: member ids hashed, and member bodies
/// handed to the policy.
#[verifier::ext_equal]
pub struct Walk {
    pub result: Result<Seq<Found>, PackError>,
    pub ids: int,
    pub bodies: int,
}

/// A walk that ends here, with nothing more paid.
pub open spec fn stopped(e: PackError, ids: int, bodies: int) -> Walk {
    Walk { result: Err(e), ids, bodies }
}

/// The walk from member `i`, which starts at `at`, after the member `prev`.
pub open spec fn walk_from<P: Policy>(
    policy: &P,
    body: Seq<u8>,
    count: int,
    i: int,
    at: int,
    prev: Option<Seq<u8>>,
) -> Walk
    decreases count - i,
{
    let member = i as usize;
    if i >= count {
        if at < body.len() {
            stopped(PackError::TrailingBytes { left: (body.len() - at) as usize }, 0, 0)
        } else {
            Walk { result: Ok(Seq::empty()), ids: 0, bodies: 0 }
        }
    } else if body.len() - at < MIN_MEMBER {
        stopped(PackError::Truncated { member }, 0, 0)
    } else {
        let kind = body[at];
        let len = seqs::le32(body, at + 1);
        let max = policy.spec_max_body(kind);
        if !policy.spec_packable(kind) {
            stopped(PackError::KindNotPackable { member, kind }, 0, 0)
        } else if len > max {
            stopped(PackError::MemberTooLong { member, len: len as usize, max }, 0, 0)
        } else if body.len() - at - MIN_MEMBER < len {
            stopped(PackError::Truncated { member }, 0, 0)
        } else {
            let end = at + MIN_MEMBER + len;
            let bytes = body.subrange(at + MIN_MEMBER, end);
            let id = crate::spec_block_id(kind, bytes);
            if prev is Some && !order::lt(prev->Some_0, id) {
                stopped(PackError::OutOfOrder { member }, 1, 0)
            } else if !policy.spec_well_formed(kind, bytes) {
                stopped(PackError::MemberNotWellFormed { member, kind }, 1, 1)
            } else {
                let rest = walk_from(policy, body, count, i + 1, end, Some(id));
                Walk {
                    result: match rest.result {
                        Ok(ms) => Ok(seq![Found { kind, body: bytes, id }] + ms),
                        Err(e) => Err(e),
                    },
                    ids: 1 + rest.ids,
                    bodies: 1 + rest.bodies,
                }
            }
        }
    }
}

/// The walk of a body: everything decidable from lengths and kind bytes comes
/// before anything that costs work.
pub open spec fn spec_walk<P: Policy>(policy: &P, body: Seq<u8>) -> Walk {
    if body.len() < HEADER || !(body[0] == 0x50 && body[1] == 0x4b && body[2] == 0x30 && body[3]
        == 0x31) {
        stopped(PackError::NotAPack, 0, 0)
    } else {
        let count = seqs::le16(body, 4);
        let have = body.len() - HEADER;
        if count == 0 {
            stopped(PackError::Empty, 0, 0)
        } else if count * MIN_MEMBER > have {
            stopped(
                PackError::CountDoesNotFit { count: count as usize, have: have as usize },
                0,
                0,
            )
        } else {
            walk_from(policy, body, count, 0, HEADER as int, None)
        }
    }
}

/// A verdict without the members.
pub open spec fn verdict(r: Result<Seq<Found>, PackError>) -> Result<(), PackError> {
    match r {
        Ok(_) => Ok(()),
        Err(e) => Err(e),
    }
}

/// Where a walk that has gone part of the way ends up.
spec fn resumed(done: Seq<Found>, rest: Walk, ids: int, bodies: int) -> Walk {
    Walk {
        result: match rest.result {
            Ok(ms) => Ok(done + ms),
            Err(e) => Err(e),
        },
        ids: ids + rest.ids,
        bodies: bodies + rest.bodies,
    }
}

/// What a walk found, and what it cost.
struct Walked<'a> {
    result: Result<Vec<Member<'a>>, PackError>,
    ids: usize,
    bodies: usize,
}

impl<'a> Walked<'a> {
    spec fn is(self, w: Walk) -> bool {
        &&& self.ids == w.ids
        &&& self.bodies == w.bodies
        &&& match self.result {
            Ok(ms) => w.result == Ok::<Seq<Found>, PackError>(found(ms@)),
            Err(e) => w.result == Err::<Seq<Found>, PackError>(e),
        }
    }
}

fn refused<'a>(e: PackError, ids: usize, bodies: usize) -> (w: Walked<'a>)
    ensures
        w.is(stopped(e, ids as int, bodies as int)),
{
    Walked { result: Err(e), ids, bodies }
}

/// One walk, used by every door, so two doors cannot disagree about the format.
fn walk<'a, P: Policy>(body: &'a [u8], policy: &P) -> (w: Walked<'a>)
    ensures
        w.is(spec_walk(policy, body@)),
{
    let size = body.len();
    if size < HEADER || body[0] != 0x50 || body[1] != 0x4b || body[2] != 0x30 || body[3] != 0x31 {
        return refused(PackError::NotAPack, 0, 0);
    }
    let count = seqs::u16_at(body, 4);
    if count == 0 {
        return refused(PackError::Empty, 0, 0);
    }
    // Decided from two lengths: a declared count buys nothing.
    if count * MIN_MEMBER > size - HEADER {
        return refused(PackError::CountDoesNotFit { count, have: size - HEADER }, 0, 0);
    }
    let mut out: Vec<Member<'a>> = Vec::new();
    let mut prev: Option<Cid> = None;
    let mut at: usize = HEADER;
    let mut i: usize = 0;
    let ghost whole = walk_from(policy, body@, count as int, 0, HEADER as int, None);
    assert(found(out@) =~= Seq::<Found>::empty());
    assert(whole == resumed(found(out@), whole, 0, 0)) by {
        if let Ok(ms) = whole.result {
            assert(found(out@) + ms =~= ms);
        }
    }
    while i < count
        invariant
            size == body@.len(),
            i <= count < 65536,
            at <= size,
            whole == spec_walk(policy, body@),
            whole == resumed(
                found(out@),
                walk_from(
                    policy,
                    body@,
                    count as int,
                    i as int,
                    at as int,
                    match prev {
                        Some(p) => Some(p@),
                        None => None,
                    },
                ),
                i as int,
                i as int,
            ),
        decreases count - i,
    {
        if size - at < MIN_MEMBER {
            return refused(PackError::Truncated { member: i }, i, i);
        }
        let kind = body[at];
        if !policy.packable(kind) {
            return refused(PackError::KindNotPackable { member: i, kind }, i, i);
        }
        let len = seqs::u32_at(body, at + 1) as usize;
        let max = policy.max_body(kind);
        if len > max {
            return refused(PackError::MemberTooLong { member: i, len, max }, i, i);
        }
        if size - at - MIN_MEMBER < len {
            return refused(PackError::Truncated { member: i }, i, i);
        }
        let end = at + MIN_MEMBER + len;
        let bytes = vstd::slice::slice_subrange(body, at + MIN_MEMBER, end);
        let id = block_id(kind, bytes);
        if let Some(p) = prev {
            if !order::before(p.as_slice(), id.as_slice()) {
                return refused(PackError::OutOfOrder { member: i }, i + 1, i);
            }
        }
        if !policy.well_formed(kind, bytes) {
            return refused(PackError::MemberNotWellFormed { member: i, kind }, i + 1, i + 1);
        }
        let ghost before = found(out@);
        let m = Member { kind, body: bytes, id };
        out.push(m);
        proof {
            assert(found(out@) =~= before.push(m@));
            let rest = walk_from(policy, body@, count as int, i + 1, end as int, Some(id@));
            if let Ok(ms) = rest.result {
                assert(before + (seq![m@] + ms) =~= found(out@) + ms);
            }
        }
        prev = Some(id);
        at = end;
        i = i + 1;
    }
    if at < size {
        return refused(PackError::TrailingBytes { left: size - at }, i, i);
    }
    assert(found(out@) + Seq::<Found>::empty() =~= found(out@));
    Walked { result: Ok(out), ids: i, bodies: i }
}

/// Is `body` a well-formed pack under `policy`?
pub fn well_formed<P: Policy>(body: &[u8], policy: &P) -> (r: bool)
    ensures
        r == spec_walk(policy, body@).result is Ok,
{
    walk(body, policy).result.is_ok()
}

/// The same walk, with the reason it refused.
pub fn check<P: Policy>(body: &[u8], policy: &P) -> (r: Result<(), PackError>)
    ensures
        r == verdict(spec_walk(policy, body@).result),
{
    check_counted(body, policy).0
}

/// [`check`], with what it cost: member ids hashed, and member bodies handed to
/// the policy.
pub fn check_counted<P: Policy>(body: &[u8], policy: &P) -> (r: (
    Result<(), PackError>,
    usize,
    usize,
))
    ensures
        r.0 == verdict(spec_walk(policy, body@).result),
        r.1 == spec_walk(policy, body@).ids,
        r.2 == spec_walk(policy, body@).bodies,
{
    let w = walk(body, policy);
    match w.result {
        Ok(_) => (Ok(()), w.ids, w.bodies),
        Err(e) => (Err(e), w.ids, w.bodies),
    }
}

/// Every member of `body`, in order, or why the body is not a pack.
///
/// This walks the format: structure, the strict ascending order, and the exact
/// tiling of the body. It does not ask whether a kind may ride in a pack or
/// whether a member is a valid block of its kind: a caller that needs that passes
/// its [`Policy`] to [`check`] first.
pub fn members(body: &[u8]) -> (r: Result<Vec<Member<'_>>, PackError>)
    ensures
        match r {
            Ok(ms) => spec_walk(&FormatOnly, body@).result == Ok::<Seq<Found>, PackError>(
                found(ms@),
            ),
            Err(e) => spec_walk(&FormatOnly, body@).result == Err::<Seq<Found>, PackError>(e),
        },
{
    walk(body, &FormatOnly).result
}

// ---------------------------------------------------------------------------
// building
// ---------------------------------------------------------------------------

/// A block to pack, as a mathematical value.
#[verifier::ext_equal]
pub struct Block {
    pub kind: u8,
    pub body: Seq<u8>,
}

impl Block {
    pub open spec fn id(self) -> Seq<u8> {
        crate::spec_block_id(self.kind, self.body)
    }

    pub open spec fn found(self) -> Found {
        Found { kind: self.kind, body: self.body, id: self.id() }
    }
}

/// Blocks to pack, as mathematical values.
pub open spec fn blocks(v: Seq<(u8, Vec<u8>)>) -> Seq<Block> {
    v.map_values(|m: (u8, Vec<u8>)| Block { kind: m.0, body: m.1@ })
}

/// Is the block at `i` the first, from `lo` on, with its id?
pub open spec fn first_of_its_id(all: Seq<Block>, lo: int, i: int) -> bool {
    forall|j: int| lo <= j < i ==> (#[trigger] all[j]).id() != all[i].id()
}

/// `picked` lists, in ascending order of their ids, the first block of each id
/// among those from `lo` to `hi`.
pub open spec fn picks(all: Seq<Block>, lo: int, hi: int, picked: Seq<int>) -> bool {
    &&& forall|p: int|
        0 <= p < picked.len() ==> lo <= #[trigger] picked[p] < hi && first_of_its_id(
            all,
            lo,
            picked[p],
        )
    &&& forall|p: int, q: int|
        0 <= p < q < picked.len() ==> order::lt(
            all[#[trigger] picked[p]].id(),
            all[#[trigger] picked[q]].id(),
        )
    &&& forall|i: int| lo <= i < hi ==> has_id(all, picked, (#[trigger] all[i]).id())
}

/// Some picked block has this id.
pub open spec fn has_id(all: Seq<Block>, picked: Seq<int>, id: Seq<u8>) -> bool {
    exists|p: int| 0 <= p < picked.len() && all[#[trigger] picked[p]].id() == id
}

/// `set` is the set of the blocks, each once, in ascending order of their ids. Of
/// two blocks with one id, the first stays.
pub open spec fn is_set_of(set: Seq<Block>, all: Seq<Block>) -> bool {
    exists|picked: Seq<int>| #[trigger]
        picks(all, 0, all.len() as int, picked) && set == picked.map_values(|i: int| all[i])
}

/// A member, encoded.
pub open spec fn member_bytes(b: Block) -> Seq<u8> {
    seq![b.kind] + seqs::to_le32(b.body.len() as int) + b.body
}

/// Members, encoded one after the other.
pub open spec fn members_bytes(set: Seq<Block>) -> Seq<u8>
    decreases set.len(),
{
    if set.len() == 0 {
        Seq::empty()
    } else {
        members_bytes(set.drop_last()) + member_bytes(set.last())
    }
}

/// The one encoding of a set of blocks.
pub open spec fn pack_bytes(set: Seq<Block>) -> Seq<u8> {
    seq![0x50u8, 0x4b, 0x30, 0x31] + seqs::to_le16(set.len() as int) + members_bytes(set)
}

/// The first member, from `i` on, that is too long for its length field.
pub open spec fn first_too_long(set: Seq<Block>, i: int) -> Option<int>
    decreases set.len() - i,
{
    if i < 0 || i >= set.len() {
        None
    } else if set[i].body.len() > u32::MAX {
        Some(set[i].body.len() as int)
    } else {
        first_too_long(set, i + 1)
    }
}

/// What [`build`] makes of a set of blocks.
pub open spec fn spec_build(set: Seq<Block>) -> Result<Seq<u8>, BuildError> {
    if set.len() == 0 {
        Err(BuildError::Empty)
    } else if set.len() > u16::MAX {
        Err(BuildError::TooManyMembers(set.len() as usize))
    } else {
        match first_too_long(set, 0) {
            Some(n) => Err(BuildError::MemberTooLong(n as usize)),
            None => {
                let out = pack_bytes(set);
                if out.len() > MAX_PACK {
                    Err(BuildError::TooLarge(out.len() as usize))
                } else {
                    Ok(out)
                }
            },
        }
    }
}

/// An outcome as a mathematical value.
pub open spec fn built(r: Result<Vec<u8>, BuildError>) -> Result<Seq<u8>, BuildError> {
    match r {
        Ok(v) => Ok(v@),
        Err(e) => Err(e),
    }
}

/// The ids of blocks.
spec fn ids_match(ids: Seq<Cid>, all: Seq<Block>) -> bool {
    ids.len() == all.len() && forall|i: int|
        0 <= i < all.len() ==> (#[trigger] ids[i])@ == all[i].id()
}

/// Indices as numbers.
spec fn places(v: Seq<usize>) -> Seq<int> {
    v.map_values(|x: usize| x as int)
}

/// What is known while two sorted halves are merged: `out` is sorted and picks
/// from both, and everything the halves hold before `a` and `b` is in it.
spec fn merging(
    all: Seq<Block>,
    lo: int,
    hi: int,
    left: Seq<int>,
    right: Seq<int>,
    a: int,
    b: int,
    out: Seq<int>,
) -> bool {
    &&& forall|p: int|
        0 <= p < out.len() ==> lo <= #[trigger] out[p] < hi && first_of_its_id(all, lo, out[p])
    &&& forall|p: int, q: int|
        0 <= p < q < out.len() ==> order::lt(
            all[#[trigger] out[p]].id(),
            all[#[trigger] out[q]].id(),
        )
    &&& forall|p: int| 0 <= p < a ==> has_id(all, out, all[#[trigger] left[p]].id())
    &&& forall|p: int| 0 <= p < b ==> has_id(all, out, all[#[trigger] right[p]].id())
    &&& forall|p: int, q: int|
        0 <= p < out.len() && a <= q < left.len() ==> order::lt(
            all[#[trigger] out[p]].id(),
            all[#[trigger] left[q]].id(),
        )
    &&& forall|p: int, q: int|
        0 <= p < out.len() && b <= q < right.len() ==> order::lt(
            all[#[trigger] out[p]].id(),
            all[#[trigger] right[q]].id(),
        )
}

/// One more in the list keeps what was in it.
proof fn lemma_has_id_push(all: Seq<Block>, out: Seq<int>, x: int, id: Seq<u8>)
    ensures
        has_id(all, out, id) ==> has_id(all, out.push(x), id),
        all[x].id() == id ==> has_id(all, out.push(x), id),
{
    let next = out.push(x);
    if has_id(all, out, id) {
        let p = choose|p: int| 0 <= p < out.len() && all[#[trigger] out[p]].id() == id;
        assert(next[p] == out[p]);
    }
    if all[x].id() == id {
        assert(next[out.len() as int] == x);
    }
}

/// Taking the head of the left half, and the head of the right half with it where
/// they have one id.
proof fn lemma_merge_left(
    all: Seq<Block>,
    lo: int,
    mid: int,
    hi: int,
    left: Seq<int>,
    right: Seq<int>,
    a: int,
    b: int,
    out: Seq<int>,
    both: bool,
)
    requires
        lo <= mid <= hi,
        picks(all, lo, mid, left),
        picks(all, mid, hi, right),
        0 <= a < left.len(),
        0 <= b <= right.len(),
        both ==> b < right.len() && all[left[a]].id() == all[right[b]].id(),
        !both && b < right.len() ==> order::lt(all[left[a]].id(), all[right[b]].id()),
        merging(all, lo, hi, left, right, a, b, out),
    ensures
        merging(
            all,
            lo,
            hi,
            left,
            right,
            a + 1,
            if both {
                b + 1
            } else {
                b
            },
            out.push(left[a]),
        ),
{
    let x = left[a];
    let next = out.push(x);
    let c = if both {
        b + 1
    } else {
        b
    };
    assert forall|p: int| 0 <= p < a + 1 implies has_id(all, next, all[#[trigger] left[p]].id()) by {
        lemma_has_id_push(all, out, x, all[left[p]].id());
    }
    assert forall|p: int| 0 <= p < c implies has_id(all, next, all[#[trigger] right[p]].id()) by {
        lemma_has_id_push(all, out, x, all[right[p]].id());
    }
    assert forall|p: int, q: int| 0 <= p < next.len() && c <= q < right.len() implies order::lt(
        all[#[trigger] next[p]].id(),
        all[#[trigger] right[q]].id(),
    ) by {
        if p == out.len() {
            if both {
                assert(order::lt(all[right[b]].id(), all[right[q]].id()));
            } else if q > b {
                assert(order::lt(all[right[b]].id(), all[right[q]].id()));
                order::lemma_lt_trans(all[x].id(), all[right[b]].id(), all[right[q]].id());
            }
        } else {
            assert(next[p] == out[p]);
        }
    }
    assert forall|p: int, q: int| 0 <= p < next.len() && a + 1 <= q < left.len() implies order::lt(
        all[#[trigger] next[p]].id(),
        all[#[trigger] left[q]].id(),
    ) by {
        if p < out.len() {
            assert(next[p] == out[p]);
        }
    }
    assert forall|p: int, q: int| 0 <= p < q < next.len() implies order::lt(
        all[#[trigger] next[p]].id(),
        all[#[trigger] next[q]].id(),
    ) by {
        assert(next[p] == out[p]);
        if q < out.len() {
            assert(next[q] == out[q]);
        }
    }
    assert forall|p: int| 0 <= p < next.len() implies lo <= #[trigger] next[p] < hi
        && first_of_its_id(all, lo, next[p]) by {
        if p < out.len() {
            assert(next[p] == out[p]);
        }
    }
}

/// Taking the head of the right half, which is before what the left half has left.
proof fn lemma_merge_right(
    all: Seq<Block>,
    lo: int,
    mid: int,
    hi: int,
    left: Seq<int>,
    right: Seq<int>,
    a: int,
    b: int,
    out: Seq<int>,
)
    requires
        lo <= mid <= hi,
        picks(all, lo, mid, left),
        picks(all, mid, hi, right),
        0 <= a <= left.len(),
        0 <= b < right.len(),
        a < left.len() ==> order::lt(all[right[b]].id(), all[left[a]].id()),
        merging(all, lo, hi, left, right, a, b, out),
    ensures
        merging(all, lo, hi, left, right, a, b + 1, out.push(right[b])),
{
    let x = right[b];
    let next = out.push(x);
    assert forall|p: int| 0 <= p < a implies has_id(all, next, all[#[trigger] left[p]].id()) by {
        lemma_has_id_push(all, out, x, all[left[p]].id());
    }
    assert forall|p: int| 0 <= p < b + 1 implies has_id(all, next, all[#[trigger] right[p]].id()) by {
        lemma_has_id_push(all, out, x, all[right[p]].id());
    }
    // Nothing in the left half has its id: not what is in `out`, nor what is left.
    assert(first_of_its_id(all, lo, x)) by {
        assert forall|j: int| lo <= j < x implies (#[trigger] all[j]).id() != all[x].id() by {
            if j < mid && all[j].id() == all[x].id() {
                assert(has_id(all, left, all[j].id()));
                let p = choose|p: int|
                    0 <= p < left.len() && all[#[trigger] left[p]].id() == all[j].id();
                if p < a {
                    assert(has_id(all, out, all[left[p]].id()));
                    let r = choose|r: int|
                        0 <= r < out.len() && all[#[trigger] out[r]].id() == all[left[p]].id();
                    assert(order::lt(all[out[r]].id(), all[right[b]].id()));
                    order::lemma_lt_irreflexive(all[x].id());
                } else if p == a {
                    order::lemma_lt_irreflexive(all[x].id());
                } else {
                    assert(order::lt(all[left[a]].id(), all[left[p]].id()));
                    order::lemma_lt_trans(all[x].id(), all[left[a]].id(), all[left[p]].id());
                    order::lemma_lt_irreflexive(all[x].id());
                }
            }
        }
    }
    assert forall|p: int, q: int| 0 <= p < next.len() && a <= q < left.len() implies order::lt(
        all[#[trigger] next[p]].id(),
        all[#[trigger] left[q]].id(),
    ) by {
        if p == out.len() {
            if q > a {
                assert(order::lt(all[left[a]].id(), all[left[q]].id()));
                order::lemma_lt_trans(all[x].id(), all[left[a]].id(), all[left[q]].id());
            }
        } else {
            assert(next[p] == out[p]);
        }
    }
    assert forall|p: int, q: int| 0 <= p < next.len() && b + 1 <= q < right.len() implies order::lt(
        all[#[trigger] next[p]].id(),
        all[#[trigger] right[q]].id(),
    ) by {
        if p < out.len() {
            assert(next[p] == out[p]);
        }
    }
    assert forall|p: int, q: int| 0 <= p < q < next.len() implies order::lt(
        all[#[trigger] next[p]].id(),
        all[#[trigger] next[q]].id(),
    ) by {
        assert(next[p] == out[p]);
        if q < out.len() {
            assert(next[q] == out[q]);
        }
    }
    assert forall|p: int| 0 <= p < next.len() implies lo <= #[trigger] next[p] < hi
        && first_of_its_id(all, lo, next[p]) by {
        if p < out.len() {
            assert(next[p] == out[p]);
        }
    }
}

/// When both halves are used up, everything is picked.
proof fn lemma_merged(
    all: Seq<Block>,
    lo: int,
    mid: int,
    hi: int,
    left: Seq<int>,
    right: Seq<int>,
    out: Seq<int>,
)
    requires
        lo <= mid <= hi,
        picks(all, lo, mid, left),
        picks(all, mid, hi, right),
        merging(all, lo, hi, left, right, left.len() as int, right.len() as int, out),
    ensures
        picks(all, lo, hi, out),
{
    assert forall|i: int| lo <= i < hi implies has_id(all, out, (#[trigger] all[i]).id()) by {
        if i < mid {
            assert(has_id(all, left, all[i].id()));
            let p = choose|p: int|
                0 <= p < left.len() && all[#[trigger] left[p]].id() == all[i].id();
            assert(has_id(all, out, all[left[p]].id()));
        } else {
            assert(has_id(all, right, all[i].id()));
            let p = choose|p: int|
                0 <= p < right.len() && all[#[trigger] right[p]].id() == all[i].id();
            assert(has_id(all, out, all[right[p]].id()));
        }
    }
}

/// Merge two sorted halves, keeping of one id only the first.
fn merge(
    ids: &Vec<Cid>,
    left: &Vec<usize>,
    right: &Vec<usize>,
    Ghost(all): Ghost<Seq<Block>>,
    Ghost(lo): Ghost<int>,
    Ghost(mid): Ghost<int>,
    Ghost(hi): Ghost<int>,
) -> (out: Vec<usize>)
    requires
        ids_match(ids@, all),
        0 <= lo <= mid <= hi <= all.len(),
        picks(all, lo, mid, places(left@)),
        picks(all, mid, hi, places(right@)),
    ensures
        picks(all, lo, hi, places(out@)),
{
    let mut out: Vec<usize> = Vec::new();
    let mut a: usize = 0;
    let mut b: usize = 0;
    let ghost ls = places(left@);
    let ghost rs = places(right@);
    while a < left.len() || b < right.len()
        invariant
            ids_match(ids@, all),
            0 <= lo <= mid <= hi <= all.len(),
            ls == places(left@),
            rs == places(right@),
            picks(all, lo, mid, ls),
            picks(all, mid, hi, rs),
            a <= left@.len(),
            b <= right@.len(),
            merging(all, lo, hi, ls, rs, a as int, b as int, places(out@)),
        decreases left@.len() - a + right@.len() - b,
    {
        let ghost before = places(out@);
        if a == left.len() {
            let x = right[b];
            proof {
                assert(rs[b as int] == x);
                lemma_merge_right(all, lo, mid, hi, ls, rs, a as int, b as int, before);
            }
            out.push(x);
            assert(places(out@) =~= before.push(x as int));
            b = b + 1;
        } else if b == right.len() {
            let x = left[a];
            proof {
                assert(ls[a as int] == x);
                lemma_merge_left(all, lo, mid, hi, ls, rs, a as int, b as int, before, false);
            }
            out.push(x);
            assert(places(out@) =~= before.push(x as int));
            a = a + 1;
        } else {
            let x = left[a];
            let y = right[b];
            assert(ls[a as int] == x && rs[b as int] == y);
            let side = order::side(ids[x].as_slice(), ids[y].as_slice());
            match side {
                order::Side::Less => {
                    proof {
                        lemma_merge_left(
                            all,
                            lo,
                            mid,
                            hi,
                            ls,
                            rs,
                            a as int,
                            b as int,
                            before,
                            false,
                        );
                    }
                    out.push(x);
                    assert(places(out@) =~= before.push(x as int));
                    a = a + 1;
                },
                order::Side::Equal => {
                    proof {
                        lemma_merge_left(
                            all,
                            lo,
                            mid,
                            hi,
                            ls,
                            rs,
                            a as int,
                            b as int,
                            before,
                            true,
                        );
                    }
                    out.push(x);
                    assert(places(out@) =~= before.push(x as int));
                    a = a + 1;
                    b = b + 1;
                },
                order::Side::Greater => {
                    proof {
                        lemma_merge_right(all, lo, mid, hi, ls, rs, a as int, b as int, before);
                    }
                    out.push(y);
                    assert(places(out@) =~= before.push(y as int));
                    b = b + 1;
                },
            }
        }
    }
    proof {
        lemma_merged(all, lo, mid, hi, ls, rs, places(out@));
    }
    out
}

/// The places of the blocks from `lo` to `hi`, in ascending order of their ids, of
/// one id only the first.
fn sort(ids: &Vec<Cid>, lo: usize, hi: usize, Ghost(all): Ghost<Seq<Block>>) -> (out: Vec<usize>)
    requires
        ids_match(ids@, all),
        lo <= hi <= all.len(),
    ensures
        picks(all, lo as int, hi as int, places(out@)),
    decreases hi - lo,
{
    if hi - lo == 0 {
        return Vec::new();
    }
    if hi - lo == 1 {
        let mut out: Vec<usize> = Vec::new();
        out.push(lo);
        assert(places(out@) =~= seq![lo as int]);
        assert(places(out@)[0] == lo);
        return out;
    }
    let mid = lo + (hi - lo) / 2;
    let left = sort(ids, lo, mid, Ghost(all));
    let right = sort(ids, mid, hi, Ghost(all));
    merge(ids, &left, &right, Ghost(all), Ghost(lo as int), Ghost(mid as int), Ghost(hi as int))
}

/// The ids of the blocks.
fn ids_of(members: &[(u8, Vec<u8>)]) -> (ids: Vec<Cid>)
    ensures
        ids_match(ids@, blocks(members@)),
{
    let mut ids: Vec<Cid> = Vec::new();
    let mut i: usize = 0;
    while i < members.len()
        invariant
            i <= members@.len(),
            ids@.len() == i,
            forall|j: int| 0 <= j < i ==> (#[trigger] ids@[j])@ == blocks(members@)[j].id(),
        decreases members@.len() - i,
    {
        ids.push(block_id(members[i].0, members[i].1.as_slice()));
        i = i + 1;
    }
    ids
}

/// Nothing too long before `i` is nothing too long found before `i`.
proof fn lemma_first_too_long(set: Seq<Block>, i: int)
    requires
        0 <= i <= set.len(),
        forall|j: int| 0 <= j < i ==> (#[trigger] set[j]).body.len() <= u32::MAX,
    ensures
        first_too_long(set, 0) == first_too_long(set, i),
    decreases i,
{
    if i > 0 {
        lemma_first_too_long(set, i - 1);
    }
}

/// Build a pack body from members, ordering them as the format requires.
///
/// A pack is a set, so the same block offered twice is one member. It does not
/// otherwise check the members: [`check`] decides.
pub fn build(members: &[(u8, Vec<u8>)]) -> (r: Result<Vec<u8>, BuildError>)
    ensures
        exists|set: Seq<Block>|
            is_set_of(set, blocks(members@)) && built(r) == #[trigger] spec_build(set),
{
    let ghost all = blocks(members@);
    let ids = ids_of(members);
    let picked = sort(&ids, 0, members.len(), Ghost(all));
    let ghost set = places(picked@).map_values(|i: int| all[i]);
    assert(is_set_of(set, all));
    assert(set.len() == picked@.len());
    let n = picked.len();
    if n == 0 {
        assert(spec_build(set) == Err::<Seq<u8>, BuildError>(BuildError::Empty));
        return Err(BuildError::Empty);
    }
    if n > 65535 {
        assert(spec_build(set) == Err::<Seq<u8>, BuildError>(BuildError::TooManyMembers(n)));
        return Err(BuildError::TooManyMembers(n));
    }
    let mut out: Vec<u8> = vec![0x50u8, 0x4b, 0x30, 0x31];
    seqs::put_u16(&mut out, n as u16);
    let ghost head = seq![0x50u8, 0x4b, 0x30, 0x31] + seqs::to_le16(set.len() as int);
    assert(out@ =~= head + members_bytes(set.take(0)));
    let mut i: usize = 0;
    while i < n
        invariant
            i <= n,
            n == picked@.len(),
            0 < n <= 65535,
            all == blocks(members@),
            set == places(picked@).map_values(|i: int| all[i]),
            is_set_of(set, all),
            picks(all, 0, all.len() as int, places(picked@)),
            head == seq![0x50u8, 0x4b, 0x30, 0x31] + seqs::to_le16(set.len() as int),
            out@ == head + members_bytes(set.take(i as int)),
            forall|j: int| 0 <= j < i ==> (#[trigger] set[j]).body.len() <= u32::MAX,
        decreases n - i,
    {
        let x = picked[i];
        assert(places(picked@)[i as int] == x);
        let m = &members[x];
        assert(set[i as int] == all[x as int]);
        let len = m.1.len();
        proof {
            lemma_first_too_long(set, i as int);
        }
        if len as u64 > 4294967295 {
            assert(spec_build(set) == Err::<Seq<u8>, BuildError>(BuildError::MemberTooLong(len)));
            return Err(BuildError::MemberTooLong(len));
        }
        let ghost before = out@;
        out.push(m.0);
        seqs::put_u32(&mut out, len as u32);
        out.extend_from_slice(m.1.as_slice());
        proof {
            assert(set.take(i + 1).drop_last() =~= set.take(i as int));
            assert(out@ =~= before + member_bytes(set[i as int]));
            assert(out@ =~= head + members_bytes(set.take(i + 1)));
        }
        i = i + 1;
    }
    proof {
        assert(set.take(n as int) =~= set);
        lemma_first_too_long(set, n as int);
        assert(out@ == pack_bytes(set));
    }
    if out.len() > MAX_PACK {
        assert(spec_build(set) == Err::<Seq<u8>, BuildError>(BuildError::TooLarge(out.len())));
        return Err(BuildError::TooLarge(out.len()));
    }
    assert(spec_build(set) == Ok::<Seq<u8>, BuildError>(out@));
    Ok(out)
}

// ---------------------------------------------------------------------------
// laws
// ---------------------------------------------------------------------------

/// Ids strictly ascend.
pub open spec fn ascending(set: Seq<Block>) -> bool {
    forall|i: int, j: int|
        0 <= i < j < set.len() ==> order::lt((#[trigger] set[i]).id(), (#[trigger] set[j]).id())
}

/// Found members as blocks.
pub open spec fn as_blocks(ms: Seq<Found>) -> Seq<Block> {
    ms.map_values(|m: Found| Block { kind: m.kind, body: m.body })
}

/// Encoding the first member, then the rest.
proof fn lemma_members_cons(x: Block, rest: Seq<Block>)
    ensures
        members_bytes(seq![x] + rest) == member_bytes(x) + members_bytes(rest),
    decreases rest.len(),
{
    let set = seq![x] + rest;
    if rest.len() == 0 {
        assert(set.drop_last() =~= Seq::<Block>::empty());
        assert(members_bytes(set.drop_last()) =~= Seq::<u8>::empty());
        assert(members_bytes(set) =~= member_bytes(x));
        assert(member_bytes(x) + members_bytes(rest) =~= member_bytes(x));
    } else {
        lemma_members_cons(x, rest.drop_last());
        assert(set.drop_last() =~= seq![x] + rest.drop_last());
        assert(set.last() == rest.last());
        assert(members_bytes(set) =~= member_bytes(x) + members_bytes(rest));
    }
}

/// What a walk from member `i` accepts is the encoding of what it found.
proof fn lemma_walk_tail<P: Policy>(
    policy: &P,
    body: Seq<u8>,
    count: int,
    i: int,
    at: int,
    prev: Option<Seq<u8>>,
)
    requires
        0 <= i <= count,
        0 <= at <= body.len(),
        walk_from(policy, body, count, i, at, prev).result is Ok,
    ensures
        ({
            let ms = walk_from(policy, body, count, i, at, prev).result->Ok_0;
            let set = as_blocks(ms);
            &&& ms.len() == count - i
            &&& body.subrange(at, body.len() as int) == members_bytes(set)
            &&& ascending(set)
            &&& forall|j: int| 0 <= j < ms.len() ==> (#[trigger] ms[j]).id == set[j].id()
            &&& prev is Some && set.len() > 0 ==> order::lt(prev->Some_0, set[0].id())
        }),
    decreases count - i,
{
    let ms = walk_from(policy, body, count, i, at, prev).result->Ok_0;
    let set = as_blocks(ms);
    if i >= count {
        assert(body.subrange(at, body.len() as int) =~= Seq::<u8>::empty());
    } else {
        let kind = body[at];
        let len = seqs::le32(body, at + 1);
        let end = at + MIN_MEMBER + len;
        let bytes = body.subrange(at + MIN_MEMBER, end);
        let x = Block { kind, body: bytes };
        lemma_walk_tail(policy, body, count, i + 1, end, Some(x.id()));
        let rest = walk_from(policy, body, count, i + 1, end, Some(x.id())).result->Ok_0;
        assert(ms =~= seq![x.found()] + rest);
        assert(set =~= seq![x] + as_blocks(rest));
        lemma_members_cons(x, as_blocks(rest));
        seqs::lemma_bytes32(body, at + 1);
        assert(body.subrange(at, body.len() as int) =~= member_bytes(x) + body.subrange(
            end,
            body.len() as int,
        )) by {
            assert(member_bytes(x) =~= body.subrange(at, end)) by {
                assert(body.subrange(at, end) =~= seq![kind] + body.subrange(at + 1, at + 5)
                    + bytes);
            }
        }
        assert forall|j: int| 0 <= j < ms.len() implies (#[trigger] ms[j]).id == set[j].id() by {
            if j > 0 {
                assert(ms[j] == rest[j - 1]);
                assert(set[j] == as_blocks(rest)[j - 1]);
            }
        }
        assert forall|p: int, q: int| 0 <= p < q < set.len() implies order::lt(
            (#[trigger] set[p]).id(),
            (#[trigger] set[q]).id(),
        ) by {
            let tail = as_blocks(rest);
            assert(set[q] == tail[q - 1]);
            if p > 0 {
                assert(set[p] == tail[p - 1]);
            } else if q > 1 {
                assert(order::lt(tail[0].id(), tail[q - 1].id()));
                order::lemma_lt_trans(x.id(), tail[0].id(), tail[q - 1].id());
            }
        }
    }
}

/// One encoding per set: a body that walks, under any policy, is exactly the
/// encoding of the blocks it holds, which ascend by id.
pub proof fn law_a_walked_pack_is_the_encoding<P: Policy>(policy: &P, body: Seq<u8>)
    requires
        spec_walk(policy, body).result is Ok,
    ensures
        ({
            let ms = spec_walk(policy, body).result->Ok_0;
            &&& body == pack_bytes(as_blocks(ms))
            &&& ascending(as_blocks(ms))
            &&& forall|j: int| 0 <= j < ms.len() ==> (#[trigger] ms[j]).id == as_blocks(ms)[j].id()
        }),
{
    let count = seqs::le16(body, 4);
    lemma_walk_tail(policy, body, count, 0, HEADER as int, None);
    let set = as_blocks(spec_walk(policy, body).result->Ok_0);
    seqs::lemma_bytes16(body, 4);
    assert(body =~= seq![0x50u8, 0x4b, 0x30, 0x31] + body.subrange(4, 6) + body.subrange(
        6,
        body.len() as int,
    ));
}

/// Does a policy take a block: its kind may ride, its body is no longer than that kind's
/// ceiling, and it is a well-formed block of its kind?
pub open spec fn welcome<P: Policy>(policy: &P, b: Block) -> bool {
    &&& policy.spec_packable(b.kind)
    &&& b.body.len() <= policy.spec_max_body(b.kind)
    &&& policy.spec_well_formed(b.kind, b.body)
}

/// What is read where an encoded member stands.
proof fn lemma_member_at(body: Seq<u8>, at: int, x: Block, tail: Seq<u8>)
    requires
        0 <= at <= body.len(),
        body.subrange(at, body.len() as int) == member_bytes(x) + tail,
        x.body.len() <= u32::MAX,
    ensures
        body.len() - at == 5 + x.body.len() + tail.len(),
        body[at] == x.kind,
        seqs::le32(body, at + 1) == x.body.len(),
        body.subrange(at + 5, at + 5 + x.body.len()) == x.body,
        body.subrange(at + 5 + x.body.len(), body.len() as int) == tail,
{
    let w = body.subrange(at, body.len() as int);
    let mb = member_bytes(x);
    let n = x.body.len() as int;
    assert(mb.len() == 5 + n);
    assert(w.len() == body.len() - at);
    assert(body[at] == w[0] && w[0] == mb[0] && mb[0] == x.kind);
    assert(body.subrange(at + 1, at + 5) =~= seqs::to_le32(n)) by {
        assert forall|j: int| 0 <= j < 4 implies body.subrange(at + 1, at + 5)[j]
            == seqs::to_le32(n)[j] by {
            assert(body[at + 1 + j] == w[1 + j] && w[1 + j] == mb[1 + j]);
        }
    }
    assert(seqs::to_le32(n).subrange(0, 4) =~= seqs::to_le32(n));
    seqs::lemma_le32(n);
    seqs::lemma_le_window(body, at + 1, seqs::to_le32(n), 0, 4);
    let end = at + 5 + n;
    assert(body.subrange(at + 5, end) =~= x.body) by {
        assert forall|j: int| 0 <= j < n implies body.subrange(at + 5, end)[j] == x.body[j] by {
            assert(body[at + 5 + j] == w[5 + j] && w[5 + j] == mb[5 + j]);
        }
    }
    assert(body.subrange(end, body.len() as int) =~= tail) by {
        assert forall|j: int| 0 <= j < tail.len() implies body.subrange(end, body.len() as int)[j]
            == tail[j] by {
            assert(body[end + j] == w[5 + n + j]);
        }
    }
}

/// Walking members that are there, in order and welcome, finds them, and goes on with what
/// follows them.
proof fn lemma_walk_on<P: Policy>(
    policy: &P,
    body: Seq<u8>,
    count: int,
    i: int,
    at: int,
    prev: Option<Seq<u8>>,
    rest: Seq<Block>,
    tail: Seq<u8>,
)
    requires
        0 <= i,
        i + rest.len() <= count,
        0 <= at <= body.len(),
        body.subrange(at, body.len() as int) == members_bytes(rest) + tail,
        ascending(rest),
        prev is Some && rest.len() > 0 ==> order::lt(prev->Some_0, rest[0].id()),
        forall|j: int|
            0 <= j < rest.len() ==> welcome(policy, #[trigger] rest[j]) && rest[j].body.len()
                <= u32::MAX,
    ensures
        ({
            let end = body.len() - tail.len();
            let last = if rest.len() > 0 {
                Some(rest.last().id())
            } else {
                prev
            };
            &&& end >= at
            &&& body.subrange(end, body.len() as int) == tail
            &&& walk_from(policy, body, count, i, at, prev) == resumed(
                rest.map_values(|b: Block| b.found()),
                walk_from(policy, body, count, i + rest.len(), end, last),
                rest.len() as int,
                rest.len() as int,
            )
        }),
    decreases rest.len(),
{
    let all = rest.map_values(|b: Block| b.found());
    if rest.len() == 0 {
        assert(members_bytes(rest) + tail =~= tail);
        let w = walk_from(policy, body, count, i, at, prev);
        assert(all =~= Seq::<Found>::empty());
        if let Ok(ms) = w.result {
            assert(all + ms =~= ms);
        }
    } else {
        let x = rest[0];
        let more = rest.subrange(1, rest.len() as int);
        assert(rest =~= seq![x] + more);
        lemma_members_cons(x, more);
        assert(member_bytes(x) + members_bytes(more) + tail =~= member_bytes(x) + (members_bytes(
            more,
        ) + tail));
        lemma_member_at(body, at, x, members_bytes(more) + tail);
        assert forall|p: int, q: int| 0 <= p < q < more.len() implies order::lt(
            (#[trigger] more[p]).id(),
            (#[trigger] more[q]).id(),
        ) by {
            assert(more[p] == rest[p + 1] && more[q] == rest[q + 1]);
        }
        assert forall|j: int| 0 <= j < more.len() implies welcome(policy, #[trigger] more[j])
            && more[j].body.len() <= u32::MAX by {
            assert(more[j] == rest[j + 1]);
        }
        if more.len() > 0 {
            assert(more[0] == rest[1]);
            assert(more.last() == rest.last());
        }
        let end = at + 5 + x.body.len();
        assert(welcome(policy, rest[0]));
        lemma_walk_on(policy, body, count, i + 1, end, Some(x.id()), more, tail);
        let then = walk_from(
            policy,
            body,
            count,
            i + rest.len(),
            body.len() - tail.len(),
            Some(rest.last().id()),
        );
        let part = more.map_values(|b: Block| b.found());
        assert(seq![x.found()] + part =~= all);
        if let Ok(ms) = then.result {
            assert(seq![x.found()] + (part + ms) =~= all + ms);
        }
    }
}

/// How a pack begins.
proof fn lemma_begins(set: Seq<Block>, tail: Seq<u8>)
    requires
        set.len() <= u16::MAX,
    ensures
        ({
            let body = pack_bytes(set) + tail;
            &&& body.len() == 6 + members_bytes(set).len() + tail.len()
            &&& body[0] == 0x50 && body[1] == 0x4b && body[2] == 0x30 && body[3] == 0x31
            &&& seqs::le16(body, 4) == set.len()
            &&& body.subrange(6, body.len() as int) == members_bytes(set) + tail
        }),
{
    let body = pack_bytes(set) + tail;
    let n = set.len() as int;
    assert(body.subrange(4, 6) =~= seqs::to_le16(n));
    assert(seqs::to_le16(n).subrange(0, 2) =~= seqs::to_le16(n));
    seqs::lemma_le16(n);
    seqs::lemma_le_window(body, 4, seqs::to_le16(n), 0, 2);
    assert(body.subrange(6, body.len() as int) =~= members_bytes(set) + tail);
}

/// What a walk accepts is what the policy takes, every member of it, from the first to the
/// last: its kind may ride, its body is within that kind's ceiling, and it is well formed.
/// And a set of blocks that the policy takes, in order, is accepted, and found.
pub proof fn law_a_pack_is_accepted_where_all_its_members_are<P: Policy>(
    policy: &P,
    body: Seq<u8>,
    ms: Seq<Found>,
)
    ensures
        spec_walk(policy, body).result == Ok::<Seq<Found>, PackError>(ms) <==> {
            &&& 0 < ms.len() <= 65535
            &&& body == pack_bytes(as_blocks(ms))
            &&& forall|i: int, j: int|
                0 <= i < j < ms.len() ==> order::lt((#[trigger] ms[i]).id, (#[trigger] ms[j]).id)
            &&& forall|j: int|
                #![trigger ms[j]]
                0 <= j < ms.len() ==> {
                    &&& ms[j].id == crate::spec_block_id(ms[j].kind, ms[j].body)
                    &&& ms[j].body.len() <= u32::MAX
                    &&& policy.spec_packable(ms[j].kind)
                    &&& ms[j].body.len() <= policy.spec_max_body(ms[j].kind)
                    &&& policy.spec_well_formed(ms[j].kind, ms[j].body)
                }
        },
{
    let set = as_blocks(ms);
    if spec_walk(policy, body).result == Ok::<Seq<Found>, PackError>(ms) {
        law_a_walked_pack_is_the_encoding(policy, body);
        let count = seqs::le16(body, 4);
        lemma_walk_tail(policy, body, count, 0, HEADER as int, None);
        lemma_walk_welcome(policy, body, count, 0, HEADER as int, None);
        seqs::lemma_bytes16(body, 4);
        assert forall|i: int, j: int| 0 <= i < j < ms.len() implies order::lt(
            (#[trigger] ms[i]).id,
            (#[trigger] ms[j]).id,
        ) by {
            assert(order::lt(set[i].id(), set[j].id()));
        }
        assert forall|j: int|
            #![trigger ms[j]]
            0 <= j < ms.len() implies ms[j].id == crate::spec_block_id(ms[j].kind, ms[j].body) by {
            assert(ms[j].id == set[j].id());
        }
    }
    if {
        &&& 0 < ms.len() <= 65535
        &&& body == pack_bytes(set)
        &&& forall|i: int, j: int|
            0 <= i < j < ms.len() ==> order::lt((#[trigger] ms[i]).id, (#[trigger] ms[j]).id)
        &&& forall|j: int|
            #![trigger ms[j]]
            0 <= j < ms.len() ==> {
                &&& ms[j].id == crate::spec_block_id(ms[j].kind, ms[j].body)
                &&& ms[j].body.len() <= u32::MAX
                &&& policy.spec_packable(ms[j].kind)
                &&& ms[j].body.len() <= policy.spec_max_body(ms[j].kind)
                &&& policy.spec_well_formed(ms[j].kind, ms[j].body)
            }
    } {
        let none = Seq::<u8>::empty();
        lemma_begins(set, none);
        assert(pack_bytes(set) + none =~= body);
        lemma_members_len(set);
        assert forall|j: int| 0 <= j < set.len() implies welcome(policy, #[trigger] set[j])
            && set[j].body.len() <= u32::MAX by {
            assert(set[j] == Block { kind: ms[j].kind, body: ms[j].body });
        }
        assert forall|i: int, j: int| 0 <= i < j < set.len() implies order::lt(
            (#[trigger] set[i]).id(),
            (#[trigger] set[j]).id(),
        ) by {
            assert(order::lt(ms[i].id, ms[j].id));
        }
        lemma_walk_on(policy, body, set.len() as int, 0, 6, None, set, none);
        let all = set.map_values(|b: Block| b.found());
        assert(all + Seq::<Found>::empty() =~= all);
        assert(all =~= ms) by {
            assert forall|j: int| 0 <= j < ms.len() implies all[j] == ms[j] by {
                assert(ms[j].id == crate::spec_block_id(ms[j].kind, ms[j].body));
            }
        }
    }
}

/// What a walk from member `i` finds is welcome.
proof fn lemma_walk_welcome<P: Policy>(
    policy: &P,
    body: Seq<u8>,
    count: int,
    i: int,
    at: int,
    prev: Option<Seq<u8>>,
)
    requires
        0 <= i <= count,
        0 <= at <= body.len(),
        walk_from(policy, body, count, i, at, prev).result is Ok,
    ensures
        ({
            let ms = walk_from(policy, body, count, i, at, prev).result->Ok_0;
            forall|j: int|
                #![trigger ms[j]]
                0 <= j < ms.len() ==> {
                    &&& ms[j].body.len() <= u32::MAX
                    &&& policy.spec_packable(ms[j].kind)
                    &&& ms[j].body.len() <= policy.spec_max_body(ms[j].kind)
                    &&& policy.spec_well_formed(ms[j].kind, ms[j].body)
                }
        }),
    decreases count - i,
{
    if i < count {
        let kind = body[at];
        let len = seqs::le32(body, at + 1);
        let end = at + MIN_MEMBER + len;
        let bytes = body.subrange(at + MIN_MEMBER, end);
        let id = crate::spec_block_id(kind, bytes);
        seqs::lemma_bytes32(body, at + 1);
        lemma_walk_welcome(policy, body, count, i + 1, end, Some(id));
        let rest = walk_from(policy, body, count, i + 1, end, Some(id)).result->Ok_0;
        let ms = walk_from(policy, body, count, i, at, prev).result->Ok_0;
        assert(ms =~= seq![Found { kind, body: bytes, id }] + rest);
        assert forall|j: int|
            #![trigger ms[j]]
            0 <= j < ms.len() implies {
            &&& ms[j].body.len() <= u32::MAX
            &&& policy.spec_packable(ms[j].kind)
            &&& ms[j].body.len() <= policy.spec_max_body(ms[j].kind)
            &&& policy.spec_well_formed(ms[j].kind, ms[j].body)
        } by {
            if j > 0 {
                assert(ms[j] == rest[j - 1]);
            }
        }
    }
}

/// The first member that is not right is the one a refusal names, and the refusal says
/// what is wrong with it: the kind that may not ride, the length above the ceiling, an id
/// that does not come after the one before, or a body that is not well formed, in that
/// order. The members before it have been hashed and handed to the policy, each once; it
/// is itself hashed only where its kind and length will do, and handed over only where its
/// id does too.
pub proof fn law_a_refusal_names_the_first_member_that_is_wrong<P: Policy>(
    policy: &P,
    set: Seq<Block>,
    k: int,
)
    requires
        0 <= k < set.len() <= 65535,
        ascending(set.take(k)),
        forall|j: int|
            #![trigger set[j]]
            0 <= j < k ==> {
                &&& policy.spec_packable(set[j].kind)
                &&& set[j].body.len() <= policy.spec_max_body(set[j].kind)
                &&& policy.spec_well_formed(set[j].kind, set[j].body)
            },
        forall|j: int| 0 <= j <= k ==> (#[trigger] set[j]).body.len() <= u32::MAX,
    ensures
        ({
            let x = set[k];
            let w = spec_walk(policy, pack_bytes(set));
            let max = policy.spec_max_body(x.kind);
            let member = k as usize;
            if !policy.spec_packable(x.kind) {
                &&& w.result == Err::<Seq<Found>, PackError>(
                    PackError::KindNotPackable { member, kind: x.kind },
                )
                &&& w.ids == k && w.bodies == k
            } else if x.body.len() > max {
                &&& w.result == Err::<Seq<Found>, PackError>(
                    PackError::MemberTooLong { member, len: x.body.len() as usize, max },
                )
                &&& w.ids == k && w.bodies == k
            } else if k > 0 && !order::lt(set[k - 1].id(), x.id()) {
                &&& w.result == Err::<Seq<Found>, PackError>(PackError::OutOfOrder { member })
                &&& w.ids == k + 1 && w.bodies == k
            } else if !policy.spec_well_formed(x.kind, x.body) {
                &&& w.result == Err::<Seq<Found>, PackError>(
                    PackError::MemberNotWellFormed { member, kind: x.kind },
                )
                &&& w.ids == k + 1 && w.bodies == k + 1
            } else {
                w.ids >= k + 1 && w.bodies >= k + 1
            }
        }),
{
    let none = Seq::<u8>::empty();
    let body = pack_bytes(set);
    let n = set.len() as int;
    lemma_begins(set, none);
    assert(pack_bytes(set) + none =~= body);
    assert(members_bytes(set) + none =~= members_bytes(set));
    lemma_members_len(set);
    let head = set.take(k);
    let last = set.skip(k);
    lemma_members_join(head, last);
    assert(head + last =~= set);
    assert forall|j: int| 0 <= j < head.len() implies welcome(policy, #[trigger] head[j])
        && head[j].body.len() <= u32::MAX by {
        assert(head[j] == set[j]);
    }
    lemma_walk_on(policy, body, n, 0, 6, None, head, members_bytes(last));
    let x = set[k];
    let more = last.skip(1);
    assert(last =~= seq![x] + more);
    lemma_members_cons(x, more);
    let at = body.len() - members_bytes(last).len();
    lemma_member_at(body, at, x, members_bytes(more));
    if k > 0 {
        assert(head.last() == set[k - 1]);
    }
    let end = at + 5 + x.body.len();
    lemma_costs(policy, body, n, k + 1, end, Some(x.id()));
}

/// A walk pays for what it does, and no less than nothing.
proof fn lemma_costs<P: Policy>(
    policy: &P,
    body: Seq<u8>,
    count: int,
    i: int,
    at: int,
    prev: Option<Seq<u8>>,
)
    ensures
        ({
            let w = walk_from(policy, body, count, i, at, prev);
            &&& 0 <= w.bodies <= w.ids <= w.bodies + 1
            &&& i <= count ==> w.ids <= count - i
            &&& w.result is Ok && i <= count ==> w.ids == count - i && w.bodies == count - i
        }),
    decreases count - i,
{
    if i < count && body.len() - at >= MIN_MEMBER {
        let kind = body[at];
        let len = seqs::le32(body, at + 1);
        let end = at + MIN_MEMBER + len;
        let bytes = body.subrange(at + MIN_MEMBER, end);
        lemma_costs(policy, body, count, i + 1, end, Some(crate::spec_block_id(kind, bytes)));
    }
}

/// What a walk costs: no more ids are hashed than there are members, no body is handed to
/// the policy whose id was not hashed, and at most one id was hashed in vain. What is
/// accepted was paid for once each; what is not a pack by its first bytes costs nothing.
pub proof fn law_a_walk_costs_at_most_its_members<P: Policy>(policy: &P, body: Seq<u8>)
    ensures
        ({
            let w = spec_walk(policy, body);
            &&& 0 <= w.bodies <= w.ids <= w.bodies + 1
            &&& w.result matches Ok(ms) ==> w.ids == ms.len() && w.bodies == ms.len()
            &&& w.ids > 0 ==> body.len() >= 6 && 5 * w.ids <= body.len() - 6
        }),
{
    if body.len() >= HEADER {
        let count = seqs::le16(body, 4);
        seqs::lemma_bytes16(body, 4);
        lemma_costs(policy, body, count, 0, HEADER as int, None);
        if spec_walk(policy, body).result is Ok {
            lemma_walk_tail(policy, body, count, 0, HEADER as int, None);
        }
    }
}

/// Members of two lists.
proof fn lemma_members_join(a: Seq<Block>, b: Seq<Block>)
    ensures
        members_bytes(a + b) == members_bytes(a) + members_bytes(b),
    decreases b.len(),
{
    if b.len() == 0 {
        assert(a + b =~= a);
        assert(members_bytes(a) + members_bytes(b) =~= members_bytes(a));
    } else {
        lemma_members_join(a, b.drop_last());
        assert((a + b).drop_last() =~= a + b.drop_last());
        assert((a + b).last() == b.last());
        assert(members_bytes(a + b) =~= members_bytes(a) + members_bytes(b));
    }
}

/// Bytes after the last member are refused: they would be a second encoding of one set.
pub proof fn law_a_pack_has_nothing_after_it<P: Policy>(
    policy: &P,
    set: Seq<Block>,
    tail: Seq<u8>,
)
    requires
        0 < set.len() <= 65535,
        ascending(set),
        forall|j: int|
            #![trigger set[j]]
            0 <= j < set.len() ==> {
                &&& set[j].body.len() <= u32::MAX
                &&& policy.spec_packable(set[j].kind)
                &&& set[j].body.len() <= policy.spec_max_body(set[j].kind)
                &&& policy.spec_well_formed(set[j].kind, set[j].body)
            },
        tail.len() > 0,
    ensures
        spec_walk(policy, pack_bytes(set) + tail).result == Err::<Seq<Found>, PackError>(
            PackError::TrailingBytes { left: tail.len() as usize },
        ),
{
    let body = pack_bytes(set) + tail;
    lemma_begins(set, tail);
    lemma_members_len(set);
    assert forall|j: int| 0 <= j < set.len() implies welcome(policy, #[trigger] set[j])
        && set[j].body.len() <= u32::MAX by {}
    lemma_walk_on(policy, body, set.len() as int, 0, 6, None, set, tail);
}

/// What is built walks: a body that [`build`] gives back is one the format
/// accepts, and it yields the set that was packed.
pub proof fn law_a_built_pack_walks(set: Seq<Block>)
    requires
        ascending(set),
        spec_build(set) is Ok,
    ensures
        spec_walk(&FormatOnly, spec_build(set)->Ok_0).result == Ok::<Seq<Found>, PackError>(
            set.map_values(|b: Block| b.found()),
        ),
{
    let body = pack_bytes(set);
    let n = set.len() as int;
    assert(body.len() >= 6);
    assert(body.subrange(4, 6) =~= seqs::to_le16(n));
    assert(seqs::to_le16(n).subrange(0, 2) =~= seqs::to_le16(n));
    seqs::lemma_le16(n);
    seqs::lemma_le_window(body, 4, seqs::to_le16(n), 0, 2);
    assert(body.subrange(6, body.len() as int) =~= members_bytes(set));
    lemma_members_len(set);
    lemma_walk_encoded(body, n, 0, 6, None, set);
}

/// Walking members that are there, in order, finds them.
proof fn lemma_walk_encoded(body: Seq<u8>, count: int, i: int, at: int, prev: Option<Seq<u8>>, rest: Seq<
    Block,
>)
    requires
        0 <= i,
        i + rest.len() == count,
        0 <= at <= body.len() <= MAX_PACK,
        body.subrange(at, body.len() as int) == members_bytes(rest),
        ascending(rest),
        prev is Some && rest.len() > 0 ==> order::lt(prev->Some_0, rest[0].id()),
    ensures
        walk_from(&FormatOnly, body, count, i, at, prev).result == Ok::<Seq<Found>, PackError>(
            rest.map_values(|b: Block| b.found()),
        ),
{
    assert forall|j: int| 0 <= j < rest.len() implies welcome(&FormatOnly, #[trigger] rest[j])
        && rest[j].body.len() <= u32::MAX by {
        lemma_member_fits(rest, j);
    }
    let none = Seq::<u8>::empty();
    assert(members_bytes(rest) + none =~= members_bytes(rest));
    lemma_walk_on(&FormatOnly, body, count, i, at, prev, rest, none);
    let all = rest.map_values(|b: Block| b.found());
    assert(all + Seq::<Found>::empty() =~= all);
}

/// A member is no longer than all of them.
proof fn lemma_member_fits(set: Seq<Block>, j: int)
    requires
        0 <= j < set.len(),
    ensures
        set[j].body.len() <= members_bytes(set).len(),
    decreases set.len(),
{
    if j < set.len() - 1 {
        lemma_member_fits(set.drop_last(), j);
        assert(set.drop_last()[j] == set[j]);
    }
}

/// Every member takes its minimum.
proof fn lemma_members_len(set: Seq<Block>)
    ensures
        members_bytes(set).len() >= 5 * set.len(),
    decreases set.len(),
{
    if set.len() > 0 {
        lemma_members_len(set.drop_last());
    }
}

/// Every block of `a` is in `b`.
pub open spec fn within(a: Seq<Block>, b: Seq<Block>) -> bool {
    forall|i: int| 0 <= i < a.len() ==> b.contains(#[trigger] a[i])
}

/// Two ascending lists of the same blocks are the same list.
proof fn lemma_ascending_unique(a: Seq<Block>, b: Seq<Block>, k: int)
    requires
        ascending(a),
        ascending(b),
        within(a, b),
        within(b, a),
        0 <= k <= a.len(),
    ensures
        k <= b.len(),
        a.take(k) == b.take(k),
    decreases k,
{
    if k > 0 {
        let n = k - 1;
        lemma_ascending_unique(a, b, n);
        assert(b.contains(a[n]));
        let p = choose|p: int| 0 <= p < b.len() && b[p] == a[n];
        if p < n {
            assert(b.take(n)[p] == a.take(n)[p]);
            assert(order::lt(a[p].id(), a[n].id()));
            order::lemma_lt_irreflexive(a[n].id());
        }
        assert(a.contains(b[n]));
        let q = choose|q: int| 0 <= q < a.len() && a[q] == b[n];
        if q < n {
            assert(b.take(n)[q] == a.take(n)[q]);
            assert(order::lt(b[q].id(), b[n].id()));
            order::lemma_lt_irreflexive(b[n].id());
        }
        if p > n && q > n {
            assert(order::lt(b[n].id(), b[p].id()));
            assert(order::lt(a[n].id(), a[q].id()));
            order::lemma_lt_trans(a[n].id(), b[n].id(), a[n].id());
            order::lemma_lt_irreflexive(a[n].id());
        }
        assert(a[n] == b[n]);
        assert(a.take(k) =~= a.take(n).push(a[n]));
        assert(b.take(k) =~= b.take(n).push(b[n]));
    }
}

/// No two of these blocks share an id without being the same block.
pub open spec fn ids_tell_apart(all: Seq<Block>) -> bool {
    forall|i: int, j: int|
        0 <= i < all.len() && 0 <= j < all.len() && (#[trigger] all[i]).id() == (
        #[trigger] all[j]).id() ==> all[i] == all[j]
}

/// What a set of blocks is, as a list.
pub proof fn lemma_set_of(set: Seq<Block>, all: Seq<Block>)
    requires
        is_set_of(set, all),
    ensures
        ascending(set),
        within(set, all),
        ids_tell_apart(all) ==> within(all, set),
{
    let picked = choose|picked: Seq<int>| #[trigger]
        picks(all, 0, all.len() as int, picked) && set == picked.map_values(|i: int| all[i]);
    assert forall|i: int| 0 <= i < set.len() implies all.contains(#[trigger] set[i]) by {
        assert(set[i] == all[picked[i]]);
    }
    assert forall|i: int, j: int| 0 <= i < j < set.len() implies order::lt(
        (#[trigger] set[i]).id(),
        (#[trigger] set[j]).id(),
    ) by {
        assert(set[i] == all[picked[i]] && set[j] == all[picked[j]]);
    }
    if ids_tell_apart(all) {
        assert forall|i: int| 0 <= i < all.len() implies set.contains(#[trigger] all[i]) by {
            assert(has_id(all, picked, all[i].id()));
            let p = choose|p: int|
                0 <= p < picked.len() && all[#[trigger] picked[p]].id() == all[i].id();
            assert(set[p] == all[picked[p]]);
        }
    }
}

/// Two writers packing the same blocks produce the same pack, whatever the order
/// and however often each block is offered.
pub proof fn law_two_writers_agree(a: Seq<Block>, b: Seq<Block>, x: Seq<Block>, y: Seq<Block>)
    requires
        within(a, b),
        within(b, a),
        ids_tell_apart(a),
        is_set_of(x, a),
        is_set_of(y, b),
    ensures
        x == y,
        spec_build(x) == spec_build(y),
{
    assert(ids_tell_apart(b)) by {
        assert forall|i: int, j: int|
            0 <= i < b.len() && 0 <= j < b.len() && (#[trigger] b[i]).id() == (
            #[trigger] b[j]).id() implies b[i] == b[j] by {
            assert(a.contains(b[i]) && a.contains(b[j]));
            let p = choose|p: int| 0 <= p < a.len() && a[p] == b[i];
            let q = choose|q: int| 0 <= q < a.len() && a[q] == b[j];
            assert(a[p].id() == a[q].id());
        }
    }
    lemma_set_of(x, a);
    lemma_set_of(y, b);
    assert(within(x, y)) by {
        assert forall|i: int| 0 <= i < x.len() implies y.contains(#[trigger] x[i]) by {
            assert(a.contains(x[i]));
            let p = choose|p: int| 0 <= p < a.len() && a[p] == x[i];
            assert(b.contains(a[p]));
            let q = choose|q: int| 0 <= q < b.len() && b[q] == a[p];
            assert(y.contains(b[q]));
        }
    }
    assert(within(y, x)) by {
        assert forall|i: int| 0 <= i < y.len() implies x.contains(#[trigger] y[i]) by {
            assert(b.contains(y[i]));
            let p = choose|p: int| 0 <= p < b.len() && b[p] == y[i];
            assert(a.contains(b[p]));
            let q = choose|q: int| 0 <= q < a.len() && a[q] == b[p];
            assert(x.contains(a[q]));
        }
    }
    lemma_ascending_unique(x, y, x.len() as int);
    lemma_ascending_unique(y, x, y.len() as int);
    assert(x.take(x.len() as int) =~= x);
    assert(y.take(y.len() as int) =~= y);
}

} // verus!
