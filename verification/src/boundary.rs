//! Where one node ends and the next begins.
//!
//! The decision is made per entry, after the entry is added to the open node:
//!
//! ```text
//! h32 = first 4 bytes (LE) of BLAKE3("PT01-split" || level || key)
//! split after this entry  iff  s_after >= MIN_SPLIT
//!                          and  h32 * LAMBDA^4  <  (s_after^4 - s_before^4) * 2^32
//! ```
//! where `s` is the open node's logical length before and after the entry. The
//! hash depends on the key alone, so a value edit never changes whether an entry
//! can be a boundary; the size term makes a split ever more likely as the node
//! grows, which keeps node sizes tight around the mean.
//!
//! An entry that would push the open node past [`MAX_LOGICAL`] closes the node
//! before it instead.

use crate::blake3_hash;
use crate::node;
use crate::node::{Node, NodeBuilder, NodeView, HEADER, MAX_NODE};
use crate::parity;
use crate::seqs;
use vstd::prelude::*;

verus! {

/// Scale of the split hazard.
pub const LAMBDA: u64 = 4400;

/// No content-defined split closes a node smaller than this.
pub const MIN_SPLIT: usize = 1024;

/// Hard limit on a node's logical length. The rest of the node is reserved for
/// parity ids, which are not part of the boundary measure.
pub const MAX_LOGICAL: usize = 12288;

/// Hard limit on a leaf's logical length.
pub const MAX_LEAF: usize = MAX_LOGICAL;

/// Hard limit on a branch's logical length.
pub const MAX_BRANCH: usize = MAX_LOGICAL;

const LAMBDA4: u128 = 374809600000000;

/// Hard limit on the logical length of a node at `level`.
pub fn limit(level: u8) -> (n: usize)
    ensures
        n == MAX_LOGICAL,
{
    if level == 0 {
        MAX_LEAF
    } else {
        MAX_BRANCH
    }
}

/// The fourth power.
pub open spec fn pow4(s: int) -> int {
    (s * s) * (s * s)
}

/// The bytes whose digest decides a split.
pub open spec fn split_input(level: u8, key: Seq<u8>) -> Seq<u8> {
    seq![0x50u8, 0x54, 0x30, 0x31, 0x2d, 0x73, 0x70, 0x6c, 0x69, 0x74] + seq![level] + key
}

/// The split hash of a key.
pub open spec fn spec_split_hash(level: u8, key: Seq<u8>) -> u32 {
    seqs::le32(crate::blake3_digest(split_input(level, key))@, 0) as u32
}

/// The split decision for a hash and the sizes around the entry.
pub open spec fn hazard(h: u32, s_before: int, s_after: int) -> bool {
    s_after >= MIN_SPLIT && h * pow4(LAMBDA as int) < (pow4(s_after) - pow4(s_before)) * 4294967296
}

/// Does a node at `level` close after the entry with `key`, which grew it from
/// `s_before` to `s_after`?
pub open spec fn spec_splits_after(level: u8, key: Seq<u8>, s_before: int, s_after: int) -> bool {
    hazard(spec_split_hash(level, key), s_before, s_after)
}

/// The per-entry split hash.
pub fn split_hash(level: u8, key: &[u8]) -> (h: u32)
    ensures
        h == spec_split_hash(level, key@),
{
    let none: [u8; 0] = [];
    assert(key@ + none@ =~= key@);
    split_hash_parts(level, key, none.as_slice())
}

/// The per-entry split hash of a key held as `prefix || suffix`.
pub fn split_hash_parts(level: u8, prefix: &[u8], suffix: &[u8]) -> (h: u32)
    ensures
        h == spec_split_hash(level, prefix@ + suffix@),
{
    let mut state: Vec<u8> = vec![0x50u8, 0x54, 0x30, 0x31, 0x2d, 0x73, 0x70, 0x6c, 0x69, 0x74];
    state.push(level);
    state.extend_from_slice(prefix);
    state.extend_from_slice(suffix);
    assert(state@ =~= split_input(level, prefix@ + suffix@));
    let d = blake3_hash(&state);
    seqs::u32_at(d.as_slice(), 0)
}

/// The fourth power of a size.
fn fourth(s: usize) -> (p: u128)
    requires
        s <= MAX_NODE,
    ensures
        p == pow4(s as int),
        p <= 72057594037927936,
{
    let x = s as u128;
    assert(x * x <= 268435456) by (nonlinear_arith)
        requires
            x <= 16384,
    ;
    let y: u128 = x * x;
    assert(y * y <= 72057594037927936) by (nonlinear_arith)
        requires
            y <= 268435456,
    ;
    y * y
}

/// The split decision, given the hash: `hash * LAMBDA^4` against the growth of
/// the fourth power of the size, in units of 2^-32.
pub fn splits_at(h: u32, s_before: usize, s_after: usize) -> (r: bool)
    requires
        s_before < s_after <= MAX_NODE,
    ensures
        r == hazard(h, s_before as int, s_after as int),
{
    if s_after < MIN_SPLIT {
        return false;
    }
    let a = fourth(s_after);
    let b = fourth(s_before);
    assert(pow4(s_before as int) <= pow4(s_after as int)) by {
        let x = s_before as int;
        let y = s_after as int;
        assert(x * x <= y * y) by (nonlinear_arith)
            requires
                0 <= x <= y,
        ;
        let u = x * x;
        let v = y * y;
        assert(u * u <= v * v) by (nonlinear_arith)
            requires
                0 <= u <= v,
        ;
        assert(0 <= u) by (nonlinear_arith)
            requires
                u == x * x,
        ;
    }
    assert(pow4(LAMBDA as int) == LAMBDA4) by {
        assert(4400int * 4400 == 19360000);
        assert(19360000int * 19360000 == 374809600000000);
    }
    let l = h as u128;
    assert(l * LAMBDA4 <= 4294967295 * 374809600000000) by (nonlinear_arith)
        requires
            l <= 4294967295,
    ;
    l * LAMBDA4 < (a - b) * 4294967296
}

/// Whether a node at `level` closes after the entry with `key`, which grew the
/// node's logical length from `s_before` to `s_after`.
pub fn splits_after(level: u8, key: &[u8], s_before: usize, s_after: usize) -> (r: bool)
    requires
        s_before < s_after <= MAX_NODE,
    ensures
        r == spec_splits_after(level, key@, s_before as int, s_after as int),
{
    if s_after < MIN_SPLIT {
        return false;
    }
    splits_at(split_hash(level, key), s_before, s_after)
}

/// [`splits_after`] for a key held as `prefix || suffix`.
pub fn splits_after_parts(
    level: u8,
    prefix: &[u8],
    suffix: &[u8],
    s_before: usize,
    s_after: usize,
) -> (r: bool)
    requires
        s_before < s_after <= MAX_NODE,
    ensures
        r == spec_splits_after(level, prefix@ + suffix@, s_before as int, s_after as int),
{
    if s_after < MIN_SPLIT {
        return false;
    }
    splits_at(split_hash_parts(level, prefix, suffix), s_before, s_after)
}

// ---------------------------------------------------------------------------
// checking a node
// ---------------------------------------------------------------------------

/// Why a node is not one the boundary rule makes.
#[derive(Clone, Copy, Debug, PartialEq, Eq, Structural)]
pub enum BoundaryError {
    /// Past the hard limit.
    TooLarge,
    /// An entry before the last, at which the node would have been closed.
    InteriorSplit(usize),
    /// How many parity ids the entries ask for, and how many there are.
    WrongParityCount(usize, usize),
}

/// The first thing wrong with the entries from `i` on.
pub open spec fn entry_fault(n: NodeView, i: int) -> Option<BoundaryError>
    decreases n.rows.len() - i,
{
    if i < 0 || i >= n.rows.len() {
        None
    } else {
        let s = node::logical(n.rows.take(i));
        let after = s + node::row_cost(n.rows[i]);
        if after > MAX_LOGICAL {
            Some(BoundaryError::TooLarge)
        } else if i + 1 < n.rows.len() && spec_splits_after(n.level, n.rows[i].key, s, after) {
            Some(BoundaryError::InteriorSplit(i as usize))
        } else {
            entry_fault(n, i + 1)
        }
    }
}

/// What is wrong with a node's parity count.
pub open spec fn parity_fault(n: NodeView) -> Option<BoundaryError> {
    let want = parity::PARITY * parity::groups(n.level, n.rows).len();
    if n.parity.len() == want {
        None
    } else {
        Some(BoundaryError::WrongParityCount(want as usize, n.parity.len() as usize))
    }
}

/// What is wrong with a node: its entries first, then its parity count.
pub open spec fn node_fault(n: NodeView) -> Option<BoundaryError> {
    match entry_fault(n, 0) {
        Some(e) => Some(e),
        None => parity_fault(n),
    }
}

/// A result as the fault it reports.
pub open spec fn fault_of(r: Result<(), BoundaryError>) -> Option<BoundaryError> {
    match r {
        Ok(_) => None,
        Err(e) => Some(e),
    }
}

/// Are the entries cut where the rule cuts them?
fn check_entries(node: &Node<'_>) -> (r: Result<(), BoundaryError>)
    ensures
        fault_of(r) == entry_fault(node@, 0),
{
    let level = node.level();
    let leaf = node.is_leaf();
    let prefix = node.prefix();
    let n = node.len();
    let mut s: usize = HEADER;
    let mut i: usize = 0;
    node.known_valid();
    let ghost rows = node@.rows;
    assert(rows.take(0) =~= Seq::<node::Row>::empty());
    while i < n
        invariant
            i <= n,
            n == rows.len(),
            rows == node@.rows,
            level == node@.level,
            leaf == (level == 0),
            prefix@ == node::prefix_bytes(rows),
            s == node::logical(rows.take(i as int)),
            s <= MAX_LOGICAL,
            forall|j: int| 0 <= j < rows.len() ==> node::row_fits(level, #[trigger] rows[j]),
            entry_fault(node@, 0) == entry_fault(node@, i as int),
        decreases n - i,
    {
        let suffix = node.suffix(i);
        assert(node::row_fits(level, rows[i as int]));
        let klen = prefix.len() + suffix.len();
        let after = s + if leaf {
            NodeBuilder::leaf_cost_len(klen, &node.value(i))
        } else {
            NodeBuilder::child_cost_len(klen)
        };
        if after > MAX_LOGICAL {
            return Err(BoundaryError::TooLarge);
        }
        if i + 1 < n && splits_after_parts(level, prefix, suffix, s, after) {
            return Err(BoundaryError::InteriorSplit(i));
        }
        assert(rows.take(i + 1).drop_last() =~= rows.take(i as int));
        s = after;
        i = i + 1;
    }
    Ok(())
}

/// Does the node carry as many parity ids as its entries ask for?
pub fn check_parity(node: &Node<'_>) -> (r: Result<(), BoundaryError>)
    ensures
        fault_of(r) == parity_fault(node@),
{
    check_parity_counted(node).0
}

/// [`check_parity`], with the number of grouping hashes taken.
fn check_parity_counted(node: &Node<'_>) -> (r: (Result<(), BoundaryError>, usize))
    ensures
        fault_of(r.0) == parity_fault(node@),
        r.1 == parity::members_below(node@.level, node@.rows, 4),
{
    let (want, hashed) = parity::pcount_counted(node);
    let got = node.parity_count();
    if want == got {
        (Ok(()), hashed)
    } else {
        (Err(BoundaryError::WrongParityCount(want, got)), hashed)
    }
}

/// Is this a node that the boundary rule and the grouping rule make? Everything
/// that can be checked from the node alone, and the entries before the grouping,
/// which costs a hash per member.
pub fn check_node(node: &Node<'_>) -> (r: Result<(), BoundaryError>)
    ensures
        fault_of(r) == node_fault(node@),
{
    check_node_counted(node).0
}

/// [`check_node`], with the number of grouping hashes it took: none for a node
/// that its entries alone refuse.
pub fn check_node_counted(node: &Node<'_>) -> (r: (Result<(), BoundaryError>, usize))
    ensures
        fault_of(r.0) == node_fault(node@),
        r.1 == (if entry_fault(node@, 0) is Some {
            0
        } else {
            parity::members_below(node@.level, node@.rows, 4)
        }),
{
    match check_entries(node) {
        Err(e) => (Err(e), 0),
        Ok(_) => check_parity_counted(node),
    }
}

} // verus!
