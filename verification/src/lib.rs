//! Prolly tree: a sorted `key -> value` map whose shape and root hash are a pure
//! function of its contents.

use vstd::prelude::*;

pub mod aggregate;
pub mod align;
pub mod answers;
pub mod apply;
pub mod asks;
pub mod boundary;
pub mod bounds;
pub mod build;
pub mod built;
pub mod canon;
pub mod carried;
pub mod chunk;
pub mod counted;
pub mod cursor;
pub mod diff;
pub mod edges;
pub mod edits;
pub mod expand;
pub mod gf;
pub mod grow;
pub mod grouped;
pub mod handed;
pub mod honest;
pub mod kind;
pub mod lacks;
pub mod linear;
pub mod measure;
pub mod merge;
pub mod node;
pub mod order;
pub mod pack;
pub mod pages;
pub mod parity;
pub mod pick;
pub mod proofs;
pub mod protected;
pub mod range;
pub mod read;
pub mod rebuild;
pub mod refute;
pub mod restate;
pub mod rs;
pub mod rule;
pub mod seqs;
pub mod served;
pub mod size;
pub mod slots;
pub mod spare;
pub mod splice;
pub mod steps;
pub mod store;
pub mod tower;
pub mod tree;
pub mod unique;
pub mod wire;

verus! {

/// Id of a block. A child pointer read from a parent is exactly what fetches the
/// child.
pub type Cid = [u8; 32];

/// The BLAKE3 digest of a byte string.
pub uninterp spec fn blake3_digest(data: Seq<u8>) -> [u8; 32];

/// `blake3::hash`: the 32-byte BLAKE3 digest of `data`, a function of those bytes
/// alone. What the digest of given bytes is stays unsaid.
#[verifier::external_body]
pub(crate) fn blake3_hash(data: &[u8]) -> (h: [u8; 32])
    ensures
        h == blake3_digest(data@),
{
    *blake3::hash(data).as_bytes()
}

/// The id of a block of `kind` holding `body`.
pub open spec fn spec_block_id(kind: u8, body: Seq<u8>) -> Seq<u8> {
    blake3_digest(seq![kind] + body)@
}

/// The id of a block of `kind` holding `body`: `BLAKE3(kind || body)`, which is
/// the hash of the block's stored state.
pub fn block_id(kind: u8, body: &[u8]) -> (id: Cid)
    ensures
        id@ == spec_block_id(kind, body@),
{
    let mut state: Vec<u8> = Vec::with_capacity(1);
    state.push(kind);
    state.extend_from_slice(body);
    assert(state@ =~= seq![kind] + body@);
    blake3_hash(&state)
}

} // verus!
