//! What a block holds. The values are hashed into every id, so they are part of
//! the format.

use vstd::prelude::*;

verus! {

/// Opaque bytes: a value stored outside its leaf.
pub const RAW: u8 = 0;

/// A tree node (`PT01`).
pub const TREE_NODE: u8 = 1;

/// A parity block of a group of members.
pub const PARITY: u8 = 2;

} // verus!
