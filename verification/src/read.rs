//! Point lookup.

use crate::node;
use crate::node::{NodeView, Payload, Value};
use crate::order;
use crate::store;
use crate::store::{load, Blocks, Fault, Held, HeldView, ReadError};
use crate::tree;
use crate::Cid;
use vstd::prelude::*;

verus! {

/// Levels in the tree at `root`; 1 is a single leaf.
pub fn height<B: Blocks>(blocks: &B, root: &Cid) -> (r: Result<usize, ReadError>)
    ensures
        match r {
            Ok(n) => store::loaded(blocks.held(), root@) is Ok && n == store::loaded(
                blocks.held(),
                root@,
            )->Ok_0.level + 1,
            Err(e) => store::loaded(blocks.held(), root@) == Err::<NodeView, Fault>(e@),
        },
{
    match load(blocks, root) {
        Err(e) => Err(e),
        Ok(n) => Ok(n.level() as usize + 1),
    }
}

/// The answer of a lookup, as a mathematical value.
pub open spec fn answer(r: Result<Option<Value<'_>>, ReadError>) -> Result<Option<Payload>, Fault> {
    match r {
        Ok(Some(v)) => Ok(Some(v@)),
        Ok(None) => Ok(None),
        Err(e) => Err(e@),
    }
}

/// The value stored under `key` in the tree at `root`, if any.
pub fn get<'a, B: Blocks>(blocks: &'a B, root: &Cid, key: &[u8]) -> (r: Result<
    Option<Value<'a>>,
    ReadError,
>)
    ensures
        answer(r) == tree::lookup(tree::items(blocks.held(), root@), key@),
{
    let ghost m = blocks.held();
    let ghost all = tree::items(m, root@);
    let ghost mut s = tree::root_slot(m, root@);
    let mut at = match Held::root(blocks, root) {
        Err(e) => {
            proof {
                tree::lemma_flat_one(s);
                order::lemma_empty_first(key@);
                tree::lemma_rank_is(all, key@, 1);
            }
            return Err(e);
        },
        Ok(h) => h,
    };
    proof {
        tree::lemma_loaded(m, root@);
    }
    while !at.node().is_leaf()
        invariant
            m == blocks.held(),
            all == tree::items(m, root@),
            s.opened == Ok::<HeldView, Fault>(at@),
            at@.node.valid(),
            store::ends_before(at@.node, at@.upper),
            tree::lookup(all, key@) == tree::lookup(tree::flat(tree::level_slots(m, s, 0)), key@),
        decreases at@.node.level,
    {
        let n = at.node().len();
        assert(tree::steady(at@)) by {
            reveal(tree::steady);
        }
        let i = match at.node().search(key) {
            Ok(i) => i,
            Err(i) => {
                if i == 0 {
                    proof {
                        tree::lemma_child_slots(m, at@, 0, at@.node.rows.len());
                        let l = tree::child_slots(m, at@, 0, at@.node.rows.len());
                        let lo = at@.node.rows[0].key;
                        tree::lemma_flat_span(l, lo, at@.upper);
                        tree::lemma_lookup_before(tree::flat(l), lo, at@.upper, key@);
                    }
                    return Ok(None);
                }
                i - 1
            },
        };
        proof {
            let rows = at@.node.rows;
            if i + 1 < rows.len() {
                assert(order::lt(rows[i as int].key, rows[i + 1].key));
            }
            tree::lemma_lookup_child(m, at@, key@, i as int);
            s = tree::child_slot(m, at@, i as int);
            tree::lemma_loaded(m, store::child_cid(rows[i as int]));
        }
        at = match at.open(blocks, i) {
            Err(e) => {
                proof {
                    tree::lemma_flat_one(s);
                    let its = tree::slot_items(s);
                    tree::lemma_rank_is(its, key@, 1);
                }
                return Err(e);
            },
            Ok(h) => h,
        };
    }
    let ghost rows = at@.node.rows;
    proof {
        tree::lemma_flat_one(s);
    }
    match at.node().search(key) {
        Ok(i) => {
            proof {
                tree::lemma_lookup_leaf(at@, s, key@, i as int, true);
            }
            Ok(Some(at.node().value(i)))
        },
        Err(i) => {
            proof {
                tree::lemma_lookup_leaf(at@, s, key@, i as int, false);
            }
            Ok(None)
        },
    }
}

} // verus!
