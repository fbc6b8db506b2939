//! What a refutation says: two blocks that cannot both be right, and nothing else.

use crate::aggregate;
use crate::canon;
use crate::kind;
use crate::node;
use crate::node::NodeView;
use crate::store;
use crate::store::{BlockMap, Fault, HeldView};
use vstd::prelude::*;

verus! {

/// Two blocks refute each other exactly where the first is a branch that names the
/// second, and they disagree: on how many entries there are or how many bytes they stand
/// for, whichever of the two says more; on the level; or on the first key. Anything else
/// is no such pair.
pub proof fn law_any_disagreement_is_fraud(parent: Seq<u8>, child: Seq<u8>)
    ensures
        aggregate::spec_fraud(parent, child) <==> {
            let p = node::parse_spec(parent);
            let c = node::parse_spec(child);
            &&& p is Ok
            &&& c is Ok
            &&& p->Ok_0.level >= 1
            &&& exists|i: int|
                0 <= i < p->Ok_0.rows.len() && {
                    let row = #[trigger] p->Ok_0.rows[i];
                    &&& row.held matches node::Payload::Child { cid, agg }
                    &&& cid == crate::spec_block_id(kind::TREE_NODE, child)
                    &&& {
                        ||| agg.count != c->Ok_0.agg().count
                        ||| agg.bytes != c->Ok_0.agg().bytes
                        ||| p->Ok_0.level != c->Ok_0.level + 1
                        ||| c->Ok_0.rows.len() > 0 && row.key != c->Ok_0.rows[0].key
                    }
                }
        },
{
    if node::parse_spec(parent) is Ok && node::parse_spec(child) is Ok {
        let p = node::parse_spec(parent)->Ok_0;
        let c = node::parse_spec(child)->Ok_0;
        canon::law_parsed_bytes_are_the_encoding(parent);
        assert(p.valid());
        assert forall|i: int| 0 <= i < p.rows.len() && p.level > 0 implies (#[trigger] p.rows[i]).held is Child by {
            assert(node::row_fits(p.level, p.rows[i]));
        }
        assert forall|i: int| 0 <= i < p.rows.len() && p.level > 0 && store::child_cid(
            #[trigger] p.rows[i],
        ) == crate::spec_block_id(kind::TREE_NODE, child) implies (aggregate::contradicts(p, i, c) <==> {
            let agg = p.rows[i].held->agg;
            ||| agg.count != c.agg().count
            ||| agg.bytes != c.agg().bytes
            ||| p.level != c.level + 1
            ||| c.rows.len() > 0 && p.rows[i].key != c.rows[0].key
        }) by {
            let agg = p.rows[i].held->agg;
            assert(agg == store::child_agg(p.rows[i]));
            if agg.count == c.agg().count && agg.bytes == c.agg().bytes {
                assert(agg == c.agg());
            }
        }
        if aggregate::spec_fraud(parent, child) {
            let i = choose|i: int|
                0 <= i < p.rows.len() && store::child_cid(#[trigger] p.rows[i])
                    == crate::spec_block_id(kind::TREE_NODE, child) && aggregate::contradicts(p, i, c);
            assert(p.rows[i].held is Child);
        }
    }
}

/// Refuting is the counterpart of opening. Where a branch names a block, and a reader of
/// the branch that holds the block is told it is not what the branch says, the two blocks
/// refute each other; unless the block is an empty node, or all that is wrong is that its
/// keys run past the bound it inherits, which the branch alone does not record. And where
/// two blocks refute each other, no reader of the branch can open the child it names there.
pub proof fn law_what_cannot_be_opened_is_refuted(
    m: BlockMap,
    h: HeldView,
    i: int,
    parent: Seq<u8>,
    child: Seq<u8>,
)
    requires
        node::parse_spec(parent) == Ok::<NodeView, node::NodeError>(h.node),
        h.node.level > 0,
        0 <= i < h.node.rows.len(),
        store::child_cid(h.node.rows[i]) == crate::spec_block_id(kind::TREE_NODE, child),
        m.contains_key(store::child_cid(h.node.rows[i])),
        m[store::child_cid(h.node.rows[i])] == child,
        node::parse_spec(child) is Ok,
    ensures
        ({
            let c = node::parse_spec(child)->Ok_0;
            let cid = store::child_cid(h.node.rows[i]);
            &&& store::opened(m, h, i) is Err && c.rows.len() > 0 && store::ends_before(
                c,
                store::child_bound(h, i),
            ) ==> aggregate::spec_fraud(parent, child) && store::opened(m, h, i) == Err::<HeldView, Fault>(
                Fault::Mismatch(cid),
            )
            &&& aggregate::spec_fraud(parent, child) ==> exists|j: int|
                0 <= j < h.node.rows.len() && store::child_cid(h.node.rows[j]) == cid
                    && #[trigger] store::opened(m, h, j) == Err::<HeldView, Fault>(
                    Fault::Mismatch(cid),
                )
        }),
{
    reveal(store::loaded);
    let p = h.node;
    let c = node::parse_spec(child)->Ok_0;
    let cid = store::child_cid(p.rows[i]);
    if store::opened(m, h, i) is Err && c.rows.len() > 0 && store::ends_before(
        c,
        store::child_bound(h, i),
    ) {
        assert(aggregate::contradicts(p, i, c));
    }
    if aggregate::spec_fraud(parent, child) {
        let j = choose|j: int|
            0 <= j < p.rows.len() && store::child_cid(#[trigger] p.rows[j])
                == crate::spec_block_id(kind::TREE_NODE, child) && aggregate::contradicts(p, j, c);
        assert(store::opened(m, h, j) == Err::<HeldView, Fault>(Fault::Mismatch(cid)));
    }
}

} // verus!
