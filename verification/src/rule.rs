//! The boundary rule, and the nodes it makes: what is accepted as a node is what the rule
//! would have made of its entries.

use crate::boundary;
use crate::boundary::BoundaryError;
use crate::chunk;
use crate::chunk::{ByContent, Cut, Rule};
use crate::node;
use crate::node::{NodeView, Row};
use crate::parity;
use crate::rebuild;
use crate::splice;
use crate::store::BlockMap;
use crate::tower;
use vstd::prelude::*;

verus! {

/// The format's rule, as a function.
pub open spec fn by_content() -> Rule {
    chunk::rule_of(&ByContent)
}

/// No node under a kibibyte is closed by its content, and from there on a node closes
/// where its hash, out of 2^32, is under the growth of the fourth power of its size, out
/// of the fourth power of 4400.
pub proof fn law_a_node_closes_by_its_hash_and_growth(
    level: u8,
    key: Seq<u8>,
    before: int,
    after: int,
)
    requires
        0 <= before < after,
    ensures
        boundary::spec_splits_after(level, key, before, after) <==> after >= 1024
            && boundary::spec_split_hash(level, key) * (4400int * 4400 * 4400 * 4400) < ((after
            * after) * (after * after) - (before * before) * (before * before)) * 0x1_0000_0000,
{
    assert(4400int * 4400 * 4400 * 4400 == (4400int * 4400) * (4400int * 4400));
}

/// A node that closes with some hash and growth closes with a lower hash too, and with
/// more growth: at a greater size after the entry, or at a lesser one before it.
pub proof fn law_a_lower_hash_or_more_growth_closes_too(
    h: u32,
    before: int,
    after: int,
    low: u32,
    less: int,
    more: int,
)
    requires
        0 <= less <= before < after <= more,
        low <= h,
        boundary::hazard(h, before, after),
    ensures
        boundary::hazard(low, less, more),
{
    lemma_fourth(less, before);
    lemma_fourth(after, more);
    let l = boundary::pow4(boundary::LAMBDA as int);
    assert(l >= 0) by {
        assert((4400int * 4400) * (4400int * 4400) == 374809600000000);
    }
    assert(low * l <= h * l) by (nonlinear_arith)
        requires
            low <= h,
            l >= 0,
    ;
}

/// The fourth power grows.
proof fn lemma_fourth(x: int, y: int)
    requires
        0 <= x <= y,
    ensures
        boundary::pow4(x) <= boundary::pow4(y),
{
    assert(0 <= x * x <= y * y) by (nonlinear_arith)
        requires
            0 <= x <= y,
    ;
    let u = x * x;
    let v = y * y;
    assert(u * u <= v * v) by (nonlinear_arith)
        requires
            0 <= u <= v,
    ;
}

/// Is there room for entry `i` after the ones before it, and does the node not close at it
/// before its end?
spec fn fine_at(n: NodeView, i: int) -> bool {
    let s = node::logical(n.rows.take(i));
    let after = s + node::row_cost(n.rows[i]);
    after <= boundary::MAX_LOGICAL && (i + 1 < n.rows.len() ==> !boundary::spec_splits_after(
        n.level,
        n.rows[i].key,
        s,
        after,
    ))
}

/// The first entry from `i` on that is not fine.
proof fn lemma_first_fault(n: NodeView, i: int) -> (j: int)
    requires
        0 <= i <= n.rows.len(),
    ensures
        i <= j <= n.rows.len(),
        forall|k: int| i <= k < j ==> #[trigger] fine_at(n, k),
        boundary::entry_fault(n, i) is None <==> j == n.rows.len(),
        j < n.rows.len() ==> !fine_at(n, j) && boundary::entry_fault(n, i) == Some(
            if node::logical(n.rows.take(j)) + node::row_cost(n.rows[j]) > boundary::MAX_LOGICAL {
                BoundaryError::TooLarge
            } else {
                BoundaryError::InteriorSplit(j as usize)
            },
        ),
    decreases n.rows.len() - i,
{
    if i < n.rows.len() && fine_at(n, i) {
        lemma_first_fault(n, i + 1)
    } else {
        i
    }
}

/// Entries that are fine stay in one node.
proof fn lemma_stays_open(n: NodeView, k: int)
    requires
        0 <= k <= n.rows.len(),
        forall|j: int| 0 <= j < k ==> #[trigger] fine_at(n, j),
    ensures
        k < n.rows.len() ==> chunk::cut_from(
            n.level,
            by_content(),
            chunk::uncut(),
            n.rows.take(k),
        ) == (Cut { closed: Seq::empty(), open: n.rows.take(k) }),
        k == n.rows.len() && k > 0 ==> chunk::chunks(n.level, by_content(), n.rows) == seq![n.rows],
    decreases k,
{
    let rule = by_content();
    let rows = n.rows.take(k);
    if k == 0 {
        assert(rows =~= Seq::<Row>::empty());
    } else {
        lemma_stays_open(n, k - 1);
        assert(fine_at(n, k - 1));
        let was = n.rows.take(k - 1);
        assert(rows.drop_last() =~= was);
        assert(was.push(n.rows[k - 1]) =~= rows);
        let c = chunk::cut_from(n.level, rule, chunk::uncut(), was);
        assert(c == (Cut { closed: Seq::empty(), open: was }));
        assert(!chunk::overflows(was, rows.last()));
        assert(chunk::made_room(c, rows.last()) == c);
        assert(chunk::fires(n.level, rule, rows) == boundary::spec_splits_after(
            n.level,
            rows.last().key,
            node::logical(was),
            node::logical(rows),
        ));
        if k == n.rows.len() {
            assert(rows =~= n.rows);
            assert(Seq::<Seq<Row>>::empty().push(n.rows) =~= seq![n.rows]);
        }
    }
}

/// What was closed stays closed.
proof fn lemma_stays_closed(level: u8, rule: Rule, c: Cut, rows: Seq<Row>)
    requires
        c.closed.len() > 0,
    ensures
        chunk::cut_from(level, rule, c, rows).closed.len() > 0,
        chunk::cut_from(level, rule, c, rows).closed[0] == c.closed[0],
    decreases rows.len(),
{
    if rows.len() > 0 {
        lemma_stays_closed(level, rule, c, rows.drop_last());
    }
}

/// At the first entry that is not fine the rule closes a node: before the entry where
/// there is no room for it, else after it.
proof fn lemma_closes(n: NodeView, j: int)
    requires
        0 <= j < n.rows.len(),
        forall|k: int| 0 <= k < j ==> #[trigger] fine_at(n, k),
        !fine_at(n, j),
    ensures
        ({
            let cs = chunk::chunks(n.level, by_content(), n.rows);
            &&& cs.len() > 0
            &&& cs[0] == n.rows.take(
                if node::logical(n.rows.take(j)) + node::row_cost(n.rows[j])
                    > boundary::MAX_LOGICAL {
                    j
                } else {
                    j + 1
                },
            )
            &&& node::logical(n.rows.take(j)) + node::row_cost(n.rows[j]) <= boundary::MAX_LOGICAL
                ==> j + 1 < n.rows.len()
        }),
{
    let rule = by_content();
    lemma_stays_open(n, j);
    let was = n.rows.take(j);
    let here = n.rows.take(j + 1);
    let row = n.rows[j];
    assert(here.drop_last() =~= was);
    assert(was.push(row) =~= here);
    let c = chunk::cut_from(n.level, rule, chunk::uncut(), was);
    let d = chunk::cut_from(n.level, rule, chunk::uncut(), here);
    assert(d == chunk::step(n.level, rule, c, row));
    let rest = n.rows.skip(j + 1);
    assert(here + rest =~= n.rows);
    splice::lemma_cut_on(n.level, rule, chunk::uncut(), here, rest);
    if chunk::overflows(was, row) {
        assert(chunk::made_room(c, row).closed[0] == was);
        assert(d.closed[0] == was);
    } else {
        assert(chunk::fires(n.level, rule, here));
        assert(d.closed[0] == here);
    }
    lemma_stays_closed(n.level, rule, d, rest);
}

/// A node is accepted where the rule makes one node of its entries, that one, and it has
/// three parity ids for each of its groups. It is refused as too large, or as one that
/// should have been closed after an entry, where the rule closes a node before its end.
pub proof fn law_a_node_is_accepted_where_the_rule_makes_it(n: NodeView)
    requires
        n.rows.len() > 0,
    ensures
        ({
            let cs = chunk::chunks(n.level, by_content(), n.rows);
            let whole = cs == seq![n.rows];
            let groups = parity::groups(n.level, n.rows).len();
            &&& boundary::node_fault(n) is None <==> whole && n.parity.len() == 3 * groups
            &&& boundary::node_fault(n) matches Some(BoundaryError::WrongParityCount(want, got))
                ==> whole && n.parity.len() != 3 * groups
            &&& whole && n.parity.len() != 3 * groups ==> boundary::node_fault(n) == Some(
                BoundaryError::WrongParityCount((3 * groups) as usize, n.parity.len() as usize),
            )
            &&& boundary::node_fault(n) matches Some(BoundaryError::InteriorSplit(i)) ==> !whole
                && exists|j: int|
                0 <= j && j + 1 < n.rows.len() && i == j as usize && cs.len() > 0 && cs[0]
                    == #[trigger] n.rows.take(j + 1)
            &&& boundary::node_fault(n) matches Some(BoundaryError::TooLarge) ==> !whole
                && cs.len() > 0 && cs[0].len() < n.rows.len() && node::logical(cs[0])
                + node::row_cost(n.rows[cs[0].len() as int]) > 12288
        }),
{
    let j = lemma_first_fault(n, 0);
    let cs = chunk::chunks(n.level, by_content(), n.rows);
    if j == n.rows.len() {
        lemma_stays_open(n, j);
    } else {
        lemma_closes(n, j);
        assert(cs[0].len() < n.rows.len());
        assert(cs != seq![n.rows]) by {
            assert(seq![n.rows][0] == n.rows);
        }
        if node::logical(n.rows.take(j)) + node::row_cost(n.rows[j]) <= boundary::MAX_LOGICAL {
            assert(cs[0] == n.rows.take(j + 1));
        }
    }
}

/// Every node that a level is cut into is accepted.
pub proof fn law_what_the_rule_makes_is_accepted(w: BlockMap, level: u8, rows: Seq<Row>, i: int)
    requires
        tower::all_small(rows),
        0 <= i < tower::level_nodes(w, by_content(), level, rows).len(),
    ensures
        boundary::node_fault(tower::level_nodes(w, by_content(), level, rows)[i]) is None,
{
    let rule = by_content();
    let cs = chunk::chunks(level, rule, rows);
    let n = tower::level_nodes(w, rule, level, rows)[i];
    assert(n.rows == cs[i]);
    splice::lemma_chunks_well(level, rule, rows);
    assert(splice::whole_run(level, rule, cs[i])) by {
        reveal(splice::well_cut);
    }
    assert(chunk::chunks(level, rule, cs[i]) =~= seq![cs[i]]);
    rebuild::lemma_parity_len(w, level, cs[i], parity::groups(level, cs[i]).len());
    law_a_node_is_accepted_where_the_rule_makes_it(n);
}

} // verus!
