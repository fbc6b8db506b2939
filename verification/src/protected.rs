//! The parity that a build promises exists: every parity id of a node that was closed is
//! the id of a block that the build hands back.

use crate::build;
use crate::build::{Built, LevelView, State};
use crate::chunk;
use crate::chunk::{Pushed, Rule};
use crate::kind;
use crate::node::{NodeView, Row};
use crate::parity;
use crate::parity::Known;
use crate::store::BlockMap;
use vstd::prelude::*;

verus! {

/// Is this the id of one of these parity blocks?
pub open spec fn backed_by(id: Seq<u8>, blocks: Seq<Seq<u8>>) -> bool {
    exists|k: int|
        0 <= k < blocks.len() && crate::spec_block_id(kind::PARITY, #[trigger] blocks[k]) == id
}

/// Is every parity id of a node that of one of these blocks?
pub open spec fn node_backed(n: NodeView, blocks: Seq<Seq<u8>>) -> bool {
    forall|j: int| 0 <= j < n.parity.len() ==> backed_by(#[trigger] n.parity[j], blocks)
}

/// More blocks back what some of them did.
proof fn lemma_backed_more(id: Seq<u8>, a: Seq<Seq<u8>>, b: Seq<Seq<u8>>)
    ensures
        backed_by(id, a) || backed_by(id, b) <==> backed_by(id, a + b),
{
    let all = a + b;
    if backed_by(id, a) {
        let k = choose|k: int|
            0 <= k < a.len() && crate::spec_block_id(kind::PARITY, #[trigger] a[k]) == id;
        assert(all[k] == a[k]);
    }
    if backed_by(id, b) {
        let k = choose|k: int|
            0 <= k < b.len() && crate::spec_block_id(kind::PARITY, #[trigger] b[k]) == id;
        assert(all[a.len() + k] == b[k]);
    }
    if backed_by(id, all) {
        let k = choose|k: int|
            0 <= k < all.len() && crate::spec_block_id(kind::PARITY, #[trigger] all[k]) == id;
        if k < a.len() {
            assert(a[k] == all[k]);
        } else {
            assert(b[k - a.len()] == all[k]);
        }
    }
}

/// Listing ids lists them.
proof fn lemma_listed(n: NodeView, ids: Seq<Seq<u8>>, count: nat)
    requires
        count <= ids.len(),
        chunk::with_ids(n, ids, count) is Ok,
    ensures
        chunk::with_ids(n, ids, count)->Ok_0.parity == n.parity + ids.take(count as int),
    decreases count,
{
    if count > 0 {
        lemma_listed(n, ids, (count - 1) as nat);
        assert(ids.take(count as int) =~= ids.take(count - 1).push(ids[count - 1]));
        assert(n.parity + ids.take(count as int) =~= (n.parity + ids.take(count - 1)).push(
            ids[count - 1],
        ));
    } else {
        assert(n.parity + ids.take(0) =~= n.parity);
    }
}

/// A fresh node lists the ids of the blocks that were coded for it.
proof fn lemma_made(m: BlockMap, level: u8, rows: Seq<Row>, n: nat)
    requires
        chunk::made(m, Seq::empty(), level, rows, n) is Ok,
    ensures
        ({
            let d = chunk::made(m, Seq::empty(), level, rows, n)->Ok_0;
            d.node.parity == chunk::parity_ids(d.coded)
        }),
    decreases n,
{
    let none = Seq::<Known>::empty();
    let d = chunk::made(m, none, level, rows, n)->Ok_0;
    if n == 0 {
        assert(chunk::parity_ids(d.coded) =~= Seq::<Seq<u8>>::empty());
    } else {
        lemma_made(m, level, rows, (n - 1) as nat);
        let was = chunk::made(m, none, level, rows, (n - 1) as nat)->Ok_0;
        let group = parity::groups(level, rows)[n - 1];
        assert(parity::find_exact(none, group.class, group.members, 0) is None);
        assert(parity::find_one_off(none, group.class, group.members, 0) is None);
        let g = chunk::group_code(m, none, level == 0, group)->Ok_0;
        assert(g.ids == chunk::parity_ids(g.blocks));
        lemma_listed(was.node, g.ids, g.ids.len());
        assert(g.ids.take(g.ids.len() as int) =~= g.ids);
        assert(chunk::parity_ids(was.coded + g.blocks) =~= chunk::parity_ids(was.coded) + g.ids);
    }
}

/// A fresh node is backed by the blocks that were coded for it.
proof fn lemma_closing(m: BlockMap, level: u8, rows: Seq<Row>)
    requires
        chunk::closing(m, Seq::empty(), level, rows) is Ok,
    ensures
        ({
            let d = chunk::closing(m, Seq::empty(), level, rows)->Ok_0;
            node_backed(d.node, d.coded)
        }),
{
    lemma_made(m, level, rows, parity::groups(level, rows).len());
    let d = chunk::closing(m, Seq::empty(), level, rows)->Ok_0;
    assert forall|j: int| 0 <= j < d.node.parity.len() implies backed_by(
        #[trigger] d.node.parity[j],
        d.coded,
    ) by {
        assert(crate::spec_block_id(kind::PARITY, d.coded[j]) == d.node.parity[j]);
    }
}

/// What a push closes is backed by what it coded.
proof fn lemma_pushed(m: BlockMap, level: u8, rule: Rule, open: Seq<Row>, row: Row)
    ensures
        chunk::pushed(m, Seq::empty(), level, rule, open, row) matches Pushed::Done {
            closed,
            coded,
            ..
        } ==> forall|i: int| 0 <= i < closed.len() ==> node_backed(#[trigger] closed[i], coded),
{
    let none = Seq::<Known>::empty();
    if chunk::closing(m, none, level, open) is Ok {
        lemma_closing(m, level, open);
    }
    if chunk::closing(m, none, level, open.push(row)) is Ok {
        lemma_closing(m, level, open.push(row));
    }
    let one = Seq::<Row>::empty().push(row);
    if chunk::closing(m, none, level, one) is Ok {
        lemma_closing(m, level, one);
    }
    if let Pushed::Done { closed, coded, .. } = chunk::pushed(m, none, level, rule, open, row) {
        assert forall|i: int| 0 <= i < closed.len() implies node_backed(
            #[trigger] closed[i],
            coded,
        ) by {
            if chunk::overflows(open, row) {
                let d = chunk::closing(m, none, level, open)->Ok_0;
                let rest = match chunk::settled(m, none, level, rule, Seq::empty(), row) {
                    Pushed::Done { coded, .. } => coded,
                    _ => Seq::empty(),
                };
                assert(coded == d.coded + rest);
                assert forall|j: int| 0 <= j < closed[i].parity.len() implies backed_by(
                    #[trigger] closed[i].parity[j],
                    coded,
                ) by {
                    lemma_backed_more(closed[i].parity[j], d.coded, rest);
                    if i == 0 {
                        assert(closed[0] == d.node);
                        assert(backed_by(d.node.parity[j], d.coded));
                    } else {
                        let e = chunk::closing(m, none, level, one)->Ok_0;
                        assert(closed[i] == e.node && rest == e.coded);
                        assert(backed_by(e.node.parity[j], e.coded));
                    }
                }
            } else {
                assert(closed[i] == chunk::closing(m, none, level, open.push(row))->Ok_0.node);
            }
        }
    }
}

/// Is this the id of a block that was coded for a level, or taken from one before?
spec fn covered(id: Seq<u8>, levels: Seq<LevelView>, paid: Seq<Seq<u8>>) -> bool {
    backed_by(id, paid) || exists|l: int|
        0 <= l < levels.len() && #[trigger] backed_by(id, levels[l].coded)
}

/// Is every parity id of a node covered?
spec fn node_covered(n: NodeView, levels: Seq<LevelView>, paid: Seq<Seq<u8>>) -> bool {
    forall|j: int| 0 <= j < n.parity.len() ==> covered(#[trigger] n.parity[j], levels, paid)
}

/// Are the parity ids of all nodes covered?
spec fn all_covered(nodes: Seq<NodeView>, levels: Seq<LevelView>, paid: Seq<Seq<u8>>) -> bool {
    forall|i: int| 0 <= i < nodes.len() ==> node_covered(#[trigger] nodes[i], levels, paid)
}

/// Do levels keep what was coded for them?
spec fn keeps(a: Seq<LevelView>, b: Seq<LevelView>) -> bool {
    &&& a.len() <= b.len()
    &&& forall|l: int, id: Seq<u8>|
        0 <= l < a.len() && #[trigger] backed_by(id, a[l].coded) ==> backed_by(id, b[l].coded)
}

/// What is covered stays so.
proof fn lemma_keeps(n: NodeView, a: Seq<LevelView>, b: Seq<LevelView>, paid: Seq<Seq<u8>>)
    requires
        keeps(a, b),
        node_covered(n, a, paid),
    ensures
        node_covered(n, b, paid),
{
    assert forall|j: int| 0 <= j < n.parity.len() implies covered(#[trigger] n.parity[j], b, paid) by {
        let id = n.parity[j];
        assert(covered(id, a, paid));
        if !backed_by(id, paid) {
            let l = choose|l: int| 0 <= l < a.len() && #[trigger] backed_by(id, a[l].coded);
            assert(backed_by(id, b[l].coded));
        }
    }
}

/// What is covered stays so, of all nodes.
proof fn lemma_all_keep(ns: Seq<NodeView>, a: Seq<LevelView>, b: Seq<LevelView>, paid: Seq<Seq<u8>>)
    requires
        keeps(a, b),
        all_covered(ns, a, paid),
    ensures
        all_covered(ns, b, paid),
{
    assert forall|i: int| 0 <= i < ns.len() implies node_covered(#[trigger] ns[i], b, paid) by {
        lemma_keeps(ns[i], a, b, paid);
    }
}

/// What is kept twice is kept.
proof fn lemma_keeps_on(a: Seq<LevelView>, b: Seq<LevelView>, c: Seq<LevelView>)
    requires
        keeps(a, b),
        keeps(b, c),
    ensures
        keeps(a, c),
{
    assert forall|l: int, id: Seq<u8>|
        0 <= l < a.len() && #[trigger] backed_by(id, a[l].coded) implies backed_by(
        id,
        c[l].coded,
    ) by {
        assert(backed_by(id, b[l].coded));
    }
}

/// An entry leaves every node covered.
proof fn lemma_add(rule: Rule, s: State, l: nat, row: Row, paid: Seq<Seq<u8>>)
    requires
        l <= s.levels.len(),
        all_covered(s.nodes, s.levels, paid),
        build::spec_add(rule, s, l, row) is Ok,
    ensures
        ({
            let t = build::spec_add(rule, s, l, row)->Ok_0;
            keeps(s.levels, t.levels) && all_covered(t.nodes, t.levels, paid)
        }),
    decreases 256 - l, 2nat, 0nat,
{
    let t = build::with_level(s, l);
    let m = build::map_of(t.puts);
    let lv = t.levels[l as int];
    lemma_pushed(m, l as u8, rule, lv.open, row);
    if let Pushed::Done { closed, open, coded } = chunk::pushed(
        m,
        Seq::empty(),
        l as u8,
        rule,
        lv.open,
        row,
    ) {
        let u = build::with_open(t, l, open, coded);
        assert(u.levels[l as int].coded == lv.coded + coded);
        assert forall|k: int, id: Seq<u8>|
            0 <= k < s.levels.len() && #[trigger] backed_by(id, s.levels[k].coded) implies backed_by(
            id,
            u.levels[k].coded,
        ) by {
            if k == l {
                lemma_backed_more(id, lv.coded, coded);
            }
        }
        assert(keeps(s.levels, u.levels));
        lemma_all_keep(s.nodes, s.levels, u.levels, paid);
        assert forall|i: int| 0 <= i < closed.len() implies node_covered(
            #[trigger] closed[i],
            u.levels,
            paid,
        ) by {
            assert(node_backed(closed[i], coded));
            assert forall|j: int| 0 <= j < closed[i].parity.len() implies covered(
                #[trigger] closed[i].parity[j],
                u.levels,
                paid,
            ) by {
                lemma_backed_more(closed[i].parity[j], lv.coded, coded);
                assert(backed_by(closed[i].parity[j], u.levels[l as int].coded));
            }
        }
        lemma_closed(rule, u, l, closed, closed.len(), paid);
        lemma_keeps_on(s.levels, u.levels, build::spec_add(rule, s, l, row)->Ok_0.levels);
    }
}

/// Nodes that are covered leave every node covered when they are handed over.
proof fn lemma_closed(
    rule: Rule,
    s: State,
    l: nat,
    nodes: Seq<NodeView>,
    n: nat,
    paid: Seq<Seq<u8>>,
)
    requires
        l < s.levels.len(),
        n <= nodes.len(),
        all_covered(s.nodes, s.levels, paid),
        all_covered(nodes, s.levels, paid),
        build::spec_closed(rule, s, l, nodes, n) is Ok,
    ensures
        ({
            let t = build::spec_closed(rule, s, l, nodes, n)->Ok_0;
            keeps(s.levels, t.levels) && all_covered(t.nodes, t.levels, paid)
        }),
    decreases 256 - l, 1nat, n,
{
    if n > 0 && l <= 255 {
        lemma_closed(rule, s, l, nodes, (n - 1) as nat, paid);
        let t = build::spec_closed(rule, s, l, nodes, (n - 1) as nat)->Ok_0;
        lemma_keeps(nodes[n - 1], s.levels, t.levels, paid);
        lemma_taken(rule, t, l, nodes[n - 1], paid);
        lemma_keeps_on(
            s.levels,
            t.levels,
            build::spec_closed(rule, s, l, nodes, n)->Ok_0.levels,
        );
    }
}

/// A node that is covered leaves every node covered when it is handed over.
proof fn lemma_taken(rule: Rule, s: State, l: nat, n: NodeView, paid: Seq<Seq<u8>>)
    requires
        l < s.levels.len(),
        all_covered(s.nodes, s.levels, paid),
        node_covered(n, s.levels, paid),
        build::spec_taken(rule, s, l, n) is Ok,
    ensures
        ({
            let t = build::spec_taken(rule, s, l, n)->Ok_0;
            keeps(s.levels, t.levels) && all_covered(t.nodes, t.levels, paid)
        }),
    decreases 256 - l, 0nat, 0nat,
{
    let t = build::with_node(s, n);
    let lv = t.levels[l as int];
    assert(all_covered(t.nodes, t.levels, paid)) by {
        assert forall|i: int| 0 <= i < t.nodes.len() implies node_covered(
            #[trigger] t.nodes[i],
            t.levels,
            paid,
        ) by {
            if i < s.nodes.len() {
                assert(t.nodes[i] == s.nodes[i]);
            }
        }
    }
    if l <= 255 {
        let one = build::with_count(t, l, Some(n), 1);
        assert(keeps(t.levels, one.levels));
        lemma_all_keep(t.nodes, t.levels, one.levels, paid);
        if lv.closed != 0 {
            let u = build::with_count(t, l, None, 2);
            assert(keeps(t.levels, u.levels));
            lemma_all_keep(t.nodes, t.levels, u.levels, paid);
            match lv.first {
                None => {
                    lemma_add(rule, u, l + 1, chunk::child_row(n), paid);
                    lemma_keeps_on(
                        t.levels,
                        u.levels,
                        build::spec_taken(rule, s, l, n)->Ok_0.levels,
                    );
                },
                Some(f) => {
                    lemma_add(rule, u, l + 1, chunk::child_row(f), paid);
                    let v = build::spec_add(rule, u, l + 1, chunk::child_row(f))->Ok_0;
                    lemma_keeps_on(t.levels, u.levels, v.levels);
                    lemma_add(rule, v, l + 1, chunk::child_row(n), paid);
                    lemma_keeps_on(
                        t.levels,
                        v.levels,
                        build::spec_taken(rule, s, l, n)->Ok_0.levels,
                    );
                },
            }
        }
    }
}

/// Has nothing been left with the levels below `l`?
spec fn drained_below(levels: Seq<LevelView>, l: nat) -> bool {
    forall|i: int| 0 <= i < l && i < levels.len() ==> (#[trigger] levels[i]).coded.len() == 0
}

/// What a level is drained of is paid.
#[verifier::rlimit(60)]
#[verifier::spinoff_prover]
proof fn lemma_finish(rule: Rule, s: State, l: nat, paid: Seq<Seq<u8>>)
    requires
        l < s.levels.len(),
        build::shaped(s.levels, l),
        drained_below(s.levels, l),
        all_covered(s.nodes, s.levels, paid),
        build::spec_finish(rule, s, l, paid) is Ok,
    ensures
        ({
            let b = build::spec_finish(rule, s, l, paid)->Ok_0;
            forall|i: int|
                0 <= i < b.state.nodes.len() ==> node_backed(
                    #[trigger] b.state.nodes[i],
                    b.parity,
                )
        }),
    decreases 256 - l,
{
    let lv = s.levels[l as int];
    let made = build::last_node(s, l);
    let d = build::drained(s, l);
    let nodes: Seq<NodeView> = if lv.open.len() > 0 {
        seq![made->Ok_0.node]
    } else {
        Seq::empty()
    };
    let coded: Seq<Seq<u8>> = if lv.open.len() > 0 {
        made->Ok_0.coded
    } else {
        Seq::empty()
    };
    let more = paid + (lv.coded + coded);
    let u = build::spec_closed(rule, d, l, nodes, nodes.len())->Ok_0;
    let b = build::spec_finish(rule, s, l, paid)->Ok_0;
    assert(build::level_shaped(s.levels, l as int));
    assert(build::tallied(d.levels, l as int));
    assert forall|i: int| l + 1 <= i < d.levels.len() implies #[trigger] build::level_shaped(
        d.levels,
        i,
    ) by {
        assert(build::level_shaped(s.levels, i));
    }
    assert(all_covered(d.nodes, d.levels, more)) by {
        assert forall|i: int| 0 <= i < d.nodes.len() implies node_covered(
            #[trigger] d.nodes[i],
            d.levels,
            more,
        ) by {
            assert(node_covered(s.nodes[i], s.levels, paid));
            assert forall|j: int| 0 <= j < d.nodes[i].parity.len() implies covered(
                #[trigger] d.nodes[i].parity[j],
                d.levels,
                more,
            ) by {
                let id = d.nodes[i].parity[j];
                assert(covered(s.nodes[i].parity[j], s.levels, paid));
                lemma_backed_more(id, paid, lv.coded + coded);
                lemma_backed_more(id, lv.coded, coded);
                if !backed_by(id, more) {
                    let k = choose|k: int|
                        0 <= k < s.levels.len() && #[trigger] backed_by(id, s.levels[k].coded);
                    assert(k != l);
                    assert(d.levels[k] == s.levels[k]);
                    assert(backed_by(id, d.levels[k].coded));
                }
            }
        }
    }
    assert(all_covered(nodes, d.levels, more)) by {
        if lv.open.len() > 0 {
            lemma_closing(build::map_of(s.puts), l as u8, lv.open);
            let n = made->Ok_0.node;
            assert forall|j: int| 0 <= j < n.parity.len() implies covered(
                #[trigger] n.parity[j],
                d.levels,
                more,
            ) by {
                assert(backed_by(n.parity[j], coded));
                lemma_backed_more(n.parity[j], lv.coded, coded);
                lemma_backed_more(n.parity[j], paid, lv.coded + coded);
            }
        }
    }
    lemma_closed(rule, d, l, nodes, nodes.len(), more);
    build::lemma_closed_shaped(rule, d, l, nodes, nodes.len());
    assert(drained_below(u.levels, l + 1)) by {
        assert forall|i: int| 0 <= i < l + 1 && i < u.levels.len() implies (
        #[trigger] u.levels[i]).coded.len() == 0 by {
            if i < l {
                assert(d.levels[i] == s.levels[i]);
                assert(u.levels[i] == d.levels[i]);
                assert(s.levels[i].coded.len() == 0);
            } else {
                assert(u.levels[l as int].coded == d.levels[l as int].coded);
            }
        }
    }
    match u.levels[l as int].first {
        Some(root) => {
            assert(u.levels.len() == l + 1);
            assert forall|i: int| 0 <= i < u.nodes.len() implies node_backed(
                #[trigger] u.nodes[i],
                more,
            ) by {
                assert(node_covered(u.nodes[i], u.levels, more));
                assert forall|j: int| 0 <= j < u.nodes[i].parity.len() implies backed_by(
                    #[trigger] u.nodes[i].parity[j],
                    more,
                ) by {
                    let id = u.nodes[i].parity[j];
                    assert(covered(id, u.levels, more));
                    if !backed_by(id, more) {
                        let k = choose|k: int|
                            0 <= k < u.levels.len() && #[trigger] backed_by(id, u.levels[k].coded);
                        assert(u.levels[k].coded.len() == 0);
                    }
                }
            }
        },
        None => {
            assert(l + 1 < u.levels.len());
            lemma_finish(rule, u, l + 1, more);
        },
    }
}

/// Feeding rows leaves every node covered.
proof fn lemma_fed(rule: Rule, rows: Seq<Row>, n: nat)
    requires
        build::fed(rule, rows, n) is Ok,
    ensures
        ({
            let b = build::fed(rule, rows, n)->Ok_0;
            &&& build::shaped(b.state.levels, 0)
            &&& all_covered(b.state.nodes, b.state.levels, Seq::empty())
            &&& b.rows.len() > 0 ==> b.state.levels.len() > 0
        }),
    decreases n,
{
    if n > 0 {
        lemma_fed(rule, rows, (n - 1) as nat);
        let b = build::fed(rule, rows, (n - 1) as nat)->Ok_0;
        lemma_add(rule, b.state, 0, rows[n - 1], Seq::empty());
        build::lemma_add_shaped(rule, b.state, 0, rows[n - 1]);
    }
}

/// The parity that a build promises exists: every parity id of every node that it closed
/// is the id of one of the parity blocks that it hands back.
pub proof fn law_a_build_hands_back_the_parity_it_promises(rule: Rule, rows: Seq<Row>, b: Built)
    requires
        build::spec_build(rule, rows) == Ok::<Built, build::Halt>(b),
    ensures
        forall|i: int|
            0 <= i < b.state.nodes.len() ==> node_backed(#[trigger] b.state.nodes[i], b.parity),
{
    lemma_fed(rule, rows, rows.len());
    let v = build::fed(rule, rows, rows.len())->Ok_0;
    if v.rows.len() > 0 {
        lemma_finish(rule, v.state, 0, Seq::empty());
    } else {
        assert(rows.len() == 0) by {
            lemma_fed_len(rule, rows, rows.len());
        }
        assert forall|i: int| 0 <= i < b.state.nodes.len() implies node_backed(
            #[trigger] b.state.nodes[i],
            b.parity,
        ) by {
            assert(b.state.nodes[i] == chunk::empty_node());
        }
    }
}

/// A builder has the rows it was fed.
proof fn lemma_fed_len(rule: Rule, rows: Seq<Row>, n: nat)
    requires
        build::fed(rule, rows, n) is Ok,
    ensures
        build::fed(rule, rows, n)->Ok_0.rows.len() == n,
    decreases n,
{
    if n > 0 {
        lemma_fed_len(rule, rows, (n - 1) as nat);
    }
}

} // verus!
