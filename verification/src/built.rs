//! A build is carried out: rows that can be built, with their values in place, are.

use crate::answers;
use crate::build;
use crate::build::{Halt, LevelView, State, Stop};
use crate::carried;
use crate::chunk;
use crate::chunk::{Pushed, Rule};
use crate::node;
use crate::node::{BuildError, NodeView, Row};
use crate::order;
use crate::parity;
use crate::parity::Known;
use crate::store::BlockMap;
use crate::tower;
use vstd::prelude::*;

verus! {

/// Can a level take this row: is it of its kind, does it fit a node of its own, and is the
/// block it refers to held?
spec fn sound_row(m: BlockMap, l: nat, row: Row) -> bool {
    &&& l <= 255
    &&& node::row_fits(l as u8, row)
    &&& tower::small(row)
    &&& parity::member(row) is Some ==> m.contains_key(parity::member(row)->Some_0.cid)
}

/// Can a level have these rows open?
#[verifier::opaque]
spec fn sound_rows(m: BlockMap, l: nat, rows: Seq<Row>) -> bool {
    &&& l <= 255
    &&& node::sorted_rows(rows)
    &&& forall|i: int| 0 <= i < rows.len() ==> sound_row(m, l, #[trigger] rows[i])
    &&& node::logical(rows) <= 12288
}

/// Can a node be passed up?
spec fn sound_node(m: BlockMap, n: NodeView) -> bool {
    &&& n.rows.len() > 0
    &&& n.rows[0].key.len() <= 512
    &&& m.contains_key(chunk::node_id(n))
}

/// Is a level sound: what is open, and what waits?
spec fn sound_level(m: BlockMap, l: nat, lv: LevelView) -> bool {
    &&& sound_rows(m, l, lv.open)
    &&& lv.first matches Some(f) ==> sound_node(m, f)
}

/// Is every level of a build sound?
#[verifier::opaque]
spec fn sound(s: State) -> bool {
    forall|i: int|
        0 <= i < s.levels.len() ==> sound_level(
            build::map_of(s.puts),
            i as nat,
            #[trigger] s.levels[i],
        )
}

/// Does all that a level has come before a key?
spec fn before(lv: LevelView, k: Seq<u8>) -> bool {
    &&& forall|x: int| 0 <= x < lv.open.len() ==> order::lt((#[trigger] lv.open[x]).key, k)
    &&& lv.first matches Some(f) ==> order::lt(f.rows[0].key, k)
}

/// Does all that the levels from `l` up have come before a key?
spec fn below(levels: Seq<LevelView>, l: int, k: Seq<u8>) -> bool {
    forall|i: int| l <= i < levels.len() ==> before(#[trigger] levels[i], k)
}

/// Does what waits on a level come before a key?
spec fn waits_before(lv: LevelView, k: Seq<u8>) -> bool {
    lv.first matches Some(f) ==> order::lt(f.rows[0].key, k)
}

/// Does what is open on each level from `l` up come after all that is higher, and after
/// what waits on the level?
#[verifier::opaque]
spec fn tidy(levels: Seq<LevelView>, l: int) -> bool {
    forall|i: int, x: int|
        l <= i < levels.len() && 0 <= x < levels[i].open.len() ==> below(
            levels,
            i + 1,
            (#[trigger] levels[i].open[x]).key,
        ) && waits_before(levels[i], levels[i].open[x].key)
}

/// Does one build know of all that another did?
spec fn knows_more(s: State, t: State) -> bool {
    forall|id: Seq<u8>| #[trigger]
        build::map_of(s.puts).contains_key(id) ==> build::map_of(t.puts).contains_key(id)
}

/// Does one build leave, above level `l`, only what comes before every key that all came
/// before in another, and that one more key comes before?
#[verifier::opaque]
spec fn carries(s: State, t: State, l: nat, last: Option<Seq<u8>>) -> bool {
    forall|k: Seq<u8>|
        below(s.levels, (l + 1) as int, k) && waits_before(s.levels[l as int], k) && (
        last matches Some(a) ==> order::lt(a, k)) ==> #[trigger] below(
            t.levels,
            (l + 1) as int,
            k,
        ) && waits_before(t.levels[l as int], k)
}

/// One build after another.
proof fn lemma_carries_on(s: State, t: State, v: State, l: nat, a: Option<Seq<u8>>, b: Seq<u8>)
    requires
        carries(s, t, l, a),
        carries(t, v, l, Some(b)),
        a matches Some(x) ==> order::lt(x, b),
    ensures
        carries(s, v, l, Some(b)),
{
    reveal(carries);
    assert forall|k: Seq<u8>|
        below(s.levels, (l + 1) as int, k) && waits_before(s.levels[l as int], k) && order::lt(
            b,
            k,
        ) implies #[trigger] below(v.levels, (l + 1) as int, k) && waits_before(
        v.levels[l as int],
        k,
    ) by {
        if let Some(x) = a {
            order::lemma_lt_trans(x, b, k);
        }
        assert(below(t.levels, (l + 1) as int, k));
        assert(waits_before(t.levels[l as int], k));
        assert(below(v.levels, (l + 1) as int, k));
    }
}

/// Is this a stop that a build may come to: a sum that does not fit, or too many levels?
pub open spec fn unavoidable(e: Stop) -> bool {
    e == Stop::TooDeep || e == Stop::Row(BuildError::Overflow)
}

/// What is before a key is before a later one.
proof fn lemma_later(levels: Seq<LevelView>, l: int, a: Seq<u8>, b: Seq<u8>)
    requires
        below(levels, l, a),
        order::lt(a, b),
    ensures
        below(levels, l, b),
{
    assert forall|i: int| l <= i < levels.len() implies before(#[trigger] levels[i], b) by {
        let lv = levels[i];
        assert(before(lv, a));
        assert forall|x: int| 0 <= x < lv.open.len() implies order::lt(
            (#[trigger] lv.open[x]).key,
            b,
        ) by {
            order::lemma_lt_trans(lv.open[x].key, a, b);
        }
        if let Some(f) = lv.first {
            order::lemma_lt_trans(f.rows[0].key, a, b);
        }
    }
}

/// Rows that are sound stay so where more is known.
proof fn lemma_rows_more(m: BlockMap, w: BlockMap, l: nat, rows: Seq<Row>)
    requires
        sound_rows(m, l, rows),
        forall|id: Seq<u8>| #[trigger] m.contains_key(id) ==> w.contains_key(id),
    ensures
        sound_rows(w, l, rows),
{
    reveal(sound_rows);
    assert forall|i: int| 0 <= i < rows.len() implies sound_row(w, l, #[trigger] rows[i]) by {
        assert(sound_row(m, l, rows[i]));
    }
}

/// A level that is sound stays so where more is known.
proof fn lemma_level_more(m: BlockMap, w: BlockMap, l: nat, lv: LevelView)
    requires
        sound_level(m, l, lv),
        forall|id: Seq<u8>| #[trigger] m.contains_key(id) ==> w.contains_key(id),
    ensures
        sound_level(w, l, lv),
{
    lemma_rows_more(m, w, l, lv.open);
}

/// Rows that a level can have open can be closed.
proof fn lemma_closes(m: BlockMap, l: nat, rows: Seq<Row>)
    requires
        sound_rows(m, l, rows),
        rows.len() > 0,
    ensures
        chunk::closing(m, Seq::empty(), l as u8, rows) matches Ok(d) && d.node.rows == rows,
        rows[0].key.len() <= 512,
{
    reveal(sound_rows);
    assert forall|i: int| 0 <= i < rows.len() implies node::row_fits(l as u8, #[trigger] rows[i]) by {
        assert(sound_row(m, l, rows[i]));
    }
    assert(carried::members_held(m, rows)) by {
        assert forall|i: int|
            0 <= i < rows.len() && parity::member(#[trigger] rows[i]) is Some implies m.contains_key(
            parity::member(rows[i])->Some_0.cid,
        ) by {
            assert(sound_row(m, l, rows[i]));
        }
    }
    assert(sound_row(m, l, rows[0]));
    carried::lemma_made(
        m,
        Seq::<Known>::empty(),
        l as u8,
        rows,
        parity::groups(l as u8, rows).len(),
    );
}

/// A row goes in after those that are open, where there is room.
proof fn lemma_settles(m: BlockMap, l: nat, rule: Rule, open: Seq<Row>, row: Row)
    requires
        sound_rows(m, l, open),
        sound_row(m, l, row),
        forall|x: int| 0 <= x < open.len() ==> order::lt((#[trigger] open[x]).key, row.key),
        !chunk::overflows(open, row),
    ensures
        sound_rows(m, l, open.push(row)),
        match chunk::settled(m, Seq::empty(), l as u8, rule, open, row) {
            Pushed::Closing(_) => false,
            Pushed::Row(e) => e == BuildError::Overflow,
            Pushed::Done { closed, open: o, .. } => if closed.len() == 0 {
                o == open.push(row)
            } else {
                closed.len() == 1 && closed[0].rows == open.push(row) && o.len() == 0
            },
        },
{
    let next = open.push(row);
    let n = NodeView { level: l as u8, rows: open, parity: Seq::empty() };
    assert(next.drop_last() =~= open);
    assert(node::logical(next) == node::logical(open) + node::row_cost(row));
    assert(sound_rows(m, l, next)) by {
        reveal(sound_rows);
        assert forall|i: int| 0 <= i < next.len() implies sound_row(m, l, #[trigger] next[i]) by {
            if i < open.len() {
                assert(next[i] == open[i]);
            }
        }
        assert forall|i: int, j: int| 0 <= i < j < next.len() implies order::lt(
            (#[trigger] next[i]).key,
            (#[trigger] next[j]).key,
        ) by {
            if j < open.len() {
                assert(next[i] == open[i] && next[j] == open[j]);
            } else {
                assert(next[i] == open[i] && next[j] == row);
            }
        }
    }
    carried::lemma_encoded_most(n.with_row(row));
    if open.len() > 0 {
        assert(order::lt(open[open.len() - 1].key, row.key));
    }
    assert(node::push_error(n, row) matches Some(e) ==> e == BuildError::Overflow);
    lemma_closes(m, l, next);
}

/// A push goes on, unless a sum does not fit.
proof fn lemma_pushes(m: BlockMap, l: nat, rule: Rule, open: Seq<Row>, row: Row)
    requires
        sound_rows(m, l, open),
        sound_row(m, l, row),
        forall|x: int| 0 <= x < open.len() ==> order::lt((#[trigger] open[x]).key, row.key),
    ensures
        match chunk::pushed(m, Seq::empty(), l as u8, rule, open, row) {
            Pushed::Closing(_) => false,
            Pushed::Row(e) => e == BuildError::Overflow,
            Pushed::Done { closed, open: o, .. } => {
                &&& sound_rows(m, l, o)
                &&& forall|i: int|
                    0 <= i < closed.len() ==> (#[trigger] closed[i]).rows.len() > 0
                        && closed[i].rows[0].key.len() <= 512
                &&& closed.len() == 0 ==> o == open.push(row)
                &&& closed.len() == 1 ==> closed[0].rows[0] == (if open.len() > 0 {
                    open[0]
                } else {
                    row
                }) && (o.len() == 0 || (o == seq![row] && open.len() > 0))
                &&& closed.len() > 1 ==> closed.len() == 2 && open.len() > 0 && closed[0].rows[0]
                    == open[0] && closed[1].rows[0] == row && o.len() == 0
            }
        },
{
    let none = Seq::<Row>::empty();
    assert(sound_rows(m, l, none)) by {
        reveal(sound_rows);
        assert(node::logical(none) == node::HEADER);
    }
    if chunk::overflows(open, row) {
        assert(open.len() > 0) by {
            if open.len() == 0 {
                assert(open =~= none);
            }
        }
        lemma_closes(m, l, open);
        lemma_settles(m, l, rule, none, row);
        assert(none.push(row) =~= seq![row]);
        lemma_closes(m, l, seq![row]);
    } else {
        lemma_settles(m, l, rule, open, row);
        lemma_closes(m, l, open.push(row));
        if let Pushed::Done { closed, open: o, .. } = chunk::pushed(
            m,
            Seq::empty(),
            l as u8,
            rule,
            open,
            row,
        ) {
            if closed.len() == 1 {
                assert(o =~= none);
                assert(open.push(row)[0] == if open.len() > 0 {
                    open[0]
                } else {
                    row
                });
            }
        }
    }
}

/// Another block is known of, and those that were.
proof fn lemma_more(s: State, n: NodeView)
    ensures
        knows_more(s, build::with_node(s, n)),
        build::map_of(build::with_node(s, n).puts).contains_key(chunk::node_id(n)),
{
    let t = build::with_node(s, n);
    assert(t.puts.drop_last() =~= s.puts);
}

/// The row of a node that can be passed up can be taken.
proof fn lemma_up(m: BlockMap, l: nat, n: NodeView)
    requires
        sound_node(m, n),
        0 < l <= 255,
    ensures
        sound_row(m, l, chunk::child_row(n)),
{
    assert(node::logical(Seq::<Row>::empty()) == node::HEADER);
}

/// An entry is taken, unless the build comes to a stop it may come to.
#[verifier::rlimit(80)]
#[verifier::spinoff_prover]
proof fn lemma_add(rule: Rule, s: State, l: nat, row: Row)
    requires
        l <= s.levels.len(),
        build::shaped(s.levels, l),
        sound(s),
        tidy(s.levels, l as int),
        below(s.levels, l as int, row.key),
        l <= 255 ==> sound_row(build::map_of(s.puts), l, row),
    ensures
        match build::spec_add(rule, s, l, row) {
            Err(e) => unavoidable(e),
            Ok(t) => {
                &&& sound(t)
                &&& tidy(t.levels, l as int)
                &&& knows_more(s, t)
                &&& forall|k: Seq<u8>|
                    below(s.levels, l as int, k) && order::lt(row.key, k) ==> #[trigger] below(
                        t.levels,
                        l as int,
                        k,
                    )
            },
        },
    decreases 256 - l, 2nat, 0nat,
{
    reveal(sound);
    reveal(tidy);
    if l <= 255 {
        let t = build::with_level(s, l);
        let m = build::map_of(t.puts);
        let lv = t.levels[l as int];
        assert(sound_rows(m, l, lv.open)) by {
            if l < s.levels.len() {
                assert(sound_level(m, l, s.levels[l as int]));
            } else {
                reveal(sound_rows);
                assert(node::logical(Seq::<Row>::empty()) == node::HEADER);
            }
        }
        assert(before(lv, row.key)) by {
            if l < s.levels.len() {
                assert(before(s.levels[l as int], row.key));
            }
        }
        lemma_pushes(m, l, rule, lv.open, row);
        if let Pushed::Done { closed, open, coded } = chunk::pushed(
            m,
            Seq::empty(),
            l as u8,
            rule,
            lv.open,
            row,
        ) {
            let u = build::with_open(t, l, open, coded);
            assert(u.levels[l as int].first == lv.first);
            assert(u.levels[l as int].open == open);
            assert forall|i: int| 0 <= i < u.levels.len() implies sound_level(
                build::map_of(u.puts),
                i as nat,
                #[trigger] u.levels[i],
            ) by {
                if i != l {
                    assert(u.levels[i] == s.levels[i]);
                } else if l < s.levels.len() {
                    assert(sound_level(m, l, s.levels[l as int]));
                }
            }
            assert(build::tallied(u.levels, l as int)) by {
                if l < s.levels.len() {
                    assert(build::level_shaped(s.levels, l as int));
                }
            }
            assert forall|i: int| l + 1 <= i < u.levels.len() implies #[trigger] build::level_shaped(
                u.levels,
                i,
            ) by {
                assert(build::level_shaped(s.levels, i));
            }
            assert forall|k: Seq<u8>| below(s.levels, l as int, k) implies #[trigger] below(
                u.levels,
                (l + 1) as int,
                k,
            ) by {
                assert forall|i: int| l + 1 <= i < u.levels.len() implies before(
                    #[trigger] u.levels[i],
                    k,
                ) by {
                    assert(u.levels[i] == s.levels[i]);
                }
            }
            assert(tidy(u.levels, (l + 1) as int)) by {
                assert forall|i: int, x: int|
                    l + 1 <= i < u.levels.len() && 0 <= x < u.levels[i].open.len() implies below(
                    u.levels,
                    i + 1,
                    (#[trigger] u.levels[i].open[x]).key,
                ) && waits_before(u.levels[i], u.levels[i].open[x].key) by {
                    assert(u.levels[i] == s.levels[i]);
                    let k = s.levels[i].open[x].key;
                    assert(below(s.levels, i + 1, k));
                    assert forall|j: int| i + 1 <= j < u.levels.len() implies before(
                        #[trigger] u.levels[j],
                        k,
                    ) by {
                        assert(u.levels[j] == s.levels[j]);
                    }
                }
            }
            assert(below(u.levels, (l + 1) as int, row.key));
            if lv.open.len() > 0 {
                assert(below(u.levels, (l + 1) as int, lv.open[0].key) && waits_before(
                    lv,
                    lv.open[0].key,
                )) by {
                    let k = s.levels[l as int].open[0].key;
                    assert(below(s.levels, (l + 1) as int, k));
                    assert forall|j: int| l + 1 <= j < u.levels.len() implies before(
                        #[trigger] u.levels[j],
                        k,
                    ) by {
                        assert(u.levels[j] == s.levels[j]);
                    }
                }
                assert(order::lt(lv.open[0].key, row.key));
            }
            lemma_closed(rule, u, l, closed, closed.len());
            if let Ok(v) = build::spec_closed(rule, u, l, closed, closed.len()) {
                build::lemma_closed_shaped(rule, u, l, closed, closed.len());
                lemma_added(s, u, v, l, lv, open, closed, row);
            }
        }
    }
}

/// What an entry leaves behind is tidy.
proof fn lemma_added(
    s: State,
    u: State,
    v: State,
    l: nat,
    lv: LevelView,
    open: Seq<Row>,
    closed: Seq<NodeView>,
    row: Row,
)
    requires
        l < u.levels.len(),
        l < v.levels.len(),
        lv == (if l < s.levels.len() {
            s.levels[l as int]
        } else {
            build::new_level()
        }),
        u.levels[l as int].open == open,
        u.levels[l as int].first == lv.first,
        v.levels[l as int].open == open,
        tidy(v.levels, (l + 1) as int),
        tidy(s.levels, l as int),
        before(lv, row.key),
        below(u.levels, (l + 1) as int, row.key),
        forall|k: Seq<u8>| below(s.levels, l as int, k) ==> #[trigger] below(u.levels, (l + 1) as int, k),
        lv.open.len() > 0 ==> order::lt(lv.open[0].key, row.key) && below(
            u.levels,
            (l + 1) as int,
            lv.open[0].key,
        ) && waits_before(lv, lv.open[0].key),
        closed.len() == 0 ==> open == lv.open.push(row) && v == u,
        closed.len() == 1 ==> closed[0].rows[0] == (if lv.open.len() > 0 {
            lv.open[0]
        } else {
            row
        }) && (open.len() == 0 || (open == seq![row] && lv.open.len() > 0)),
        closed.len() > 1 ==> closed.len() == 2 && lv.open.len() > 0 && closed[0].rows[0]
            == lv.open[0] && closed[1].rows[0] == row && open.len() == 0,
        carries(
            u,
            v,
            l,
            if closed.len() > 0 {
                Some(closed[closed.len() - 1].rows[0].key)
            } else {
                None
            },
        ),
        l < s.levels.len() ==> forall|x: int|
            0 <= x < lv.open.len() ==> below(u.levels, (l + 1) as int, (#[trigger] lv.open[x]).key)
                && waits_before(lv, lv.open[x].key),
    ensures
        tidy(v.levels, l as int),
        forall|k: Seq<u8>|
            below(s.levels, l as int, k) && order::lt(row.key, k) ==> #[trigger] below(
                v.levels,
                l as int,
                k,
            ),
{
    reveal(sound);
    reveal(tidy);
    reveal(carries);
    assert forall|i: int, x: int|
        l <= i < v.levels.len() && 0 <= x < v.levels[i].open.len() implies below(
        v.levels,
        i + 1,
        (#[trigger] v.levels[i].open[x]).key,
    ) && waits_before(v.levels[i], v.levels[i].open[x].key) by {
        if i == l {
            let k = open[x].key;
            if closed.len() == 0 {
                if x < lv.open.len() {
                    assert(open[x] == lv.open[x]);
                } else {
                    assert(open[x] == row);
                }
            } else {
                assert(open[x] == row);
                assert(closed.len() == 1);
            }
            assert(below(u.levels, (l + 1) as int, k) && waits_before(u.levels[l as int], k));
            assert(below(v.levels, (l + 1) as int, k));
        }
    }
    assert forall|k: Seq<u8>| below(s.levels, l as int, k) && order::lt(row.key, k) implies #[trigger] below(
        v.levels,
        l as int,
        k,
    ) by {
        assert(below(u.levels, (l + 1) as int, k));
        if l < s.levels.len() {
            assert(before(s.levels[l as int], k));
        }
        assert(before(lv, k));
        if closed.len() > 0 {
            let n = closed[closed.len() - 1].rows[0];
            if lv.open.len() > 0 {
                assert(order::lt(lv.open[0].key, k));
            }
            assert(order::lt(n.key, k));
        }
        assert(waits_before(u.levels[l as int], k));
        if closed.len() > 0 {
            assert(order::lt(closed[closed.len() - 1].rows[0].key, k));
        }
        assert(below(v.levels, (l + 1) as int, k));
        assert(waits_before(v.levels[l as int], k));
        assert forall|i: int| l <= i < v.levels.len() implies before(#[trigger] v.levels[i], k) by {
            if i == l {
                assert forall|x: int| 0 <= x < open.len() implies order::lt(
                    (#[trigger] open[x]).key,
                    k,
                ) by {
                    if closed.len() == 0 && x < lv.open.len() {
                        assert(open[x] == lv.open[x]);
                    } else {
                        assert(open[x] == row);
                    }
                }
            }
        }
    }
}

/// Closed nodes are taken, unless the build comes to a stop it may come to.
#[verifier::rlimit(100)]
#[verifier::spinoff_prover]
proof fn lemma_closed(rule: Rule, s: State, l: nat, nodes: Seq<NodeView>, n: nat)
    requires
        l < s.levels.len(),
        l <= 255,
        n <= nodes.len(),
        build::tallied(s.levels, l as int),
        build::shaped(s.levels, l + 1),
        sound(s),
        tidy(s.levels, (l + 1) as int),
        forall|i: int|
            0 <= i < nodes.len() ==> (#[trigger] nodes[i]).rows.len() > 0
                && nodes[i].rows[0].key.len() <= 512,
        forall|i: int, j: int|
            0 <= i < j < nodes.len() ==> order::lt(
                (#[trigger] nodes[i]).rows[0].key,
                (#[trigger] nodes[j]).rows[0].key,
            ),
        nodes.len() > 0 ==> below(s.levels, (l + 1) as int, nodes[0].rows[0].key) && waits_before(
            s.levels[l as int],
            nodes[0].rows[0].key,
        ),
    ensures
        match build::spec_closed(rule, s, l, nodes, n) {
            Err(e) => unavoidable(e),
            Ok(t) => {
                &&& l < t.levels.len()
                &&& sound(t)
                &&& tidy(t.levels, (l + 1) as int)
                &&& knows_more(s, t)
                &&& t.levels[l as int].open == s.levels[l as int].open
                &&& n == 0 ==> t == s
                &&& carries(
                    s,
                    t,
                    l,
                    if n > 0 {
                        Some(nodes[n - 1].rows[0].key)
                    } else {
                        None
                    },
                )
            },
        },
    decreases 256 - l, 1nat, n,
{
    if n == 0 {
        reveal(carries);
    } else {
        let q = (n - 1) as nat;
        lemma_closed(rule, s, l, nodes, q);
        if let Ok(t) = build::spec_closed(rule, s, l, nodes, q) {
            build::lemma_closed_shaped(rule, s, l, nodes, q);
            let c = nodes[n - 1];
            let k = c.rows[0].key;
            let last: Option<Seq<u8>> = if q > 0 {
                Some(nodes[q - 1].rows[0].key)
            } else {
                None
            };
            assert(below(t.levels, (l + 1) as int, k) && waits_before(t.levels[l as int], k)) by {
                reveal(carries);
                if q > 0 {
                    assert(order::lt(nodes[0].rows[0].key, nodes[n - 1].rows[0].key));
                    assert(order::lt(nodes[q - 1].rows[0].key, nodes[n - 1].rows[0].key));
                    lemma_later(s.levels, (l + 1) as int, nodes[0].rows[0].key, k);
                    if let Some(f) = s.levels[l as int].first {
                        order::lemma_lt_trans(f.rows[0].key, nodes[0].rows[0].key, k);
                    }
                }
                assert(below(t.levels, (l + 1) as int, k));
            }
            lemma_taken(rule, t, l, c);
            if let Ok(v) = build::spec_taken(rule, t, l, c) {
                if q > 0 {
                    assert(order::lt(nodes[q - 1].rows[0].key, nodes[n - 1].rows[0].key));
                }
                lemma_carries_on(s, t, v, l, last, k);
            }
        }
    }
}

/// A closed node is taken, unless the build comes to a stop it may come to.
#[verifier::rlimit(80)]
#[verifier::spinoff_prover]
proof fn lemma_taken(rule: Rule, s: State, l: nat, n: NodeView)
    requires
        l < s.levels.len(),
        l <= 255,
        build::tallied(s.levels, l as int),
        build::shaped(s.levels, l + 1),
        sound(s),
        tidy(s.levels, (l + 1) as int),
        n.rows.len() > 0,
        n.rows[0].key.len() <= 512,
        below(s.levels, (l + 1) as int, n.rows[0].key),
        waits_before(s.levels[l as int], n.rows[0].key),
    ensures
        match build::spec_taken(rule, s, l, n) {
            Err(e) => unavoidable(e),
            Ok(t) => {
                &&& l < t.levels.len()
                &&& sound(t)
                &&& tidy(t.levels, (l + 1) as int)
                &&& knows_more(s, t)
                &&& t.levels[l as int].open == s.levels[l as int].open
                &&& carries(s, t, l, Some(n.rows[0].key))
            },
        },
    decreases 256 - l, 0nat, 0nat,
{
    reveal(sound);
    reveal(tidy);
    reveal(carries);
    let t = build::with_node(s, n);
    let m = build::map_of(t.puts);
    let lv = t.levels[l as int];
    lemma_more(s, n);
    assert(sound_node(m, n));
    if lv.closed == 0 {
        let u = build::with_count(t, l, Some(n), 1);
        lemma_counted(s, u, l, Some(n));
    } else {
        let u = build::with_count(t, l, None, 2);
        lemma_counted(s, u, l, None);
        assert forall|i: int| l + 1 <= i < u.levels.len() implies #[trigger] build::level_shaped(
            u.levels,
            i,
        ) by {
            assert(build::level_shaped(s.levels, i));
        }
        let up = chunk::child_row(n);
        if l + 1 <= 255 {
            lemma_up(m, l + 1, n);
        }
        match lv.first {
            None => {
                lemma_add(rule, u, l + 1, up);
                if let Ok(v) = build::spec_add(rule, u, l + 1, up) {
                    build::lemma_add_shaped(rule, u, l + 1, up);
                    assert(v.levels[l as int] == u.levels[l as int]);
                }
            },
            Some(f) => {
                assert(u.levels.len() == l + 1);
                let low = chunk::child_row(f);
                assert(sound_level(build::map_of(s.puts), l, s.levels[l as int]));
                assert(sound_node(m, f));
                if l + 1 <= 255 {
                    lemma_up(m, l + 1, f);
                }
                lemma_add(rule, u, l + 1, low);
                if let Ok(v) = build::spec_add(rule, u, l + 1, low) {
                    build::lemma_add_shaped(rule, u, l + 1, low);
                    assert(v.levels[l as int] == u.levels[l as int]);
                    assert(below(u.levels, (l + 1) as int, up.key));
                    assert(below(v.levels, (l + 1) as int, up.key));
                    if l + 1 <= 255 {
                        let w = build::map_of(v.puts);
                        assert(w.contains_key(chunk::node_id(n)));
                        lemma_up(w, l + 1, n);
                    }
                    lemma_add(rule, v, l + 1, up);
                    if let Ok(x) = build::spec_add(rule, v, l + 1, up) {
                        build::lemma_add_shaped(rule, v, l + 1, up);
                        assert(x.levels[l as int] == v.levels[l as int]);
                        assert forall|k: Seq<u8>|
                            below(s.levels, (l + 1) as int, k) && order::lt(n.rows[0].key, k) implies #[trigger] below(
                            x.levels,
                            (l + 1) as int,
                            k,
                        ) by {
                            order::lemma_lt_trans(low.key, up.key, k);
                            assert(below(u.levels, (l + 1) as int, k));
                            assert(below(v.levels, (l + 1) as int, k));
                        }
                    }
                }
            },
        }
    }
}

/// Counting a closed node keeps a build sound and tidy.
proof fn lemma_counted(s: State, u: State, l: nat, first: Option<NodeView>)
    requires
        l < s.levels.len(),
        u.levels.len() == s.levels.len(),
        forall|i: int| 0 <= i < s.levels.len() && i != l ==> #[trigger] u.levels[i] == s.levels[i],
        u.levels[l as int].open == s.levels[l as int].open,
        u.levels[l as int].first == first,
        knows_more(s, u),
        sound(s),
        tidy(s.levels, (l + 1) as int),
        first matches Some(f) ==> sound_node(build::map_of(u.puts), f),
    ensures
        sound(u),
        tidy(u.levels, (l + 1) as int),
        forall|k: Seq<u8>| #[trigger] below(u.levels, (l + 1) as int, k) <==> below(s.levels, (l + 1) as int, k),
{
    reveal(sound);
    reveal(tidy);
    let m = build::map_of(s.puts);
    let w = build::map_of(u.puts);
    assert forall|i: int| 0 <= i < u.levels.len() implies sound_level(
        w,
        i as nat,
        #[trigger] u.levels[i],
    ) by {
        assert(sound_level(m, i as nat, s.levels[i]));
        lemma_level_more(m, w, i as nat, s.levels[i]);
    }
    assert forall|k: Seq<u8>, i: int| l + 1 <= i implies (#[trigger] below(u.levels, i, k) <==> below(
        s.levels,
        i,
        k,
    )) by {
        assert forall|j: int| i <= j < u.levels.len() implies #[trigger] u.levels[j] == s.levels[j] by {}
        if below(u.levels, i, k) {
            assert forall|j: int| i <= j < s.levels.len() implies before(#[trigger] s.levels[j], k) by {
                assert(before(u.levels[j], k));
            }
        }
        if below(s.levels, i, k) {
            assert forall|j: int| i <= j < u.levels.len() implies before(#[trigger] u.levels[j], k) by {
                assert(before(s.levels[j], k));
            }
        }
    }
    assert forall|i: int, x: int|
        l + 1 <= i < u.levels.len() && 0 <= x < u.levels[i].open.len() implies below(
        u.levels,
        i + 1,
        (#[trigger] u.levels[i].open[x]).key,
    ) && waits_before(u.levels[i], u.levels[i].open[x].key) by {
        assert(u.levels[i] == s.levels[i]);
        assert(below(s.levels, i + 1, s.levels[i].open[x].key));
    }
}

/// A build is finished, unless it comes to a stop it may come to.
#[verifier::rlimit(60)]
#[verifier::spinoff_prover]
proof fn lemma_finish(rule: Rule, s: State, l: nat, parity: Seq<Seq<u8>>)
    requires
        l < s.levels.len() ==> build::shaped(s.levels, l) && sound(s) && tidy(s.levels, l as int),
    ensures
        build::spec_finish(rule, s, l, parity) matches Err(e) ==> unavoidable(e),
    decreases 256 - l,
{
    reveal(sound);
    reveal(tidy);
    if l <= 255 && l < s.levels.len() {
        let lv = s.levels[l as int];
        let d = build::drained(s, l);
        let made = build::last_node(s, l);
        let m = build::map_of(s.puts);
        assert(sound_level(m, l, lv));
        if lv.open.len() > 0 {
            lemma_closes(m, l, lv.open);
            assert(below(s.levels, (l + 1) as int, lv.open[0].key) && waits_before(lv, lv.open[0].key));
        }
        let nodes: Seq<NodeView> = if lv.open.len() > 0 {
            seq![made->Ok_0.node]
        } else {
            Seq::empty()
        };
        let coded: Seq<Seq<u8>> = if lv.open.len() > 0 {
            made->Ok_0.coded
        } else {
            Seq::empty()
        };
        assert(build::level_shaped(s.levels, l as int));
        assert(build::tallied(d.levels, l as int));
        assert forall|i: int| l + 1 <= i < d.levels.len() implies #[trigger] build::level_shaped(
            d.levels,
            i,
        ) by {
            assert(build::level_shaped(s.levels, i));
        }
        lemma_drained(s, d, l);
        lemma_closed(rule, d, l, nodes, nodes.len());
        if let Ok(u) = build::spec_closed(rule, d, l, nodes, nodes.len()) {
            build::lemma_closed_shaped(rule, d, l, nodes, nodes.len());
            if u.levels[l as int].first is None {
                lemma_finish(rule, u, l + 1, parity + (lv.coded + coded));
            }
        }
    }
}

/// Draining a level keeps a build sound and tidy.
proof fn lemma_drained(s: State, d: State, l: nat)
    requires
        l < s.levels.len(),
        d == build::drained(s, l),
        sound(s),
        tidy(s.levels, l as int),
    ensures
        sound(d),
        tidy(d.levels, (l + 1) as int),
        forall|k: Seq<u8>| #[trigger] below(s.levels, (l + 1) as int, k) ==> below(d.levels, (l + 1) as int, k),
{
    reveal(sound);
    reveal(tidy);
    let m = build::map_of(s.puts);
    assert forall|i: int| 0 <= i < d.levels.len() implies sound_level(
        m,
        i as nat,
        #[trigger] d.levels[i],
    ) by {
        assert(sound_level(m, i as nat, s.levels[i]));
        if i == l {
            reveal(sound_rows);
            assert(node::logical(Seq::<Row>::empty()) == node::HEADER);
        }
    }
    assert forall|k: Seq<u8>, i: int| l + 1 <= i && #[trigger] below(s.levels, i, k) implies below(
        d.levels,
        i,
        k,
    ) by {
        assert forall|j: int| i <= j < d.levels.len() implies before(#[trigger] d.levels[j], k) by {
            assert(before(s.levels[j], k));
        }
    }
    assert forall|i: int, x: int|
        l + 1 <= i < d.levels.len() && 0 <= x < d.levels[i].open.len() implies below(
        d.levels,
        i + 1,
        (#[trigger] d.levels[i].open[x]).key,
    ) && waits_before(d.levels[i], d.levels[i].open[x].key) by {
        assert(d.levels[i] == s.levels[i]);
        assert(below(s.levels, i + 1, s.levels[i].open[x].key));
    }
}

/// Do all rows hold their values in place?
pub open spec fn in_place(rows: Seq<Row>) -> bool {
    forall|i: int| 0 <= i < rows.len() ==> (#[trigger] rows[i]).held is Inline
}

/// Rows are taken one after the other.
proof fn lemma_fed(rule: Rule, rows: Seq<Row>, n: nat)
    requires
        n <= rows.len(),
        answers::buildable(rows),
        in_place(rows),
    ensures
        match build::fed(rule, rows, n) {
            Err(h) => h matches Halt::Stopped(e) && unavoidable(e),
            Ok(b) => {
                &&& b.rows == rows.take(n as int)
                &&& build::shaped(b.state.levels, 0)
                &&& sound(b.state)
                &&& tidy(b.state.levels, 0)
                &&& forall|k: Seq<u8>|
                    (n > 0 ==> order::lt(rows[n - 1].key, k)) ==> #[trigger] below(
                        b.state.levels,
                        0,
                        k,
                    )
            },
        },
    decreases n,
{
    reveal(sound);
    reveal(tidy);
    if n == 0 {
        assert(rows.take(0) =~= Seq::<Row>::empty());
    } else {
        let q = (n - 1) as nat;
        lemma_fed(rule, rows, q);
        if let Ok(b) = build::fed(rule, rows, q) {
            let row = rows[n - 1];
            assert(answers::storable(rows[n - 1]));
            assert(rows[n - 1].held is Inline);
            assert(node::logical(Seq::<Row>::empty()) == node::HEADER);
            if q > 0 {
                assert(b.rows.last() == rows[q - 1]);
                assert(order::lt(rows[q - 1].key, rows[n - 1].key));
            }
            assert(build::refusal(b.rows, row) is None);
            assert(below(b.state.levels, 0, row.key));
            assert(sound_row(build::map_of(b.state.puts), 0, row));
            lemma_add(rule, b.state, 0, row);
            assert(rows.take(n as int) =~= rows.take(q as int).push(row));
            if let Ok(t) = build::spec_add(rule, b.state, 0, row) {
                build::lemma_add_shaped(rule, b.state, 0, row);
                assert forall|k: Seq<u8>| order::lt(row.key, k) implies #[trigger] below(
                    t.levels,
                    0,
                    k,
                ) by {
                    if q > 0 {
                        order::lemma_lt_trans(rows[q - 1].key, row.key, k);
                    }
                    assert(below(b.state.levels, 0, k));
                }
            }
        }
    }
}

/// A build is carried out: rows that ascend, are within the format's limits and hold their
/// values in place make a tree. The build stops only where the sum of their lengths does
/// not fit in 64 bits, or where there are more levels than can be numbered.
pub proof fn law_a_build_in_order_is_carried_out(rule: Rule, rows: Seq<Row>)
    requires
        answers::buildable(rows),
        in_place(rows),
    ensures
        build::spec_build(rule, rows) matches Err(h) ==> (h matches Halt::Stopped(e)
            && unavoidable(e)),
{
    lemma_fed(rule, rows, rows.len());
    if let Ok(b) = build::fed(rule, rows, rows.len()) {
        if b.rows.len() > 0 {
            lemma_finish(rule, b.state, 0, Seq::empty());
        }
    }
}

} // verus!
