//! Changing a sorted list of rows by a sorted list of edits.

use crate::node;
use crate::node::{Payload, Row};
use crate::order;
use vstd::prelude::*;

verus! {

/// What to store under a key; nothing, to have none there.
#[verifier::ext_equal]
pub struct EditRow {
    pub key: Seq<u8>,
    pub held: Option<Payload>,
}

/// Edits whose keys strictly increase.
pub open spec fn sorted_edits(es: Seq<EditRow>) -> bool {
    forall|i: int, j: int|
        0 <= i < j < es.len() ==> order::lt((#[trigger] es[i]).key, (#[trigger] es[j]).key)
}

/// The row an edit leaves.
pub open spec fn left_by(e: EditRow) -> Seq<Row> {
    match e.held {
        None => Seq::empty(),
        Some(p) => seq![Row { key: e.key, held: p }],
    }
}

/// The rows after the edits.
pub open spec fn edited(rows: Seq<Row>, es: Seq<EditRow>) -> Seq<Row>
    decreases rows.len() + es.len(),
{
    if es.len() == 0 {
        rows
    } else if rows.len() == 0 || order::lt(es[0].key, rows[0].key) {
        left_by(es[0]) + edited(rows, es.skip(1))
    } else if order::lt(rows[0].key, es[0].key) {
        seq![rows[0]] + edited(rows.skip(1), es)
    } else {
        left_by(es[0]) + edited(rows.skip(1), es.skip(1))
    }
}

/// What a list holds under a key.
pub open spec fn row_at(rows: Seq<Row>, key: Seq<u8>) -> Option<Payload>
    decreases rows.len(),
{
    if rows.len() == 0 {
        None
    } else if rows[0].key == key {
        Some(rows[0].held)
    } else {
        row_at(rows.skip(1), key)
    }
}

/// What the edits say of a key.
pub open spec fn edit_at(es: Seq<EditRow>, key: Seq<u8>) -> Option<EditRow>
    decreases es.len(),
{
    if es.len() == 0 {
        None
    } else if es[0].key == key {
        Some(es[0])
    } else {
        edit_at(es.skip(1), key)
    }
}

/// Are all keys at or after this one?
pub open spec fn rows_from(rows: Seq<Row>, k: Seq<u8>) -> bool {
    forall|i: int| 0 <= i < rows.len() ==> order::le(k, (#[trigger] rows[i]).key)
}

/// Are all keys at or after this one?
pub open spec fn edits_from(es: Seq<EditRow>, k: Seq<u8>) -> bool {
    forall|i: int| 0 <= i < es.len() ==> order::le(k, (#[trigger] es[i]).key)
}

/// Are all keys before this one?
pub open spec fn rows_below(rows: Seq<Row>, k: Seq<u8>) -> bool {
    forall|i: int| 0 <= i < rows.len() ==> order::lt((#[trigger] rows[i]).key, k)
}

/// Are all keys before this one?
pub open spec fn edits_below(es: Seq<EditRow>, k: Seq<u8>) -> bool {
    forall|i: int| 0 <= i < es.len() ==> order::lt((#[trigger] es[i]).key, k)
}

/// The rest of sorted rows.
pub proof fn lemma_rows_rest(rows: Seq<Row>)
    requires
        node::sorted_rows(rows),
        rows.len() > 0,
    ensures
        node::sorted_rows(rows.skip(1)),
        forall|i: int| 0 <= i < rows.skip(1).len() ==> order::lt(rows[0].key, (#[trigger] rows.skip(1)[i]).key),
{
    let t = rows.skip(1);
    assert forall|i: int, j: int| 0 <= i < j < t.len() implies order::lt(
        (#[trigger] t[i]).key,
        (#[trigger] t[j]).key,
    ) by {
        assert(order::lt(rows[i + 1].key, rows[j + 1].key));
    }
    assert forall|i: int| 0 <= i < t.len() implies order::lt(rows[0].key, (#[trigger] t[i]).key) by {
        assert(order::lt(rows[0].key, rows[i + 1].key));
    }
}

/// The rest of sorted edits.
pub proof fn lemma_edits_rest(es: Seq<EditRow>)
    requires
        sorted_edits(es),
        es.len() > 0,
    ensures
        sorted_edits(es.skip(1)),
        forall|i: int| 0 <= i < es.skip(1).len() ==> order::lt(es[0].key, (#[trigger] es.skip(1)[i]).key),
{
    let t = es.skip(1);
    assert forall|i: int, j: int| 0 <= i < j < t.len() implies order::lt(
        (#[trigger] t[i]).key,
        (#[trigger] t[j]).key,
    ) by {
        assert(order::lt(es[i + 1].key, es[j + 1].key));
    }
    assert forall|i: int| 0 <= i < t.len() implies order::lt(es[0].key, (#[trigger] t[i]).key) by {
        assert(order::lt(es[0].key, es[i + 1].key));
    }
}

/// A row put in front of later ones.
proof fn lemma_front(x: Row, rows: Seq<Row>)
    requires
        node::sorted_rows(rows),
        forall|i: int| 0 <= i < rows.len() ==> order::lt(x.key, (#[trigger] rows[i]).key),
    ensures
        node::sorted_rows(seq![x] + rows),
{
    let all = seq![x] + rows;
    assert forall|i: int, j: int| 0 <= i < j < all.len() implies order::lt(
        (#[trigger] all[i]).key,
        (#[trigger] all[j]).key,
    ) by {
        assert(all[j] == rows[j - 1]);
        if i > 0 {
            assert(all[i] == rows[i - 1]);
            assert(order::lt(rows[i - 1].key, rows[j - 1].key));
        }
    }
}

/// Edited rows come after what both lists come after.
pub proof fn lemma_edited_above(rows: Seq<Row>, es: Seq<EditRow>, k: Seq<u8>)
    requires
        forall|i: int| 0 <= i < rows.len() ==> order::lt(k, (#[trigger] rows[i]).key),
        forall|i: int| 0 <= i < es.len() ==> order::lt(k, (#[trigger] es[i]).key),
    ensures
        forall|i: int|
            0 <= i < edited(rows, es).len() ==> order::lt(k, (#[trigger] edited(rows, es)[i]).key),
    decreases rows.len() + es.len(),
{
    if es.len() > 0 {
        let (p, q, head) = if rows.len() == 0 || order::lt(es[0].key, rows[0].key) {
            (rows, es.skip(1), left_by(es[0]))
        } else if order::lt(rows[0].key, es[0].key) {
            (rows.skip(1), es, seq![rows[0]])
        } else {
            (rows.skip(1), es.skip(1), left_by(es[0]))
        };
        assert forall|i: int| 0 <= i < p.len() implies order::lt(k, (#[trigger] p[i]).key) by {
            if p.len() < rows.len() {
                assert(p[i] == rows[i + 1]);
            }
        }
        assert forall|i: int| 0 <= i < q.len() implies order::lt(k, (#[trigger] q[i]).key) by {
            if q.len() < es.len() {
                assert(q[i] == es[i + 1]);
            }
        }
        lemma_edited_above(p, q, k);
        let all = edited(rows, es);
        let rest = edited(p, q);
        assert(all == head + rest);
        assert forall|i: int| 0 <= i < all.len() implies order::lt(k, (#[trigger] all[i]).key) by {
            if i >= head.len() {
                assert(all[i] == rest[i - head.len()]);
            } else {
                assert(order::lt(k, es[0].key));
                if rows.len() > 0 {
                    assert(order::lt(k, rows[0].key));
                }
            }
        }
    }
}

/// Edited rows come before what both lists come before.
pub proof fn lemma_edited_below(rows: Seq<Row>, es: Seq<EditRow>, k: Seq<u8>)
    requires
        rows_below(rows, k),
        edits_below(es, k),
    ensures
        rows_below(edited(rows, es), k),
    decreases rows.len() + es.len(),
{
    if es.len() > 0 {
        let (p, q, head) = if rows.len() == 0 || order::lt(es[0].key, rows[0].key) {
            (rows, es.skip(1), left_by(es[0]))
        } else if order::lt(rows[0].key, es[0].key) {
            (rows.skip(1), es, seq![rows[0]])
        } else {
            (rows.skip(1), es.skip(1), left_by(es[0]))
        };
        assert forall|i: int| 0 <= i < p.len() implies order::lt((#[trigger] p[i]).key, k) by {
            if p.len() < rows.len() {
                assert(p[i] == rows[i + 1]);
            }
        }
        assert forall|i: int| 0 <= i < q.len() implies order::lt((#[trigger] q[i]).key, k) by {
            if q.len() < es.len() {
                assert(q[i] == es[i + 1]);
            }
        }
        lemma_edited_below(p, q, k);
        let all = edited(rows, es);
        let rest = edited(p, q);
        assert(all == head + rest);
        assert forall|i: int| 0 <= i < all.len() implies order::lt((#[trigger] all[i]).key, k) by {
            if i >= head.len() {
                assert(all[i] == rest[i - head.len()]);
            } else {
                assert(order::lt(es[0].key, k));
                if rows.len() > 0 {
                    assert(order::lt(rows[0].key, k));
                }
            }
        }
    }
}

/// Editing keeps the order.
pub proof fn lemma_edited_sorted(rows: Seq<Row>, es: Seq<EditRow>)
    requires
        node::sorted_rows(rows),
        sorted_edits(es),
    ensures
        node::sorted_rows(edited(rows, es)),
    decreases rows.len() + es.len(),
{
    if es.len() > 0 {
        lemma_edits_rest(es);
        if rows.len() > 0 {
            lemma_rows_rest(rows);
        }
        if rows.len() == 0 || order::lt(es[0].key, rows[0].key) {
            let rest = edited(rows, es.skip(1));
            lemma_edited_sorted(rows, es.skip(1));
            assert forall|i: int| 0 <= i < rows.len() implies order::lt(
                es[0].key,
                (#[trigger] rows[i]).key,
            ) by {
                if i > 0 {
                    assert(order::lt(rows[0].key, rows[i].key));
                    order::lemma_lt_trans(es[0].key, rows[0].key, rows[i].key);
                }
            }
            lemma_edited_above(rows, es.skip(1), es[0].key);
            lemma_left(es[0], rest);
        } else if order::lt(rows[0].key, es[0].key) {
            lemma_edited_sorted(rows.skip(1), es);
            assert forall|i: int| 0 <= i < es.len() implies order::lt(
                rows[0].key,
                (#[trigger] es[i]).key,
            ) by {
                if i > 0 {
                    assert(order::lt(es[0].key, es[i].key));
                    order::lemma_lt_trans(rows[0].key, es[0].key, es[i].key);
                }
            }
            lemma_edited_above(rows.skip(1), es, rows[0].key);
            lemma_front(rows[0], edited(rows.skip(1), es));
        } else {
            order::lemma_lt_total(rows[0].key, es[0].key);
            lemma_edited_sorted(rows.skip(1), es.skip(1));
            lemma_edited_above(rows.skip(1), es.skip(1), es[0].key);
            lemma_left(es[0], edited(rows.skip(1), es.skip(1)));
        }
    }
}

/// What an edit leaves, in front of later rows.
proof fn lemma_left(e: EditRow, rest: Seq<Row>)
    requires
        node::sorted_rows(rest),
        forall|i: int| 0 <= i < rest.len() ==> order::lt(e.key, (#[trigger] rest[i]).key),
    ensures
        node::sorted_rows(left_by(e) + rest),
{
    match e.held {
        None => {
            assert(left_by(e) + rest =~= rest);
        },
        Some(p) => {
            lemma_front(Row { key: e.key, held: p }, rest);
        },
    }
}

/// Nothing is held under a key before all rows.
pub proof fn lemma_row_none(rows: Seq<Row>, k: Seq<u8>)
    requires
        forall|i: int| 0 <= i < rows.len() ==> order::lt(k, (#[trigger] rows[i]).key),
    ensures
        row_at(rows, k) is None,
    decreases rows.len(),
{
    if rows.len() > 0 {
        assert(order::lt(k, rows[0].key));
        order::lemma_lt_irreflexive(k);
        let t = rows.skip(1);
        assert forall|i: int| 0 <= i < t.len() implies order::lt(k, (#[trigger] t[i]).key) by {
            assert(t[i] == rows[i + 1]);
        }
        lemma_row_none(t, k);
    }
}

/// What is held in front of other rows.
proof fn lemma_row_front(head: Seq<Row>, rest: Seq<Row>, k: Seq<u8>)
    requires
        head.len() <= 1,
    ensures
        row_at(head + rest, k) == if head.len() == 1 && head[0].key == k {
            Some(head[0].held)
        } else {
            row_at(rest, k)
        },
{
    if head.len() == 0 {
        assert(head + rest =~= rest);
    } else {
        assert((head + rest)[0] == head[0]);
        assert((head + rest).skip(1) =~= rest);
    }
}

/// No edit touches a key before all of them.
pub proof fn lemma_edit_none(es: Seq<EditRow>, k: Seq<u8>)
    requires
        forall|i: int| 0 <= i < es.len() ==> order::lt(k, (#[trigger] es[i]).key),
    ensures
        edit_at(es, k) is None,
    decreases es.len(),
{
    if es.len() > 0 {
        assert(order::lt(k, es[0].key));
        order::lemma_lt_irreflexive(k);
        let t = es.skip(1);
        assert forall|i: int| 0 <= i < t.len() implies order::lt(k, (#[trigger] t[i]).key) by {
            assert(t[i] == es[i + 1]);
        }
        lemma_edit_none(t, k);
    }
}

/// After the edits a key holds what they say, or what it held.
pub proof fn lemma_edited_at(rows: Seq<Row>, es: Seq<EditRow>, k: Seq<u8>)
    requires
        node::sorted_rows(rows),
        sorted_edits(es),
    ensures
        row_at(edited(rows, es), k) == match edit_at(es, k) {
            Some(e) => e.held,
            None => row_at(rows, k),
        },
    decreases rows.len() + es.len(),
{
    if es.len() > 0 {
        lemma_edits_rest(es);
        if rows.len() > 0 {
            lemma_rows_rest(rows);
        }
        if rows.len() == 0 || order::lt(es[0].key, rows[0].key) {
            lemma_edited_at(rows, es.skip(1), k);
            lemma_row_front(left_by(es[0]), edited(rows, es.skip(1)), k);
            if k == es[0].key {
                assert forall|i: int| 0 <= i < rows.len() implies order::lt(
                    es[0].key,
                    (#[trigger] rows[i]).key,
                ) by {
                    if i > 0 {
                        assert(order::lt(rows[0].key, rows[i].key));
                        order::lemma_lt_trans(es[0].key, rows[0].key, rows[i].key);
                    }
                }
                lemma_edited_above(rows, es.skip(1), k);
                lemma_row_none(edited(rows, es.skip(1)), k);
            }
        } else if order::lt(rows[0].key, es[0].key) {
            lemma_edited_at(rows.skip(1), es, k);
            lemma_row_front(seq![rows[0]], edited(rows.skip(1), es), k);
            if k == rows[0].key {
                assert forall|i: int| 0 <= i < es.len() implies order::lt(
                    k,
                    (#[trigger] es[i]).key,
                ) by {
                    if i > 0 {
                        assert(order::lt(es[0].key, es[i].key));
                        order::lemma_lt_trans(rows[0].key, es[0].key, es[i].key);
                    }
                }
                lemma_edit_none(es, k);
            }
        } else {
            order::lemma_lt_total(rows[0].key, es[0].key);
            lemma_edited_at(rows.skip(1), es.skip(1), k);
            lemma_row_front(left_by(es[0]), edited(rows.skip(1), es.skip(1)), k);
            if k == es[0].key {
                lemma_edited_above(rows.skip(1), es.skip(1), k);
                lemma_row_none(edited(rows.skip(1), es.skip(1)), k);
            }
        }
    }
}

/// A row of a list is held under its key.
pub proof fn lemma_row_is(rows: Seq<Row>, i: int)
    requires
        node::sorted_rows(rows),
        0 <= i < rows.len(),
    ensures
        row_at(rows, rows[i].key) == Some(rows[i].held),
    decreases rows.len(),
{
    if i > 0 {
        assert(order::lt(rows[0].key, rows[i].key));
        order::lemma_lt_irreflexive(rows[0].key);
        lemma_rows_rest(rows);
        lemma_row_is(rows.skip(1), i - 1);
        assert(rows.skip(1)[i - 1] == rows[i]);
    }
}

/// What is held under a key is a row.
pub proof fn lemma_row_of(rows: Seq<Row>, k: Seq<u8>) -> (i: int)
    requires
        row_at(rows, k) is Some,
    ensures
        0 <= i < rows.len(),
        rows[i] == (Row { key: k, held: row_at(rows, k)->Some_0 }),
    decreases rows.len(),
{
    if rows[0].key == k {
        0
    } else {
        let j = lemma_row_of(rows.skip(1), k);
        assert(rows.skip(1)[j] == rows[j + 1]);
        j + 1
    }
}

/// Sorted rows that hold the same under every key are the same.
pub proof fn lemma_rows_same(a: Seq<Row>, b: Seq<Row>)
    requires
        node::sorted_rows(a),
        node::sorted_rows(b),
        forall|k: Seq<u8>| #[trigger] row_at(a, k) == row_at(b, k),
    ensures
        a == b,
    decreases a.len(),
{
    if a.len() == 0 {
        if b.len() > 0 {
            lemma_row_is(b, 0);
            assert(row_at(a, b[0].key) == row_at(b, b[0].key));
        }
        assert(a =~= b);
    } else {
        lemma_row_is(a, 0);
        assert(row_at(a, a[0].key) == row_at(b, a[0].key));
        let i = lemma_row_of(b, a[0].key);
        lemma_row_is(b, 0);
        assert(row_at(a, b[0].key) == row_at(b, b[0].key));
        let j = lemma_row_of(a, b[0].key);
        if i > 0 {
            assert(order::lt(b[0].key, b[i].key));
            if j > 0 {
                assert(order::lt(a[0].key, a[j].key));
                order::lemma_lt_trans(a[0].key, b[0].key, a[0].key);
            }
            order::lemma_lt_irreflexive(a[0].key);
        }
        assert(a[0] == b[0]);
        lemma_rows_rest(a);
        lemma_rows_rest(b);
        let p = a.skip(1);
        let q = b.skip(1);
        assert forall|k: Seq<u8>| #[trigger] row_at(p, k) == row_at(q, k) by {
            assert(row_at(a, k) == row_at(b, k));
            if k == a[0].key {
                lemma_row_none(p, k);
                lemma_row_none(q, k);
            }
        }
        lemma_rows_same(p, q);
        assert(a =~= seq![a[0]] + p);
        assert(b =~= seq![b[0]] + q);
    }
}

/// Lists that a key parts are edited part by part.
pub proof fn lemma_edited_split(
    a: Seq<Row>,
    b: Seq<Row>,
    x: Seq<EditRow>,
    y: Seq<EditRow>,
    u: Seq<u8>,
)
    requires
        rows_below(a, u),
        edits_below(x, u),
        rows_from(b, u),
        edits_from(y, u),
    ensures
        edited(a + b, x + y) == edited(a, x) + edited(b, y),
    decreases a.len() + x.len(),
{
    let rows = a + b;
    let es = x + y;
    if a.len() == 0 && x.len() == 0 {
        assert(rows =~= b);
        assert(es =~= y);
        assert(edited(a, x) + edited(b, y) =~= edited(b, y));
    } else if x.len() == 0 {
        assert(es =~= y);
        let t = a.skip(1);
        assert(rows[0] == a[0]);
        assert(rows.skip(1) =~= t + b);
        assert forall|i: int| 0 <= i < t.len() implies order::lt((#[trigger] t[i]).key, u) by {
            assert(t[i] == a[i + 1]);
        }
        lemma_edited_split(t, b, x, y, u);
        assert(x + y =~= y);
        if y.len() > 0 {
            assert(order::lt(a[0].key, u));
            assert(order::le(u, y[0].key));
            lemma_lt_le(a[0].key, u, y[0].key);
            assert(edited(rows, es) == seq![a[0]] + edited(t + b, y));
            assert(seq![a[0]] + (t + edited(b, y)) =~= a + edited(b, y));
        } else {
            assert(edited(a, x) + edited(b, y) =~= rows);
        }
    } else if a.len() == 0 {
        assert(rows =~= b);
        let t = x.skip(1);
        assert(es[0] == x[0]);
        assert(es.skip(1) =~= t + y);
        assert forall|i: int| 0 <= i < t.len() implies order::lt((#[trigger] t[i]).key, u) by {
            assert(t[i] == x[i + 1]);
        }
        lemma_edited_split(a, b, t, y, u);
        assert(a + b =~= b);
        if b.len() > 0 {
            assert(order::lt(x[0].key, u));
            assert(order::le(u, b[0].key));
            lemma_lt_le(x[0].key, u, b[0].key);
        }
        assert(edited(rows, es) == left_by(x[0]) + edited(b, t + y));
        assert(left_by(x[0]) + (edited(a, t) + edited(b, y)) =~= left_by(x[0]) + edited(a, t)
            + edited(b, y));
    } else {
        assert(rows[0] == a[0] && es[0] == x[0]);
        let p = if order::lt(x[0].key, a[0].key) {
            a
        } else {
            a.skip(1)
        };
        let q = if !order::lt(x[0].key, a[0].key) && order::lt(a[0].key, x[0].key) {
            x
        } else {
            x.skip(1)
        };
        let head = if !order::lt(x[0].key, a[0].key) && order::lt(a[0].key, x[0].key) {
            seq![a[0]]
        } else {
            left_by(x[0])
        };
        assert forall|i: int| 0 <= i < p.len() implies order::lt((#[trigger] p[i]).key, u) by {
            if p.len() < a.len() {
                assert(p[i] == a[i + 1]);
            }
        }
        assert forall|i: int| 0 <= i < q.len() implies order::lt((#[trigger] q[i]).key, u) by {
            if q.len() < x.len() {
                assert(q[i] == x[i + 1]);
            }
        }
        lemma_edited_split(p, b, q, y, u);
        assert(rows.skip(1) =~= a.skip(1) + b);
        assert(es.skip(1) =~= x.skip(1) + y);
        assert(edited(rows, es) == head + edited(p + b, q + y));
        assert(edited(a, x) == head + edited(p, q));
        assert(head + (edited(p, q) + edited(b, y)) =~= head + edited(p, q) + edited(b, y));
    }
}

/// Before what comes at or after.
pub proof fn lemma_lt_le(a: Seq<u8>, b: Seq<u8>, c: Seq<u8>)
    requires
        order::lt(a, b),
        order::le(b, c),
    ensures
        order::lt(a, c),
        !order::lt(c, a),
{
    if b != c {
        order::lemma_lt_trans(a, b, c);
    }
    if order::lt(c, a) {
        order::lemma_lt_trans(a, c, a);
        order::lemma_lt_irreflexive(a);
    }
}

/// An edit is what the edits say of its key.
pub proof fn lemma_edit_is(es: Seq<EditRow>, i: int)
    requires
        sorted_edits(es),
        0 <= i < es.len(),
    ensures
        edit_at(es, es[i].key) == Some(es[i]),
    decreases es.len(),
{
    if i > 0 {
        assert(order::lt(es[0].key, es[i].key));
        order::lemma_lt_irreflexive(es[0].key);
        lemma_edits_rest(es);
        lemma_edit_is(es.skip(1), i - 1);
        assert(es.skip(1)[i - 1] == es[i]);
    }
}

/// What the edits say of a key is an edit.
pub proof fn lemma_edit_of(es: Seq<EditRow>, k: Seq<u8>) -> (i: int)
    requires
        edit_at(es, k) is Some,
    ensures
        0 <= i < es.len(),
        es[i] == edit_at(es, k)->Some_0,
        es[i].key == k,
    decreases es.len(),
{
    if es[0].key == k {
        0
    } else {
        let j = lemma_edit_of(es.skip(1), k);
        assert(es.skip(1)[j] == es[j + 1]);
        j + 1
    }
}

/// One more edit among sorted ones, in the place of one with its key or between two.
pub proof fn lemma_edit_put(es: Seq<EditRow>, next: Seq<EditRow>, p: int, e: EditRow, found: bool)
    requires
        sorted_edits(es),
        0 <= p <= es.len(),
        found ==> p < es.len() && es[p].key == e.key && next == es.update(p, e),
        !found ==> next == es.insert(p, e),
        forall|i: int| 0 <= i < p ==> order::lt((#[trigger] es[i]).key, e.key),
        forall|i: int| p <= i < es.len() && !(found && i == p) ==> order::lt(e.key, (#[trigger] es[i]).key),
    ensures
        sorted_edits(next),
        forall|k: Seq<u8>|
            #[trigger] edit_at(next, k) == (if k == e.key {
                Some(e)
            } else {
                edit_at(es, k)
            }),
{
    assert forall|i: int, j: int| 0 <= i < j < next.len() implies order::lt(
        (#[trigger] next[i]).key,
        (#[trigger] next[j]).key,
    ) by {
        let a = if !found && i > p {
            i - 1
        } else {
            i
        };
        let b = if !found && j > p {
            j - 1
        } else {
            j
        };
        if i != p {
            assert(next[i] == es[a]);
        }
        if j != p {
            assert(next[j] == es[b]);
        }
        if i != p && j != p {
            assert(order::lt(es[a].key, es[b].key));
        }
    }
    assert(next[p] == e);
    lemma_edit_is(next, p);
    assert forall|k: Seq<u8>| #[trigger] edit_at(next, k) == (if k == e.key {
        Some(e)
    } else {
        edit_at(es, k)
    }) by {
        if k != e.key {
            if edit_at(es, k) is Some {
                let i = lemma_edit_of(es, k);
                let j = if !found && i >= p {
                    i + 1
                } else {
                    i
                };
                assert(next[j] == es[i]);
                lemma_edit_is(next, j);
            } else if edit_at(next, k) is Some {
                let j = lemma_edit_of(next, k);
                let i = if !found && j > p {
                    j - 1
                } else {
                    j
                };
                assert(next[j] == es[i]);
                lemma_edit_is(es, i);
            }
        }
    }
}

} // verus!
