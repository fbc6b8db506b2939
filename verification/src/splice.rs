//! Recutting part of a level.
//!
//! A level is cut well when every run is whole, closing nowhere before its end, and
//! every run but the last ends where the rule or the hard limit says so. That is a
//! local matter, so a stretch of runs can be cut anew and set between those that
//! stay: where the seams are right, the whole is what cutting all the rows gives.

use crate::chunk;
use crate::chunk::{Cut, Rule};
use crate::edits;
use crate::edits::EditRow;
use crate::node;
use crate::node::Row;
use crate::order;
use crate::tower;
use vstd::prelude::*;

verus! {

/// A run that is cut nowhere before its end.
pub open spec fn whole_run(level: u8, rule: Rule, o: Seq<Row>) -> bool {
    &&& o.len() > 0
    &&& chunk::cut_from(level, rule, chunk::uncut(), o) == if chunk::fires(level, rule, o) {
        Cut { closed: seq![o], open: Seq::empty() }
    } else {
        Cut { closed: Seq::empty(), open: o }
    }
}

/// Does a run end before the next one: by the rule, or by the hard limit?
pub open spec fn parted(level: u8, rule: Rule, a: Seq<Row>, b: Seq<Row>) -> bool {
    chunk::fires(level, rule, a) || chunk::overflows(a, b[0])
}

/// Runs that are whole and end where they should.
#[verifier::opaque]
pub open spec fn well_cut(level: u8, rule: Rule, c: Seq<Seq<Row>>) -> bool {
    &&& forall|j: int| 0 <= j < c.len() ==> whole_run(level, rule, #[trigger] c[j])
    &&& forall|j: int|
        #![trigger c[j]]
        0 <= j && j + 1 < c.len() ==> parted(level, rule, c[j], c[j + 1])
}

/// Nothing, or runs of which the last was closed by the rule.
pub open spec fn firm(level: u8, rule: Rule, c: Seq<Seq<Row>>) -> bool {
    c.len() > 0 ==> chunk::fires(level, rule, c.last())
}

/// Cutting on from where cutting got to.
pub proof fn lemma_cut_on(level: u8, rule: Rule, c: Cut, a: Seq<Row>, b: Seq<Row>)
    ensures
        chunk::cut_from(level, rule, c, a + b) == chunk::cut_from(
            level,
            rule,
            chunk::cut_from(level, rule, c, a),
            b,
        ),
    decreases b.len(),
{
    if b.len() == 0 {
        assert(a + b =~= a);
    } else {
        assert((a + b).drop_last() =~= a + b.drop_last());
        lemma_cut_on(level, rule, c, a, b.drop_last());
    }
}

/// What was closed before does not matter.
pub proof fn lemma_cut_shift(level: u8, rule: Rule, x: Seq<Seq<Row>>, o: Seq<Row>, rows: Seq<Row>)
    ensures
        ({
            let d = chunk::cut_from(
                level,
                rule,
                Cut { closed: Seq::empty(), open: o },
                rows,
            );
            chunk::cut_from(level, rule, Cut { closed: x, open: o }, rows) == Cut {
                closed: x + d.closed,
                open: d.open,
            }
        }),
    decreases rows.len(),
{
    let e = Seq::<Seq<Row>>::empty();
    if rows.len() == 0 {
        assert(x + e =~= x);
    } else {
        lemma_cut_shift(level, rule, x, o, rows.drop_last());
        let d = chunk::cut_from(
            level,
            rule,
            Cut { closed: e, open: o },
            rows.drop_last(),
        );
        let row = rows.last();
        let p = chunk::made_room(Cut { closed: x + d.closed, open: d.open }, row);
        let q = chunk::made_room(d, row);
        assert(p.closed =~= x + q.closed);
        let open = q.open.push(row);
        assert((x + q.closed).push(open) =~= x + q.closed.push(open));
    }
}

/// A row that overflows the open node closes it.
pub proof fn lemma_cut_overflow(level: u8, rule: Rule, x: Seq<Seq<Row>>, o: Seq<Row>, rows: Seq<Row>)
    requires
        rows.len() > 0,
        chunk::overflows(o, rows[0]),
        tower::small(rows[0]),
    ensures
        chunk::cut_from(level, rule, Cut { closed: x, open: o }, rows) == chunk::cut_from(
            level,
            rule,
            Cut { closed: x.push(o), open: Seq::empty() },
            rows,
        ),
    decreases rows.len(),
{
    let rest = rows.drop_last();
    if rows.len() == 1 {
        assert(rest =~= Seq::<Row>::empty());
        let c = Cut { closed: x, open: o };
        let d = Cut { closed: x.push(o), open: Seq::empty() };
        assert(chunk::cut_from(level, rule, c, rest) == c);
        assert(chunk::cut_from(level, rule, d, rest) == d);
    } else {
        assert(rest[0] == rows[0]);
        lemma_cut_overflow(level, rule, x, o, rest);
    }
}

/// Cutting the rows of well cut runs gives those runs.
pub proof fn lemma_well_cut(level: u8, rule: Rule, c: Seq<Seq<Row>>)
    requires
        well_cut(level, rule, c),
        tower::all_small(tower::joined(c)),
    ensures
        c.len() == 0 ==> chunk::cut_from(level, rule, chunk::uncut(), tower::joined(c))
            == chunk::uncut(),
        c.len() > 0 ==> chunk::cut_from(level, rule, chunk::uncut(), tower::joined(c))
            == if chunk::fires(level, rule, c.last()) {
            Cut { closed: c, open: Seq::empty() }
        } else {
            Cut { closed: c.drop_last(), open: c.last() }
        },
        chunk::chunks(level, rule, tower::joined(c)) == c,
    decreases c.len(),
{
    reveal(well_cut);
    if c.len() == 0 {
        assert(chunk::chunks(level, rule, tower::joined(c)) =~= c);
    } else {
        let k = c.len() - 1;
        let last = c[k];
        let rest = c.drop_last();
        let rows = tower::joined(rest);
        assert(whole_run(level, rule, c[k]));
        assert forall|j: int| 0 <= j < rest.len() implies whole_run(level, rule, #[trigger] rest[j]) by {
            assert(rest[j] == c[j]);
        }
        assert forall|j: int|
            #![trigger rest[j]]
            0 <= j && j + 1 < rest.len() implies parted(level, rule, rest[j], rest[j + 1]) by {
            assert(rest[j] == c[j] && rest[j + 1] == c[j + 1]);
        }
        assert forall|i: int| 0 <= i < rows.len() implies tower::small(#[trigger] rows[i]) by {
            assert(tower::joined(c)[i] == rows[i]);
        }
        lemma_well_cut(level, rule, rest);
        lemma_cut_on(level, rule, chunk::uncut(), rows, last);
        let x = chunk::cut_from(level, rule, chunk::uncut(), last);
        lemma_cut_shift(level, rule, rest, Seq::empty(), last);
        assert(tower::joined(c)[rows.len() as int] == last[0]);
        if rest.len() > 0 {
            assert(rest[k - 1] == c[k - 1]);
            assert(parted(level, rule, c[k - 1], c[k]));
            if !chunk::fires(level, rule, rest.last()) {
                lemma_cut_overflow(level, rule, rest.drop_last(), rest.last(), last);
                assert(rest.drop_last().push(rest.last()) =~= rest);
            }
        }
        let whole = chunk::cut_from(level, rule, chunk::uncut(), tower::joined(c));
        assert(whole == Cut { closed: rest + x.closed, open: x.open }) by {
            if rest.len() == 0 {
                assert(rest + x.closed =~= x.closed);
            }
        }
        assert(rest + seq![last] =~= c);
        assert(rest + Seq::<Seq<Row>>::empty() =~= rest);
        if !chunk::fires(level, rule, last) {
            assert(rest.push(last) =~= c);
        }
    }
}

/// How cutting stands: what is closed is well cut, and what is open is whole and
/// comes after it.
pub proof fn lemma_cut_stands(level: u8, rule: Rule, rows: Seq<Row>)
    requires
        tower::all_small(rows),
    ensures
        ({
            let c = chunk::cut_from(level, rule, chunk::uncut(), rows);
            &&& well_cut(level, rule, c.closed)
            &&& c.open.len() > 0 ==> whole_run(level, rule, c.open) && !chunk::fires(
                level,
                rule,
                c.open,
            )
            &&& c.open.len() > 0 && c.closed.len() > 0 ==> parted(
                level,
                rule,
                c.closed.last(),
                c.open,
            )
            &&& c.open.len() == 0 ==> firm(level, rule, c.closed)
        }),
    decreases rows.len(),
{
    reveal(well_cut);
    if rows.len() > 0 {
        let row = rows.last();
        let rest = rows.drop_last();
        assert forall|i: int| 0 <= i < rest.len() implies tower::small(#[trigger] rest[i]) by {
            assert(rest[i] == rows[i]);
        }
        assert(tower::small(rows[rows.len() - 1]));
        lemma_cut_stands(level, rule, rest);
        let c = chunk::cut_from(level, rule, chunk::uncut(), rest);
        let d = chunk::made_room(c, row);
        let open = d.open.push(row);
        let one = seq![row];
        assert(one.drop_last() =~= Seq::<Row>::empty());
        assert(chunk::cut_from(level, rule, chunk::uncut(), Seq::empty()) == chunk::uncut());
        if chunk::overflows(c.open, row) {
            if c.open.len() == 0 {
                assert(c.open =~= Seq::<Row>::empty());
            }
            lemma_well_push(level, rule, c.closed, c.open);
            assert(open =~= one);
            assert(whole_run(level, rule, one)) by {
                assert(Seq::<Row>::empty().push(row) =~= one);
                assert(chunk::uncut().closed.push(one) =~= seq![one]);
            }
            assert(parted(level, rule, d.closed.last(), one));
        } else {
            assert(open.drop_last() =~= c.open);
            assert(whole_run(level, rule, open)) by {
                if c.open.len() == 0 {
                    assert(c.open =~= Seq::<Row>::empty());
                }
                assert(chunk::cut_from(level, rule, chunk::uncut(), c.open) == Cut {
                    closed: Seq::empty(),
                    open: c.open,
                });
                assert(Seq::<Seq<Row>>::empty().push(open) =~= seq![open]);
            }
            if d.closed.len() > 0 {
                assert(parted(level, rule, d.closed.last(), open));
            }
        }
        if chunk::fires(level, rule, open) {
            lemma_well_push(level, rule, d.closed, open);
        }
    }
}

/// One more run.
proof fn lemma_well_push(level: u8, rule: Rule, c: Seq<Seq<Row>>, o: Seq<Row>)
    requires
        well_cut(level, rule, c),
        whole_run(level, rule, o),
        c.len() > 0 ==> parted(level, rule, c.last(), o),
    ensures
        well_cut(level, rule, c.push(o)),
{
    reveal(well_cut);
    let d = c.push(o);
    assert forall|j: int| 0 <= j < d.len() implies whole_run(level, rule, #[trigger] d[j]) by {
        if j < c.len() {
            assert(d[j] == c[j]);
        }
    }
    assert forall|j: int|
        #![trigger d[j]]
        0 <= j && j + 1 < d.len() implies parted(level, rule, d[j], d[j + 1]) by {
        assert(d[j] == c[j]);
        if j + 1 < c.len() {
            assert(d[j + 1] == c[j + 1]);
        }
    }
}

/// Two stretches of runs, with a seam between them.
pub proof fn lemma_well_join(level: u8, rule: Rule, a: Seq<Seq<Row>>, b: Seq<Seq<Row>>)
    requires
        well_cut(level, rule, a),
        well_cut(level, rule, b),
        a.len() > 0 && b.len() > 0 ==> parted(level, rule, a.last(), b[0]),
    ensures
        well_cut(level, rule, a + b),
{
    reveal(well_cut);
    let d = a + b;
    let n = a.len() as int;
    assert forall|j: int| 0 <= j < d.len() implies whole_run(level, rule, #[trigger] d[j]) by {
        if j < n {
            assert(d[j] == a[j]);
        } else {
            assert(d[j] == b[j - n]);
        }
    }
    assert forall|j: int|
        #![trigger d[j]]
        0 <= j && j + 1 < d.len() implies parted(level, rule, d[j], d[j + 1]) by {
        if j + 1 < n {
            assert(d[j] == a[j] && d[j + 1] == a[j + 1]);
        } else if j >= n {
            assert(d[j] == b[j - n] && d[j + 1] == b[j + 1 - n]);
        } else {
            assert(d[j] == a.last() && d[j + 1] == b[0]);
        }
    }
}

/// Some of the runs.
pub proof fn lemma_well_part(level: u8, rule: Rule, c: Seq<Seq<Row>>, i: int, j: int)
    requires
        well_cut(level, rule, c),
        0 <= i <= j <= c.len(),
    ensures
        well_cut(level, rule, c.subrange(i, j)),
{
    reveal(well_cut);
    let d = c.subrange(i, j);
    assert forall|k: int| 0 <= k < d.len() implies whole_run(level, rule, #[trigger] d[k]) by {
        assert(d[k] == c[k + i]);
    }
    assert forall|k: int|
        #![trigger d[k]]
        0 <= k && k + 1 < d.len() implies parted(level, rule, d[k], d[k + 1]) by {
        assert(d[k] == c[k + i] && d[k + 1] == c[k + i + 1]);
    }
}

/// Cutting gives well cut runs.
pub proof fn lemma_chunks_well(level: u8, rule: Rule, rows: Seq<Row>)
    requires
        tower::all_small(rows),
    ensures
        well_cut(level, rule, chunk::chunks(level, rule, rows)),
{
    lemma_cut_stands(level, rule, rows);
    let c = chunk::cut_from(level, rule, chunk::uncut(), rows);
    if c.open.len() > 0 {
        lemma_well_push(level, rule, c.closed, c.open);
    }
}

// ---------------------------------------------------------------------------
// stretches that are cut anew
// ---------------------------------------------------------------------------

/// A stretch of runs, `first` to `last`, cut anew with the edits `from` up to `to`,
/// into `out`. It goes to the end of the level, or stops where the cut is clean.
#[verifier::ext_equal]
pub struct Stretch {
    pub first: int,
    pub last: int,
    pub from: int,
    pub to: int,
    pub out: Seq<Seq<Row>>,
    pub ended: bool,
}

/// Where the stretches so far end.
pub open spec fn resume(st: Seq<Stretch>, k: int) -> int {
    if k <= 0 {
        0
    } else {
        st[k - 1].last + 1
    }
}

/// How many edits they took.
pub open spec fn consumed(st: Seq<Stretch>, k: int) -> int {
    if k <= 0 {
        0
    } else {
        st[k - 1].to
    }
}

/// The rows of a stretch, edited.
pub open spec fn restreamed(c: Seq<Seq<Row>>, es: Seq<EditRow>, s: Stretch) -> Seq<Row> {
    edits::edited(tower::joined(c.subrange(s.first, s.last + 1)), es.subrange(s.from, s.to))
}

/// Is the seam before a stretch right: it is at the start of the level, its first row
/// is not touched, it follows another stretch, or the run before it was closed by the
/// rule?
pub open spec fn seam(
    level: u8,
    rule: Rule,
    c: Seq<Seq<Row>>,
    es: Seq<EditRow>,
    st: Seq<Stretch>,
    k: int,
) -> bool {
    let s = st[k];
    ||| s.first == 0
    ||| s.from < es.len() && order::lt(c[s.first][0].key, es[s.from].key)
    ||| k > 0 && s.first == resume(st, k)
    ||| chunk::fires(level, rule, c[s.first - 1])
}

/// What holds of stretch `k`.
pub open spec fn stretch_ok(
    level: u8,
    rule: Rule,
    c: Seq<Seq<Row>>,
    es: Seq<EditRow>,
    st: Seq<Stretch>,
    k: int,
) -> bool {
    let s = st[k];
    let q = restreamed(c, es, s);
    &&& 0 <= resume(st, k) <= s.first <= s.last < c.len()
    &&& s.from == consumed(st, k)
    &&& 0 <= s.from <= s.to <= es.len()
    &&& s.first > 0 ==> edits::edits_from(es.skip(s.from), c[s.first][0].key)
    &&& s.last + 1 < c.len() ==> edits::edits_below(es.take(s.to), c[s.last + 1][0].key)
        && edits::edits_from(es.skip(s.to), c[s.last + 1][0].key)
    &&& s.ended <==> s.last + 1 == c.len()
    &&& s.ended ==> s.to == es.len() && s.out == chunk::chunks(level, rule, q)
    &&& !s.ended ==> chunk::cut_from(level, rule, chunk::uncut(), q) == Cut {
        closed: s.out,
        open: Seq::empty(),
    }
    &&& seam(level, rule, c, es, st, k)
}

/// What holds of all stretches.
pub open spec fn stretches_ok(
    level: u8,
    rule: Rule,
    c: Seq<Seq<Row>>,
    es: Seq<EditRow>,
    st: Seq<Stretch>,
) -> bool {
    &&& forall|k: int| 0 <= k < st.len() ==> #[trigger] stretch_ok(level, rule, c, es, st, k)
    &&& consumed(st, st.len() as int) == es.len()
}

/// The level up to the end of the first `k` stretches, with those cut anew.
pub open spec fn spliced(c: Seq<Seq<Row>>, st: Seq<Stretch>, k: nat) -> Seq<Seq<Row>>
    decreases k,
{
    if k == 0 {
        Seq::empty()
    } else {
        spliced(c, st, (k - 1) as nat) + c.subrange(resume(st, k - 1), st[k - 1].first) + st[k
            - 1].out
    }
}

/// The level with all stretches cut anew.
pub open spec fn respliced(c: Seq<Seq<Row>>, st: Seq<Stretch>) -> Seq<Seq<Row>> {
    spliced(c, st, st.len()) + c.skip(resume(st, st.len() as int))
}

/// The rows of two stretches of runs.
pub proof fn lemma_joined_join(a: Seq<Seq<Row>>, b: Seq<Seq<Row>>)
    ensures
        tower::joined(a + b) == tower::joined(a) + tower::joined(b),
    decreases b.len(),
{
    if b.len() == 0 {
        assert(a + b =~= a);
        assert(tower::joined(a) + tower::joined(b) =~= tower::joined(a));
    } else {
        lemma_joined_join(a, b.drop_last());
        assert((a + b).drop_last() =~= a + b.drop_last());
        assert(tower::joined(a + b) =~= tower::joined(a) + tower::joined(b));
    }
}

/// The rows of the runs before and from a run on, parted by its first key.
pub proof fn lemma_parted_by(c: Seq<Seq<Row>>, i: int)
    requires
        node::sorted_rows(tower::joined(c)),
        forall|j: int| 0 <= j < c.len() ==> (#[trigger] c[j]).len() > 0,
        0 <= i < c.len(),
    ensures
        edits::rows_below(tower::joined(c.take(i)), c[i][0].key),
        edits::rows_from(tower::joined(c.skip(i)), c[i][0].key),
        tower::joined(c) == tower::joined(c.take(i)) + tower::joined(c.skip(i)),
{
    let a = tower::joined(c.take(i));
    let b = tower::joined(c.skip(i));
    let all = tower::joined(c);
    assert(c.take(i) + c.skip(i) =~= c);
    lemma_joined_join(c.take(i), c.skip(i));
    let n = a.len() as int;
    lemma_first_row(c.skip(i));
    assert(b[0] == c[i][0]);
    assert(all[n] == b[0]);
    assert forall|j: int| 0 <= j < a.len() implies order::lt((#[trigger] a[j]).key, c[i][0].key) by {
        assert(all[j] == a[j]);
        assert(order::lt(all[j].key, all[n].key));
    }
    assert forall|j: int| 0 <= j < b.len() implies order::le(c[i][0].key, (#[trigger] b[j]).key) by {
        assert(all[n + j] == b[j]);
        if j > 0 {
            assert(order::lt(all[n].key, all[n + j].key));
        }
    }
}

/// The first row of runs.
pub proof fn lemma_first_row(c: Seq<Seq<Row>>)
    requires
        c.len() > 0,
        c[0].len() > 0,
    ensures
        tower::joined(c).len() > 0,
        tower::joined(c)[0] == c[0][0],
    decreases c.len(),
{
    let front = tower::joined(c.drop_last());
    assert(tower::joined(c) == front + c.last());
    if c.len() == 1 {
        assert(c.drop_last() =~= Seq::<Seq<Row>>::empty());
        assert(front =~= Seq::<Row>::empty());
        assert(tower::joined(c) =~= c[0]);
    } else {
        assert(c.drop_last()[0] == c[0]);
        lemma_first_row(c.drop_last());
        assert(tower::joined(c)[0] == front[0]);
    }
}

/// Rows of part of the runs.
pub proof fn lemma_rows_part(c: Seq<Seq<Row>>, i: int, j: int)
    requires
        0 <= i <= j <= c.len(),
    ensures
        node::sorted_rows(tower::joined(c)) ==> node::sorted_rows(
            tower::joined(c.subrange(i, j)),
        ),
        tower::all_small(tower::joined(c)) ==> tower::all_small(tower::joined(c.subrange(i, j))),
        tower::joined(c) == tower::joined(c.take(i)) + tower::joined(c.subrange(i, j))
            + tower::joined(c.skip(j)),
{
    let a = tower::joined(c.take(i));
    let b = tower::joined(c.subrange(i, j));
    let d = tower::joined(c.skip(j));
    let all = tower::joined(c);
    assert(c.take(i) + c.subrange(i, j) + c.skip(j) =~= c);
    lemma_joined_join(c.take(i) + c.subrange(i, j), c.skip(j));
    lemma_joined_join(c.take(i), c.subrange(i, j));
    let n = a.len() as int;
    assert(all == a + b + d);
    if node::sorted_rows(all) {
        assert forall|p: int, q: int| 0 <= p < q < b.len() implies order::lt(
            (#[trigger] b[p]).key,
            (#[trigger] b[q]).key,
        ) by {
            assert(all[n + p] == b[p] && all[n + q] == b[q]);
            assert(order::lt(all[n + p].key, all[n + q].key));
        }
    }
    if tower::all_small(all) {
        assert forall|p: int| 0 <= p < b.len() implies tower::small(#[trigger] b[p]) by {
            assert(all[n + p] == b[p]);
        }
    }
}

/// Edits whose rows fit.
pub open spec fn small_edits(es: Seq<EditRow>) -> bool {
    forall|i: int|
        0 <= i < es.len() && (#[trigger] es[i]).held is Some ==> tower::small(
            Row { key: es[i].key, held: es[i].held->Some_0 },
        )
}

/// Edited rows fit.
pub proof fn lemma_edited_small(rows: Seq<Row>, es: Seq<EditRow>)
    requires
        tower::all_small(rows),
        small_edits(es),
    ensures
        tower::all_small(edits::edited(rows, es)),
    decreases rows.len() + es.len(),
{
    if es.len() > 0 {
        let (p, q, head) = if rows.len() == 0 || order::lt(es[0].key, rows[0].key) {
            (rows, es.skip(1), edits::left_by(es[0]))
        } else if order::lt(rows[0].key, es[0].key) {
            (rows.skip(1), es, seq![rows[0]])
        } else {
            (rows.skip(1), es.skip(1), edits::left_by(es[0]))
        };
        assert forall|i: int| 0 <= i < p.len() implies tower::small(#[trigger] p[i]) by {
            if p.len() < rows.len() {
                assert(p[i] == rows[i + 1]);
            }
        }
        assert forall|i: int|
            0 <= i < q.len() && (#[trigger] q[i]).held is Some implies tower::small(
            Row { key: q[i].key, held: q[i].held->Some_0 },
        ) by {
            if q.len() < es.len() {
                assert(q[i] == es[i + 1]);
            }
        }
        lemma_edited_small(p, q);
        let all = edits::edited(rows, es);
        let rest = edits::edited(p, q);
        assert(all == head + rest);
        assert forall|i: int| 0 <= i < all.len() implies tower::small(#[trigger] all[i]) by {
            if i >= head.len() {
                assert(all[i] == rest[i - head.len()]);
            } else {
                assert(es[0].held is Some ==> tower::small(
                    Row { key: es[0].key, held: es[0].held->Some_0 },
                ));
                if rows.len() > 0 {
                    assert(tower::small(rows[0]));
                }
            }
        }
    }
}

/// What a stretch gives is well cut, holds its rows, and is firm where it stops.
proof fn lemma_stretch_out(
    level: u8,
    rule: Rule,
    c: Seq<Seq<Row>>,
    es: Seq<EditRow>,
    st: Seq<Stretch>,
    k: int,
)
    requires
        stretch_ok(level, rule, c, es, st, k),
        tower::all_small(restreamed(c, es, st[k])),
    ensures
        well_cut(level, rule, st[k].out),
        tower::joined(st[k].out) == restreamed(c, es, st[k]),
        !st[k].ended ==> firm(level, rule, st[k].out),
        st[k].out.len() > 0 ==> st[k].out[0].len() > 0 && st[k].out[0][0] == restreamed(
            c,
            es,
            st[k],
        )[0] && restreamed(c, es, st[k]).len() > 0,
{
    let q = restreamed(c, es, st[k]);
    let cut = chunk::cut_from(level, rule, chunk::uncut(), q);
    lemma_cut_stands(level, rule, q);
    tower::lemma_chunks(level, rule, q);
    assert(chunk::chunks(level, rule, q) == st[k].out);
    lemma_chunks_well(level, rule, q);
    if st[k].out.len() > 0 {
        assert(st[k].out[0].len() > 0);
        lemma_first_row(st[k].out);
    }
}

/// The first row of a stretch whose first row is not touched.
proof fn lemma_untouched(rows: Seq<Row>, es: Seq<EditRow>)
    requires
        rows.len() > 0,
        es.len() > 0 ==> order::lt(rows[0].key, es[0].key),
    ensures
        edits::edited(rows, es).len() > 0,
        edits::edited(rows, es)[0] == rows[0],
{
    if es.len() > 0 {
        edits::lemma_lt_le(rows[0].key, es[0].key, es[0].key);
    }
}

/// A level the stretches are about.
pub open spec fn level_ok(
    level: u8,
    rule: Rule,
    c: Seq<Seq<Row>>,
    es: Seq<EditRow>,
    st: Seq<Stretch>,
) -> bool {
    &&& well_cut(level, rule, c)
    &&& node::sorted_rows(tower::joined(c))
    &&& tower::all_small(tower::joined(c))
    &&& edits::sorted_edits(es)
    &&& small_edits(es)
    &&& stretches_ok(level, rule, c, es, st)
}

/// Runs that are whole are not empty.
proof fn lemma_not_empty(level: u8, rule: Rule, c: Seq<Seq<Row>>)
    requires
        well_cut(level, rule, c),
    ensures
        forall|j: int| 0 <= j < c.len() ==> (#[trigger] c[j]).len() > 0,
{
    reveal(well_cut);
    assert forall|j: int| 0 <= j < c.len() implies (#[trigger] c[j]).len() > 0 by {
        assert(whole_run(level, rule, c[j]));
    }
}

/// Each run ends before the next.
proof fn lemma_parted_at(level: u8, rule: Rule, c: Seq<Seq<Row>>, j: int)
    requires
        well_cut(level, rule, c),
        0 <= j,
        j + 1 < c.len(),
    ensures
        parted(level, rule, c[j], c[j + 1]),
{
    reveal(well_cut);
    assert(c[j].len() >= 0);
}

/// No runs are well cut.
pub proof fn lemma_well_none(level: u8, rule: Rule)
    ensures
        well_cut(level, rule, Seq::empty()),
{
    reveal(well_cut);
}

/// The edits of a stretch fit.
proof fn lemma_small_part(es: Seq<EditRow>, i: int, j: int)
    requires
        small_edits(es),
        0 <= i <= j <= es.len(),
    ensures
        small_edits(es.subrange(i, j)),
{
    let p = es.subrange(i, j);
    assert forall|k: int| 0 <= k < p.len() && (#[trigger] p[k]).held is Some implies tower::small(
        Row { key: p[k].key, held: p[k].held->Some_0 },
    ) by {
        assert(p[k] == es[k + i]);
    }
}

/// The first stretches give a well cut level that holds the edited rows.
proof fn lemma_spliced(
    level: u8,
    rule: Rule,
    c: Seq<Seq<Row>>,
    es: Seq<EditRow>,
    st: Seq<Stretch>,
    k: nat,
)
    requires
        level_ok(level, rule, c, es, st),
        k <= st.len(),
    ensures
        well_cut(level, rule, spliced(c, st, k)),
        k > 0 && st[k - 1].ended || firm(level, rule, spliced(c, st, k)),
        0 <= resume(st, k as int) <= c.len(),
        0 <= consumed(st, k as int) <= es.len(),
        tower::joined(spliced(c, st, k)) == edits::edited(
            tower::joined(c.take(resume(st, k as int))),
            es.take(consumed(st, k as int)),
        ),
    decreases k,
{
    lemma_not_empty(level, rule, c);
    if k == 0 {
        lemma_well_none(level, rule);
        assert(c.take(0) =~= Seq::<Seq<Row>>::empty());
        assert(es.take(0) =~= Seq::<EditRow>::empty());
        assert(tower::joined(spliced(c, st, k)) =~= tower::joined(c.take(0)));
    } else {
        let i = k - 1;
        let s = st[i];
        assert(stretch_ok(level, rule, c, es, st, i));
        lemma_spliced(level, rule, c, es, st, i as nat);
        let a = spliced(c, st, i as nat);
        let r = resume(st, i);
        let g = c.subrange(r, s.first);
        let q = restreamed(c, es, s);
        if i > 0 {
            assert(stretch_ok(level, rule, c, es, st, i - 1));
            assert(!st[i - 1].ended);
        }
        let mid = tower::joined(c.subrange(s.first, s.last + 1));
        let part = es.subrange(s.from, s.to);
        lemma_rows_part(c, s.first, s.last + 1);
        lemma_small_part(es, s.from, s.to);
        lemma_edited_small(mid, part);
        lemma_stretch_out(level, rule, c, es, st, i);
        lemma_well_part(level, rule, c, r, s.first);
        // the runs that stay
        if a.len() > 0 && g.len() > 0 {
            assert(parted(level, rule, a.last(), g[0]));
        }
        lemma_well_join(level, rule, a, g);
        let h = a + g;
        if g.len() > 0 {
            assert(h.last() == c[s.first - 1]);
        } else {
            assert(h =~= a);
        }
        // the first row of the stretch
        lemma_first_row(c.subrange(s.first, s.last + 1));
        let untouched = s.from < es.len() && order::lt(c[s.first][0].key, es[s.from].key);
        if untouched {
            if part.len() > 0 {
                assert(part[0] == es[s.from]);
            }
            lemma_untouched(mid, part);
            assert(q[0] == c[s.first][0]);
        }
        if h.len() > 0 && s.out.len() > 0 {
            assert(parted(level, rule, h.last(), s.out[0])) by {
                if g.len() > 0 {
                    lemma_parted_at(level, rule, c, s.first - 1);
                }
            }
        }
        lemma_well_join(level, rule, h, s.out);
        assert(spliced(c, st, k) == h + s.out);
        if !s.ended && s.out.len() == 0 {
            assert(q =~= Seq::<Row>::empty());
            assert(h + s.out =~= h);
            assert(firm(level, rule, h));
        }
        lemma_spliced_rows(level, rule, c, es, st, i);
    }
}

/// The rows of one more stretch.
proof fn lemma_spliced_rows(
    level: u8,
    rule: Rule,
    c: Seq<Seq<Row>>,
    es: Seq<EditRow>,
    st: Seq<Stretch>,
    i: int,
)
    requires
        level_ok(level, rule, c, es, st),
        0 <= i < st.len(),
        tower::joined(spliced(c, st, i as nat)) == edits::edited(
            tower::joined(c.take(resume(st, i))),
            es.take(consumed(st, i)),
        ),
        tower::joined(st[i].out) == restreamed(c, es, st[i]),
    ensures
        tower::joined(spliced(c, st, (i + 1) as nat)) == edits::edited(
            tower::joined(c.take(resume(st, i + 1))),
            es.take(consumed(st, i + 1)),
        ),
{
    lemma_not_empty(level, rule, c);
    let s = st[i];
    assert(stretch_ok(level, rule, c, es, st, i));
    if i > 0 {
        assert(stretch_ok(level, rule, c, es, st, i - 1));
    }
    let r = resume(st, i);
    let a = spliced(c, st, i as nat);
    let g = c.subrange(r, s.first);
    let x = es.take(s.from);
    let y = es.subrange(s.from, s.to);
    let none = Seq::<EditRow>::empty();
    lemma_joined_join(a + g, s.out);
    lemma_joined_join(a, g);
    // before the stretch: the runs that stay are not edited
    let front = tower::joined(c.take(s.first));
    assert(edits::edited(front, x) == tower::joined(a) + tower::joined(g)) by {
        assert(c.take(r) + g =~= c.take(s.first));
        lemma_joined_join(c.take(r), g);
        if i == 0 {
            assert(x =~= none);
            assert(c.take(0) =~= Seq::<Seq<Row>>::empty());
            assert(tower::joined(c.take(0)) + tower::joined(g) =~= front);
            assert(tower::joined(a) + tower::joined(g) =~= front);
        } else if g.len() == 0 {
            assert(tower::joined(a) + tower::joined(g) =~= tower::joined(a));
            assert(c.take(s.first) =~= c.take(r));
        } else {
            let u = c[r][0].key;
            lemma_parted_by(c, r);
            lemma_parted_mid(c, r, s.first);
            assert(x + none =~= x);
            edits::lemma_edited_split(tower::joined(c.take(r)), tower::joined(g), x, none, u);
        }
    }
    // the stretch itself
    let mid = tower::joined(c.subrange(s.first, s.last + 1));
    assert(c.take(s.first) + c.subrange(s.first, s.last + 1) =~= c.take(s.last + 1));
    lemma_joined_join(c.take(s.first), c.subrange(s.first, s.last + 1));
    assert(x + y =~= es.take(s.to));
    if s.first == 0 {
        assert(i == 0);
        assert(x =~= none);
        assert(c.take(0) =~= Seq::<Seq<Row>>::empty());
        assert(front =~= Seq::<Row>::empty());
        assert(front + mid =~= mid);
        assert(none + y =~= y);
        assert(a =~= Seq::<Seq<Row>>::empty());
        assert(g =~= Seq::<Seq<Row>>::empty());
        assert(tower::joined(a) + tower::joined(g) + tower::joined(s.out) =~= tower::joined(
            s.out,
        ));
    } else {
        let u = c[s.first][0].key;
        lemma_parted_by(c, s.first);
        lemma_parted_mid(c, s.first, s.last + 1);
        assert(edits::edits_below(x, u)) by {
            if i > 0 {
                let v = c[r][0].key;
                assert(edits::edits_below(es.take(s.from), v));
                assert(order::le(v, u)) by {
                    if r < s.first {
                        lemma_parted_by(c, s.first);
                        lemma_key_in(c, r, s.first);
                    }
                }
                assert forall|j: int| 0 <= j < x.len() implies order::lt((#[trigger] x[j]).key, u) by {
                    assert(order::lt(x[j].key, v));
                    edits::lemma_lt_le(x[j].key, v, u);
                }
            } else {
                assert(x =~= none);
            }
        }
        assert(edits::edits_from(y, u)) by {
            let later = es.skip(s.from);
            assert forall|j: int| 0 <= j < y.len() implies order::le(u, (#[trigger] y[j]).key) by {
                assert(y[j] == later[j]);
            }
        }
        edits::lemma_edited_split(front, mid, x, y, u);
    }
}

/// A run before another begins before it.
proof fn lemma_key_in(c: Seq<Seq<Row>>, i: int, j: int)
    requires
        node::sorted_rows(tower::joined(c)),
        forall|k: int| 0 <= k < c.len() ==> (#[trigger] c[k]).len() > 0,
        0 <= i < j < c.len(),
    ensures
        order::lt(c[i][0].key, c[j][0].key),
{
    lemma_parted_by(c, j);
    let a = c.take(j);
    tower::lemma_offset(a, i);
    assert(a[i] == c[i]);
    assert(c[i].len() > 0);
    let o = tower::offset(a, i);
    assert(a[i][0] == tower::joined(a)[o]);
}

/// Part of the runs, from one on.
proof fn lemma_parted_mid(c: Seq<Seq<Row>>, i: int, j: int)
    requires
        node::sorted_rows(tower::joined(c)),
        forall|k: int| 0 <= k < c.len() ==> (#[trigger] c[k]).len() > 0,
        0 <= i < j <= c.len(),
    ensures
        edits::rows_from(tower::joined(c.subrange(i, j)), c[i][0].key),
{
    lemma_parted_by(c, i);
    let b = tower::joined(c.skip(i));
    let p = tower::joined(c.subrange(i, j));
    assert(c.subrange(i, j) + c.skip(j) =~= c.skip(i));
    lemma_joined_join(c.subrange(i, j), c.skip(j));
    assert forall|k: int| 0 <= k < p.len() implies order::le(c[i][0].key, (#[trigger] p[k]).key) by {
        assert(b[k] == p[k]);
    }
}

/// Cutting the edited rows of a level from scratch gives the level with its stretches
/// cut anew: every run that no stretch covers stays as it is.
pub proof fn law_recutting_stretches_recuts_the_level(
    level: u8,
    rule: Rule,
    c: Seq<Seq<Row>>,
    es: Seq<EditRow>,
    st: Seq<Stretch>,
)
    requires
        level_ok(level, rule, c, es, st),
    ensures
        chunk::chunks(level, rule, edits::edited(tower::joined(c), es)) == respliced(c, st),
        tower::joined(respliced(c, st)) == edits::edited(tower::joined(c), es),
{
    let n = st.len() as int;
    lemma_not_empty(level, rule, c);
    lemma_spliced(level, rule, c, es, st, n as nat);
    let a = spliced(c, st, n as nat);
    let r = resume(st, n);
    let rest = c.skip(r);
    let all = respliced(c, st);
    if n > 0 {
        assert(stretch_ok(level, rule, c, es, st, n - 1));
    }
    assert(c.subrange(r, c.len() as int) =~= rest);
    lemma_well_part(level, rule, c, r, c.len() as int);
    if a.len() > 0 && rest.len() > 0 {
        assert(parted(level, rule, a.last(), rest[0]));
    }
    lemma_well_join(level, rule, a, rest);
    assert(es.take(es.len() as int) =~= es);
    lemma_joined_join(a, rest);
    assert(tower::joined(all) == edits::edited(tower::joined(c), es)) by {
        if rest.len() == 0 {
            assert(c.take(r) =~= c);
            assert(tower::joined(a) + tower::joined(rest) =~= tower::joined(a));
        } else if r == 0 {
            assert(n == 0);
            assert(es =~= Seq::<EditRow>::empty());
            assert(rest =~= c);
            assert(a =~= Seq::<Seq<Row>>::empty());
            assert(tower::joined(a) + tower::joined(rest) =~= tower::joined(c));
        } else {
            let u = c[r][0].key;
            let none = Seq::<EditRow>::empty();
            lemma_parted_by(c, r);
            assert(es + none =~= es);
            assert(edits::edits_below(es, u));
            edits::lemma_edited_split(tower::joined(c.take(r)), tower::joined(rest), es, none, u);
        }
    }
    lemma_edited_small(tower::joined(c), es);
    lemma_well_cut(level, rule, all);
}

} // verus!
