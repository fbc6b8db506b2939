//! One encoding per node: what parses is exactly what a builder writes.

use crate::node;
use crate::node::{Layout, NodeError, NodeView, Payload, Progress, Row};
use crate::order;
use crate::seqs;
use vstd::prelude::*;

verus! {

/// Two windows side by side.
proof fn lemma_join(b: Seq<u8>, i: int, j: int, k: int)
    requires
        0 <= i <= j <= k <= b.len(),
    ensures
        b.subrange(i, k) == b.subrange(i, j) + b.subrange(j, k),
{
    assert(b.subrange(i, k) =~= b.subrange(i, j) + b.subrange(j, k));
}

/// A window of a window.
proof fn lemma_sub(b: Seq<u8>, off: int, w: Seq<u8>, x: int, y: int)
    requires
        0 <= off,
        off + w.len() <= b.len(),
        b.subrange(off, off + w.len()) == w,
        0 <= x <= y <= w.len(),
    ensures
        b.subrange(off + x, off + y) == w.subrange(x, y),
{
    assert forall|i: int| 0 <= i < y - x implies b.subrange(off + x, off + y)[i] == w.subrange(
        x,
        y,
    )[i] by {
        assert(b.subrange(off, off + w.len())[x + i] == b[off + x + i]);
    }
    assert(b.subrange(off + x, off + y) =~= w.subrange(x, y));
}

/// Six pieces end to end, and where each of them is.
proof fn lemma_cat(a: Seq<u8>, b: Seq<u8>, c: Seq<u8>, d: Seq<u8>, e: Seq<u8>, f: Seq<u8>)
    ensures
        ({
            let w = a + b + c + d + e + f;
            let i = a.len() as int;
            let j = i + b.len();
            let k = j + c.len();
            let l = k + d.len();
            let m = l + e.len();
            &&& w.len() == m + f.len()
            &&& w.subrange(0, i) == a
            &&& w.subrange(i, j) == b
            &&& w.subrange(j, k) == c
            &&& w.subrange(k, l) == d
            &&& w.subrange(l, m) == e
            &&& w.subrange(m, m + f.len()) == f
        }),
{
    let w = a + b + c + d + e + f;
    let i = a.len() as int;
    let j = i + b.len();
    let k = j + c.len();
    let l = k + d.len();
    let m = l + e.len();
    assert(w.subrange(0, i) =~= a);
    assert(w.subrange(i, j) =~= b);
    assert(w.subrange(j, k) =~= c);
    assert(w.subrange(k, l) =~= d);
    assert(w.subrange(l, m) =~= e);
    assert(w.subrange(m, m + f.len()) =~= f);
}

/// A sequence is the pieces it is cut into.
proof fn lemma_cut(b: Seq<u8>, i: int, j: int, k: int, l: int, m: int)
    requires
        0 <= i <= j <= k <= l <= m <= b.len(),
    ensures
        b == b.subrange(0, i) + b.subrange(i, j) + b.subrange(j, k) + b.subrange(k, l)
            + b.subrange(l, m) + b.subrange(m, b.len() as int),
{
    assert(b =~= b.subrange(0, i) + b.subrange(i, j) + b.subrange(j, k) + b.subrange(k, l)
        + b.subrange(l, m) + b.subrange(m, b.len() as int));
}

/// The bytes of an entry are those of the row that is read from them.
proof fn lemma_row_encode(b: Seq<u8>, l: Layout, off: int)
    requires
        0 <= l.plen,
        28 + l.plen <= b.len(),
        0 <= off,
        off + node::fixed(l.level) <= node::row_end(b, l, off) <= b.len(),
        l.level == 0 ==> b[off + 2] <= 1,
    ensures
        b.subrange(off, node::row_end(b, l, off)) == node::row_bytes(
            node::row_at(b, l, off),
            l.plen,
        ),
{
    let row = node::row_at(b, l, off);
    let slen = seqs::le16(b, off);
    let at = off + node::fixed(l.level);
    let end = node::row_end(b, l, off);
    let s = b.subrange(at, at + slen);
    assert(node::suffix_of(row.key, l.plen) =~= s);
    seqs::lemma_bytes16(b, off);
    if l.level == 0 {
        seqs::lemma_bytes32(b, off + 3);
        let v = b.subrange(at + slen, end);
        assert(b.subrange(off, end) =~= b.subrange(off, off + 2) + seq![b[off + 2]] + b.subrange(
            off + 3,
            off + 7,
        ) + s + v);
    } else {
        seqs::lemma_bytes64(b, off + 34);
        seqs::lemma_bytes64(b, off + 42);
        assert(b.subrange(off, end) =~= b.subrange(off, off + 2) + b.subrange(off + 2, off + 34)
            + b.subrange(off + 34, off + 42) + b.subrange(off + 42, off + 50) + s);
    }
}

/// Where the entries have got to, and that their bytes are theirs.
proof fn lemma_rows_encode(b: Seq<u8>, l: Layout, n: nat)
    requires
        node::layout_of(b) == Ok::<Layout, NodeError>(l),
        n <= l.count,
        node::read_rows(b, l, n) is Ok,
    ensures
        ({
            let done = node::read_rows(b, l, n)->Ok_0;
            &&& done.rows.len() == n
            &&& done.at == l.start + node::rows_bytes(done.rows, l.plen).len()
            &&& l.start <= done.at <= l.end
            &&& b.subrange(l.start, done.at) == node::rows_bytes(done.rows, l.plen)
        }),
    decreases n,
{
    node::lemma_read_rows(b, l, n);
    let done = node::read_rows(b, l, n)->Ok_0;
    if n == 0 {
        assert(b.subrange(l.start, done.at) =~= Seq::<u8>::empty());
    } else {
        let m = (n - 1) as nat;
        lemma_rows_encode(b, l, m);
        let before = node::read_rows(b, l, m)->Ok_0;
        let off = before.at;
        assert(done.rows == before.rows.push(node::row_at(b, l, off)));
        assert(done.rows.drop_last() =~= before.rows);
        lemma_row_encode(b, l, off);
        lemma_join(b, l.start, off, done.at);
    }
}

/// Reading fewer entries gives the first of them.
proof fn lemma_rows_take(b: Seq<u8>, l: Layout, i: nat, n: nat)
    requires
        node::layout_of(b) == Ok::<Layout, NodeError>(l),
        i <= n <= l.count,
        node::read_rows(b, l, n) is Ok,
    ensures
        node::read_rows(b, l, i) is Ok,
        node::read_rows(b, l, i)->Ok_0.rows == node::read_rows(b, l, n)->Ok_0.rows.take(i as int),
        i < n ==> seqs::le16(b, 28 + l.plen + 2 * i) == node::read_rows(b, l, i)->Ok_0.at,
    decreases n - i,
{
    node::lemma_read_rows(b, l, n);
    if node::read_rows(b, l, i) is Err {
        node::lemma_read_rows_err(b, l, i, n);
    }
    let done = node::read_rows(b, l, n)->Ok_0;
    if i == n {
        assert(done.rows.take(n as int) =~= done.rows);
    } else {
        let j = (i + 1) as nat;
        lemma_rows_take(b, l, j, n);
        node::lemma_read_rows(b, l, i);
        let at_i = node::read_rows(b, l, i)->Ok_0;
        let at_j = node::read_rows(b, l, j)->Ok_0;
        assert(node::read_rows(b, l, j) == node::read_row(b, l, i as int, at_i));
        assert(at_j.rows.drop_last() =~= at_i.rows);
        assert(done.rows.take(i as int) =~= done.rows.take(j as int).drop_last());
    }
}

proof fn lemma_offs_encode(b: Seq<u8>, l: Layout, i: nat)
    requires
        node::layout_of(b) == Ok::<Layout, NodeError>(l),
        i <= l.count,
        node::read_rows(b, l, l.count as nat) is Ok,
    ensures
        b.subrange(28 + l.plen, 28 + l.plen + 2 * i) == node::offs_bytes(
            node::read_rows(b, l, l.count as nat)->Ok_0.rows,
            l.plen,
            l.start,
            i,
        ),
    decreases i,
{
    let rows = node::read_rows(b, l, l.count as nat)->Ok_0.rows;
    let at = 28 + l.plen;
    if i == 0 {
        assert(b.subrange(at, at) =~= Seq::<u8>::empty());
    } else {
        let m = (i - 1) as nat;
        lemma_offs_encode(b, l, m);
        lemma_rows_take(b, l, m, l.count as nat);
        lemma_rows_encode(b, l, m);
        seqs::lemma_bytes16(b, at + 2 * m);
        assert(b.subrange(at, at + 2 * i) =~= b.subrange(at, at + 2 * m) + b.subrange(
            at + 2 * m,
            at + 2 * m + 2,
        ));
    }
}

proof fn lemma_keys4_encode(b: Seq<u8>, l: Layout, i: nat)
    requires
        node::layout_of(b) == Ok::<Layout, NodeError>(l),
        i <= l.count,
        node::read_rows(b, l, l.count as nat) is Ok,
    ensures
        b.subrange(28 + l.plen + 2 * l.count, 28 + l.plen + 2 * l.count + 4 * i)
            == node::keys4_bytes(node::read_rows(b, l, l.count as nat)->Ok_0.rows, l.plen, i),
    decreases i,
{
    let rows = node::read_rows(b, l, l.count as nat)->Ok_0.rows;
    let at = 28 + l.plen + 2 * l.count;
    if i == 0 {
        assert(b.subrange(at, at) =~= Seq::<u8>::empty());
    } else {
        let m = i - 1;
        lemma_keys4_encode(b, l, m as nat);
        node::lemma_read_rows(b, l, l.count as nat);
        assert(rows[m] == node::row_at(b, l, seqs::le16(b, 28 + l.plen + 2 * m)));
        seqs::lemma_bytes32(b, at + 4 * m);
        assert(b.subrange(at, at + 4 * i) =~= b.subrange(at, at + 4 * m) + b.subrange(
            at + 4 * m,
            at + 4 * m + 4,
        ));
    }
}

proof fn lemma_cids_encode(b: Seq<u8>, l: Layout, i: nat)
    requires
        node::layout_of(b) == Ok::<Layout, NodeError>(l),
        i <= l.pcount,
    ensures
        b.subrange(l.end, l.end + 32 * i) == node::cids_bytes(node::parity_of(b, l), i),
    decreases i,
{
    if i == 0 {
        assert(b.subrange(l.end, l.end) =~= Seq::<u8>::empty());
    } else {
        let m = i - 1;
        lemma_cids_encode(b, l, m as nat);
        assert(b.subrange(l.end, l.end + 32 * i) =~= b.subrange(l.end, l.end + 32 * m)
            + b.subrange(l.end + 32 * m, l.end + 32 * m + 32));
    }
}

/// The length of a list of ids.
proof fn lemma_cids_len(cids: Seq<Seq<u8>>, n: nat)
    requires
        n <= cids.len(),
        forall|i: int| 0 <= i < cids.len() ==> (#[trigger] cids[i]).len() == 32,
    ensures
        node::cids_bytes(cids, n).len() == 32 * n,
    decreases n,
{
    if n > 0 {
        lemma_cids_len(cids, (n - 1) as nat);
    }
}

proof fn lemma_offs_len(rows: Seq<Row>, p: int, base: int, n: nat)
    ensures
        node::offs_bytes(rows, p, base, n).len() == 2 * n,
        node::keys4_bytes(rows, p, n).len() == 4 * n,
    decreases n,
{
    if n > 0 {
        lemma_offs_len(rows, p, base, (n - 1) as nat);
    }
}

/// The length of an encoding is the one the builder counts with.
pub proof fn lemma_encode_len(n: NodeView)
    requires
        forall|i: int| 0 <= i < n.rows.len() ==> node::row_fits(n.level, #[trigger] n.rows[i]),
        forall|i: int| 0 <= i < n.parity.len() ==> (#[trigger] n.parity[i]).len() == 32,
    ensures
        node::encode(n).len() == node::encoded(n),
        node::prefix_bytes(n.rows).len() == node::prefix_len(n.rows),
        0 <= node::prefix_len(n.rows),
{
    let p = node::prefix_len(n.rows);
    let m = n.rows.len() as int;
    if m > 0 {
        node::lemma_prefix_shared(n.rows, 0);
        assert((m - 1) * p + p == m * p) by (nonlinear_arith);
    } else {
        assert(m * p == 0) by (nonlinear_arith)
            requires
                m == 0,
        ;
    }
    assert forall|i: int| 0 <= i < n.rows.len() implies p <= (#[trigger] n.rows[i]).key.len() by {
        node::lemma_prefix_shared(n.rows, i);
    }
    node::lemma_rows_bytes_len(n.level, n.rows, p);
    lemma_offs_len(n.rows, p, 28 + p + 6 * m, n.rows.len());
    lemma_cids_len(n.parity, n.parity.len());
}

/// The header of bytes that parse.
proof fn lemma_header_encode(b: Seq<u8>)
    requires
        node::parse_spec(b) is Ok,
    ensures
        node::header_bytes(node::parse_spec(b)->Ok_0) == b.subrange(0, 28),
{
    let l = node::layout_of(b)->Ok_0;
    let n = node::parse_spec(b)->Ok_0;
    node::lemma_read_rows(b, l, l.count as nat);
    seqs::lemma_bytes16(b, 6);
    seqs::lemma_bytes64(b, 8);
    seqs::lemma_bytes64(b, 16);
    seqs::lemma_bytes16(b, 24);
    seqs::lemma_bytes16(b, 26);
    lemma_header_cut(b);
}

/// The fields that the first bytes are cut into.
proof fn lemma_header_cut(b: Seq<u8>)
    requires
        b.len() >= 28,
    ensures
        b.subrange(0, 28) == seq![b[0], b[1], b[2], b[3]] + seq![b[4], b[5]] + b.subrange(6, 8)
            + b.subrange(8, 16) + b.subrange(16, 24) + b.subrange(24, 26) + b.subrange(26, 28),
{
    lemma_cut(b.subrange(0, 26), 4, 6, 8, 16, 24);
    assert(b.subrange(0, 26).subrange(0, 4) =~= seq![b[0], b[1], b[2], b[3]]);
    assert(b.subrange(0, 26).subrange(4, 6) =~= seq![b[4], b[5]]);
    assert(b.subrange(0, 26).subrange(6, 8) =~= b.subrange(6, 8));
    assert(b.subrange(0, 26).subrange(8, 16) =~= b.subrange(8, 16));
    assert(b.subrange(0, 26).subrange(16, 24) =~= b.subrange(16, 24));
    assert(b.subrange(0, 26).subrange(24, 26) =~= b.subrange(24, 26));
    lemma_join(b, 0, 26, 28);
}

/// What parses is an encoding: the bytes are exactly those a builder writes for
/// the node they parse as.
#[verifier::rlimit(40)]
pub proof fn law_parsed_bytes_are_the_encoding(b: Seq<u8>)
    requires
        node::parse_spec(b) is Ok,
    ensures
        node::parse_spec(b)->Ok_0.valid(),
        node::encode(node::parse_spec(b)->Ok_0) == b,
{
    let l = node::layout_of(b)->Ok_0;
    let n = node::parse_spec(b)->Ok_0;
    let c = l.count as nat;
    let p = l.plen;
    let k = 28 + p + 2 * c;
    assert(node::encode(n) == b) by {
        lemma_header_encode(b);
        lemma_rows_encode(b, l, c);
        lemma_offs_encode(b, l, c);
        lemma_keys4_encode(b, l, c);
        lemma_cids_encode(b, l, l.pcount as nat);
        assert(node::prefix_bytes(n.rows) == b.subrange(28, 28 + p)) by {
            if c > 0 {
                node::lemma_read_rows(b, l, c);
                assert(n.rows[0] == node::row_at(b, l, seqs::le16(b, 28 + p + 2 * 0)));
                assert(n.rows[0].key.take(p) =~= b.subrange(28, 28 + p));
            } else {
                assert(b.subrange(28, 28 + p) =~= Seq::<u8>::empty());
            }
        }
        lemma_cut(b, 28, 28 + p, k, l.start, l.end);
        assert(l.start == k + 4 * c);
        assert(b.len() == l.end + 32 * l.pcount);
    }
    node::lemma_read_rows(b, l, c);
    assert forall|i: int| 0 <= i < n.rows.len() implies node::row_fits(
        n.level,
        #[trigger] n.rows[i],
    ) by {
        assert(n.rows[i] == node::read_rows(b, l, c)->Ok_0.rows[i]);
    }
    lemma_encode_len(n);
}

/// Reading the row back from its bytes.
proof fn lemma_row_decode(b: Seq<u8>, l: Layout, off: int, row: Row)
    requires
        0 <= off,
        0 <= l.plen <= row.key.len(),
        28 + l.plen <= b.len(),
        node::row_fits(l.level, row),
        b.subrange(28, 28 + l.plen) == row.key.take(l.plen),
        off + node::row_len(l.level, row, l.plen) <= b.len(),
        b.subrange(off, off + node::row_len(l.level, row, l.plen)) == node::row_bytes(row, l.plen),
    ensures
        node::row_at(b, l, off) == row,
        node::row_end(b, l, off) == off + node::row_len(l.level, row, l.plen),
        seqs::le16(b, off) == row.key.len() - l.plen,
        l.level == 0 ==> b[off + 2] <= 1,
{
    let w = node::row_bytes(row, l.plen);
    let s = node::suffix_of(row.key, l.plen);
    let sl = s.len() as int;
    node::lemma_row_bytes_len(l.level, row, l.plen);
    assert(row.key =~= row.key.take(l.plen) + s);
    lemma_sub(b, off, w, 0, 2);
    assert(w.subrange(0, 2) =~= seqs::to_le16(sl));
    seqs::lemma_le16(sl);
    assert(seqs::to_le16(sl).subrange(0, 2) =~= seqs::to_le16(sl));
    seqs::lemma_le_window(b, off, seqs::to_le16(sl), 0, 2);
    match row.held {
        Payload::Inline(v) => {
            lemma_sub(b, off, w, 3, 7);
            let vl = v.len() as int;
            assert(w.subrange(3, 7) =~= seqs::to_le32(vl));
            assert(seqs::to_le32(vl).subrange(0, 4) =~= seqs::to_le32(vl));
            seqs::lemma_le32(vl);
            seqs::lemma_le_window(b, off + 3, seqs::to_le32(vl), 0, 4);
            assert(b[off + 2] == b.subrange(off, off + w.len())[2]);
            assert(w[2] == 0);
            lemma_sub(b, off, w, 7, 7 + sl);
            assert(w.subrange(7, 7 + sl) =~= s);
            lemma_sub(b, off, w, 7 + sl, 7 + sl + vl);
            assert(w.subrange(7 + sl, 7 + sl + vl) =~= v);
        },
        Payload::Ref { cid, len } => {
            lemma_sub(b, off, w, 3, 7);
            let vl = len as int;
            assert(w.subrange(3, 7) =~= seqs::to_le32(vl));
            assert(seqs::to_le32(vl).subrange(0, 4) =~= seqs::to_le32(vl));
            seqs::lemma_le32(vl);
            seqs::lemma_le_window(b, off + 3, seqs::to_le32(vl), 0, 4);
            assert(b[off + 2] == b.subrange(off, off + w.len())[2]);
            assert(w[2] == 1);
            lemma_sub(b, off, w, 7, 7 + sl);
            assert(w.subrange(7, 7 + sl) =~= s);
            lemma_sub(b, off, w, 7 + sl, 7 + sl + 32);
            assert(w.subrange(7 + sl, 7 + sl + 32) =~= cid);
        },
        Payload::Child { cid, agg } => {
            lemma_sub(b, off, w, 2, 34);
            assert(w.subrange(2, 34) =~= cid);
            lemma_sub(b, off, w, 34, 42);
            let x = agg.count as int;
            assert(w.subrange(34, 42) =~= seqs::to_le64(x));
            assert(seqs::to_le64(x).subrange(0, 8) =~= seqs::to_le64(x));
            seqs::lemma_le64(x);
            seqs::lemma_le_window(b, off + 34, seqs::to_le64(x), 0, 8);
            lemma_sub(b, off, w, 42, 50);
            let y = agg.bytes as int;
            assert(w.subrange(42, 50) =~= seqs::to_le64(y));
            assert(seqs::to_le64(y).subrange(0, 8) =~= seqs::to_le64(y));
            seqs::lemma_le64(y);
            seqs::lemma_le_window(b, off + 42, seqs::to_le64(y), 0, 8);
            lemma_sub(b, off, w, 50, 50 + sl);
            assert(w.subrange(50, 50 + sl) =~= s);
        },
    }
}

/// Sums only grow.
pub proof fn lemma_sums_take(rows: Seq<Row>, i: int)
    requires
        0 <= i <= rows.len(),
    ensures
        0 <= node::sum_count(rows.take(i)) <= node::sum_count(rows),
        0 <= node::sum_weight(rows.take(i)) <= node::sum_weight(rows),
    decreases rows.len() - i,
{
    node::lemma_sums(rows.take(i));
    if i == rows.len() {
        assert(rows.take(i) =~= rows);
    } else {
        lemma_sums_take(rows, i + 1);
        assert(rows.take(i + 1).drop_last() =~= rows.take(i));
    }
}

/// An entry of the offset table.
proof fn lemma_offs_window(rows: Seq<Row>, p: int, base: int, n: nat, i: int)
    requires
        0 <= i < n,
    ensures
        node::offs_bytes(rows, p, base, n).subrange(2 * i, 2 * i + 2) == seqs::to_le16(
            base + node::rows_bytes(rows.take(i), p).len(),
        ),
        node::keys4_bytes(rows, p, n).subrange(4 * i, 4 * i + 4) == seqs::to_be32(
            node::spec_key4(node::suffix_of(rows[i].key, p)),
        ),
    decreases n,
{
    let m = (n - 1) as nat;
    lemma_offs_len(rows, p, base, m);
    lemma_offs_len(rows, p, base, n);
    let a = node::offs_bytes(rows, p, base, n);
    let a0 = node::offs_bytes(rows, p, base, m);
    let k = node::keys4_bytes(rows, p, n);
    let k0 = node::keys4_bytes(rows, p, m);
    if i == m {
        assert(a.subrange(2 * i, 2 * i + 2) =~= seqs::to_le16(
            base + node::rows_bytes(rows.take(i), p).len(),
        ));
        assert(k.subrange(4 * i, 4 * i + 4) =~= seqs::to_be32(
            node::spec_key4(node::suffix_of(rows[i].key, p)),
        ));
    } else {
        lemma_offs_window(rows, p, base, m, i);
        assert(a.subrange(2 * i, 2 * i + 2) =~= a0.subrange(2 * i, 2 * i + 2));
        assert(k.subrange(4 * i, 4 * i + 4) =~= k0.subrange(4 * i, 4 * i + 4));
    }
}

/// The entries before one are the first part of them all.
proof fn lemma_rows_window(rows: Seq<Row>, p: int, i: int)
    requires
        0 <= i < rows.len(),
    ensures
        ({
            let a = node::rows_bytes(rows.take(i), p).len() as int;
            let r = node::row_bytes(rows[i], p);
            let w = node::rows_bytes(rows, p);
            a + r.len() <= w.len() && w.subrange(a, a + r.len()) == r
        }),
    decreases rows.len(),
{
    let n = rows.len();
    let w = node::rows_bytes(rows, p);
    let r = node::row_bytes(rows[i], p);
    let rest = rows.drop_last();
    let w0 = node::rows_bytes(rest, p);
    let a = node::rows_bytes(rows.take(i), p).len() as int;
    if i == n - 1 {
        assert(rows.take(i) =~= rest);
        assert(w.subrange(a, a + r.len()) =~= r);
    } else {
        lemma_rows_window(rest, p, i);
        assert(rest.take(i) =~= rows.take(i));
        assert(rest[i] == rows[i]);
        assert(w.subrange(a, a + r.len()) =~= w0.subrange(a, a + r.len()));
    }
}

/// One id of a list.
proof fn lemma_cids_window(cids: Seq<Seq<u8>>, n: nat, i: int)
    requires
        0 <= i < n <= cids.len(),
        forall|j: int| 0 <= j < cids.len() ==> (#[trigger] cids[j]).len() == 32,
    ensures
        node::cids_bytes(cids, n).len() == 32 * n,
        node::cids_bytes(cids, n).subrange(32 * i, 32 * i + 32) == cids[i],
    decreases n,
{
    let m = (n - 1) as nat;
    lemma_cids_len(cids, m);
    lemma_cids_len(cids, n);
    let w = node::cids_bytes(cids, n);
    let w0 = node::cids_bytes(cids, m);
    if i == m {
        assert(w.subrange(32 * i, 32 * i + 32) =~= cids[i]);
    } else {
        lemma_cids_window(cids, m, i);
        assert(w.subrange(32 * i, 32 * i + 32) =~= w0.subrange(32 * i, 32 * i + 32));
    }
}

/// The bytes of a node lie where its header says.
spec fn laid_out(b: Seq<u8>, n: NodeView) -> bool {
    let p = node::prefix_len(n.rows);
    let c = n.rows.len() as int;
    let start = 28 + p + 6 * c;
    let rl = node::rows_bytes(n.rows, p).len() as int;
    &&& b.len() == node::encoded(n)
    &&& b.len() == start + rl + 32 * n.parity.len()
    &&& 0 <= p
    &&& b.subrange(0, 28) == node::header_bytes(n)
    &&& b.subrange(28, 28 + p) == node::prefix_bytes(n.rows)
    &&& b.subrange(28 + p, 28 + p + 2 * c) == node::offs_bytes(n.rows, p, start, n.rows.len())
    &&& b.subrange(28 + p + 2 * c, start) == node::keys4_bytes(n.rows, p, n.rows.len())
    &&& b.subrange(start, start + rl) == node::rows_bytes(n.rows, p)
    &&& b.subrange(start + rl, b.len() as int) == node::cids_bytes(n.parity, n.parity.len())
}

/// Where the parts of an encoding are.
#[verifier::rlimit(40)]
proof fn lemma_parts(n: NodeView)
    requires
        n.valid(),
    ensures
        laid_out(node::encode(n), n),
{
    let p = node::prefix_len(n.rows);
    let c = n.rows.len() as int;
    let start = 28 + p + 6 * c;
    let hb = node::header_bytes(n);
    let pb = node::prefix_bytes(n.rows);
    let ob = node::offs_bytes(n.rows, p, start, n.rows.len());
    let kb = node::keys4_bytes(n.rows, p, n.rows.len());
    let rb = node::rows_bytes(n.rows, p);
    let cb = node::cids_bytes(n.parity, n.parity.len());
    assert(node::encode(n) == hb + pb + ob + kb + rb + cb);
    assert(node::encode(n).len() == node::encoded(n) && pb.len() == p && 0 <= p) by {
        lemma_encode_len(n);
    }
    assert(ob.len() == 2 * c && kb.len() == 4 * c) by {
        lemma_offs_len(n.rows, p, start, n.rows.len());
    }
    assert(cb.len() == 32 * n.parity.len()) by {
        lemma_cids_len(n.parity, n.parity.len());
    }
    lemma_header_windows(n);
    lemma_cat(hb, pb, ob, kb, rb, cb);
}

/// The fields of the header.
proof fn lemma_header_windows(n: NodeView)
    ensures
        ({
            let h = node::header_bytes(n);
            &&& h.len() == 28
            &&& h[0] == 0x50 && h[1] == 0x54 && h[2] == 0x30 && h[3] == 0x31
            &&& h[4] == n.level && h[5] == 0
            &&& h.subrange(6, 8) == seqs::to_le16(n.rows.len() as int)
            &&& h.subrange(8, 16) == seqs::to_le64(node::sum_count(n.rows))
            &&& h.subrange(16, 24) == seqs::to_le64(node::sum_weight(n.rows))
            &&& h.subrange(24, 26) == seqs::to_le16(n.parity.len() as int)
            &&& h.subrange(26, 28) == seqs::to_le16(node::prefix_len(n.rows))
        }),
{
    let h = node::header_bytes(n);
    let a = seq![0x50u8, 0x54, 0x30, 0x31];
    let b = seq![n.level, 0u8];
    let c = seqs::to_le16(n.rows.len() as int);
    let d = seqs::to_le64(node::sum_count(n.rows));
    let e = seqs::to_le64(node::sum_weight(n.rows));
    let f = seqs::to_le16(n.parity.len() as int);
    let g = seqs::to_le16(node::prefix_len(n.rows));
    let w = a + b + c + d + e + f;
    assert(h == w + g);
    lemma_cat(a, b, c, d, e, f);
    assert(h.subrange(0, 26) =~= w);
    lemma_sub(h, 0, w, 0, 4);
    lemma_sub(h, 0, w, 4, 6);
    lemma_sub(h, 0, w, 6, 8);
    lemma_sub(h, 0, w, 8, 16);
    lemma_sub(h, 0, w, 16, 24);
    lemma_sub(h, 0, w, 24, 26);
    assert(h.subrange(26, 28) =~= g);
    assert(h.subrange(0, 4)[0] == h[0] && h.subrange(0, 4)[1] == h[1] && h.subrange(0, 4)[2]
        == h[2] && h.subrange(0, 4)[3] == h[3]);
    assert(h.subrange(4, 6)[0] == h[4] && h.subrange(4, 6)[1] == h[5]);
}

/// The layout that the header of a node gives.
spec fn layout(n: NodeView) -> Layout {
    let p = node::prefix_len(n.rows);
    Layout {
        level: n.level,
        count: n.rows.len() as int,
        pcount: n.parity.len() as int,
        plen: p,
        start: 28 + p + 6 * n.rows.len(),
        end: 28 + p + 6 * n.rows.len() + node::rows_bytes(n.rows, p).len(),
    }
}

/// The header reads back.
proof fn lemma_header_decode(b: Seq<u8>, n: NodeView)
    requires
        n.valid(),
        laid_out(b, n),
    ensures
        node::layout_of(b) == Ok::<Layout, NodeError>(layout(n)),
        seqs::le64(b, 8) == node::sum_count(n.rows),
        seqs::le64(b, 16) == node::sum_weight(n.rows),
{
    node::lemma_sums(n.rows);
    node::lemma_encoded_bounds(n);
    let h = node::header_bytes(n);
    let p = node::prefix_len(n.rows);
    lemma_header_windows(n);
    lemma_sub(b, 0, h, 6, 8);
    lemma_sub(b, 0, h, 8, 16);
    lemma_sub(b, 0, h, 16, 24);
    lemma_sub(b, 0, h, 24, 26);
    lemma_sub(b, 0, h, 26, 28);
    lemma_number16(b, 6, n.rows.len() as int);
    lemma_number16(b, 24, n.parity.len() as int);
    lemma_number16(b, 26, p);
    lemma_number64(b, 8, node::sum_count(n.rows));
    lemma_number64(b, 16, node::sum_weight(n.rows));
    assert(b[0] == h[0] && b[1] == h[1] && b[2] == h[2] && b[3] == h[3] && b[4] == h[4] && b[5]
        == h[5]) by {
        let w = b.subrange(0, 28);
        assert(w[0] == b[0] && w[1] == b[1] && w[2] == b[2] && w[3] == b[3] && w[4] == b[4] && w[5]
            == b[5]);
    }
    if n.level == 0 && n.parity.len() > 0 {
        let i = choose|i: int| 0 <= i < n.rows.len() && (#[trigger] n.rows[i]).held is Ref;
        lemma_rows_window(n.rows, p, i);
        assert(node::row_fits(n.level, n.rows[i]));
        node::lemma_prefix_shared(n.rows, i);
        node::lemma_row_bytes_len(n.level, n.rows[i], p);
    }
}

/// Where entry `m` starts.
spec fn start_of(n: NodeView, m: int) -> int {
    let p = node::prefix_len(n.rows);
    28 + p + 6 * n.rows.len() + node::rows_bytes(n.rows.take(m), p).len()
}

/// The tables say where an entry is and how it starts.
proof fn lemma_tables_decode(b: Seq<u8>, n: NodeView, m: int)
    requires
        n.valid(),
        laid_out(b, n),
        0 <= m < n.rows.len(),
    ensures
        ({
            let p = node::prefix_len(n.rows);
            let c = n.rows.len() as int;
            let row = n.rows[m];
            let off = start_of(n, m);
            &&& seqs::le16(b, 28 + p + 2 * m) == off
            &&& seqs::be32(b, 28 + p + 2 * c + 4 * m) == node::spec_key4(
                node::suffix_of(row.key, p),
            )
        }),
{
    let p = node::prefix_len(n.rows);
    let row = n.rows[m];
    let c = n.rows.len() as int;
    let start = 28 + p + 6 * c;
    let off = start_of(n, m);
    assert(0 <= off <= b.len()) by {
        lemma_rows_window(n.rows, p, m);
    }
    lemma_offset_read(b, n.rows, p, start, m);
    lemma_key4_read(b, n.rows, p, start, m);
}

proof fn lemma_offset_read(b: Seq<u8>, rows: Seq<Row>, p: int, start: int, m: int)
    requires
        0 <= p,
        0 <= m < rows.len(),
        28 + p + 2 * rows.len() <= b.len(),
        b.subrange(28 + p, 28 + p + 2 * rows.len()) == node::offs_bytes(
            rows,
            p,
            start,
            rows.len(),
        ),
        0 <= start + node::rows_bytes(rows.take(m), p).len() < 65536,
    ensures
        seqs::le16(b, 28 + p + 2 * m) == start + node::rows_bytes(rows.take(m), p).len(),
{
    let os = node::offs_bytes(rows, p, start, rows.len());
    lemma_offs_len(rows, p, start, rows.len());
    lemma_sub(b, 28 + p, os, 2 * m, 2 * m + 2);
    lemma_offs_window(rows, p, start, rows.len(), m);
    lemma_number16(b, 28 + p + 2 * m, start + node::rows_bytes(rows.take(m), p).len());
}

proof fn lemma_key4_read(b: Seq<u8>, rows: Seq<Row>, p: int, start: int, m: int)
    requires
        0 <= p,
        0 <= m < rows.len(),
        start == 28 + p + 6 * rows.len(),
        start <= b.len(),
        b.subrange(28 + p + 2 * rows.len(), start) == node::keys4_bytes(rows, p, rows.len()),
    ensures
        seqs::be32(b, 28 + p + 2 * rows.len() + 4 * m) == node::spec_key4(
            node::suffix_of(rows[m].key, p),
        ),
{
    let at = 28 + p + 2 * rows.len();
    let s = node::suffix_of(rows[m].key, p);
    let ks = node::keys4_bytes(rows, p, rows.len());
    lemma_offs_len(rows, p, start, rows.len());
    lemma_sub(b, at, ks, 4 * m, 4 * m + 4);
    lemma_offs_window(rows, p, start, rows.len(), m);
    assert(0 <= node::spec_key4(s) < 4294967296);
    lemma_number32_be(b, at + 4 * m, node::spec_key4(s));
}

/// The bytes of an entry are where it starts.
#[verifier::rlimit(60)]
#[verifier::spinoff_prover]
proof fn lemma_row_there(b: Seq<u8>, n: NodeView, m: int)
    requires
        n.valid(),
        laid_out(b, n),
        0 <= m < n.rows.len(),
    ensures
        ({
            let p = node::prefix_len(n.rows);
            let row = n.rows[m];
            let off = start_of(n, m);
            &&& 0 <= p <= row.key.len()
            &&& off + node::row_len(n.level, row, p) <= b.len() - 32 * n.parity.len()
            &&& b.subrange(off, off + node::row_len(n.level, row, p)) == node::row_bytes(row, p)
            &&& b.subrange(28, 28 + p) == row.key.take(p)
            &&& start_of(n, m + 1) == off + node::row_len(n.level, row, p)
        }),
{
    let p = node::prefix_len(n.rows);
    let row = n.rows[m];
    let start = 28 + p + 6 * n.rows.len();
    let off = start_of(n, m);
    assert(node::row_fits(n.level, row));
    node::lemma_prefix_shared(n.rows, m);
    lemma_rows_window(n.rows, p, m);
    node::lemma_row_bytes_len(n.level, row, p);
    let rb = node::row_bytes(row, p);
    lemma_sub(b, start, node::rows_bytes(n.rows, p), off - start, off - start + rb.len());
    assert(n.rows.take(m + 1).drop_last() =~= n.rows.take(m));
}

/// A number reads back from its bytes.
proof fn lemma_number16(b: Seq<u8>, at: int, x: int)
    requires
        0 <= at,
        at + 2 <= b.len(),
        0 <= x < 65536,
        b.subrange(at, at + 2) == seqs::to_le16(x),
    ensures
        seqs::le16(b, at) == x,
{
    assert(seqs::to_le16(x).subrange(0, 2) =~= seqs::to_le16(x));
    seqs::lemma_le16(x);
    seqs::lemma_le_window(b, at, seqs::to_le16(x), 0, 2);
}

proof fn lemma_number64(b: Seq<u8>, at: int, x: int)
    requires
        0 <= at,
        at + 8 <= b.len(),
        0 <= x <= u64::MAX,
        b.subrange(at, at + 8) == seqs::to_le64(x),
    ensures
        seqs::le64(b, at) == x,
{
    assert(seqs::to_le64(x).subrange(0, 8) =~= seqs::to_le64(x));
    seqs::lemma_le64(x);
    seqs::lemma_le_window(b, at, seqs::to_le64(x), 0, 8);
}

proof fn lemma_number32_be(b: Seq<u8>, at: int, x: int)
    requires
        0 <= at,
        at + 4 <= b.len(),
        0 <= x < 4294967296,
        b.subrange(at, at + 4) == seqs::to_be32(x),
    ensures
        seqs::be32(b, at) == x,
{
    assert(seqs::to_be32(x).subrange(0, 4) =~= seqs::to_be32(x));
    seqs::lemma_le32(x);
    seqs::lemma_le_window(b, at, seqs::to_be32(x), 0, 4);
}

/// An entry that is there, after those before it, is read.
proof fn lemma_row_step(b: Seq<u8>, l: Layout, rows: Seq<Row>, m: int, off: int)
    requires
        0 <= m < rows.len(),
        0 <= off,
        seqs::le16(b, 28 + l.plen + 2 * m) == off,
        node::row_at(b, l, off) == rows[m],
        off + node::fixed(l.level) <= node::row_end(b, l, off) <= l.end,
        l.level == 0 ==> b[off + 2] <= 1,
        seqs::le16(b, off) == rows[m].key.len() - l.plen,
        rows[m].key.len() <= node::MAX_KEY,
        node::sorted_rows(rows),
        seqs::be32(b, 28 + l.plen + 2 * l.count + 4 * m) == node::spec_key4(
            node::suffix_of(rows[m].key, l.plen),
        ),
        node::sum_count(rows) <= u64::MAX,
        node::sum_weight(rows) <= u64::MAX,
    ensures
        node::read_row(b, l, m, Progress { rows: rows.take(m), at: off }) == Ok::<
            Progress,
            NodeError,
        >(Progress { rows: rows.take(m + 1), at: node::row_end(b, l, off) }),
{
    assert(rows.take(m).push(rows[m]) =~= rows.take(m + 1));
    lemma_sums_take(rows, m + 1);
    if m > 0 {
        assert(rows.take(m).last() == rows[m - 1]);
        assert(order::lt(rows[m - 1].key, rows[m].key));
    }
}

/// The first `i` entries read back.
proof fn lemma_rows_decode(b: Seq<u8>, n: NodeView, i: nat)
    requires
        n.valid(),
        laid_out(b, n),
        i <= n.rows.len(),
    ensures
        node::read_rows(b, layout(n), i) == Ok::<Progress, NodeError>(
            Progress { rows: n.rows.take(i as int), at: start_of(n, i as int) },
        ),
    decreases i,
{
    let l = layout(n);
    if i == 0 {
        assert(n.rows.take(0) =~= Seq::<Row>::empty());
    } else {
        let m = i - 1;
        lemma_rows_decode(b, n, m as nat);
        lemma_row_there(b, n, m);
        lemma_tables_decode(b, n, m);
        assert(node::row_fits(n.level, n.rows[m]));
        lemma_row_decode(b, l, start_of(n, m), n.rows[m]);
        lemma_row_step(b, l, n.rows, m, start_of(n, m));
    }
}

/// What a builder writes parses, as the node it wrote.
pub proof fn law_the_encoding_parses(n: NodeView)
    requires
        n.valid(),
    ensures
        node::parse_spec(node::encode(n)) == Ok::<NodeView, NodeError>(n),
{
    lemma_parts(n);
    lemma_parses(node::encode(n), n);
}

proof fn lemma_parses(b: Seq<u8>, n: NodeView)
    requires
        n.valid(),
        laid_out(b, n),
    ensures
        node::parse_spec(b) == Ok::<NodeView, NodeError>(n),
{
    lemma_header_decode(b, n);
    let l = layout(n);
    lemma_rows_decode(b, n, n.rows.len());
    assert(n.rows.take(n.rows.len() as int) =~= n.rows);
    lemma_cids_len(n.parity, n.parity.len());
    assert(node::parity_of(b, l) =~= n.parity) by {
        assert forall|i: int| 0 <= i < n.parity.len() implies node::parity_of(b, l)[i]
            == n.parity[i] by {
            lemma_cids_window(n.parity, n.parity.len(), i);
            lemma_sub(b, l.end, node::cids_bytes(n.parity, n.parity.len()), 32 * i, 32 * i + 32);
        }
    }
}

/// One encoding per node: two nodes with the same bytes are the same node.
pub proof fn law_encoding_is_injective(a: NodeView, b: NodeView)
    requires
        a.valid(),
        b.valid(),
        node::encode(a) == node::encode(b),
    ensures
        a == b,
{
    law_the_encoding_parses(a);
    law_the_encoding_parses(b);
}

} // verus!
