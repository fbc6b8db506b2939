//! Views of nested vectors, and byte strings as numbers.

use vstd::prelude::*;

verus! {

/// Bytes, as a mathematical value.
pub type Bytes = Seq<u8>;

/// A length, as a mathematical value.
pub type Length = int;

/// The contents of a vector of byte vectors.
pub open spec fn views(v: Seq<Vec<u8>>) -> Seq<Seq<u8>> {
    Seq::new(v.len(), |i: int| v[i]@)
}

/// Byte `i`, which is zero past the end.
pub open spec fn byte_of(s: Seq<u8>, i: int) -> u8 {
    if 0 <= i < s.len() {
        s[i]
    } else {
        0
    }
}

/// The little-endian number in the two bytes at `i`.
pub open spec fn le16(s: Seq<u8>, i: int) -> int {
    s[i] + 256 * s[i + 1]
}

/// The little-endian number in the four bytes at `i`.
pub open spec fn le32(s: Seq<u8>, i: int) -> int {
    s[i] + 256 * s[i + 1] + 65536 * s[i + 2] + 16777216 * s[i + 3]
}

/// The little-endian number in the eight bytes at `i`.
pub open spec fn le64(s: Seq<u8>, i: int) -> int {
    le32(s, i) + 4294967296 * le32(s, i + 4)
}

/// The big-endian number in the four bytes at `i`.
pub open spec fn be32(s: Seq<u8>, i: int) -> int {
    16777216 * s[i] + 65536 * s[i + 1] + 256 * s[i + 2] + s[i + 3]
}

/// Two bytes, little-endian.
pub open spec fn to_le16(x: int) -> Seq<u8> {
    seq![(x % 256) as u8, (x / 256 % 256) as u8]
}

/// Four bytes, little-endian.
pub open spec fn to_le32(x: int) -> Seq<u8> {
    seq![
        (x % 256) as u8,
        (x / 256 % 256) as u8,
        (x / 65536 % 256) as u8,
        (x / 16777216 % 256) as u8,
    ]
}

/// Eight bytes, little-endian.
pub open spec fn to_le64(x: int) -> Seq<u8> {
    to_le32(x % 4294967296) + to_le32(x / 4294967296)
}

/// Four bytes, big-endian.
pub open spec fn to_be32(x: int) -> Seq<u8> {
    seq![
        (x / 16777216 % 256) as u8,
        (x / 65536 % 256) as u8,
        (x / 256 % 256) as u8,
        (x % 256) as u8,
    ]
}

/// Reading back what was written, in two bytes.
pub proof fn lemma_le16(x: int)
    requires
        0 <= x < 65536,
    ensures
        le16(to_le16(x), 0) == x,
{
}

/// Reading back what was written, in four bytes.
pub proof fn lemma_le32(x: int)
    requires
        0 <= x < 4294967296,
    ensures
        le32(to_le32(x), 0) == x,
        be32(to_be32(x), 0) == x,
{
    let a = x % 256;
    let b = x / 256 % 256;
    let c = x / 65536 % 256;
    let d = x / 16777216 % 256;
    assert(x == a + 256 * b + 65536 * c + 16777216 * d);
    let s = to_le32(x);
    assert(s[0] == a && s[1] == b && s[2] == c && s[3] == d);
    let t = to_be32(x);
    assert(t[3] == a && t[2] == b && t[1] == c && t[0] == d);
}

/// Reading back what was written, in eight bytes.
pub proof fn lemma_le64(x: int)
    requires
        0 <= x < 18446744073709551616,
    ensures
        le64(to_le64(x), 0) == x,
{
    let lo = x % 4294967296;
    let hi = x / 4294967296;
    lemma_le32(lo);
    lemma_le32(hi);
    let s = to_le64(x);
    let p = to_le32(lo);
    let q = to_le32(hi);
    assert(s[0] == p[0] && s[1] == p[1] && s[2] == p[2] && s[3] == p[3]);
    assert(s[4] == q[0] && s[5] == q[1] && s[6] == q[2] && s[7] == q[3]);
    assert(le32(s, 0) == le32(p, 0));
    assert(le32(s, 4) == le32(q, 0));
}

/// What is read depends only on the bytes that are read.
pub proof fn lemma_le_window(s: Seq<u8>, i: int, t: Seq<u8>, j: int, n: int)
    requires
        0 <= i,
        0 <= j,
        i + n <= s.len(),
        j + n <= t.len(),
        s.subrange(i, i + n) == t.subrange(j, j + n),
    ensures
        n >= 2 ==> le16(s, i) == le16(t, j),
        n >= 4 ==> le32(s, i) == le32(t, j),
        n >= 4 ==> be32(s, i) == be32(t, j),
        n >= 8 ==> le64(s, i) == le64(t, j),
{
    let v = s.subrange(i, i + n);
    let w = t.subrange(j, j + n);
    if n >= 2 {
        assert(s[i] == v[0] && s[i + 1] == v[1] && t[j] == w[0] && t[j + 1] == w[1]);
    }
    if n >= 4 {
        assert(s[i + 2] == v[2] && s[i + 3] == v[3] && t[j + 2] == w[2] && t[j + 3] == w[3]);
    }
    if n >= 8 {
        assert(s[i + 4] == v[4] && s[i + 5] == v[5] && s[i + 6] == v[6] && s[i + 7] == v[7]);
        assert(t[j + 4] == w[4] && t[j + 5] == w[5] && t[j + 6] == w[6] && t[j + 7] == w[7]);
        assert(le32(s, i + 4) == le32(t, j + 4));
    }
}

/// Writing back the two bytes that were read.
pub proof fn lemma_bytes16(s: Seq<u8>, i: int)
    requires
        0 <= i,
        i + 2 <= s.len(),
    ensures
        to_le16(le16(s, i)) == s.subrange(i, i + 2),
        0 <= le16(s, i) < 65536,
{
    let a = s[i] as int;
    let b = s[i + 1] as int;
    let x = le16(s, i);
    assert(x % 256 == a);
    assert(x / 256 == b);
    assert(to_le16(x) =~= s.subrange(i, i + 2));
}

/// Writing back the four bytes that were read.
pub proof fn lemma_bytes32(s: Seq<u8>, i: int)
    requires
        0 <= i,
        i + 4 <= s.len(),
    ensures
        to_le32(le32(s, i)) == s.subrange(i, i + 4),
        to_be32(be32(s, i)) == s.subrange(i, i + 4),
        0 <= le32(s, i) < 4294967296,
        0 <= be32(s, i) < 4294967296,
{
    lemma_digits(s[i] as int, s[i + 1] as int, s[i + 2] as int, s[i + 3] as int);
    lemma_digits(s[i + 3] as int, s[i + 2] as int, s[i + 1] as int, s[i] as int);
    let t = to_le32(le32(s, i));
    assert(t[0] == s[i] && t[1] == s[i + 1] && t[2] == s[i + 2] && t[3] == s[i + 3]);
    assert(t =~= s.subrange(i, i + 4));
    let u = to_be32(be32(s, i));
    assert(u[0] == s[i] && u[1] == s[i + 1] && u[2] == s[i + 2] && u[3] == s[i + 3]);
    assert(u =~= s.subrange(i, i + 4));
}

/// The base-256 digits of a four-digit number.
proof fn lemma_digits(a: int, b: int, c: int, d: int)
    requires
        0 <= a < 256,
        0 <= b < 256,
        0 <= c < 256,
        0 <= d < 256,
    ensures
        ({
            let x = a + 256 * b + 65536 * c + 16777216 * d;
            x % 256 == a && x / 256 % 256 == b && x / 65536 % 256 == c && x / 16777216 % 256 == d
        }),
{
    let x = a + 256 * b + 65536 * c + 16777216 * d;
    assert(x % 256 == a);
    assert(x / 256 == b + 256 * c + 65536 * d);
    assert((b + 256 * c + 65536 * d) % 256 == b);
    assert(x / 65536 == c + 256 * d);
    assert((c + 256 * d) % 256 == c);
    assert(x / 16777216 == d);
}

/// Writing back the eight bytes that were read.
pub proof fn lemma_bytes64(s: Seq<u8>, i: int)
    requires
        0 <= i,
        i + 8 <= s.len(),
    ensures
        to_le64(le64(s, i)) == s.subrange(i, i + 8),
        0 <= le64(s, i) < 18446744073709551616,
{
    lemma_bytes32(s, i);
    lemma_bytes32(s, i + 4);
    let lo = le32(s, i);
    let hi = le32(s, i + 4);
    let x = le64(s, i);
    assert(x % 4294967296 == lo);
    assert(x / 4294967296 == hi);
    assert(to_le64(x) =~= s.subrange(i, i + 8)) by {
        assert(s.subrange(i, i + 8) =~= s.subrange(i, i + 4) + s.subrange(i + 4, i + 8));
    }
}

/// The four bytes at `i` as a little-endian number.
pub fn u32_at(b: &[u8], i: usize) -> (x: u32)
    requires
        i + 4 <= b@.len(),
    ensures
        x == le32(b@, i as int),
{
    (b[i] as u32) + 256 * (b[i + 1] as u32) + 65536 * (b[i + 2] as u32) + 16777216 * (b[i
        + 3] as u32)
}

/// The two bytes at `i` as a little-endian number.
pub fn u16_at(b: &[u8], i: usize) -> (x: usize)
    requires
        i + 2 <= b@.len(),
    ensures
        x == le16(b@, i as int),
        x < 65536,
{
    (b[i] as usize) + 256 * (b[i + 1] as usize)
}

/// The eight bytes at `i` as a little-endian number.
pub fn u64_at(b: &[u8], i: usize) -> (x: u64)
    requires
        i + 8 <= b@.len(),
    ensures
        x == le64(b@, i as int),
{
    let n = b.len();
    assert(i + 8 <= n);
    (u32_at(b, i) as u64) + 4294967296 * (u32_at(b, i + 4) as u64)
}

/// The four bytes at `i` as a big-endian number.
pub fn u32_at_be(b: &[u8], i: usize) -> (x: u32)
    requires
        i + 4 <= b@.len(),
    ensures
        x == be32(b@, i as int),
{
    16777216 * (b[i] as u32) + 65536 * (b[i + 1] as u32) + 256 * (b[i + 2] as u32) + (b[i
        + 3] as u32)
}

/// Append two bytes, little-endian.
pub fn put_u16(out: &mut Vec<u8>, x: u16)
    ensures
        final(out)@ == old(out)@ + to_le16(x as int),
{
    out.push((x % 256) as u8);
    out.push((x / 256) as u8);
    assert(out@ =~= old(out)@ + to_le16(x as int));
}

/// Append four bytes, little-endian.
pub fn put_u32(out: &mut Vec<u8>, x: u32)
    ensures
        final(out)@ == old(out)@ + to_le32(x as int),
{
    out.push((x % 256) as u8);
    out.push((x / 256 % 256) as u8);
    out.push((x / 65536 % 256) as u8);
    out.push((x / 16777216) as u8);
    assert(out@ =~= old(out)@ + to_le32(x as int));
}

/// Append eight bytes, little-endian.
pub fn put_u64(out: &mut Vec<u8>, x: u64)
    ensures
        final(out)@ == old(out)@ + to_le64(x as int),
{
    put_u32(out, (x % 4294967296) as u32);
    put_u32(out, (x / 4294967296) as u32);
    assert(out@ =~= old(out)@ + to_le64(x as int));
}

/// Append four bytes, big-endian.
pub fn put_u32_be(out: &mut Vec<u8>, x: u32)
    ensures
        final(out)@ == old(out)@ + to_be32(x as int),
{
    out.push((x / 16777216) as u8);
    out.push((x / 65536 % 256) as u8);
    out.push((x / 256 % 256) as u8);
    out.push((x % 256) as u8);
    assert(out@ =~= old(out)@ + to_be32(x as int));
}

} // verus!
