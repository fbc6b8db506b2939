//! Square systems over GF(2^8): what they are, how row operations act on them,
//! and why the rows of a systematic Cauchy generator are independent.

use crate::gf;
use vstd::prelude::*;

verus! {

/// The sum of the first `n` products of two rows.
pub open spec fn dot(a: Seq<u8>, b: Seq<u8>, n: nat) -> u8
    decreases n,
{
    if n == 0 {
        0
    } else {
        dot(a, b, (n - 1) as nat) ^ gf::gmul(a[n - 1], b[n - 1])
    }
}

/// The product of the first `k` rows of `a` with the column `d`.
pub open spec fn prod(a: Seq<Seq<u8>>, d: Seq<u8>, k: nat) -> Seq<u8> {
    Seq::new(k, |r: int| dot(a[r], d, k))
}

/// A `k` by `k` matrix.
pub open spec fn square(a: Seq<Seq<u8>>, k: nat) -> bool {
    a.len() == k && forall|r: int| 0 <= r < k ==> (#[trigger] a[r]).len() == k
}

/// Row `r` of the identity.
pub open spec fn unit(k: nat, r: int) -> Seq<u8> {
    Seq::new(
        k,
        |c: int|
            if c == r {
                1u8
            } else {
                0u8
            },
    )
}

/// `inv` undoes `a`: the column `d` that `a` maps to `y` is exactly `inv * y`.
pub open spec fn inverts(a: Seq<Seq<u8>>, inv: Seq<Seq<u8>>, k: nat) -> bool {
    forall|d: Seq<u8>, y: Seq<u8>|
        d.len() == k && y.len() == k ==> (#[trigger] prod(a, d, k) == y <==> d == #[trigger] prod(
            inv,
            y,
            k,
        ))
}

/// Some column other than zero is mapped to zero.
pub open spec fn singular(a: Seq<Seq<u8>>, k: nat) -> bool {
    exists|v: Seq<u8>|
        v.len() == k && v != zeros(k) && #[trigger] prod(a, v, k) == zeros(k)
}

pub open spec fn zeros(k: nat) -> Seq<u8> {
    Seq::new(k, |c: int| 0u8)
}

/// The row `f * a`.
pub open spec fn scaled(a: Seq<u8>, f: u8) -> Seq<u8> {
    Seq::new(a.len(), |c: int| gf::gmul(f, a[c]))
}

/// The row `a + f * b`.
pub open spec fn added(a: Seq<u8>, b: Seq<u8>, f: u8) -> Seq<u8> {
    Seq::new(a.len(), |c: int| a[c] ^ gf::gmul(f, b[c]))
}

pub open spec fn swapped(a: Seq<Seq<u8>>, p: int, q: int) -> Seq<Seq<u8>> {
    a.update(p, a[q]).update(q, a[p])
}

pub proof fn lemma_dot_scaled(a: Seq<u8>, f: u8, d: Seq<u8>, n: nat)
    requires
        n <= a.len(),
    ensures
        dot(scaled(a, f), d, n) == gf::gmul(f, dot(a, d, n)),
    decreases n,
{
    gf::lemma_mul_unit(f);
    if n > 0 {
        let m = (n - 1) as nat;
        lemma_dot_scaled(a, f, d, m);
        gf::lemma_mul_assoc(f, a[n - 1], d[n - 1]);
        gf::lemma_mul_distrib(f, dot(a, d, m), gf::gmul(a[n - 1], d[n - 1]));
    }
}

pub proof fn lemma_dot_added(a: Seq<u8>, b: Seq<u8>, f: u8, d: Seq<u8>, n: nat)
    requires
        n <= a.len(),
    ensures
        dot(added(a, b, f), d, n) == dot(a, d, n) ^ gf::gmul(f, dot(b, d, n)),
    decreases n,
{
    gf::lemma_mul_unit(f);
    if n == 0 {
        gf::lemma_xor(0, 0, 0);
    } else {
        let m = (n - 1) as nat;
        lemma_dot_added(a, b, f, d, m);
        let x = a[n - 1];
        let y = b[n - 1];
        let z = d[n - 1];
        gf::lemma_mul_distrib(z, x, gf::gmul(f, y));
        gf::lemma_mul_assoc(f, y, z);
        gf::lemma_mul_distrib(f, dot(b, d, m), gf::gmul(y, z));
        let p = dot(a, d, m);
        let q = gf::gmul(f, dot(b, d, m));
        let s = gf::gmul(x, z);
        let t = gf::gmul(f, gf::gmul(y, z));
        assert((p ^ q) ^ (s ^ t) == (p ^ s) ^ (q ^ t)) by (bit_vector);
    }
}

pub proof fn lemma_dot_zero(a: Seq<u8>, d: Seq<u8>, n: nat)
    requires
        forall|c: int| 0 <= c < n ==> a[c] == 0 || d[c] == 0,
    ensures
        dot(a, d, n) == 0,
    decreases n,
{
    if n > 0 {
        lemma_dot_zero(a, d, (n - 1) as nat);
        gf::lemma_mul_unit(a[n - 1]);
        gf::lemma_mul_unit(d[n - 1]);
        gf::lemma_xor(0, 0, 0);
    }
}

/// Terms from `n` on that are zero add nothing.
pub proof fn lemma_dot_skip(a: Seq<u8>, d: Seq<u8>, n: nat, n2: nat)
    requires
        n <= n2,
        forall|c: int| n <= c < n2 ==> a[c] == 0 || d[c] == 0,
    ensures
        dot(a, d, n2) == dot(a, d, n),
    decreases n2 - n,
{
    if n < n2 {
        let m = (n2 - 1) as nat;
        lemma_dot_skip(a, d, n, m);
        gf::lemma_mul_unit(a[n2 - 1]);
        gf::lemma_mul_unit(d[n2 - 1]);
        gf::lemma_xor(dot(a, d, m), 0, 0);
    }
}

/// The dot product depends only on the entries it reads.
pub proof fn lemma_dot_congruent(a: Seq<u8>, b: Seq<u8>, d: Seq<u8>, e: Seq<u8>, n: nat)
    requires
        forall|c: int| 0 <= c < n ==> a[c] == b[c] && d[c] == e[c],
    ensures
        dot(a, d, n) == dot(b, e, n),
    decreases n,
{
    if n > 0 {
        lemma_dot_congruent(a, b, d, e, (n - 1) as nat);
    }
}

/// A row of the identity reads one entry.
pub proof fn lemma_dot_unit(d: Seq<u8>, k: nat, r: int)
    requires
        0 <= r < k,
    ensures
        dot(unit(k, r), d, k) == d[r],
{
    let a = unit(k, r);
    lemma_dot_zero(a, d, r as nat);
    gf::lemma_mul_unit(d[r]);
    gf::lemma_xor(d[r], 0, 0);
    assert(dot(a, d, (r + 1) as nat) == d[r]);
    lemma_dot_skip(a, d, (r + 1) as nat, k);
}

/// The order of the two rows does not matter.
pub proof fn lemma_dot_comm(a: Seq<u8>, b: Seq<u8>, n: nat)
    ensures
        dot(a, b, n) == dot(b, a, n),
    decreases n,
{
    if n > 0 {
        lemma_dot_comm(a, b, (n - 1) as nat);
        gf::lemma_mul_comm(a[n - 1], b[n - 1]);
    }
}

/// Two terms and nothing else.
pub proof fn lemma_dot_two(a: Seq<u8>, d: Seq<u8>, n: nat, p: int, q: int)
    requires
        0 <= p < q < n,
        forall|c: int| 0 <= c < n && c != p && c != q ==> a[c] == 0 || d[c] == 0,
    ensures
        dot(a, d, n) == gf::gmul(a[p], d[p]) ^ gf::gmul(a[q], d[q]),
{
    lemma_dot_zero(a, d, p as nat);
    gf::lemma_xor(gf::gmul(a[p], d[p]), 0, 0);
    assert(dot(a, d, (p + 1) as nat) == gf::gmul(a[p], d[p]));
    lemma_dot_skip(a, d, (p + 1) as nat, q as nat);
    lemma_dot_skip(a, d, (q + 1) as nat, n);
}

/// The two systems have the same solutions.
pub open spec fn same_system(
    a: Seq<Seq<u8>>,
    r: Seq<Seq<u8>>,
    n: Seq<Seq<u8>>,
    k: nat,
) -> bool {
    forall|d: Seq<u8>, y: Seq<u8>|
        d.len() == k && y.len() == k ==> (#[trigger] prod(r, d, k) == #[trigger] prod(n, y, k)
            <==> prod(a, d, k) == y)
}

pub proof fn lemma_start(a: Seq<Seq<u8>>, n: Seq<Seq<u8>>, k: nat)
    requires
        square(a, k),
        n == Seq::new(k, |r: int| unit(k, r)),
    ensures
        same_system(a, a, n, k),
{
    assert forall|d: Seq<u8>, y: Seq<u8>| d.len() == k && y.len() == k implies (#[trigger] prod(
        a,
        d,
        k,
    ) == #[trigger] prod(n, y, k) <==> prod(a, d, k) == y) by {
        assert(prod(n, y, k) =~= y) by {
            assert forall|r: int| 0 <= r < k implies prod(n, y, k)[r] == y[r] by {
                lemma_dot_unit(y, k, r);
            }
        }
    }
}

pub proof fn lemma_step_swap(
    a: Seq<Seq<u8>>,
    r: Seq<Seq<u8>>,
    n: Seq<Seq<u8>>,
    k: nat,
    p: int,
    q: int,
)
    requires
        square(r, k),
        square(n, k),
        0 <= p < k,
        0 <= q < k,
        same_system(a, r, n, k),
    ensures
        same_system(a, swapped(r, p, q), swapped(n, p, q), k),
{
    let r2 = swapped(r, p, q);
    let n2 = swapped(n, p, q);
    assert forall|d: Seq<u8>, y: Seq<u8>| d.len() == k && y.len() == k implies (#[trigger] prod(
        r2,
        d,
        k,
    ) == #[trigger] prod(n2, y, k) <==> prod(a, d, k) == y) by {
        let u = prod(r, d, k);
        let v = prod(n, y, k);
        let u2 = prod(r2, d, k);
        let v2 = prod(n2, y, k);
        assert(u2[p] == u[q] && u2[q] == u[p] && v2[p] == v[q] && v2[q] == v[p]);
        assert(forall|i: int| 0 <= i < k && i != p && i != q ==> u2[i] == u[i] && v2[i] == v[i]);
        if u2 == v2 {
            assert(u =~= v) by {
                assert forall|i: int| 0 <= i < k implies u[i] == v[i] by {
                    assert(u2[i] == v2[i] && u2[p] == v2[p] && u2[q] == v2[q]);
                }
            }
        }
        if u == v {
            assert(u2 =~= v2);
        }
    }
}

pub proof fn lemma_step_scale(
    a: Seq<Seq<u8>>,
    r: Seq<Seq<u8>>,
    n: Seq<Seq<u8>>,
    k: nat,
    p: int,
    f: u8,
)
    requires
        square(r, k),
        square(n, k),
        0 <= p < k,
        f != 0,
        same_system(a, r, n, k),
    ensures
        same_system(a, r.update(p, scaled(r[p], f)), n.update(p, scaled(n[p], f)), k),
{
    let r2 = r.update(p, scaled(r[p], f));
    let n2 = n.update(p, scaled(n[p], f));
    assert forall|d: Seq<u8>, y: Seq<u8>| d.len() == k && y.len() == k implies (#[trigger] prod(
        r2,
        d,
        k,
    ) == #[trigger] prod(n2, y, k) <==> prod(a, d, k) == y) by {
        let u = prod(r, d, k);
        let v = prod(n, y, k);
        let u2 = prod(r2, d, k);
        let v2 = prod(n2, y, k);
        lemma_dot_scaled(r[p], f, d, k);
        lemma_dot_scaled(n[p], f, y, k);
        assert(u2[p] == gf::gmul(f, u[p]) && v2[p] == gf::gmul(f, v[p]));
        assert(forall|i: int| 0 <= i < k && i != p ==> u2[i] == u[i] && v2[i] == v[i]);
        if u2 == v2 {
            // f * (u - v) == 0 forces u == v
            gf::lemma_mul_distrib(f, u[p], v[p]);
            gf::lemma_xor(gf::gmul(f, u[p]), gf::gmul(f, v[p]), 0);
            gf::lemma_no_zero_divisors(f, u[p] ^ v[p]);
            gf::lemma_xor(u[p], v[p], 0);
            assert(u[p] == v[p]);
            assert(u =~= v) by {
                assert forall|i: int| 0 <= i < k implies u[i] == v[i] by {
                    assert(u2[i] == v2[i]);
                }
            }
        }
        if u == v {
            assert(u2 =~= v2);
        }
    }
}

pub proof fn lemma_step_add(
    a: Seq<Seq<u8>>,
    r: Seq<Seq<u8>>,
    n: Seq<Seq<u8>>,
    k: nat,
    t: int,
    p: int,
    f: u8,
)
    requires
        square(r, k),
        square(n, k),
        0 <= p < k,
        0 <= t < k,
        t != p,
        same_system(a, r, n, k),
    ensures
        same_system(a, r.update(t, added(r[t], r[p], f)), n.update(t, added(n[t], n[p], f)), k),
{
    let r2 = r.update(t, added(r[t], r[p], f));
    let n2 = n.update(t, added(n[t], n[p], f));
    assert forall|d: Seq<u8>, y: Seq<u8>| d.len() == k && y.len() == k implies (#[trigger] prod(
        r2,
        d,
        k,
    ) == #[trigger] prod(n2, y, k) <==> prod(a, d, k) == y) by {
        let u = prod(r, d, k);
        let v = prod(n, y, k);
        let u2 = prod(r2, d, k);
        let v2 = prod(n2, y, k);
        lemma_dot_added(r[t], r[p], f, d, k);
        lemma_dot_added(n[t], n[p], f, y, k);
        assert(u2[t] == u[t] ^ gf::gmul(f, u[p]) && v2[t] == v[t] ^ gf::gmul(f, v[p]));
        assert(forall|i: int| 0 <= i < k && i != t ==> u2[i] == u[i] && v2[i] == v[i]);
        gf::lemma_xor(u[t], gf::gmul(f, u[p]), 0);
        gf::lemma_xor(v[t], gf::gmul(f, v[p]), 0);
        if u2 == v2 {
            assert(u2[t] == v2[t] && u2[p] == v2[p]);
            assert(u[t] == v[t]);
            assert(u =~= v) by {
                assert forall|i: int| 0 <= i < k implies u[i] == v[i] by {
                    assert(u2[i] == v2[i]);
                }
            }
        }
        if u == v {
            assert(u2 =~= v2);
        }
    }
}

/// When the left side has become the identity, the right side is the inverse.
pub proof fn lemma_finish(a: Seq<Seq<u8>>, r: Seq<Seq<u8>>, n: Seq<Seq<u8>>, k: nat)
    requires
        square(r, k),
        same_system(a, r, n, k),
        forall|i: int, c: int|
            0 <= i < k && 0 <= c < k ==> (#[trigger] r[i][c]) == (if i == c {
                1u8
            } else {
                0u8
            }),
    ensures
        inverts(a, n, k),
{
    assert forall|d: Seq<u8>, y: Seq<u8>| d.len() == k && y.len() == k implies (#[trigger] prod(
        a,
        d,
        k,
    ) == y <==> d == #[trigger] prod(n, y, k)) by {
        assert(prod(r, d, k) =~= d) by {
            assert forall|i: int| 0 <= i < k implies prod(r, d, k)[i] == d[i] by {
                assert(r[i] =~= unit(k, i));
                lemma_dot_unit(d, k, i);
            }
        }
    }
}

/// No pivot in a column: the system maps some column other than zero to zero.
pub proof fn lemma_no_pivot(
    a: Seq<Seq<u8>>,
    r: Seq<Seq<u8>>,
    n: Seq<Seq<u8>>,
    k: nat,
    col: int,
)
    requires
        square(r, k),
        square(n, k),
        0 <= col < k,
        same_system(a, r, n, k),
        forall|i: int, c: int|
            0 <= i < k && 0 <= c < col ==> (#[trigger] r[i][c]) == (if i == c {
                1u8
            } else {
                0u8
            }),
        forall|i: int| col <= i < k ==> (#[trigger] r[i])[col] == 0,
    ensures
        singular(a, k),
{
    let v = Seq::new(
        k,
        |c: int|
            if c < col {
                r[c][col]
            } else if c == col {
                1u8
            } else {
                0u8
            },
    );
    let z = zeros(k);
    assert(prod(n, z, k) =~= z) by {
        assert forall|i: int| 0 <= i < k implies prod(n, z, k)[i] == 0 by {
            lemma_dot_zero(n[i], z, k);
        }
    }
    assert(prod(r, v, k) =~= z) by {
        assert forall|i: int| 0 <= i < k implies prod(r, v, k)[i] == 0 by {
            if i < col {
                assert(r[i][i] == 1);
                assert forall|c: int| 0 <= c < k && c != i && c != col implies r[i][c] == 0 || v[c]
                    == 0 by {}
                lemma_dot_two(r[i], v, k, i, col);
                gf::lemma_mul_unit(r[i][col]);
                gf::lemma_xor(r[i][col], 0, 0);
            } else {
                assert(r[i][col] == 0);
                assert forall|c: int| 0 <= c < k implies r[i][c] == 0 || v[c] == 0 by {}
                lemma_dot_zero(r[i], v, k);
            }
        }
    }
    assert(prod(a, v, k) == z);
    assert(v[col] != z[col]);
}

// ---------------------------------------------------------------------------
// Cauchy rows
// ---------------------------------------------------------------------------

/// The sum of the first `n` of `v_i / (x + y_i)`.
pub open spec fn csum(v: Seq<u8>, ys: Seq<u8>, x: u8, n: nat) -> u8
    decreases n,
{
    if n == 0 {
        0
    } else {
        csum(v, ys, x, (n - 1) as nat) ^ gf::gmul(v[n - 1], gf::ginv(x ^ ys[n - 1]))
    }
}

spec fn vsum(v: Seq<u8>, n: nat) -> u8
    decreases n,
{
    if n == 0 {
        0
    } else {
        vsum(v, (n - 1) as nat) ^ v[n - 1]
    }
}

/// `v_i * (e + y_i)`.
spec fn times_gap(v: Seq<u8>, ys: Seq<u8>, e: u8) -> Seq<u8> {
    Seq::new(v.len(), |i: int| gf::gmul(v[i], e ^ ys[i]))
}

/// `v_i / (e + y_i)`.
spec fn over_gap(v: Seq<u8>, ys: Seq<u8>, e: u8) -> Seq<u8> {
    Seq::new(v.len(), |i: int| gf::gmul(v[i], gf::ginv(e ^ ys[i])))
}

/// `(x + e) v / (x + y) == v + v (e + y) / (x + y)`.
proof fn lemma_term_split(x: u8, e: u8, y: u8, v: u8)
    requires
        x != y,
    ensures
        gf::gmul(x ^ e, gf::gmul(v, gf::ginv(x ^ y))) == v ^ gf::gmul(gf::gmul(v, e ^ y), gf::ginv(x ^ y)),
{
    let i = gf::ginv(x ^ y);
    gf::lemma_xor(x, y, 0);
    gf::lemma_inverse(x ^ y);
    assert(x ^ e == (x ^ y) ^ (e ^ y)) by (bit_vector);
    gf::lemma_mul_distrib(gf::gmul(v, i), x ^ y, e ^ y);
    // (x + y) v i == v
    gf::lemma_mul_comm(x ^ y, gf::gmul(v, i));
    gf::lemma_mul_assoc(v, i, x ^ y);
    gf::lemma_mul_unit(v);
    // (e + y) v i == (v (e + y)) i
    gf::lemma_mul_comm(e ^ y, gf::gmul(v, i));
    gf::lemma_mul_assoc(v, i, e ^ y);
    gf::lemma_mul_comm(i, e ^ y);
    gf::lemma_mul_assoc(v, e ^ y, i);
}

proof fn lemma_sum_split(v: Seq<u8>, ys: Seq<u8>, x: u8, e: u8, n: nat)
    requires
        n <= v.len(),
        v.len() == ys.len(),
        forall|i: int| 0 <= i < n ==> ys[i] != x,
    ensures
        gf::gmul(x ^ e, csum(v, ys, x, n)) == vsum(v, n) ^ csum(times_gap(v, ys, e), ys, x, n),
    decreases n,
{
    gf::lemma_mul_unit(x ^ e);
    if n == 0 {
        gf::lemma_xor(0, 0, 0);
    } else {
        let m = (n - 1) as nat;
        lemma_sum_split(v, ys, x, e, m);
        lemma_term_split(x, e, ys[n - 1], v[n - 1]);
        let g = times_gap(v, ys, e);
        gf::lemma_mul_distrib(x ^ e, csum(v, ys, x, m), gf::gmul(v[n - 1], gf::ginv(x ^ ys[n - 1])));
        let p = vsum(v, m);
        let q = csum(g, ys, x, m);
        let s = v[n - 1];
        let t = gf::gmul(g[n - 1], gf::ginv(x ^ ys[n - 1]));
        assert((p ^ q) ^ (s ^ t) == (p ^ s) ^ (q ^ t)) by (bit_vector);
    }
}

/// `u / (x + y) + u / (e + y) == (x + e) (u / (e + y)) / (x + y)`.
proof fn lemma_term_merge(x: u8, e: u8, y: u8, u: u8)
    requires
        x != y,
        e != y,
    ensures
        gf::gmul(u, gf::ginv(x ^ y)) ^ gf::gmul(u, gf::ginv(e ^ y)) == gf::gmul(
            x ^ e,
            gf::gmul(gf::gmul(u, gf::ginv(e ^ y)), gf::ginv(x ^ y)),
        ),
{
    let i = gf::ginv(x ^ y);
    let j = gf::ginv(e ^ y);
    gf::lemma_xor(x, y, 0);
    gf::lemma_xor(e, y, 0);
    gf::lemma_inverse(x ^ y);
    gf::lemma_inverse(e ^ y);
    assert(x ^ e == (e ^ y) ^ (x ^ y)) by (bit_vector);
    let w = gf::gmul(gf::gmul(u, j), i);
    gf::lemma_mul_distrib(w, e ^ y, x ^ y);
    // (e + y) u j i == u i
    gf::lemma_mul_assoc(u, j, i);
    gf::lemma_mul_comm(j, i);
    gf::lemma_mul_assoc(u, i, j);
    gf::lemma_mul_comm(e ^ y, w);
    gf::lemma_mul_assoc(gf::gmul(u, i), j, e ^ y);
    gf::lemma_mul_unit(gf::gmul(u, i));
    // (x + y) u j i == u j
    gf::lemma_mul_comm(x ^ y, w);
    gf::lemma_mul_assoc(gf::gmul(u, j), i, x ^ y);
    gf::lemma_mul_unit(gf::gmul(u, j));
}

proof fn lemma_sum_merge(u: Seq<u8>, ys: Seq<u8>, x: u8, e: u8, n: nat)
    requires
        n <= u.len(),
        u.len() == ys.len(),
        forall|i: int| 0 <= i < n ==> ys[i] != x && ys[i] != e,
    ensures
        csum(u, ys, x, n) ^ csum(u, ys, e, n) == gf::gmul(
            x ^ e,
            csum(over_gap(u, ys, e), ys, x, n),
        ),
    decreases n,
{
    gf::lemma_mul_unit(x ^ e);
    if n == 0 {
        gf::lemma_xor(0, 0, 0);
    } else {
        let m = (n - 1) as nat;
        lemma_sum_merge(u, ys, x, e, m);
        lemma_term_merge(x, e, ys[n - 1], u[n - 1]);
        let w = over_gap(u, ys, e);
        gf::lemma_mul_distrib(x ^ e, csum(w, ys, x, m), gf::gmul(w[n - 1], gf::ginv(x ^ ys[n - 1])));
        let p = csum(u, ys, x, m);
        let q = csum(u, ys, e, m);
        let s = gf::gmul(u[n - 1], gf::ginv(x ^ ys[n - 1]));
        let t = gf::gmul(u[n - 1], gf::ginv(e ^ ys[n - 1]));
        assert((p ^ s) ^ (q ^ t) == (p ^ q) ^ (s ^ t)) by (bit_vector);
    }
}

proof fn lemma_csum_congruent(v: Seq<u8>, w: Seq<u8>, ys: Seq<u8>, zs: Seq<u8>, x: u8, n: nat)
    requires
        forall|i: int| 0 <= i < n ==> v[i] == w[i] && ys[i] == zs[i],
    ensures
        csum(v, ys, x, n) == csum(w, zs, x, n),
    decreases n,
{
    if n > 0 {
        lemma_csum_congruent(v, w, ys, zs, x, (n - 1) as nat);
    }
}

/// A list extended by one entry has the same sum over what it had.
pub proof fn lemma_csum_extend(
    v: Seq<u8>,
    w: Seq<u8>,
    ys: Seq<u8>,
    zs: Seq<u8>,
    x: u8,
    n: nat,
)
    requires
        forall|i: int| 0 <= i < n ==> v[i] == w[i] && ys[i] == zs[i],
    ensures
        csum(v, ys, x, n) == csum(w, zs, x, n),
{
    lemma_csum_congruent(v, w, ys, zs, x, n);
}

/// A Cauchy system with as many equations as unknowns, over distinct `x` and
/// distinct `y` that never meet, has only the zero solution.
pub proof fn lemma_cauchy_kernel(v: Seq<u8>, ys: Seq<u8>, xs: Seq<u8>)
    requires
        v.len() == ys.len(),
        xs.len() == ys.len(),
        forall|i: int, j: int| 0 <= i < j < ys.len() ==> ys[i] != ys[j],
        forall|i: int, j: int| 0 <= i < j < xs.len() ==> xs[i] != xs[j],
        forall|i: int, j: int| 0 <= i < xs.len() && 0 <= j < ys.len() ==> xs[i] != ys[j],
        forall|i: int|
            0 <= i < xs.len() ==> csum(v, ys, #[trigger] xs[i], ys.len()) == 0,
    ensures
        forall|i: int| 0 <= i < v.len() ==> v[i] == 0,
    decreases v.len(),
{
    let s = v.len();
    if s > 0 {
        let l = s - 1;
        let m = l as nat;
        let yl = ys[l];
        let xl = xs[l];
        let u = times_gap(v, ys, yl);
        let w = over_gap(u, ys, xl);
        let v2 = w.subrange(0, l);
        let ys2 = ys.subrange(0, l);
        let xs2 = xs.subrange(0, l);
        // The last term of `u` vanishes, so its sums are over the rest.
        gf::lemma_xor(yl, yl, 0);
        gf::lemma_mul_unit(v[l]);
        assert(u[l] == 0);
        assert forall|i: int| 0 <= i < s implies csum(u, ys, #[trigger] xs[i], m) == vsum(v, s) by {
            let x = xs[i];
            assert(forall|j: int| 0 <= j < s ==> ys[j] != x);
            lemma_sum_split(v, ys, x, yl, s);
            gf::lemma_mul_unit(x ^ yl);
            gf::lemma_mul_unit(gf::ginv(x ^ ys[l]));
            gf::lemma_xor(csum(u, ys, x, m), 0, 0);
            assert(csum(u, ys, x, s) == csum(u, ys, x, m));
            gf::lemma_xor(vsum(v, s), csum(u, ys, x, s), 0);
        }
        assert forall|i: int| 0 <= i < xs2.len() implies csum(
            v2,
            ys2,
            #[trigger] xs2[i],
            ys2.len(),
        ) == 0 by {
            let x = xs[i];
            assert(csum(u, ys, xs[i], m) == vsum(v, s));
            assert(csum(u, ys, xs[l], m) == vsum(v, s));
            assert(forall|j: int| 0 <= j < m ==> ys[j] != x && ys[j] != xl);
            lemma_sum_merge(u, ys, x, xl, m);
            gf::lemma_xor(vsum(v, s), vsum(v, s), 0);
            assert(gf::gmul(x ^ xl, csum(w, ys, x, m)) == 0);
            gf::lemma_xor(x, xl, 0);
            gf::lemma_no_zero_divisors(x ^ xl, csum(w, ys, x, m));
            assert(csum(w, ys, x, m) == 0);
            lemma_csum_congruent(w, v2, ys, ys2, x, m);
        }
        lemma_cauchy_kernel(v2, ys2, xs2);
        assert forall|i: int| 0 <= i < l implies v[i] == 0 by {
            assert(v2[i] == 0);
            let g = yl ^ ys[i];
            let h = xl ^ ys[i];
            gf::lemma_xor(yl, ys[i], 0);
            gf::lemma_xor(xl, ys[i], 0);
            assert(xs[l] != ys[i]);
            gf::lemma_inverse(h);
            gf::lemma_no_zero_divisors(gf::gmul(v[i], g), gf::ginv(h));
            gf::lemma_no_zero_divisors(v[i], g);
        }
        // What is left is one term.
        let h = xl ^ yl;
        assert(csum(v, ys, xl, m) == 0) by {
            lemma_csum_zero(v, ys, xl, m);
        }
        assert(csum(v, ys, xs[l], s) == 0);
        gf::lemma_xor(gf::gmul(v[l], gf::ginv(h)), 0, 0);
        assert(xs[l] != ys[l]);
        gf::lemma_xor(xl, yl, 0);
        gf::lemma_inverse(h);
        gf::lemma_no_zero_divisors(v[l], gf::ginv(h));
    }
}

proof fn lemma_csum_zero(v: Seq<u8>, ys: Seq<u8>, x: u8, n: nat)
    requires
        forall|i: int| 0 <= i < n ==> v[i] == 0,
    ensures
        csum(v, ys, x, n) == 0,
    decreases n,
{
    if n > 0 {
        lemma_csum_zero(v, ys, x, (n - 1) as nat);
        gf::lemma_mul_unit(gf::ginv(x ^ ys[n - 1]));
        gf::lemma_xor(0, 0, 0);
    }
}

} // verus!
