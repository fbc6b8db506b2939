//! The field GF(2^8) with reducing polynomial `0x11D` and generator 2.
//!
//! Elements are bytes, addition is exclusive-or, and multiplication is the
//! carry-less product reduced modulo `x^8 + x^4 + x^3 + x^2 + 1`. The laws of a
//! field are proved once here, so that the code built on it can reason with them.

use vstd::prelude::*;
use vstd::set_lib::*;

verus! {

/// `2 * a`.
pub open spec fn xtime(a: u8) -> u8 {
    if a & 0x80 != 0 {
        (a << 1) ^ 0x1D
    } else {
        a << 1
    }
}

/// `2^n * b`.
spec fn pw(b: u8, n: nat) -> u8
    decreases n,
{
    if n == 0 {
        b
    } else {
        xtime(pw(b, (n - 1) as nat))
    }
}

spec fn gterm(a: u8, bit: u8, shifted: u8) -> u8 {
    if a & bit != 0 {
        shifted
    } else {
        0
    }
}

/// The sum of those `b_i` for which bit `i` of `a` is set.
spec fn gm8(a: u8, b0: u8, b1: u8, b2: u8, b3: u8, b4: u8, b5: u8, b6: u8, b7: u8) -> u8 {
    gterm(a, 1, b0) ^ gterm(a, 2, b1) ^ gterm(a, 4, b2) ^ gterm(a, 8, b3) ^ gterm(a, 16, b4)
        ^ gterm(a, 32, b5) ^ gterm(a, 64, b6) ^ gterm(a, 128, b7)
}

/// The product of two field elements: the sum of `2^i * b` over the bits `i` of `a`.
pub closed spec fn gmul(a: u8, b: u8) -> u8 {
    gm8(a, pw(b, 0), pw(b, 1), pw(b, 2), pw(b, 3), pw(b, 4), pw(b, 5), pw(b, 6), pw(b, 7))
}

/// Addition in the field: commutative, associative, and its own inverse.
pub proof fn lemma_xor(a: u8, b: u8, c: u8)
    ensures
        a ^ b == b ^ a,
        (a ^ b) ^ c == a ^ (b ^ c),
        a ^ a == 0,
        a ^ 0 == a,
        0 ^ a == a,
        (a ^ b == 0) <==> (a == b),
        (a ^ b) ^ b == a,
{
    assert(a ^ b == b ^ a && (a ^ b) ^ c == a ^ (b ^ c) && a ^ a == 0 && a ^ 0 == a && 0 ^ a == a
        && ((a ^ b == 0) <==> (a == b)) && (a ^ b) ^ b == a) by (bit_vector);
}

proof fn lemma_xtime_add(b: u8, c: u8)
    by (bit_vector)
    ensures
        xtime(b ^ c) == xtime(b) ^ xtime(c),
        xtime(0) == 0,
{
}

proof fn lemma_gm8_add(
    a: u8,
    b0: u8,
    b1: u8,
    b2: u8,
    b3: u8,
    b4: u8,
    b5: u8,
    b6: u8,
    b7: u8,
    c0: u8,
    c1: u8,
    c2: u8,
    c3: u8,
    c4: u8,
    c5: u8,
    c6: u8,
    c7: u8,
)
    by (bit_vector)
    ensures
        gm8(a, b0 ^ c0, b1 ^ c1, b2 ^ c2, b3 ^ c3, b4 ^ c4, b5 ^ c5, b6 ^ c6, b7 ^ c7) == gm8(
            a,
            b0,
            b1,
            b2,
            b3,
            b4,
            b5,
            b6,
            b7,
        ) ^ gm8(a, c0, c1, c2, c3, c4, c5, c6, c7),
{
}

proof fn lemma_gm8_basis(a: u8)
    by (bit_vector)
    ensures
        gm8(a, 1, 2, 4, 8, 16, 32, 64, 128) == a,
        xtime(1) == 2,
        xtime(2) == 4,
        xtime(4) == 8,
        xtime(8) == 16,
        xtime(16) == 32,
        xtime(32) == 64,
        xtime(64) == 128,
        1u8 & 1 != 0,
        1u8 & 2 == 0,
        1u8 & 4 == 0,
        1u8 & 8 == 0,
        1u8 & 16 == 0,
        1u8 & 32 == 0,
        1u8 & 64 == 0,
        1u8 & 128 == 0,
{
}

proof fn lemma_zero_bits()
    by (bit_vector)
    ensures
        0u8 & 1 == 0,
        0u8 & 2 == 0,
        0u8 & 4 == 0,
        0u8 & 8 == 0,
        0u8 & 16 == 0,
        0u8 & 32 == 0,
        0u8 & 64 == 0,
        0u8 & 128 == 0,
        0u8 ^ 0u8 == 0,
{
}

proof fn lemma_pw_add(b: u8, c: u8, n: nat)
    ensures
        pw(b ^ c, n) == pw(b, n) ^ pw(c, n),
    decreases n,
{
    if n > 0 {
        lemma_pw_add(b, c, (n - 1) as nat);
        lemma_xtime_add(pw(b, (n - 1) as nat), pw(c, (n - 1) as nat));
    }
}

/// A product distributes over a sum on the right.
proof fn lemma_mul_add_right(a: u8, b: u8, c: u8)
    ensures
        gmul(a, b ^ c) == gmul(a, b) ^ gmul(a, c),
{
    lemma_pw_add(b, c, 0);
    lemma_pw_add(b, c, 1);
    lemma_pw_add(b, c, 2);
    lemma_pw_add(b, c, 3);
    lemma_pw_add(b, c, 4);
    lemma_pw_add(b, c, 5);
    lemma_pw_add(b, c, 6);
    lemma_pw_add(b, c, 7);
    lemma_gm8_add(
        a,
        pw(b, 0),
        pw(b, 1),
        pw(b, 2),
        pw(b, 3),
        pw(b, 4),
        pw(b, 5),
        pw(b, 6),
        pw(b, 7),
        pw(c, 0),
        pw(c, 1),
        pw(c, 2),
        pw(c, 3),
        pw(c, 4),
        pw(c, 5),
        pw(c, 6),
        pw(c, 7),
    );
}

proof fn lemma_pw_zero(n: nat)
    ensures
        pw(0, n) == 0,
    decreases n,
{
    if n > 0 {
        lemma_pw_zero((n - 1) as nat);
        lemma_xtime_add(0, 0);
    }
}

/// Doubling passes through the sum over bits.
proof fn lemma_gm8_xtime(
    a: u8,
    b0: u8,
    b1: u8,
    b2: u8,
    b3: u8,
    b4: u8,
    b5: u8,
    b6: u8,
    b7: u8,
)
    ensures
        xtime(gm8(a, b0, b1, b2, b3, b4, b5, b6, b7)) == gm8(
            a,
            xtime(b0),
            xtime(b1),
            xtime(b2),
            xtime(b3),
            xtime(b4),
            xtime(b5),
            xtime(b6),
            xtime(b7),
        ),
{
    let t0 = gterm(a, 1, b0);
    let t1 = gterm(a, 2, b1);
    let t2 = gterm(a, 4, b2);
    let t3 = gterm(a, 8, b3);
    let t4 = gterm(a, 16, b4);
    let t5 = gterm(a, 32, b5);
    let t6 = gterm(a, 64, b6);
    let t7 = gterm(a, 128, b7);
    lemma_xtime_add(t0, t1);
    lemma_xtime_add(t0 ^ t1, t2);
    lemma_xtime_add(t0 ^ t1 ^ t2, t3);
    lemma_xtime_add(t0 ^ t1 ^ t2 ^ t3, t4);
    lemma_xtime_add(t0 ^ t1 ^ t2 ^ t3 ^ t4, t5);
    lemma_xtime_add(t0 ^ t1 ^ t2 ^ t3 ^ t4 ^ t5, t6);
    lemma_xtime_add(t0 ^ t1 ^ t2 ^ t3 ^ t4 ^ t5 ^ t6, t7);
}

proof fn lemma_pw_shift(b: u8, n: nat)
    ensures
        pw(xtime(b), n) == xtime(pw(b, n)),
    decreases n,
{
    if n > 0 {
        lemma_pw_shift(b, (n - 1) as nat);
    }
}

/// Doubling the right factor doubles the product.
proof fn lemma_mul_xtime_right(a: u8, b: u8)
    ensures
        gmul(a, xtime(b)) == xtime(gmul(a, b)),
{
    lemma_pw_shift(b, 0);
    lemma_pw_shift(b, 1);
    lemma_pw_shift(b, 2);
    lemma_pw_shift(b, 3);
    lemma_pw_shift(b, 4);
    lemma_pw_shift(b, 5);
    lemma_pw_shift(b, 6);
    lemma_pw_shift(b, 7);
    lemma_gm8_xtime(
        a,
        pw(b, 0),
        pw(b, 1),
        pw(b, 2),
        pw(b, 3),
        pw(b, 4),
        pw(b, 5),
        pw(b, 6),
        pw(b, 7),
    );
}

proof fn lemma_mul_pw_right(a: u8, b: u8, n: nat)
    ensures
        gmul(a, pw(b, n)) == pw(gmul(a, b), n),
    decreases n,
{
    if n > 0 {
        lemma_mul_pw_right(a, b, (n - 1) as nat);
        lemma_mul_xtime_right(a, pw(b, (n - 1) as nat));
    }
}

/// One is neutral and zero absorbs.
pub proof fn lemma_mul_unit(a: u8)
    ensures
        gmul(1, a) == a,
        gmul(a, 1) == a,
        gmul(0, a) == 0,
        gmul(a, 0) == 0,
        gmul(2, a) == xtime(a),
        gmul(a, 2) == xtime(a),
{
    lemma_gm8_basis(a);
    reveal_with_fuel(pw, 9);
    assert(gmul(a, 1) == a);
    lemma_mul_xtime_right(a, 1);
    lemma_pw_zero(0);
    lemma_pw_zero(1);
    lemma_pw_zero(2);
    lemma_pw_zero(3);
    lemma_pw_zero(4);
    lemma_pw_zero(5);
    lemma_pw_zero(6);
    lemma_pw_zero(7);
    lemma_zero_bits();
    assert(gmul(a, 0) == 0);
    lemma_mul_comm(1, a);
    lemma_mul_comm(0, a);
    lemma_mul_comm(2, a);
}

/// Multiplication from the left passes through the sum over bits.
proof fn lemma_mul_gm8(
    x: u8,
    a: u8,
    b0: u8,
    b1: u8,
    b2: u8,
    b3: u8,
    b4: u8,
    b5: u8,
    b6: u8,
    b7: u8,
)
    ensures
        gmul(x, gm8(a, b0, b1, b2, b3, b4, b5, b6, b7)) == gm8(
            a,
            gmul(x, b0),
            gmul(x, b1),
            gmul(x, b2),
            gmul(x, b3),
            gmul(x, b4),
            gmul(x, b5),
            gmul(x, b6),
            gmul(x, b7),
        ),
{
    let t0 = gterm(a, 1, b0);
    let t1 = gterm(a, 2, b1);
    let t2 = gterm(a, 4, b2);
    let t3 = gterm(a, 8, b3);
    let t4 = gterm(a, 16, b4);
    let t5 = gterm(a, 32, b5);
    let t6 = gterm(a, 64, b6);
    let t7 = gterm(a, 128, b7);
    lemma_mul_add_right(x, t0, t1);
    lemma_mul_add_right(x, t0 ^ t1, t2);
    lemma_mul_add_right(x, t0 ^ t1 ^ t2, t3);
    lemma_mul_add_right(x, t0 ^ t1 ^ t2 ^ t3, t4);
    lemma_mul_add_right(x, t0 ^ t1 ^ t2 ^ t3 ^ t4, t5);
    lemma_mul_add_right(x, t0 ^ t1 ^ t2 ^ t3 ^ t4 ^ t5, t6);
    lemma_mul_add_right(x, t0 ^ t1 ^ t2 ^ t3 ^ t4 ^ t5 ^ t6, t7);
    assert(gmul(x, 0) == 0) by {
        lemma_pw_zero(0);
        lemma_pw_zero(1);
        lemma_pw_zero(2);
        lemma_pw_zero(3);
        lemma_pw_zero(4);
        lemma_pw_zero(5);
        lemma_pw_zero(6);
        lemma_pw_zero(7);
        lemma_zero_bits();
    }
}

/// Multiplication is commutative.
pub proof fn lemma_mul_comm(a: u8, b: u8)
    ensures
        gmul(a, b) == gmul(b, a),
{
    lemma_gm8_basis(a);
    assert(pw(1, 0) == 1);
    assert(pw(1, 1) == 2);
    assert(pw(1, 2) == 4);
    assert(pw(1, 3) == 8);
    assert(pw(1, 4) == 16);
    assert(pw(1, 5) == 32);
    assert(pw(1, 6) == 64);
    assert(pw(1, 7) == 128);
    lemma_mul_gm8(b, a, 1, 2, 4, 8, 16, 32, 64, 128);
    lemma_mul_pw_right(b, 1, 0);
    lemma_mul_pw_right(b, 1, 1);
    lemma_mul_pw_right(b, 1, 2);
    lemma_mul_pw_right(b, 1, 3);
    lemma_mul_pw_right(b, 1, 4);
    lemma_mul_pw_right(b, 1, 5);
    lemma_mul_pw_right(b, 1, 6);
    lemma_mul_pw_right(b, 1, 7);
    lemma_gm8_basis(b);
    assert(gmul(b, 1) == b);
}

/// Multiplication distributes over addition, on both sides.
pub proof fn lemma_mul_distrib(a: u8, b: u8, c: u8)
    ensures
        gmul(a, b ^ c) == gmul(a, b) ^ gmul(a, c),
        gmul(b ^ c, a) == gmul(b, a) ^ gmul(c, a),
{
    lemma_mul_add_right(a, b, c);
    lemma_mul_comm(a, b ^ c);
    lemma_mul_comm(a, b);
    lemma_mul_comm(a, c);
}

/// Multiplication is associative.
pub proof fn lemma_mul_assoc(a: u8, b: u8, c: u8)
    ensures
        gmul(gmul(a, b), c) == gmul(a, gmul(b, c)),
{
    // c * (sum over bits of a of 2^i b) == sum over bits of a of 2^i (c b)
    lemma_mul_comm(gmul(a, b), c);
    lemma_mul_gm8(
        c,
        a,
        pw(b, 0),
        pw(b, 1),
        pw(b, 2),
        pw(b, 3),
        pw(b, 4),
        pw(b, 5),
        pw(b, 6),
        pw(b, 7),
    );
    lemma_mul_pw_right(c, b, 0);
    lemma_mul_pw_right(c, b, 1);
    lemma_mul_pw_right(c, b, 2);
    lemma_mul_pw_right(c, b, 3);
    lemma_mul_pw_right(c, b, 4);
    lemma_mul_pw_right(c, b, 5);
    lemma_mul_pw_right(c, b, 6);
    lemma_mul_pw_right(c, b, 7);
    lemma_mul_comm(c, b);
}

/// `2^n`.
pub open spec fn gpow(n: nat) -> u8
    decreases n,
{
    if n == 0 {
        1
    } else {
        xtime(gpow((n - 1) as nat))
    }
}

/// Exponents add.
pub proof fn lemma_pow_add(i: nat, j: nat)
    ensures
        gmul(gpow(i), gpow(j)) == gpow(i + j),
    decreases j,
{
    lemma_mul_unit(gpow(i));
    if j > 0 {
        lemma_pow_add(i, (j - 1) as nat);
        lemma_mul_xtime_right(gpow(i), gpow((j - 1) as nat));
    }
}

/// The products of powers of two that show where the powers return to 1.
proof fn lemma_power_constants()
    by (bit_vector)
    ensures
        xtime(1) == 2,
        xtime(2) == 4,
        xtime(4) == 8,
        xtime(8) == 16,
        xtime(16) == 32,
        xtime(19) == 38,
        xtime(23) == 46,
        xtime(29) == 58,
        xtime(32) == 64,
        xtime(37) == 74,
        xtime(39) == 78,
        xtime(45) == 90,
        xtime(46) == 92,
        xtime(47) == 94,
        xtime(58) == 116,
        xtime(64) == 128,
        xtime(74) == 148,
        xtime(76) == 152,
        xtime(78) == 156,
        xtime(90) == 180,
        xtime(92) == 184,
        xtime(94) == 188,
        xtime(95) == 190,
        xtime(97) == 194,
        xtime(109) == 218,
        xtime(116) == 232,
        xtime(117) == 234,
        xtime(128) == 29,
        xtime(133) == 23,
        xtime(135) == 19,
        xtime(148) == 53,
        xtime(152) == 45,
        xtime(153) == 47,
        xtime(156) == 37,
        xtime(157) == 39,
        xtime(180) == 117,
        xtime(184) == 109,
        xtime(190) == 97,
        xtime(194) == 153,
        xtime(205) == 135,
        xtime(218) == 169,
        xtime(232) == 205,
        xtime(234) == 201,
        gm8(2, 2, 4, 8, 16, 32, 64, 128, 29) == 4,
        gm8(4, 4, 8, 16, 32, 64, 128, 29, 58) == 16,
        gm8(16, 16, 32, 64, 128, 29, 58, 116, 232) == 29,
        gm8(29, 29, 58, 116, 232, 205, 135, 19, 38) == 76,
        gm8(76, 76, 152, 45, 90, 180, 117, 234, 201) == 157,
        gm8(157, 157, 39, 78, 156, 37, 74, 148, 53) == 95,
        gm8(95, 95, 190, 97, 194, 153, 47, 94, 188) == 133,
        gm8(2, 4, 8, 16, 32, 64, 128, 29, 58) == 8,
        gm8(8, 16, 32, 64, 128, 29, 58, 116, 232) == 128,
        gm8(128, 29, 58, 116, 232, 205, 135, 19, 38) == 38,
        gm8(8, 76, 152, 45, 90, 180, 117, 234, 201) == 90,
        gm8(90, 157, 39, 78, 156, 37, 74, 148, 53) == 10,
        gm8(2, 16, 32, 64, 128, 29, 58, 116, 232) == 32,
        gm8(32, 76, 152, 45, 90, 180, 117, 234, 201) == 117,
        gm8(117, 95, 190, 97, 194, 153, 47, 94, 188) == 214,
        gm8(38, 76, 152, 45, 90, 180, 117, 234, 201) == 192,
        gm8(192, 157, 39, 78, 156, 37, 74, 148, 53) == 161,
        gm8(161, 95, 190, 97, 194, 153, 47, 94, 188) == 204,
        gm8(204, 133, 23, 46, 92, 184, 109, 218, 169) == 1,
{
}

/// The four powers that decide the order of 2: the whole group, and its three
/// largest proper divisors.
proof fn lemma_power_values()
    ensures
        gpow(15) == 38,
        gpow(51) == 10,
        gpow(85) == 214,
        gpow(255) == 1,
{
    lemma_power_constants();
    reveal_with_fuel(pw, 9);
    assert(gpow(0) == 1);
    assert(gpow(1) == 2);
    lemma_pow_add(1, 1);
    assert(gmul(2, 2) == 4);
    lemma_pow_add(2, 2);
    assert(gmul(4, 4) == 16);
    lemma_pow_add(4, 4);
    assert(gmul(16, 16) == 29);
    lemma_pow_add(8, 8);
    assert(gmul(29, 29) == 76);
    lemma_pow_add(16, 16);
    assert(gmul(76, 76) == 157);
    lemma_pow_add(32, 32);
    assert(gmul(157, 157) == 95);
    lemma_pow_add(64, 64);
    assert(gmul(95, 95) == 133);
    lemma_pow_add(1, 2);
    assert(gmul(2, 4) == 8);
    lemma_pow_add(3, 4);
    assert(gmul(8, 16) == 128);
    lemma_pow_add(7, 8);
    assert(gmul(128, 29) == 38);
    lemma_pow_add(3, 16);
    assert(gmul(8, 76) == 90);
    lemma_pow_add(19, 32);
    assert(gmul(90, 157) == 10);
    lemma_pow_add(1, 4);
    assert(gmul(2, 16) == 32);
    lemma_pow_add(5, 16);
    assert(gmul(32, 76) == 117);
    lemma_pow_add(21, 64);
    assert(gmul(117, 95) == 214);
    lemma_pow_add(15, 16);
    assert(gmul(38, 76) == 192);
    lemma_pow_add(31, 32);
    assert(gmul(192, 157) == 161);
    lemma_pow_add(63, 64);
    assert(gmul(161, 95) == 204);
    lemma_pow_add(127, 128);
    assert(gmul(204, 133) == 1);
}

/// If two powers are 1, so is the power of the remainder.
proof fn lemma_pow_rem(a: nat, b: nat)
    requires
        b > 0,
        gpow(a) == 1,
        gpow(b) == 1,
    ensures
        gpow(a % b) == 1,
    decreases a,
{
    if a < b {
        vstd::arithmetic::div_mod::lemma_small_mod(a, b);
    } else {
        lemma_pow_add((a - b) as nat, b);
        lemma_mul_unit(gpow((a - b) as nat));
        lemma_pow_rem((a - b) as nat, b);
        vstd::arithmetic::div_mod::lemma_mod_sub_multiples_vanish(a as int, b as int);
    }
}

/// The least positive exponent, at most `n`, at which the power of 2 is 1.
proof fn lemma_least_order(n: nat) -> (e: nat)
    requires
        n > 0,
        gpow(n) == 1,
    ensures
        0 < e <= n,
        gpow(e) == 1,
        forall|d: nat| 0 < d < e ==> gpow(d) != 1,
    decreases n,
{
    if exists|d: nat| 0 < d < n && gpow(d) == 1 {
        let d = choose|d: nat| 0 < d < n && gpow(d) == 1;
        lemma_least_order(d)
    } else {
        n
    }
}

/// A proper divisor of 255 divides 85, 51 or 15.
proof fn lemma_divisors_of_255(e: nat)
    requires
        0 < e < 255,
        255nat % e == 0,
    ensures
        85nat % e == 0 || 51nat % e == 0 || 15nat % e == 0,
{
    let x = e as u8;
    assert(255u8 % x == 255nat % e);
    assert(85u8 % x == 0 || 51u8 % x == 0 || 15u8 % x == 0) by (bit_vector)
        requires
            0u8 < x,
            x < 255u8,
            255u8 % x == 0,
    ;
    assert(85u8 % x == 85nat % e && 51u8 % x == 51nat % e && 15u8 % x == 15nat % e);
}

/// The order of 2 is 255: no smaller positive power is 1.
pub proof fn lemma_order(d: nat)
    requires
        0 < d < 255,
    ensures
        gpow(d) != 1,
        gpow(255) == 1,
{
    lemma_power_values();
    if gpow(d) == 1 {
        let e = lemma_least_order(d);
        lemma_pow_rem(255, e);
        assert(255nat % e < e);
        assert(255nat % e == 0);
        lemma_divisors_of_255(e);
        lemma_multiple_is_one(85, e);
        lemma_multiple_is_one(51, e);
        lemma_multiple_is_one(15, e);
    }
}

/// A multiple of an exponent at which the power is 1 is such an exponent too.
proof fn lemma_multiple_is_one(a: nat, e: nat)
    requires
        e > 0,
        gpow(e) == 1,
    ensures
        a % e == 0 ==> gpow(a) == 1,
    decreases a,
{
    if a % e == 0 {
        if a < e {
            vstd::arithmetic::div_mod::lemma_small_mod(a, e);
        } else {
            vstd::arithmetic::div_mod::lemma_mod_sub_multiples_vanish(a as int, e as int);
            lemma_multiple_is_one((a - e) as nat, e);
            lemma_pow_add((a - e) as nat, e);
            lemma_mul_unit(gpow((a - e) as nat));
        }
    }
}

/// No power of 2 is zero.
proof fn lemma_pow_nonzero(n: nat)
    ensures
        gpow(n) != 0,
    decreases n,
{
    if n > 0 {
        lemma_pow_nonzero((n - 1) as nat);
        let a = gpow((n - 1) as nat);
        assert(a != 0 ==> xtime(a) != 0) by (bit_vector);
    }
}

/// The first 255 powers of 2 are pairwise different.
pub proof fn lemma_pow_injective(i: nat, j: nat)
    requires
        i < j < 255,
    ensures
        gpow(i) != gpow(j),
{
    if gpow(i) == gpow(j) {
        // 2^i * 2^(255 - i) == 1, so 2^(j - i) would be 1.
        let c = (255 - i) as nat;
        lemma_pow_add(i, c);
        lemma_pow_add(j, c);
        lemma_power_values();
        lemma_pow_add((j - i) as nat, 255);
        lemma_mul_unit(gpow((j - i) as nat));
        lemma_order((j - i) as nat);
    }
}

spec fn pow_set(n: nat) -> Set<int> {
    Set::new(|x: int| exists|i: nat| i < n && #[trigger] gpow(i) == x)
}

proof fn lemma_pow_set(n: nat)
    requires
        n <= 255,
    ensures
        pow_set(n).finite(),
        pow_set(n).len() == n,
        pow_set(n).subset_of(set_int_range(1, 256)),
    decreases n,
{
    if n == 0 {
        assert(pow_set(0) =~= Set::empty());
    } else {
        let m = (n - 1) as nat;
        lemma_pow_set(m);
        let x = gpow(m) as int;
        assert(!pow_set(m).contains(x)) by {
            if pow_set(m).contains(x) {
                let i = choose|i: nat| i < m && #[trigger] gpow(i) == x;
                lemma_pow_injective(i, m);
            }
        }
        assert(pow_set(n) =~= pow_set(m).insert(x)) by {
            assert forall|y: int| pow_set(n).contains(y) implies pow_set(m).insert(x).contains(
                y,
            ) by {
                let i = choose|i: nat| i < n && #[trigger] gpow(i) == y;
                if i != m {
                    assert(i < m);
                }
            }
            assert forall|y: int| pow_set(m).insert(x).contains(y) implies pow_set(n).contains(
                y,
            ) by {
                if y == x {
                    assert(gpow(m) == y);
                } else {
                    let i = choose|i: nat| i < m && #[trigger] gpow(i) == y;
                    assert(gpow(i) == y);
                }
            }
        }
        lemma_pow_nonzero(m);
    }
}

/// Every non-zero element is a power of 2: 2 generates the field.
pub proof fn lemma_generator(a: u8) -> (i: nat)
    requires
        a != 0,
    ensures
        i < 255,
        gpow(i) == a,
{
    lemma_pow_set(255);
    lemma_int_range(1, 256);
    lemma_subset_equality(pow_set(255), set_int_range(1, 256));
    assert(pow_set(255).contains(a as int));
    choose|i: nat| i < 255 && #[trigger] gpow(i) == a as int
}

/// The multiplicative inverse of a non-zero element.
pub closed spec fn ginv(a: u8) -> u8 {
    choose|b: u8| gmul(a, b) == 1
}

/// Every non-zero element has an inverse.
pub proof fn lemma_inverse(a: u8)
    requires
        a != 0,
    ensures
        gmul(a, ginv(a)) == 1,
        gmul(ginv(a), a) == 1,
        ginv(a) != 0,
{
    let i = lemma_generator(a);
    lemma_pow_add(i, (255 - i) as nat);
    lemma_power_values();
    let b = gpow((255 - i) as nat);
    assert(gmul(a, b) == 1);
    lemma_mul_comm(a, ginv(a));
    lemma_mul_unit(a);
}

/// A product is zero only when a factor is.
pub proof fn lemma_no_zero_divisors(a: u8, b: u8)
    ensures
        gmul(a, b) == 0 <==> (a == 0 || b == 0),
{
    lemma_mul_unit(a);
    lemma_mul_unit(b);
    if a != 0 && gmul(a, b) == 0 {
        lemma_inverse(a);
        lemma_mul_assoc(ginv(a), a, b);
        lemma_mul_unit(ginv(a));
    }
}

/// A quotient is fixed by what it multiplies back to.
pub proof fn lemma_quotient(q: u8, a: u8, b: u8)
    requires
        b != 0,
        gmul(q, b) == a,
    ensures
        q == gmul(a, ginv(b)),
{
    lemma_inverse(b);
    lemma_mul_assoc(q, b, ginv(b));
    lemma_mul_unit(q);
}

/// Exponential and logarithm tables of the field, built from the polynomial.
pub struct Tables {
    exp: [u8; 512],
    log: [u8; 256],
}

impl Tables {
    #[verifier::type_invariant]
    spec fn wf(self) -> bool {
        &&& forall|i: int| 0 <= i < 510 ==> #[trigger] self.exp@[i] == gpow(i as nat)
        &&& forall|x: int|
            1 <= x < 256 ==> (#[trigger] self.log@[x]) < 255 && gpow(self.log@[x] as nat) == x
    }

    /// The powers a table holds.
    pub closed spec fn powers(&self) -> Seq<u8> {
        self.exp@
    }

    /// The exponents a table holds.
    pub closed spec fn exponents(&self) -> Seq<u8> {
        self.log@
    }

    /// The tables of this field: `exp(i)` is `2^i` and `log` undoes it.
    pub fn new() -> (t: Tables)
        ensures
            forall|i: int| 0 <= i < 510 ==> #[trigger] t.powers()[i] == gpow(i as nat),
            forall|x: int|
                1 <= x < 256 ==> (#[trigger] t.exponents()[x]) < 255 && gpow(
                    t.exponents()[x] as nat,
                ) == x,
    {
        let mut exp: [u8; 512] = [0;512];
        let mut log: [u8; 256] = [0;256];
        let mut x: u8 = 1;
        let mut i: usize = 0;
        while i < 255
            invariant
                i <= 255,
                x == gpow(i as nat),
                forall|j: int| 0 <= j < i ==> #[trigger] exp@[j] == gpow(j as nat),
                forall|j: nat| j < i ==> log@[#[trigger] gpow(j) as int] == j,
            decreases 255 - i,
        {
            proof {
                assert forall|j: nat| j < i implies gpow(j) != x by {
                    lemma_pow_injective(j, i as nat);
                }
            }
            exp[i] = x;
            log[x as usize] = i as u8;
            x = if x & 0x80 != 0 {
                (x << 1) ^ 0x1D
            } else {
                x << 1
            };
            i += 1;
        }
        let mut j: usize = 0;
        proof {
            lemma_power_values();
        }
        while j < 255
            invariant
                j <= 255,
                gpow(255) == 1,
                forall|n: int| 0 <= n < 255 + j ==> #[trigger] exp@[n] == gpow(n as nat),
                forall|n: nat| n < 255 ==> log@[#[trigger] gpow(n) as int] == n,
            decreases 255 - j,
        {
            proof {
                lemma_pow_add(j as nat, 255);
                lemma_mul_unit(gpow(j as nat));
            }
            let v = exp[j];
            exp[255 + j] = v;
            j += 1;
        }
        proof {
            assert forall|x: int| 1 <= x < 256 implies (#[trigger] log@[x]) < 255 && gpow(
                log@[x] as nat,
            ) == x by {
                let n = lemma_generator(x as u8);
                assert(log@[gpow(n) as int] == n);
            }
        }
        Tables { exp, log }
    }

    /// `2^i`.
    pub fn exp(&self, i: usize) -> (v: u8)
        requires
            i < 510,
        ensures
            v == gpow(i as nat),
    {
        proof {
            use_type_invariant(self);
        }
        self.exp[i]
    }

    /// The exponent of a non-zero element.
    pub fn log(&self, x: u8) -> (i: u8)
        requires
            x != 0,
        ensures
            i < 255,
            gpow(i as nat) == x,
    {
        proof {
            use_type_invariant(self);
        }
        self.log[x as usize]
    }

    /// Multiplication. Zero is handled before the logarithm, which has no value
    /// at zero.
    pub fn mul(&self, a: u8, b: u8) -> (p: u8)
        ensures
            p == gmul(a, b),
    {
        proof {
            use_type_invariant(self);
            lemma_mul_unit(a);
            lemma_mul_unit(b);
        }
        if a == 0 || b == 0 {
            return 0;
        }
        let la = self.log[a as usize] as usize;
        let lb = self.log[b as usize] as usize;
        proof {
            lemma_pow_add(la as nat, lb as nat);
        }
        self.exp[la + lb]
    }

    /// Every multiple of an element.
    pub fn multiples(&self, f: u8) -> (r: [u8; 256])
        ensures
            forall|x: int| 0 <= x < 256 ==> #[trigger] r@[x] == gmul(f, x as u8),
    {
        let mut r: [u8; 256] = [0;256];
        let mut x: usize = 0;
        while x < 256
            invariant
                x <= 256,
                forall|y: int| 0 <= y < x ==> #[trigger] r@[y] == gmul(f, y as u8),
            decreases 256 - x,
        {
            r[x] = self.mul(f, x as u8);
            x += 1;
        }
        r
    }

    /// Division by a non-zero element.
    pub fn div(&self, a: u8, b: u8) -> (q: u8)
        requires
            b != 0,
        ensures
            q == gmul(a, ginv(b)),
            gmul(q, b) == a,
    {
        proof {
            use_type_invariant(self);
            lemma_mul_unit(ginv(b));
            lemma_mul_unit(b);
        }
        if a == 0 {
            return 0;
        }
        let la = self.log[a as usize] as usize;
        let lb = self.log[b as usize] as usize;
        let d: usize = if la >= lb {
            la - lb
        } else {
            la + 255 - lb
        };
        proof {
            lemma_pow_add(d as nat, lb as nat);
            lemma_power_values();
            lemma_pow_add(la as nat, 255);
            lemma_mul_unit(gpow(la as nat));
            lemma_quotient(gpow(d as nat), a, b);
        }
        self.exp[d]
    }
}

} // verus!
