//! The extension is a field, so a nonzero polynomial has no more roots than its
//! degree.
//!
//! `X^4 - 11` is irreducible because 11 is not a square modulo `q`, which
//! follows from Fermat's theorem.

use crate::ext;
use crate::ext::Ext;
use crate::field;
use crate::poly;
use crate::prime;
use crate::sums;
use vstd::arithmetic::power::*;
use vstd::prelude::*;

verus! {

// ---------------------------------------------------------------------------
// Fermat's theorem.
// ---------------------------------------------------------------------------
/// The number of ways to pick `k` things out of `n`.
pub open spec fn binomial(n: nat, k: nat) -> int
    decreases n,
{
    if k == 0 {
        1
    } else if n == 0 {
        0
    } else {
        binomial((n - 1) as nat, (k - 1) as nat) + binomial((n - 1) as nat, k)
    }
}

proof fn lemma_binomial_ends(n: nat, k: nat)
    requires
        k >= n,
    ensures
        binomial(n, k) == if k == n {
            1int
        } else {
            0
        },
    decreases n,
{
    if n > 0 {
        lemma_binomial_ends((n - 1) as nat, (k - 1) as nat);
        lemma_binomial_ends((n - 1) as nat, k);
    }
}

proof fn lemma_absorption(n: nat, k: nat)
    requires
        n >= 1,
        k >= 1,
    ensures
        k * binomial(n, k) == n * binomial((n - 1) as nat, (k - 1) as nat),
    decreases n,
{
    if n == 1 {
        reveal_with_fuel(binomial, 2);
        if k > 1 {
            lemma_binomial_ends(1, k);
            lemma_binomial_ends(0, (k - 1) as nat);
            assert(k * 0 == 0) by (nonlinear_arith);
        }
    } else {
        let m = (n - 1) as nat;
        lemma_absorption(m, k);
        let b1 = binomial(m, (k - 1) as nat);
        let b2 = binomial(m, k);
        let y = binomial((m - 1) as nat, (k - 1) as nat);
        assert(k * b2 == m * y);
        if k == 1 {
            assert(b1 == 1 && y == 1);
            assert(k * (b1 + b2) == n * b1) by (nonlinear_arith)
                requires
                    k == 1,
                    b1 == 1,
                    y == 1,
                    k * b2 == m * y,
                    n == m + 1,
            ;
        } else {
            lemma_absorption(m, (k - 1) as nat);
            let x = binomial((m - 1) as nat, (k - 2) as nat);
            assert((k - 1) * b1 == m * x);
            assert(b1 == x + y);
            assert(k * (b1 + b2) == n * b1) by (nonlinear_arith)
                requires
                    k * b2 == m * y,
                    (k - 1) * b1 == m * x,
                    b1 == x + y,
                    n == m + 1,
            ;
        }
    }
}

proof fn lemma_binomial_theorem(a: int, n: nat)
    ensures
        pow(a + 1, n) == sums::sum(0, n as int + 1, |k: int| binomial(n, k as nat) * pow(a, k as nat)),
    decreases n,
{
    let f = |k: int| binomial(n, k as nat) * pow(a, k as nat);
    if n == 0 {
        lemma_pow0(a + 1);
        lemma_pow0(a);
        assert(sums::sum(0, 0, f) == 0);
        assert(sums::sum(0, 1, f) == sums::sum(0, 0, f) + f(0));
    } else {
        let m = (n - 1) as nat;
        let g = |k: int| binomial(m, k as nat) * pow(a, k as nat);
        lemma_binomial_theorem(a, m);
        let total = sums::sum(0, m as int + 1, g);
        reveal(pow);
        assert(pow(a + 1, n) == (a + 1) * pow(a + 1, m));
        // a * total, moved up by one place.
        let up = |k: int| a * g(k);
        sums::lemma_sum_scale(0, m as int + 1, a, g, up);
        let shifted = |k: int| if k == 0 {
            0
        } else {
            binomial(m, (k - 1) as nat) * pow(a, k as nat)
        };
        assert forall|k: int| 0 <= k < m + 1 implies #[trigger] up(k) == shifted(k + 1) by {
            let b = binomial(m, k as nat);
            let p = pow(a, k as nat);
            assert(pow(a, (k + 1) as nat) == a * p);
            assert(a * (b * p) == b * (a * p)) by (nonlinear_arith);
        }
        sums::lemma_sum_shift(0, m as int + 1, 1, shifted, up);
        sums::lemma_sum_first(0, n as int + 1, shifted);
        // total itself, with a vanishing term on top.
        lemma_binomial_ends(m, n);
        assert(g(n as int) == 0) by {
            assert(0 * pow(a, n) == 0) by (nonlinear_arith);
        }
        assert(sums::sum(0, n as int + 1, g) == sums::sum(0, n as int, g) + g(n as int));
        assert forall|k: int| 0 <= k < n + 1 implies #[trigger] f(k) == shifted(k) + g(k) by {
            if k > 0 {
                let p = pow(a, k as nat);
                let x = binomial(m, (k - 1) as nat);
                let y = binomial(m, k as nat);
                assert((x + y) * p == x * p + y * p) by (nonlinear_arith);
            }
        }
        sums::lemma_sum_add(0, n as int + 1, shifted, g, f);
        assert((a + 1) * total == a * total + total) by (nonlinear_arith);
    }
}

proof fn lemma_binomial_vanishes(k: nat)
    requires
        1 <= k < field::q(),
    ensures
        sums::cong(binomial(2013265921, k), 0),
{
    lemma_absorption(2013265921, k);
    let b = binomial(2013265921, k);
    let c = binomial(2013265920, (k - 1) as nat);
    assert(k * b == 2013265921 * c);
    prime::lemma_zero_product(k as int, b);
}

proof fn lemma_fermat_step(a: int)
    ensures
        sums::cong(pow(a + 1, 2013265921), pow(a, 2013265921) + 1),
{
    let n: nat = 2013265921;
    let f = |k: int| binomial(n, k as nat) * pow(a, k as nat);
    lemma_binomial_theorem(a, n);
    lemma_binomial_ends(n, n);
    lemma_pow0(a);
    let zero = |k: int| 0int;
    assert forall|k: int| 1 <= k < n implies sums::cong(#[trigger] f(k), zero(k)) by {
        lemma_binomial_vanishes(k as nat);
        let p = pow(a, k as nat);
        sums::lemma_cong_mul(binomial(n, k as nat), 0, p, p);
        assert(0 * p == 0) by (nonlinear_arith);
    }
    sums::lemma_sum_cong(1, n as int, f, zero);
    sums::lemma_sum_zero(1, n as int, zero);
    sums::lemma_sum_first(0, n as int + 1, f);
    assert(sums::sum(1, n as int + 1, f) == sums::sum(1, n as int, f) + f(n as int));
    assert(f(0) == 1);
    assert(1 * pow(a, n) == pow(a, n));
}

proof fn lemma_fermat_nat(a: nat)
    ensures
        sums::cong(pow(a as int, 2013265921), a as int),
    decreases a,
{
    if a == 0 {
        lemma0_pow(2013265921);
    } else {
        lemma_fermat_nat((a - 1) as nat);
        lemma_fermat_step(a - 1);
    }
}

/// Fermat's theorem for `q`: a number that is not zero modulo `q` has the
/// power `q - 1` equal to one.
pub proof fn lemma_fermat(s: int)
    requires
        !sums::cong(s, 0),
    ensures
        sums::cong(pow(s, 2013265920), 1),
{
    let a = s % field::q();
    sums::lemma_cong_mod(s);
    lemma_fermat_nat(a as nat);
    sums::lemma_cong_pow(s, a, 2013265921);
    sums::lemma_cong_trans(pow(s, 2013265921), pow(a, 2013265921), a);
    sums::lemma_cong_trans(pow(s, 2013265921), a, s);
    let p = pow(s, 2013265920);
    assert(pow(s, 2013265921) == s * p) by {
        reveal(pow);
    }
    assert(s * (p - 1) == s * p - s) by (nonlinear_arith);
    prime::lemma_zero_product(s, p - 1);
}

// ---------------------------------------------------------------------------
// 11 is not a square.
// ---------------------------------------------------------------------------
proof fn lemma_square_step(e: nat, c: int, d: int)
    requires
        sums::cong(pow(11, e), c),
        sums::cong(c * c, d),
    ensures
        sums::cong(pow(11, 2 * e), d),
{
    lemma_pow_adds(11, e, e);
    assert(2 * e == e + e);
    sums::lemma_cong_mul(pow(11, e), c, pow(11, e), c);
    sums::lemma_cong_trans(pow(11, e) * pow(11, e), c * c, d);
}

proof fn lemma_eleven_power()
    ensures
        sums::cong(pow(11, 1006632960), -1),
{
    assert(pow(11, 15) == 4177248169415651) by {
        reveal_with_fuel(pow, 16);
    }
    lemma_square_step(15, 1227303670, 93415323);
    lemma_square_step(30, 93415323, 1967256669);
    lemma_square_step(60, 1967256669, 803698133);
    lemma_square_step(120, 803698133, 1468189886);
    lemma_square_step(240, 1468189886, 551940703);
    lemma_square_step(480, 551940703, 845732530);
    lemma_square_step(960, 845732530, 1179029991);
    lemma_square_step(1920, 1179029991, 139700921);
    lemma_square_step(3840, 139700921, 1161580287);
    lemma_square_step(7680, 1161580287, 234232845);
    lemma_square_step(15360, 234232845, 74384512);
    lemma_square_step(30720, 74384512, 921325686);
    lemma_square_step(61440, 921325686, 400588301);
    lemma_square_step(122880, 400588301, 772837880);
    lemma_square_step(245760, 772837880, 1619789736);
    lemma_square_step(491520, 1619789736, 709697997);
    lemma_square_step(983040, 709697997, 1054808915);
    lemma_square_step(1966080, 1054808915, 949217896);
    lemma_square_step(3932160, 949217896, 1734697937);
    lemma_square_step(7864320, 1734697937, 784229619);
    lemma_square_step(15728640, 784229619, 1917679203);
    lemma_square_step(31457280, 1917679203, 1835875777);
    lemma_square_step(62914560, 1835875777, 1400279418);
    lemma_square_step(125829120, 1400279418, 420899707);
    lemma_square_step(251658240, 420899707, 1728404513);
    lemma_square_step(503316480, 1728404513, 2013265920);
}

/// 11 has no square root modulo `q`: `x^2 = 11 y^2` only if both are zero.
pub proof fn lemma_eleven_not_square(x: int, y: int)
    requires
        sums::cong(x * x, 11 * (y * y)),
    ensures
        sums::cong(x, 0),
        sums::cong(y, 0),
{
    if !sums::cong(y, 0) {
        let t = pow(y, 2013265919);
        lemma_fermat(y);
        assert(pow(y, 2013265920) == y * t) by {
            reveal(pow);
        }
        let s = x * t;
        // s^2 = 11 (y t)^2 = 11
        sums::lemma_cong_mul(x * x, 11 * (y * y), t * t, t * t);
        assert(s * s == (x * x) * (t * t)) by (nonlinear_arith)
            requires
                s == x * t,
        ;
        assert((11 * (y * y)) * (t * t) == 11 * ((y * t) * (y * t))) by (nonlinear_arith);
        sums::lemma_cong_mul(y * t, 1, y * t, 1);
        sums::lemma_cong_mul(11, 11, (y * t) * (y * t), 1);
        sums::lemma_cong_trans(s * s, 11 * ((y * t) * (y * t)), 11);
        // s^(q-1) = 11^((q-1)/2) = -1
        if sums::cong(s, 0) {
            sums::lemma_cong_mul(s, 0, s, 0);
            sums::lemma_cong_trans(0, s * s, 11);
            assert(!sums::cong(0, 11));
        }
        lemma_fermat(s);
        lemma_eleven_power();
        lemma_pow_multiplies(s, 2, 1006632960);
        assert(pow(s, 2) == s * s) by {
            reveal_with_fuel(pow, 3);
        }
        sums::lemma_cong_pow(s * s, 11, 1006632960);
        sums::lemma_cong_trans(pow(s, 2013265920), pow(11, 1006632960), -1);
        sums::lemma_cong_trans(1, pow(s, 2013265920), -1);
        assert(!sums::cong(1, -1));
    }
    sums::lemma_cong_mul(y, 0, y, 0);
    sums::lemma_cong_mul(11, 11, y * y, 0);
    sums::lemma_cong_trans(x * x, 11 * (y * y), 0);
    prime::lemma_zero_product(x, x);
}

// ---------------------------------------------------------------------------
// No zero divisors.
// ---------------------------------------------------------------------------
proof fn lemma_cong_move(a: int, b: int)
    requires
        sums::cong(a + b, 0),
    ensures
        sums::cong(a * -1, b),
{
}

proof fn lemma_cong_unmove(a: int)
    requires
        sums::cong(0, a * -1),
    ensures
        sums::cong(a, 0),
{
}

proof fn lemma_cong_difference(a: int, b: int, c: int)
    requires
        sums::cong(a, c),
        sums::cong(b, c),
    ensures
        sums::cong(a - b, 0),
{
}

proof fn lemma_cong_minus(a: int, b: int, c: int, d: int)
    requires
        sums::cong(a, b),
        sums::cong(c, d),
    ensures
        sums::cong(a - c, b - d),
        sums::cong(b - d, a - c),
{
}

/// `-11` has no square root either, because `-1` has one.
proof fn lemma_minus_eleven_not_square(x: int, y: int)
    requires
        sums::cong(x * x + 11 * (y * y), 0),
    ensures
        sums::cong(x, 0),
        sums::cong(y, 0),
{
    let i: int = 1728404513;
    let m = i * i;
    assert(sums::cong(m, -1));
    let s = x * i;
    assert(s * s == (x * x) * m) by (nonlinear_arith)
        requires
            s == x * i,
            m == i * i,
    ;
    let xx = x * x;
    let yy = 11 * (y * y);
    sums::lemma_cong_mul(xx, xx, m, -1);
    lemma_cong_move(xx, yy);
    sums::lemma_cong_trans(s * s, xx * -1, yy);
    lemma_eleven_not_square(s, y);
    sums::lemma_cong_mul(s, 0, i, i);
    assert(s * i == x * m) by (nonlinear_arith)
        requires
            s == x * i,
            m == i * i,
    ;
    sums::lemma_cong_mul(x, x, m, -1);
    assert(0 * i == 0);
    sums::lemma_cong_trans(x * -1, s * i, 0);
    lemma_cong_unmove(x);
}

/// The products of `p = a0 b0 - 11 a1 b1` and `r = a1 b0 - a0 b1`, over the
/// squares and mixed products of the factors.
proof fn lemma_cross_products(a0: int, a1: int, b0: int, b1: int)
    ensures
        ({
            let p = a0 * b0 - 11 * (a1 * b1);
            let r = a1 * b0 - a0 * b1;
            let s = a0 * a0 + 11 * (a1 * a1);
            let t = 2 * (a0 * a1);
            let v = b0 * b0 + 11 * (b1 * b1);
            let w = b0 * b1;
            let n = b0 * b0 - 11 * (b1 * b1);
            &&& p * p + 11 * (r * r) == s * v - 22 * (w * t)
            &&& 2 * (p * r) == t * v - 2 * (w * s)
            &&& v * v - 44 * (w * w) == n * n
        }),
{
    let x = a0 * b0;
    let y = a1 * b1;
    let z = a1 * b0;
    let u = a0 * b1;
    let (aa, ab, bb) = (a0 * a0, a0 * a1, a1 * a1);
    let (cc, cd, dd) = (b0 * b0, b0 * b1, b1 * b1);
    let p = x - 11 * y;
    let r = z - u;
    assert(x * x == aa * cc) by (nonlinear_arith)
        requires
            x == a0 * b0,
            aa == a0 * a0,
            cc == b0 * b0,
    ;
    assert(y * y == bb * dd) by (nonlinear_arith)
        requires
            y == a1 * b1,
            bb == a1 * a1,
            dd == b1 * b1,
    ;
    assert(z * z == bb * cc) by (nonlinear_arith)
        requires
            z == a1 * b0,
            bb == a1 * a1,
            cc == b0 * b0,
    ;
    assert(u * u == aa * dd) by (nonlinear_arith)
        requires
            u == a0 * b1,
            aa == a0 * a0,
            dd == b1 * b1,
    ;
    assert(x * y == ab * cd && z * u == ab * cd) by (nonlinear_arith)
        requires
            x == a0 * b0,
            y == a1 * b1,
            z == a1 * b0,
            u == a0 * b1,
            ab == a0 * a1,
            cd == b0 * b1,
    ;
    assert(x * z == ab * cc && x * u == aa * cd) by (nonlinear_arith)
        requires
            x == a0 * b0,
            z == a1 * b0,
            u == a0 * b1,
            aa == a0 * a0,
            ab == a0 * a1,
            cc == b0 * b0,
            cd == b0 * b1,
    ;
    assert(y * z == bb * cd && y * u == ab * dd) by (nonlinear_arith)
        requires
            y == a1 * b1,
            z == a1 * b0,
            u == a0 * b1,
            bb == a1 * a1,
            ab == a0 * a1,
            cd == b0 * b1,
            dd == b1 * b1,
    ;
    assert(cd * cd == cc * dd) by (nonlinear_arith)
        requires
            cd == b0 * b1,
            cc == b0 * b0,
            dd == b1 * b1,
    ;
    lemma_square_of_difference(x, 11 * y);
    assert(x * (11 * y) == 11 * (x * y)) by (nonlinear_arith);
    assert((11 * y) * (11 * y) == 121 * (y * y)) by (nonlinear_arith);
    lemma_square_of_difference(z, u);
    assert(p * r == x * z - x * u - 11 * (y * z) + 11 * (y * u)) by (nonlinear_arith)
        requires
            p == x - 11 * y,
            r == z - u,
    ;
    let s = aa + 11 * bb;
    let t = 2 * ab;
    let v = cc + 11 * dd;
    let n = cc - 11 * dd;
    assert(s * v == aa * cc + 11 * (aa * dd) + 11 * (bb * cc) + 121 * (bb * dd))
        by (nonlinear_arith)
        requires
            s == aa + 11 * bb,
            v == cc + 11 * dd,
    ;
    assert(t * v == 2 * (ab * cc) + 22 * (ab * dd)) by (nonlinear_arith)
        requires
            t == 2 * ab,
            v == cc + 11 * dd,
    ;
    assert(cd * t == 2 * (ab * cd)) by (nonlinear_arith)
        requires
            t == 2 * ab,
    ;
    assert(cd * s == aa * cd + 11 * (bb * cd)) by (nonlinear_arith)
        requires
            s == aa + 11 * bb,
    ;
    lemma_square_of_difference(cc, 11 * dd);
    assert(v * v == cc * cc + 2 * (cc * (11 * dd)) + (11 * dd) * (11 * dd)) by (nonlinear_arith)
        requires
            v == cc + 11 * dd,
    ;
    assert(cc * (11 * dd) == 11 * (cc * dd)) by (nonlinear_arith);
}

proof fn lemma_square_of_difference(x: int, y: int)
    ensures
        (x - y) * (x - y) == x * x - 2 * (x * y) + y * y,
{
    assert((x - y) * (x - y) == x * x - 2 * (x * y) + y * y) by (nonlinear_arith);
}

/// Where `A^2 = B^2 u` for `A = a0 + a1 u`, `B = b0 + b1 u` and `u^2 = 11`, both
/// are zero.
proof fn lemma_quadratic_not_square(a0: int, a1: int, b0: int, b1: int)
    requires
        sums::cong(a0 * a0 + 11 * (a1 * a1), 22 * (b0 * b1)),
        sums::cong(2 * (a0 * a1), b0 * b0 + 11 * (b1 * b1)),
    ensures
        sums::cong(a0, 0),
        sums::cong(a1, 0),
        sums::cong(b0, 0),
        sums::cong(b1, 0),
{
    let s = a0 * a0 + 11 * (a1 * a1);
    let t = 2 * (a0 * a1);
    let v = b0 * b0 + 11 * (b1 * b1);
    let w = b0 * b1;
    let p = a0 * b0 - 11 * (a1 * b1);
    let r = a1 * b0 - a0 * b1;
    let n = b0 * b0 - 11 * (b1 * b1);
    lemma_cross_products(a0, a1, b0, b1);
    // p^2 + 11 r^2 = s v - 22 w t = 0
    sums::lemma_cong_mul(s, 22 * w, v, v);
    sums::lemma_cong_mul(22 * w, 22 * w, t, v);
    assert((22 * w) * t == 22 * (w * t)) by (nonlinear_arith);
    lemma_cong_difference(s * v, 22 * (w * t), (22 * w) * v);
    lemma_minus_eleven_not_square(p, r);
    // 2 p r = t v - 2 w s = n^2
    sums::lemma_cong_mul(t, v, v, v);
    sums::lemma_cong_mul(2 * w, 2 * w, s, 22 * w);
    assert((2 * w) * s == 2 * (w * s)) by (nonlinear_arith);
    assert((2 * w) * (22 * w) == 44 * (w * w)) by (nonlinear_arith);
    lemma_cong_minus(t * v, v * v, 2 * (w * s), 44 * (w * w));
    sums::lemma_cong_mul(p, 0, r, 0);
    sums::lemma_cong_mul(2, 2, p * r, 0);
    sums::lemma_cong_trans(n * n, 2 * (p * r), 0);
    prime::lemma_zero_product(n, n);
    lemma_eleven_not_square(b0, b1);
    sums::lemma_cong_mul(b0, 0, b1, 0);
    sums::lemma_cong_mul(22, 22, w, 0);
    sums::lemma_cong_trans(s, 22 * w, 0);
    lemma_minus_eleven_not_square(a0, a1);
}

/// A product in the extension is zero only if a factor is.
pub proof fn lemma_ext_zero_product(x: Ext, y: Ext)
    requires
        x.times(y).cong(Ext::of(0)),
    ensures
        x.cong(Ext::of(0)) || y.cong(Ext::of(0)),
{
    let n0 = x.c0 * x.c0 + 11 * (x.c2 * x.c2) - 22 * (x.c1 * x.c3);
    let n1 = 2 * (x.c0 * x.c2) - x.c1 * x.c1 - 11 * (x.c3 * x.c3);
    let conj = Ext { c0: x.c0, c1: -x.c1, c2: x.c2, c3: -x.c3 };
    let part = Ext { c0: n0, c1: 0, c2: n1, c3: 0 };
    let rest = Ext { c0: n0, c1: 0, c2: -n1, c3: 0 };
    let norm = n0 * n0 - 11 * (n1 * n1);
    assert(conj.times(x) == part) by {
        lemma_conjugate_product(x);
    }
    assert(rest.times(part) == Ext::of(norm)) by {
        assert((-n1) * n1 == -(n1 * n1)) by (nonlinear_arith);
        assert(n0 * n1 + (-n1) * n0 == 0) by (nonlinear_arith);
        assert(n0 * 0 == 0 && 0 * n0 == 0 && (-n1) * 0 == 0 && 0 * n1 == 0) by (nonlinear_arith);
    }
    // norm * y = rest * (conj * (x * y)) = 0
    ext::lemma_times_assoc(conj, x, y);
    ext::lemma_times_assoc(rest, part, y);
    ext::lemma_times_of(y, norm);
    ext::lemma_ext_cong_times(conj, conj, x.times(y), Ext::of(0));
    ext::lemma_times_of(conj, 0);
    ext::lemma_ext_cong_times(rest, rest, part.times(y), Ext::of(0));
    ext::lemma_times_of(rest, 0);
    assert(y.scaled(norm).cong(Ext::of(0)));
    if !y.cong(Ext::of(0)) {
        if !sums::cong(y.c0, 0) {
            prime::lemma_zero_product(norm, y.c0);
        } else if !sums::cong(y.c1, 0) {
            prime::lemma_zero_product(norm, y.c1);
        } else if !sums::cong(y.c2, 0) {
            prime::lemma_zero_product(norm, y.c2);
        } else {
            prime::lemma_zero_product(norm, y.c3);
        }
        lemma_eleven_not_square(n0, n1);
        lemma_quadratic_not_square(x.c0, x.c2, x.c1, x.c3);
    }
}

proof fn lemma_conjugate_product(x: Ext)
    ensures
        (Ext { c0: x.c0, c1: -x.c1, c2: x.c2, c3: -x.c3 }).times(x) == (Ext {
            c0: x.c0 * x.c0 + 11 * (x.c2 * x.c2) - 22 * (x.c1 * x.c3),
            c1: 0,
            c2: 2 * (x.c0 * x.c2) - x.c1 * x.c1 - 11 * (x.c3 * x.c3),
            c3: 0,
        }),
{
    let a = x.c0;
    let b = x.c1;
    let c = x.c2;
    let d = x.c3;
    assert((-b) * d == -(b * d)) by (nonlinear_arith);
    assert((-d) * b == -(b * d)) by (nonlinear_arith);
    assert((-b) * a == -(a * b)) by (nonlinear_arith);
    assert((-d) * c == -(c * d)) by (nonlinear_arith);
    assert((-b) * b == -(b * b)) by (nonlinear_arith);
    assert((-d) * d == -(d * d)) by (nonlinear_arith);
    assert((-b) * c == -(b * c)) by (nonlinear_arith);
    assert((-d) * a == -(a * d)) by (nonlinear_arith);
    assert(c * a == a * c) by (nonlinear_arith);
    assert(c * b == b * c) by (nonlinear_arith);
}

// ---------------------------------------------------------------------------
// Counting roots.
// ---------------------------------------------------------------------------
/// The value at `z` of the polynomial with coefficients in the extension.
pub open spec fn value(c: Seq<Ext>, z: Ext) -> Ext
    decreases c.len(),
{
    if c.len() == 0 {
        Ext::of(0)
    } else {
        c[0].plus(z.times(value(c.drop_first(), z)))
    }
}

/// The quotient of `c` by `X - w`.
pub open spec fn divided(c: Seq<Ext>, w: Ext) -> Seq<Ext>
    decreases c.len(),
{
    if c.len() <= 1 {
        Seq::empty()
    } else {
        seq![value(c.drop_first(), w)] + divided(c.drop_first(), w)
    }
}

/// All coefficients are zero modulo `q`.
pub open spec fn vanishes(c: Seq<Ext>) -> bool {
    forall|i: int| 0 <= i < c.len() ==> (#[trigger] c[i]).cong(Ext::of(0))
}

/// `c(z) - c(w) = (z - w) d(z)` for the quotient `d`.
proof fn lemma_divided(c: Seq<Ext>, w: Ext, z: Ext)
    ensures
        value(c, z).minus(value(c, w)) == z.minus(w).times(value(divided(c, w), z)),
        c.len() > 0 ==> divided(c, w).len() == c.len() - 1,
        c.len() == 0 ==> divided(c, w).len() == 0,
    decreases c.len(),
{
    if c.len() == 0 {
        ext::lemma_times_of(z.minus(w), 0);
    } else {
        let rest = c.drop_first();
        let cz = value(rest, z);
        let cw = value(rest, w);
        if c.len() == 1 {
            ext::lemma_times_of(z, 0);
            ext::lemma_times_of(w, 0);
            ext::lemma_times_of(z.minus(w), 0);
        } else {
            let d = divided(rest, w);
            lemma_divided(rest, w, z);
            let all = divided(c, w);
            assert(all.drop_first() =~= d);
            assert(all[0] == cw);
            let dz = value(d, z);
            // (z - w)(cw + z dz) = (z - w) cw + z (cz - cw)
            ext::lemma_times_dist(cw, z.times(dz), z.minus(w));
            ext::lemma_times_assoc(z.minus(w), z, dz);
            ext::lemma_times_comm(z.minus(w), z);
            ext::lemma_times_assoc(z, z.minus(w), dz);
            ext::lemma_times_dist(cz, cw, z);
            ext::lemma_times_dist(z, w, cw);
        }
    }
}

/// A vanishing quotient and a root make the polynomial vanish.
proof fn lemma_vanishing_quotient(c: Seq<Ext>, w: Ext)
    requires
        vanishes(divided(c, w)),
        value(c, w).cong(Ext::of(0)),
    ensures
        vanishes(c),
    decreases c.len(),
{
    if c.len() > 0 {
        let rest = c.drop_first();
        let r = value(rest, w);
        if c.len() > 1 {
            let all = divided(c, w);
            let d = divided(rest, w);
            lemma_divided(c, w, w);
            lemma_divided(rest, w, w);
            assert(all[0] == r);
            assert(r.cong(Ext::of(0)));
            assert forall|i: int| 0 <= i < d.len() implies (#[trigger] d[i]).cong(Ext::of(0)) by {
                assert(all[i + 1] == d[i]);
            }
            lemma_vanishing_quotient(rest, w);
        }
        ext::lemma_ext_cong_times(w, w, r, Ext::of(0));
        ext::lemma_times_of(w, 0);
        lemma_cong_head(c[0], w.times(r));
        assert forall|i: int| 0 <= i < c.len() implies (#[trigger] c[i]).cong(Ext::of(0)) by {
            if i > 0 {
                assert(rest[i - 1] == c[i]);
            }
        }
    }
}

proof fn lemma_cong_head(a: Ext, b: Ext)
    requires
        a.plus(b).cong(Ext::of(0)),
        b.cong(Ext::of(0)),
    ensures
        a.cong(Ext::of(0)),
{
}

/// The points are pairwise different modulo `q`.
pub open spec fn distinct(zs: Seq<Ext>) -> bool {
    forall|i: int, j: int|
        #![trigger zs[i], zs[j]]
        0 <= i < j < zs.len() ==> !zs[i].cong(zs[j])
}

proof fn lemma_difference_nonzero(z: Ext, w: Ext)
    requires
        z.minus(w).cong(Ext::of(0)),
    ensures
        w.cong(z),
{
}

proof fn lemma_cong_both(a: Ext, b: Ext)
    requires
        a.cong(Ext::of(0)),
        b.cong(Ext::of(0)),
    ensures
        a.minus(b).cong(Ext::of(0)),
{
}

/// A polynomial of `c.len()` coefficients with as many roots is zero.
pub proof fn lemma_too_many_roots(c: Seq<Ext>, zs: Seq<Ext>)
    requires
        distinct(zs),
        zs.len() >= c.len(),
        forall|i: int| 0 <= i < zs.len() ==> value(c, #[trigger] zs[i]).cong(Ext::of(0)),
    ensures
        vanishes(c),
    decreases c.len(),
{
    if c.len() > 0 {
        let w = zs[0];
        let d = divided(c, w);
        let rest = zs.drop_first();
        lemma_divided(c, w, w);
        assert forall|i: int| 0 <= i < rest.len() implies value(d, #[trigger] rest[i]).cong(
            Ext::of(0),
        ) by {
            let z = rest[i];
            assert(z == zs[i + 1]);
            lemma_divided(c, w, z);
            lemma_cong_both(value(c, z), value(c, w));
            lemma_ext_zero_product(z.minus(w), value(d, z));
            if z.minus(w).cong(Ext::of(0)) {
                lemma_difference_nonzero(z, w);
                assert(!zs[0].cong(zs[i + 1]));
            }
        }
        assert(distinct(rest)) by {
            assert forall|i: int, j: int|
                #![trigger rest[i], rest[j]]
                0 <= i < j < rest.len() implies !rest[i].cong(rest[j]) by {
                assert(rest[i] == zs[i + 1] && rest[j] == zs[j + 1]);
            }
        }
        lemma_too_many_roots(d, rest);
        lemma_vanishing_quotient(c, w);
    }
}

/// The coefficients as extension elements.
spec fn lifted(c: Seq<int>) -> Seq<Ext> {
    c.map_values(|x: int| Ext::of(x))
}

proof fn lemma_value_is_horner(c: Seq<int>, i: int, z: Ext)
    requires
        0 <= i <= c.len(),
    ensures
        value(lifted(c.skip(i)), z) == poly::horner(c, i, z),
    decreases c.len() - i,
{
    let l = lifted(c.skip(i));
    if i < c.len() {
        lemma_value_is_horner(c, i + 1, z);
        assert(l.drop_first() =~= lifted(c.skip(i + 1)));
        assert(l[0] == Ext::of(c[i]));
    } else {
        assert(l.len() == 0);
    }
}

/// A polynomial over the base field that is zero at as many different points of
/// the extension as it has coefficients is zero modulo `q`: a nonzero one of
/// degree below `d` has fewer than `d` roots.
pub proof fn law_few_roots(c: Seq<int>, zs: Seq<Ext>)
    requires
        distinct(zs),
        zs.len() >= c.len(),
        forall|i: int| 0 <= i < zs.len() ==> poly::eval(c, #[trigger] zs[i]).cong(Ext::of(0)),
    ensures
        forall|i: int| 0 <= i < c.len() ==> sums::cong(#[trigger] c[i], 0),
{
    let l = lifted(c);
    assert(c.skip(0) =~= c);
    assert forall|i: int| 0 <= i < zs.len() implies value(l, #[trigger] zs[i]).cong(Ext::of(0)) by {
        lemma_value_is_horner(c, 0, zs[i]);
        poly::lemma_horner_eval(c, zs[i]);
        assert(poly::eval(c, zs[i]).cong(Ext::of(0)));
    }
    lemma_too_many_roots(l, zs);
    assert forall|i: int| 0 <= i < c.len() implies sums::cong(#[trigger] c[i], 0) by {
        assert(l[i] == Ext::of(c[i]));
        assert(l[i].cong(Ext::of(0)));
    }
}

} // verus!
