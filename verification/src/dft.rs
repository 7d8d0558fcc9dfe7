//! The discrete Fourier transform modulo `q`: its definition, the bit-reversal
//! order, the butterfly step and the orthogonality of the roots of unity.

use crate::ext;
use crate::ext::Ext;
use crate::field;
use crate::poly;
use crate::sums;
use vstd::arithmetic::mul::*;
use vstd::arithmetic::power::*;
use vstd::arithmetic::power2::*;
use vstd::prelude::*;

verus! {

/// `floor(log2(n))` for positive `n`.
pub open spec fn log2(n: int) -> nat
    decreases n,
{
    if n <= 1 {
        0
    } else {
        1 + log2(n / 2)
    }
}

/// `n` is a power of two.
pub open spec fn is_pow2(n: int) -> bool {
    n == pow2(log2(n))
}

/// The low `m` bits of `b` in reverse order.
pub open spec fn rev(m: nat, b: int) -> int
    decreases m,
{
    if m == 0 {
        0
    } else {
        (b % 2) * pow2((m - 1) as nat) + rev((m - 1) as nat, b / 2)
    }
}

/// One coefficient of the transform of the subsequence of `x` that starts at
/// `o` and takes every `st`-th entry, `len` of them, with root `w^st`.
pub open spec fn partial(x: Seq<int>, w: int, o: int, st: int, len: int, k: int) -> int {
    sums::sum(0, len, |j: int| x[o + j * st] * pow(w, (st * j * k) as nat))
}

/// Coefficient `k` of the transform of `x` with root `w`: the value of the
/// polynomial `x` at `w^k`.
pub open spec fn dft(x: Seq<int>, w: int, k: int) -> int {
    sums::sum(0, x.len() as int, |j: int| x[j] * pow(w, (j * k) as nat))
}

/// The root used by the inverse transform of size `2^m`.
pub open spec fn inverse_root(m: nat) -> int {
    pow(field::two_adic_root(m), (pow2(m) - 1) as nat)
}

/// Position of entry `k` of block `b` when blocks have length `len`.
pub open spec fn idx(b: int, len: int, k: int) -> int {
    b * len + k
}

// ---------------------------------------------------------------------------
// Powers of two.
// ---------------------------------------------------------------------------
pub proof fn lemma_pow2_step(m: nat)
    ensures
        pow2(m) >= 1,
        pow2(m + 1) == 2 * pow2(m),
{
    lemma_pow2_pos(m);
    lemma_pow2_unfold(m + 1);
}

pub proof fn lemma_log2_pow2(m: nat)
    ensures
        log2(pow2(m) as int) == m,
        is_pow2(pow2(m) as int),
    decreases m,
{
    if m == 0 {
        lemma2_to64();
    } else {
        lemma_pow2_step((m - 1) as nat);
        lemma_log2_pow2((m - 1) as nat);
        assert(pow2(m) as int / 2 == pow2((m - 1) as nat));
    }
}

pub proof fn lemma_pow2_monotone(a: nat, b: nat)
    requires
        a <= b,
    ensures
        pow2(a) <= pow2(b),
    decreases b,
{
    if a < b {
        lemma_pow2_monotone(a, (b - 1) as nat);
        lemma_pow2_step((b - 1) as nat);
    }
}

/// `n` is a power of two exactly if it is 1 or twice a power of two.
pub proof fn lemma_is_pow2_step(n: int)
    ensures
        is_pow2(n) <==> (n == 1 || (n >= 2 && n % 2 == 0 && is_pow2(n / 2))),
{
    lemma2_to64();
    if n > 1 {
        lemma_pow2_step(log2(n / 2));
    }
}

// ---------------------------------------------------------------------------
// Bit reversal.
// ---------------------------------------------------------------------------
pub proof fn lemma_rev_range(m: nat, b: int)
    ensures
        0 <= rev(m, b) < pow2(m),
    decreases m,
{
    if m == 0 {
        lemma_pow2_pos(0);
    } else {
        lemma_pow2_step((m - 1) as nat);
        lemma_rev_range((m - 1) as nat, b / 2);
        let p = pow2((m - 1) as nat) as int;
        if b % 2 == 0 {
            assert(0 * p == 0);
        } else {
            assert(1 * p == p);
        }
    }
}

/// Reversal read from the most significant bit.
proof fn lemma_rev_top(m: nat, t: int, c: int)
    requires
        m >= 1,
        0 <= t <= 1,
        0 <= c < pow2((m - 1) as nat),
    ensures
        rev(m, t * pow2((m - 1) as nat) + c) == 2 * rev((m - 1) as nat, c) + t,
    decreases m,
{
    let p = pow2((m - 1) as nat) as int;
    let b = t * p + c;
    assert(0 * p == 0 && 1 * p == p);
    if m == 1 {
        lemma2_to64();
        assert(rev(0, b / 2) == 0);
        assert(b == t);
        assert((b % 2) * 1 == t);
    } else {
        let h = pow2((m - 2) as nat) as int;
        lemma_pow2_step((m - 2) as nat);
        assert(p == 2 * h);
        assert(0 * h == 0 && 1 * h == h);
        assert(b % 2 == c % 2);
        assert(b / 2 == t * h + c / 2);
        lemma_rev_top((m - 1) as nat, t, c / 2);
        assert(rev(m, b) == (c % 2) * p + 2 * rev((m - 2) as nat, c / 2) + t);
        assert(rev((m - 1) as nat, c) == (c % 2) * h + rev((m - 2) as nat, c / 2));
        assert((c % 2) * p == 2 * ((c % 2) * h)) by (nonlinear_arith)
            requires
                p == 2 * h,
        ;
    }
}

/// Reversing twice gives the number back.
pub proof fn lemma_rev_involution(m: nat, b: int)
    requires
        0 <= b < pow2(m),
    ensures
        rev(m, rev(m, b)) == b,
    decreases m,
{
    if m == 0 {
        lemma2_to64();
    } else {
        lemma_pow2_step((m - 1) as nat);
        lemma_rev_range((m - 1) as nat, b / 2);
        lemma_rev_top(m, b % 2, rev((m - 1) as nat, b / 2));
        lemma_rev_involution((m - 1) as nat, b / 2);
    }
}

// ---------------------------------------------------------------------------
// The butterfly step.
// ---------------------------------------------------------------------------
/// Powers of something congruent to `-1`.
pub proof fn lemma_minus_one_powers(h: int, i: nat)
    requires
        sums::cong(h, -1),
    ensures
        sums::cong(pow(h, 2 * i), 1),
        sums::cong(pow(h, 2 * i + 1), -1),
    decreases i,
{
    reveal(pow);
    if i == 0 {
        assert(pow(h, 0) == 1);
        assert(pow(h, 1) == h * pow(h, 0));
    } else {
        lemma_minus_one_powers(h, (i - 1) as nat);
        let a = pow(h, (2 * i - 1) as nat);
        assert((2 * (i - 1) + 1) as nat == (2 * i - 1) as nat);
        assert(pow(h, 2 * i) == h * a);
        sums::lemma_cong_mul(h, -1, a, -1);
        assert(pow(h, 2 * i + 1) == h * pow(h, 2 * i));
        sums::lemma_cong_mul(h, -1, pow(h, 2 * i), 1);
    }
}

/// A transform of length `2 * len` from the transforms of its even-indexed and
/// odd-indexed halves.
pub proof fn lemma_butterfly(x: Seq<int>, w: int, o: int, st: int, len: int, k: int)
    requires
        st >= 1,
        len >= 1,
        k >= 0,
        sums::cong(pow(w, (st * len) as nat), -1),
    ensures
        partial(x, w, o, st, 2 * len, k) == partial(x, w, o, 2 * st, len, k) + pow(
            w,
            (st * k) as nat,
        ) * partial(x, w, o + st, 2 * st, len, k),
        sums::cong(
            partial(x, w, o, st, 2 * len, k + len),
            partial(x, w, o, 2 * st, len, k) - pow(w, (st * k) as nat) * partial(
                x,
                w,
                o + st,
                2 * st,
                len,
                k,
            ),
        ),
{
    let wk = pow(w, (st * k) as nat);
    let ev = |j: int| x[o + j * (2 * st)] * pow(w, (2 * st * j * k) as nat);
    let od = |j: int| x[o + st + j * (2 * st)] * pow(w, (2 * st * j * k) as nat);
    let od_scaled = |j: int| wk * od(j);
    assert(st * k >= 0) by (nonlinear_arith)
        requires
            st >= 1,
            k >= 0,
    ;
    // First half: exact.
    let f = |j: int| x[o + j * st] * pow(w, (st * j * k) as nat);
    assert forall|i: int| 0 <= i < len implies #[trigger] ev(i) == f(2 * i) by {
        assert(o + i * (2 * st) == o + (2 * i) * st) by (nonlinear_arith);
        assert(2 * st * i * k == st * (2 * i) * k) by (nonlinear_arith);
    }
    assert forall|i: int| 0 <= i < len implies #[trigger] od_scaled(i) == f(2 * i + 1) by {
        assert(o + st + i * (2 * st) == o + (2 * i + 1) * st) by (nonlinear_arith);
        assert(st * (2 * i + 1) * k == st * k + 2 * st * i * k) by (nonlinear_arith);
        assert(2 * st * i * k >= 0) by (nonlinear_arith)
            requires
                st >= 1,
                i >= 0,
                k >= 0,
        ;
        lemma_pow_adds(w, (st * k) as nat, (2 * st * i * k) as nat);
        let xi = x[o + (2 * i + 1) * st];
        let p = pow(w, (2 * st * i * k) as nat);
        assert(wk * (xi * p) == xi * (wk * p)) by (nonlinear_arith);
    }
    sums::lemma_sum_even_odd(len, f, ev, od_scaled);
    sums::lemma_sum_scale(0, len, wk, od, od_scaled);
    assert(partial(x, w, o, st, 2 * len, k) == sums::sum(0, 2 * len, f));
    assert(partial(x, w, o, 2 * st, len, k) == sums::sum(0, len, ev));
    assert(partial(x, w, o + st, 2 * st, len, k) == sums::sum(0, len, od));
    // Second half: up to congruence.
    let k2 = k + len;
    let h = pow(w, (st * len) as nat);
    let g = |j: int| x[o + j * st] * pow(w, (st * j * k2) as nat);
    let ge = |i: int| g(2 * i);
    let go = |i: int| g(2 * i + 1);
    let od_neg = |i: int| (-wk) * od(i);
    assert(st * len >= 0) by (nonlinear_arith)
        requires
            st >= 1,
            len >= 1,
    ;
    assert forall|i: int| 0 <= i < len implies sums::cong(#[trigger] ge(i), ev(i)) by {
        assert(o + i * (2 * st) == o + (2 * i) * st) by (nonlinear_arith);
        assert(st * (2 * i) * k2 == 2 * st * i * k + (st * len) * (2 * i)) by (nonlinear_arith)
            requires
                k2 == k + len,
        ;
        assert(2 * st * i * k >= 0) by (nonlinear_arith)
            requires
                st >= 1,
                i >= 0,
                k >= 0,
        ;
        assert((st * len) * (2 * i) >= 0) by (nonlinear_arith)
            requires
                st * len >= 0,
                i >= 0,
        ;
        lemma_pow_adds(w, (2 * st * i * k) as nat, ((st * len) * (2 * i)) as nat);
        lemma_pow_multiplies(w, (st * len) as nat, (2 * i) as nat);
        lemma_minus_one_powers(h, i as nat);
        let p = pow(w, (2 * st * i * k) as nat);
        let r = pow(h, (2 * i) as nat);
        let xi = x[o + (2 * i) * st];
        sums::lemma_cong_mul(xi * p, xi * p, r, 1);
        assert(xi * (p * r) == (xi * p) * r) by (nonlinear_arith);
    }
    assert forall|i: int| 0 <= i < len implies sums::cong(#[trigger] go(i), od_neg(i)) by {
        assert(o + st + i * (2 * st) == o + (2 * i + 1) * st) by (nonlinear_arith);
        assert(st * (2 * i + 1) * k2 == (st * k + 2 * st * i * k) + (st * len) * (2 * i + 1))
            by (nonlinear_arith)
            requires
                k2 == k + len,
        ;
        assert(2 * st * i * k >= 0) by (nonlinear_arith)
            requires
                st >= 1,
                i >= 0,
                k >= 0,
        ;
        assert((st * len) * (2 * i + 1) >= 0) by (nonlinear_arith)
            requires
                st * len >= 0,
                i >= 0,
        ;
        lemma_pow_adds(w, (st * k) as nat, (2 * st * i * k) as nat);
        lemma_pow_adds(
            w,
            (st * k + 2 * st * i * k) as nat,
            ((st * len) * (2 * i + 1)) as nat,
        );
        lemma_pow_multiplies(w, (st * len) as nat, (2 * i + 1) as nat);
        lemma_minus_one_powers(h, i as nat);
        let p = pow(w, (2 * st * i * k) as nat);
        let r = pow(h, (2 * i + 1) as nat);
        let xi = x[o + (2 * i + 1) * st];
        sums::lemma_cong_mul(xi * (wk * p), xi * (wk * p), r, -1);
        assert(xi * ((wk * p) * r) == (xi * (wk * p)) * r) by (nonlinear_arith);
        assert((xi * (wk * p)) * -1 == (-wk) * (xi * p)) by (nonlinear_arith);
    }
    sums::lemma_sum_even_odd(len, g, ge, go);
    sums::lemma_sum_cong(0, len, ge, ev);
    sums::lemma_sum_cong(0, len, go, od_neg);
    sums::lemma_sum_scale(0, len, -wk, od, od_neg);
    assert(partial(x, w, o, st, 2 * len, k2) == sums::sum(0, 2 * len, g));
    let s = sums::sum(0, len, od);
    assert((-wk) * s == -(wk * s)) by (nonlinear_arith);
}

// ---------------------------------------------------------------------------
// The published roots of unity.
// ---------------------------------------------------------------------------
/// Each published root squares to the previous one.
pub proof fn lemma_root_square(m: nat)
    requires
        1 <= m <= 27,
    ensures
        sums::cong(
            field::two_adic_root(m) * field::two_adic_root(m),
            field::two_adic_root((m - 1) as nat),
        ),
{
    reveal(field::two_adic_root);
    if m == 1 {
        assert(2013265920 * 2013265920 - 1 == 2013265921 * 2013265919);
    } else if m == 2 {
        assert(1728404513 * 1728404513 - 2013265920 == 2013265921 * 1483848769);
    } else if m == 3 {
        assert(1592366214 * 1592366214 - 1728404513 == 2013265921 * 1259461123);
    } else if m == 4 {
        assert(196396260 * 196396260 - 1592366214 == 2013265921 * 19158666);
    } else if m == 5 {
        assert(760005850 * 760005850 - 196396260 == 2013265921 * 286901440);
    } else if m == 6 {
        assert(1721589904 * 1721589904 - 760005850 == 2013265921 * 1472171046);
    } else if m == 7 {
        assert(397765732 * 397765732 - 1721589904 == 2013265921 * 78587520);
    } else if m == 8 {
        assert(1732600167 * 1732600167 - 397765732 == 2013265921 * 1491061517);
    } else if m == 9 {
        assert(1753498361 * 1753498361 - 1732600167 == 2013265921 * 1527248074);
    } else if m == 10 {
        assert(341742893 * 341742893 - 1753498361 == 2013265921 * 58009328);
    } else if m == 11 {
        assert(1340477990 * 1340477990 - 341742893 == 2013265921 * 892520567);
    } else if m == 12 {
        assert(1282623253 * 1282623253 - 1340477990 == 2013265921 * 817141139);
    } else if m == 13 {
        assert(298008106 * 298008106 - 1282623253 == 2013265921 * 44111823);
    } else if m == 14 {
        assert(1657000625 * 1657000625 - 298008106 == 2013265921 * 1363779639);
    } else if m == 15 {
        assert(2009781145 * 2009781145 - 1657000625 == 2013265921 * 2006302400);
    } else if m == 16 {
        assert(1421947380 * 1421947380 - 2009781145 == 2013265921 * 1004305655);
    } else if m == 17 {
        assert(1286330022 * 1286330022 - 1421947380 == 2013265921 * 821871024);
    } else if m == 18 {
        assert(1559589183 * 1559589183 - 1286330022 == 2013265921 * 1208145627);
    } else if m == 19 {
        assert(1049899240 * 1049899240 - 1559589183 == 2013265921 * 547512577);
    } else if m == 20 {
        assert(195061667 * 195061667 - 1049899240 == 2013265921 * 18899169);
    } else if m == 21 {
        assert(414040701 * 414040701 - 195061667 == 2013265921 * 85150054);
    } else if m == 22 {
        assert(570250684 * 570250684 - 414040701 == 2013265921 * 161521555);
    } else if m == 23 {
        assert(1267047229 * 1267047229 - 570250684 == 2013265921 * 797415117);
    } else if m == 24 {
        assert(1003846038 * 1003846038 - 1267047229 == 2013265921 * 500533415);
    } else if m == 25 {
        assert(1149491290 * 1149491290 - 1003846038 == 2013265921 * 656311822);
    } else if m == 26 {
        assert(975630072 * 975630072 - 1149491290 == 2013265921 * 472791014);
    } else if m == 27 {
        assert(440564289 * 440564289 - 975630072 == 2013265921 * 96408969);
    }
}

/// The published root of order `2^m` has `w^(2^(m-1)) = -1`.
pub proof fn lemma_root_half_power(m: nat)
    requires
        1 <= m <= 27,
    ensures
        sums::cong(pow(field::two_adic_root(m), pow2((m - 1) as nat)), -1),
    decreases m,
{
    let w = field::two_adic_root(m);
    if m == 1 {
        lemma2_to64();
        reveal(pow);
        assert(pow(w, 1) == w * pow(w, 0));
        field::lemma_two_adic_root_range(1);
    } else {
        let h = pow2((m - 2) as nat);
        lemma_pow2_step((m - 2) as nat);
        lemma_root_half_power((m - 1) as nat);
        lemma_root_square(m);
        let v = field::two_adic_root((m - 1) as nat);
        reveal(pow);
        assert(pow(w, 0) == 1);
        assert(pow(w, 1) == w * pow(w, 0));
        assert(pow(w, 2) == w * pow(w, 1));
        lemma_pow_multiplies(w, 2, h);
        sums::lemma_cong_pow(w * w, v, h);
    }
}

/// `w` is a primitive root of unity of order `2^m`.
pub open spec fn is_root(w: int, m: nat) -> bool {
    if m == 0 {
        sums::cong(w, 1)
    } else {
        sums::cong(pow(w, pow2((m - 1) as nat)), -1)
    }
}

pub proof fn lemma_published_root(m: nat)
    requires
        m <= 27,
    ensures
        is_root(field::two_adic_root(m), m),
{
    if m > 0 {
        lemma_root_half_power(m);
    } else {
        field::lemma_two_adic_root_range(0);
    }
}

/// A root of order `2^m` has `w^(2^m) = 1`.
pub proof fn lemma_root_full_power(w: int, m: nat)
    requires
        is_root(w, m),
    ensures
        sums::cong(pow(w, pow2(m)), 1),
{
    if m == 0 {
        lemma2_to64();
        reveal(pow);
        assert(pow(w, 1) == w * pow(w, 0));
    } else {
        let h = pow2((m - 1) as nat);
        lemma_pow2_step((m - 1) as nat);
        lemma_pow_adds(w, h, h);
        let p = pow(w, h);
        sums::lemma_cong_mul(p, -1, p, -1);
    }
}

/// Exponents matter only modulo the order.
pub proof fn lemma_root_reduce(w: int, m: nat, d: nat)
    requires
        is_root(w, m),
    ensures
        sums::cong(pow(w, d), pow(w, (d as int % pow2(m) as int) as nat)),
{
    let n = pow2(m);
    lemma_pow2_pos(m);
    let k = d as int / n as int;
    let r = d as int % n as int;
    assert(d == n * k + r && 0 <= r < n && k >= 0) by {
        vstd::arithmetic::div_mod::lemma_fundamental_div_mod(d as int, n as int);
        vstd::arithmetic::div_mod::lemma_div_pos_is_pos(d as int, n as int);
        vstd::arithmetic::div_mod::lemma_mod_bound(d as int, n as int);
    }
    assert(n * k >= 0) by (nonlinear_arith)
        requires
            n >= 0,
            k >= 0,
    ;
    lemma_pow_adds(w, (n * k) as nat, r as nat);
    lemma_pow_multiplies(w, n, k as nat);
    lemma_root_full_power(w, m);
    sums::lemma_cong_pow(pow(w, n), 1, k as nat);
    lemma1_pow(k as nat);
    sums::lemma_cong_mul(pow(w, (n * k) as nat), 1, pow(w, r as nat), pow(w, r as nat));
}

/// `1^d + w^d + w^(2d) + ...`, `2^m` terms.
pub open spec fn root_sum(w: int, m: nat, d: int) -> int {
    sums::sum(0, pow2(m) as int, |j: int| pow(w, (d * j) as nat))
}

/// The powers of a root of order `2^m` sum to zero, unless the root is raised
/// to a multiple of its order.
proof fn lemma_orthogonal_small(w: int, m: nat, d: int)
    requires
        is_root(w, m),
        0 < d < pow2(m),
    ensures
        sums::cong(root_sum(w, m, d), 0),
    decreases m,
{
    if m == 0 {
        lemma2_to64();
    } else {
        let h = pow2((m - 1) as nat) as int;
        lemma_pow2_step((m - 1) as nat);
        let f = |j: int| pow(w, (d * j) as nat);
        let hi = |j: int| f(j + h);
        sums::lemma_sum_split(0, h, 2 * h, f);
        sums::lemma_sum_shift(0, h, h, f, hi);
        let p = pow(w, h as nat);
        assert forall|j: int| 0 <= j < h implies sums::cong(
            #[trigger] hi(j),
            f(j) * pow(p, d as nat),
        ) by {
            assert(d * (j + h) == d * j + h * d) by (nonlinear_arith);
            assert(d * j >= 0) by (nonlinear_arith)
                requires
                    d > 0,
                    j >= 0,
            ;
            assert(h * d >= 0) by (nonlinear_arith)
                requires
                    d > 0,
                    h >= 0,
            ;
            lemma_pow_adds(w, (d * j) as nat, (h * d) as nat);
            lemma_pow_multiplies(w, h as nat, d as nat);
        }
        if d % 2 == 1 {
            lemma_minus_one_powers(p, (d / 2) as nat);
            assert(2 * (d / 2) as nat + 1 == d as nat);
            let neg = |j: int| (-1) * f(j);
            assert forall|j: int| 0 <= j < h implies sums::cong(#[trigger] hi(j), neg(j)) by {
                sums::lemma_cong_mul(f(j), f(j), pow(p, d as nat), -1);
            }
            sums::lemma_sum_cong(0, h, hi, neg);
            sums::lemma_sum_scale(0, h, -1, f, neg);
        } else {
            lemma_minus_one_powers(p, (d / 2) as nat);
            assert(2 * (d / 2) as nat == d as nat);
            assert forall|j: int| 0 <= j < h implies sums::cong(#[trigger] hi(j), f(j)) by {
                sums::lemma_cong_mul(f(j), f(j), pow(p, d as nat), 1);
            }
            sums::lemma_sum_cong(0, h, hi, f);
            let w2 = pow(w, 2);
            let e = d / 2;
            let g = |j: int| pow(w2, (e * j) as nat);
            assert forall|j: int| 0 <= j < h implies #[trigger] f(j) == g(j) by {
                assert(d * j == 2 * (e * j)) by (nonlinear_arith)
                    requires
                        d == 2 * e,
                ;
                assert(e * j >= 0) by (nonlinear_arith)
                    requires
                        e >= 0,
                        j >= 0,
                ;
                lemma_pow_multiplies(w, 2, (e * j) as nat);
            }
            sums::lemma_sum_eq(0, h, f, g);
            assert(is_root(w2, (m - 1) as nat)) by {
                if m == 1 {
                    lemma2_to64();
                    assert(h == 1 && d < 2 && d % 2 == 0);
                } else {
                    let h2 = pow2((m - 2) as nat);
                    lemma_pow2_step((m - 2) as nat);
                    lemma_pow_multiplies(w, 2, h2);
                }
            }
            lemma_orthogonal_small(w2, (m - 1) as nat, e);
            assert(sums::sum(0, h, g) == root_sum(w2, (m - 1) as nat, e));
        }
    }
}

/// Orthogonality of the roots of unity.
pub proof fn lemma_orthogonal(w: int, m: nat, d: int)
    requires
        is_root(w, m),
        0 <= d,
    ensures
        d % pow2(m) as int == 0 ==> sums::cong(root_sum(w, m, d), pow2(m) as int),
        d % pow2(m) as int != 0 ==> sums::cong(root_sum(w, m, d), 0),
{
    let n = pow2(m) as int;
    lemma_pow2_pos(m);
    let r = d % n;
    vstd::arithmetic::div_mod::lemma_mod_bound(d, n);
    let f = |j: int| pow(w, (d * j) as nat);
    let g = |j: int| pow(w, (r * j) as nat);
    assert forall|j: int| 0 <= j < n implies sums::cong(#[trigger] f(j), g(j)) by {
        assert(d * j >= 0 && r * j >= 0) by (nonlinear_arith)
            requires
                d >= 0,
                r >= 0,
                j >= 0,
        ;
        lemma_root_reduce(w, m, (d * j) as nat);
        lemma_root_reduce(w, m, (r * j) as nat);
        vstd::arithmetic::div_mod::lemma_mul_mod_noop_left(d, j, n);
    }
    sums::lemma_sum_cong(0, n, f, g);
    if r == 0 {
        let ones = |j: int| 1int;
        assert forall|j: int| 0 <= j < n implies #[trigger] g(j) == ones(j) by {
            assert(0 * j == 0);
            reveal(pow);
        }
        sums::lemma_sum_eq(0, n, g, ones);
        lemma_sum_ones(n);
    } else {
        lemma_orthogonal_small(w, m, r);
        assert(sums::sum(0, n, g) == root_sum(w, m, r));
    }
}

proof fn lemma_sum_ones(n: int)
    requires
        n >= 0,
    ensures
        sums::sum(0, n, |j: int| 1int) == n,
    decreases n,
{
    if n > 0 {
        lemma_sum_ones(n - 1);
    }
}

// ---------------------------------------------------------------------------
// The inverse transform.
// ---------------------------------------------------------------------------
/// Congruent inputs have congruent transforms.
pub proof fn lemma_dft_cong(x: Seq<int>, y: Seq<int>, w: int, v: int, k: int)
    requires
        poly::cong_seq(x, y),
        sums::cong(w, v),
        k >= 0,
    ensures
        sums::cong(dft(x, w, k), dft(y, v, k)),
{
    let f = |j: int| x[j] * pow(w, (j * k) as nat);
    let g = |j: int| y[j] * pow(v, (j * k) as nat);
    assert forall|j: int| 0 <= j < x.len() implies sums::cong(#[trigger] f(j), g(j)) by {
        sums::lemma_cong_pow(w, v, (j * k) as nat);
        assert(sums::cong(x[j], y[j]));
        sums::lemma_cong_mul(x[j], y[j], pow(w, (j * k) as nat), pow(v, (j * k) as nat));
    }
    sums::lemma_sum_cong(0, x.len() as int, f, g);
}

/// Transforming with a root and then with its inverse multiplies by the size.
pub proof fn lemma_inversion(x: Seq<int>, y: Seq<int>, w: int, m: nat, k: int)
    requires
        is_root(w, m),
        x.len() == pow2(m),
        y.len() == pow2(m),
        0 <= k < pow2(m),
        forall|j: int| 0 <= j < y.len() ==> sums::cong(#[trigger] y[j], dft(x, w, j)),
    ensures
        sums::cong(dft(y, pow(w, (pow2(m) - 1) as nat), k), pow2(m) * x[k]),
{
    let n = pow2(m) as int;
    lemma_pow2_pos(m);
    let v = pow(w, (n - 1) as nat);
    let t = Seq::new(n as nat, |j: int| dft(x, w, j));
    assert forall|j: int| 0 <= j < n implies sums::cong(#[trigger] y[j], t[j]) by {}
    lemma_dft_cong(y, t, v, v, k);
    let f = |j: int, i: int| x[i] * pow(w, ((i + (n - 1) * k) * j) as nat);
    let outer = |j: int| t[j] * pow(v, (j * k) as nat);
    let rows = |j: int| sums::sum(0, n, |i: int| f(j, i));
    assert forall|j: int| 0 <= j < n implies #[trigger] outer(j) == rows(j) by {
        let p = pow(v, (j * k) as nat);
        let inner = |i: int| x[i] * pow(w, (i * j) as nat);
        let fj = |i: int| f(j, i);
        assert(j * k >= 0) by (nonlinear_arith)
            requires
                j >= 0,
                k >= 0,
        ;
        assert forall|i: int| 0 <= i < n implies #[trigger] fj(i) == p * inner(i) by {
            assert(i * j >= 0) by (nonlinear_arith)
                requires
                    i >= 0,
                    j >= 0,
            ;
            assert((n - 1) * (j * k) >= 0) by (nonlinear_arith)
                requires
                    n >= 1,
                    j * k >= 0,
            ;
            assert((i + (n - 1) * k) * j == i * j + (n - 1) * (j * k)) by (nonlinear_arith);
            lemma_pow_adds(w, (i * j) as nat, ((n - 1) * (j * k)) as nat);
            lemma_pow_multiplies(w, (n - 1) as nat, (j * k) as nat);
            let xi = x[i];
            let s = pow(w, (i * j) as nat);
            assert(xi * (s * p) == p * (xi * s)) by (nonlinear_arith);
        }
        sums::lemma_sum_scale(0, n, p, inner, fj);
        let ti = t[j];
        assert(ti * p == p * ti) by (nonlinear_arith);
    }
    sums::lemma_sum_eq(0, n, outer, rows);
    sums::lemma_sum_swap(0, n, 0, n, f);
    let cols = |i: int| sums::sum(0, n, |j: int| f(j, i));
    let target = |i: int| if i == k { n * x[k] } else { 0 };
    assert forall|i: int| 0 <= i < n implies sums::cong(#[trigger] cols(i), target(i)) by {
        let d = i + (n - 1) * k;
        assert((n - 1) * k >= 0) by (nonlinear_arith)
            requires
                n >= 1,
                k >= 0,
        ;
        sums::lemma_sum_scale(
            0,
            n,
            x[i],
            |j: int| pow(w, (d * j) as nat),
            |j: int| f(j, i),
        );
        assert(cols(i) == x[i] * root_sum(w, m, d));
        lemma_orthogonal(w, m, d);
        assert(d == (i - k) + n * k) by (nonlinear_arith)
            requires
                d == i + (n - 1) * k,
        ;
        vstd::arithmetic::div_mod::lemma_mod_multiples_vanish(k, i - k, n);
        if i == k {
            assert(0int % n == 0);
            sums::lemma_cong_mul(x[i], x[i], root_sum(w, m, d), n);
            assert(x[k] * n == n * x[k]) by (nonlinear_arith);
        } else {
            assert((i - k) % n != 0) by {
                if i > k {
                    vstd::arithmetic::div_mod::lemma_small_mod((i - k) as nat, n as nat);
                } else {
                    vstd::arithmetic::div_mod::lemma_mod_add_multiples_vanish(i - k, n);
                    vstd::arithmetic::div_mod::lemma_small_mod((i - k + n) as nat, n as nat);
                }
            }
            sums::lemma_cong_mul(x[i], x[i], root_sum(w, m, d), 0);
            assert(x[i] * 0 == 0);
        }
    }
    sums::lemma_sum_cong(0, n, cols, target);
    sums::lemma_sum_single(0, n, k, target);
}

// ---------------------------------------------------------------------------
// Products.
// ---------------------------------------------------------------------------
proof fn lemma_ext_pow_of(u: int, e: nat)
    ensures
        Ext::of(u).pow(e) == Ext::of(pow(u, e)),
    decreases e,
{
    reveal(pow);
    if e > 0 {
        lemma_ext_pow_of(u, (e - 1) as nat);
        ext::lemma_times_of(Ext::of(pow(u, (e - 1) as nat)), u);
    }
}

proof fn lemma_esum_of(hi: int, f: spec_fn(int) -> int, h: spec_fn(int) -> Ext)
    requires
        forall|i: int| 0 <= i < hi ==> #[trigger] h(i) == Ext::of(f(i)),
    ensures
        ext::esum(0, hi, h) == Ext::of(sums::sum(0, hi, f)),
    decreases hi,
{
    if hi > 0 {
        lemma_esum_of(hi - 1, f, h);
        assert(h(hi - 1) == Ext::of(f(hi - 1)));
    }
}

/// A transform coefficient is a polynomial value.
pub proof fn lemma_dft_eval(x: Seq<int>, w: int, k: int)
    requires
        k >= 0,
    ensures
        poly::eval(x, Ext::of(pow(w, k as nat))) == Ext::of(dft(x, w, k)),
{
    let u = pow(w, k as nat);
    let z = Ext::of(u);
    let f = |j: int| x[j] * pow(w, (j * k) as nat);
    let h = |j: int| z.pow(j as nat).scaled(x[j]);
    assert forall|j: int| 0 <= j < x.len() implies #[trigger] h(j) == Ext::of(f(j)) by {
        lemma_ext_pow_of(u, j as nat);
        lemma_pow_multiplies(w, k as nat, j as nat);
        assert(k * j == j * k) by (nonlinear_arith);
    }
    lemma_esum_of(x.len() as int, f, h);
}

/// `x` followed by zeros.
pub open spec fn padded(x: Seq<int>, len: nat) -> Seq<int> {
    Seq::new(len, |i: int| poly::at(x, i))
}

/// Padding leaves the transform as it is.
pub proof fn lemma_dft_padded(x: Seq<int>, len: nat, w: int, k: int)
    requires
        x.len() <= len,
    ensures
        dft(padded(x, len), w, k) == dft(x, w, k),
{
    let p = padded(x, len);
    let f = |j: int| p[j] * pow(w, (j * k) as nat);
    let g = |j: int| x[j] * pow(w, (j * k) as nat);
    sums::lemma_sum_split(0, x.len() as int, len as int, f);
    sums::lemma_sum_eq(0, x.len() as int, f, g);
    assert forall|j: int| x.len() <= j < len implies #[trigger] f(j) == 0 by {
        let t = pow(w, (j * k) as nat);
        assert(0 * t == 0);
    }
    sums::lemma_sum_zero(x.len() as int, len as int, f);
}

/// The transform of a product is the pointwise product of the transforms.
pub proof fn lemma_dft_product(a: Seq<int>, b: Seq<int>, w: int, k: int)
    requires
        k >= 0,
    ensures
        dft(poly::product(a, b), w, k) == dft(a, w, k) * dft(b, w, k),
{
    let z = Ext::of(pow(w, k as nat));
    lemma_dft_eval(a, w, k);
    lemma_dft_eval(b, w, k);
    lemma_dft_eval(poly::product(a, b), w, k);
    poly::lemma_eval_product(a, b, z);
    ext::lemma_times_of(Ext::of(dft(a, w, k)), dft(b, w, k));
    let s = dft(a, w, k);
    let t = dft(b, w, k);
    assert(s * t == t * s) by (nonlinear_arith);
}

} // verus!
