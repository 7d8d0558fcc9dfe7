//! Polynomials with integer coefficients, lowest degree first: products,
//! reduction by `X^n + 1` and evaluation.

use crate::ext;
use crate::ext::Ext;
use crate::sums;
use vstd::arithmetic::div_mod::*;
use vstd::prelude::*;

verus! {

/// Coefficient `i` of `a`, zero outside its length.
pub open spec fn at(a: Seq<int>, i: int) -> int {
    if 0 <= i < a.len() {
        a[i]
    } else {
        0
    }
}

/// Coefficient `k` of the product `a * b`.
pub open spec fn conv(a: Seq<int>, b: Seq<int>, k: int) -> int {
    sums::sum(0, b.len() as int, |j: int| b[j] * at(a, k - j))
}

/// The product `a * b`, with `a.len() + b.len()` coefficients.
pub open spec fn product(a: Seq<int>, b: Seq<int>) -> Seq<int> {
    Seq::new(a.len() + b.len(), |k: int| conv(a, b, k))
}

/// Coefficient `m` of `x` continued in both directions by the rule
/// `X^n = -1`.
pub open spec fn wrapped(x: Seq<int>, m: int) -> int {
    if (m / x.len() as int) % 2 == 0 {
        x[m % x.len() as int]
    } else {
        -x[m % x.len() as int]
    }
}

/// Coefficient `k` of the product `x * y` modulo `X^n + 1`.
pub open spec fn nega(x: Seq<int>, y: Seq<int>, k: int) -> int {
    sums::sum(0, y.len() as int, |j: int| y[j] * wrapped(x, k - j))
}

/// All `n` coefficients of the product `x * y` modulo `X^n + 1`.
pub open spec fn nega_seq(x: Seq<int>, y: Seq<int>) -> Seq<int> {
    Seq::new(x.len(), |k: int| nega(x, y, k))
}

/// Coefficient-wise congruence modulo `q`.
pub open spec fn cong_seq(x: Seq<int>, y: Seq<int>) -> bool {
    &&& x.len() == y.len()
    &&& forall|i: int| 0 <= i < x.len() ==> sums::cong(#[trigger] x[i], y[i])
}

/// The value of the polynomial `c` at `z`.
pub open spec fn eval(c: Seq<int>, z: Ext) -> Ext {
    ext::esum(0, c.len() as int, |i: int| z.pow(i as nat).scaled(c[i]))
}

// ---------------------------------------------------------------------------
// Wrapping.
// ---------------------------------------------------------------------------
pub proof fn lemma_wrapped_range(x: Seq<int>, m: int)
    requires
        x.len() > 0,
        -x.len() <= m < x.len(),
    ensures
        m >= 0 ==> wrapped(x, m) == x[m],
        m < 0 ==> wrapped(x, m) == -x[m + x.len()],
{
    let n = x.len() as int;
    if m >= 0 {
        lemma_fundamental_div_mod_converse(m, n, 0, m);
    } else {
        assert(m == n * -1 + (m + n)) by (nonlinear_arith);
        lemma_fundamental_div_mod_converse(m, n, -1, m + n);
    }
}

pub proof fn lemma_wrapped_shift(x: Seq<int>, m: int)
    requires
        x.len() > 0,
    ensures
        wrapped(x, m - x.len()) == -wrapped(x, m),
{
    let n = x.len() as int;
    lemma_div_plus_one(m - n, n);
    lemma_mod_add_multiples_vanish(m - n, n);
}

/// The reduced product continued past its ends is the convolution with the
/// continued factor.
pub proof fn lemma_wrapped_nega(x: Seq<int>, y: Seq<int>, m: int)
    requires
        x.len() > 0,
        -x.len() <= m < x.len(),
    ensures
        wrapped(nega_seq(x, y), m) == sums::sum(
            0,
            y.len() as int,
            |j: int| y[j] * wrapped(x, m - j),
        ),
{
    lemma_wrapped_range(nega_seq(x, y), m);
    if m < 0 {
        let n = x.len() as int;
        let f = |j: int| y[j] * wrapped(x, m + n - j);
        let h = |j: int| y[j] * wrapped(x, m - j);
        assert forall|j: int| 0 <= j < y.len() implies #[trigger] h(j) == (-1) * f(j) by {
            lemma_wrapped_shift(x, m + n - j);
            let v = wrapped(x, m + n - j);
            assert(m + n - j - n == m - j);
            assert(y[j] * (-v) == -1 * (y[j] * v)) by (nonlinear_arith);
        }
        sums::lemma_sum_scale(0, y.len() as int, -1, f, h);
    }
}

/// `(a * s) * r = (a * r) * s` modulo `X^n + 1`.
pub proof fn lemma_nega_exchange(a: Seq<int>, s: Seq<int>, r: Seq<int>, k: int)
    requires
        a.len() > 0,
        s.len() == a.len(),
        r.len() == a.len(),
        0 <= k < a.len(),
    ensures
        nega(nega_seq(a, s), r, k) == nega(nega_seq(a, r), s, k),
{
    let n = a.len() as int;
    let f = |j: int, i: int| r[j] * (s[i] * wrapped(a, k - j - i));
    let g = |i: int, j: int| s[i] * (r[j] * wrapped(a, k - i - j));
    let lhs = |j: int| r[j] * wrapped(nega_seq(a, s), k - j);
    let rhs = |i: int| s[i] * wrapped(nega_seq(a, r), k - i);
    let lf = |j: int| sums::sum(0, n, |i: int| f(j, i));
    let rg = |i: int| sums::sum(0, n, |j: int| g(i, j));
    assert forall|j: int| 0 <= j < n implies #[trigger] lhs(j) == lf(j) by {
        lemma_wrapped_nega(a, s, k - j);
        sums::lemma_sum_scale(
            0,
            n,
            r[j],
            |i: int| s[i] * wrapped(a, k - j - i),
            |i: int| f(j, i),
        );
    }
    assert forall|i: int| 0 <= i < n implies #[trigger] rhs(i) == rg(i) by {
        lemma_wrapped_nega(a, r, k - i);
        sums::lemma_sum_scale(
            0,
            n,
            s[i],
            |j: int| r[j] * wrapped(a, k - i - j),
            |j: int| g(i, j),
        );
    }
    sums::lemma_sum_eq(0, n, lhs, lf);
    sums::lemma_sum_eq(0, n, rhs, rg);
    sums::lemma_sum_swap(0, n, 0, n, f);
    let fs = |i: int| sums::sum(0, n, |j: int| f(j, i));
    assert forall|i: int| 0 <= i < n implies #[trigger] fs(i) == rg(i) by {
        let p = |j: int| f(j, i);
        let w = |j: int| g(i, j);
        assert forall|j: int| 0 <= j < n implies #[trigger] p(j) == w(j) by {
            let v = wrapped(a, k - j - i);
            assert(k - j - i == k - i - j);
            assert(r[j] * (s[i] * v) == s[i] * (r[j] * v)) by (nonlinear_arith);
        }
        sums::lemma_sum_eq(0, n, p, w);
    }
    sums::lemma_sum_eq(0, n, fs, rg);
}

/// The reduced product is linear in its first factor.
pub proof fn lemma_nega_add(x: Seq<int>, y: Seq<int>, z: Seq<int>, s: Seq<int>, k: int)
    requires
        x.len() > 0,
        y.len() == x.len(),
        z.len() == x.len(),
        s.len() == x.len(),
        0 <= k < x.len(),
        forall|i: int| 0 <= i < x.len() ==> #[trigger] z[i] == x[i] + y[i],
    ensures
        nega(z, s, k) == nega(x, s, k) + nega(y, s, k),
{
    let f = |j: int| s[j] * wrapped(x, k - j);
    let g = |j: int| s[j] * wrapped(y, k - j);
    let h = |j: int| s[j] * wrapped(z, k - j);
    assert forall|j: int| 0 <= j < x.len() implies #[trigger] h(j) == f(j) + g(j) by {
        lemma_wrapped_range(x, k - j);
        lemma_wrapped_range(y, k - j);
        lemma_wrapped_range(z, k - j);
        let u = wrapped(x, k - j);
        let v = wrapped(y, k - j);
        assert(s[j] * (u + v) == s[j] * u + s[j] * v) by (nonlinear_arith);
    }
    sums::lemma_sum_add(0, s.len() as int, f, g, h);
}

/// Congruent factors have congruent reduced products.
pub proof fn lemma_nega_cong(x: Seq<int>, y: Seq<int>, s: Seq<int>, t: Seq<int>, k: int)
    requires
        x.len() > 0,
        cong_seq(x, y),
        cong_seq(s, t),
        s.len() == x.len(),
        0 <= k < x.len(),
    ensures
        sums::cong(nega(x, s, k), nega(y, t, k)),
{
    let f = |j: int| s[j] * wrapped(x, k - j);
    let g = |j: int| t[j] * wrapped(y, k - j);
    assert forall|j: int| 0 <= j < x.len() implies sums::cong(#[trigger] f(j), g(j)) by {
        lemma_wrapped_range(x, k - j);
        lemma_wrapped_range(y, k - j);
        assert(sums::cong(s[j], t[j]));
        if k - j >= 0 {
            assert(sums::cong(x[k - j], y[k - j]));
        } else {
            assert(sums::cong(x[k - j + x.len()], y[k - j + x.len()]));
        }
        sums::lemma_cong_mul(s[j], t[j], wrapped(x, k - j), wrapped(y, k - j));
    }
    sums::lemma_sum_cong(0, s.len() as int, f, g);
}

/// The remainder of a product modulo `X^n + 1` is its low half minus its high
/// half.
pub proof fn lemma_nega_split(a: Seq<int>, b: Seq<int>, k: int)
    requires
        a.len() > 0,
        b.len() == a.len(),
        0 <= k < a.len(),
    ensures
        nega(a, b, k) == conv(a, b, k) - conv(a, b, a.len() + k),
{
    let n = a.len() as int;
    let lo = |j: int| b[j] * at(a, k - j);
    let hi = |j: int| b[j] * at(a, n + k - j);
    let w = |j: int| b[j] * wrapped(a, k - j);
    assert forall|j: int| 0 <= j < n implies #[trigger] lo(j) == w(j) + hi(j) by {
        lemma_wrapped_range(a, k - j);
        if k - j >= 0 {
            assert(b[j] * 0 == 0) by (nonlinear_arith);
        } else {
            let v = a[n + k - j];
            assert(k - j + n == n + k - j);
            assert(b[j] * 0 == b[j] * (-v) + b[j] * v) by (nonlinear_arith);
        }
    }
    sums::lemma_sum_add(0, n, w, hi, lo);
}

/// Congruent factors have congruent products.
pub proof fn lemma_conv_cong(p: Seq<int>, p2: Seq<int>, r: Seq<int>, r2: Seq<int>, i: int)
    requires
        cong_seq(p, p2),
        cong_seq(r, r2),
    ensures
        sums::cong(conv(p, r, i), conv(p2, r2, i)),
{
    let f = |j: int| r[j] * at(p, i - j);
    let g = |j: int| r2[j] * at(p2, i - j);
    assert forall|j: int| 0 <= j < r.len() implies sums::cong(#[trigger] f(j), g(j)) by {
        assert(sums::cong(r[j], r2[j]));
        if 0 <= i - j < p.len() {
            assert(sums::cong(p[i - j], p2[i - j]));
        }
        sums::lemma_cong_mul(r[j], r2[j], at(p, i - j), at(p2, i - j));
    }
    sums::lemma_sum_cong(0, r.len() as int, f, g);
}

/// The top coefficient of a product is zero.
pub proof fn lemma_conv_top(a: Seq<int>, b: Seq<int>)
    requires
        a.len() > 0,
        b.len() == a.len(),
    ensures
        conv(a, b, 2 * a.len() - 1) == 0,
{
    let n = a.len() as int;
    let f = |j: int| b[j] * at(a, 2 * n - 1 - j);
    assert forall|j: int| 0 <= j < n implies #[trigger] f(j) == 0 by {
        assert(b[j] * 0 == 0) by (nonlinear_arith);
    }
    sums::lemma_sum_zero(0, n, f);
}

/// `x * y = y * x` modulo `X^n + 1`.
pub proof fn lemma_nega_comm(x: Seq<int>, y: Seq<int>, k: int)
    requires
        x.len() > 0,
        y.len() == x.len(),
        0 <= k < x.len(),
    ensures
        nega(x, y, k) == nega(y, x, k),
{
    let n = x.len() as int;
    let f = |j: int| y[j] * wrapped(x, k - j);
    let g = |i: int| x[i] * wrapped(y, k - i);
    sums::lemma_sum_split(0, k + 1, n, f);
    sums::lemma_sum_split(0, k + 1, n, g);
    assert forall|i: int| 0 <= i < k + 1 implies #[trigger] g(i) == f(k + 1 - 1 - i) by {
        lemma_wrapped_range(y, k - i);
        lemma_wrapped_range(x, k - (k - i));
        assert(x[i] * y[k - i] == y[k - i] * x[i]) by (nonlinear_arith);
    }
    sums::lemma_sum_reverse(k + 1, f, g);
    let m = n - 1 - k;
    let fs = |i: int| f(i + (k + 1));
    let gs = |i: int| g(i + (k + 1));
    sums::lemma_sum_shift(0, m, k + 1, f, fs);
    sums::lemma_sum_shift(0, m, k + 1, g, gs);
    assert forall|i: int| 0 <= i < m implies #[trigger] gs(i) == fs(m - 1 - i) by {
        let u = i + k + 1;
        let v = m - 1 - i + k + 1;
        assert(v == n - 1 - i);
        lemma_wrapped_range(y, k - u);
        lemma_wrapped_range(x, k - v);
        assert(k - u + n == v);
        assert(k - v + n == u);
        assert(x[u] * (-y[v]) == y[v] * (-x[u])) by (nonlinear_arith);
    }
    sums::lemma_sum_reverse(m, fs, gs);
}

// ---------------------------------------------------------------------------
// Evaluation.
// ---------------------------------------------------------------------------
/// Shifting the coefficients of `a` by `j` multiplies its value by `z^j`.
pub proof fn lemma_eval_shift(a: Seq<int>, total: int, j: int, z: Ext)
    requires
        0 <= j,
        a.len() + j <= total,
    ensures
        ext::esum(0, total, |k: int| z.pow(k as nat).scaled(at(a, k - j))) == eval(a, z).times(
            z.pow(j as nat),
        ),
{
    let n = a.len() as int;
    let f = |k: int| z.pow(k as nat).scaled(at(a, k - j));
    ext::lemma_esum_split(0, j, total, f);
    ext::lemma_esum_split(j, j + n, total, f);
    assert forall|k: int| 0 <= k < j implies #[trigger] f(k) == Ext::of(0) by {}
    assert forall|k: int| j + n <= k < total implies #[trigger] f(k) == Ext::of(0) by {}
    ext::lemma_esum_zero(0, j, f);
    ext::lemma_esum_zero(j + n, total, f);
    let e = |i: int| z.pow(i as nat).scaled(a[i]);
    let h = |i: int| f(i + j);
    ext::lemma_esum_shift(0, n, j, f, h);
    let zj = z.pow(j as nat);
    assert forall|i: int| 0 <= i < n implies #[trigger] h(i) == e(i).times(zj) by {
        ext::lemma_pow_add(z, i as nat, j as nat);
        assert((i + j) as nat == i as nat + j as nat);
        ext::lemma_scaled_times(z.pow(i as nat), zj, a[i]);
    }
    ext::lemma_esum_times(0, n, zj, e, h);
}

/// The value of a product is the product of the values.
pub proof fn lemma_eval_product(a: Seq<int>, b: Seq<int>, z: Ext)
    ensures
        eval(product(a, b), z) == eval(a, z).times(eval(b, z)),
{
    let n = b.len() as int;
    let total = (a.len() + b.len()) as int;
    let c = product(a, b);
    let f = |k: int, j: int| z.pow(k as nat).scaled(b[j] * at(a, k - j));
    let lhs = |k: int| z.pow(k as nat).scaled(c[k]);
    let rows = |k: int| ext::esum(0, n, |j: int| f(k, j));
    assert forall|k: int| 0 <= k < total implies #[trigger] lhs(k) == rows(k) by {
        ext::lemma_esum_scalar(
            0,
            n,
            z.pow(k as nat),
            |j: int| b[j] * at(a, k - j),
            |j: int| f(k, j),
        );
    }
    ext::lemma_esum_eq(0, total, lhs, rows);
    ext::lemma_esum_swap(0, total, 0, n, f);
    let av = eval(a, z);
    let cols = |j: int| ext::esum(0, total, |k: int| f(k, j));
    let bterm = |j: int| z.pow(j as nat).scaled(b[j]);
    assert forall|j: int| 0 <= j < n implies #[trigger] cols(j) == bterm(j).times(av) by {
        let zj = z.pow(j as nat);
        let base = |k: int| z.pow(k as nat).scaled(at(a, k - j));
        let fj = |k: int| f(k, j);
        assert forall|k: int| 0 <= k < total implies #[trigger] fj(k) == base(k).times(
            Ext::of(b[j]),
        ) by {
            let p = z.pow(k as nat);
            ext::lemma_scaled_dist(p, p, b[j], at(a, k - j));
            ext::lemma_times_of(base(k), b[j]);
        }
        ext::lemma_esum_times(0, total, Ext::of(b[j]), base, fj);
        lemma_eval_shift(a, total, j, z);
        ext::lemma_times_assoc(av, zj, Ext::of(b[j]));
        ext::lemma_times_of(zj, b[j]);
        ext::lemma_times_comm(av, bterm(j));
    }
    ext::lemma_esum_eq(0, n, cols, |j: int| bterm(j).times(av));
    ext::lemma_esum_times(0, n, av, bterm, |j: int| bterm(j).times(av));
    ext::lemma_times_comm(av, eval(b, z));
}

/// Congruent polynomials have congruent values.
pub proof fn lemma_eval_cong(a: Seq<int>, b: Seq<int>, z: Ext)
    requires
        cong_seq(a, b),
    ensures
        eval(a, z).cong(eval(b, z)),
{
    let f = |i: int| z.pow(i as nat).scaled(a[i]);
    let g = |i: int| z.pow(i as nat).scaled(b[i]);
    assert forall|i: int| 0 <= i < a.len() implies (#[trigger] f(i)).cong(g(i)) by {
        assert(sums::cong(a[i], b[i]));
        ext::lemma_ext_cong_scaled(z.pow(i as nat), z.pow(i as nat), a[i], b[i]);
    }
    ext::lemma_esum_cong(0, a.len() as int, f, g);
}

/// Evaluation is linear.
pub proof fn lemma_eval_add(a: Seq<int>, b: Seq<int>, c: Seq<int>, k: int, z: Ext)
    requires
        a.len() == c.len(),
        b.len() == c.len(),
        forall|i: int| 0 <= i < c.len() ==> #[trigger] c[i] == a[i] + k * b[i],
    ensures
        eval(c, z) == eval(a, z).plus(eval(b, z).scaled(k)),
{
    let f = |i: int| z.pow(i as nat).scaled(a[i]);
    let g = |i: int| z.pow(i as nat).scaled(b[i]);
    let gk = |i: int| g(i).times(Ext::of(k));
    let h = |i: int| z.pow(i as nat).scaled(c[i]);
    assert forall|i: int| 0 <= i < c.len() implies #[trigger] h(i) == f(i).plus(gk(i)) by {
        let p = z.pow(i as nat);
        ext::lemma_scaled_dist(p, p, a[i], k * b[i]);
        ext::lemma_scaled_dist(p, p, k, b[i]);
        ext::lemma_times_of(g(i), k);
    }
    ext::lemma_esum_add(0, c.len() as int, f, gk, h);
    ext::lemma_esum_times(0, c.len() as int, Ext::of(k), g, gk);
    ext::lemma_times_of(eval(b, z), k);
}

/// Horner evaluation of the coefficients from `i` on:
/// `c[i] + z * (c[i + 1] + z * (...))`.
pub open spec fn horner(c: Seq<int>, i: int, z: Ext) -> Ext
    decreases c.len() - i,
{
    if i >= c.len() {
        Ext::of(0)
    } else {
        Ext::of(c[i]).plus(z.times(horner(c, i + 1, z)))
    }
}

proof fn lemma_horner_tail(c: Seq<int>, i: int, z: Ext)
    requires
        0 <= i <= c.len(),
    ensures
        ext::esum(i, c.len() as int, |j: int| z.pow(j as nat).scaled(c[j])) == z.pow(
            i as nat,
        ).times(horner(c, i, z)),
    decreases c.len() - i,
{
    let n = c.len() as int;
    let f = |j: int| z.pow(j as nat).scaled(c[j]);
    let zi = z.pow(i as nat);
    if i == n {
        ext::lemma_times_of(zi, 0);
    } else {
        lemma_horner_tail(c, i + 1, z);
        let rest = horner(c, i + 1, z);
        ext::lemma_esum_split(i, i + 1, n, f);
        assert(ext::esum(i, i, f) == Ext::of(0));
        assert(ext::esum(i, i + 1, f) == ext::esum(i, i, f).plus(f(i)));
        assert(ext::esum(i, i + 1, f) == f(i));
        // z^i * (c + z * rest) = c * z^i + (z^i * z) * rest
        ext::lemma_times_dist(Ext::of(c[i]), z.times(rest), zi);
        ext::lemma_times_of(zi, c[i]);
        ext::lemma_times_assoc(zi, z, rest);
        ext::lemma_times_comm(zi, z);
        assert(z.pow((i + 1) as nat) == z.times(zi));
    }
}

/// Horner's rule computes the value of the polynomial.
pub proof fn lemma_horner_eval(c: Seq<int>, z: Ext)
    ensures
        horner(c, 0, z) == eval(c, z),
{
    lemma_horner_tail(c, 0, z);
    ext::lemma_times_of(horner(c, 0, z), 1);
}

/// Padding with zeros leaves the value as it is.
pub proof fn lemma_eval_padded(c: Seq<int>, d: Seq<int>, z: Ext)
    requires
        c.len() <= d.len(),
        forall|i: int| 0 <= i < d.len() ==> #[trigger] d[i] == at(c, i),
    ensures
        eval(d, z) == eval(c, z),
{
    let f = |i: int| z.pow(i as nat).scaled(c[i]);
    let g = |i: int| z.pow(i as nat).scaled(d[i]);
    let n = c.len() as int;
    ext::lemma_esum_split(0, n, d.len() as int, g);
    assert forall|i: int| 0 <= i < n implies #[trigger] g(i) == f(i) by {
        assert(d[i] == c[i]);
    }
    ext::lemma_esum_eq(0, n, g, f);
    assert forall|i: int| n <= i < d.len() implies #[trigger] g(i) == Ext::of(0) by {
        assert(d[i] == 0);
    }
    ext::lemma_esum_zero(n, d.len() as int, g);
}

} // verus!
