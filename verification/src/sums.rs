//! Finite integer sums and congruence modulo `q`, the vocabulary in which the
//! library's contracts are stated.

use crate::field;
use vstd::arithmetic::power::*;
use vstd::prelude::*;

verus! {

/// `a` and `b` are congruent modulo `q`.
pub open spec fn cong(a: int, b: int) -> bool {
    (a - b) % field::q() == 0
}

/// `f(lo) + f(lo + 1) + ... + f(hi - 1)`.
pub open spec fn sum(lo: int, hi: int, f: spec_fn(int) -> int) -> int
    decreases hi - lo,
{
    if hi <= lo {
        0
    } else {
        sum(lo, hi - 1, f) + f(hi - 1)
    }
}

/// Absolute value.
pub open spec fn abs(x: int) -> int {
    if x < 0 {
        -x
    } else {
        x
    }
}

// ---------------------------------------------------------------------------
// Congruence.
// ---------------------------------------------------------------------------
pub proof fn lemma_cong_mod(a: int)
    ensures
        cong(a % field::q(), a),
        cong(a, a % field::q()),
{
}

pub proof fn lemma_cong_eq(a: int, b: int)
    ensures
        cong(a, b) <==> a % field::q() == b % field::q(),
{
}

pub proof fn lemma_cong_trans(a: int, b: int, c: int)
    requires
        cong(a, b),
        cong(b, c),
    ensures
        cong(a, c),
        cong(c, a),
{
}

pub proof fn lemma_mod_add2(a: int, b: int)
    ensures
        (a % field::q() + b % field::q()) % field::q() == (a + b) % field::q(),
{
}

pub proof fn lemma_mod_sub2(a: int, b: int)
    ensures
        (a % field::q() - b % field::q()) % field::q() == (a - b) % field::q(),
{
}

pub proof fn lemma_mod_add3(a: int, b: int, c: int)
    ensures
        ((a % field::q() + b % field::q()) % field::q() + c % field::q()) % field::q() == (a + b
            + c) % field::q(),
{
    lemma_mod_add2(a, b);
    lemma_mod_add2(a + b, c);
}

pub proof fn lemma_cong_witness(a: int, b: int) -> (k: int)
    requires
        cong(a, b),
    ensures
        a == b + field::q() * k,
{
    (a - b) / field::q()
}

pub proof fn lemma_cong_from_witness(a: int, b: int, k: int)
    requires
        a == b + field::q() * k,
    ensures
        cong(a, b),
{
}

pub proof fn lemma_cong_mul(a: int, b: int, c: int, d: int)
    requires
        cong(a, b),
        cong(c, d),
    ensures
        cong(a * c, b * d),
{
    let k = lemma_cong_witness(a, b);
    let l = lemma_cong_witness(c, d);
    let w = k * d + b * l + field::q() * (k * l);
    assert(a * c == b * d + 2013265921 * w) by (nonlinear_arith)
        requires
            a == b + 2013265921 * k,
            c == d + 2013265921 * l,
            w == k * d + b * l + 2013265921 * (k * l),
    ;
    lemma_cong_from_witness(a * c, b * d, w);
}

pub proof fn lemma_cong_pow(a: int, b: int, e: nat)
    requires
        cong(a, b),
    ensures
        cong(pow(a, e), pow(b, e)),
    decreases e,
{
    reveal(pow);
    if e > 0 {
        lemma_cong_pow(a, b, (e - 1) as nat);
        lemma_cong_mul(a, b, pow(a, (e - 1) as nat), pow(b, (e - 1) as nat));
    }
}

// ---------------------------------------------------------------------------
// Sums.
// ---------------------------------------------------------------------------
pub proof fn lemma_sum_eq(lo: int, hi: int, f: spec_fn(int) -> int, g: spec_fn(int) -> int)
    requires
        forall|i: int| lo <= i < hi ==> #[trigger] f(i) == g(i),
    ensures
        sum(lo, hi, f) == sum(lo, hi, g),
    decreases hi - lo,
{
    if lo < hi {
        lemma_sum_eq(lo, hi - 1, f, g);
        assert(f(hi - 1) == g(hi - 1));
    }
}

pub proof fn lemma_sum_cong(lo: int, hi: int, f: spec_fn(int) -> int, g: spec_fn(int) -> int)
    requires
        forall|i: int| lo <= i < hi ==> cong(#[trigger] f(i), g(i)),
    ensures
        cong(sum(lo, hi, f), sum(lo, hi, g)),
    decreases hi - lo,
{
    if lo < hi {
        lemma_sum_cong(lo, hi - 1, f, g);
        assert(cong(f(hi - 1), g(hi - 1)));
    }
}

pub proof fn lemma_sum_add(
    lo: int,
    hi: int,
    f: spec_fn(int) -> int,
    g: spec_fn(int) -> int,
    h: spec_fn(int) -> int,
)
    requires
        forall|i: int| lo <= i < hi ==> #[trigger] h(i) == f(i) + g(i),
    ensures
        sum(lo, hi, h) == sum(lo, hi, f) + sum(lo, hi, g),
    decreases hi - lo,
{
    if lo < hi {
        lemma_sum_add(lo, hi - 1, f, g, h);
        assert(h(hi - 1) == f(hi - 1) + g(hi - 1));
    }
}

pub proof fn lemma_sum_scale(
    lo: int,
    hi: int,
    c: int,
    f: spec_fn(int) -> int,
    h: spec_fn(int) -> int,
)
    requires
        forall|i: int| lo <= i < hi ==> #[trigger] h(i) == c * f(i),
    ensures
        sum(lo, hi, h) == c * sum(lo, hi, f),
    decreases hi - lo,
{
    if lo < hi {
        lemma_sum_scale(lo, hi - 1, c, f, h);
        assert(h(hi - 1) == c * f(hi - 1));
        let s = sum(lo, hi - 1, f);
        let t = f(hi - 1);
        assert(c * (s + t) == c * s + c * t) by (nonlinear_arith);
    } else {
        assert(c * 0 == 0) by (nonlinear_arith);
    }
}

pub proof fn lemma_sum_zero(lo: int, hi: int, f: spec_fn(int) -> int)
    requires
        forall|i: int| lo <= i < hi ==> #[trigger] f(i) == 0,
    ensures
        sum(lo, hi, f) == 0,
    decreases hi - lo,
{
    if lo < hi {
        lemma_sum_zero(lo, hi - 1, f);
        assert(f(hi - 1) == 0);
    }
}

pub proof fn lemma_sum_split(lo: int, mid: int, hi: int, f: spec_fn(int) -> int)
    requires
        lo <= mid <= hi,
    ensures
        sum(lo, hi, f) == sum(lo, mid, f) + sum(mid, hi, f),
    decreases hi - mid,
{
    if mid < hi {
        lemma_sum_split(lo, mid, hi - 1, f);
    }
}

/// A sum with one nonzero term.
pub proof fn lemma_sum_single(lo: int, hi: int, k: int, f: spec_fn(int) -> int)
    requires
        lo <= k < hi,
        forall|i: int| lo <= i < hi && i != k ==> #[trigger] f(i) == 0,
    ensures
        sum(lo, hi, f) == f(k),
{
    lemma_sum_split(lo, k, hi, f);
    lemma_sum_split(k, k + 1, hi, f);
    lemma_sum_zero(lo, k, f);
    lemma_sum_zero(k + 1, hi, f);
    assert(sum(k, k, f) == 0);
    assert(sum(k, k + 1, f) == sum(k, k, f) + f(k));
}

pub proof fn lemma_sum_shift(
    lo: int,
    hi: int,
    d: int,
    f: spec_fn(int) -> int,
    h: spec_fn(int) -> int,
)
    requires
        forall|i: int| lo <= i < hi ==> #[trigger] h(i) == f(i + d),
    ensures
        sum(lo, hi, h) == sum(lo + d, hi + d, f),
    decreases hi - lo,
{
    if lo < hi {
        lemma_sum_shift(lo, hi - 1, d, f, h);
        assert(h(hi - 1) == f(hi - 1 + d));
    }
}

/// The first term split off.
pub proof fn lemma_sum_first(lo: int, hi: int, f: spec_fn(int) -> int)
    requires
        lo < hi,
    ensures
        sum(lo, hi, f) == f(lo) + sum(lo + 1, hi, f),
{
    lemma_sum_split(lo, lo + 1, hi, f);
    assert(sum(lo, lo, f) == 0);
    assert(sum(lo, lo + 1, f) == sum(lo, lo, f) + f(lo));
}

pub proof fn lemma_sum_reverse(n: int, f: spec_fn(int) -> int, h: spec_fn(int) -> int)
    requires
        0 <= n,
        forall|i: int| 0 <= i < n ==> #[trigger] h(i) == f(n - 1 - i),
    ensures
        sum(0, n, h) == sum(0, n, f),
    decreases n,
{
    if n > 0 {
        let f1 = |i: int| f(i + 1);
        lemma_sum_first(0, n, f);
        lemma_sum_shift(0, n - 1, 1, f, f1);
        assert forall|i: int| 0 <= i < n - 1 implies #[trigger] h(i) == f1(n - 1 - 1 - i) by {}
        lemma_sum_reverse(n - 1, f1, h);
        assert(h(n - 1) == f(n - 1 - (n - 1)));
    }
}

/// Even-indexed and odd-indexed terms summed separately.
pub proof fn lemma_sum_even_odd(
    m: int,
    f: spec_fn(int) -> int,
    e: spec_fn(int) -> int,
    o: spec_fn(int) -> int,
)
    requires
        0 <= m,
        forall|i: int| 0 <= i < m ==> #[trigger] e(i) == f(2 * i),
        forall|i: int| 0 <= i < m ==> #[trigger] o(i) == f(2 * i + 1),
    ensures
        sum(0, 2 * m, f) == sum(0, m, e) + sum(0, m, o),
    decreases m,
{
    if m > 0 {
        lemma_sum_even_odd(m - 1, f, e, o);
        assert(e(m - 1) == f(2 * (m - 1)));
        assert(o(m - 1) == f(2 * (m - 1) + 1));
        assert(sum(0, 2 * m, f) == sum(0, 2 * m - 1, f) + f(2 * m - 1));
        assert(sum(0, 2 * m - 1, f) == sum(0, 2 * m - 2, f) + f(2 * m - 2));
    }
}

/// The order of summation may be exchanged.
pub proof fn lemma_sum_swap(a: int, b: int, c: int, d: int, f: spec_fn(int, int) -> int)
    ensures
        sum(a, b, |i: int| sum(c, d, |j: int| f(i, j))) == sum(
            c,
            d,
            |j: int| sum(a, b, |i: int| f(i, j)),
        ),
    decreases b - a,
{
    let lhs = |i: int| sum(c, d, |j: int| f(i, j));
    let rhs = |j: int| sum(a, b, |i: int| f(i, j));
    if b <= a {
        assert forall|j: int| c <= j < d implies #[trigger] rhs(j) == 0 by {}
        lemma_sum_zero(c, d, rhs);
    } else {
        lemma_sum_swap(a, b - 1, c, d, f);
        let prev = |j: int| sum(a, b - 1, |i: int| f(i, j));
        let last = |j: int| f(b - 1, j);
        assert forall|j: int| c <= j < d implies #[trigger] rhs(j) == prev(j) + last(j) by {}
        lemma_sum_add(c, d, prev, last, rhs);
        assert(lhs(b - 1) == sum(c, d, last));
    }
}

pub proof fn lemma_sum_bound(lo: int, hi: int, bound: int, f: spec_fn(int) -> int)
    requires
        lo <= hi,
        forall|i: int| lo <= i < hi ==> abs(#[trigger] f(i)) <= bound,
    ensures
        abs(sum(lo, hi, f)) <= bound * (hi - lo),
    decreases hi - lo,
{
    if lo < hi {
        lemma_sum_bound(lo, hi - 1, bound, f);
        assert(abs(f(hi - 1)) <= bound);
        assert(bound * (hi - 1 - lo) + bound == bound * (hi - lo)) by (nonlinear_arith);
    } else {
        assert(bound * 0 == 0) by (nonlinear_arith);
    }
}

} // verus!
