//! The quartic extension of the BabyBear field, in which evaluation challenges
//! are drawn: polynomials in `X` modulo `X^4 - 11`.
//!
//! `Ext` is the extension over the integers, in which contracts are stated;
//! [`Challenge`] is the executable type, whose coefficients are reduced.

use crate::field;
use crate::field::F;
use crate::sums;
use p3_baby_bear::BabyBear;
use p3_field::extension::BinomialExtensionField;
use p3_field::{BasedVectorSpace, PrimeCharacteristicRing, PrimeField32};
use vstd::prelude::*;

verus! {

/// Coefficients, lowest degree first.
pub ghost struct Ext {
    pub c0: int,
    pub c1: int,
    pub c2: int,
    pub c3: int,
}

impl Ext {
    /// The integer `x`.
    pub open spec fn of(x: int) -> Ext {
        Ext { c0: x, c1: 0, c2: 0, c3: 0 }
    }

    pub open spec fn plus(self, y: Ext) -> Ext {
        Ext {
            c0: self.c0 + y.c0,
            c1: self.c1 + y.c1,
            c2: self.c2 + y.c2,
            c3: self.c3 + y.c3,
        }
    }

    pub open spec fn minus(self, y: Ext) -> Ext {
        Ext {
            c0: self.c0 - y.c0,
            c1: self.c1 - y.c1,
            c2: self.c2 - y.c2,
            c3: self.c3 - y.c3,
        }
    }

    pub open spec fn scaled(self, k: int) -> Ext {
        Ext { c0: k * self.c0, c1: k * self.c1, c2: k * self.c2, c3: k * self.c3 }
    }

    pub open spec fn times(self, y: Ext) -> Ext {
        Ext {
            c0: self.c0 * y.c0 + 11 * (self.c1 * y.c3 + self.c2 * y.c2 + self.c3 * y.c1),
            c1: self.c0 * y.c1 + self.c1 * y.c0 + 11 * (self.c2 * y.c3 + self.c3 * y.c2),
            c2: self.c0 * y.c2 + self.c1 * y.c1 + self.c2 * y.c0 + 11 * (self.c3 * y.c3),
            c3: self.c0 * y.c3 + self.c1 * y.c2 + self.c2 * y.c1 + self.c3 * y.c0,
        }
    }

    /// `self^e`.
    pub open spec fn pow(self, e: nat) -> Ext
        decreases e,
    {
        if e == 0 {
            Ext::of(1)
        } else {
            self.times(self.pow((e - 1) as nat))
        }
    }

    /// Every coefficient reduced modulo `q`.
    pub open spec fn reduced(self) -> Ext {
        Ext {
            c0: self.c0 % field::q(),
            c1: self.c1 % field::q(),
            c2: self.c2 % field::q(),
            c3: self.c3 % field::q(),
        }
    }

    /// Congruence modulo `q`, coefficient by coefficient.
    pub open spec fn cong(self, y: Ext) -> bool {
        &&& sums::cong(self.c0, y.c0)
        &&& sums::cong(self.c1, y.c1)
        &&& sums::cong(self.c2, y.c2)
        &&& sums::cong(self.c3, y.c3)
    }
}

/// `f(lo) + f(lo + 1) + ... + f(hi - 1)` in the extension.
pub open spec fn esum(lo: int, hi: int, f: spec_fn(int) -> Ext) -> Ext
    decreases hi - lo,
{
    if hi <= lo {
        Ext::of(0)
    } else {
        esum(lo, hi - 1, f).plus(f(hi - 1))
    }
}

// ---------------------------------------------------------------------------
// Ring laws.
// ---------------------------------------------------------------------------
pub proof fn lemma_times_comm(x: Ext, y: Ext)
    ensures
        x.times(y) == y.times(x),
{
    lemma_mul_comm_all(x, y);
}

proof fn lemma_mul_comm_all(x: Ext, y: Ext)
    ensures
        x.c0 * y.c0 == y.c0 * x.c0,
        x.c0 * y.c1 == y.c1 * x.c0,
        x.c0 * y.c2 == y.c2 * x.c0,
        x.c0 * y.c3 == y.c3 * x.c0,
        x.c1 * y.c0 == y.c0 * x.c1,
        x.c1 * y.c1 == y.c1 * x.c1,
        x.c1 * y.c2 == y.c2 * x.c1,
        x.c1 * y.c3 == y.c3 * x.c1,
        x.c2 * y.c0 == y.c0 * x.c2,
        x.c2 * y.c1 == y.c1 * x.c2,
        x.c2 * y.c2 == y.c2 * x.c2,
        x.c2 * y.c3 == y.c3 * x.c2,
        x.c3 * y.c0 == y.c0 * x.c3,
        x.c3 * y.c1 == y.c1 * x.c3,
        x.c3 * y.c2 == y.c2 * x.c3,
        x.c3 * y.c3 == y.c3 * x.c3,
{
    broadcast use vstd::arithmetic::mul::lemma_mul_is_commutative;

}

proof fn lemma_assoc_row(a: int, b: int, z: Ext)
    ensures
        a * (b * z.c0) == (a * b) * z.c0,
        a * (b * z.c1) == (a * b) * z.c1,
        a * (b * z.c2) == (a * b) * z.c2,
        a * (b * z.c3) == (a * b) * z.c3,
{
    vstd::arithmetic::mul::lemma_mul_is_associative(a, b, z.c0);
    vstd::arithmetic::mul::lemma_mul_is_associative(a, b, z.c1);
    vstd::arithmetic::mul::lemma_mul_is_associative(a, b, z.c2);
    vstd::arithmetic::mul::lemma_mul_is_associative(a, b, z.c3);
}

proof fn lemma_dist4(k: int, s: int, t: int, u: int, v: int)
    by (nonlinear_arith)
    ensures
        k * (s + 11 * (t + u + v)) == k * s + 11 * (k * t + k * u + k * v),
        k * (s + t + 11 * (u + v)) == k * s + k * t + 11 * (k * u + k * v),
        k * (s + t + u + 11 * v) == k * s + k * t + k * u + 11 * (k * v),
        k * (s + t + u + v) == k * s + k * t + k * u + k * v,
        (s + 11 * (t + u + v)) * k == s * k + 11 * (t * k + u * k + v * k),
        (s + t + 11 * (u + v)) * k == s * k + t * k + 11 * (u * k + v * k),
        (s + t + u + 11 * v) * k == s * k + t * k + u * k + 11 * (v * k),
        (s + t + u + v) * k == s * k + t * k + u * k + v * k,
{
}

/// The coefficients of `k * (y * z)`, expanded.
proof fn lemma_left_expand(k: int, y: Ext, z: Ext)
    ensures
        k * y.times(z).c0 == (k * y.c0) * z.c0 + 11 * ((k * y.c1) * z.c3 + (k * y.c2) * z.c2 + (k
            * y.c3) * z.c1),
        k * y.times(z).c1 == (k * y.c0) * z.c1 + (k * y.c1) * z.c0 + 11 * ((k * y.c2) * z.c3 + (k
            * y.c3) * z.c2),
        k * y.times(z).c2 == (k * y.c0) * z.c2 + (k * y.c1) * z.c1 + (k * y.c2) * z.c0 + 11 * ((k
            * y.c3) * z.c3),
        k * y.times(z).c3 == (k * y.c0) * z.c3 + (k * y.c1) * z.c2 + (k * y.c2) * z.c1 + (k * y.c3)
            * z.c0,
{
    lemma_assoc_row(k, y.c0, z);
    lemma_assoc_row(k, y.c1, z);
    lemma_assoc_row(k, y.c2, z);
    lemma_assoc_row(k, y.c3, z);
    lemma_dist4(k, y.c0 * z.c0, y.c1 * z.c3, y.c2 * z.c2, y.c3 * z.c1);
    lemma_dist4(k, y.c0 * z.c1, y.c1 * z.c0, y.c2 * z.c3, y.c3 * z.c2);
    lemma_dist4(k, y.c0 * z.c2, y.c1 * z.c1, y.c2 * z.c0, y.c3 * z.c3);
    lemma_dist4(k, y.c0 * z.c3, y.c1 * z.c2, y.c2 * z.c1, y.c3 * z.c0);
}

/// The coefficients of `x * y`, each times `k`, expanded.
proof fn lemma_right_expand(x: Ext, y: Ext, k: int)
    ensures
        x.times(y).c0 * k == (x.c0 * y.c0) * k + 11 * ((x.c1 * y.c3) * k + (x.c2 * y.c2) * k + (x.c3
            * y.c1) * k),
        x.times(y).c1 * k == (x.c0 * y.c1) * k + (x.c1 * y.c0) * k + 11 * ((x.c2 * y.c3) * k + (x.c3
            * y.c2) * k),
        x.times(y).c2 * k == (x.c0 * y.c2) * k + (x.c1 * y.c1) * k + (x.c2 * y.c0) * k + 11 * ((x.c3
            * y.c3) * k),
        x.times(y).c3 * k == (x.c0 * y.c3) * k + (x.c1 * y.c2) * k + (x.c2 * y.c1) * k + (x.c3
            * y.c0) * k,
{
    lemma_dist4(k, x.c0 * y.c0, x.c1 * y.c3, x.c2 * y.c2, x.c3 * y.c1);
    lemma_dist4(k, x.c0 * y.c1, x.c1 * y.c0, x.c2 * y.c3, x.c3 * y.c2);
    lemma_dist4(k, x.c0 * y.c2, x.c1 * y.c1, x.c2 * y.c0, x.c3 * y.c3);
    lemma_dist4(k, x.c0 * y.c3, x.c1 * y.c2, x.c2 * y.c1, x.c3 * y.c0);
}

pub proof fn lemma_times_assoc(x: Ext, y: Ext, z: Ext)
    ensures
        x.times(y).times(z) == x.times(y.times(z)),
{
    lemma_left_expand(x.c0, y, z);
    lemma_left_expand(x.c1, y, z);
    lemma_left_expand(x.c2, y, z);
    lemma_left_expand(x.c3, y, z);
    lemma_right_expand(x, y, z.c0);
    lemma_right_expand(x, y, z.c1);
    lemma_right_expand(x, y, z.c2);
    lemma_right_expand(x, y, z.c3);
}

proof fn lemma_row_dist(k: int, x: Ext, y: Ext)
    ensures
        (x.c0 + y.c0) * k == x.c0 * k + y.c0 * k,
        (x.c1 + y.c1) * k == x.c1 * k + y.c1 * k,
        (x.c2 + y.c2) * k == x.c2 * k + y.c2 * k,
        (x.c3 + y.c3) * k == x.c3 * k + y.c3 * k,
        (x.c0 - y.c0) * k == x.c0 * k - y.c0 * k,
        (x.c1 - y.c1) * k == x.c1 * k - y.c1 * k,
        (x.c2 - y.c2) * k == x.c2 * k - y.c2 * k,
        (x.c3 - y.c3) * k == x.c3 * k - y.c3 * k,
{
    broadcast use vstd::arithmetic::mul::group_mul_is_distributive;

}

/// Multiplication distributes over sums and differences.
pub proof fn lemma_times_dist(x: Ext, y: Ext, z: Ext)
    ensures
        x.plus(y).times(z) == x.times(z).plus(y.times(z)),
        x.minus(y).times(z) == x.times(z).minus(y.times(z)),
        z.times(x.plus(y)) == z.times(x).plus(z.times(y)),
        z.times(x.minus(y)) == z.times(x).minus(z.times(y)),
{
    lemma_row_dist(z.c0, x, y);
    lemma_row_dist(z.c1, x, y);
    lemma_row_dist(z.c2, x, y);
    lemma_row_dist(z.c3, x, y);
    lemma_times_comm(z, x.plus(y));
    lemma_times_comm(z, x.minus(y));
    lemma_times_comm(z, x);
    lemma_times_comm(z, y);
}

/// Integers embed as scalars.
pub proof fn lemma_times_of(x: Ext, k: int)
    ensures
        x.times(Ext::of(k)) == x.scaled(k),
        Ext::of(k).times(x) == x.scaled(k),
        x.times(Ext::of(1)) == x,
        Ext::of(1).times(x) == x,
        x.times(Ext::of(0)) == Ext::of(0),
        Ext::of(0).times(x) == Ext::of(0),
{
    lemma_times_comm(x, Ext::of(k));
    lemma_times_comm(x, Ext::of(1));
    lemma_times_comm(x, Ext::of(0));
}

pub proof fn lemma_scaled_times(x: Ext, y: Ext, k: int)
    ensures
        x.scaled(k).times(y) == x.times(y).scaled(k),
        x.times(y.scaled(k)) == x.times(y).scaled(k),
{
    lemma_times_of(x, k);
    lemma_times_of(x.times(y), k);
    lemma_times_assoc(Ext::of(k), x, y);
    lemma_times_of(y, k);
    lemma_times_assoc(x, y, Ext::of(k));
}

pub proof fn lemma_scaled_dist(x: Ext, y: Ext, k: int, l: int)
    ensures
        x.plus(y).scaled(k) == x.scaled(k).plus(y.scaled(k)),
        x.minus(y).scaled(k) == x.scaled(k).minus(y.scaled(k)),
        x.scaled(k + l) == x.scaled(k).plus(x.scaled(l)),
        x.scaled(k - l) == x.scaled(k).minus(x.scaled(l)),
        x.scaled(l).scaled(k) == x.scaled(k * l),
{
    lemma_scalar_ints(k, l, x.c0, y.c0);
    lemma_scalar_ints(k, l, x.c1, y.c1);
    lemma_scalar_ints(k, l, x.c2, y.c2);
    lemma_scalar_ints(k, l, x.c3, y.c3);
}

proof fn lemma_scalar_ints(k: int, l: int, s: int, t: int)
    by (nonlinear_arith)
    ensures
        k * (s + t) == k * s + k * t,
        k * (s - t) == k * s - k * t,
        (k + l) * s == k * s + l * s,
        (k - l) * s == k * s - l * s,
        k * (l * s) == (k * l) * s,
{
}

pub proof fn lemma_pow_add(z: Ext, a: nat, b: nat)
    ensures
        z.pow(a + b) == z.pow(a).times(z.pow(b)),
    decreases a,
{
    if a == 0 {
        lemma_times_of(z.pow(b), 1);
    } else {
        lemma_pow_add(z, (a - 1) as nat, b);
        lemma_times_assoc(z, z.pow((a - 1) as nat), z.pow(b));
        assert((a + b - 1) as nat == (a - 1) as nat + b);
    }
}

// ---------------------------------------------------------------------------
// Congruence.
// ---------------------------------------------------------------------------
pub proof fn lemma_ext_cong_times(a: Ext, b: Ext, c: Ext, d: Ext)
    requires
        a.cong(b),
        c.cong(d),
    ensures
        a.times(c).cong(b.times(d)),
{
    sums::lemma_cong_mul(a.c0, b.c0, c.c0, d.c0);
    sums::lemma_cong_mul(a.c0, b.c0, c.c1, d.c1);
    sums::lemma_cong_mul(a.c0, b.c0, c.c2, d.c2);
    sums::lemma_cong_mul(a.c0, b.c0, c.c3, d.c3);
    sums::lemma_cong_mul(a.c1, b.c1, c.c0, d.c0);
    sums::lemma_cong_mul(a.c1, b.c1, c.c1, d.c1);
    sums::lemma_cong_mul(a.c1, b.c1, c.c2, d.c2);
    sums::lemma_cong_mul(a.c1, b.c1, c.c3, d.c3);
    sums::lemma_cong_mul(a.c2, b.c2, c.c0, d.c0);
    sums::lemma_cong_mul(a.c2, b.c2, c.c1, d.c1);
    sums::lemma_cong_mul(a.c2, b.c2, c.c2, d.c2);
    sums::lemma_cong_mul(a.c2, b.c2, c.c3, d.c3);
    sums::lemma_cong_mul(a.c3, b.c3, c.c0, d.c0);
    sums::lemma_cong_mul(a.c3, b.c3, c.c1, d.c1);
    sums::lemma_cong_mul(a.c3, b.c3, c.c2, d.c2);
    sums::lemma_cong_mul(a.c3, b.c3, c.c3, d.c3);
}

pub proof fn lemma_ext_cong_scaled(a: Ext, b: Ext, k: int, l: int)
    requires
        a.cong(b),
        sums::cong(k, l),
    ensures
        a.scaled(k).cong(b.scaled(l)),
{
    sums::lemma_cong_mul(k, l, a.c0, b.c0);
    sums::lemma_cong_mul(k, l, a.c1, b.c1);
    sums::lemma_cong_mul(k, l, a.c2, b.c2);
    sums::lemma_cong_mul(k, l, a.c3, b.c3);
}

// ---------------------------------------------------------------------------
// Sums in the extension.
// ---------------------------------------------------------------------------
pub proof fn lemma_esum_eq(lo: int, hi: int, f: spec_fn(int) -> Ext, g: spec_fn(int) -> Ext)
    requires
        forall|i: int| lo <= i < hi ==> #[trigger] f(i) == g(i),
    ensures
        esum(lo, hi, f) == esum(lo, hi, g),
    decreases hi - lo,
{
    if lo < hi {
        lemma_esum_eq(lo, hi - 1, f, g);
        assert(f(hi - 1) == g(hi - 1));
    }
}

pub proof fn lemma_esum_cong(lo: int, hi: int, f: spec_fn(int) -> Ext, g: spec_fn(int) -> Ext)
    requires
        forall|i: int| lo <= i < hi ==> (#[trigger] f(i)).cong(g(i)),
    ensures
        esum(lo, hi, f).cong(esum(lo, hi, g)),
    decreases hi - lo,
{
    if lo < hi {
        lemma_esum_cong(lo, hi - 1, f, g);
        assert(f(hi - 1).cong(g(hi - 1)));
    }
}

pub proof fn lemma_esum_add(
    lo: int,
    hi: int,
    f: spec_fn(int) -> Ext,
    g: spec_fn(int) -> Ext,
    h: spec_fn(int) -> Ext,
)
    requires
        forall|i: int| lo <= i < hi ==> #[trigger] h(i) == f(i).plus(g(i)),
    ensures
        esum(lo, hi, h) == esum(lo, hi, f).plus(esum(lo, hi, g)),
    decreases hi - lo,
{
    if lo < hi {
        lemma_esum_add(lo, hi - 1, f, g, h);
        assert(h(hi - 1) == f(hi - 1).plus(g(hi - 1)));
    }
}

pub proof fn lemma_esum_times(
    lo: int,
    hi: int,
    y: Ext,
    f: spec_fn(int) -> Ext,
    h: spec_fn(int) -> Ext,
)
    requires
        forall|i: int| lo <= i < hi ==> #[trigger] h(i) == f(i).times(y),
    ensures
        esum(lo, hi, h) == esum(lo, hi, f).times(y),
    decreases hi - lo,
{
    if lo < hi {
        lemma_esum_times(lo, hi - 1, y, f, h);
        assert(h(hi - 1) == f(hi - 1).times(y));
        lemma_times_dist(esum(lo, hi - 1, f), f(hi - 1), y);
    } else {
        lemma_times_of(y, 0);
    }
}

pub proof fn lemma_esum_zero(lo: int, hi: int, f: spec_fn(int) -> Ext)
    requires
        forall|i: int| lo <= i < hi ==> #[trigger] f(i) == Ext::of(0),
    ensures
        esum(lo, hi, f) == Ext::of(0),
    decreases hi - lo,
{
    if lo < hi {
        lemma_esum_zero(lo, hi - 1, f);
        assert(f(hi - 1) == Ext::of(0));
    }
}

pub proof fn lemma_esum_split(lo: int, mid: int, hi: int, f: spec_fn(int) -> Ext)
    requires
        lo <= mid <= hi,
    ensures
        esum(lo, hi, f) == esum(lo, mid, f).plus(esum(mid, hi, f)),
    decreases hi - mid,
{
    if mid < hi {
        lemma_esum_split(lo, mid, hi - 1, f);
    }
}

pub proof fn lemma_esum_shift(
    lo: int,
    hi: int,
    d: int,
    f: spec_fn(int) -> Ext,
    h: spec_fn(int) -> Ext,
)
    requires
        forall|i: int| lo <= i < hi ==> #[trigger] h(i) == f(i + d),
    ensures
        esum(lo, hi, h) == esum(lo + d, hi + d, f),
    decreases hi - lo,
{
    if lo < hi {
        lemma_esum_shift(lo, hi - 1, d, f, h);
        assert(h(hi - 1) == f(hi - 1 + d));
    }
}

/// The order of summation may be exchanged.
pub proof fn lemma_esum_swap(a: int, b: int, c: int, d: int, f: spec_fn(int, int) -> Ext)
    ensures
        esum(a, b, |i: int| esum(c, d, |j: int| f(i, j))) == esum(
            c,
            d,
            |j: int| esum(a, b, |i: int| f(i, j)),
        ),
    decreases b - a,
{
    let lhs = |i: int| esum(c, d, |j: int| f(i, j));
    let rhs = |j: int| esum(a, b, |i: int| f(i, j));
    if b <= a {
        assert forall|j: int| c <= j < d implies #[trigger] rhs(j) == Ext::of(0) by {}
        lemma_esum_zero(c, d, rhs);
    } else {
        lemma_esum_swap(a, b - 1, c, d, f);
        let prev = |j: int| esum(a, b - 1, |i: int| f(i, j));
        let last = |j: int| f(b - 1, j);
        assert forall|j: int| c <= j < d implies #[trigger] rhs(j) == prev(j).plus(last(j)) by {}
        lemma_esum_add(c, d, prev, last, rhs);
        assert(lhs(b - 1) == esum(c, d, last));
    }
}

/// A sum of multiples of one element.
pub proof fn lemma_esum_scalar(
    lo: int,
    hi: int,
    y: Ext,
    f: spec_fn(int) -> int,
    h: spec_fn(int) -> Ext,
)
    requires
        forall|i: int| lo <= i < hi ==> #[trigger] h(i) == y.scaled(f(i)),
    ensures
        esum(lo, hi, h) == y.scaled(sums::sum(lo, hi, f)),
    decreases hi - lo,
{
    if lo < hi {
        lemma_esum_scalar(lo, hi - 1, y, f, h);
        assert(h(hi - 1) == y.scaled(f(hi - 1)));
        lemma_scaled_dist(y, y, sums::sum(lo, hi - 1, f), f(hi - 1));
    }
}

// ---------------------------------------------------------------------------
// Executable elements.
// ---------------------------------------------------------------------------
/// The integers that four coefficients stand for.
pub open spec fn coefficients(x: [u32; 4]) -> Ext {
    Ext { c0: x@[0] as int, c1: x@[1] as int, c2: x@[2] as int, c3: x@[3] as int }
}

/// Addition of `BinomialExtensionField<BabyBear, 4>`: coefficient-wise.
#[verifier::external_body]
fn raw_ext_add(x: [u32; 4], y: [u32; 4]) -> (r: [u32; 4])
    ensures
        coefficients(r) == coefficients(x).plus(coefficients(y)).reduced(),
{
    let a = BinomialExtensionField::<BabyBear, 4>::new(x.map(BabyBear::from_u32));
    let b = BinomialExtensionField::<BabyBear, 4>::new(y.map(BabyBear::from_u32));
    let s = a + b;
    let c: &[BabyBear] = s.as_basis_coefficients_slice();
    [0, 1, 2, 3].map(|i: usize| c[i].as_canonical_u32())
}

/// Subtraction of `BinomialExtensionField<BabyBear, 4>`: coefficient-wise.
#[verifier::external_body]
fn raw_ext_sub(x: [u32; 4], y: [u32; 4]) -> (r: [u32; 4])
    ensures
        coefficients(r) == coefficients(x).minus(coefficients(y)).reduced(),
{
    let a = BinomialExtensionField::<BabyBear, 4>::new(x.map(BabyBear::from_u32));
    let b = BinomialExtensionField::<BabyBear, 4>::new(y.map(BabyBear::from_u32));
    let s = a - b;
    let c: &[BabyBear] = s.as_basis_coefficients_slice();
    [0, 1, 2, 3].map(|i: usize| c[i].as_canonical_u32())
}

/// Multiplication of `BinomialExtensionField<BabyBear, 4>`: the product of the
/// two polynomials modulo `X^4 - 11`.
#[verifier::external_body]
fn raw_ext_mul(x: [u32; 4], y: [u32; 4]) -> (r: [u32; 4])
    ensures
        coefficients(r) == coefficients(x).times(coefficients(y)).reduced(),
{
    let a = BinomialExtensionField::<BabyBear, 4>::new(x.map(BabyBear::from_u32));
    let b = BinomialExtensionField::<BabyBear, 4>::new(y.map(BabyBear::from_u32));
    let s = a * b;
    let c: &[BabyBear] = s.as_basis_coefficients_slice();
    [0, 1, 2, 3].map(|i: usize| c[i].as_canonical_u32())
}

/// An element of the quartic extension, coefficients lowest degree first.
#[derive(Clone, Copy, Debug)]
pub struct Challenge {
    pub c0: F,
    pub c1: F,
    pub c2: F,
    pub c3: F,
}

impl View for Challenge {
    type V = Ext;

    open spec fn view(&self) -> Ext {
        Ext { c0: self.c0@, c1: self.c1@, c2: self.c2@, c3: self.c3@ }
    }
}

impl Challenge {
    fn raw(self) -> (r: [u32; 4])
        ensures
            coefficients(r) == self@,
    {
        [
            self.c0.as_canonical_u32(),
            self.c1.as_canonical_u32(),
            self.c2.as_canonical_u32(),
            self.c3.as_canonical_u32(),
        ]
    }

    /// The element with the given coefficients, each taken modulo `q`.
    pub fn from_coefficients(c: [u32; 4]) -> (r: Challenge)
        ensures
            r@ == coefficients(c).reduced(),
    {
        Challenge {
            c0: F::from_u32(c[0]),
            c1: F::from_u32(c[1]),
            c2: F::from_u32(c[2]),
            c3: F::from_u32(c[3]),
        }
    }

    pub fn zero() -> (r: Challenge)
        ensures
            r@ == Ext::of(0),
    {
        Challenge { c0: F::zero(), c1: F::zero(), c2: F::zero(), c3: F::zero() }
    }

    pub fn one() -> (r: Challenge)
        ensures
            r@ == Ext::of(1),
    {
        Challenge { c0: F::one(), c1: F::zero(), c2: F::zero(), c3: F::zero() }
    }

    /// A base field element in the extension.
    pub fn from_base(x: F) -> (r: Challenge)
        ensures
            r@ == Ext::of(x@),
    {
        Challenge { c0: x, c1: F::zero(), c2: F::zero(), c3: F::zero() }
    }

    pub fn add(self, other: Challenge) -> (r: Challenge)
        ensures
            r@ == self@.plus(other@).reduced(),
    {
        Challenge::from_coefficients(raw_ext_add(self.raw(), other.raw()))
    }

    pub fn sub(self, other: Challenge) -> (r: Challenge)
        ensures
            r@ == self@.minus(other@).reduced(),
    {
        Challenge::from_coefficients(raw_ext_sub(self.raw(), other.raw()))
    }

    pub fn mul(self, other: Challenge) -> (r: Challenge)
        ensures
            r@ == self@.times(other@).reduced(),
    {
        Challenge::from_coefficients(raw_ext_mul(self.raw(), other.raw()))
    }

    /// Coefficients are canonical.
    pub broadcast proof fn lemma_reduced(self)
        ensures
            #[trigger] self@.reduced() == self@,
    {
        self.c0.lemma_view_range();
        self.c1.lemma_view_range();
        self.c2.lemma_view_range();
        self.c3.lemma_view_range();
    }
}

impl PartialEq for Challenge {
    fn eq(&self, other: &Challenge) -> (r: bool) {
        self.c0 == other.c0 && self.c1 == other.c1 && self.c2 == other.c2 && self.c3 == other.c3
    }
}

impl vstd::std_specs::cmp::PartialEqSpecImpl for Challenge {
    open spec fn obeys_eq_spec() -> bool {
        true
    }

    open spec fn eq_spec(&self, other: &Challenge) -> bool {
        self@ == other@
    }
}

impl Eq for Challenge {

}

/// Reduction is a congruence.
pub proof fn lemma_reduced_cong(x: Ext)
    ensures
        x.reduced().cong(x),
        x.cong(x.reduced()),
{
}

/// Congruent elements have the same reduction.
pub proof fn lemma_cong_reduced(x: Ext, y: Ext)
    ensures
        x.cong(y) <==> x.reduced() == y.reduced(),
{
}

} // verus!
