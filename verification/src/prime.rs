//! `q` is prime, shown from the order of the published roots of unity, and a
//! product is zero modulo `q` only if a factor is.

use crate::dft;
use crate::field;
use crate::sums;
use vstd::arithmetic::div_mod::*;
use vstd::arithmetic::power::*;
use vstd::arithmetic::power2::*;
use vstd::prelude::*;

verus! {

/// `x` is a multiple of `d`.
pub open spec fn divides(d: int, x: int) -> bool {
    exists|c: int| x == #[trigger] (d * c)
}

proof fn lemma_divides(d: int, x: int, c: int)
    requires
        x == d * c,
    ensures
        divides(d, x),
{
}

proof fn lemma_divides_linear(d: int, x: int, y: int, a: int, b: int)
    requires
        divides(d, x),
        divides(d, y),
    ensures
        divides(d, a * x + b * y),
{
    let s = choose|c: int| x == #[trigger] (d * c);
    let t = choose|c: int| y == #[trigger] (d * c);
    assert(a * x + b * y == d * (a * s + b * t)) by (nonlinear_arith)
        requires
            x == d * s,
            y == d * t,
    ;
    lemma_divides(d, a * x + b * y, a * s + b * t);
}

/// Congruent numbers have congruent powers.
proof fn lemma_divides_pow(d: int, x: int, y: int, e: nat)
    requires
        divides(d, x - y),
    ensures
        divides(d, pow(x, e) - pow(y, e)),
    decreases e,
{
    reveal(pow);
    if e == 0 {
        lemma_divides(d, 0, 0);
        assert(d * 0 == 0);
    } else {
        let f = (e - 1) as nat;
        lemma_divides_pow(d, x, y, f);
        lemma_divides_linear(d, pow(x, f) - pow(y, f), x - y, x, pow(y, f));
        let a = pow(x, f);
        let b = pow(y, f);
        assert(x * (a - b) + b * (x - y) == x * a - y * b) by (nonlinear_arith);
    }
}

/// Odd powers of `-1`.
proof fn lemma_pow_minus_one_odd(e: nat)
    requires
        e % 2 == 1,
    ensures
        pow(-1, e) == -1,
    decreases e,
{
    reveal(pow);
    if e == 1 {
        assert(pow(-1, 0) == 1);
        assert(pow(-1, 1) == -1 * pow(-1, 0));
    } else {
        lemma_pow_minus_one_odd((e - 2) as nat);
        let p = pow(-1, (e - 2) as nat);
        assert(pow(-1, (e - 1) as nat) == -1 * p);
        assert(pow(-1, e) == -1 * pow(-1, (e - 1) as nat));
    }
}

/// If `w^(2^(m-1)) = -1` modulo `d >= 3`, no smaller positive exponent below
/// `2^m` gives 1.
proof fn lemma_order(d: int, w: int, m: nat, k: nat)
    requires
        d >= 3,
        m >= 1,
        divides(d, pow(w, pow2((m - 1) as nat)) + 1),
        0 < k < pow2(m),
    ensures
        !divides(d, pow(w, k) - 1),
    decreases m,
{
    if divides(d, pow(w, k) - 1) {
        let h = pow2((m - 1) as nat);
        dft::lemma_pow2_step((m - 1) as nat);
        if k % 2 == 1 {
            // w^(k*h) is both -1 and 1.
            let wh = pow(w, h);
            let wk = pow(w, k);
            assert(wh - (-1) == wh + 1);
            lemma_divides_pow(d, wh, -1, k);
            lemma_divides_pow(d, wk, 1, h);
            lemma_pow_minus_one_odd(k);
            lemma1_pow(h);
            lemma_pow_multiplies(w, h, k);
            lemma_pow_multiplies(w, k, h);
            assert(h * k == k * h) by (nonlinear_arith);
            let v = pow(w, h * k);
            lemma_divides_linear(d, v + 1, v - 1, 1, -1);
            assert(1 * (v + 1) + -1 * (v - 1) == 2);
            let c = choose|c: int| 2 == #[trigger] (d * c);
            assert(2 != d * c) by (nonlinear_arith)
                requires
                    d >= 3,
            ;
        } else {
            let w2 = pow(w, 2);
            let k2 = (k / 2) as nat;
            assert(2 * k2 == k);
            lemma_pow_multiplies(w, 2, k2);
            if m == 1 {
                lemma2_to64();
            } else {
                let h2 = pow2((m - 2) as nat);
                dft::lemma_pow2_step((m - 2) as nat);
                lemma_pow_multiplies(w, 2, h2);
                lemma_order(d, w2, (m - 1) as nat, k2);
            }
        }
    }
}

/// The values of an injective map from `[0, n)`.
spec fn image(f: spec_fn(int) -> int, n: int) -> Set<int>
    decreases n,
{
    if n <= 0 {
        Set::empty()
    } else {
        image(f, n - 1).insert(f(n - 1))
    }
}

proof fn lemma_image(f: spec_fn(int) -> int, n: int, d: int)
    requires
        n >= 0,
        forall|i: int| 0 <= i < n ==> 0 <= #[trigger] f(i) < d,
        forall|i: int, j: int| 0 <= i < j < n ==> #[trigger] f(i) != #[trigger] f(j),
    ensures
        image(f, n).finite(),
        image(f, n).len() == n,
        forall|x: int| #[trigger] image(f, n).contains(x) ==> 0 <= x < d,
        forall|x: int|
            #[trigger] image(f, n).contains(x) ==> exists|i: int| 0 <= i < n && #[trigger] f(i)
                == x,
    decreases n,
{
    if n > 0 {
        lemma_image(f, n - 1, d);
        let last = f(n - 1);
        assert(!image(f, n - 1).contains(last)) by {
            if image(f, n - 1).contains(last) {
                let i = choose|i: int| 0 <= i < n - 1 && #[trigger] f(i) == last;
                assert(f(i) != f(n - 1));
            }
        }
        assert forall|x: int| #[trigger] image(f, n).contains(x) implies exists|i: int|
            0 <= i < n && #[trigger] f(i) == x by {
            if x == last {
                assert(f(n - 1) == x);
            } else {
                let i = choose|i: int| 0 <= i < n - 1 && #[trigger] f(i) == x;
                assert(f(i) == x);
            }
        }
    }
}

/// An injective map from `[0, n)` into `[0, d)` needs `n <= d`.
proof fn lemma_pigeonhole(f: spec_fn(int) -> int, n: int, d: int)
    requires
        n >= 0,
        d >= 0,
        forall|i: int| 0 <= i < n ==> 0 <= #[trigger] f(i) < d,
        forall|i: int, j: int| 0 <= i < j < n ==> #[trigger] f(i) != #[trigger] f(j),
    ensures
        n <= d,
{
    lemma_image(f, n, d);
    let range = vstd::set_lib::set_int_range(0, d);
    vstd::set_lib::lemma_int_range(0, d);
    assert(image(f, n).subset_of(range));
    vstd::set_lib::lemma_len_subset(image(f, n), range);
}

/// Every divisor of `q` other than 1 is at least `2^27`.
proof fn lemma_divisor_large(d: int, e: int)
    requires
        d > 1,
        d * e == field::q(),
    ensures
        d >= 0x800_0000,
{
    let w = field::two_adic_root(27);
    let n = pow2(27) as int;
    lemma2_to64();
    dft::lemma_published_root(27);
    // d is odd, hence at least 3.
    assert(d >= 3) by {
        if d == 2 {
            assert(2 * e == 2013265921);
        }
    }
    let a = pow(w, pow2(26)) + 1;
    let k = sums::lemma_cong_witness(pow(w, pow2(26)), -1);
    assert(a == d * (e * k)) by (nonlinear_arith)
        requires
            a == 2013265921 * k,
            d * e == 2013265921,
    ;
    lemma_divides(d, a, e * k);
    dft::lemma_root_full_power(w, 27);
    let one = pow(w, pow2(27)) - 1;
    let l = sums::lemma_cong_witness(pow(w, pow2(27)), 1);
    assert(one == d * (e * l)) by (nonlinear_arith)
        requires
            one == 2013265921 * l,
            d * e == 2013265921,
    ;
    lemma_divides(d, one, e * l);
    let f = |i: int| pow(w, i as nat) % d;
    assert forall|i: int| 0 <= i < n implies 0 <= #[trigger] f(i) < d by {
        lemma_mod_bound(pow(w, i as nat), d);
    }
    assert forall|i: int, j: int| 0 <= i < j < n implies #[trigger] f(i) != #[trigger] f(j) by {
        if f(i) == f(j) {
            // w^j - w^i = 0 mod d; multiply by w^(n-i): w^(j-i) = 1 mod d.
            let x = pow(w, j as nat);
            let y = pow(w, i as nat);
            lemma_fundamental_div_mod(x, d);
            lemma_fundamental_div_mod(y, d);
            let cx = x / d;
            let cy = y / d;
            assert(x - y == d * (cx - cy)) by (nonlinear_arith)
                requires
                    x == d * cx + x % d,
                    y == d * cy + y % d,
                    x % d == y % d,
            ;
            lemma_divides(d, x - y, cx - cy);
            let m = (j - i) as nat;
            let p = pow(w, (n - i) as nat);
            let u = pow(w, n as nat);
            let v = pow(w, m);
            lemma_pow_adds(w, (n - i) as nat, i as nat);
            lemma_pow_adds(w, (n - i) as nat, j as nat);
            lemma_pow_adds(w, n as nat, m);
            assert((n - i) as nat + j as nat == n as nat + m);
            assert((n - i) as nat + i as nat == n as nat);
            assert(p * x == u * v);
            assert(p * y == u);
            // u*v - u = p*(x - y) and v - 1 = (u*v - u) - (u - 1)*(v - 1)
            lemma_divides_linear(d, x - y, u - 1, p, -(v - 1));
            assert(p * (x - y) + (-(v - 1)) * (u - 1) == v - 1) by (nonlinear_arith)
                requires
                    p * x == u * v,
                    p * y == u,
            ;
            lemma_order(d, w, 27, m);
        }
    }
    lemma_pigeonhole(f, n, d);
}

/// `q` has no divisors but 1 and itself.
pub proof fn law_q_is_prime(d: int, e: int)
    requires
        d > 1,
        e > 1,
    ensures
        d * e != field::q(),
{
    if d * e == field::q() {
        lemma_divisor_large(d, e);
        assert(e * d == 2013265921) by (nonlinear_arith)
            requires
                d * e == 2013265921,
        ;
        lemma_divisor_large(e, d);
        assert(d * e != 2013265921) by (nonlinear_arith)
            requires
                d >= 0x800_0000,
                e >= 0x800_0000,
        ;
    }
}

proof fn lemma_descent(a: int, y: int)
    requires
        0 < a < field::q(),
        sums::cong(a * y, 0),
    ensures
        sums::cong(y, 0),
    decreases a,
{
    if a == 1 {
        assert(1 * y == y);
    } else {
        let r = 2013265921int % a;
        let k = 2013265921int / a;
        lemma_fundamental_div_mod(2013265921, a);
        lemma_mod_bound(2013265921, a);
        if r == 0 {
            assert(k > 1) by (nonlinear_arith)
                requires
                    2013265921 == a * k + 0,
                    1 < a < 2013265921,
            ;
            law_q_is_prime(a, k);
        }
        sums::lemma_cong_mul(k, k, a * y, 0);
        assert(r * y == 2013265921 * y - k * (a * y)) by (nonlinear_arith)
            requires
                2013265921 == a * k + r,
        ;
        assert(k * 0 == 0);
        lemma_descent(r, y);
    }
}

/// A product is zero modulo `q` only if a factor is.
pub proof fn lemma_zero_product(x: int, y: int)
    requires
        sums::cong(x * y, 0),
    ensures
        sums::cong(x, 0) || sums::cong(y, 0),
{
    let a = x % field::q();
    if a != 0 {
        sums::lemma_cong_mul(a, x, y, y);
        lemma_descent(a, y);
    }
}

} // verus!
