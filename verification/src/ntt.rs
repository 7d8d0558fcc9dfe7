//! Radix-2 NTT over BabyBear, used for fast polynomial multiplication in
//! `Z_q[x]/(x^n + 1)` where `q` is the proof-system field prime.
//!
//! Because the ciphertext modulus equals the STARK field modulus, all ring
//! arithmetic here is native field arithmetic.

use crate::dft;
use crate::field;
use crate::field::F;
use crate::poly;
use crate::sums;
use vstd::arithmetic::power::*;
use vstd::arithmetic::power2::*;
use vstd::prelude::*;

verus! {

/// A transform size: a power of two within the field's two-adicity.
pub open spec fn is_ntt_size(n: int) -> bool {
    dft::is_pow2(n) && n <= 0x800_0000
}

/// The forward transform: the values of the polynomial `x` at the powers of
/// the published root of order `x.len()`.
pub open spec fn forward(x: Seq<int>) -> Seq<int> {
    Seq::new(
        x.len(),
        |k: int| dft::dft(x, field::two_adic_root(dft::log2(x.len() as int)), k) % field::q(),
    )
}

/// `y` is the inverse transform of `x`: each entry times the length is the
/// value of the polynomial `x` at a power of the inverse root.
pub open spec fn is_inverse(x: Seq<int>, y: Seq<int>) -> bool {
    &&& y.len() == x.len()
    &&& forall|k: int|
        0 <= k < x.len() ==> sums::cong(
            x.len() * #[trigger] y[k],
            dft::dft(x, dft::inverse_root(dft::log2(x.len() as int)), k),
        )
}

/// `log2` of a power of two.
pub fn log2_exact(n: usize) -> (r: usize)
    ensures
        r == dft::log2(n as int),
{
    let mut m: usize = n;
    let mut k: usize = 0;
    while m > 1
        invariant
            k + dft::log2(m as int) == dft::log2(n as int),
            k + m <= n,
        decreases m,
    {
        m = m / 2;
        k = k + 1;
    }
    k
}

/// Whether `n` is a power of two.
pub fn is_power_of_two(n: usize) -> (r: bool)
    ensures
        r == dft::is_pow2(n as int),
{
    let mut m: usize = n;
    while m > 1 && m % 2 == 0
        invariant
            dft::is_pow2(m as int) == dft::is_pow2(n as int),
        decreases m,
    {
        proof {
            dft::lemma_is_pow2_step(m as int);
        }
        m = m / 2;
    }
    proof {
        dft::lemma_is_pow2_step(m as int);
    }
    m == 1
}

/// The low `bits` bits of `i` in reverse order.
fn bit_reverse(i: usize, bits: usize) -> (r: usize)
    requires
        bits <= 27,
    ensures
        r == dft::rev(bits as nat, i as int),
{
    let mut r: usize = 0;
    let mut rest: usize = i;
    let mut m: usize = bits;
    proof {
        lemma2_to64();
        dft::lemma_rev_range(bits as nat, i as int);
        dft::lemma_pow2_monotone(bits as nat, 27);
        assert(0 * pow2(bits as nat) == 0);
    }
    let mut top: usize = 1;
    let mut j: usize = 0;
    while j < bits
        invariant
            j <= bits <= 27,
            top == pow2(j as nat),
        decreases bits - j,
    {
        proof {
            dft::lemma_pow2_step(j as nat);
            dft::lemma_pow2_monotone(j as nat + 1, 27);
            lemma2_to64();
        }
        top = top * 2;
        j = j + 1;
    }
    while m > 0
        invariant
            m <= bits <= 27,
            top == pow2(m as nat),
            dft::rev(bits as nat, i as int) == r + dft::rev(m as nat, rest as int),
            dft::rev(bits as nat, i as int) < 0x800_0000,
        decreases m,
    {
        proof {
            dft::lemma_pow2_step((m - 1) as nat);
            dft::lemma_rev_range(m as nat, rest as int);
            dft::lemma_rev_range((m - 1) as nat, rest as int / 2);
            assert(0 * pow2((m - 1) as nat) == 0);
            assert(1 * pow2((m - 1) as nat) == pow2((m - 1) as nat));
        }
        top = top / 2;
        m = m - 1;
        if rest % 2 == 1 {
            r = r + top;
        }
        rest = rest / 2;
    }
    r
}

/// Reorders `values` by bit-reversed index.
fn bit_reverse_permute(values: &mut [F], bits: usize)
    requires
        bits <= 27,
        old(values)@.len() == pow2(bits as nat),
    ensures
        final(values)@.len() == old(values)@.len(),
        forall|p: int|
            0 <= p < final(values)@.len() ==> #[trigger] final(values)@[p] == old(values)@[dft::rev(
                bits as nat,
                p,
            )],
{
    let ghost x = values@;
    let ghost m = bits as nat;
    let n: usize = values.len();
    proof {
        assert forall|p: int| 0 <= p < n implies #[trigger] dft::rev(m, p) >= 0 by {
            dft::lemma_rev_range(m, p);
        }
    }
    let mut i: usize = 0;
    while i < n
        invariant
            i <= n,
            bits <= 27,
            m == bits,
            n == pow2(m),
            values@.len() == n,
            x.len() == n,
            forall|p: int|
                0 <= p < n ==> #[trigger] values@[p] == if p < i || dft::rev(m, p) < i {
                    x[dft::rev(m, p)]
                } else {
                    x[p]
                },
        decreases n - i,
    {
        let j: usize = bit_reverse(i, bits);
        proof {
            dft::lemma_rev_range(m, i as int);
            dft::lemma_rev_involution(m, i as int);
            assert forall|p: int| 0 <= p < n && dft::rev(m, p) == i implies p == j by {
                dft::lemma_rev_involution(m, p);
            }
        }
        if i < j {
            let a = values[i];
            let b = values[j];
            values[i] = b;
            values[j] = a;
        }
        i = i + 1;
    }
    proof {
        assert forall|p: int| 0 <= p < n implies #[trigger] values@[p] == x[dft::rev(m, p)] by {
            dft::lemma_rev_range(m, p);
        }
    }
}

/// The butterflies of the block of length `2 * half` that begins at `start`.
fn butterfly_block(values: &mut [F], roots: &[F], start: usize, half: usize, stride: usize)
    requires
        start + 2 * half <= old(values)@.len(),
        half >= 1,
        forall|k: int| 0 <= k < half ==> 0 <= #[trigger] (k * stride) < roots@.len(),
    ensures
        final(values)@.len() == old(values)@.len(),
        forall|p: int|
            0 <= p < old(values)@.len() && (p < start || p >= start + 2 * half)
                ==> #[trigger] final(values)@[p] == old(values)@[p],
        forall|k: int|
            0 <= k < half ==> #[trigger] final(values)@[start + k]@ == (old(values)@[start + k]@ + (
            old(values)@[start + half + k]@ * roots@[k * stride]@) % field::q()) % field::q(),
        forall|k: int|
            0 <= k < half ==> #[trigger] final(values)@[start + half + k]@ == (old(values)@[start
                + k]@ - (old(values)@[start + half + k]@ * roots@[k * stride]@) % field::q())
                % field::q(),
{
    let ghost x = values@;
    let root_count: usize = roots.len();
    let count: usize = values.len();
    let mut k: usize = 0;
    while k < half
        invariant
            k <= half,
            root_count == roots@.len(),
            count == x.len(),
            start + 2 * half <= values@.len(),
            values@.len() == x.len(),
            forall|i: int| 0 <= i < half ==> 0 <= #[trigger] (i * stride) < roots@.len(),
            forall|p: int|
                0 <= p < x.len() && (p < start || p >= start + 2 * half || (start + k <= p < start
                    + half) || p >= start + half + k) ==> #[trigger] values@[p] == x[p],
            forall|i: int|
                0 <= i < k ==> #[trigger] values@[start + i]@ == (x[start + i]@ + (x[start + half
                    + i]@ * roots@[i * stride]@) % field::q()) % field::q(),
            forall|i: int|
                0 <= i < k ==> #[trigger] values@[start + half + i]@ == (x[start + i]@ - (x[start
                    + half + i]@ * roots@[i * stride]@) % field::q()) % field::q(),
        decreases half - k,
    {
        assert(0 <= k as int * stride as int && k as int * (stride as int) < roots@.len());
        let w = roots[k * stride];
        let u = values[start + k];
        let v = values[start + half + k].mul(w);
        values[start + k] = u.add(v);
        values[start + half + k] = u.sub(v);
        k = k + 1;
    }
}

/// One stage of the transform: the butterflies of all blocks of length
/// `2 * half`, with roots taken every `stride` entries.
fn butterfly_stage(values: &mut [F], roots: &[F], half: usize, stride: usize)
    requires
        half >= 1,
        stride >= 1,
        old(values)@.len() == 2 * half * stride,
        roots@.len() == half * stride,
    ensures
        final(values)@.len() == old(values)@.len(),
        forall|b: int, k: int|
            #![trigger final(values)@[dft::idx(b, 2 * half as int, k)]]
            0 <= b < stride && 0 <= k < half ==> final(values)@[dft::idx(b, 2 * half as int, k)]@
                == (old(values)@[dft::idx(2 * b, half as int, k)]@ + (old(values)@[dft::idx(
                2 * b + 1,
                half as int,
                k,
            )]@ * roots@[k * stride]@) % field::q()) % field::q(),
        forall|b: int, k: int|
            #![trigger final(values)@[dft::idx(b, 2 * half as int, half + k)]]
            0 <= b < stride && 0 <= k < half ==> final(values)@[dft::idx(
                b,
                2 * half as int,
                half + k,
            )]@ == (old(values)@[dft::idx(2 * b, half as int, k)]@ - (old(values)@[dft::idx(
                2 * b + 1,
                half as int,
                k,
            )]@ * roots@[k * stride]@) % field::q()) % field::q(),
{
    let ghost x = values@;
    let ghost len = 2 * half as int;
    let n: usize = values.len();
    let mut start: usize = 0;
    let mut done: usize = 0;
    proof {
        assert forall|k: int| 0 <= k < half implies 0 <= #[trigger] (k * stride) < roots@.len() by {
            assert(0 <= k * stride && k * stride < half * stride) by (nonlinear_arith)
                requires
                    0 <= k < half,
                    stride >= 1,
            ;
        }
        assert(2 * half * stride == len * stride) by (nonlinear_arith)
            requires
                len == 2 * half,
        ;
    }
    while done < stride
        invariant
            done <= stride,
            half >= 1,
            len == 2 * half,
            n == len * stride,
            start == len * done,
            values@.len() == n,
            x.len() == n,
            forall|k: int| 0 <= k < half ==> 0 <= #[trigger] (k * stride) < roots@.len(),
            forall|p: int| start <= p < n ==> #[trigger] values@[p] == x[p],
            forall|b: int, k: int|
                #![trigger values@[dft::idx(b, len, k)]]
                0 <= b < done && 0 <= k < half ==> values@[dft::idx(b, len, k)]@ == (x[dft::idx(
                    2 * b,
                    half as int,
                    k,
                )]@ + (x[dft::idx(2 * b + 1, half as int, k)]@ * roots@[k * stride]@) % field::q())
                    % field::q(),
            forall|b: int, k: int|
                #![trigger values@[dft::idx(b, len, half + k)]]
                0 <= b < done && 0 <= k < half ==> values@[dft::idx(b, len, half + k)]@ == (
                x[dft::idx(2 * b, half as int, k)]@ - (x[dft::idx(2 * b + 1, half as int, k)]@
                    * roots@[k * stride]@) % field::q()) % field::q(),
        decreases stride - done,
    {
        proof {
            assert(len * done + len <= len * stride) by (nonlinear_arith)
                requires
                    done + 1 <= stride,
                    len >= 0,
            ;
            assert(len * (done + 1) == len * done + len) by (nonlinear_arith);
        }
        let ghost before = values@;
        butterfly_block(values, roots, start, half, stride);
        proof {
            assert forall|b: int, k: int|
                0 <= b < done && 0 <= k < len implies #[trigger] values@[dft::idx(b, len, k)]
                == before[dft::idx(b, len, k)] by {
                assert(b * len + len <= len * done) by (nonlinear_arith)
                    requires
                        b + 1 <= done,
                        len >= 0,
                ;
                assert(b * len >= 0) by (nonlinear_arith)
                    requires
                        b >= 0,
                        len >= 0,
                ;
            }
            let b = done as int;
            assert(dft::idx(b, len, 0) == start) by (nonlinear_arith)
                requires
                    start == len * b,
                    dft::idx(b, len, 0) == b * len + 0,
            ;
            assert forall|k: int| 0 <= k < half implies dft::idx(b, len, k) == start + k
                && dft::idx(b, len, half + k) == start + half + k && #[trigger] dft::idx(
                2 * b,
                half as int,
                k,
            ) == start + k && dft::idx(2 * b + 1, half as int, k) == start + half + k by {
                assert(2 * b * half == b * len && (2 * b + 1) * half == b * len + half)
                    by (nonlinear_arith)
                    requires
                        len == 2 * half,
                ;
            }
        }
        start = start + 2 * half;
        done = done + 1;
    }
}

/// The state of the transform after the stages up to block length `2^s`: block
/// `b` holds the transform of one residue class of the input.
spec fn staged(values: Seq<F>, x: Seq<int>, w: int, m: nat, s: nat) -> bool {
    let len = pow2(s) as int;
    let st = pow2((m - s) as nat) as int;
    forall|b: int, k: int|
        #![trigger values[dft::idx(b, len, k)]]
        0 <= b < st && 0 <= k < len ==> sums::cong(
            values[dft::idx(b, len, k)]@,
            dft::partial(x, w, dft::rev((m - s) as nat, b), st, len, k),
        )
}

/// A butterfly on reduced values, up to congruence.
proof fn lemma_butterfly_cong(e: int, ev: int, p: int, pv: int)
    requires
        sums::cong(e, ev),
        sums::cong(p, pv),
    ensures
        sums::cong((e + p % field::q()) % field::q(), ev + pv),
        sums::cong((e - p % field::q()) % field::q(), ev - pv),
{
    let k = sums::lemma_cong_witness(e, ev);
    let l = sums::lemma_cong_witness(p, pv);
    sums::lemma_cong_mod(p);
    let j = sums::lemma_cong_witness(p % field::q(), p);
    let a = e + p % field::q();
    let b = e - p % field::q();
    sums::lemma_cong_from_witness(a, ev + pv, k + l + j);
    sums::lemma_cong_from_witness(b, ev - pv, k - l - j);
    sums::lemma_cong_mod(a);
    sums::lemma_cong_mod(b);
    sums::lemma_cong_trans(a % field::q(), a, ev + pv);
    sums::lemma_cong_trans(b % field::q(), b, ev - pv);
}

/// One stage doubles the block length.
proof fn lemma_stage(
    before: Seq<F>,
    after: Seq<F>,
    roots: Seq<F>,
    x: Seq<int>,
    w: int,
    m: nat,
    s: nat,
)
    requires
        s < m,
        dft::is_root(w, m),
        x.len() == pow2(m),
        staged(before, x, w, m, s),
        roots.len() == pow2((m - 1) as nat),
        forall|i: int|
            0 <= i < roots.len() ==> sums::cong(#[trigger] roots[i]@, pow(w, i as nat)),
        forall|b: int, k: int|
            #![trigger after[dft::idx(b, 2 * pow2(s) as int, k)]]
            0 <= b < pow2((m - s - 1) as nat) && 0 <= k < pow2(s) ==> after[dft::idx(
                b,
                2 * pow2(s) as int,
                k,
            )]@ == (before[dft::idx(2 * b, pow2(s) as int, k)]@ + (before[dft::idx(
                2 * b + 1,
                pow2(s) as int,
                k,
            )]@ * roots[k * pow2((m - s - 1) as nat)]@) % field::q()) % field::q(),
        forall|b: int, k: int|
            #![trigger after[dft::idx(b, 2 * pow2(s) as int, pow2(s) + k)]]
            0 <= b < pow2((m - s - 1) as nat) && 0 <= k < pow2(s) ==> after[dft::idx(
                b,
                2 * pow2(s) as int,
                pow2(s) + k,
            )]@ == (before[dft::idx(2 * b, pow2(s) as int, k)]@ - (before[dft::idx(
                2 * b + 1,
                pow2(s) as int,
                k,
            )]@ * roots[k * pow2((m - s - 1) as nat)]@) % field::q()) % field::q(),
    ensures
        staged(after, x, w, m, s + 1),
{
    let half = pow2(s) as int;
    let len = pow2(s + 1) as int;
    let st = pow2((m - s - 1) as nat) as int;
    let st0 = pow2((m - s) as nat) as int;
    dft::lemma_pow2_step(s);
    dft::lemma_pow2_step((m - s - 1) as nat);
    assert((m - s - 1) as nat + 1 == (m - s) as nat);
    lemma_pow2_adds(s, (m - s - 1) as nat);
    assert(s + (m - s - 1) as nat == (m - 1) as nat);
    assert(half * st == st * half) by (nonlinear_arith);
    assert forall|b: int, k: int|
        #![trigger after[dft::idx(b, len, k)]]
        0 <= b < st && 0 <= k < len implies sums::cong(
        after[dft::idx(b, len, k)]@,
        dft::partial(x, w, dft::rev((m - (s + 1)) as nat, b), st, len, k),
    ) by {
        let o = dft::rev((m - s - 1) as nat, b);
        let k0 = if k < half {
            k
        } else {
            k - half
        };
        assert(dft::rev((m - s) as nat, 2 * b) == o) by {
            assert((2 * b) / 2 == b && (2 * b) % 2 == 0);
            assert(0 * st == 0);
        }
        assert(dft::rev((m - s) as nat, 2 * b + 1) == o + st) by {
            assert((2 * b + 1) / 2 == b && (2 * b + 1) % 2 == 1);
            assert(1 * st == st);
        }
        let e = before[dft::idx(2 * b, half, k0)]@;
        let d = before[dft::idx(2 * b + 1, half, k0)]@;
        let ev = dft::partial(x, w, o, 2 * st, half, k0);
        let od = dft::partial(x, w, o + st, 2 * st, half, k0);
        assert(sums::cong(e, ev));
        assert(sums::cong(d, od));
        assert(0 <= k0 * st && k0 * st < half * st) by (nonlinear_arith)
            requires
                0 <= k0 < half,
                st >= 1,
        ;
        let r = roots[k0 * st]@;
        let t = pow(w, (k0 * st) as nat);
        assert(sums::cong(r, t));
        sums::lemma_cong_mul(d, od, r, t);
        assert(od * t == t * od) by (nonlinear_arith);
        assert(k0 * st == st * k0) by (nonlinear_arith);
        dft::lemma_butterfly(x, w, o, st, half, k0);
        lemma_butterfly_cong(e, ev, d * r, t * od);
        if k < half {
            assert(after[dft::idx(b, 2 * half, k0)]@ == (e + (d * r) % field::q()) % field::q());
        } else {
            assert(after[dft::idx(b, 2 * half, half + k0)]@ == (e - (d * r) % field::q())
                % field::q());
            assert(k0 + half == k);
            sums::lemma_cong_trans(
                after[dft::idx(b, 2 * half, half + k0)]@,
                ev - t * od,
                dft::partial(x, w, o, st, 2 * half, k0 + half),
            );
        }
    }
}

/// Core transform: bit-reversal, then radix-2 butterflies that index into a
/// table of roots (`roots[i] = w^i`).
fn transform(values: &mut [F], roots: &[F], bits: usize, Ghost(w): Ghost<int>)
    requires
        1 <= bits <= 27,
        old(values)@.len() == pow2(bits as nat),
        roots@.len() == pow2((bits - 1) as nat),
        dft::is_root(w, bits as nat),
        forall|i: int|
            0 <= i < roots@.len() ==> sums::cong(#[trigger] roots@[i]@, pow(w, i as nat)),
    ensures
        final(values)@.len() == old(values)@.len(),
        forall|k: int|
            0 <= k < old(values)@.len() ==> sums::cong(
                #[trigger] final(values)@[k]@,
                dft::dft(field::vals(old(values)@), w, k),
            ),
{
    let ghost x = field::vals(values@);
    let ghost m = bits as nat;
    bit_reverse_permute(values, bits);
    let mut half: usize = 1;
    let mut stride: usize = roots.len();
    let mut s: usize = 0;
    proof {
        lemma2_to64();
        assert((m - 0) as nat == m);
        let st = pow2(m) as int;
        assert forall|b: int, k: int|
            #![trigger values@[dft::idx(b, 1int, k)]]
            0 <= b < st && 0 <= k < 1 implies sums::cong(
            values@[dft::idx(b, 1int, k)]@,
            dft::partial(x, w, dft::rev(m, b), st, 1, k),
        ) by {
            dft::lemma_rev_range(m, b);
            assert(dft::idx(b, 1int, k) == b);
            let o = dft::rev(m, b);
            let f = |j: int| x[o + j * st] * pow(w, (st * j * k) as nat);
            assert(sums::sum(0, 1, f) == sums::sum(0, 0, f) + f(0));
            assert(0 * st == 0);
            assert(st * 0 * 0 == 0) by (nonlinear_arith);
            reveal(pow);
            assert(pow(w, 0) == 1);
            assert(values@[b]@ == x[o]);
        }
        assert(staged(values@, x, w, m, 0));
    }
    while s < bits
        invariant
            s <= bits,
            1 <= bits <= 27,
            m == bits,
            x.len() == pow2(m),
            values@.len() == pow2(m),
            dft::is_root(w, m),
            roots@.len() == pow2((m - 1) as nat),
            forall|i: int|
                0 <= i < roots@.len() ==> sums::cong(#[trigger] roots@[i]@, pow(w, i as nat)),
            half == pow2(s as nat),
            s < bits ==> stride == pow2((m - s - 1) as nat),
            staged(values@, x, w, m, s as nat),
        decreases bits - s,
    {
        let ghost before = values@;
        proof {
            dft::lemma_pow2_step((m - s - 1) as nat);
            dft::lemma_pow2_step((m - 1) as nat);
            lemma_pow2_adds(s as nat, (m - s - 1) as nat);
            assert(2 * half * stride == 2 * (half * stride)) by (nonlinear_arith);
        }
        butterfly_stage(values, roots, half, stride);
        proof {
            lemma_stage(before, values@, roots@, x, w, m, s as nat);
            dft::lemma_pow2_step(s as nat);
            dft::lemma_pow2_monotone(s as nat + 1, 27);
            lemma2_to64();
            if s + 1 < bits {
                dft::lemma_pow2_step((m - s - 2) as nat);
            }
        }
        half = half * 2;
        stride = stride / 2;
        s = s + 1;
    }
    proof {
        lemma2_to64();
        let n = pow2(m) as int;
        assert((m - m) as nat == 0);
        assert forall|k: int| 0 <= k < n implies sums::cong(
            #[trigger] values@[k]@,
            dft::dft(x, w, k),
        ) by {
            assert(dft::idx(0, n, k) == k) by (nonlinear_arith)
                requires
                    dft::idx(0, n, k) == 0 * n + k,
            ;
            assert(sums::cong(
                values@[dft::idx(0, n, k)]@,
                dft::partial(x, w, dft::rev(0, 0), 1, n, k),
            ));
            let f = |j: int| x[0 + j * 1] * pow(w, (1 * j * k) as nat);
            let g = |j: int| x[j] * pow(w, (j * k) as nat);
            assert forall|j: int| 0 <= j < n implies #[trigger] f(j) == g(j) by {
                assert(1 * j * k == j * k) by (nonlinear_arith);
            }
            sums::lemma_sum_eq(0, n, f, g);
        }
    }
}

/// Twiddle tables for one transform size: forward roots `g^i`, inverse roots
/// `g^-i` (both of length `size/2`), and the `1/size` scale.
struct Twiddles {
    fwd: Vec<F>,
    inv: Vec<F>,
    n_inv: F,
}

/// `root` and `inv` are inverse to each other, so `inv` is the last power of
/// `root`.
proof fn lemma_inverse_root(root: int, inv: int, m: nat)
    requires
        dft::is_root(root, m),
        (inv * root) % field::q() == 1,
    ensures
        sums::cong(inv, pow(root, (pow2(m) - 1) as nat)),
{
    let n = pow2(m);
    lemma_pow2_pos(m);
    let p = pow(root, (n - 1) as nat);
    dft::lemma_root_full_power(root, m);
    reveal(pow);
    assert(pow(root, n) == root * p);
    sums::lemma_cong_mul(inv, inv, root * p, 1);
    assert(inv * (root * p) == (inv * root) * p) by (nonlinear_arith);
    sums::lemma_cong_mul(inv * root, 1, p, p);
}

fn build_twiddles(size: usize, bits: usize) -> (tw: Twiddles)
    requires
        1 <= bits <= 27,
        size == pow2(bits as nat),
    ensures
        tw.fwd@.len() == pow2((bits - 1) as nat),
        tw.inv@.len() == pow2((bits - 1) as nat),
        forall|i: int|
            0 <= i < tw.fwd@.len() ==> sums::cong(
                #[trigger] tw.fwd@[i]@,
                pow(field::two_adic_root(bits as nat), i as nat),
            ),
        forall|i: int|
            0 <= i < tw.inv@.len() ==> sums::cong(
                #[trigger] tw.inv@[i]@,
                pow(dft::inverse_root(bits as nat), i as nat),
            ),
        (tw.n_inv@ * size) % field::q() == 1,
{
    let ghost m = bits as nat;
    proof {
        field::lemma_two_adic_root_range(m);
    }
    let g = F::two_adic_generator(bits);
    let g_inv = g.inverse();
    let ghost gi = dft::inverse_root(m);
    proof {
        dft::lemma_published_root(m);
        lemma_inverse_root(g@, g_inv@, m);
        dft::lemma_pow2_step((m - 1) as nat);
        dft::lemma_pow2_monotone(m, 27);
        lemma2_to64();
    }
    let half: usize = size / 2;
    let mut fwd: Vec<F> = Vec::new();
    let mut inv: Vec<F> = Vec::new();
    let mut wf = F::one();
    let mut wi = F::one();
    proof {
        reveal(pow);
        assert(pow(g@, 0) == 1);
        assert(pow(gi, 0) == 1);
    }
    let mut i: usize = 0;
    while i < half
        invariant
            i <= half,
            fwd@.len() == i,
            inv@.len() == i,
            sums::cong(g_inv@, gi),
            sums::cong(wf@, pow(g@, i as nat)),
            sums::cong(wi@, pow(gi, i as nat)),
            forall|j: int| 0 <= j < i ==> sums::cong(#[trigger] fwd@[j]@, pow(g@, j as nat)),
            forall|j: int| 0 <= j < i ==> sums::cong(#[trigger] inv@[j]@, pow(gi, j as nat)),
        decreases half - i,
    {
        fwd.push(wf);
        inv.push(wi);
        proof {
            reveal(pow);
            sums::lemma_cong_mul(wf@, pow(g@, i as nat), g@, g@);
            sums::lemma_cong_mul(wi@, pow(gi, i as nat), g_inv@, gi);
            let a = pow(g@, i as nat);
            let b = pow(gi, i as nat);
            assert(pow(g@, (i + 1) as nat) == g@ * a);
            assert(pow(gi, (i + 1) as nat) == gi * b);
            assert(a * g@ == g@ * a) by (nonlinear_arith);
            assert(b * gi == gi * b) by (nonlinear_arith);
        }
        wf = wf.mul(g);
        wi = wi.mul(g_inv);
        i = i + 1;
    }
    Twiddles { fwd, inv, n_inv: F::from_u32(size as u32).inverse() }
}

/// In-place iterative Cooley-Tukey NTT (decimation in time). The length must
/// be a power of two within the field's two-adicity. If `inverse`, applies the
/// inverse transform including the `1/N` scaling.
pub fn ntt(values: &mut [F], inverse: bool)
    requires
        is_ntt_size(old(values)@.len() as int),
    ensures
        final(values)@.len() == old(values)@.len(),
        !inverse ==> field::vals(final(values)@) == forward(field::vals(old(values)@)),
        inverse ==> is_inverse(field::vals(old(values)@), field::vals(final(values)@)),
{
    broadcast use F::lemma_view_range;

    let n: usize = values.len();
    let bits: usize = log2_exact(n);
    let ghost m = bits as nat;
    let ghost x = field::vals(values@);
    proof {
        assert(n == pow2(m));
        lemma2_to64();
        if m > 27 {
            dft::lemma_pow2_monotone(28, m);
        }
    }
    if bits == 0 {
        proof {
            let w = if inverse {
                dft::inverse_root(0)
            } else {
                field::two_adic_root(0)
            };
            assert(x.len() == 1);
            assert(dft::dft(x, w, 0) == x[0]) by {
                let f = |j: int| x[j] * pow(w, (j * 0) as nat);
                assert(sums::sum(0, 1, f) == sums::sum(0, 0, f) + f(0));
                reveal(pow);
                assert(pow(w, 0) == 1);
                assert(f(0) == x[0] * 1);
            }
            if inverse {
                assert forall|k: int| 0 <= k < x.len() implies sums::cong(
                    x.len() * #[trigger] x[k],
                    dft::dft(x, dft::inverse_root(dft::log2(x.len() as int)), k),
                ) by {
                    assert(k == 0);
                    assert(1 * x[0] == x[0]);
                }
                assert(is_inverse(x, field::vals(values@)));
            } else {
                assert(field::vals(values@) =~= forward(x));
            }
        }
        return ;
    }
    let tw = build_twiddles(n, bits);
    proof {
        dft::lemma_published_root(m);
    }
    if inverse {
        proof {
            lemma_inverse_is_root(m);
        }
        transform(values, &tw.inv, bits, Ghost(dft::inverse_root(m)));
        let ghost y = values@;
        let mut i: usize = 0;
        while i < n
            invariant
                i <= n,
                values@.len() == n,
                y.len() == n,
                (tw.n_inv@ * n) % field::q() == 1,
                forall|k: int| i <= k < n ==> #[trigger] values@[k] == y[k],
                forall|k: int|
                    0 <= k < i ==> sums::cong(n * #[trigger] values@[k]@, y[k]@),
            decreases n - i,
        {
            let v = values[i];
            values[i] = v.mul(tw.n_inv);
            proof {
                let s = tw.n_inv@;
                sums::lemma_cong_mul(n as int, n as int, (v@ * s) % field::q(), v@ * s);
                assert(n * (v@ * s) == (s * n) * v@) by (nonlinear_arith);
                sums::lemma_cong_mul(s * n, 1, v@, v@);
            }
            i = i + 1;
        }
    } else {
        transform(values, &tw.fwd, bits, Ghost(field::two_adic_root(m)));
    }
}

/// The inverse of a published root is a root of the same order.
proof fn lemma_inverse_is_root(m: nat)
    requires
        1 <= m <= 27,
    ensures
        dft::is_root(dft::inverse_root(m), m),
{
    let g = field::two_adic_root(m);
    let n = pow2(m);
    let h = pow2((m - 1) as nat);
    dft::lemma_published_root(m);
    dft::lemma_pow2_step((m - 1) as nat);
    let v = dft::inverse_root(m);
    // v^h = (g^(n-1))^h = (g^h)^(n-1), an odd power of -1.
    lemma_pow_multiplies(g, (n - 1) as nat, h);
    lemma_pow_multiplies(g, h, (n - 1) as nat);
    assert((n - 1) * h == h * (n - 1)) by (nonlinear_arith);
    dft::lemma_minus_one_powers(pow(g, h), (h - 1) as nat);
    assert(2 * ((h - 1) as nat) + 1 == (n - 1) as nat);
}

/// Powers of two cancel modulo `q`.
proof fn lemma_cancel_pow2(m: nat, a: int, b: int)
    requires
        sums::cong(pow2(m) * a, pow2(m) * b),
    ensures
        sums::cong(a, b),
    decreases m,
{
    if m == 0 {
        lemma2_to64();
        assert(1 * a == a && 1 * b == b);
    } else {
        dft::lemma_pow2_step((m - 1) as nat);
        let p = pow2((m - 1) as nat) as int;
        assert(pow2(m) * a == 2 * (p * a) && pow2(m) * b == 2 * (p * b)) by (nonlinear_arith)
            requires
                pow2(m) == 2 * p,
        ;
        lemma_cancel_pow2((m - 1) as nat, a, b);
    }
}

/// The transform is invertible: the inverse transform of the forward transform
/// of `x` is `x`.
pub proof fn law_ntt_roundtrip(x: Seq<F>, z: Seq<F>)
    requires
        is_ntt_size(x.len() as int),
        is_inverse(forward(field::vals(x)), field::vals(z)),
    ensures
        field::vals(z) == field::vals(x),
{
    broadcast use F::lemma_view_range;

    let xv = field::vals(x);
    let m = dft::log2(x.len() as int);
    lemma_ntt_bits(x.len() as int);
    let w = field::two_adic_root(m);
    dft::lemma_published_root(m);
    let y = forward(xv);
    assert forall|k: int| 0 <= k < x.len() implies #[trigger] field::vals(z)[k] == xv[k] by {
        dft::lemma_inversion(xv, y, w, m, k);
        lemma_cancel_pow2(m, field::vals(z)[k], xv[k]);
    }
    assert(field::vals(z) =~= xv);
}

/// Inverting a published root twice gives it back.
proof fn lemma_inverse_of_inverse(m: nat)
    requires
        1 <= m <= 27,
    ensures
        sums::cong(
            pow(dft::inverse_root(m), (pow2(m) - 1) as nat),
            field::two_adic_root(m),
        ),
{
    let w = field::two_adic_root(m);
    let n = pow2(m) as int;
    lemma_pow2_pos(m);
    dft::lemma_pow2_step((m - 1) as nat);
    lemma_pow2_pos((m - 1) as nat);
    dft::lemma_published_root(m);
    let e = (n - 1) * (n - 1);
    assert(e == 1 + n * (n - 2) && e >= 0) by (nonlinear_arith)
        requires
            e == (n - 1) * (n - 1),
            n >= 2,
    ;
    lemma_pow_multiplies(w, (n - 1) as nat, (n - 1) as nat);
    dft::lemma_root_reduce(w, m, e as nat);
    vstd::arithmetic::div_mod::lemma_mod_multiples_vanish(n - 2, 1, n);
    vstd::arithmetic::div_mod::lemma_small_mod(1, n as nat);
    reveal(pow);
    assert(pow(w, 1) == w * pow(w, 0));
    assert(w * 1 == w);
}

/// The transform is invertible in the other order too: the forward transform of
/// the inverse transform of `y` is `y`.
pub proof fn law_ntt_inverse_roundtrip(y: Seq<F>, z: Seq<F>)
    requires
        is_ntt_size(y.len() as int),
        is_inverse(field::vals(y), field::vals(z)),
    ensures
        forward(field::vals(z)) == field::vals(y),
{
    broadcast use F::lemma_view_range;

    let yv = field::vals(y);
    let zv = field::vals(z);
    let m = dft::log2(y.len() as int);
    lemma_ntt_bits(y.len() as int);
    let n = pow2(m) as int;
    let w = field::two_adic_root(m);
    let v = dft::inverse_root(m);
    let u = pow(v, (n - 1) as nat);
    let scaled = Seq::new(n as nat, |j: int| n * zv[j]);
    assert(dft::is_root(v, m) && sums::cong(u, w)) by {
        if m == 0 {
            lemma2_to64();
            reveal(pow);
            dft::lemma_published_root(0);
        } else {
            lemma_inverse_is_root(m);
            lemma_inverse_of_inverse(m);
        }
    }
    assert forall|j: int| 0 <= j < n implies sums::cong(
        #[trigger] scaled[j],
        dft::dft(yv, v, j),
    ) by {
        assert(sums::cong(n * zv[j], dft::dft(yv, v, j)));
    }
    assert forall|k: int| 0 <= k < n implies #[trigger] forward(zv)[k] == yv[k] by {
        dft::lemma_inversion(yv, scaled, v, m, k);
        dft::lemma_dft_cong(scaled, scaled, u, w, k);
        let f = |j: int| zv[j] * pow(w, (j * k) as nat);
        let g = |j: int| scaled[j] * pow(w, (j * k) as nat);
        assert forall|j: int| 0 <= j < n implies #[trigger] g(j) == n * f(j) by {
            let a = zv[j];
            let b = pow(w, (j * k) as nat);
            assert((n * a) * b == n * (a * b)) by (nonlinear_arith);
        }
        sums::lemma_sum_scale(0, n, n, f, g);
        let d = dft::dft(zv, w, k);
        assert(dft::dft(scaled, w, k) == n * d);
        sums::lemma_cong_trans(n * d, dft::dft(scaled, u, k), n * yv[k]);
        lemma_cancel_pow2(m, d, yv[k]);
        sums::lemma_cong_eq(d, yv[k]);
    }
    assert(forward(zv) =~= yv);
}

proof fn lemma_ntt_bits(n: int)
    requires
        is_ntt_size(n),
    ensures
        dft::log2(n) <= 27,
        n >= 1,
{
    let m = dft::log2(n);
    lemma2_to64();
    lemma_pow2_pos(m);
    if m > 27 {
        dft::lemma_pow2_monotone(28, m);
    }
}

/// Two sequences of length `n` have a product that fits a transform.
pub open spec fn is_ring_size(n: int) -> bool {
    dft::is_pow2(n) && 2 * n <= 0x800_0000
}

/// The product of two polynomials of `n` coefficients, with every coefficient
/// reduced modulo `q`.
pub open spec fn product_mod(a: Seq<int>, b: Seq<int>) -> Seq<int> {
    Seq::new(a.len() + b.len(), |k: int| poly::conv(a, b, k) % field::q())
}

/// `a` followed by as many zeros.
fn zero_padded(a: &[F]) -> (r: Vec<F>)
    requires
        a@.len() <= 0x400_0000,
    ensures
        field::vals(r@) == dft::padded(field::vals(a@), 2 * a@.len()),
{
    let n: usize = a.len();
    let mut r: Vec<F> = Vec::new();
    let mut i: usize = 0;
    while i < 2 * n
        invariant
            i <= 2 * n,
            n == a@.len(),
            n <= 0x400_0000,
            r@.len() == i,
            forall|j: int| 0 <= j < i ==> #[trigger] r@[j]@ == poly::at(field::vals(a@), j),
        decreases 2 * n - i,
    {
        if i < n {
            r.push(a[i]);
        } else {
            r.push(F::zero());
        }
        i = i + 1;
    }
    assert(field::vals(r@) =~= dft::padded(field::vals(a@), 2 * a@.len()));
    r
}

/// Full product of two polynomials with coefficients `a` and `b` (degree
/// `< n` each), returned as `2n` coefficients (the top coefficient is zero).
///
/// Uses a size-`2n` cyclic NTT on zero-padded inputs, which is exact because
/// `deg(a*b) <= 2n - 2 < 2n`.
pub fn full_poly_mul(a: &[F], b: &[F]) -> (r: Vec<F>)
    requires
        a@.len() == b@.len(),
        is_ring_size(a@.len() as int),
    ensures
        field::vals(r@) == product_mod(field::vals(a@), field::vals(b@)),
        r@.len() == 2 * a@.len(),
        r@[2 * a@.len() - 1]@ == 0,
{
    broadcast use F::lemma_view_range;

    let ghost av = field::vals(a@);
    let ghost bv = field::vals(b@);
    let ghost len = 2 * a@.len();
    proof {
        dft::lemma_is_pow2_step(len as int);
        lemma_ntt_bits(len as int);
    }
    let ghost m = dft::log2(len as int);
    let ghost w = field::two_adic_root(m);
    let mut fa = zero_padded(a);
    let mut fb = zero_padded(b);
    let n: usize = fa.len();
    assert(fa@.len() == field::vals(fa@).len());
    assert(fb@.len() == field::vals(fb@).len());
    ntt(&mut fa, false);
    ntt(&mut fb, false);
    let ghost ya = field::vals(fa@);
    let ghost yb = field::vals(fb@);
    let ghost fa0 = fa@;
    let mut i: usize = 0;
    while i < n
        invariant
            i <= n,
            n == len,
            fa@.len() == n,
            fb@.len() == n,
            fa0.len() == n,
            forall|k: int| i <= k < n ==> #[trigger] fa@[k] == fa0[k],
            forall|k: int|
                0 <= k < i ==> #[trigger] fa@[k]@ == (fa0[k]@ * fb@[k]@) % field::q(),
        decreases n - i,
    {
        let x = fa[i];
        let y = fb[i];
        fa[i] = x.mul(y);
        i = i + 1;
    }
    let ghost prod = field::vals(fa@);
    ntt(&mut fa, true);
    proof {
        dft::lemma_published_root(m);
        let c = poly::product(av, bv);
        assert forall|k: int| 0 <= k < prod.len() implies sums::cong(
            #[trigger] prod[k],
            dft::dft(c, w, k),
        ) by {
            dft::lemma_dft_product(av, bv, w, k);
            dft::lemma_dft_padded(av, len, w, k);
            dft::lemma_dft_padded(bv, len, w, k);
            assert(ya[k] == dft::dft(av, w, k) % field::q());
            assert(yb[k] == dft::dft(bv, w, k) % field::q());
            sums::lemma_cong_mul(ya[k], dft::dft(av, w, k), yb[k], dft::dft(bv, w, k));
        }
        let out = field::vals(fa@);
        assert forall|k: int| 0 <= k < len implies #[trigger] out[k] == c[k] % field::q() by {
            dft::lemma_inversion(c, prod, w, m, k);
            lemma_cancel_pow2(m, out[k], c[k]);
        }
        assert(out =~= product_mod(av, bv));
        poly::lemma_conv_top(av, bv);
        assert(out[2 * a@.len() - 1] == 0);
    }
    fa
}

/// Schoolbook negacyclic product.
pub fn negacyclic_mul_naive(a: &[F], b: &[F]) -> (out: Vec<F>)
    requires
        a@.len() == b@.len(),
    ensures
        out@.len() == a@.len(),
        forall|k: int|
            0 <= k < out@.len() ==> #[trigger] out@[k]@ == poly::nega(
                field::vals(a@),
                field::vals(b@),
                k,
            ) % field::q(),
{
    broadcast use F::lemma_view_range;

    let ghost av = field::vals(a@);
    let ghost bv = field::vals(b@);
    let n: usize = a.len();
    let mut out: Vec<F> = Vec::new();
    let mut i: usize = 0;
    while i < n
        invariant
            i <= n,
            out@.len() == i,
            forall|k: int| 0 <= k < i ==> #[trigger] out@[k]@ == 0,
        decreases n - i,
    {
        out.push(F::zero());
        i = i + 1;
    }
    i = 0;
    while i < n
        invariant
            i <= n,
            n == a@.len(),
            n == b@.len(),
            av == field::vals(a@),
            bv == field::vals(b@),
            out@.len() == n,
            forall|k: int|
                0 <= k < n ==> sums::cong(
                    #[trigger] out@[k]@,
                    sums::sum(0, i as int, |t: int| av[t] * poly::wrapped(bv, k - t)),
                ),
        decreases n - i,
    {
        let mut j: usize = 0;
        let ghost row = out@;
        while j < n
            invariant
                i < n,
                j <= n,
                n == a@.len(),
                n == b@.len(),
                av == field::vals(a@),
                bv == field::vals(b@),
                out@.len() == n,
                row.len() == n,
                forall|k: int|
                    0 <= k < n ==> sums::cong(
                        #[trigger] out@[k]@,
                        row[k]@ + if (i <= k < i + j) || k + n < i + j {
                            av[i as int] * poly::wrapped(bv, k - i)
                        } else {
                            0
                        },
                    ),
            decreases n - j,
        {
            let prod = a[i].mul(b[j]);
            if j < n - i {
                let p: usize = i + j;
                let old_value = out[p];
                proof {
                    poly::lemma_wrapped_range(bv, j as int);
                }
                out[p] = old_value.add(prod);
            } else {
                let p: usize = j - (n - i);
                let old_value = out[p];
                proof {
                    poly::lemma_wrapped_range(bv, p - i);
                    assert(p - i + n == j);
                    let s = av[i as int];
                    let t = bv[j as int];
                    assert(s * (-t) == -(s * t)) by (nonlinear_arith);
                }
                out[p] = old_value.sub(prod);
            }
            j = j + 1;
        }
        i = i + 1;
    }
    proof {
        assert forall|k: int| 0 <= k < n implies #[trigger] out@[k]@ == poly::nega(av, bv, k)
            % field::q() by {
            poly::lemma_nega_comm(av, bv, k);
        }
    }
    out
}

/// Reducing the full product modulo `X^n + 1` gives the schoolbook negacyclic
/// product.
pub proof fn law_full_product_matches_negacyclic(a: Seq<F>, b: Seq<F>, k: int)
    requires
        a.len() == b.len(),
        0 <= k < a.len(),
    ensures
        (product_mod(field::vals(a), field::vals(b))[k] - product_mod(
            field::vals(a),
            field::vals(b),
        )[a.len() + k]) % field::q() == poly::nega(field::vals(a), field::vals(b), k) % field::q(),
{
    poly::lemma_nega_split(field::vals(a), field::vals(b), k);
}

} // verus!
