//! What the scheme promises: decryption undoes encryption, ciphertext addition
//! adds messages, and the encryption witness satisfies the ring identities.

use crate::field;
use crate::params::RegevParams;
use crate::poly;
use crate::regev;
use crate::regev::{CiphertextModel, KeyModel, WitnessModel};
use crate::sums;
use vstd::arithmetic::power2::*;
use vstd::prelude::*;

verus! {

/// Under the secret `s`, every phase of `ct` is `D * msg + noise` modulo `q`.
pub open spec fn opens_to(
    params: RegevParams,
    s: Seq<int>,
    ct: CiphertextModel,
    msg: Seq<int>,
    noise: Seq<int>,
) -> bool {
    &&& ct.sized(params.n as int)
    &&& s.len() == params.n
    &&& msg.len() == params.n
    &&& noise.len() == params.n
    &&& forall|k: int|
        0 <= k < params.n ==> sums::cong(
            #[trigger] regev::phase(s, ct, k),
            params.scale() * msg[k] + noise[k],
        )
}

/// Every entry has magnitude at most `bound`.
pub open spec fn bounded(x: Seq<int>, bound: int) -> bool {
    forall|k: int| 0 <= k < x.len() ==> sums::abs(#[trigger] x[k]) <= bound
}

/// Entry-wise sum.
pub open spec fn plus(x: Seq<int>, y: Seq<int>) -> Seq<int> {
    Seq::new(x.len(), |k: int| x[k] + y[k])
}

/// A phase within `D/2` of `D * m` rounds to the digit `m`.
proof fn lemma_digit(params: RegevParams, v: int, m: int, e: int)
    requires
        params.valid(),
        0 <= v < field::q(),
        sums::cong(v, params.scale() * m + e),
        0 <= m < params.modulus(),
        2 * sums::abs(e) < params.scale(),
    ensures
        regev::digit(v, params.modulus()) == m,
{
    lemma_scale_even(params);
    lemma_digit_at(params.modulus(), params.scale() / 2, v, m, e);
}

/// `D * t = q - 1`, and `D` is even.
proof fn lemma_scale_even(params: RegevParams)
    requires
        params.valid(),
    ensures
        2 <= params.modulus() <= 256,
        params.scale() % 2 == 0,
        (params.scale() / 2) * params.modulus() == 1006632960,
        params.scale() * params.modulus() == 2013265920,
        params.plain_bits == 8 ==> params.modulus() == 256 && params.scale() == 7864320,
{
    lemma2_to64();
    let t = params.modulus();
    let b = params.plain_bits;
    let d = if b == 1 {
        1006632960int
    } else if b == 2 {
        503316480
    } else if b == 3 {
        251658240
    } else if b == 4 {
        125829120
    } else if b == 5 {
        62914560
    } else if b == 6 {
        31457280
    } else if b == 7 {
        15728640
    } else {
        7864320
    };
    assert(d * t == 2013265920 && (d / 2) * t == 1006632960 && 2 <= t <= 256 && d % 2 == 0) by {
        if b == 1 {
            assert(t == 2 && d == 1006632960);
        } else if b == 2 {
            assert(t == 4 && d == 503316480);
        } else if b == 3 {
            assert(t == 8 && d == 251658240);
        } else if b == 4 {
            assert(t == 16 && d == 125829120);
        } else if b == 5 {
            assert(t == 32 && d == 62914560);
        } else if b == 6 {
            assert(t == 64 && d == 31457280);
        } else if b == 7 {
            assert(t == 128 && d == 15728640);
        } else {
            assert(t == 256 && d == 7864320);
        }
        assert(d * t == 2013265920) by (nonlinear_arith)
            requires
                (t == 2 && d == 1006632960) || (t == 4 && d == 503316480) || (t == 8 && d
                    == 251658240) || (t == 16 && d == 125829120) || (t == 32 && d == 62914560) || (t
                    == 64 && d == 31457280) || (t == 128 && d == 15728640) || (t == 256 && d
                    == 7864320),
        ;
        let h = d / 2;
        assert(h * t == 1006632960) by (nonlinear_arith)
            requires
                d * t == 2013265920,
                d == 2 * h,
        ;
    }
    vstd::arithmetic::div_mod::lemma_fundamental_div_mod_converse(2013265921, t, d, 1);
}

proof fn lemma_digit_at(t: int, h: int, v: int, m: int, e: int)
    requires
        t >= 2,
        h * t == 1006632960,
        0 <= v < field::q(),
        sums::cong(v, 2 * h * m + e),
        0 <= m < t,
        sums::abs(e) < h,
    ensures
        regev::digit(v, t) == m,
{
    let scale = 2 * h;
    assert(scale * t == 2013265920) by (nonlinear_arith)
        requires
            h * t == 1006632960,
            scale == 2 * h,
    ;
    // The representative is scale * m + e itself, or q more if that is negative.
    let x = scale * m + e;
    assert(0 <= scale * m && scale * m <= scale * t - scale) by (nonlinear_arith)
        requires
            0 <= m <= t - 1,
            scale >= 0,
    ;
    assert(e * t <= h * t - t && -(e * t) <= h * t - t) by (nonlinear_arith)
        requires
            e <= h - 1,
            -e <= h - 1,
            t >= 2,
    ;
    let r = e * t - m + 1006632960;
    if x >= 0 {
        assert(v == x);
        assert((scale * m + e) * t + 1006632960 == 2013265921 * m + r) by (nonlinear_arith)
            requires
                scale * t == 2013265920,
                r == e * t - m + 1006632960,
        ;
        assert((v * t + 1006632960) / 2013265921 == m);
        vstd::arithmetic::div_mod::lemma_small_mod(m as nat, t as nat);
    } else {
        assert(v == x + 2013265921);
        assert(m == 0) by (nonlinear_arith)
            requires
                scale * m + e < 0,
                -2 * e < scale,
                m >= 0,
                scale >= 1,
        {
            if m >= 1 {
                assert(scale * m >= scale);
            }
        }
        assert(scale * m == 0) by (nonlinear_arith)
            requires
                m == 0,
        ;
        assert((e + 2013265921) * t + 1006632960 == 2013265921 * t + r) by (nonlinear_arith)
            requires
                r == e * t - m + 1006632960,
                m == 0,
        ;
        assert((v * t + 1006632960) / 2013265921 == t);
        vstd::arithmetic::div_mod::lemma_mod_self_0(t);
    }
}

proof fn lemma_phase_digit(params: RegevParams, p: int, m: int, e: int)
    requires
        params.valid(),
        sums::cong(p, params.scale() * m + e),
        0 <= m < params.modulus(),
        2 * sums::abs(e) < params.scale(),
    ensures
        regev::digit(p % field::q(), params.modulus()) == m,
{
    sums::lemma_cong_mod(p);
    let x = params.scale() * m + e;
    sums::lemma_cong_trans(p % field::q(), p, x);
    lemma_digit(params, p % field::q(), m, e);
}

/// A ciphertext whose noise stays below `D/2` and whose digits stay below `t`
/// decrypts to its digits.
pub proof fn law_decryption_within_budget(
    params: RegevParams,
    s: Seq<int>,
    ct: CiphertextModel,
    msg: Seq<int>,
    noise: Seq<int>,
)
    requires
        params.valid(),
        opens_to(params, s, ct, msg, noise),
        regev::within(msg, 0, params.modulus() - 1),
        forall|k: int|
            0 <= k < params.n ==> 2 * sums::abs(#[trigger] noise[k]) < params.scale(),
    ensures
        regev::decryption(params, s, ct) == msg,
{
    let d = regev::decryption(params, s, ct);
    assert forall|k: int| 0 <= k < params.n implies #[trigger] d[k] == msg[k] by {
        assert(2 * sums::abs(noise[k]) < params.scale());
        assert(0 <= msg[k] <= params.modulus() - 1);
        lemma_phase_digit(params, regev::phase(s, ct, k), msg[k], noise[k]);
    }
    assert(d =~= msg);
}

/// The noise of a fresh encryption: `e*r + e2 - e1*s`.
pub open spec fn fresh_noise(pk: KeyModel, s: Seq<int>, w: WitnessModel) -> Seq<int> {
    Seq::new(
        pk.a.len(),
        |k: int|
            poly::nega(regev::key_noise(pk, s), w.r, k) + w.e2()[k] - poly::nega(w.e1(), s, k),
    )
}

/// A reduced product of factors bounded by 2 and by 1 is bounded by `2n`.
proof fn lemma_nega_bound(e: Seq<int>, r: Seq<int>, k: int)
    requires
        e.len() > 0,
        r.len() == e.len(),
        0 <= k < e.len(),
        regev::within(e, -2, 2),
        regev::within(r, -1, 1),
    ensures
        sums::abs(poly::nega(e, r, k)) <= 2 * e.len(),
{
    let f = |j: int| r[j] * poly::wrapped(e, k - j);
    assert forall|j: int| 0 <= j < e.len() implies sums::abs(#[trigger] f(j)) <= 2 by {
        poly::lemma_wrapped_range(e, k - j);
        let v = poly::wrapped(e, k - j);
        if k - j >= 0 {
            assert(-2 <= e[k - j] <= 2);
        } else {
            assert(-2 <= e[k - j + e.len()] <= 2);
        }
        let x = r[j];
        assert(-1 <= x <= 1);
        if x == -1 {
            assert(x * v == -v);
        } else if x == 0 {
            assert(x * v == 0);
        } else {
            assert(x * v == v);
        }
    }
    sums::lemma_sum_bound(0, e.len() as int, 2, f);
}

/// A fresh encryption opens to its message with noise at most `4n + 2`.
pub proof fn law_fresh_encryption_opens(
    params: RegevParams,
    pk: KeyModel,
    s: Seq<int>,
    w: WitnessModel,
)
    requires
        params.n > 0,
        regev::key_pair(pk, s, params.n as int),
        w.sized(params.n as int),
        w.small(),
    ensures
        opens_to(params, s, regev::encryption(params, pk, w), w.m, fresh_noise(pk, s, w)),
        bounded(fresh_noise(pk, s, w), 4 * params.n + 2),
{
    let ct = regev::encryption(params, pk, w);
    let n = params.n as int;
    let e = regev::key_noise(pk, s);
    let e1 = w.e1();
    let e2 = w.e2();
    let a_s = poly::nega_seq(pk.a, s);
    let ar = poly::nega_seq(pk.a, w.r);
    let b1 = plus(a_s, e);
    let c1 = plus(ar, e1);
    assert forall|i: int| 0 <= i < n implies sums::cong(#[trigger] pk.b[i], b1[i]) by {
        assert(e[i] == regev::centered(pk.b[i] - poly::nega(pk.a, s, i)));
    }
    assert(poly::cong_seq(pk.b, b1));
    assert(poly::cong_seq(ct.c1, c1));
    assert(poly::cong_seq(w.r, w.r));
    assert(poly::cong_seq(s, s));
    let noise = fresh_noise(pk, s, w);
    assert forall|k: int| 0 <= k < n implies sums::cong(
        #[trigger] regev::phase(s, ct, k),
        params.scale() * w.m[k] + noise[k],
    ) by {
        poly::lemma_nega_cong(pk.b, b1, w.r, w.r, k);
        poly::lemma_nega_add(a_s, e, b1, w.r, k);
        poly::lemma_nega_cong(ct.c1, c1, s, s, k);
        poly::lemma_nega_add(ar, e1, c1, s, k);
        poly::lemma_nega_exchange(pk.a, s, w.r, k);
    }
    assert(regev::within(e1, -2, 2)) by {
        assert forall|i: int| 0 <= i < e1.len() implies -2 <= #[trigger] e1[i] <= 2 by {
            assert(0 <= w.e1u[i] <= 2);
            assert(0 <= w.e1v[i] <= 2);
        }
    }
    assert forall|k: int| 0 <= k < noise.len() implies sums::abs(#[trigger] noise[k]) <= 4 * n
        + 2 by {
        lemma_nega_bound(e, w.r, k);
        lemma_nega_bound(e1, s, k);
        assert(0 <= w.e2u[k] <= 2);
        assert(0 <= w.e2v[k] <= 2);
        assert(e2[k] == w.e2u[k] - w.e2v[k]);
    }
}

/// Decryption undoes encryption, as long as the worst-case fresh noise
/// `4n + 2` is below `D/2`.
pub proof fn law_decrypt_undoes_encrypt(
    params: RegevParams,
    pk: KeyModel,
    s: Seq<int>,
    w: WitnessModel,
)
    requires
        params.valid(),
        regev::key_pair(pk, s, params.n as int),
        w.sized(params.n as int),
        w.small(),
        2 * (4 * params.n + 2) < params.scale(),
    ensures
        regev::decryption(params, s, regev::encryption(params, pk, w)) == w.m,
{
    lemma_valid(params);
    law_fresh_encryption_opens(params, pk, s, w);
    let noise = fresh_noise(pk, s, w);
    assert forall|k: int| 0 <= k < params.n implies 2 * sums::abs(#[trigger] noise[k])
        < params.scale() by {}
    assert forall|k: int| 0 <= k < w.m.len() implies 0 <= #[trigger] w.m[k] <= params.modulus()
        - 1 by {}
    law_decryption_within_budget(
        params,
        s,
        regev::encryption(params, pk, w),
        w.m,
        noise,
    );
}

proof fn lemma_valid(params: RegevParams)
    requires
        params.valid(),
    ensures
        params.n >= 1,
        2 <= params.modulus() <= 256,
        params.scale() * params.modulus() == 2013265920,
{
    lemma_pow2_pos(crate::dft::log2(params.n as int));
    lemma_scale_even(params);
}

/// The published parameter sets are within the noise budget, also after the 255
/// stacked additions that their digits allow.
pub proof fn law_published_parameters_decrypt(params: RegevParams)
    requires
        params == (RegevParams { n: 1024, eta: 2, plain_bits: 8 }) || params == (RegevParams {
            n: 2048,
            eta: 2,
            plain_bits: 8,
        }),
    ensures
        params.valid(),
        2 * (4 * params.n + 2) < params.scale(),
        params.modulus() == 256,
        2 * (255 * (4 * params.n + 2)) < params.scale(),
{
    lemma2_to64();
    crate::dft::lemma_log2_pow2(10);
    crate::dft::lemma_log2_pow2(11);
    lemma_scale_even(params);
}

/// Adding ciphertexts adds their messages and their noises.
pub proof fn law_addition_adds_messages(
    params: RegevParams,
    s: Seq<int>,
    x: CiphertextModel,
    y: CiphertextModel,
    mx: Seq<int>,
    my: Seq<int>,
    ex: Seq<int>,
    ey: Seq<int>,
)
    requires
        params.n > 0,
        opens_to(params, s, x, mx, ex),
        opens_to(params, s, y, my, ey),
    ensures
        opens_to(params, s, regev::ciphertext_sum(x, y), plus(mx, my), plus(ex, ey)),
{
    let z = regev::ciphertext_sum(x, y);
    let c1 = plus(x.c1, y.c1);
    assert(poly::cong_seq(z.c1, c1));
    assert(poly::cong_seq(s, s));
    let m = plus(mx, my);
    let e = plus(ex, ey);
    assert forall|k: int| 0 <= k < params.n implies sums::cong(
        #[trigger] regev::phase(s, z, k),
        params.scale() * m[k] + e[k],
    ) by {
        poly::lemma_nega_cong(z.c1, c1, s, s, k);
        poly::lemma_nega_add(x.c1, y.c1, c1, s, k);
        assert(sums::cong(regev::phase(s, x, k), params.scale() * mx[k] + ex[k]));
        assert(sums::cong(regev::phase(s, y, k), params.scale() * my[k] + ey[k]));
        let d = params.scale();
        let u = mx[k];
        let v = my[k];
        assert(d * (u + v) == d * u + d * v) by (nonlinear_arith);
    }
}

/// The weighted value of digits is additive: no carries are needed.
pub proof fn law_weighted_value_is_additive(x: Seq<int>, y: Seq<int>)
    requires
        x.len() == y.len(),
    ensures
        regev::weighted(plus(x, y)) == regev::weighted(x) + regev::weighted(y),
{
    let z = plus(x, y);
    let f = |i: int| x[i] * pow2(i as nat);
    let g = |i: int| y[i] * pow2(i as nat);
    let h = |i: int| z[i] * pow2(i as nat);
    assert forall|i: int| 0 <= i < x.len() implies #[trigger] h(i) == f(i) + g(i) by {
        let p = pow2(i as nat) as int;
        let u = x[i];
        let v = y[i];
        assert((u + v) * p == u * p + v * p) by (nonlinear_arith);
    }
    sums::lemma_sum_add(0, x.len() as int, f, g, h);
}

/// The homomorphic sum of a nonempty list of ciphertexts, added left to right.
pub open spec fn ciphertext_total(cts: Seq<CiphertextModel>) -> CiphertextModel
    decreases cts.len(),
{
    if cts.len() <= 1 {
        cts[0]
    } else {
        regev::ciphertext_sum(ciphertext_total(cts.drop_last()), cts.last())
    }
}

/// The entry-wise sum of a nonempty list of coefficient vectors.
pub open spec fn vector_total(xs: Seq<Seq<int>>) -> Seq<int>
    decreases xs.len(),
{
    if xs.len() <= 1 {
        xs[0]
    } else {
        plus(vector_total(xs.drop_last()), xs.last())
    }
}

/// The sum of the weighted values of a list of coefficient vectors.
pub open spec fn value_total(xs: Seq<Seq<int>>) -> int
    decreases xs.len(),
{
    if xs.len() == 0 {
        0
    } else {
        value_total(xs.drop_last()) + regev::weighted(xs.last())
    }
}

/// The ciphertexts of fresh encryptions under one key.
pub open spec fn encryptions(params: RegevParams, pk: KeyModel, ws: Seq<WitnessModel>) -> Seq<
    CiphertextModel,
> {
    Seq::new(ws.len(), |i: int| regev::encryption(params, pk, ws[i]))
}

/// The messages of a list of witnesses.
pub open spec fn messages(ws: Seq<WitnessModel>) -> Seq<Seq<int>> {
    Seq::new(ws.len(), |i: int| ws[i].m)
}

proof fn lemma_stacked(params: RegevParams, pk: KeyModel, s: Seq<int>, ws: Seq<WitnessModel>)
    requires
        params.n > 0,
        ws.len() >= 1,
        regev::key_pair(pk, s, params.n as int),
        forall|i: int|
            0 <= i < ws.len() ==> (#[trigger] ws[i]).sized(params.n as int) && ws[i].small(),
    ensures
        exists|noise: Seq<int>|
            opens_to(
                params,
                s,
                ciphertext_total(encryptions(params, pk, ws)),
                vector_total(messages(ws)),
                noise,
            ) && #[trigger] bounded(noise, ws.len() * (4 * params.n + 2)),
        vector_total(messages(ws)).len() == params.n,
        regev::within(vector_total(messages(ws)), 0, ws.len() as int),
        regev::weighted(vector_total(messages(ws))) == value_total(messages(ws)),
    decreases ws.len(),
{
    let n = params.n as int;
    let cts = encryptions(params, pk, ws);
    let msgs = messages(ws);
    let step = 4 * n + 2;
    let last = ws.last();
    assert(last == ws[ws.len() - 1]);
    law_fresh_encryption_opens(params, pk, s, last);
    let fresh = fresh_noise(pk, s, last);
    if ws.len() == 1 {
        assert(ws.len() * step == step) by (nonlinear_arith)
            requires
                ws.len() == 1,
        ;
        assert(ciphertext_total(cts) == regev::encryption(params, pk, last));
        assert(vector_total(msgs) == last.m);
        assert(bounded(fresh, ws.len() * step));
        assert(value_total(msgs) == value_total(msgs.drop_last()) + regev::weighted(last.m));
        assert(msgs.drop_last().len() == 0);
    } else {
        let prev = ws.drop_last();
        assert forall|i: int| 0 <= i < prev.len() implies (#[trigger] prev[i]).sized(n)
            && prev[i].small() by {
            assert(prev[i] == ws[i]);
        }
        lemma_stacked(params, pk, s, prev);
        assert(encryptions(params, pk, prev) =~= cts.drop_last());
        assert(messages(prev) =~= msgs.drop_last());
        let pm = vector_total(messages(prev));
        let noise0 = choose|noise: Seq<int>|
            opens_to(params, s, ciphertext_total(encryptions(params, pk, prev)), pm, noise)
                && #[trigger] bounded(noise, prev.len() * step);
        law_addition_adds_messages(
            params,
            s,
            ciphertext_total(cts.drop_last()),
            cts.last(),
            pm,
            last.m,
            noise0,
            fresh,
        );
        let noise = plus(noise0, fresh);
        assert(ws.len() * step == prev.len() * step + step) by (nonlinear_arith)
            requires
                ws.len() == prev.len() + 1,
        ;
        assert(bounded(noise, ws.len() * step)) by {
            assert forall|k: int| 0 <= k < noise.len() implies sums::abs(#[trigger] noise[k])
                <= ws.len() * step by {
                assert(sums::abs(noise0[k]) <= prev.len() * step);
                assert(sums::abs(fresh[k]) <= step);
            }
        }
        law_weighted_value_is_additive(pm, last.m);
        let total = vector_total(msgs);
        assert(total == plus(pm, last.m));
        assert forall|k: int| 0 <= k < total.len() implies 0 <= #[trigger] total[k]
            <= ws.len() by {
            assert(0 <= pm[k] <= prev.len());
            assert(0 <= last.m[k] <= 1);
        }
    }
}

/// Stacked additions: the sum of `k < t` fresh encryptions of binary messages
/// decrypts, digit by digit, to the sum of the messages, and its value is the
/// sum of the values, as long as the accumulated worst-case noise
/// `k * (4n + 2)` is below `D/2`.
pub proof fn law_stacked_additions(
    params: RegevParams,
    pk: KeyModel,
    s: Seq<int>,
    ws: Seq<WitnessModel>,
)
    requires
        params.valid(),
        regev::key_pair(pk, s, params.n as int),
        1 <= ws.len() < params.modulus(),
        forall|i: int|
            0 <= i < ws.len() ==> (#[trigger] ws[i]).sized(params.n as int) && ws[i].small(),
        2 * (ws.len() * (4 * params.n + 2)) < params.scale(),
    ensures
        regev::decryption(params, s, ciphertext_total(encryptions(params, pk, ws)))
            == vector_total(messages(ws)),
        regev::weighted(
            regev::decryption(params, s, ciphertext_total(encryptions(params, pk, ws))),
        ) == value_total(messages(ws)),
{
    lemma_valid(params);
    lemma_stacked(params, pk, s, ws);
    let ct = ciphertext_total(encryptions(params, pk, ws));
    let msg = vector_total(messages(ws));
    let bound = ws.len() * (4 * params.n + 2);
    let noise = choose|noise: Seq<int>|
        opens_to(params, s, ct, msg, noise) && #[trigger] bounded(noise, bound);
    assert forall|k: int| 0 <= k < params.n implies 2 * sums::abs(#[trigger] noise[k])
        < params.scale() by {
        assert(sums::abs(noise[k]) <= bound);
    }
    assert forall|k: int| 0 <= k < msg.len() implies 0 <= #[trigger] msg[k] <= params.modulus()
        - 1 by {}
    law_decryption_within_budget(params, s, ct, msg, noise);
}

/// The value-level homomorphism: the sum of encryptions of the encoded values
/// `a` and `b` decrypts to the value `a + b`, and none of its digits sits above
/// coefficient 63.
pub proof fn law_value_homomorphism(
    params: RegevParams,
    pk: KeyModel,
    s: Seq<int>,
    wa: WitnessModel,
    wb: WitnessModel,
    a: u64,
    b: u64,
)
    requires
        params.valid(),
        regev::key_pair(pk, s, params.n as int),
        wa.sized(params.n as int),
        wb.sized(params.n as int),
        wa.small(),
        wb.small(),
        params.n >= 64 || (a < pow2(params.n as nat) && b < pow2(params.n as nat)),
        wa.m == regev::bits_of(a as int, params.n as nat),
        wb.m == regev::bits_of(b as int, params.n as nat),
        params.plain_bits >= 2,
        4 * (4 * params.n + 2) < params.scale(),
    ensures
        regev::weighted(
            regev::decryption(
                params,
                s,
                regev::ciphertext_sum(
                    regev::encryption(params, pk, wa),
                    regev::encryption(params, pk, wb),
                ),
            ),
        ) == a + b,
        forall|i: int|
            64 <= i < params.n ==> #[trigger] regev::decryption(
                params,
                s,
                regev::ciphertext_sum(
                    regev::encryption(params, pk, wa),
                    regev::encryption(params, pk, wb),
                ),
            )[i] == 0,
{
    let ws = seq![wa, wb];
    lemma2_to64();
    crate::dft::lemma_pow2_monotone(2, params.plain_bits as nat);
    let cts = encryptions(params, pk, ws);
    let msgs = messages(ws);
    assert(2 * (2 * (4 * params.n + 2)) == 4 * (4 * params.n + 2));
    law_stacked_additions(params, pk, s, ws);
    assert(cts.drop_last()[0] == cts[0]);
    assert(ciphertext_total(cts.drop_last()) == cts[0]);
    assert(msgs.drop_last()[0] == msgs[0]);
    assert(vector_total(msgs.drop_last()) == msgs[0]);
    assert(msgs.drop_last().drop_last().len() == 0);
    assert(value_total(msgs.drop_last().drop_last()) == 0);
    assert(msgs.drop_last().last() == wa.m);
    assert(msgs.last() == wb.m);
    assert(value_total(msgs.drop_last()) == regev::weighted(wa.m));
    assert(value_total(msgs) == regev::weighted(wa.m) + regev::weighted(wb.m));
    law_encoding_roundtrip(a, params.n as nat);
    law_encoding_roundtrip(b, params.n as nat);
    assert forall|i: int| 64 <= i < params.n implies #[trigger] vector_total(msgs)[i] == 0 by {
        crate::dft::lemma_pow2_monotone(64, i as nat);
        lemma2_to64();
        lemma2_to64_rest();
        vstd::arithmetic::div_mod::lemma_basic_div(a as int, pow2(i as nat) as int);
        vstd::arithmetic::div_mod::lemma_basic_div(b as int, pow2(i as nat) as int);
    }
}

/// The weighted value of the bits of a value that fits is the value.
pub proof fn law_encoding_roundtrip(value: u64, n: nat)
    requires
        n >= 64 || value < pow2(n),
    ensures
        regev::weighted(regev::bits_of(value as int, n)) == value,
{
    let m = regev::bits_of(value as int, n);
    let f = |i: int| m[i] * pow2(i as nat);
    lemma_bits_prefix(value as int, n, n);
    lemma_pow2_pos(n);
    lemma2_to64();
    lemma2_to64_rest();
    if n >= 64 {
        crate::dft::lemma_pow2_monotone(64, n);
    }
    vstd::arithmetic::div_mod::lemma_basic_div(value as int, pow2(n) as int);
    assert(0 * pow2(n) == 0);
}

proof fn lemma_bits_prefix(value: int, n: nat, i: nat)
    requires
        value >= 0,
        i <= n,
    ensures
        value == sums::sum(
            0,
            i as int,
            |j: int| regev::bits_of(value, n)[j] * pow2(j as nat),
        ) + (value / pow2(i) as int) * pow2(i),
    decreases i,
{
    let m = regev::bits_of(value, n);
    let f = |j: int| m[j] * pow2(j as nat);
    if i == 0 {
        lemma2_to64();
        assert(value / 1 == value);
        assert(value == sums::sum(0, 0, f) + (value / pow2(0) as int) * pow2(0));
    } else {
        let j = (i - 1) as nat;
        lemma_bits_prefix(value, n, j);
        crate::dft::lemma_pow2_step(j);
        let p = pow2(j) as int;
        vstd::arithmetic::div_mod::lemma_div_denominator(value, p, 2);
        assert(p * 2 == pow2(i));
        let rest = value / p;
        let h = rest / 2;
        let b = rest % 2;
        assert(rest * p == b * p + h * (2 * p)) by (nonlinear_arith)
            requires
                rest == 2 * h + b,
        ;
        assert(f(j as int) == b * p);
        assert(sums::sum(0, i as int, f) == sums::sum(0, j as int, f) + f(j as int));
        assert(value / pow2(i) as int == h);
        assert(h * pow2(i) == h * (2 * p));
    }
}

/// Coefficient `i` of `(X^n + 1) * k`.
pub open spec fn times_cyclotomic(k: Seq<int>, n: int, i: int) -> int {
    poly::at(k, i) + poly::at(k, i - n)
}

/// The witness satisfies the ring identities that the proof system checks, as
/// identities of polynomials of degree below `2n`:
/// `a*r + e1 = c1 + (X^n + 1)*k1` and `b*r + e2 + D*m = c2 + (X^n + 1)*k2`.
pub proof fn law_witness_ring_identities(
    params: RegevParams,
    pk: KeyModel,
    w: WitnessModel,
    i: int,
)
    requires
        params.n > 0,
        pk.sized(params.n as int),
        w.sized(params.n as int),
        w.k1 == regev::quotient(pk.a, w.r),
        w.k2 == regev::quotient(pk.b, w.r),
        0 <= i < 2 * params.n,
    ensures
        sums::cong(
            poly::conv(pk.a, w.r, i) + poly::at(w.e1(), i),
            poly::at(regev::encryption(params, pk, w).c1, i) + times_cyclotomic(
                w.k1,
                params.n as int,
                i,
            ),
        ),
        sums::cong(
            poly::conv(pk.b, w.r, i) + poly::at(w.e2(), i) + params.scale() * poly::at(w.m, i),
            poly::at(regev::encryption(params, pk, w).c2, i) + times_cyclotomic(
                w.k2,
                params.n as int,
                i,
            ),
        ),
{
    let n = params.n as int;
    let ct = regev::encryption(params, pk, w);
    if i < n {
        poly::lemma_nega_split(pk.a, w.r, i);
        poly::lemma_nega_split(pk.b, w.r, i);
        assert(w.k1[i] == poly::conv(pk.a, w.r, n + i) % field::q());
        assert(w.k2[i] == poly::conv(pk.b, w.r, n + i) % field::q());
        assert(ct.c1[i] == (poly::nega(pk.a, w.r, i) + w.e1()[i]) % field::q());
        assert(ct.c2[i] == (poly::nega(pk.b, w.r, i) + w.e2()[i] + params.scale() * w.m[i])
            % field::q());
    } else {
        assert(w.k1[i - n] == poly::conv(pk.a, w.r, n + (i - n)) % field::q());
        assert(w.k2[i - n] == poly::conv(pk.b, w.r, n + (i - n)) % field::q());
        let d = params.scale();
        assert(d * 0 == 0) by (nonlinear_arith);
    }
}

} // verus!
