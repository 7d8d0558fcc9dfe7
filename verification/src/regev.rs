//! Regev-style Ring-LWE public-key encryption over `R_q = Z_q[x]/(x^n + 1)`
//! with `q` = the BabyBear prime.
//!
//! KeyGen:  `s <- ternary`, `e <- CBD(2)`, `b = a*s + e` for uniform `a`.
//! Encrypt: `r <- ternary`, `e1, e2 <- CBD(2)`,
//!          `c1 = a*r + e1`, `c2 = b*r + e2 + D*m` with `m` in `{0,1}[x]`,
//!          where `D = floor(q / t)`, `t = 2^plain_bits`.
//! Decrypt: `v = c2 - c1*s = D*m + (e*r - e1*s + e2)`; round each
//!          coefficient to the nearest multiple of `D`, giving a digit
//!          in `[0, t)` per coefficient.
//!
//! # Additive homomorphism (value level)
//!
//! Ciphertext addition is coefficient-wise; since each plaintext slot has
//! digit headroom `t` (not just `{0,1}`), sums do not wrap mod 2:
//!
//! ```text
//! decrypt_value(add_ciphertexts(Enc(A), Enc(B))) = A + B
//! ```
//!
//! where values are encoded as little-endian bits over the coefficients
//! ([`encode_value_message`]) and decoded as the sum of digit times `2^i`
//! ([`decrypt_value`]).
//!
//! [`encrypt`] also returns an [`EncryptionWitness`] containing everything
//! the STARK prover needs, including the quotient polynomials `k1, k2` of
//! the reduction mod `x^n + 1`:
//!
//! ```text
//! a*r + e1          = c1 + (x^n + 1)*k1      (over Z_q[x], degrees < 2n-1)
//! b*r + e2 + D*m    = c2 + (x^n + 1)*k2
//! ```

use crate::dft;
use crate::field;
use crate::field::F;
use crate::ntt;
use crate::ntt::full_poly_mul;
use crate::params::RegevParams;
use crate::poly;
use crate::sums;
use p3_baby_bear::BabyBear;
use p3_field::PrimeField32;
use rand::rngs::SmallRng;
use rand::RngExt;
use vstd::arithmetic::power2::*;
use vstd::prelude::*;

verus! {

/// Public key: uniform `a` and `b = a*s + e`.
#[derive(Clone, Debug)]
pub struct PublicKey {
    pub a: Vec<F>,
    pub b: Vec<F>,
}

/// Secret key: ternary `s`.
#[derive(Clone, Debug)]
pub struct SecretKey {
    pub s: Vec<i8>,
}

/// A Regev ciphertext `(c1, c2)`.
#[derive(Clone, Debug, PartialEq, Eq)]
pub struct Ciphertext {
    pub c1: Vec<F>,
    pub c2: Vec<F>,
}

/// Everything the prover needs to show `(c1, c2)` is a well-formed
/// encryption of some binary message under `(a, b)`.
#[derive(Clone, Debug)]
pub struct EncryptionWitness {
    /// Ternary encryption randomness, entries in `{-1, 0, 1}`.
    pub r: Vec<i8>,
    /// CBD(2) noise for `c1`, decomposed as `e1 = e1u - e1v`,
    /// `e1u, e1v` in `{0, 1, 2}`.
    pub e1u: Vec<u8>,
    pub e1v: Vec<u8>,
    /// CBD(2) noise for `c2`, same decomposition.
    pub e2u: Vec<u8>,
    pub e2v: Vec<u8>,
    /// The binary message polynomial.
    pub m: Vec<u8>,
    /// Quotient of `(a*r + e1)` by `x^n + 1` (degree `<= n-2`, padded to n).
    pub k1: Vec<F>,
    /// Quotient of `(b*r + e2 + D*m)` by `x^n + 1`.
    pub k2: Vec<F>,
}

// ---------------------------------------------------------------------------
// Models: polynomials as sequences of integer coefficients.
// ---------------------------------------------------------------------------
/// The integers held by a sequence of bytes.
pub open spec fn bytes(s: Seq<u8>) -> Seq<int> {
    Seq::new(s.len(), |i: int| s[i] as int)
}

/// The integers held by a sequence of signed bytes.
pub open spec fn signed(s: Seq<i8>) -> Seq<int> {
    Seq::new(s.len(), |i: int| s[i] as int)
}

/// The difference of two sequences.
pub open spec fn difference(u: Seq<int>, v: Seq<int>) -> Seq<int> {
    Seq::new(u.len(), |i: int| u[i] - v[i])
}

pub ghost struct KeyModel {
    pub a: Seq<int>,
    pub b: Seq<int>,
}

pub ghost struct CiphertextModel {
    pub c1: Seq<int>,
    pub c2: Seq<int>,
}

pub ghost struct WitnessModel {
    pub r: Seq<int>,
    pub e1u: Seq<int>,
    pub e1v: Seq<int>,
    pub e2u: Seq<int>,
    pub e2v: Seq<int>,
    pub m: Seq<int>,
    pub k1: Seq<int>,
    pub k2: Seq<int>,
}

impl View for PublicKey {
    type V = KeyModel;

    open spec fn view(&self) -> KeyModel {
        KeyModel { a: field::vals(self.a@), b: field::vals(self.b@) }
    }
}

impl View for SecretKey {
    type V = Seq<int>;

    open spec fn view(&self) -> Seq<int> {
        signed(self.s@)
    }
}

impl View for Ciphertext {
    type V = CiphertextModel;

    open spec fn view(&self) -> CiphertextModel {
        CiphertextModel { c1: field::vals(self.c1@), c2: field::vals(self.c2@) }
    }
}

impl View for EncryptionWitness {
    type V = WitnessModel;

    open spec fn view(&self) -> WitnessModel {
        WitnessModel {
            r: signed(self.r@),
            e1u: bytes(self.e1u@),
            e1v: bytes(self.e1v@),
            e2u: bytes(self.e2u@),
            e2v: bytes(self.e2v@),
            m: bytes(self.m@),
            k1: field::vals(self.k1@),
            k2: field::vals(self.k2@),
        }
    }
}

impl KeyModel {
    /// Both halves have `n` coefficients.
    pub open spec fn sized(self, n: int) -> bool {
        self.a.len() == n && self.b.len() == n
    }
}

impl CiphertextModel {
    /// Both halves have `n` coefficients.
    pub open spec fn sized(self, n: int) -> bool {
        self.c1.len() == n && self.c2.len() == n
    }
}

impl WitnessModel {
    /// Every polynomial has `n` coefficients.
    pub open spec fn sized(self, n: int) -> bool {
        &&& self.r.len() == n
        &&& self.e1u.len() == n
        &&& self.e1v.len() == n
        &&& self.e2u.len() == n
        &&& self.e2v.len() == n
        &&& self.m.len() == n
        &&& self.k1.len() == n
        &&& self.k2.len() == n
    }

    /// The smallness that the proof system enforces: `r` ternary, the noise
    /// halves in `{0, 1, 2}`, `m` binary.
    pub open spec fn small(self) -> bool {
        &&& ternary(self.r)
        &&& within(self.e1u, 0, 2)
        &&& within(self.e1v, 0, 2)
        &&& within(self.e2u, 0, 2)
        &&& within(self.e2v, 0, 2)
        &&& within(self.m, 0, 1)
    }

    pub open spec fn e1(self) -> Seq<int> {
        difference(self.e1u, self.e1v)
    }

    pub open spec fn e2(self) -> Seq<int> {
        difference(self.e2u, self.e2v)
    }
}

/// Every entry lies in `[lo, hi]`.
pub open spec fn within(x: Seq<int>, lo: int, hi: int) -> bool {
    forall|i: int| 0 <= i < x.len() ==> lo <= #[trigger] x[i] <= hi
}

/// Every entry lies in `{-1, 0, 1}`.
pub open spec fn ternary(x: Seq<int>) -> bool {
    within(x, -1, 1)
}

/// The centered representative of `v` modulo `q`, in `(-q/2, q/2]`.
pub open spec fn centered(v: int) -> int {
    if v % field::q() > field::q() / 2 {
        v % field::q() - field::q()
    } else {
        v % field::q()
    }
}

/// The noise of a public key under the secret `s`: what `b` differs by from
/// `a*s`.
pub open spec fn key_noise(pk: KeyModel, s: Seq<int>) -> Seq<int> {
    Seq::new(pk.a.len(), |k: int| centered(pk.b[k] - poly::nega(pk.a, s, k)))
}

/// A well-formed key pair: `s` ternary and `b = a*s + e` with `e` in `[-2, 2]`.
pub open spec fn key_pair(pk: KeyModel, s: Seq<int>, n: int) -> bool {
    &&& pk.sized(n)
    &&& s.len() == n
    &&& ternary(s)
    &&& within(key_noise(pk, s), -2, 2)
}

/// The ciphertext that the witness determines:
/// `c1 = a*r + e1`, `c2 = b*r + e2 + D*m` in `Z_q[x]/(x^n + 1)`.
pub open spec fn encryption(params: RegevParams, pk: KeyModel, w: WitnessModel) -> CiphertextModel {
    CiphertextModel {
        c1: Seq::new(
            pk.a.len(),
            |k: int| (poly::nega(pk.a, w.r, k) + w.e1()[k]) % field::q(),
        ),
        c2: Seq::new(
            pk.b.len(),
            |k: int|
                (poly::nega(pk.b, w.r, k) + w.e2()[k] + params.scale() * w.m[k]) % field::q(),
        ),
    }
}

/// The quotient of the product `a * r` by `X^n + 1`.
pub open spec fn quotient(a: Seq<int>, r: Seq<int>) -> Seq<int> {
    Seq::new(a.len(), |k: int| poly::conv(a, r, a.len() + k) % field::q())
}

/// The digit that the phase `v` in `[0, q)` rounds to.
pub open spec fn digit(v: int, t: int) -> int {
    ((v * t + field::q() / 2) / field::q()) % t
}

/// The phase of coefficient `k`: `c2 - c1*s`.
pub open spec fn phase(s: Seq<int>, ct: CiphertextModel, k: int) -> int {
    ct.c2[k] - poly::nega(ct.c1, s, k)
}

/// What decryption gives: one digit per coefficient.
pub open spec fn decryption(params: RegevParams, s: Seq<int>, ct: CiphertextModel) -> Seq<int> {
    Seq::new(
        if ct.c2.len() < ct.c1.len() {
            ct.c2.len()
        } else {
            ct.c1.len()
        },
        |k: int| digit(phase(s, ct, k) % field::q(), params.modulus()),
    )
}

/// The value of the low `k` digits: the sum of `digit * 2^i`.
pub open spec fn low_value(x: Seq<int>, k: int) -> int {
    sums::sum(0, k, |i: int| x[i] * pow2(i as nat))
}

/// The value that digits encode.
pub open spec fn weighted(digits: Seq<int>) -> int {
    low_value(digits, digits.len() as int)
}

/// The low `k` digits, none above `hi`, have a value of at most
/// `hi * (2^k - 1)`.
pub proof fn lemma_low_bound(x: Seq<int>, k: int, hi: int)
    requires
        0 <= k <= x.len(),
        hi >= 0,
        within(x, 0, hi),
    ensures
        0 <= low_value(x, k) <= hi * (pow2(k as nat) - 1),
    decreases k,
{
    let f = |i: int| x[i] * pow2(i as nat);
    if k == 0 {
        lemma2_to64();
        assert(hi * 0 == 0);
    } else {
        lemma_low_bound(x, k - 1, hi);
        dft::lemma_pow2_step((k - 1) as nat);
        let p = pow2((k - 1) as nat) as int;
        let b = x[k - 1];
        assert(0 <= b <= hi);
        assert(0 <= b * p && b * p <= hi * p) by (nonlinear_arith)
            requires
                0 <= b <= hi,
                p >= 0,
        ;
        assert(hi * (p - 1) + hi * p == hi * (2 * p - 1)) by (nonlinear_arith);
        assert(f(k - 1) == b * p);
    }
}


/// Coefficient-wise sum modulo `q`, as far as both operands reach.
pub open spec fn add_mod(x: Seq<int>, y: Seq<int>) -> Seq<int> {
    Seq::new(
        if x.len() < y.len() {
            x.len()
        } else {
            y.len()
        },
        |i: int| (x[i] + y[i]) % field::q(),
    )
}

/// The homomorphic sum of two ciphertexts.
pub open spec fn ciphertext_sum(x: CiphertextModel, y: CiphertextModel) -> CiphertextModel {
    CiphertextModel { c1: add_mod(x.c1, y.c1), c2: add_mod(x.c2, y.c2) }
}

/// The `n` little-endian bits of `value`.
pub open spec fn bits_of(value: int, n: nat) -> Seq<int> {
    Seq::new(n, |i: int| (value / pow2(i as nat) as int) % 2)
}

// ---------------------------------------------------------------------------
// Randomness.
// ---------------------------------------------------------------------------
/// The generator that keys and encryption randomness are drawn from.
#[verifier::external_type_specification]
#[verifier::external_body]
pub struct ExSmallRng(SmallRng);

/// `rng.random::<BabyBear>()`: some field element. Which one is left open.
#[verifier::external_body]
fn draw_field_element(rng: &mut SmallRng) -> (r: u32)
    ensures
        r < field::q(),
{
    rng.random::<BabyBear>().as_canonical_u32()
}

/// `rng.random_range(-1i8..=1)`: some value in `{-1, 0, 1}`. Which one is left
/// open.
#[verifier::external_body]
fn draw_trit(rng: &mut SmallRng) -> (r: i8)
    ensures
        -1 <= r <= 1,
{
    rng.random_range(-1i8..=1)
}

/// `rng.random::<u8>()`: some byte.
#[verifier::external_body]
fn draw_byte(rng: &mut SmallRng) -> (r: u8) {
    rng.random()
}

/// A call of [`draw_field_element`] on `g` returned `x`.
pub closed spec fn element_call(g: &mut SmallRng, x: u32) -> bool {
    call_ensures(draw_field_element, (g,), x)
}

/// A call of [`draw_trit`] on `g` returned `x`.
pub closed spec fn trit_call(g: &mut SmallRng, x: i8) -> bool {
    call_ensures(draw_trit, (g,), x)
}

/// A call of [`draw_byte`] on `g` returned `x`.
pub closed spec fn byte_call(g: &mut SmallRng, x: u8) -> bool {
    call_ensures(draw_byte, (g,), x)
}

/// A call of [`draw_byte`] on `g` returned a byte with `u` ones among its bits
/// 0 and 1, and `v` among its bits 2 and 3.
pub open spec fn halves_call(g: &mut SmallRng, u: u8, v: u8) -> bool {
    exists|x: u8|
        {
            &&& #[trigger] byte_call(g, x)
            &&& u == x as int % 2 + (x as int / 2) % 2
            &&& v == (x as int / 4) % 2 + (x as int / 8) % 2
        }
}

/// What the calls of the generator return is drawn.
proof fn lemma_calls_are_draws()
    ensures
        forall|g: &mut SmallRng, x: u32|
            #[trigger] call_ensures(draw_field_element, (g,), x) ==> element_call(g, x),
        forall|g: &mut SmallRng, x: i8|
            #[trigger] call_ensures(draw_trit, (g,), x) ==> trit_call(g, x),
        forall|g: &mut SmallRng, x: u8|
            #[trigger] call_ensures(draw_byte, (g,), x) ==> byte_call(g, x),
{
}

/// What is drawn is what the calls of the generator returned.
proof fn law_draws_are_calls(g: &mut SmallRng, x: u32, t: i8, u: u8, v: u8)
    ensures
        element_call(g, x) ==> call_ensures(draw_field_element, (g,), x),
        trit_call(g, t) ==> call_ensures(draw_trit, (g,), t),
        halves_call(g, u, v) ==> exists|b: u8|
            {
                &&& #[trigger] call_ensures(draw_byte, (g,), b)
                &&& u == b as int % 2 + (b as int / 2) % 2
                &&& v == (b as int / 4) % 2 + (b as int / 8) % 2
            },
{
    if halves_call(g, u, v) {
        let b = choose|x: u8|
            {
                &&& #[trigger] byte_call(g, x)
                &&& u == x as int % 2 + (x as int / 2) % 2
                &&& v == (x as int / 4) % 2 + (x as int / 8) % 2
            };
        assert(call_ensures(draw_byte, (g,), b));
    }
}

/// The two CBD(2) halves that a random byte determines: the number of ones
/// among bits 0 and 1, and among bits 2 and 3.
pub fn cbd2_halves(bits: u8) -> (r: (u8, u8))
    ensures
        r.0 == bits as int % 2 + (bits as int / 2) % 2,
        r.1 == (bits as int / 4) % 2 + (bits as int / 8) % 2,
        r.0 <= 2,
        r.1 <= 2,
{
    (bits % 2 + (bits / 2) % 2, (bits / 4) % 2 + (bits / 8) % 2)
}

fn sample_uniform(rng: &mut SmallRng, n: usize) -> (r: Vec<F>)
    ensures
        r@.len() == n,
        exists|gs: Seq<SmallRng>|
            #![trigger gs.len()]
            {
                &&& gs.len() == n + 1
                &&& gs[0] == *old(rng)
                &&& gs[n as int] == *final(rng)
                &&& forall|i: int|
                    0 <= i < n ==> (#[trigger] r@[i])@ < field::q() && exists|g: &mut SmallRng|
                        *g == gs[i] && *final(g) == gs[i + 1] && #[trigger] element_call(
                            g,
                            r@[i]@ as u32,
                        )
            },
{
    broadcast use F::lemma_view_range;

    let draw = draw_field_element;
    let mut r: Vec<F> = Vec::new();
    let ghost mut gs: Seq<SmallRng> = seq![*rng];
    let mut i: usize = 0;
    while i < n
        invariant
            i <= n,
            r@.len() == i,
            gs.len() == i + 1,
            gs[0] == *old(rng),
            gs[i as int] == *rng,
            forall|k: int|
                0 <= k < i ==> (#[trigger] r@[k])@ < field::q() && exists|g: &mut SmallRng|
                    *g == gs[k] && *final(g) == gs[k + 1] && #[trigger] element_call(
                        g,
                        r@[k]@ as u32,
                    ),
        decreases n - i,
    {
        broadcast use F::lemma_view_range;

        let ghost before = *rng;
        let ghost xs = r@;
        let x: u32 = draw(rng);
        proof {
            lemma_calls_are_draws();
        }
        assert(exists|g: &mut SmallRng|
            *g == before && *final(g) == *rng && #[trigger] element_call(g, x));
        r.push(F::from_u32(x));
        assert(x < field::q());
        assert(r@[i as int]@ == x);
        assert(r@[i as int]@ as u32 == x);
        proof {
            let past = gs;
            gs = gs.push(*rng);
            assert forall|k: int| 0 <= k < i + 1 implies (#[trigger] r@[k])@ < field::q() && exists|
                g: &mut SmallRng,
            |
                *g == gs[k] && *final(g) == gs[k + 1] && #[trigger] element_call(
                    g,
                    r@[k]@ as u32,
                ) by {
                if k < i {
                    assert(xs[k]@ < field::q());
                    assert(past[k] == gs[k] && past[k + 1] == gs[k + 1]);
                }
            }
        }
        i = i + 1;
    }
    assert(gs.len() == n + 1);
    r
}

fn sample_ternary(rng: &mut SmallRng, n: usize) -> (r: Vec<i8>)
    ensures
        r@.len() == n,
        ternary(signed(r@)),
        exists|gs: Seq<SmallRng>|
            #![trigger gs.len()]
            {
                &&& gs.len() == n + 1
                &&& gs[0] == *old(rng)
                &&& gs[n as int] == *final(rng)
                &&& forall|i: int|
                    0 <= i < n ==> -1 <= #[trigger] r@[i] <= 1 && exists|g: &mut SmallRng|
                        *g == gs[i] && *final(g) == gs[i + 1] && #[trigger] trit_call(g, r@[i])
            },
{
    let draw = draw_trit;
    let mut r: Vec<i8> = Vec::new();
    let ghost mut gs: Seq<SmallRng> = seq![*rng];
    let mut i: usize = 0;
    while i < n
        invariant
            i <= n,
            r@.len() == i,
            gs.len() == i + 1,
            gs[0] == *old(rng),
            gs[i as int] == *rng,
            forall|k: int|
                0 <= k < i ==> -1 <= #[trigger] r@[k] <= 1 && exists|g: &mut SmallRng|
                    *g == gs[k] && *final(g) == gs[k + 1] && #[trigger] trit_call(g, r@[k]),
        decreases n - i,
    {
        let ghost before = *rng;
        let ghost xs = r@;
        let x: i8 = draw(rng);
        proof {
            lemma_calls_are_draws();
        }
        assert(exists|g: &mut SmallRng|
            *g == before && *final(g) == *rng && #[trigger] trit_call(g, x));
        r.push(x);
        proof {
            let past = gs;
            gs = gs.push(*rng);
            assert forall|k: int| 0 <= k < i + 1 implies -1 <= #[trigger] r@[k] <= 1 && exists|
                g: &mut SmallRng,
            |
                *g == gs[k] && *final(g) == gs[k + 1] && #[trigger] trit_call(g, r@[k]) by {
                if k < i {
                    assert(-1 <= xs[k] <= 1);
                    assert(past[k] == gs[k] && past[k + 1] == gs[k + 1]);
                }
            }
        }
        i = i + 1;
    }
    assert(gs.len() == n + 1);
    r
}

/// CBD(2) sample, kept as the two non-negative halves `(u, v)` with
/// `u, v` in `{0, 1, 2}` so the noise `u - v` has a degree-3 smallness proof.
fn sample_cbd2_halves(rng: &mut SmallRng, n: usize) -> (r: (Vec<u8>, Vec<u8>))
    ensures
        r.0@.len() == n,
        r.1@.len() == n,
        within(bytes(r.0@), 0, 2),
        within(bytes(r.1@), 0, 2),
        exists|gs: Seq<SmallRng>|
            #![trigger gs.len()]
            {
                &&& gs.len() == n + 1
                &&& gs[0] == *old(rng)
                &&& gs[n as int] == *final(rng)
                &&& forall|i: int|
                    0 <= i < n ==> (#[trigger] r.0@[i]) <= 2 && r.1@[i] <= 2
                        && exists|g: &mut SmallRng|
                        *g == gs[i] && *final(g) == gs[i + 1] && #[trigger] halves_call(
                            g,
                            r.0@[i],
                            r.1@[i],
                        )
            },
{
    let draw = draw_byte;
    let mut u: Vec<u8> = Vec::new();
    let mut v: Vec<u8> = Vec::new();
    let ghost mut gs: Seq<SmallRng> = seq![*rng];
    let mut i: usize = 0;
    while i < n
        invariant
            i <= n,
            u@.len() == i,
            v@.len() == i,
            gs.len() == i + 1,
            gs[0] == *old(rng),
            gs[i as int] == *rng,
            forall|k: int|
                0 <= k < i ==> (#[trigger] u@[k]) <= 2 && v@[k] <= 2 && exists|g: &mut SmallRng|
                    *g == gs[k] && *final(g) == gs[k + 1] && #[trigger] halves_call(
                        g,
                        u@[k],
                        v@[k],
                    ),
        decreases n - i,
    {
        let ghost before = *rng;
        let ghost us = u@;
        let ghost vs = v@;
        let bits: u8 = draw(rng);
        proof {
            lemma_calls_are_draws();
        }
        let (x, y) = cbd2_halves(bits);
        assert(exists|g: &mut SmallRng|
            *g == before && *final(g) == *rng && #[trigger] byte_call(g, bits));
        assert(exists|g: &mut SmallRng|
            *g == before && *final(g) == *rng && #[trigger] halves_call(g, x, y)) by {
            assert(forall|g: &mut SmallRng| #[trigger] byte_call(g, bits) ==> halves_call(g, x, y));
        }
        u.push(x);
        v.push(y);
        proof {
            let past = gs;
            gs = gs.push(*rng);
            assert forall|k: int| 0 <= k < i + 1 implies (#[trigger] u@[k]) <= 2 && v@[k] <= 2
                && exists|g: &mut SmallRng|
                *g == gs[k] && *final(g) == gs[k + 1] && #[trigger] halves_call(
                    g,
                    u@[k],
                    v@[k],
                ) by {
                if k < i {
                    assert(us[k] <= 2 && vs[k] <= 2);
                    assert(past[k] == gs[k] && past[k + 1] == gs[k + 1]);
                }
            }
        }
        i = i + 1;
    }
    assert forall|j: int| 0 <= j < n implies 0 <= #[trigger] bytes(v@)[j] <= 2 by {
        assert(u@[j] <= 2);
    }
    let ghost uv = (u@, v@);
    let r = (u, v);
    assert forall|k: int| 0 <= k < n implies (#[trigger] r.0@[k]) <= 2 && r.1@[k] <= 2
        && exists|g: &mut SmallRng|
        *g == gs[k] && *final(g) == gs[k + 1] && #[trigger] halves_call(g, r.0@[k], r.1@[k]) by {
        assert(uv.0[k] <= 2 && uv.1[k] <= 2);
    }
    assert(gs.len() == n + 1);
    r
}

// ---------------------------------------------------------------------------
// Conversions.
// ---------------------------------------------------------------------------
/// What is left of a machine integer after a cast to 32 bits.
pub open spec fn low32(x: int) -> int {
    x % 0x1_0000_0000
}

/// Map a centered value to the field. The magnitude is cast to 32 bits.
pub fn centered_to_field(x: i64) -> (r: F)
    requires
        x > i64::MIN,
    ensures
        -0x1_0000_0000 < x < 0x1_0000_0000 ==> r@ == (x as int) % field::q(),
        x >= 0 ==> r@ == low32(x as int) % field::q(),
        x < 0 ==> r@ == (-low32(-x as int)) % field::q(),
{
    if x >= 0 {
        let y: u64 = x as u64;
        assert(y as u32 == y % 0x1_0000_0000) by (bit_vector);
        F::from_u32(y as u32)
    } else {
        let y: u64 = (-x) as u64;
        assert(y as u32 == y % 0x1_0000_0000) by (bit_vector);
        F::from_u32(y as u32).neg()
    }
}

/// Lift a field element to its centered representative in `(-q/2, q/2]`.
pub fn field_to_centered(x: F) -> (r: i64)
    ensures
        r == centered(x@),
{
    broadcast use F::lemma_view_range;

    let v: i64 = x.as_canonical_u32() as i64;
    let q: i64 = F::order() as i64;
    if v > q / 2 {
        v - q
    } else {
        v
    }
}

fn small_to_field(small: &[i8]) -> (r: Vec<F>)
    ensures
        poly::cong_seq(field::vals(r@), signed(small@)),
{
    let mut r: Vec<F> = Vec::new();
    let mut i: usize = 0;
    while i < small.len()
        invariant
            i <= small@.len(),
            r@.len() == i,
            forall|j: int| 0 <= j < i ==> #[trigger] r@[j]@ == (small@[j] as int) % field::q(),
        decreases small@.len() - i,
    {
        r.push(centered_to_field(small[i] as i64));
        i = i + 1;
    }
    r
}

fn cbd_to_field(u: &[u8], v: &[u8]) -> (r: Vec<F>)
    requires
        u@.len() == v@.len(),
    ensures
        r@.len() == u@.len(),
        forall|j: int|
            0 <= j < r@.len() ==> #[trigger] r@[j]@ == (u@[j] - v@[j]) % field::q(),
{
    let mut r: Vec<F> = Vec::new();
    let mut i: usize = 0;
    while i < u.len()
        invariant
            i <= u@.len(),
            u@.len() == v@.len(),
            r@.len() == i,
            forall|j: int| 0 <= j < i ==> #[trigger] r@[j]@ == (u@[j] - v@[j]) % field::q(),
        decreases u@.len() - i,
    {
        r.push(centered_to_field(u[i] as i64 - v[i] as i64));
        i = i + 1;
    }
    r
}

/// A full (unreduced) product split into remainder and quotient
/// mod `x^n + 1`: `prod = lo + (x^n + 1)*hi` with `deg(lo) < n`.
pub fn split_negacyclic(prod: &[F], n: usize) -> (r: (Vec<F>, Vec<F>))
    requires
        prod@.len() == 2 * n,
    ensures
        r.0@.len() == n,
        r.1@.len() == n,
        forall|i: int|
            0 <= i < n ==> #[trigger] r.0@[i]@ == (prod@[i]@ - prod@[n + i]@) % field::q(),
        forall|i: int| 0 <= i < n ==> #[trigger] r.1@[i] == prod@[n + i],
{
    let total: usize = prod.len();
    let mut lo: Vec<F> = Vec::new();
    let mut hi: Vec<F> = Vec::new();
    let mut i: usize = 0;
    while i < n
        invariant
            i <= n,
            total == 2 * n,
            prod@.len() == total,
            lo@.len() == i,
            hi@.len() == i,
            forall|j: int|
                0 <= j < i ==> #[trigger] lo@[j]@ == (prod@[j]@ - prod@[n + j]@) % field::q(),
            forall|j: int| 0 <= j < i ==> #[trigger] hi@[j] == prod@[n + j],
        decreases n - i,
    {
        lo.push(prod[i].sub(prod[n + i]));
        hi.push(prod[n + i]);
        i = i + 1;
    }
    (lo, hi)
}

/// The product `a * small` split by `X^n + 1`.
fn ring_mul(a: &[F], small: &[i8]) -> (r: (Vec<F>, Vec<F>))
    requires
        a@.len() == small@.len(),
        ntt::is_ring_size(a@.len() as int),
    ensures
        r.0@.len() == a@.len(),
        r.1@.len() == a@.len(),
        forall|k: int|
            0 <= k < a@.len() ==> #[trigger] r.0@[k]@ == poly::nega(
                field::vals(a@),
                signed(small@),
                k,
            ) % field::q(),
        field::vals(r.1@) == quotient(field::vals(a@), signed(small@)),
{
    let n: usize = a.len();
    let s = small_to_field(small);
    let ghost av = field::vals(a@);
    let ghost sv = field::vals(s@);
    let ghost si = signed(small@);
    assert(s@.len() == sv.len());
    let prod = full_poly_mul(a, &s);
    let r = split_negacyclic(&prod, n);
    proof {
        let pv = field::vals(prod@);
        assert forall|k: int| 0 <= k < 2 * n implies #[trigger] prod@[k]@ == poly::conv(av, si, k)
            % field::q() by {
            assert(pv[k] == poly::conv(av, sv, k) % field::q());
            poly::lemma_conv_cong(av, av, sv, si, k);
        }
        assert forall|k: int| 0 <= k < n implies #[trigger] r.0@[k]@ == poly::nega(av, si, k)
            % field::q() by {
            poly::lemma_nega_split(av, si, k);
        }
        assert(field::vals(r.1@) =~= quotient(av, si));
    }
    r
}

// ---------------------------------------------------------------------------
// The scheme.
// ---------------------------------------------------------------------------
/// Small noise is recovered as the centered difference.
proof fn lemma_centered_noise(b: int, x: int, e: int)
    requires
        b == (x + e) % field::q(),
        -2 <= e <= 2,
    ensures
        centered(b - x) == e,
{
    sums::lemma_mod_sub2(x + e, x);
    sums::lemma_mod_sub2(b, x);
    assert(b % field::q() == b);
    assert((b - x) % field::q() == e % field::q());
    if e >= 0 {
        assert(e % field::q() == e);
    } else {
        assert(e % field::q() == e + field::q());
    }
}

/// A key pair from its random choices: `b = a*s + e` with `e = eu - ev`.
pub fn keygen_from(a: Vec<F>, s: Vec<i8>, eu: &[u8], ev: &[u8]) -> (r: (PublicKey, SecretKey))
    requires
        ntt::is_ring_size(a@.len() as int),
        s@.len() == a@.len(),
        eu@.len() == a@.len(),
        ev@.len() == a@.len(),
    ensures
        r.0.a@ == a@,
        r.1.s@ == s@,
        r.0.b@.len() == a@.len(),
        forall|k: int|
            0 <= k < a@.len() ==> #[trigger] r.0.b@[k]@ == (poly::nega(
                field::vals(a@),
                signed(s@),
                k,
            ) + (eu@[k] - ev@[k])) % field::q(),
{
    let n: usize = a.len();
    let e = cbd_to_field(eu, ev);
    let (lo, _) = ring_mul(&a, &s);
    let ghost av = field::vals(a@);
    let ghost sv = signed(s@);
    let mut b: Vec<F> = Vec::new();
    let mut i: usize = 0;
    while i < n
        invariant
            i <= n,
            n == a@.len(),
            lo@.len() == n,
            e@.len() == n,
            eu@.len() == n,
            ev@.len() == n,
            b@.len() == i,
            forall|k: int|
                0 <= k < n ==> #[trigger] lo@[k]@ == poly::nega(av, sv, k) % field::q(),
            forall|k: int| 0 <= k < n ==> #[trigger] e@[k]@ == (eu@[k] - ev@[k]) % field::q(),
            forall|k: int|
                0 <= k < i ==> #[trigger] b@[k]@ == (poly::nega(av, sv, k) + (eu@[k] - ev@[k]))
                    % field::q(),
        decreases n - i,
    {
        b.push(lo[i].add(e[i]));
        proof {
            let j = i as int;
            sums::lemma_mod_add2(poly::nega(av, sv, j), eu@[j] - ev@[j]);
            assert(b@[j]@ == (poly::nega(av, sv, j) + (eu@[j] - ev@[j])) % field::q());
        }
        i = i + 1;
    }
    (PublicKey { a, b }, SecretKey { s })
}

/// Three runs of the generator, each starting where the one before it ended, in
/// one.
proof fn lemma_runs_joined(a: Seq<SmallRng>, b: Seq<SmallRng>, c: Seq<SmallRng>, n: int)
    requires
        n >= 0,
        a.len() == n + 1,
        b.len() == n + 1,
        c.len() == n + 1,
        a[n] == b[0],
        b[n] == c[0],
    ensures
        (a.drop_last() + b.drop_last() + c).len() == 3 * n + 1,
        forall|i: int| 0 <= i <= n ==> (a.drop_last() + b.drop_last() + c)[i] == #[trigger] a[i],
        forall|i: int|
            0 <= i <= n ==> (a.drop_last() + b.drop_last() + c)[n + i] == #[trigger] b[i],
        forall|i: int|
            0 <= i <= n ==> (a.drop_last() + b.drop_last() + c)[2 * n + i] == #[trigger] c[i],
{
}

/// Draws a key pair.
pub fn keygen(rng: &mut SmallRng, params: &RegevParams) -> (r: (PublicKey, SecretKey))
    requires
        ntt::is_ring_size(params.n as int),
    ensures
        key_pair(r.0@, r.1@, params.n as int),
        exists|gs: Seq<SmallRng>, eu: Seq<u8>, ev: Seq<u8>|
            #![trigger gs.len(), eu.len(), ev.len()]
            {
                &&& gs.len() == 3 * params.n + 1
                &&& eu.len() == params.n
                &&& ev.len() == params.n
                &&& gs[0] == *old(rng)
                &&& gs[3 * params.n as int] == *final(rng)
                &&& forall|i: int|
                    0 <= i < params.n ==> (#[trigger] r.0.a@[i])@ < field::q()
                        && exists|g: &mut SmallRng|
                        *g == gs[i] && *final(g) == gs[i + 1] && #[trigger] element_call(
                            g,
                            r.0.a@[i]@ as u32,
                        )
                &&& forall|i: int|
                    0 <= i < params.n ==> -1 <= #[trigger] r.1.s@[i] <= 1
                        && exists|g: &mut SmallRng|
                        *g == gs[params.n + i] && *final(g) == gs[params.n + i + 1]
                            && #[trigger] trit_call(g, r.1.s@[i])
                &&& forall|i: int|
                    0 <= i < params.n ==> (#[trigger] eu[i]) <= 2 && ev[i] <= 2
                        && exists|g: &mut SmallRng|
                        *g == gs[2 * params.n + i] && *final(g) == gs[2 * params.n + i + 1]
                            && #[trigger] halves_call(g, eu[i], ev[i])
                &&& forall|k: int|
                    0 <= k < params.n ==> #[trigger] r.0.b@[k]@ == (poly::nega(
                        r.0@.a,
                        r.1@,
                        k,
                    ) + (eu[k] - ev[k])) % field::q()
            },
{
    let ghost g0 = *rng;
    let a = sample_uniform(rng, params.n);
    let ghost g1 = *rng;
    let ghost ga = choose|gs: Seq<SmallRng>|
        #![trigger gs.len()]
        {
            &&& gs.len() == params.n + 1
            &&& gs[0] == g0
            &&& gs[params.n as int] == g1
            &&& forall|i: int|
                0 <= i < params.n ==> (#[trigger] a@[i])@ < field::q() && exists|g: &mut SmallRng|
                    *g == gs[i] && *final(g) == gs[i + 1] && #[trigger] element_call(
                        g,
                        a@[i]@ as u32,
                    )
        };
    let s = sample_ternary(rng, params.n);
    let ghost g2 = *rng;
    let ghost gb = choose|gs: Seq<SmallRng>|
        #![trigger gs.len()]
        {
            &&& gs.len() == params.n + 1
            &&& gs[0] == g1
            &&& gs[params.n as int] == g2
            &&& forall|i: int|
                0 <= i < params.n ==> -1 <= #[trigger] s@[i] <= 1 && exists|g: &mut SmallRng|
                    *g == gs[i] && *final(g) == gs[i + 1] && #[trigger] trit_call(
                        g,
                        s@[i],
                    )
        };
    let (eu, ev) = sample_cbd2_halves(rng, params.n);
    let ghost g3 = *rng;
    let ghost gc = choose|gs: Seq<SmallRng>|
        #![trigger gs.len()]
        {
            &&& gs.len() == params.n + 1
            &&& gs[0] == g2
            &&& gs[params.n as int] == g3
            &&& forall|i: int|
                0 <= i < params.n ==> (#[trigger] eu@[i]) <= 2 && ev@[i] <= 2 && exists|g: &mut SmallRng|
                    *g == gs[i] && *final(g) == gs[i + 1] && #[trigger] halves_call(
                        g,
                        eu@[i],
                        ev@[i],
                    )
        };
    let r = keygen_from(a, s, &eu, &ev);
    proof {
        let n = params.n as int;
        let gs = ga.drop_last() + gb.drop_last() + gc;
        lemma_runs_joined(ga, gb, gc, n);
        assert(gs.len() == 3 * n + 1 && eu@.len() == n && ev@.len() == n);
        let pk = r.0@;
        let sv = r.1@;
        assert forall|k: int| 0 <= k < params.n implies -2 <= #[trigger] key_noise(pk, sv)[k]
            <= 2 by {
            assert(0 <= bytes(eu@)[k] <= 2);
            assert(0 <= bytes(ev@)[k] <= 2);
            assert(pk.b[k] == r.0.b@[k]@);
            lemma_centered_noise(pk.b[k], poly::nega(pk.a, sv, k), eu@[k] - ev@[k]);
        }
        assert(ternary(sv));
    }
    r
}

/// Encrypts a binary message polynomial with the given random choices.
pub fn encrypt_with(
    params: &RegevParams,
    pk: &PublicKey,
    m: &[u8],
    r: Vec<i8>,
    e1u: Vec<u8>,
    e1v: Vec<u8>,
    e2u: Vec<u8>,
    e2v: Vec<u8>,
) -> (out: (Ciphertext, EncryptionWitness))
    requires
        ntt::is_ring_size(params.n as int),
        params.plain_bits < 32,
        pk@.sized(params.n as int),
        m@.len() == params.n,
        r@.len() == params.n,
        e1u@.len() == params.n,
        e1v@.len() == params.n,
        e2u@.len() == params.n,
        e2v@.len() == params.n,
    ensures
        out.1.r@ == r@,
        out.1.e1u@ == e1u@,
        out.1.e1v@ == e1v@,
        out.1.e2u@ == e2u@,
        out.1.e2v@ == e2v@,
        out.1.m@ == m@,
        out.1@.k1 == quotient(pk@.a, signed(r@)),
        out.1@.k2 == quotient(pk@.b, signed(r@)),
        out.0@ == encryption(*params, pk@, out.1@),
{
    let n: usize = params.n;
    let e1 = cbd_to_field(&e1u, &e1v);
    let e2 = cbd_to_field(&e2u, &e2v);
    let delta = F::from_u32(params.delta());
    let (ar, k1) = ring_mul(&pk.a, &r);
    let (br, k2) = ring_mul(&pk.b, &r);
    let ghost scale = params.scale();
    let ghost av = pk@.a;
    let ghost bv = pk@.b;
    let ghost rv = signed(r@);
    let mut c1: Vec<F> = Vec::new();
    let mut c2: Vec<F> = Vec::new();
    let mut bits: Vec<u8> = Vec::new();
    let mut i: usize = 0;
    while i < n
        invariant
            i <= n,
            ar@.len() == n,
            br@.len() == n,
            e1@.len() == n,
            e2@.len() == n,
            e1u@.len() == n,
            e1v@.len() == n,
            e2u@.len() == n,
            e2v@.len() == n,
            m@.len() == n,
            delta@ == scale % field::q(),
            forall|k: int|
                0 <= k < n ==> #[trigger] ar@[k]@ == poly::nega(av, rv, k) % field::q(),
            forall|k: int|
                0 <= k < n ==> #[trigger] br@[k]@ == poly::nega(bv, rv, k) % field::q(),
            forall|k: int| 0 <= k < n ==> #[trigger] e1@[k]@ == (e1u@[k] - e1v@[k]) % field::q(),
            forall|k: int| 0 <= k < n ==> #[trigger] e2@[k]@ == (e2u@[k] - e2v@[k]) % field::q(),
            c1@.len() == i,
            c2@.len() == i,
            bits@ == m@.take(i as int),
            forall|k: int|
                0 <= k < i ==> #[trigger] c1@[k]@ == (poly::nega(av, rv, k) + (e1u@[k] - e1v@[k]))
                    % field::q(),
            forall|k: int|
                0 <= k < i ==> #[trigger] c2@[k]@ == (poly::nega(bv, rv, k) + (e2u@[k] - e2v@[k])
                    + scale * m@[k]) % field::q(),
        decreases n - i,
    {
        c1.push(ar[i].add(e1[i]));
        let dm = delta.mul(F::from_u8(m[i]));
        c2.push(br[i].add(e2[i]).add(dm));
        bits.push(m[i]);
        proof {
            let j = i as int;
            let mi = m@[j] as int;
            sums::lemma_cong_mul(delta@, scale, mi, mi);
            sums::lemma_cong_eq(delta@ * mi, scale * mi);
            sums::lemma_mod_add2(poly::nega(av, rv, j), e1u@[j] - e1v@[j]);
            sums::lemma_mod_add3(poly::nega(bv, rv, j), e2u@[j] - e2v@[j], scale * mi);
            assert(bits@ =~= m@.take(i + 1));
            assert(c1@[j]@ == (poly::nega(av, rv, j) + (e1u@[j] - e1v@[j])) % field::q());
            assert(c2@[j]@ == (poly::nega(bv, rv, j) + (e2u@[j] - e2v@[j]) + scale * mi)
                % field::q());
        }
        i = i + 1;
    }
    assert(bits@ =~= m@);
    let ct = Ciphertext { c1, c2 };
    let witness = EncryptionWitness { r, e1u, e1v, e2u, e2v, m: bits, k1, k2 };
    proof {
        let model = encryption(*params, pk@, witness@);
        assert(ct@.c1 =~= model.c1);
        assert(ct@.c2 =~= model.c2);
    }
    (ct, witness)
}

/// Encrypt a binary message polynomial (length `n`, entries in `{0, 1}`).
pub fn encrypt(rng: &mut SmallRng, params: &RegevParams, pk: &PublicKey, m: &[u8]) -> (out: (
    Ciphertext,
    EncryptionWitness,
))
    requires
        ntt::is_ring_size(params.n as int),
        params.plain_bits < 32,
        pk@.sized(params.n as int),
        m@.len() == params.n,
        within(bytes(m@), 0, 1),
    ensures
        out.1@.sized(params.n as int),
        out.1@.small(),
        out.1.m@ == m@,
        out.1@.k1 == quotient(pk@.a, out.1@.r),
        out.1@.k2 == quotient(pk@.b, out.1@.r),
        out.0@ == encryption(*params, pk@, out.1@),
        exists|gs: Seq<SmallRng>|
            #![trigger gs.len()]
            {
                &&& gs.len() == 3 * params.n + 1
                &&& gs[0] == *old(rng)
                &&& gs[3 * params.n as int] == *final(rng)
                &&& forall|i: int|
                    0 <= i < params.n ==> -1 <= #[trigger] out.1.r@[i] <= 1
                        && exists|g: &mut SmallRng|
                        *g == gs[i] && *final(g) == gs[i + 1] && #[trigger] trit_call(
                            g,
                            out.1.r@[i],
                        )
                &&& forall|i: int|
                    0 <= i < params.n ==> (#[trigger] out.1.e1u@[i]) <= 2 && out.1.e1v@[i] <= 2
                        && exists|g: &mut SmallRng|
                        *g == gs[params.n + i] && *final(g) == gs[params.n + i + 1]
                            && #[trigger] halves_call(g, out.1.e1u@[i], out.1.e1v@[i])
                &&& forall|i: int|
                    0 <= i < params.n ==> (#[trigger] out.1.e2u@[i]) <= 2 && out.1.e2v@[i] <= 2
                        && exists|g: &mut SmallRng|
                        *g == gs[2 * params.n + i] && *final(g) == gs[2 * params.n + i + 1]
                            && #[trigger] halves_call(g, out.1.e2u@[i], out.1.e2v@[i])
            },
{
    let ghost g0 = *rng;
    let r = sample_ternary(rng, params.n);
    let ghost g1 = *rng;
    let ghost ga = choose|gs: Seq<SmallRng>|
        #![trigger gs.len()]
        {
            &&& gs.len() == params.n + 1
            &&& gs[0] == g0
            &&& gs[params.n as int] == g1
            &&& forall|i: int|
                0 <= i < params.n ==> -1 <= #[trigger] r@[i] <= 1 && exists|g: &mut SmallRng|
                    *g == gs[i] && *final(g) == gs[i + 1] && #[trigger] trit_call(
                        g,
                        r@[i],
                    )
        };
    let (e1u, e1v) = sample_cbd2_halves(rng, params.n);
    let ghost g2 = *rng;
    let ghost gb = choose|gs: Seq<SmallRng>|
        #![trigger gs.len()]
        {
            &&& gs.len() == params.n + 1
            &&& gs[0] == g1
            &&& gs[params.n as int] == g2
            &&& forall|i: int|
                0 <= i < params.n ==> (#[trigger] e1u@[i]) <= 2 && e1v@[i] <= 2 && exists|g: &mut SmallRng|
                    *g == gs[i] && *final(g) == gs[i + 1] && #[trigger] halves_call(
                        g,
                        e1u@[i],
                        e1v@[i],
                    )
        };
    let (e2u, e2v) = sample_cbd2_halves(rng, params.n);
    let ghost g3 = *rng;
    let ghost gc = choose|gs: Seq<SmallRng>|
        #![trigger gs.len()]
        {
            &&& gs.len() == params.n + 1
            &&& gs[0] == g2
            &&& gs[params.n as int] == g3
            &&& forall|i: int|
                0 <= i < params.n ==> (#[trigger] e2u@[i]) <= 2 && e2v@[i] <= 2 && exists|g: &mut SmallRng|
                    *g == gs[i] && *final(g) == gs[i + 1] && #[trigger] halves_call(
                        g,
                        e2u@[i],
                        e2v@[i],
                    )
        };
    let out = encrypt_with(params, pk, m, r, e1u, e1v, e2u, e2v);
    proof {
        let n = params.n as int;
        let gs = ga.drop_last() + gb.drop_last() + gc;
        lemma_runs_joined(ga, gb, gc, n);
        assert(gs.len() == 3 * n + 1);
    }
    out
}

/// Decrypt; returns one digit in `[0, t)` per coefficient.
///
/// For a fresh ciphertext the digits are the message bits. For a
/// homomorphic sum of `k` ciphertexts the digits are the per-coefficient
/// sums (correct as long as `k < t` and the accumulated noise stays below
/// `D/2`).
pub fn decrypt(params: &RegevParams, sk: &SecretKey, ct: &Ciphertext) -> (r: Vec<u8>)
    requires
        params.valid(),
        sk.s@.len() == params.n,
        ct.c1@.len() == params.n,
    ensures
        bytes(r@) == decryption(*params, sk@, ct@),
{
    broadcast use F::lemma_view_range;

    let n: usize = params.n;
    let (c1s, _) = ring_mul(&ct.c1, &sk.s);
    let q: u64 = F::order() as u64;
    let t: u64 = params.t() as u64;
    proof {
        lemma2_to64();
        crate::dft::lemma_pow2_monotone(params.plain_bits as nat, 8);
        lemma_pow2_pos(params.plain_bits as nat);
    }
    let count: usize = if ct.c2.len() < n {
        ct.c2.len()
    } else {
        n
    };
    let ghost want = decryption(*params, sk@, ct@);
    let mut r: Vec<u8> = Vec::new();
    let mut i: usize = 0;
    while i < count
        invariant
            i <= count,
            count <= n,
            count <= ct.c2@.len(),
            n == params.n,
            ct.c1@.len() == n,
            c1s@.len() == n,
            q == field::q(),
            t == params.modulus(),
            1 <= t <= 256,
            want == decryption(*params, sk@, ct@),
            want.len() == count,
            forall|k: int|
                0 <= k < n ==> #[trigger] c1s@[k]@ == poly::nega(ct@.c1, sk@, k) % field::q(),
            r@.len() == i,
            forall|k: int| 0 <= k < i ==> #[trigger] r@[k] as int == want[k],
        decreases count - i,
    {
        broadcast use F::lemma_view_range;

        let diff = ct.c2[i].sub(c1s[i]);
        let v: u64 = diff.as_canonical_u32() as u64;
        proof {
            assert(diff@ == phase(sk@, ct@, i as int) % field::q());
            assert(v * t < 0x8000_0000 * 256) by (nonlinear_arith)
                requires
                    v < 0x8000_0000,
                    1 <= t <= 256,
            ;
        }
        let d: u64 = ((v * t + q / 2) / q) % t;
        r.push(d as u8);
        i = i + 1;
    }
    assert(bytes(r@) =~= want);
    r
}

/// The value `sum of digit * 2^i` of a digit vector that is zero from
/// coefficient 120 on.
pub fn decode_value(digits: &[u8]) -> (value: u128)
    requires
        forall|i: int| 120 <= i < digits@.len() ==> #[trigger] digits@[i] == 0,
    ensures
        value == weighted(bytes(digits@)),
{
    let ghost dv = bytes(digits@);
    let ghost f = |i: int| dv[i] * pow2(i as nat);
    let mut value: u128 = 0;
    let mut weight: u128 = 1;
    let mut i: usize = 0;
    proof {
        lemma2_to64();
    }
    while i < digits.len() && i < 120
        invariant
            i <= digits@.len(),
            i <= 120,
            dv == bytes(digits@),
            f == (|i: int| dv[i] * pow2(i as nat)),
            weight == pow2(i as nat),
            value == sums::sum(0, i as int, f),
            value <= 255 * (pow2(i as nat) - 1),
        decreases 120 - i,
    {
        proof {
            crate::dft::lemma_pow2_step(i as nat);
            crate::dft::lemma_pow2_monotone(i as nat + 1, 120);
            lemma2_to64();
            lemma2_to64_rest();
            lemma_pow2_adds(60, 60);
            let d = dv[i as int];
            let w = pow2(i as nat) as int;
            assert(d * w <= 255 * w) by (nonlinear_arith)
                requires
                    0 <= d <= 255,
                    w >= 0,
            ;
            assert(d * w >= 0) by (nonlinear_arith)
                requires
                    0 <= d,
                    w >= 0,
            ;
            assert(f(i as int) == d * w);
        }
        let d: u128 = digits[i] as u128;
        value = value + d * weight;
        weight = weight * 2;
        i = i + 1;
    }
    proof {
        let n = digits@.len() as int;
        sums::lemma_sum_split(0, i as int, n, f);
        assert forall|j: int| i <= j < n implies #[trigger] f(j) == 0 by {
            let w = pow2(j as nat) as int;
            assert(0 * w == 0);
        }
        sums::lemma_sum_zero(i as int, n, f);
    }
    value
}

/// Decrypt and decode the value `sum of digit * 2^i`.
///
/// This is the value-level inverse of [`encode_value_message`] and is
/// additive under [`add_ciphertexts`]. A nonzero digit must not sit at a
/// coefficient index too high to fit the result in `u128`.
pub fn decrypt_value(params: &RegevParams, sk: &SecretKey, ct: &Ciphertext) -> (value: u128)
    requires
        params.valid(),
        sk.s@.len() == params.n,
        ct.c1@.len() == params.n,
        forall|i: int|
            120 <= i < decryption(*params, sk@, ct@).len() ==> #[trigger] decryption(
                *params,
                sk@,
                ct@,
            )[i] == 0,
    ensures
        value == weighted(decryption(*params, sk@, ct@)),
{
    let digits = decrypt(params, sk, ct);
    proof {
        assert forall|i: int| 120 <= i < digits@.len() implies #[trigger] digits@[i] == 0 by {
            assert(bytes(digits@)[i] == 0);
        }
    }
    decode_value(&digits)
}

/// Coefficient-wise sum of two coefficient vectors.
fn add_coefficients(x: &[F], y: &[F]) -> (r: Vec<F>)
    ensures
        field::vals(r@) == add_mod(field::vals(x@), field::vals(y@)),
{
    let mut r: Vec<F> = Vec::new();
    let mut i: usize = 0;
    while i < x.len() && i < y.len()
        invariant
            i <= x@.len(),
            i <= y@.len(),
            r@.len() == i,
            forall|k: int| 0 <= k < i ==> #[trigger] r@[k]@ == (x@[k]@ + y@[k]@) % field::q(),
        decreases x@.len() - i,
    {
        r.push(x[i].add(y[i]));
        i = i + 1;
    }
    assert(field::vals(r@) =~= add_mod(field::vals(x@), field::vals(y@)));
    r
}

/// Coefficient-wise ciphertext addition: the sum decrypts to the
/// digit-wise sum, i.e. [`decrypt_value`] yields `A + B` (within the digit
/// and noise budgets).
pub fn add_ciphertexts(a: &Ciphertext, b: &Ciphertext) -> (r: Ciphertext)
    requires
        a.c1@.len() == b.c1@.len(),
    ensures
        r@ == ciphertext_sum(a@, b@),
{
    Ciphertext { c1: add_coefficients(&a.c1, &b.c1), c2: add_coefficients(&a.c2, &b.c2) }
}

/// Encode an integer as a little-endian binary message polynomial of length
/// `n` (the canonical value encoding used by [`decrypt_value`] and the
/// plaintext range proof).
pub fn encode_value_message(value: u64, n: usize) -> (r: Vec<u8>)
    requires
        n >= 64 || value < pow2(n as nat),
    ensures
        r@.len() == n,
        forall|i: int|
            0 <= i < n ==> #[trigger] r@[i] == (value as int / pow2(i as nat) as int) % 2,
        bytes(r@) == bits_of(value as int, n as nat),
        within(bytes(r@), 0, 1),
        weighted(bytes(r@)) == value,
{
    let mut r: Vec<u8> = Vec::new();
    let mut rest: u64 = value;
    let mut i: usize = 0;
    let ghost want = bits_of(value as int, n as nat);
    proof {
        lemma2_to64();
    }
    while i < n
        invariant
            i <= n,
            r@.len() == i,
            want == bits_of(value as int, n as nat),
            rest as int == value as int / pow2(i as nat) as int,
            forall|k: int| 0 <= k < i ==> #[trigger] r@[k] as int == want[k],
        decreases n - i,
    {
        let bit: u8 = (rest % 2) as u8;
        proof {
            let p = pow2(i as nat) as int;
            crate::dft::lemma_pow2_step(i as nat);
            vstd::arithmetic::div_mod::lemma_div_denominator(value as int, p, 2);
            assert(p * 2 == pow2(i as nat + 1));
            assert(want[i as int] == rest as int % 2);
        }
        r.push(bit);
        rest = rest / 2;
        i = i + 1;
    }
    proof {
        assert(bytes(r@) =~= want);
        crate::correctness::law_encoding_roundtrip(value, n as nat);
    }
    r
}

} // verus!
