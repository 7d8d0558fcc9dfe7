//! Cross-target determinism guard for the Fiat-Shamir transcript.
//!
//! A STARK proof verifies on a different machine only if the verifier
//! recomputes a **byte-identical** Fiat-Shamir transcript. That holds as long
//! as the field arithmetic and the Poseidon2 permutation are bit-identical
//! across targets, which they are *provided the permutation's round constants
//! are themselves target-independent*: the transcript uses Plonky3's canonical
//! compile-time constants, so there is no RNG and no width dependence.
//!
//! [`transcript_digest`] runs a fixed observe/sample script through the
//! transcript that the default proof config uses, and returns the sampled
//! bytes. [`TRANSCRIPT_DIGEST_HEX`] is the golden value.

use crate::field;
use crate::field::F;
use crate::transcript;
use crate::transcript::{Sponge, Transcript};
use vstd::arithmetic::power2::*;
use vstd::prelude::*;
use vstd::string::*;

verus! {

/// Golden value of [`transcript_digest`] in hex. Any change here means the
/// transcript primitives changed.
pub const TRANSCRIPT_DIGEST_HEX: &'static str =
    "38f2f01a9f5d7c26f173fa596c67327652d19e24f84267778e06943567df9c3a6c1164107b92e6021881722be5e0bc25b5a2356894e427060e46a96f8a07d20fddcda46df7115d72158eda651de168151900c85e0837e30a597a02066d59ee41f2c80000";

/// Element `i` of the script that is observed.
pub open spec fn script_entry(i: int) -> int {
    i * 0x0100_0193 + 7
}

/// The 50 elements that are observed.
pub open spec fn script() -> Seq<int> {
    Seq::new(50, |i: int| script_entry(i))
}

/// The four bytes of `x`, least significant first.
pub open spec fn le_word(x: int) -> Seq<u8> {
    seq![
        (x % 256) as u8,
        (x / 256 % 256) as u8,
        (x / 65536 % 256) as u8,
        (x / 16777216 % 256) as u8,
    ]
}

/// The words of `xs` one after the other.
pub open spec fn le_words(xs: Seq<int>) -> Seq<u8>
    decreases xs.len(),
{
    if xs.len() == 0 {
        Seq::empty()
    } else {
        le_words(xs.drop_last()) + le_word(xs.last())
    }
}

/// The bytes that the script gives: 24 samples (8 base field elements, then 4
/// extension elements of 4 coefficients), and 16 bits of a last one.
pub open spec fn digest() -> Seq<u8> {
    let s = Sponge::fresh().observed_all(script());
    le_words(s.samples(24)) + le_word(s.after(24).sample() % 65536)
}

/// A lowercase hex digit.
pub open spec fn hex_digit(d: int) -> char {
    if d < 10 {
        (48 + d) as char
    } else {
        (87 + d) as char
    }
}

/// Lowercase hex, two digits a byte.
pub open spec fn hex(bytes: Seq<u8>) -> Seq<char> {
    Seq::new(
        2 * bytes.len(),
        |i: int|
            hex_digit(
                if i % 2 == 0 {
                    bytes[i / 2] / 16
                } else {
                    bytes[i / 2] % 16
                } as int,
            ),
    )
}

/// Append the four bytes of `x`.
fn push_word(out: &mut Vec<u8>, x: u32)
    ensures
        final(out)@ == old(out)@ + le_word(x as int),
{
    out.push((x % 256) as u8);
    out.push((x / 256 % 256) as u8);
    out.push((x / 65536 % 256) as u8);
    out.push((x / 16777216) as u8);
    assert(out@ =~= old(out)@ + le_word(x as int));
}

/// The bytes of the given samples, followed by those of `bits`.
pub fn digest_bytes(samples: &[F], bits: u32) -> (r: Vec<u8>)
    ensures
        r@ == le_words(field::vals(samples@)) + le_word(bits as int),
{
    let mut out: Vec<u8> = Vec::new();
    let mut i: usize = 0;
    while i < samples.len()
        invariant
            i <= samples@.len(),
            out@ == le_words(field::vals(samples@).take(i as int)),
        decreases samples@.len() - i,
    {
        push_word(&mut out, samples[i].as_canonical_u32());
        proof {
            let next = field::vals(samples@).take(i + 1);
            assert(next.drop_last() =~= field::vals(samples@).take(i as int));
        }
        i = i + 1;
    }
    assert(field::vals(samples@).take(i as int) =~= field::vals(samples@));
    push_word(&mut out, bits);
    out
}

/// Run a fixed Fiat-Shamir script (observe a deterministic sequence of base
/// field elements, then sample base- and extension-field challenges plus a bit
/// challenge) and return the sampled bytes.
pub fn transcript_digest() -> (r: Vec<u8>)
    ensures
        r@ == digest(),
{
    let mut ch = Transcript::new();
    let mut i: u32 = 0;
    while i < 50
        invariant
            i <= 50,
            ch@ == Sponge::fresh().observed_all(script().take(i as int)),
        decreases 50 - i,
    {
        ch.observe(F::from_u32(i * 0x0100_0193 + 7));
        proof {
            let next = script().take(i + 1);
            assert(next.drop_last() =~= script().take(i as int));
            assert(next.last() == script_entry(i as int));
        }
        i = i + 1;
    }
    assert(script().take(50) =~= script());
    let ghost s = ch@;
    let mut samples: Vec<F> = Vec::new();
    let mut k: usize = 0;
    assert(field::vals(samples@) =~= s.samples(0));
    while k < 8
        invariant
            k <= 8,
            ch@ == s.after(k as nat),
            field::vals(samples@) == s.samples(k as nat),
        decreases 8 - k,
    {
        let x = ch.sample();
        proof {
            transcript::lemma_samples_step(s, k as nat);
            assert(field::vals(samples@.push(x)) =~= field::vals(samples@).push(x@));
        }
        samples.push(x);
        k = k + 1;
    }
    let mut j: usize = 0;
    while j < 4
        invariant
            j <= 4,
            ch@ == s.after((8 + 4 * j) as nat),
            field::vals(samples@) == s.samples((8 + 4 * j) as nat),
        decreases 4 - j,
    {
        let ghost m = (8 + 4 * j) as nat;
        let ghost before = samples@;
        let ghost sponge = ch@;
        let e = ch.sample_algebra_element();
        samples.push(e.c0);
        samples.push(e.c1);
        samples.push(e.c2);
        samples.push(e.c3);
        proof {
            transcript::lemma_samples_step(s, m);
            transcript::lemma_samples_step(s, m + 1);
            transcript::lemma_samples_step(s, m + 2);
            transcript::lemma_samples_step(s, m + 3);
            reveal_with_fuel(Sponge::after, 5);
            assert(sponge.after(4) == s.after(m + 4));
            assert(field::vals(samples@) =~= field::vals(before).push(e.c0@).push(e.c1@).push(
                e.c2@,
            ).push(e.c3@));
            assert(m + 4 == (8 + 4 * (j + 1)) as nat);
        }
        j = j + 1;
    }
    let bits: u32 = ch.sample_bits(16);
    proof {
        lemma2_to64();
    }
    digest_bytes(&samples, bits)
}

/// One hex digit as text.
fn hex_digit_text(d: u8) -> (r: &'static str)
    requires
        d < 16,
    ensures
        r@ == seq![hex_digit(d as int)],
{
    proof {
        reveal_strlit("0");
        reveal_strlit("1");
        reveal_strlit("2");
        reveal_strlit("3");
        reveal_strlit("4");
        reveal_strlit("5");
        reveal_strlit("6");
        reveal_strlit("7");
        reveal_strlit("8");
        reveal_strlit("9");
        reveal_strlit("a");
        reveal_strlit("b");
        reveal_strlit("c");
        reveal_strlit("d");
        reveal_strlit("e");
        reveal_strlit("f");
    }
    let r = match d {
        0 => "0",
        1 => "1",
        2 => "2",
        3 => "3",
        4 => "4",
        5 => "5",
        6 => "6",
        7 => "7",
        8 => "8",
        9 => "9",
        10 => "a",
        11 => "b",
        12 => "c",
        13 => "d",
        14 => "e",
        _ => "f",
    };
    assert(r@ =~= seq![hex_digit(d as int)]);
    r
}

/// Lowercase hex of `bytes`.
pub fn to_hex(bytes: &[u8]) -> (r: String)
    ensures
        r@ == hex(bytes@),
{
    let mut out = String::new();
    let mut i: usize = 0;
    assert(out@ =~= hex(bytes@.take(0)));
    while i < bytes.len()
        invariant
            i <= bytes@.len(),
            out@ == hex(bytes@.take(i as int)),
        decreases bytes@.len() - i,
    {
        let b = bytes[i];
        out.append(hex_digit_text(b / 16));
        out.append(hex_digit_text(b % 16));
        assert(out@ =~= hex(bytes@.take(i + 1)));
        i = i + 1;
    }
    assert(bytes@.take(i as int) =~= bytes@);
    out
}

/// Lowercase hex of [`transcript_digest`].
pub fn transcript_digest_hex() -> (r: String)
    ensures
        r@ == hex(digest()),
{
    let bytes = transcript_digest();
    to_hex(&bytes)
}

} // verus!
