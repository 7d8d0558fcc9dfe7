//! Cross-target Fiat-Shamir determinism guard, and the transcript behind it.

use regev_plonky3::field::F;
use regev_plonky3::portability::{
    digest_bytes, to_hex, transcript_digest, transcript_digest_hex, TRANSCRIPT_DIGEST_HEX,
};
use regev_plonky3::transcript::Transcript;

#[test]
fn transcript_digest_matches_golden_native() {
    assert_eq!(transcript_digest_hex(), TRANSCRIPT_DIGEST_HEX);
}

#[test]
fn digest_has_one_word_per_sample() {
    assert_eq!(transcript_digest().len(), 4 * (8 + 16 + 1));
}

#[test]
fn words_are_little_endian() {
    assert_eq!(
        digest_bytes(&[F::from_u32(0x0102_0304)], 0xabcd),
        vec![4, 3, 2, 1, 0xcd, 0xab, 0, 0]
    );
}

#[test]
fn hex_is_lowercase() {
    assert_eq!(to_hex(&[0x00, 0x9f, 0xff]), "009fff");
}

#[test]
fn extension_elements_are_four_samples() {
    let mut x = Transcript::new();
    let mut y = Transcript::new();
    x.observe(F::from_u32(3));
    y.observe(F::from_u32(3));
    let e = x.sample_algebra_element();
    assert_eq!(e.c0, y.sample());
    assert_eq!(e.c1, y.sample());
    assert_eq!(e.c2, y.sample());
    assert_eq!(e.c3, y.sample());
    assert_eq!(x.sample(), y.sample());
}

#[test]
fn bits_are_the_low_bits_of_a_sample() {
    let mut x = Transcript::new();
    let mut y = Transcript::new();
    assert_eq!(x.sample_bits(16), y.sample().as_canonical_u32() % 65536);
}

#[test]
fn observing_changes_what_is_sampled() {
    let mut x = Transcript::new();
    let mut y = Transcript::new();
    x.observe(F::from_u32(1));
    y.observe(F::from_u32(2));
    assert_ne!(x.sample(), y.sample());
}
