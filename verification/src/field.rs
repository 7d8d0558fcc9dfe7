//! The BabyBear prime field, whose modulus is also the ciphertext modulus `q`.
//!
//! Elements are kept in canonical form; the arithmetic itself is done by
//! `p3-baby-bear`.

use p3_baby_bear::BabyBear;
use p3_field::{Field, PrimeCharacteristicRing, PrimeField32, TwoAdicField};
use vstd::prelude::*;

verus! {

/// Largest `k` such that `2^k` divides `q - 1`.
pub const TWO_ADICITY: usize = 27;

/// The modulus, the BabyBear prime `2^31 - 2^27 + 1`.
#[verifier::inline]
pub open spec fn q() -> int {
    2013265921
}

/// A field element, held as its canonical representative in `[0, q)`.
#[derive(Clone, Copy, Debug)]
pub struct F {
    val: u32,
}

impl View for F {
    type V = int;

    /// The canonical representative.
    closed spec fn view(&self) -> int {
        (self.val as int) % q()
    }
}

/// `BabyBear::ORDER_U32`: the field order is the BabyBear prime.
#[verifier::external_body]
fn raw_order() -> (r: u32)
    ensures
        r == 2013265921,
{
    BabyBear::ORDER_U32
}

/// `BabyBear::from_u32`: any `u32` is accepted and stands for its residue.
#[verifier::external_body]
fn raw_from_u32(x: u32) -> (r: u32)
    ensures
        r == (x as int) % q(),
{
    BabyBear::from_u32(x).as_canonical_u32()
}

/// Field addition of `BabyBear`.
#[verifier::external_body]
fn raw_add(x: u32, y: u32) -> (r: u32)
    ensures
        r == (x + y) % q(),
{
    (BabyBear::from_u32(x) + BabyBear::from_u32(y)).as_canonical_u32()
}

/// Field subtraction of `BabyBear`.
#[verifier::external_body]
fn raw_sub(x: u32, y: u32) -> (r: u32)
    ensures
        r == (x - y) % q(),
{
    (BabyBear::from_u32(x) - BabyBear::from_u32(y)).as_canonical_u32()
}

/// Field negation of `BabyBear`.
#[verifier::external_body]
fn raw_neg(x: u32) -> (r: u32)
    ensures
        r == (-(x as int)) % q(),
{
    (-BabyBear::from_u32(x)).as_canonical_u32()
}

/// Field multiplication of `BabyBear`.
#[verifier::external_body]
fn raw_mul(x: u32, y: u32) -> (r: u32)
    ensures
        r == (x * y) % q(),
{
    (BabyBear::from_u32(x) * BabyBear::from_u32(y)).as_canonical_u32()
}

/// `Field::inverse` of `BabyBear`, which panics on zero.
#[verifier::external_body]
fn raw_inverse(x: u32) -> (r: u32)
    requires
        (x as int) % q() != 0,
    ensures
        r < q(),
        (r * x) % q() == 1,
{
    BabyBear::from_u32(x).inverse().as_canonical_u32()
}

/// `BabyBear::two_adic_generator`, which panics above the two-adicity: the
/// entries of the field's published table of roots of unity.
#[verifier::external_body]
fn raw_two_adic_generator(bits: usize) -> (r: u32)
    requires
        bits <= 27,
    ensures
        r == two_adic_root(bits as nat),
{
    BabyBear::two_adic_generator(bits).as_canonical_u32()
}

/// The published generator of the subgroup of order `2^bits`.
#[verifier::opaque]
pub open spec fn two_adic_root(bits: nat) -> int {
    if bits == 0 {
        0x1
    } else if bits == 1 {
        0x78000000
    } else if bits == 2 {
        0x67055c21
    } else if bits == 3 {
        0x5ee99486
    } else if bits == 4 {
        0xbb4c4e4
    } else if bits == 5 {
        0x2d4cc4da
    } else if bits == 6 {
        0x669d6090
    } else if bits == 7 {
        0x17b56c64
    } else if bits == 8 {
        0x67456167
    } else if bits == 9 {
        0x688442f9
    } else if bits == 10 {
        0x145e952d
    } else if bits == 11 {
        0x4fe61226
    } else if bits == 12 {
        0x4c734715
    } else if bits == 13 {
        0x11c33e2a
    } else if bits == 14 {
        0x62c3d2b1
    } else if bits == 15 {
        0x77cad399
    } else if bits == 16 {
        0x54c131f4
    } else if bits == 17 {
        0x4cabd6a6
    } else if bits == 18 {
        0x5cf5713f
    } else if bits == 19 {
        0x3e9430e8
    } else if bits == 20 {
        0xba067a3
    } else if bits == 21 {
        0x18adc27d
    } else if bits == 22 {
        0x21fd55bc
    } else if bits == 23 {
        0x4b859b3d
    } else if bits == 24 {
        0x3bd57996
    } else if bits == 25 {
        0x4483d85a
    } else if bits == 26 {
        0x3a26eef8
    } else {
        0x1a427a41
    }
}

/// The published roots are canonical and nonzero; the first two are 1 and -1.
pub proof fn lemma_two_adic_root_range(bits: nat)
    ensures
        0 < two_adic_root(bits) < q(),
        two_adic_root(0) == 1,
        two_adic_root(1) == q() - 1,
{
    reveal(two_adic_root);
}

/// All entries are canonical representatives.
pub open spec fn canonical(xs: Seq<int>) -> bool {
    forall|i: int| 0 <= i < xs.len() ==> 0 <= #[trigger] xs[i] < q()
}

/// The canonical representatives of a sequence of elements.
pub open spec fn vals(s: Seq<F>) -> Seq<int> {
    Seq::new(s.len(), |i: int| s[i]@)
}

impl F {
    #[verifier::type_invariant]
    spec fn canonical(self) -> bool {
        self.val < q()
    }

    /// The representative is canonical.
    pub broadcast proof fn lemma_view_range(self)
        ensures
            0 <= #[trigger] self@ < q(),
    {
    }

    pub fn zero() -> (r: F)
        ensures
            r@ == 0,
    {
        F { val: 0 }
    }

    pub fn one() -> (r: F)
        ensures
            r@ == 1,
    {
        F { val: 1 }
    }

    /// The order of the field.
    pub fn order() -> (r: u32)
        ensures
            r == q(),
    {
        raw_order()
    }

    /// The residue of any `u32`.
    pub fn from_u32(x: u32) -> (r: F)
        ensures
            r@ == (x as int) % q(),
    {
        F { val: raw_from_u32(x) }
    }

    pub fn from_u8(x: u8) -> (r: F)
        ensures
            r@ == x as int,
    {
        F::from_u32(x as u32)
    }

    /// The canonical representative in `[0, q)`.
    pub fn as_canonical_u32(self) -> (r: u32)
        ensures
            r == self@,
    {
        proof {
            use_type_invariant(&self);
        }
        self.val
    }

    pub fn add(self, other: F) -> (r: F)
        ensures
            r@ == (self@ + other@) % q(),
    {
        proof {
            use_type_invariant(&self);
            use_type_invariant(&other);
        }
        F { val: raw_add(self.val, other.val) }
    }

    pub fn sub(self, other: F) -> (r: F)
        ensures
            r@ == (self@ - other@) % q(),
    {
        proof {
            use_type_invariant(&self);
            use_type_invariant(&other);
        }
        F { val: raw_sub(self.val, other.val) }
    }

    pub fn neg(self) -> (r: F)
        ensures
            r@ == (-self@) % q(),
    {
        proof {
            use_type_invariant(&self);
        }
        F { val: raw_neg(self.val) }
    }

    pub fn mul(self, other: F) -> (r: F)
        ensures
            r@ == (self@ * other@) % q(),
    {
        proof {
            use_type_invariant(&self);
            use_type_invariant(&other);
        }
        F { val: raw_mul(self.val, other.val) }
    }

    /// The multiplicative inverse of a nonzero element.
    pub fn inverse(self) -> (r: F)
        requires
            self@ != 0,
        ensures
            (r@ * self@) % q() == 1,
    {
        proof {
            use_type_invariant(&self);
        }
        F { val: raw_inverse(self.val) }
    }

    /// The published generator of the subgroup of order `2^bits`.
    pub fn two_adic_generator(bits: usize) -> (r: F)
        requires
            bits <= TWO_ADICITY,
        ensures
            r@ == two_adic_root(bits as nat),
    {
        proof {
            lemma_two_adic_root_range(bits as nat);
        }
        F { val: raw_two_adic_generator(bits) }
    }
}

impl PartialEq for F {
    fn eq(&self, other: &F) -> (r: bool) {
        proof {
            use_type_invariant(self);
            use_type_invariant(other);
        }
        self.val == other.val
    }
}

impl vstd::std_specs::cmp::PartialEqSpecImpl for F {
    open spec fn obeys_eq_spec() -> bool {
        true
    }

    open spec fn eq_spec(&self, other: &F) -> bool {
        self@ == other@
    }
}

impl Eq for F {

}

} // verus!
