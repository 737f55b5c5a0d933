//! Field abstraction consumed by the combination polynomials.
//!
//! The decomposition layer never computes in a concrete field itself: it only
//! needs addition, multiplication and the embedding of small integers.  That
//! minimal capability set is the `JoltField` trait, whose contracts speak of
//! the canonical integer representative of each element.  One concrete
//! implementation is provided, `Fr255`, backed by the scalar field of
//! curve25519; its ring operations are delegated to `ark_ff`.

use vstd::prelude::*;
use vstd::arithmetic::power2::pow2;
use vstd::arithmetic::power2::lemma_pow2_strictly_increases;
use vstd::arithmetic::power2::lemma2_to64;
use vstd::arithmetic::div_mod::lemma_small_mod;

verus! {

/// The order of the scalar field of curve25519: `2^252 + 27742...8493`.
pub open spec fn fr_modulus() -> nat {
    pow2(252) + 27742317777372353535851937790883648493
}

/// Minimal algebraic capability set required of the proof system's field:
/// addition, multiplication, and embedding of small unsigned integers.
///
/// `val` is the canonical integer representative of an element, always in
/// `[0, modulus)` for values produced through this interface.
pub trait JoltField: Sized + Copy {
    /// The order of the field, as a mathematical integer.
    spec fn modulus() -> nat;

    /// The canonical representative of this element in `[0, modulus)`.
    spec fn val(&self) -> nat;

    /// Every field has at least the two elements `0` and `1`.
    proof fn modulus_at_least_two()
        ensures
            Self::modulus() >= 2,
    ;

    /// The additive identity.
    fn zero() -> (r: Self)
        ensures
            r.val() == 0,
    ;

    /// The multiplicative identity.
    fn one() -> (r: Self)
        ensures
            r.val() == 1nat % Self::modulus(),
    ;

    /// Field addition.
    fn add(self, other: Self) -> (r: Self)
        requires
            self.val() < Self::modulus(),
            other.val() < Self::modulus(),
        ensures
            r.val() == (self.val() + other.val()) % Self::modulus(),
    ;

    /// Field multiplication.
    fn mul(self, other: Self) -> (r: Self)
        requires
            self.val() < Self::modulus(),
            other.val() < Self::modulus(),
        ensures
            r.val() == (self.val() * other.val()) % Self::modulus(),
    ;

    /// Embedding of a machine word into the field.
    fn from_u64(x: u64) -> (r: Self)
        ensures
            r.val() == x as nat % Self::modulus(),
    ;
}

/// An element of the scalar field of curve25519, held as the four 64-bit
/// little-endian limbs of its canonical representative.
#[derive(Clone, Copy, Debug, PartialEq, Eq, Structural)]
pub struct Fr255 {
    pub l0: u64,
    pub l1: u64,
    pub l2: u64,
    pub l3: u64,
}

impl Fr255 {
    /// The integer encoded by the four limbs.
    pub open spec fn limbs_val(&self) -> nat {
        self.l0 as nat + self.l1 as nat * pow2(64) + self.l2 as nat * pow2(128)
            + self.l3 as nat * pow2(192)
    }
}

/// The modulus exceeds every machine word.
pub proof fn lemma_fr_modulus_large()
    ensures
        fr_modulus() > u64::MAX,
        fr_modulus() >= 2,
{
    lemma2_to64();
    lemma_pow2_strictly_increases(64, 252);
}

/// Relies on `ark_ff`'s prime-field addition being addition modulo the field
/// order, with `from_bigint`/`into_bigint` mapping little-endian limbs to and
/// from the canonical representative in `[0, order)`.
#[verifier::external_body]
fn fr_add_limbs(a: &Fr255, b: &Fr255) -> (r: Fr255)
    requires
        a.limbs_val() < fr_modulus(),
        b.limbs_val() < fr_modulus(),
    ensures
        r.limbs_val() == (a.limbs_val() + b.limbs_val()) % fr_modulus(),
{
    let x = <ark_curve25519::Fr as ark_ff::PrimeField>::from_bigint(ark_ff::BigInt::new([
        a.l0, a.l1, a.l2, a.l3,
    ]))
    .unwrap();
    let y = <ark_curve25519::Fr as ark_ff::PrimeField>::from_bigint(ark_ff::BigInt::new([
        b.l0, b.l1, b.l2, b.l3,
    ]))
    .unwrap();
    let s = <ark_curve25519::Fr as ark_ff::PrimeField>::into_bigint(x + y).0;
    Fr255 { l0: s[0], l1: s[1], l2: s[2], l3: s[3] }
}

/// Relies on `ark_ff`'s prime-field multiplication being multiplication
/// modulo the field order, with `from_bigint`/`into_bigint` mapping
/// little-endian limbs to and from the canonical representative.
#[verifier::external_body]
fn fr_mul_limbs(a: &Fr255, b: &Fr255) -> (r: Fr255)
    requires
        a.limbs_val() < fr_modulus(),
        b.limbs_val() < fr_modulus(),
    ensures
        r.limbs_val() == (a.limbs_val() * b.limbs_val()) % fr_modulus(),
{
    let x = <ark_curve25519::Fr as ark_ff::PrimeField>::from_bigint(ark_ff::BigInt::new([
        a.l0, a.l1, a.l2, a.l3,
    ]))
    .unwrap();
    let y = <ark_curve25519::Fr as ark_ff::PrimeField>::from_bigint(ark_ff::BigInt::new([
        b.l0, b.l1, b.l2, b.l3,
    ]))
    .unwrap();
    let s = <ark_curve25519::Fr as ark_ff::PrimeField>::into_bigint(x * y).0;
    Fr255 { l0: s[0], l1: s[1], l2: s[2], l3: s[3] }
}

impl JoltField for Fr255 {
    open spec fn modulus() -> nat {
        fr_modulus()
    }

    open spec fn val(&self) -> nat {
        self.limbs_val()
    }

    proof fn modulus_at_least_two() {
        lemma_fr_modulus_large();
    }

    fn zero() -> (r: Self) {
        Fr255 { l0: 0, l1: 0, l2: 0, l3: 0 }
    }

    fn one() -> (r: Self) {
        proof {
            lemma_fr_modulus_large();
            lemma_small_mod(1, fr_modulus());
        }
        Fr255 { l0: 1, l1: 0, l2: 0, l3: 0 }
    }

    fn add(self, other: Self) -> (r: Self) {
        fr_add_limbs(&self, &other)
    }

    fn mul(self, other: Self) -> (r: Self) {
        fr_mul_limbs(&self, &other)
    }

    fn from_u64(x: u64) -> (r: Self) {
        proof {
            lemma_fr_modulus_large();
            lemma_small_mod(x as nat, fr_modulus());
        }
        Fr255 { l0: x, l1: 0, l2: 0, l3: 0 }
    }
}

} // verus!
