//! Elements of the scalar field of BLS12-381.
//!
//! A field element is held as four little-endian 64-bit limbs; its value is
//! the integer they spell, reduced modulo the field modulus. Every arithmetic
//! operation is carried out by `ark_bls12_381::Fr` (arkworks), behind the
//! trusted items of this module.
use ark_bls12_381::Fr;
use ark_ff::{BigInt, BigInteger, PrimeField};
use vstd::prelude::*;

verus! {

/// The modulus of the scalar field of BLS12-381.
pub open spec fn modulus() -> int {
    52435875175126190479447740508185965837690552500527637822603658699938581184513int
}

/// 2^64.
pub open spec fn limb_base() -> int {
    18446744073709551616int
}

/// The integer spelled by four little-endian 64-bit limbs.
pub open spec fn limbs_value(l: [u64; 4]) -> int {
    l[0] + limb_base() * (l[1] + limb_base() * (l[2] + limb_base() * l[3]))
}

/// `(a + b) mod p`.
pub open spec fn fadd(a: int, b: int) -> int {
    (a + b) % modulus()
}

/// `(a - b) mod p`, always in `[0, p)`.
pub open spec fn fsub(a: int, b: int) -> int {
    (a - b) % modulus()
}

/// `(a * b) mod p`.
pub open spec fn fmul(a: int, b: int) -> int {
    (a * b) % modulus()
}

/// An element of the scalar field of BLS12-381.
#[derive(Clone, Copy, Debug)]
pub struct Fe {
    limbs: [u64; 4],
}

impl View for Fe {
    type V = int;

    /// The value of the element, in `[0, p)`.
    closed spec fn view(&self) -> int {
        limbs_value(self.limbs) % modulus()
    }
}

/// Every field element lies in `[0, p)`.
pub broadcast proof fn lemma_fe_range(x: Fe)
    ensures
        0 <= #[trigger] x@ < modulus(),
{
    vstd::arithmetic::div_mod::lemma_mod_bound(limbs_value(x.limbs), modulus());
}

impl Fe {
    /// The additive identity.
    pub fn zero() -> (r: Fe)
        ensures
            r@ == 0,
    {
        Fe { limbs: [0, 0, 0, 0] }
    }

    /// The multiplicative identity.
    pub fn one() -> (r: Fe)
        ensures
            r@ == 1,
    {
        Fe { limbs: [1, 0, 0, 0] }
    }

    /// The element `x mod p` (here simply `x`, since `x < 2^64 < p`).
    pub fn from_u64(x: u64) -> (r: Fe)
        ensures
            r@ == x as int,
    {
        let r = Fe { limbs: [x, 0, 0, 0] };
        proof {
            assert(limbs_value(r.limbs) == x as int);
            vstd::arithmetic::div_mod::lemma_small_mod(x as nat, modulus() as nat);
        }
        r
    }

    /// The element whose value is `limbs_value(limbs) mod p`.
    pub fn from_limbs(limbs: [u64; 4]) -> (r: Fe)
        ensures
            r@ == limbs_value(limbs) % modulus(),
    {
        Fe { limbs }
    }

    /// `self + other`.
    pub fn plus(&self, other: &Fe) -> (r: Fe)
        ensures
            r@ == fadd(self@, other@),
    {
        fe_add(*self, *other)
    }

    /// `self - other`.
    pub fn minus(&self, other: &Fe) -> (r: Fe)
        ensures
            r@ == fsub(self@, other@),
    {
        fe_sub(*self, *other)
    }

    /// `self * other`.
    pub fn times(&self, other: &Fe) -> (r: Fe)
        ensures
            r@ == fmul(self@, other@),
    {
        fe_mul(*self, *other)
    }

    /// Whether the two elements are equal.
    pub fn equals(&self, other: &Fe) -> (r: bool)
        ensures
            r == (self@ == other@),
    {
        fe_equal(self, other)
    }

    /// Whether the element is zero.
    pub fn is_zero(&self) -> (r: bool)
        ensures
            r == (self@ == 0),
    {
        let z = Fe::zero();
        fe_equal(self, &z)
    }

    /// The four little-endian limbs of the canonical representative.
    pub fn to_canonical_limbs(&self) -> (r: [u64; 4])
        ensures
            limbs_value(r) == self@,
    {
        canonical_limbs(self)
    }
}

/// Calls `Fr::from_le_bytes_mod_order` and `Fr::into_bigint`: the limbs of
/// the canonical representative of `a`, that is of `limbs_value(a.limbs) mod p`.
#[verifier::external_body]
fn canonical_limbs(a: &Fe) -> (r: [u64; 4])
    ensures
        limbs_value(r) == a@,
{
    Fr::from_le_bytes_mod_order(&BigInt::new(a.limbs).to_bytes_le()).into_bigint().0
}

/// Calls `Fr`'s `+`: modular addition of the two values.
#[verifier::external_body]
pub(crate) fn fe_add(a: Fe, b: Fe) -> (r: Fe)
    ensures
        r@ == fadd(a@, b@),
{
    let x = Fr::from_le_bytes_mod_order(&BigInt::new(a.limbs).to_bytes_le());
    let y = Fr::from_le_bytes_mod_order(&BigInt::new(b.limbs).to_bytes_le());
    Fe { limbs: (x + y).into_bigint().0 }
}

/// Calls `Fr`'s `-`: modular subtraction of the two values.
#[verifier::external_body]
pub(crate) fn fe_sub(a: Fe, b: Fe) -> (r: Fe)
    ensures
        r@ == fsub(a@, b@),
{
    let x = Fr::from_le_bytes_mod_order(&BigInt::new(a.limbs).to_bytes_le());
    let y = Fr::from_le_bytes_mod_order(&BigInt::new(b.limbs).to_bytes_le());
    Fe { limbs: (x - y).into_bigint().0 }
}

/// Calls `Fr`'s `*`: modular multiplication of the two values.
#[verifier::external_body]
pub(crate) fn fe_mul(a: Fe, b: Fe) -> (r: Fe)
    ensures
        r@ == fmul(a@, b@),
{
    let x = Fr::from_le_bytes_mod_order(&BigInt::new(a.limbs).to_bytes_le());
    let y = Fr::from_le_bytes_mod_order(&BigInt::new(b.limbs).to_bytes_le());
    Fe { limbs: (x * y).into_bigint().0 }
}

/// Calls `Fr`'s `==`: whether the two values are equal.
#[verifier::external_body]
fn fe_equal(a: &Fe, b: &Fe) -> (r: bool)
    ensures
        r == (a@ == b@),
{
    let x = Fr::from_le_bytes_mod_order(&BigInt::new(a.limbs).to_bytes_le());
    let y = Fr::from_le_bytes_mod_order(&BigInt::new(b.limbs).to_bytes_le());
    x == y
}

impl PartialEq for Fe {
    fn eq(&self, other: &Self) -> (r: bool) {
        fe_equal(self, other)
    }
}

impl vstd::std_specs::cmp::PartialEqSpecImpl for Fe {
    open spec fn obeys_eq_spec() -> bool {
        true
    }

    open spec fn eq_spec(&self, other: &Self) -> bool {
        self@ == other@
    }
}


} // verus!
