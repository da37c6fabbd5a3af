//! Elements of the BLS12-381 scalar field, held as canonical 256-bit integers.
use ark_bls12_381::Fr;
use ark_ff::biginteger::BigInteger256;
use ark_ff::{Field, PrimeField};
use ark_std::UniformRand;
use rand::rngs::StdRng;
use vstd::arithmetic::div_mod::*;
use vstd::prelude::*;

verus! {

/// One limb's range: 2^64.
pub open spec fn word() -> int {
    0x1_0000_0000_0000_0000int
}

/// The order of the scalar field of BLS12-381.
pub open spec fn modulus() -> int {
    0x73eda753299d7d483339d80809a1d80553bda402fffe5bfeffffffff00000001int
}

/// The integer that four little-endian 64-bit limbs spell.
pub open spec fn limbs_value(l: [u64; 4]) -> int {
    l@[0] + word() * (l@[1] + word() * (l@[2] + word() * l@[3]))
}

/// A field element, stored as its canonical representative in `[0, modulus())`.
#[derive(Clone, Copy, Debug, PartialEq, Eq)]
pub struct Scalar {
    pub(crate) limbs: [u64; 4],
}

impl View for Scalar {
    type V = int;

    closed spec fn view(&self) -> int {
        limbs_value(self.limbs)
    }
}

impl Scalar {
    /// Every scalar is below the field's order.
    #[verifier::type_invariant]
    pub open spec fn canonical(self) -> bool {
        0 <= self@ < modulus()
    }

    /// The additive identity.
    pub fn zero() -> (r: Scalar)
        ensures
            r@ == 0,
    {
        Scalar { limbs: [0u64, 0u64, 0u64, 0u64] }
    }

    /// The multiplicative identity.
    pub fn one() -> (r: Scalar)
        ensures
            r@ == 1,
    {
        Scalar { limbs: [1u64, 0u64, 0u64, 0u64] }
    }

    /// The field element `v`.
    pub fn from_u64(v: u64) -> (r: Scalar)
        ensures
            r@ == v,
    {
        Scalar { limbs: [v, 0u64, 0u64, 0u64] }
    }

    /// Field equality: two canonical representatives are equal exactly when their limbs are.
    pub fn equals(&self, other: &Scalar) -> (r: bool)
        ensures
            r == (self@ == other@),
    {
        proof {
            lemma_limbs_injective(self.limbs, other.limbs);
        }
        self.limbs[0] == other.limbs[0] && self.limbs[1] == other.limbs[1] && self.limbs[2]
            == other.limbs[2] && self.limbs[3] == other.limbs[3]
    }

    /// Field addition.
    pub fn add(&self, other: &Scalar) -> (r: Scalar)
        ensures
            r@ == (self@ + other@) % modulus(),
    {
        fr_add(self, other)
    }
}

proof fn lemma_limbs_injective(a: [u64; 4], b: [u64; 4])
    ensures
        limbs_value(a) == limbs_value(b) <==> a@ == b@,
{
    if limbs_value(a) == limbs_value(b) {
        let w = word();
        let a1 = a@[1] + w * (a@[2] + w * a@[3]);
        let b1 = b@[1] + w * (b@[2] + w * b@[3]);
        assert(a@[2] + w * a@[3] >= 0) by (nonlinear_arith)
            requires
                a@[2] >= 0,
                a@[3] >= 0,
                w > 0,
        ;
        assert(b@[2] + w * b@[3] >= 0) by (nonlinear_arith)
            requires
                b@[2] >= 0,
                b@[3] >= 0,
                w > 0,
        ;
        assert(a1 >= 0) by (nonlinear_arith)
            requires
                a1 == a@[1] + w * (a@[2] + w * a@[3]),
                a@[1] >= 0,
                a@[2] + w * a@[3] >= 0,
                w > 0,
        ;
        assert(b1 >= 0) by (nonlinear_arith)
            requires
                b1 == b@[1] + w * (b@[2] + w * b@[3]),
                b@[1] >= 0,
                b@[2] + w * b@[3] >= 0,
                w > 0,
        ;
        lemma_digit_split(a@[0] as int, a1, b@[0] as int, b1);
        lemma_digit_split(a@[1] as int, a@[2] + w * a@[3], b@[1] as int, b@[2] + w * b@[3]);
        lemma_digit_split(a@[2] as int, a@[3] as int, b@[2] as int, b@[3] as int);
        assert(a@ =~= b@);
    }
}

proof fn lemma_digit_split(x0: int, x1: int, y0: int, y1: int)
    requires
        0 <= x0 < word(),
        0 <= y0 < word(),
        x1 >= 0,
        y1 >= 0,
        x0 + word() * x1 == y0 + word() * y1,
    ensures
        x0 == y0,
        x1 == y1,
{
    let w = word();
    lemma_fundamental_div_mod_converse(x0 + w * x1, w, x1, x0);
    lemma_fundamental_div_mod_converse(y0 + w * y1, w, y1, y0);
}

/// Relies on ark-ff's `Add` for `Fp256`: addition modulo the field's order, and on
/// `From<BigInteger256>` / `into_repr`, which move between canonical integers and field
/// elements (`From` panics only on an integer not below the order, which no `Scalar` holds).
#[verifier::external_body]
pub(crate) fn fr_add(a: &Scalar, b: &Scalar) -> (r: Scalar)
    ensures
        r@ == (a@ + b@) % modulus(),
{
    let x = Fr::from(BigInteger256::new(a.limbs)) + Fr::from(BigInteger256::new(b.limbs));
    Scalar { limbs: x.into_repr().0 }
}

/// Relies on ark-ff's `Mul` for `Fp256`: multiplication modulo the field's order.
#[verifier::external_body]
pub(crate) fn fr_mul(a: &Scalar, b: &Scalar) -> (r: Scalar)
    ensures
        r@ == (a@ * b@) % modulus(),
{
    let x = Fr::from(BigInteger256::new(a.limbs)) * Fr::from(BigInteger256::new(b.limbs));
    Scalar { limbs: x.into_repr().0 }
}

/// Relies on ark-ff's `Field::pow`: `a` raised to the exponent `e`, modulo the field's order
/// (with `a^0 == 1`).
#[verifier::external_body]
pub(crate) fn fr_pow(a: &Scalar, e: usize) -> (r: Scalar)
    ensures
        r@ == vstd::arithmetic::power::pow(a@, e as nat) % modulus(),
{
    let x = Fr::from(BigInteger256::new(a.limbs)).pow([e as u64]);
    Scalar { limbs: x.into_repr().0 }
}

/// rand's `StdRng`, the verifier's source of challenges, carried as an opaque value.
#[verifier::external_type_specification]
#[verifier::external_body]
pub struct ExStdRng(StdRng);

/// Relies on ark-std's `UniformRand` for `Fp256`: a uniformly drawn field element, whose
/// canonical representative is below the order. Nothing else is known of the value.
#[verifier::external_body]
pub(crate) fn fr_random(rng: &mut StdRng) -> (r: Scalar)
    ensures
        0 <= r@ < modulus(),
{
    let x = Fr::rand(rng);
    Scalar { limbs: x.into_repr().0 }
}

} // verus!
