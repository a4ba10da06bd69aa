use vstd::prelude::*;
use ark_ff::Zero;

verus! {

/// A scalar of the BLS12-381 scalar field, the field every transform in this
/// crate works over. The four limbs are the element's (Montgomery-form)
/// representation in the outside crate `ark_ff`; `Fp` keeps exactly one
/// representation per field element, so limb equality is value equality. This
/// crate never interprets the limbs: all arithmetic goes through the trusted
/// wrappers below, which hand the limbs to `ark_ff` unchanged.
#[derive(Clone, Copy, Debug, PartialEq, Eq)]
pub struct Scalar {
    limbs: [u64; 4],
}

/// The sum of two scalars, as the field addition of `ark_ff` computes it.
pub uninterp spec fn fr_sum(a: Scalar, b: Scalar) -> Scalar;

/// The product of two scalars, as the field multiplication of `ark_ff`
/// computes it.
pub uninterp spec fn fr_prod(a: Scalar, b: Scalar) -> Scalar;

/// The scalar that the integer `x` maps to, as `ark_ff`'s conversion from
/// unsigned integers computes it; `fr_val(0)` is the additive identity and
/// `fr_val(1)` the multiplicative identity of the field.
pub uninterp spec fn fr_val(x: u64) -> Scalar;

/// Relies on `ark_ff`'s `Add for Fp`: field addition in the scalar field, a
/// function of its two arguments alone.
#[verifier::external_body]
pub fn fr_add(a: Scalar, b: Scalar) -> (r: Scalar)
    ensures
        r == fr_sum(a, b),
{
    let fa: ark_bls12_381::Fr = ark_ff::Fp(ark_ff::BigInt(a.limbs), core::marker::PhantomData);
    let fb: ark_bls12_381::Fr = ark_ff::Fp(ark_ff::BigInt(b.limbs), core::marker::PhantomData);
    Scalar { limbs: ((fa + fb).0).0 }
}

/// Relies on `ark_ff`'s `Mul for Fp`: field multiplication in the scalar
/// field, a function of its two arguments alone.
#[verifier::external_body]
pub fn fr_mul(a: Scalar, b: Scalar) -> (r: Scalar)
    ensures
        r == fr_prod(a, b),
{
    let fa: ark_bls12_381::Fr = ark_ff::Fp(ark_ff::BigInt(a.limbs), core::marker::PhantomData);
    let fb: ark_bls12_381::Fr = ark_ff::Fp(ark_ff::BigInt(b.limbs), core::marker::PhantomData);
    Scalar { limbs: ((fa * fb).0).0 }
}

/// Relies on `ark_ff`'s `From<u64> for Fp`: embeds an unsigned integer into
/// the scalar field, a function of its argument alone.
#[verifier::external_body]
pub fn fr_from_u64(x: u64) -> (r: Scalar)
    ensures
        r == fr_val(x),
{
    let f: ark_bls12_381::Fr = ark_bls12_381::Fr::from(x);
    Scalar { limbs: (f.0).0 }
}

/// Relies on `ark_ff`'s `Zero::is_zero for Fp`: true exactly on the additive
/// identity, which is the value `From<u64>` gives for 0.
#[verifier::external_body]
pub fn fr_is_zero(a: &Scalar) -> (r: bool)
    ensures
        r == (*a == fr_val(0)),
{
    let fa: ark_bls12_381::Fr = ark_ff::Fp(ark_ff::BigInt(a.limbs), core::marker::PhantomData);
    fa.is_zero()
}

} // verus!
