//! Complex samples and the arithmetic the transforms are built from.
//!
//! A sample is a `num_complex::Complex32`, opaque to the verifier. Each
//! arithmetic operation the engine needs is a trusted wrapper around one
//! `num_complex` function. Where std documents the operation as exact and
//! deterministic (IEEE `+ - * /`, negation, casts, bit conversions), the
//! value returned is named by an uninterpreted spec function of the
//! operands, so contracts can pin down exactly which combination of
//! operations produced each bin without restating single-precision
//! arithmetic. The exponential and the logarithm are documented with
//! unspecified, non-deterministic precision, so no value is named for them:
//! the transform contracts quantify over their results instead.

use num_traits::FromPrimitive;
use vstd::prelude::*;

verus! {

/// Declares num_complex's `Complex` to the verifier; its values are opaque,
/// moved whole and never inspected by verified code.
#[verifier::external_type_specification]
#[verifier::external_body]
#[verifier::reject_recursive_types(T)]
pub struct ExComplex<T>(num_complex::Complex<T>);

/// The sum of two complex samples.
pub uninterp spec fn c_add_of(a: num_complex::Complex32, b: num_complex::Complex32) -> num_complex::Complex32;

/// The product of two complex samples.
pub uninterp spec fn c_mul_of(a: num_complex::Complex32, b: num_complex::Complex32) -> num_complex::Complex32;

/// The quotient of two complex samples.
pub uninterp spec fn c_div_of(a: num_complex::Complex32, b: num_complex::Complex32) -> num_complex::Complex32;

/// The negation of a complex sample.
pub uninterp spec fn c_neg_of(a: num_complex::Complex32) -> num_complex::Complex32;

/// The complex sample with real part `n` and imaginary part zero.
pub uninterp spec fn c_of_usize(n: usize) -> num_complex::Complex32;

/// The IEEE-754 bit patterns of the real and imaginary parts of a sample.
pub uninterp spec fn c_bits_of(c: num_complex::Complex32) -> (u32, u32);

/// The sample whose real and imaginary parts have the given bit patterns.
pub uninterp spec fn c_of_bits(re_bits: u32, im_bits: u32) -> num_complex::Complex32;

/// Relies on num_complex's `Add` for `Complex<f32>`: componentwise IEEE
/// addition, which is correctly rounded and deterministic. Where a part of
/// the sum is NaN, IEEE fixes only that it is some NaN; the name then still
/// fixes a single bit pattern, which overstates determinism in the payload
/// bits of that NaN alone.
#[verifier::external_body]
pub(crate) fn c_add(a: num_complex::Complex32, b: num_complex::Complex32) -> (r: num_complex::Complex32)
    ensures
        r == c_add_of(a, b),
{
    a + b
}

/// Relies on num_complex's `Mul` for `Complex<f32>`: the complex product
/// from IEEE `*`, `-` and `+`, each correctly rounded and deterministic; the
/// same NaN-payload caveat as for the sum applies.
#[verifier::external_body]
pub(crate) fn c_mul(a: num_complex::Complex32, b: num_complex::Complex32) -> (r: num_complex::Complex32)
    ensures
        r == c_mul_of(a, b),
{
    a * b
}

/// Relies on num_complex's `Div` for `Complex<f32>`: the norm-square
/// quotient formula from IEEE arithmetic, deterministic and total (a zero
/// divisor yields IEEE infinities or NaNs, never a panic); the same
/// NaN-payload caveat as for the sum applies.
#[verifier::external_body]
pub(crate) fn c_div(a: num_complex::Complex32, b: num_complex::Complex32) -> (r: num_complex::Complex32)
    ensures
        r == c_div_of(a, b),
{
    a / b
}

/// Relies on num_complex's `Neg` for `Complex<f32>`: componentwise negation.
#[verifier::external_body]
pub(crate) fn c_neg(a: num_complex::Complex32) -> (r: num_complex::Complex32)
    ensures
        r == c_neg_of(a),
{
    -a
}

/// Relies on `Complex::exp` only to return without panicking: it computes
/// `f32::exp`, `cos` and `sin`, whose precision std documents as unspecified
/// and non-deterministic, so no value is claimed for the result.
#[verifier::external_body]
pub(crate) fn c_exp(a: num_complex::Complex32) -> num_complex::Complex32 {
    a.exp()
}

/// Relies on `Complex::ln` only to return without panicking: it computes
/// `hypot`, `atan2` and `f32::ln`, whose precision std documents as
/// unspecified and non-deterministic, so no value is claimed for the result.
#[verifier::external_body]
pub(crate) fn c_ln(a: num_complex::Complex32) -> num_complex::Complex32 {
    a.ln()
}

/// Relies on `Complex::from_usize` (num_complex's FromPrimitive, over
/// num_traits' cast for the real part): the real sample `n`, which exists for
/// every `usize`, so the unwrap never fails.
#[verifier::external_body]
pub(crate) fn c_from_usize(n: usize) -> (r: num_complex::Complex32)
    ensures
        r == c_of_usize(n),
{
    num_complex::Complex32::from_usize(n).unwrap()
}

/// Relies on `f32::to_bits`, applied to the two parts of the sample: the
/// IEEE-754 bit pattern of each part. Per std's documentation `from_bits`
/// inverts it exactly, which the second clause records.
#[verifier::external_body]
pub(crate) fn c_to_bits(c: num_complex::Complex32) -> (r: (u32, u32))
    ensures
        r == c_bits_of(c),
        c_of_bits(r.0, r.1) == c,
{
    (c.re.to_bits(), c.im.to_bits())
}

/// Relies on `bincode::deserialize` for the parts of a `Complex<f32>`:
/// bincode's default options decode a four-byte little-endian IEEE-754 bit
/// pattern, exactly `f32::from_bits` of the given word, so four bytes never
/// fail to decode and `to_bits` recovers the words, which the second clause
/// records.
#[verifier::external_body]
pub(crate) fn c_from_bits(re_bits: u32, im_bits: u32) -> (r: num_complex::Complex32)
    ensures
        r == c_of_bits(re_bits, im_bits),
        c_bits_of(r) == (re_bits, im_bits),
{
    let re = bincode::deserialize(&re_bits.to_le_bytes()).unwrap();
    let im = bincode::deserialize(&im_bits.to_le_bytes()).unwrap();
    num_complex::Complex32::new(re, im)
}

} // verus!
