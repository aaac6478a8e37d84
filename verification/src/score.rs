//! Scores and weights, carried as IEEE 754 binary64 bit patterns.
//!
//! Every weight in this crate is a `u64` holding the bit pattern of a
//! binary64 value. The three arithmetic operations that the fusion needs
//! (one minus the persistence, multiplication, addition) are performed by
//! `rustc_apfloat`, a bit-exact software implementation of IEEE 754
//! arithmetic, behind trusted wrappers. Everything that can be decided from
//! the bit pattern alone (validity of the persistence parameter, finiteness,
//! the total order used to rank scores) is implemented here directly and
//! verified.

use rustc_apfloat::Float;
use vstd::prelude::*;

verus! {

/// Bit pattern of binary64 `1.0`.
pub const ONE_BITS: u64 = 0x3FF0_0000_0000_0000;

/// Sign bit of a binary64 bit pattern.
pub const SIGN_BIT: u64 = 0x8000_0000_0000_0000;

/// Exponent field of a binary64 bit pattern.
pub const EXP_MASK: u64 = 0x7FF0_0000_0000_0000;

/// All bits of a binary64 bit pattern except the sign.
pub const ABS_MASK: u64 = 0x7FFF_FFFF_FFFF_FFFF;

/// Fraction field of a binary64 bit pattern.
pub const FRAC_MASK: u64 = 0x000F_FFFF_FFFF_FFFF;

/// The encoded value is finite: its exponent field is not all ones
/// (which would mark an infinity or a NaN).
pub open spec fn is_finite_bits(b: u64) -> bool {
    b & EXP_MASK != EXP_MASK
}

/// The encoded value is a NaN: exponent field all ones, fraction not
/// zero.
pub open spec fn is_nan_bits(b: u64) -> bool {
    b & EXP_MASK == EXP_MASK && b & FRAC_MASK != 0
}

/// The encoded value is at least zero: not a NaN, and either its sign
/// bit is clear or it is negative zero.
pub open spec fn ge_zero_bits(b: u64) -> bool {
    &&& !is_nan_bits(b)
    &&& (b & SIGN_BIT == 0 || b == SIGN_BIT)
}

/// The encoded value is a valid persistence parameter: at least zero and
/// strictly below one. Bit patterns of non-negative binary64 values order
/// like integers, so this is a comparison against the pattern of `1.0`;
/// negative zero, the only negative pattern that compares equal to zero,
/// is admitted as well. NaN patterns all lie outside both cases.
pub open spec fn valid_persistence_bits(p: u64) -> bool {
    p < ONE_BITS || p == SIGN_BIT
}

/// The encoded value has magnitude at most one and is not a NaN.
pub open spec fn abs_le_one_bits(b: u64) -> bool {
    b & ABS_MASK <= ONE_BITS
}

/// Key under which scores are ranked: the IEEE 754 total order over
/// binary64 values maps to the unsigned order of this key. Patterns with
/// the sign bit set (negative values, negative NaNs) are reversed by
/// complement; the rest are offset above them.
pub open spec fn sort_key(b: u64) -> u64 {
    if b & SIGN_BIT == SIGN_BIT {
        !b
    } else {
        b | SIGN_BIT
    }
}

/// A valid persistence value has magnitude at most one, is finite, and
/// is at least zero.
pub proof fn lemma_valid_persistence_abs(p: u64)
    requires
        valid_persistence_bits(p),
    ensures
        abs_le_one_bits(p),
        is_finite_bits(p),
        ge_zero_bits(p),
{
    assert(p < 0x3FF0_0000_0000_0000u64 || p == 0x8000_0000_0000_0000u64
        ==> p & 0x7FFF_FFFF_FFFF_FFFFu64 <= 0x3FF0_0000_0000_0000u64) by (bit_vector);
    assert(p < 0x3FF0_0000_0000_0000u64 || p == 0x8000_0000_0000_0000u64 ==> (p
        & 0x7FF0_0000_0000_0000u64 != 0x7FF0_0000_0000_0000u64 && (p & 0x8000_0000_0000_0000u64
        == 0 || p == 0x8000_0000_0000_0000u64))) by (bit_vector);
}

/// Exec mirror of [`valid_persistence_bits`].
pub fn persistence_in_range(p: u64) -> (r: bool)
    ensures
        r == valid_persistence_bits(p),
{
    p < ONE_BITS || p == SIGN_BIT
}

/// Exec mirror of [`is_finite_bits`].
pub fn weight_is_finite(b: u64) -> (r: bool)
    ensures
        r == is_finite_bits(b),
{
    b & EXP_MASK != EXP_MASK
}

/// Exec mirror of [`sort_key`].
pub fn sort_key_of(b: u64) -> (r: u64)
    ensures
        r == sort_key(b),
{
    if b & SIGN_BIT == SIGN_BIT {
        !b
    } else {
        b | SIGN_BIT
    }
}

/// Bits of one minus the encoded value, under IEEE 754 binary64
/// subtraction with rounding to nearest, ties to even.
pub uninterp spec fn one_minus_spec(p: u64) -> u64;

/// Bits of the product of the two encoded values, under IEEE 754 binary64
/// multiplication with rounding to nearest, ties to even.
pub uninterp spec fn mul_spec(a: u64, b: u64) -> u64;

/// Bits of the sum of the two encoded values, under IEEE 754 binary64
/// addition with rounding to nearest, ties to even.
pub uninterp spec fn add_spec(a: u64, b: u64) -> u64;

/// Relies on `rustc_apfloat::ieee::Double::sub_r`: correctly rounded
/// IEEE 754 binary64 subtraction, a pure function of the operand bits.
/// For a persistence value in `[0, 1)` the exact difference lies in
/// `(0, 1]`, so the rounded result is finite and at least zero.
#[verifier::external_body]
pub(crate) fn one_minus_bits(p: u64) -> (r: u64)
    ensures
        r == one_minus_spec(p),
        valid_persistence_bits(p) ==> is_finite_bits(r) && ge_zero_bits(r),
{
    let one = rustc_apfloat::ieee::Double::from_bits(0x3FF0_0000_0000_0000u128);
    let x = rustc_apfloat::ieee::Double::from_bits(p as u128);
    let d = Float::sub_r(one, x, rustc_apfloat::Round::NearestTiesToEven);
    Float::to_bits(d.value) as u64
}

/// Relies on `rustc_apfloat::ieee::Double::mul_r`: correctly rounded
/// IEEE 754 binary64 multiplication, a pure function of the operand bits.
/// A finite value times a value of magnitude at most one has an exact
/// product of magnitude no larger than the finite operand, so the rounded
/// result stays finite; a finite value times `1.0` is returned exactly;
/// and the product of two finite values that are each at least zero is
/// at least zero (at worst negative zero, when an operand is negative
/// zero) and is never a NaN.
#[verifier::external_body]
pub(crate) fn mul_bits(a: u64, b: u64) -> (r: u64)
    ensures
        r == mul_spec(a, b),
        is_finite_bits(a) && abs_le_one_bits(b) ==> is_finite_bits(r),
        is_finite_bits(a) && b == ONE_BITS ==> r == a,
        is_finite_bits(a) && is_finite_bits(b) && ge_zero_bits(a) && ge_zero_bits(b)
            ==> ge_zero_bits(r),
{
    let x = rustc_apfloat::ieee::Double::from_bits(a as u128);
    let y = rustc_apfloat::ieee::Double::from_bits(b as u128);
    let m = Float::mul_r(x, y, rustc_apfloat::Round::NearestTiesToEven);
    Float::to_bits(m.value) as u64
}

/// Relies on `rustc_apfloat::ieee::Double::add_r`: correctly rounded
/// IEEE 754 binary64 addition, a pure function of the operand bits. The
/// sum of two values that are at least zero is at least zero (a NaN
/// could only arise from infinities of opposite sign).
#[verifier::external_body]
pub(crate) fn add_bits(a: u64, b: u64) -> (r: u64)
    ensures
        r == add_spec(a, b),
        ge_zero_bits(a) && ge_zero_bits(b) ==> ge_zero_bits(r),
{
    let x = rustc_apfloat::ieee::Double::from_bits(a as u128);
    let y = rustc_apfloat::ieee::Double::from_bits(b as u128);
    let s = Float::add_r(x, y, rustc_apfloat::Round::NearestTiesToEven);
    Float::to_bits(s.value) as u64
}

} // verus!
