//! Arbitrary-precision integers.
//!
//! Path counts of a trellis outgrow every machine integer, so the tables hold
//! `rug::Integer` values.  Verus cannot look inside such a value: this module
//! gives it a mathematical value, [`int_val`], and states for each operation
//! of `rug` that the library calls how it acts on that value.  These
//! statements are taken on trust from the documentation of `rug` and GMP; the
//! rest of the library is proved from them.

use rug::Integer;
use vstd::arithmetic::power::pow;
use vstd::arithmetic::power2::pow2;
use vstd::prelude::*;

verus! {

/// `rug::Integer`, an integer of any size, as a type that Verus cannot look
/// into.
#[verifier::external_type_specification]
#[verifier::external_body]
pub struct ExInteger(rug::Integer);

/// The number that an `Integer` holds.
pub uninterp spec fn int_val(x: Integer) -> int;

/// The numbers that a list of `Integer`s holds.
pub open spec fn int_vals(list: Seq<Integer>) -> Seq<int> {
    Seq::new(list.len(), |k: int| int_val(list[k]))
}

/// The decimal numeral of a number, as `Integer::to_string_radix(10)` writes
/// it.
pub uninterp spec fn decimal_numeral(value: int) -> Seq<char>;

/// `Integer::from(usize)`: the integer with the value of `v`.
#[verifier::external_body]
pub(crate) fn big_from(v: usize) -> (r: Integer)
    ensures
        int_val(r) == v,
{
    Integer::from(v)
}

/// `Clone::clone` of `Integer`: a second integer with the same value.
#[verifier::external_body]
pub(crate) fn big_clone(a: &Integer) -> (r: Integer)
    ensures
        int_val(r) == int_val(*a),
{
    a.clone()
}

/// `&Integer + &Integer`, completed with `Integer::from`: the exact sum.
#[verifier::external_body]
pub(crate) fn big_add(a: &Integer, b: &Integer) -> (r: Integer)
    ensures
        int_val(r) == int_val(*a) + int_val(*b),
{
    Integer::from(a + b)
}

/// `&Integer - &Integer`, completed with `Integer::from`: the exact
/// difference, which may be negative.
#[verifier::external_body]
pub(crate) fn big_sub(a: &Integer, b: &Integer) -> (r: Integer)
    ensures
        int_val(r) == int_val(*a) - int_val(*b),
{
    Integer::from(a - b)
}

/// `&Integer * usize`, completed with `Integer::from`: the exact product.
#[verifier::external_body]
pub(crate) fn big_mul_small(a: &Integer, b: usize) -> (r: Integer)
    ensures
        int_val(r) == int_val(*a) * b,
{
    Integer::from(a * b)
}

/// `Integer << u32`: the value times two to the power `n`.
#[verifier::external_body]
pub(crate) fn big_shl(a: Integer, n: u32) -> (r: Integer)
    ensures
        int_val(r) == int_val(a) * pow2(n as nat),
{
    a << n
}

/// `PartialOrd::lt` of `Integer`: the order of the values.
#[verifier::external_body]
pub(crate) fn big_lt(a: &Integer, b: &Integer) -> (r: bool)
    ensures
        r == (int_val(*a) < int_val(*b)),
{
    a < b
}

/// `PartialEq::eq` of `Integer`: equality of the values.
#[verifier::external_body]
pub(crate) fn big_eq(a: &Integer, b: &Integer) -> (r: bool)
    ensures
        r == (int_val(*a) == int_val(*b)),
{
    a == b
}

/// `Integer::u_pow_u`, completed: `base` to the power `exponent`.
#[verifier::external_body]
pub(crate) fn big_pow(base: u32, exponent: u32) -> (r: Integer)
    ensures
        int_val(r) == pow(base as int, exponent as nat),
{
    Integer::from(Integer::u_pow_u(base, exponent))
}

/// `Integer::significant_bits`: the length of the binary numeral of the
/// absolute value, 0 for zero.  The call panics where that length does not
/// fit in a `u32`, so such values are left out.
#[verifier::external_body]
pub(crate) fn big_bits(a: &Integer) -> (r: u32)
    requires
        -pow2(u32::MAX as nat) < int_val(*a) < pow2(u32::MAX as nat),
    ensures
        int_val(*a) == 0 ==> r == 0,
        int_val(*a) > 0 ==> r >= 1 && pow2((r - 1) as nat) <= int_val(*a) < pow2(r as nat),
        int_val(*a) < 0 ==> r >= 1 && pow2((r - 1) as nat) <= -int_val(*a) < pow2(r as nat),
{
    a.significant_bits()
}

/// `Integer::get_bit` on a value that is not negative: whether the binary
/// digit of weight two to the power `index` is 1.
#[verifier::external_body]
pub(crate) fn big_bit(a: &Integer, index: u32) -> (r: bool)
    requires
        int_val(*a) >= 0,
    ensures
        r == ((int_val(*a) / (pow2(index as nat) as int)) % 2 == 1),
{
    a.get_bit(index)
}

/// `Integer::to_string_radix` with radix 10: the decimal numeral of the
/// value.
#[verifier::external_body]
pub(crate) fn big_decimal(a: &Integer) -> (r: String)
    ensures
        r@ == decimal_numeral(int_val(*a)),
{
    a.to_string_radix(10)
}

} // verus!
