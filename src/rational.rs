//! Exact rational operations, carried out by `num_rational`, on fractions
//! given as a numerator and a positive denominator.
use num_rational::Ratio;
use vstd::prelude::*;

verus! {

/// Largest magnitude of a numerator or denominator handed to `Ratio`; it
/// keeps every intermediate value of `Ratio`'s reduction and rounding in range.
pub const RATIO_LIMIT: i64 = 0x1000_0000_0000_0000;

/// The floor of `n / d` for `d > 0` (Euclidean division is flooring there).
pub open spec fn floor_of(n: int, d: int) -> int {
    n / d
}

/// The ceiling of `n / d` for `d > 0`.
pub open spec fn ceil_of(n: int, d: int) -> int {
    -((-n) / d)
}

/// Whether `an / ad <= bn / bd`, for positive denominators.
pub open spec fn ratio_le_spec(an: int, ad: int, bn: int, bd: int) -> bool {
    an * bd <= bn * ad
}

pub open spec fn in_ratio_range(n: i64, d: i64) -> bool {
    -RATIO_LIMIT <= n <= RATIO_LIMIT && 0 < d <= RATIO_LIMIT
}

/// Relies on `Ratio::new`, `Ratio::floor` and `Ratio::to_integer`: the
/// fraction is reduced, rounded toward minus infinity and read back as an
/// integer.
#[verifier::external_body]
pub(crate) fn ratio_floor(n: i64, d: i64) -> (r: i64)
    requires
        in_ratio_range(n, d),
    ensures
        r == floor_of(n as int, d as int),
{
    Ratio::new(n, d).floor().to_integer()
}

/// Relies on `Ratio::new`, `Ratio::ceil` and `Ratio::to_integer`: the
/// fraction is reduced, rounded toward plus infinity and read back as an
/// integer.
#[verifier::external_body]
pub(crate) fn ratio_ceil(n: i64, d: i64) -> (r: i64)
    requires
        in_ratio_range(n, d),
    ensures
        r == ceil_of(n as int, d as int),
{
    Ratio::new(n, d).ceil().to_integer()
}

/// Relies on `Ratio::new` and `Ratio`'s `Ord`: two fractions are compared by
/// their exact values.
#[verifier::external_body]
pub(crate) fn ratio_le(an: i64, ad: i64, bn: i64, bd: i64) -> (r: bool)
    requires
        in_ratio_range(an, ad),
        in_ratio_range(bn, bd),
    ensures
        r == ratio_le_spec(an as int, ad as int, bn as int, bd as int),
{
    Ratio::new(an, ad) <= Ratio::new(bn, bd)
}

} // verus!
