use vstd::prelude::*;

verus! {

/// The real-number type that the library computes with.
///
/// Every operation is a function of its arguments: each executable method returns the
/// value of the specification function that it names. Nothing else is claimed of the
/// numbers, neither that sums are exact nor that comparisons are total, so everything
/// that is stated of the library holds for machine floating point as it stands, with
/// its rounding and its non-finite values. Contracts use the methods themselves, which
/// stand for their specification functions there.
pub trait Scalar: Copy + Sized {
    spec fn spec_zero() -> Self;

    /// The number 0.
    #[verifier::when_used_as_spec(spec_zero)]
    fn zero() -> (r: Self)
        ensures
            r == Self::spec_zero(),
    ;

    spec fn spec_one() -> Self;

    /// The number 1.
    #[verifier::when_used_as_spec(spec_one)]
    fn one() -> (r: Self)
        ensures
            r == Self::spec_one(),
    ;

    spec fn spec_infinity() -> Self;

    /// Positive infinity.
    #[verifier::when_used_as_spec(spec_infinity)]
    fn infinity() -> (r: Self)
        ensures
            r == Self::spec_infinity(),
    ;

    spec fn spec_from_usize(k: usize) -> Self;

    /// The number `k`.
    #[verifier::when_used_as_spec(spec_from_usize)]
    fn from_usize(k: usize) -> (r: Self)
        ensures
            r == Self::spec_from_usize(k),
    ;

    spec fn spec_decimal(digits: u64, places: u64) -> Self;

    /// The number nearest to `digits / 10^places`.
    #[verifier::when_used_as_spec(spec_decimal)]
    fn decimal(digits: u64, places: u64) -> (r: Self)
        ensures
            r == Self::spec_decimal(digits, places),
    ;

    spec fn spec_plus(self, o: Self) -> Self;

    /// The sum.
    #[verifier::when_used_as_spec(spec_plus)]
    fn plus(self, o: Self) -> (r: Self)
        ensures
            r == self.spec_plus(o),
    ;

    spec fn spec_minus(self, o: Self) -> Self;

    /// The difference.
    #[verifier::when_used_as_spec(spec_minus)]
    fn minus(self, o: Self) -> (r: Self)
        ensures
            r == self.spec_minus(o),
    ;

    spec fn spec_times(self, o: Self) -> Self;

    /// The product.
    #[verifier::when_used_as_spec(spec_times)]
    fn times(self, o: Self) -> (r: Self)
        ensures
            r == self.spec_times(o),
    ;

    spec fn spec_over(self, o: Self) -> Self;

    /// The quotient.
    #[verifier::when_used_as_spec(spec_over)]
    fn over(self, o: Self) -> (r: Self)
        ensures
            r == self.spec_over(o),
    ;

    spec fn spec_max(self, o: Self) -> Self;

    /// The larger of the two; a number that is not a NaN wins over a NaN.
    #[verifier::when_used_as_spec(spec_max)]
    fn max(self, o: Self) -> (r: Self)
        ensures
            r == self.spec_max(o),
    ;

    spec fn spec_min(self, o: Self) -> Self;

    /// The smaller of the two; a number that is not a NaN wins over a NaN.
    #[verifier::when_used_as_spec(spec_min)]
    fn min(self, o: Self) -> (r: Self)
        ensures
            r == self.spec_min(o),
    ;

    spec fn spec_powf(self, o: Self) -> Self;

    /// `self` raised to the power `o`.
    #[verifier::when_used_as_spec(spec_powf)]
    fn powf(self, o: Self) -> (r: Self)
        ensures
            r == self.spec_powf(o),
    ;

    spec fn spec_neg(self) -> Self;

    /// The negation `-self`.
    #[verifier::when_used_as_spec(spec_neg)]
    fn neg(self) -> (r: Self)
        ensures
            r == self.spec_neg(),
    ;

    spec fn spec_abs(self) -> Self;

    /// The absolute value.
    #[verifier::when_used_as_spec(spec_abs)]
    fn abs(self) -> (r: Self)
        ensures
            r == self.spec_abs(),
    ;

    spec fn spec_sqrt(self) -> Self;

    /// The square root.
    #[verifier::when_used_as_spec(spec_sqrt)]
    fn sqrt(self) -> (r: Self)
        ensures
            r == self.spec_sqrt(),
    ;

    spec fn spec_ln(self) -> Self;

    /// The natural logarithm.
    #[verifier::when_used_as_spec(spec_ln)]
    fn ln(self) -> (r: Self)
        ensures
            r == self.spec_ln(),
    ;

    spec fn spec_log10(self) -> Self;

    /// The base-ten logarithm.
    #[verifier::when_used_as_spec(spec_log10)]
    fn log10(self) -> (r: Self)
        ensures
            r == self.spec_log10(),
    ;

    spec fn spec_exp(self) -> Self;

    /// The exponential.
    #[verifier::when_used_as_spec(spec_exp)]
    fn exp(self) -> (r: Self)
        ensures
            r == self.spec_exp(),
    ;

    spec fn spec_below(self, o: Self) -> bool;

    /// Whether `self < o`.
    #[verifier::when_used_as_spec(spec_below)]
    fn below(self, o: Self) -> (r: bool)
        ensures
            r == self.spec_below(o),
    ;

    spec fn spec_at_most(self, o: Self) -> bool;

    /// Whether `self <= o`.
    #[verifier::when_used_as_spec(spec_at_most)]
    fn at_most(self, o: Self) -> (r: bool)
        ensures
            r == self.spec_at_most(o),
    ;

    spec fn spec_equals(self, o: Self) -> bool;

    /// Whether `self == o` as numbers.
    #[verifier::when_used_as_spec(spec_equals)]
    fn equals(self, o: Self) -> (r: bool)
        ensures
            r == self.spec_equals(o),
    ;

    spec fn spec_is_finite(self) -> bool;

    /// Whether the number is neither infinite nor a NaN.
    #[verifier::when_used_as_spec(spec_is_finite)]
    fn is_finite(self) -> (r: bool)
        ensures
            r == self.spec_is_finite(),
    ;

    spec fn spec_bits(self) -> u64;

    /// The bit pattern of the number as a 64-bit float.
    #[verifier::when_used_as_spec(spec_bits)]
    fn bits(self) -> (r: u64)
        ensures
            r == self.spec_bits(),
    ;

    spec fn spec_ceil_count(self) -> usize;

    /// The number rounded up to an integer, saturated to the range of `usize`; a NaN
    /// gives 0.
    #[verifier::when_used_as_spec(spec_ceil_count)]
    fn ceil_count(self) -> (r: usize)
        ensures
            r == self.spec_ceil_count(),
    ;
}

} // verus!
