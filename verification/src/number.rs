use vstd::prelude::*;

verus! {

/// A numeric element type: a representable minimum bound (used as a
/// "negative infinity" sentinel by running-maximum scans), a maximum bound,
/// and the additive identity.
pub trait Number: Sized {
    /// The minimum value, as a mathematical constant.
    spec fn min_spec() -> Self;

    /// The maximum value, as a mathematical constant.
    spec fn max_spec() -> Self;

    /// The additive identity, as a mathematical constant.
    spec fn zero_spec() -> Self;

    /// Returns the minimum value of the numeric type.
    fn min() -> (r: Self)
        ensures
            r == Self::min_spec(),
    ;

    /// Returns the maximum value of the numeric type.
    fn max() -> (r: Self)
        ensures
            r == Self::max_spec(),
    ;

    /// Returns the zero value of the numeric type.
    fn zero() -> (r: Self)
        ensures
            r == Self::zero_spec(),
    ;
}

impl Number for i32 {
    open spec fn min_spec() -> i32 {
        i32::MIN
    }

    open spec fn max_spec() -> i32 {
        i32::MAX
    }

    open spec fn zero_spec() -> i32 {
        0
    }

    fn min() -> i32 {
        i32::MIN
    }

    fn max() -> i32 {
        i32::MAX
    }

    fn zero() -> i32 {
        0
    }
}

impl Number for i64 {
    open spec fn min_spec() -> i64 {
        i64::MIN
    }

    open spec fn max_spec() -> i64 {
        i64::MAX
    }

    open spec fn zero_spec() -> i64 {
        0
    }

    fn min() -> i64 {
        i64::MIN
    }

    fn max() -> i64 {
        i64::MAX
    }

    fn zero() -> i64 {
        0
    }
}

} // verus!
