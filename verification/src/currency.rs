//! An exact decimal quantity with a fixed number of fractional digits, stored as the
//! scaled signed integer `value * 10^4`. Addition and subtraction saturate at
//! the extremes of `i64` instead of wrapping or panicking, so no arithmetic
//! on amounts can fail.

use vstd::prelude::*;

verus! {

/// How many digits past the decimal point an amount keeps.
pub const FRACTIONAL_DIGITS: u32 = 4;

/// A number precise up to `FRACTIONAL_DIGITS` digits past the decimal point:
/// the field holds the value multiplied by `10 ^ FRACTIONAL_DIGITS`.
#[derive(Copy, Clone, Debug, PartialEq, Eq, Structural)]
pub struct PreciseCurrency(i64);

impl View for PreciseCurrency {
    type V = int;

    closed spec fn view(&self) -> int {
        self.0 as int
    }
}

/// An amount's view is always a value an `i64` can hold.
pub broadcast proof fn lemma_view_in_range(c: PreciseCurrency)
    ensures
        i64::MIN as int <= #[trigger] c@ <= i64::MAX as int,
{
}

/// `a + b` clamped to the range of `i64`.
pub open spec fn sat_add(a: int, b: int) -> int {
    if a + b > i64::MAX as int {
        i64::MAX as int
    } else if a + b < i64::MIN as int {
        i64::MIN as int
    } else {
        a + b
    }
}

/// `a - b` clamped to the range of `i64`.
pub open spec fn sat_sub(a: int, b: int) -> int {
    sat_add(a, -b)
}

impl PreciseCurrency {
    /// Wraps an already-scaled integer: `raw` counts units of
    /// `10 ^ -FRACTIONAL_DIGITS`.
    pub fn from_raw(raw: i64) -> (r: Self)
        ensures
            r@ == raw as int,
    {
        PreciseCurrency(raw)
    }

    /// The scaled integer this amount is stored as.
    pub fn raw(self) -> (r: i64)
        ensures
            r as int == self@,
    {
        self.0
    }

    /// Addition that clamps to the extremes of `i64` on overflow, never
    /// wrapping or panicking.
    pub fn saturating_add(self, rhs: Self) -> (r: Self)
        ensures
            r@ == sat_add(self@, rhs@),
    {
        match self.0.checked_add(rhs.0) {
            Some(v) => PreciseCurrency(v),
            None => if rhs.0 > 0 {
                PreciseCurrency(i64::MAX)
            } else {
                PreciseCurrency(i64::MIN)
            },
        }
    }

    /// Subtraction that clamps to the extremes of `i64` on overflow, never
    /// wrapping or panicking.
    pub fn saturating_sub(self, rhs: Self) -> (r: Self)
        ensures
            r@ == sat_sub(self@, rhs@),
    {
        match self.0.checked_sub(rhs.0) {
            Some(v) => PreciseCurrency(v),
            None => if rhs.0 < 0 {
                PreciseCurrency(i64::MAX)
            } else {
                PreciseCurrency(i64::MIN)
            },
        }
    }

    /// The zero amount.
    pub fn zero() -> (r: Self)
        ensures
            r@ == 0,
    {
        PreciseCurrency(0)
    }
}

} // verus!
