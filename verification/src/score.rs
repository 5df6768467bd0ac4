//! Scores of pieces and words.
use vstd::prelude::*;

verus! {

/// A score that segmentation adds up and compares.
///
/// Segmentation asks of a score only that each operation be a function of its operands. Neither
/// does it need addition to be exact, nor the comparison to be total: a floating-point
/// log-probability is a score.
pub trait Score: Copy {
    /// The score of an empty segmentation.
    spec fn zero_spec() -> Self;

    /// The score of a position that no segmentation reaches.
    spec fn floor_spec() -> Self;

    /// The sum of two scores.
    spec fn plus(self, other: Self) -> Self;

    /// Whether a score is strictly better than another.
    spec fn exceeds(self, other: Self) -> bool;

    /// Whether two scores count as equal.
    spec fn same(self, other: Self) -> bool;

    /// The score of an empty segmentation.
    fn zero() -> (r: Self)
        ensures
            r == Self::zero_spec(),
    ;

    /// The score of a position that no segmentation reaches.
    fn floor() -> (r: Self)
        ensures
            r == Self::floor_spec(),
    ;

    /// The sum of two scores.
    fn add_score(self, other: Self) -> (r: Self)
        ensures
            r == self.plus(other),
    ;

    /// Tells whether a score is strictly better than another.
    fn is_better_than(self, other: Self) -> (r: bool)
        ensures
            r == self.exceeds(other),
    ;

    /// Tells whether two scores count as equal.
    fn is_same_as(self, other: Self) -> (r: bool)
        ensures
            r == self.same(other),
    ;
}

/// A score in fixed point: a whole number of units, which stays at the ends of its range where a
/// sum would leave it.
#[derive(Clone, Copy, Debug, PartialEq, Eq)]
pub struct FixedScore {
    pub units: i64,
}

/// The nearest number of units to `n`.
pub open spec fn clamp_units(n: int) -> i64 {
    if n < i64::MIN {
        i64::MIN
    } else if n > i64::MAX {
        i64::MAX
    } else {
        n as i64
    }
}

impl Score for FixedScore {
    open spec fn zero_spec() -> Self {
        FixedScore { units: 0 }
    }

    open spec fn floor_spec() -> Self {
        FixedScore { units: i64::MIN }
    }

    open spec fn plus(self, other: Self) -> Self {
        FixedScore { units: clamp_units(self.units + other.units) }
    }

    open spec fn exceeds(self, other: Self) -> bool {
        self.units > other.units
    }

    open spec fn same(self, other: Self) -> bool {
        self.units == other.units
    }

    fn zero() -> (r: Self) {
        FixedScore { units: 0 }
    }

    fn floor() -> (r: Self) {
        FixedScore { units: i64::MIN }
    }

    fn add_score(self, other: Self) -> (r: Self) {
        let sum: i128 = self.units as i128 + other.units as i128;
        let units: i64 = if sum < i64::MIN as i128 {
            i64::MIN
        } else if sum > i64::MAX as i128 {
            i64::MAX
        } else {
            sum as i64
        };
        FixedScore { units }
    }

    fn is_better_than(self, other: Self) -> (r: bool) {
        self.units > other.units
    }

    fn is_same_as(self, other: Self) -> (r: bool) {
        self.units == other.units
    }
}

} // verus!
