//! Measures decisions against the decisions that were expected.
use crate::responses;
use vstd::prelude::*;

verus! {

/// The weight of a fraud that was approved, against one for a refusal that was wrong.
pub const MISS_WEIGHT: usize = 3;

/// How often a decision was wrong, and in which way.
pub struct Tally {
    /// Refused, though it should have been approved.
    pub false_positives: usize,
    /// Approved, though it should have been refused.
    pub false_negatives: usize,
}

/// One more where `b` holds.
pub open spec fn plus(x: usize, b: bool) -> int {
    x + if b {
        1int
    } else {
        0
    }
}

impl Tally {
    /// Nothing was wrong so far.
    pub fn new() -> (tally: Self)
        ensures
            tally.false_positives == 0,
            tally.false_negatives == 0,
    {
        Tally { false_positives: 0, false_negatives: 0 }
    }

    /// Takes in the decision on a transaction with `fraud_count` fraudulent neighbours.
    pub fn record(&mut self, fraud_count: u8, expected_approved: bool)
        requires
            plus(
                old(self).false_positives,
                fraud_count >= responses::REFUSAL_COUNT && expected_approved,
            ) <= usize::MAX,
            plus(
                old(self).false_negatives,
                fraud_count < responses::REFUSAL_COUNT && !expected_approved,
            ) <= usize::MAX,
        ensures
            final(self).false_positives == plus(
                old(self).false_positives,
                fraud_count >= responses::REFUSAL_COUNT && expected_approved,
            ),
            final(self).false_negatives == plus(
                old(self).false_negatives,
                fraud_count < responses::REFUSAL_COUNT && !expected_approved,
            ),
            final(self).false_positives - old(self).false_positives == if fraud_count >= 3
                && expected_approved {
                1int
            } else {
                0
            },
            final(self).false_negatives - old(self).false_negatives == if fraud_count < 3
                && !expected_approved {
                1int
            } else {
                0
            },
    {
        let approved = responses::approves(fraud_count);
        if approved && !expected_approved {
            self.false_negatives = self.false_negatives + 1;
        } else if !approved && expected_approved {
            self.false_positives = self.false_positives + 1;
        }
    }

    /// The weighted number of wrong decisions.
    pub fn error(&self) -> (e: usize)
        requires
            self.false_positives + self.false_negatives * MISS_WEIGHT <= usize::MAX,
        ensures
            e == self.false_positives + self.false_negatives * MISS_WEIGHT,
            e == self.false_positives + 3 * self.false_negatives,
    {
        self.false_positives + self.false_negatives * MISS_WEIGHT
    }
}

} // verus!
