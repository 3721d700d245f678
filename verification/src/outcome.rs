//! What an evaluation can end in, and how the outcomes of the pairs of a
//! free-for-all are brought together.

use crate::shape::ShapeError;
use vstd::prelude::*;

verus! {

/// Why the quality of a match could not be evaluated.
#[derive(Clone, Copy, Debug, PartialEq, Eq, Structural)]
pub enum QualityError {
    /// The groups or the weights have a shape that cannot be used.
    Shape(ShapeError),
    /// The covariance of the score differences has no inverse.
    Singular,
    /// The result is not a finite number.
    NonFinite,
}

/// What the evaluation of the pair of groups `first` and `second` gave.
#[derive(Debug)]
pub struct PairOutcome<T> {
    pub first: usize,
    pub second: usize,
    pub result: Result<T, QualityError>,
}

/// The pair of groups whose evaluation failed, and why it did.
#[derive(Clone, Copy, Debug, PartialEq, Eq, Structural)]
pub struct PairFailure {
    pub first: usize,
    pub second: usize,
    pub cause: QualityError,
}

/// Whether the outcome at `k` is a failure and none before it is.
pub open spec fn is_first_failure<T>(outcomes: Seq<PairOutcome<T>>, k: int) -> bool {
    &&& 0 <= k < outcomes.len()
    &&& outcomes[k].result is Err
    &&& forall|h: int| 0 <= h < k ==> (#[trigger] outcomes[h]).result is Ok
}

/// Whether `failure` names the pair and the cause of the outcome at `k`.
pub open spec fn reports<T>(failure: PairFailure, outcome: PairOutcome<T>) -> bool {
    &&& failure.first == outcome.first
    &&& failure.second == outcome.second
    &&& outcome.result == Err::<T, QualityError>(failure.cause)
}

/// The values of all pairs, in the order of the outcomes, if every pair
/// was evaluated; else the first pair that failed, with its cause.
pub fn gather<T: Copy>(outcomes: &Vec<PairOutcome<T>>) -> (r: Result<Vec<T>, PairFailure>)
    ensures
        (match r {
            Ok(values) => values@.len() == outcomes@.len() && forall|k: int|
                0 <= k < outcomes@.len() ==> (#[trigger] outcomes@[k]).result == Ok::<
                    T,
                    QualityError,
                >(values@[k]),
            Err(failure) => exists|k: int|
                is_first_failure(outcomes@, k) && reports(failure, #[trigger] outcomes@[k]),
        }),
{
    let mut values: Vec<T> = Vec::new();
    let mut k: usize = 0;
    while k < outcomes.len()
        invariant
            k <= outcomes.len(),
            values@.len() == k,
            forall|h: int|
                0 <= h < k ==> (#[trigger] outcomes@[h]).result == Ok::<T, QualityError>(
                    values@[h],
                ),
        decreases outcomes.len() - k,
    {
        let outcome = &outcomes[k];
        match &outcome.result {
            Ok(value) => {
                values.push(*value);
            },
            Err(cause) => {
                let failure = PairFailure {
                    first: outcome.first,
                    second: outcome.second,
                    cause: *cause,
                };
                proof {
                    assert(is_first_failure(outcomes@, k as int));
                    assert(reports(failure, outcomes@[k as int]));
                }
                return Err(failure);
            },
        }
        k += 1;
    }
    Ok(values)
}

} // verus!
