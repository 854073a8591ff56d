//! What makes a simplifier decline its input.

use vstd::prelude::*;
use crate::ieee::{finite, is_finite};
use crate::point::{all_finite, first_non_finite, is_first_non_finite, Point};

verus! {

/// Why a polyline of three or more points was not simplified.
#[derive(Clone, Copy, Debug, PartialEq, Eq, Structural)]
pub enum SimplifyError {
    /// The tolerance is an infinity or no number at all.
    NonFiniteTolerance,
    /// The point at `index` is the first with a coordinate that is an
    /// infinity or no number at all.
    NonFiniteCoordinate { index: usize },
}

/// The place of the first point with a coordinate that is not a finite number.
pub open spec fn first_non_finite_place(points: Seq<Point>) -> int {
    choose|i: int| is_first_non_finite(points, i)
}

/// The error that a simplifier answers with, if any.
///
/// A polyline of fewer than three points is never declined: there is
/// nothing to decide about it. A longer one is declined for a tolerance
/// that is not finite, and else for the first coordinate that is not.
pub open spec fn rejection(points: Seq<Point>, epsilon: u64) -> Option<SimplifyError> {
    if points.len() < 3 {
        None
    } else if !is_finite(epsilon) {
        Some(SimplifyError::NonFiniteTolerance)
    } else if !all_finite(points) {
        Some(SimplifyError::NonFiniteCoordinate { index: first_non_finite_place(points) as usize })
    } else {
        None
    }
}

/// Decides whether a simplifier declines the input, and why.
pub fn screen(points: &Vec<Point>, epsilon: u64) -> (verdict: Option<SimplifyError>)
    ensures
        verdict == rejection(points@, epsilon),
{
    if points.len() < 3 {
        return None;
    }
    if !finite(epsilon) {
        return Some(SimplifyError::NonFiniteTolerance);
    }
    match first_non_finite(points) {
        Some(index) => {
            proof {
                let chosen = first_non_finite_place(points@);
                assert(is_first_non_finite(points@, index as int));
                assert(is_first_non_finite(points@, chosen));
                if chosen < index {
                    assert(points@[chosen].finite());
                } else if index < chosen {
                    assert(points@[index as int].finite());
                }
            }
            Some(SimplifyError::NonFiniteCoordinate { index })
        },
        None => None,
    }
}

} // verus!
