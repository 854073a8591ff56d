//! Measures: functions that give three points a binary64 value.
//!
//! The simplifiers decide by comparing perpendicular distances and triangle
//! areas. The arithmetic that produces such a value is the caller's: it is
//! handed in as a function of three points that returns the value's bit
//! pattern. This module says what is asked of such a function and how a
//! contract speaks of it.

use vstd::prelude::*;
use crate::point::Point;

verus! {

/// Whether `f` may be asked about any three points.
pub open spec fn answers_all<F: Fn(Point, Point, Point) -> u64>(f: F) -> bool {
    forall|a: Point, b: Point, c: Point| #[trigger] f.requires((a, b, c))
}

/// Whether `f` computes the mathematical function `m`: whatever it returns
/// for three points is the value of `m` at them.
///
/// The contracts of the simplifiers say what is retained in terms of every
/// such `m`. A function that can answer one question in two ways computes
/// no `m`, and nothing is said of what is retained with it.
pub open spec fn computes<F: Fn(Point, Point, Point) -> u64>(
    f: F,
    m: spec_fn(Point, Point, Point) -> u64,
) -> bool {
    forall|a: Point, b: Point, c: Point, v: u64| #[trigger]
        f.ensures((a, b, c), v) ==> v == m(a, b, c)
}

} // verus!
