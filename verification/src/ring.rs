//! Arithmetic on the 64-bit identifier ring: directed distance, shortest
//! distance, and the half-open clockwise range test used for key ownership.

use vstd::prelude::*;

verus! {

/// Distance travelled when walking counter-clockwise (towards smaller ids)
/// from `a` to `b`: `(a - b)` modulo `2^64`. Zero exactly when the points
/// coincide.
pub open spec fn spec_counter_clockwise_distance(a: u64, b: u64) -> u64 {
    if a >= b {
        (a - b) as u64
    } else {
        ((u64::MAX - b) + a + 1) as u64
    }
}

/// The shorter of the two directed distances between `a` and `b`.
pub open spec fn spec_distance(a: u64, b: u64) -> u64 {
    if spec_counter_clockwise_distance(a, b) <= spec_counter_clockwise_distance(b, a) {
        spec_counter_clockwise_distance(a, b)
    } else {
        spec_counter_clockwise_distance(b, a)
    }
}

/// Whether `value` lies in the half-open clockwise arc that starts just
/// past `from` and ends at `to` (inclusive), allowing for wraparound.
/// Empty when `from == to`.
pub open spec fn spec_is_in_range(from: u64, to: u64, value: u64) -> bool {
    ||| (from < to && from < value && value <= to)
    ||| (from > to && (value > from || value <= to))
}

/// A ring maps identifiers to positions on a circle in order to distribute
/// responsibility for keys across a network of peers.
pub trait Ring {
    /// Computes the counter-clockwise distance from `a` to `b`.
    fn counter_clockwise_distance(a: u64, b: u64) -> (r: u64)
        ensures
            r == spec_counter_clockwise_distance(a, b),
    ;

    /// Computes the smallest distance between `a` and `b`.
    fn distance(a: u64, b: u64) -> (r: u64)
        ensures
            r == spec_distance(a, b),
    ;

    /// Returns whether `value` is in the clockwise range from `from` to `to`.
    fn is_in_range(from: u64, to: u64, value: u64) -> (r: bool)
        ensures
            r == spec_is_in_range(from, to, value),
    ;
}

/// The 64-bit instance of the ring used throughout the overlay.
pub struct Ring64;

impl Ring for Ring64 {
    fn counter_clockwise_distance(a: u64, b: u64) -> (r: u64) {
        if a >= b {
            a - b
        } else {
            (u64::MAX - b) + a + 1
        }
    }

    fn distance(a: u64, b: u64) -> (r: u64) {
        let ccw = Self::counter_clockwise_distance(a, b);
        let cw = Self::counter_clockwise_distance(b, a);
        if ccw <= cw {
            ccw
        } else {
            cw
        }
    }

    fn is_in_range(from: u64, to: u64, value: u64) -> (r: bool) {
        (from < to && (from < value && value <= to)) || (from > to && (value > from || value
            <= to))
    }
}

} // verus!
