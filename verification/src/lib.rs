//! Greedy (Fibonacci–Sylvester) Egyptian-fraction decomposition.
//!
//! A rational number is expressed as a sum of unit fractions, possibly
//! preceded by a single whole-number term.

use vstd::prelude::*;

pub mod egyptian_fraction;
pub mod fraction;

verus! {

} // verus!
