//! Technical-indicator calculators. The numeric indicator work is a
//! floating-point collaborator outside this library's scope; these types
//! reserve its interface so that consumers of the core can name a
//! calculator and its streaming state.

use vstd::prelude::*;

verus! {

/// The technical-indicator calculator; its batch computations live with the
/// embedding program.
pub struct TechnicalIndicators {}

impl TechnicalIndicators {
    pub fn new() -> Self {
        TechnicalIndicators {  }
    }
}

/// Streaming indicator state: a value folded in per tick, with the current
/// indicator value read between ticks.
pub trait TechnicalIndicatorState {

}

/// Streaming state of a simple moving average.
pub struct StreamingSMA {}

/// Streaming state of an exponential moving average.
pub struct StreamingEMA {}

/// Streaming state of a relative strength index.
pub struct StreamingRSI {}

} // verus!
