//! Portfolio analytics. Like the other numeric calculators, portfolio
//! mathematics is a floating-point collaborator outside this library's
//! scope; this type reserves its interface for consumers of the core.

use vstd::prelude::*;

verus! {

/// The portfolio analyzer; its computations live with the embedding
/// program.
pub struct PortfolioAnalyzer {}

impl PortfolioAnalyzer {
    pub fn new() -> Self {
        PortfolioAnalyzer {  }
    }
}

} // verus!
