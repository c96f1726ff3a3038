//! Optimal repayment planning for a small set of amortizing loans.
//!
//! Given a set of loans and a fixed extra amount available each period, the
//! library simulates a period-by-period payoff for every possible priority
//! ordering of the loans and reports the ordering that saves the most against
//! the contractual schedules, together with how it compares to the best
//! "debt snowball" ordering (smallest principal first).
//!
//! All monetary quantities are exact integers in units of 1/10,000 dollar,
//! so one cent is 100 units; periodic rates are exact fractions. Every
//! rounding step of the simulation is therefore exact integer arithmetic,
//! and every function of the library carries a contract that pins its result
//! to the specification-level model of the computation.

use vstd::prelude::*;

pub mod evaluate;
pub mod laws;
pub mod loan;
pub mod money;
pub mod search;

pub use evaluate::pay_loans;
pub use loan::Loan;
pub use loan::Rate;
pub use money::round_to_currency;
pub use money::round_to_decimals;
pub use search::pay_loans_all_orderings;
pub use search::OptimalPayoff;

verus! {

/// The ways a payoff computation can fail.
#[derive(Debug)]
pub enum Error {
    /// A specific ordering did not retire every balance within the longest
    /// contractual term; recoverable at the search level.
    LoanGoesToInf,
    /// A failure outside the two structured kinds.
    OtherError(String),
    /// The stated payment of the loan at this index disagrees with the
    /// amortization formula by more than five cents; fatal to the search.
    InvalidLoan(usize),
}

} // verus!
