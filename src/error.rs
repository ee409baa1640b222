use vstd::prelude::*;

verus! {

/// The failures that the library reports to its callers.
#[derive(Debug, Clone, Copy, PartialEq, Eq, Structural)]
pub enum MoneyError {
    /// A currency code that the catalog does not hold.
    UnknownCurrency,
    /// Arithmetic between amounts of two different currencies.
    CurrencyMismatch,
    /// An exchange rate between equal currencies, or with a rate that is not positive.
    InvalidRate,
    /// No rate is registered for the requested pair of currencies.
    RateNotFound,
    /// Text that does not hold a well-formed amount.
    ParseError,
}

} // verus!
