use vstd::prelude::*;

verus! {

/// Every failure a pool operation can surface.  Each one is a local
/// validation failure: it aborts the whole operation and leaves all state
/// unchanged.
#[derive(Clone, Copy, PartialEq, Eq, Structural, Debug)]
pub enum LendingError {
    /// `open` called with a deposit at or under the minimum.
    BelowMinimum,
    /// `close` presented a ticket of another resource class.
    WrongResource,
    /// A proof presented for a position of another resource class.
    Unauthorized,
    /// `close` or `reduce_collateral` before the lock period elapsed.
    StillLocked,
    /// `close` while a loan is still outstanding.
    OutstandingLoan,
    /// `reduce_collateral` would leave too little collateral for the loan.
    WouldBreachCollateralRatio,
    /// `repay` with less than the outstanding loan.
    InsufficientRepayment,
    /// `borrow` past the loan-to-value limit.
    ExceedsBorrowLimit,
    /// A pool withdrawal of more than the pool holds.
    InsufficientFunds,
    /// No live position (or reward account) under the given id.
    NotFound,
}

} // verus!
