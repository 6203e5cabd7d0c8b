use vstd::prelude::*;

verus! {

/// Smallest deposit that may open a position; `open` rejects anything at or
/// under this with `BelowMinimum`.
pub const MIN_DEPOSIT: u64 = 100;

/// Epochs a position stays locked after opening; `close` and
/// `reduce_collateral` fail with `StillLocked` before it elapses.
pub const LOCK_PERIOD: u64 = 500;

/// The collateral ratio 1.5 as the exact fraction
/// `RATIO_NUM / RATIO_DEN = 3 / 2`: a position's loan must stay at or under
/// `collateral / 1.5`.
pub const RATIO_NUM: u64 = 3;
pub const RATIO_DEN: u64 = 2;

/// The commission rate 0.02 as the exact fraction
/// `COMMISSION_NUM / COMMISSION_DEN = 2 / 100`, charged on every borrow.
pub const COMMISSION_NUM: u64 = 2;
pub const COMMISSION_DEN: u64 = 100;

/// The mutable record behind one banker ticket.  Amounts are integers of the
/// pooled asset's smallest unit.
#[derive(Clone, Copy, PartialEq, Eq, Structural, Debug)]
pub struct BankerTicketData {
    /// Total value backing the position.
    pub collateral_amount: u64,
    /// Currently outstanding loan against this position.
    pub borrowed_amount: u64,
    /// Epoch counter snapshot at creation; immutable.
    pub opened_at: u64,
}

/// The non-fungible ticket a depositor holds.  The host ledger's issuance
/// authority is outside this core, so the ticket is a plain record: the
/// engine checks the resource class and looks the id up in its registry.
#[derive(Clone, Copy, PartialEq, Eq, Structural, Debug)]
pub struct BankerTicket {
    /// Resource class of the engine that minted the ticket.
    pub resource: u64,
    /// The position id the ticket controls.
    pub id: u64,
}

/// A capability proof that the caller controls one position, presented
/// without surrendering the ticket.  Like the ticket, a plain record.
#[derive(Clone, Copy, PartialEq, Eq, Structural, Debug)]
pub struct TicketProof {
    /// Resource class the proof was made from.
    pub resource: u64,
    /// The position id the proof references.
    pub id: u64,
}

impl BankerTicketData {
    /// A position never owes more than its collateral.  This is the
    /// inductive bound the engine maintains; the stricter ratio bound
    /// `ratio_ok` holds after every operation except a repeated borrow
    /// (see `lemma_ratio_after_first_borrow` in the engine module).
    pub open spec fn wf(self) -> bool {
        self.borrowed_amount <= self.collateral_amount
    }

    /// The loan stays within the collateral ratio:
    /// `borrowed * 1.5 <= collateral`, written without fractions.
    pub open spec fn ratio_ok(self) -> bool {
        RATIO_NUM * self.borrowed_amount <= RATIO_DEN * self.collateral_amount
    }

    /// `(collateral - borrowed) / 1.5`, rounded down to a whole unit: the
    /// largest further amount this position may borrow.
    pub open spec fn max_borrow_spec(self) -> int {
        RATIO_DEN * (self.collateral_amount - self.borrowed_amount) / (RATIO_NUM as int)
    }

    /// Twice the distribution weight of this position:
    /// `2 * collateral * (1 - borrowed / (collateral / 1.5))
    ///  = 2 * collateral - 3 * borrowed`,
    /// clamped at zero for a position past its theoretical borrow maximum
    /// (such a position earns no share of a commission).
    pub open spec fn weight_num(self) -> int {
        if self.ratio_ok() {
            RATIO_DEN * self.collateral_amount - RATIO_NUM * self.borrowed_amount
        } else {
            0
        }
    }

    /// Largest further amount this position may borrow, exactly
    /// `(collateral - borrowed) / 1.5` rounded down to a whole unit.
    pub fn max_borrow_amount(&self) -> (r: u64)
        requires
            self.wf(),
        ensures
            r == self.max_borrow_spec(),
    {
        let diff: u128 = (self.collateral_amount - self.borrowed_amount) as u128;
        proof {
            assert(RATIO_DEN == 2 && RATIO_NUM == 3);
            assert(diff * 2 < u128::MAX) by (nonlinear_arith)
                requires diff <= u64::MAX
            ;
        }
        let q: u128 = diff * (RATIO_DEN as u128) / (RATIO_NUM as u128);
        proof {
            vstd::arithmetic::div_mod::lemma_div_is_ordered(
                (RATIO_DEN * diff) as int,
                (RATIO_NUM * diff) as int,
                RATIO_NUM as int,
            );
            vstd::arithmetic::div_mod::lemma_div_multiples_vanish(
                diff as int,
                RATIO_NUM as int,
            );
        }
        q as u64
    }

    /// The fraction of this position's maximum borrowing capacity left
    /// unused, `1 - borrowed / (collateral / 1.5)`, returned as the exact
    /// rational `(numerator, denominator)` with
    /// `numerator = 2 * collateral - 3 * borrowed` and
    /// `denominator = 2 * collateral`.  Negative exactly when the loan
    /// exceeds the theoretical maximum.
    pub fn percentage_of_unused_collateral(&self) -> (r: (i128, i128))
        requires
            self.collateral_amount > 0,
        ensures
            r.0 == RATIO_DEN * self.collateral_amount - RATIO_NUM * self.borrowed_amount,
            r.1 == RATIO_DEN * self.collateral_amount,
            r.1 > 0,
    {
        let num: i128 = RATIO_DEN as i128 * self.collateral_amount as i128
            - RATIO_NUM as i128 * self.borrowed_amount as i128;
        let den: i128 = RATIO_DEN as i128 * self.collateral_amount as i128;
        (num, den)
    }
}

} // verus!
