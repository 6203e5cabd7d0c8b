use crate::errors::LendingError;
use vstd::prelude::*;

verus! {

/// The single shared balance of the bank's fungible asset.  The host
/// ledger's vault holds the actual tokens; this core accounts for the
/// amount, in the asset's smallest unit.
pub struct AssetPool {
    balance: u64,
}

impl AssetPool {
    /// The current total.
    pub closed spec fn spec_balance(&self) -> u64 {
        self.balance
    }

    /// An empty pool.
    pub fn new() -> (r: AssetPool)
        ensures
            r.spec_balance() == 0,
    {
        AssetPool { balance: 0 }
    }

    /// The current total.
    pub fn balance(&self) -> (r: u64)
        ensures
            r == self.spec_balance(),
    {
        self.balance
    }

    /// Adds `amount` to the pool.
    pub fn deposit(&mut self, amount: u64)
        requires
            amount > 0,
            old(self).spec_balance() + amount <= u64::MAX,
        ensures
            final(self).spec_balance() == old(self).spec_balance() + amount,
    {
        self.balance = self.balance + amount;
    }

    /// Takes `amount` out of the pool and returns it as a transferable
    /// value.  Fails with `InsufficientFunds`, changing nothing, exactly
    /// when the pool holds less than `amount`.
    pub fn withdraw(&mut self, amount: u64) -> (r: Result<u64, LendingError>)
        ensures
            amount <= old(self).spec_balance() ==> {
                &&& r == Ok::<u64, LendingError>(amount)
                &&& final(self).spec_balance() == old(self).spec_balance() - amount
            },
            amount > old(self).spec_balance() ==> {
                &&& r == Err::<u64, LendingError>(LendingError::InsufficientFunds)
                &&& final(self).spec_balance() == old(self).spec_balance()
            },
    {
        if amount <= self.balance {
            self.balance = self.balance - amount;
            Ok(amount)
        } else {
            Err(LendingError::InsufficientFunds)
        }
    }
}

} // verus!
