//! Accounting core of a collateralized lending pool.
//!
//! Depositors place a fungible asset into a shared pool and receive a unique
//! banker ticket tracking their collateral, outstanding loan, and deposit
//! epoch.  Ticket holders may borrow against their own collateral up to a
//! loan-to-value limit, repay, withdraw unused collateral, and close the
//! position after a lock-up period.  Every borrow charges a commission that
//! is distributed across all open positions, weighted by each position's
//! unused collateral.
//!
//! The host ledger's own services (asset custody, capability proofs,
//! non-fungible ticket minting, the epoch clock) are outside this core:
//! amounts are plain integers of the asset's smallest unit, tickets and
//! proofs are plain records, and the current epoch is a parameter.

pub mod engine;
pub mod errors;
pub mod ledger;
pub mod pool;
pub mod position;
pub mod registry;
pub mod seqsum;
