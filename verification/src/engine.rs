use crate::errors::LendingError;
use crate::ledger::RewardLedger;
use crate::pool::AssetPool;
use crate::position::BankerTicket;
use crate::position::BankerTicketData;
use crate::position::TicketProof;
use crate::position::COMMISSION_DEN;
use crate::position::COMMISSION_NUM;
use crate::position::LOCK_PERIOD;
use crate::position::MIN_DEPOSIT;
use crate::position::RATIO_DEN;
use crate::position::RATIO_NUM;
use crate::registry::PositionRegistry;
use crate::seqsum::has_id;
use crate::seqsum::idx_of;
use crate::seqsum::lemma_div_sum_le;
use crate::seqsum::lemma_elem_le_sum;
use crate::seqsum::lemma_idx_of;
use crate::seqsum::lemma_mul_div_le;
use crate::seqsum::lemma_sum_add_across;
use crate::seqsum::lemma_sum_le;
use crate::seqsum::lemma_sum_nonneg;
use crate::seqsum::lemma_sum_nonneg_prefix;
use crate::seqsum::lemma_sum_push;
use crate::seqsum::lemma_sum_remove;
use crate::seqsum::lemma_sum_split;
use crate::seqsum::lemma_sum_take_all;
use crate::seqsum::lemma_sum_take_le;
use crate::seqsum::lemma_sum_take_succ;
use crate::seqsum::lemma_sum_update;
use crate::seqsum::lemma_sum_zero;
use crate::seqsum::sum_by;
use vstd::prelude::*;

verus! {

/// Image of one registry entry under "its collateral".
pub open spec fn coll_fn() -> spec_fn((u64, BankerTicketData)) -> int {
    |e: (u64, BankerTicketData)| e.1.collateral_amount as int
}

/// Image of one registry entry under "its outstanding loan".
pub open spec fn borr_fn() -> spec_fn((u64, BankerTicketData)) -> int {
    |e: (u64, BankerTicketData)| e.1.borrowed_amount as int
}

/// Image of one registry entry under "collateral minus loan": what of this
/// position's backing is still in the pool.
pub open spec fn diff_fn() -> spec_fn((u64, BankerTicketData)) -> int {
    |e: (u64, BankerTicketData)| e.1.collateral_amount - e.1.borrowed_amount
}

/// Image of one registry entry under twice "collateral minus loan".
pub open spec fn twodiff_fn() -> spec_fn((u64, BankerTicketData)) -> int {
    |e: (u64, BankerTicketData)| 2 * (e.1.collateral_amount - e.1.borrowed_amount)
}

/// Image of one reward account under "its balance".
pub open spec fn reward_fn() -> spec_fn((u64, u64)) -> int {
    |e: (u64, u64)| e.1 as int
}

/// Image of one registry entry under twice its distribution weight.
pub open spec fn weight_fn() -> spec_fn((u64, BankerTicketData)) -> int {
    |e: (u64, BankerTicketData)| e.1.weight_num()
}

/// Total collateral of all live positions.
pub open spec fn sum_collateral(s: Seq<(u64, BankerTicketData)>) -> int {
    sum_by(s, coll_fn())
}

/// Total outstanding loans of all live positions.
pub open spec fn sum_borrowed(s: Seq<(u64, BankerTicketData)>) -> int {
    sum_by(s, borr_fn())
}

/// Total balance of all reward accounts.
pub open spec fn sum_rewards(s: Seq<(u64, u64)>) -> int {
    sum_by(s, reward_fn())
}

/// The commission a borrow of `amount` charges: `amount * 0.02`, rounded
/// down to a whole unit.
pub open spec fn commission_spec(amount: u64) -> int {
    COMMISSION_NUM * amount / (COMMISSION_DEN as int)
}

/// The share of a commission `k` credited to a position: its weight times
/// `k` over the pool balance sampled once after the loan left the pool,
/// rounded down.  `den` is twice that balance, matching the doubled weight
/// numerator; an empty pool (possible only when `k == 0`) distributes
/// nothing.
pub open spec fn share_spec(d: BankerTicketData, k: int, den: int) -> int {
    if den > 0 {
        d.weight_num() * k / den
    } else {
        0
    }
}

/// Image of one registry entry under its share of commission `k` at
/// doubled pool balance `den`.
pub open spec fn share_fn(k: int, den: int) -> spec_fn((u64, BankerTicketData)) -> int {
    |e: (u64, BankerTicketData)| share_spec(e.1, k, den)
}

/// Why `open` fails, if it does.
pub open spec fn open_err(deposit: u64) -> Option<LendingError> {
    if deposit <= MIN_DEPOSIT {
        Some(LendingError::BelowMinimum)
    } else {
        None
    }
}

/// A borrow of `amount` is within the limit, `amount <= max_borrow_spec`,
/// exactly when `amount * 3 <= (collateral - borrowed) * 2`.
proof fn lemma_max_borrow_iff(d: BankerTicketData, amount: u64)
    requires
        d.wf(),
    ensures
        (amount <= d.max_borrow_spec()) <==> (RATIO_NUM * amount <= RATIO_DEN * (
        d.collateral_amount - d.borrowed_amount)),
{
    assert(RATIO_NUM == 3 && RATIO_DEN == 2);
    let y = RATIO_DEN * (d.collateral_amount - d.borrowed_amount);
    if RATIO_NUM * amount <= y {
        vstd::arithmetic::div_mod::lemma_div_is_ordered(3 * amount, y, 3);
        vstd::arithmetic::div_mod::lemma_div_multiples_vanish(amount as int, 3);
    }
    if amount <= y / 3 {
        vstd::arithmetic::div_mod::lemma_fundamental_div_mod(y, 3);
        assert(y % 3 >= 0);
    }
}

/// Orchestrates the position lifecycle: it owns the pool, the position
/// registry, and the reward ledger, and runs the six operations over them.
/// Each operation either applies all its effects or fails one of its
/// checks and changes nothing.
pub struct LendingEngine {
    ticket_resource: u64,
    pool: AssetPool,
    registry: PositionRegistry,
    ledger: RewardLedger,
    total_collateral: u64,
    total_rewards: u64,
}

impl LendingEngine {
    /// The live positions, as (id, record) pairs in registry order.
    pub closed spec fn positions(&self) -> Seq<(u64, BankerTicketData)> {
        self.registry@
    }

    /// The reward accounts, as (id, balance) pairs, aligned with
    /// `positions`.
    pub closed spec fn rewards(&self) -> Seq<(u64, u64)> {
        self.ledger@
    }

    /// The pool's balance.
    pub closed spec fn pool_balance(&self) -> u64 {
        self.pool.spec_balance()
    }

    /// The resource class of this engine's tickets.
    pub closed spec fn resource(&self) -> u64 {
        self.ticket_resource
    }

    /// The id the next `open` will assign.
    pub closed spec fn next_ticket_id(&self) -> u64 {
        self.registry.spec_next_id()
    }

    /// Running total of all live collateral.
    pub closed spec fn spec_total_collateral(&self) -> u64 {
        self.total_collateral
    }

    /// Running total of all reward balances.
    pub closed spec fn spec_total_rewards(&self) -> u64 {
        self.total_rewards
    }

    /// The engine's invariant, established by `new` and preserved by every
    /// operation:
    /// - position ids are distinct, below the id counter, and the reward
    ///   accounts mirror them index by index;
    /// - no position owes more than its collateral;
    /// - the pool holds exactly `sum(collateral) - sum(borrowed)`: deposits
    ///   put collateral in, borrows take loans out;
    /// - the running totals equal their sums, and together stay below the
    ///   counter type's ceiling, so no operation can overflow.
    pub closed spec fn wf(&self) -> bool {
        &&& self.registry.wf()
        &&& self.ledger.wf()
        &&& self.rewards().len() == self.positions().len()
        &&& forall|i: int|
            0 <= i < self.positions().len() ==> self.rewards()[i].0 == self.positions()[i].0
        &&& forall|i: int|
            0 <= i < self.positions().len() ==> (#[trigger] self.positions()[i]).1.wf()
        &&& self.pool_balance() == sum_collateral(self.positions()) - sum_borrowed(
            self.positions(),
        )
        &&& self.spec_total_collateral() == sum_collateral(self.positions())
        &&& self.spec_total_rewards() == sum_rewards(self.rewards())
        &&& self.spec_total_collateral() + self.spec_total_rewards() <= u64::MAX
    }

    /// Both engines hold the same state, field for field.
    pub open spec fn state_eq(&self, other: &LendingEngine) -> bool {
        &&& self.positions() == other.positions()
        &&& self.rewards() == other.rewards()
        &&& self.pool_balance() == other.pool_balance()
        &&& self.resource() == other.resource()
        &&& self.next_ticket_id() == other.next_ticket_id()
        &&& self.spec_total_collateral() == other.spec_total_collateral()
        &&& self.spec_total_rewards() == other.spec_total_rewards()
    }

    /// Why `close` fails, if it does, checked in this order: the ticket's
    /// resource class, the position's existence, the lock period, the
    /// outstanding loan.
    pub open spec fn close_err(&self, ticket: BankerTicket, now: u64) -> Option<LendingError> {
        if ticket.resource != self.resource() {
            Some(LendingError::WrongResource)
        } else if !has_id(self.positions(), ticket.id) {
            Some(LendingError::NotFound)
        } else {
            let d = self.positions()[idx_of(self.positions(), ticket.id)].1;
            if now < d.opened_at + LOCK_PERIOD {
                Some(LendingError::StillLocked)
            } else if d.borrowed_amount != 0 {
                Some(LendingError::OutstandingLoan)
            } else {
                None
            }
        }
    }

    /// Why `reduce_collateral` fails, if it does.  The ratio check asks
    /// that the collateral left still covers the loan at the ratio:
    /// `(collateral - amount) / 1.5 >= borrowed`, written without
    /// fractions.
    pub open spec fn reduce_err(&self, access: TicketProof, amount: u64, now: u64) -> Option<
        LendingError,
    > {
        if access.resource != self.resource() {
            Some(LendingError::Unauthorized)
        } else if !has_id(self.positions(), access.id) {
            Some(LendingError::NotFound)
        } else {
            let d = self.positions()[idx_of(self.positions(), access.id)].1;
            if now < d.opened_at + LOCK_PERIOD {
                Some(LendingError::StillLocked)
            } else if !(amount <= d.collateral_amount && RATIO_NUM * d.borrowed_amount
                <= RATIO_DEN * (d.collateral_amount - amount)) {
                Some(LendingError::WouldBreachCollateralRatio)
            } else {
                None
            }
        }
    }

    /// Why `repay` fails, if it does: anything under the outstanding loan
    /// is rejected whole.
    pub open spec fn repay_err(&self, access: TicketProof, payment: u64) -> Option<LendingError> {
        if access.resource != self.resource() {
            Some(LendingError::Unauthorized)
        } else if !has_id(self.positions(), access.id) {
            Some(LendingError::NotFound)
        } else if payment < self.positions()[idx_of(self.positions(), access.id)].1.borrowed_amount {
            Some(LendingError::InsufficientRepayment)
        } else {
            None
        }
    }

    /// Why `claim_rewards` fails, if it does.
    pub open spec fn claim_err(&self, access: TicketProof) -> Option<LendingError> {
        if access.resource != self.resource() {
            Some(LendingError::Unauthorized)
        } else if !has_id(self.positions(), access.id) {
            Some(LendingError::NotFound)
        } else {
            None
        }
    }

    /// Why `borrow` fails, if it does.  The limit is checked against the
    /// position's state before the borrow:
    /// `amount <= (collateral - borrowed) / 1.5`.
    pub open spec fn borrow_err(&self, access: TicketProof, amount: u64) -> Option<LendingError> {
        if access.resource != self.resource() {
            Some(LendingError::Unauthorized)
        } else if !has_id(self.positions(), access.id) {
            Some(LendingError::NotFound)
        } else {
            let d = self.positions()[idx_of(self.positions(), access.id)].1;
            if RATIO_NUM * amount > RATIO_DEN * (d.collateral_amount - d.borrowed_amount) {
                Some(LendingError::ExceedsBorrowLimit)
            } else {
                None
            }
        }
    }

    /// A fresh engine with nothing pooled: its tickets carry the given
    /// resource class.
    pub fn new(ticket_resource: u64) -> (r: LendingEngine)
        ensures
            r.wf(),
            r.resource() == ticket_resource,
            r.positions() == Seq::<(u64, BankerTicketData)>::empty(),
            r.rewards() == Seq::<(u64, u64)>::empty(),
            r.pool_balance() == 0,
            r.next_ticket_id() == 0,
            r.spec_total_collateral() == 0,
            r.spec_total_rewards() == 0,
    {
        let r = LendingEngine {
            ticket_resource,
            pool: AssetPool::new(),
            registry: PositionRegistry::new(),
            ledger: RewardLedger::new(),
            total_collateral: 0,
            total_rewards: 0,
        };
        r
    }

    /// Opens a position: puts the deposit in the pool, records a position
    /// with no loan stamped with the current epoch, opens its empty reward
    /// account, and returns the fresh ticket.  Fails with `BelowMinimum`,
    /// changing nothing, exactly when the deposit is at or under
    /// `MIN_DEPOSIT`.
    ///
    /// The two extra `requires` are machine limits: headroom in the running
    /// totals and in the id counter.
    pub fn open(&mut self, deposit: u64, now: u64) -> (r: Result<BankerTicket, LendingError>)
        requires
            old(self).wf(),
            old(self).spec_total_collateral() + old(self).spec_total_rewards() + deposit
                <= u64::MAX,
            old(self).next_ticket_id() < u64::MAX,
        ensures
            final(self).wf(),
            match r {
                Ok(t) => {
                    &&& open_err(deposit) == None::<LendingError>
                    &&& t.resource == old(self).resource()
                    &&& t.id == old(self).next_ticket_id()
                    &&& !has_id(old(self).positions(), t.id)
                    &&& final(self).positions() == old(self).positions().push(
                        (
                            t.id,
                            (BankerTicketData {
                                collateral_amount: deposit,
                                borrowed_amount: 0,
                                opened_at: now,
                            }),
                        ),
                    )
                    &&& final(self).rewards() == old(self).rewards().push((t.id, 0u64))
                    &&& final(self).pool_balance() == old(self).pool_balance() + deposit
                    &&& final(self).next_ticket_id() == t.id + 1
                    &&& final(self).resource() == old(self).resource()
                    &&& final(self).spec_total_collateral() == old(self).spec_total_collateral()
                        + deposit
                    &&& final(self).spec_total_rewards() == old(self).spec_total_rewards()
                },
                Err(e) => {
                    &&& Some(e) == open_err(deposit)
                    &&& final(self).state_eq(old(self))
                },
            },
    {
        if deposit <= MIN_DEPOSIT {
            return Err(LendingError::BelowMinimum);
        }
        proof {
            lemma_sum_nonneg(old(self).positions(), borr_fn());
        }
        let id = self.registry.create(deposit, now);
        proof {
            assert forall|j: int| 0 <= j < old(self).rewards().len() implies old(
                self,
            ).rewards()[j].0 != id by {
                assert(old(self).positions()[j].0 == old(self).rewards()[j].0);
            }
            assert(!has_id(old(self).rewards(), id));
        }
        self.ledger.open_account(id);
        self.pool.deposit(deposit);
        self.total_collateral = self.total_collateral + deposit;
        proof {
            let d = BankerTicketData { collateral_amount: deposit, borrowed_amount: 0, opened_at: now };
            lemma_sum_push(old(self).positions(), coll_fn(), (id, d));
            lemma_sum_push(old(self).positions(), borr_fn(), (id, d));
            lemma_sum_push(old(self).rewards(), reward_fn(), (id, 0u64));
        }
        Ok(BankerTicket { resource: self.ticket_resource, id })
    }

    /// Closes a position after the lock period, with no loan outstanding:
    /// withdraws its collateral from the pool, folds its drained reward
    /// account into the returned value, burns the ticket, and destroys the
    /// position and its account.  The failing checks, in order, are in
    /// `close_err`; every failure changes nothing.
    pub fn close(&mut self, ticket: BankerTicket, now: u64) -> (r: Result<u64, LendingError>)
        requires
            old(self).wf(),
        ensures
            final(self).wf(),
            match r {
                Ok(v) => ({
                    let s0 = old(self).positions();
                    let i = idx_of(s0, ticket.id);
                    &&& old(self).close_err(ticket, now) == None::<LendingError>
                    &&& v == s0[i].1.collateral_amount + old(self).rewards()[i].1
                    &&& final(self).positions() == s0.remove(i)
                    &&& final(self).rewards() == old(self).rewards().remove(i)
                    &&& final(self).pool_balance() == old(self).pool_balance()
                        - s0[i].1.collateral_amount
                    &&& final(self).resource() == old(self).resource()
                    &&& final(self).next_ticket_id() == old(self).next_ticket_id()
                    &&& final(self).spec_total_collateral() == old(self).spec_total_collateral()
                        - s0[i].1.collateral_amount
                    &&& final(self).spec_total_rewards() == old(self).spec_total_rewards()
                        - old(self).rewards()[i].1
                }),
                Err(e) => {
                    &&& Some(e) == old(self).close_err(ticket, now)
                    &&& final(self).state_eq(old(self))
                },
            },
    {
        if ticket.resource != self.ticket_resource {
            return Err(LendingError::WrongResource);
        }
        let data = match self.registry.get(ticket.id) {
            Ok(d) => d,
            Err(e) => {
                return Err(e);
            },
        };
        let ghost s0 = old(self).positions();
        let ghost i = idx_of(s0, ticket.id);
        if (now as u128) < (data.opened_at as u128) + (LOCK_PERIOD as u128) {
            return Err(LendingError::StillLocked);
        }
        if data.borrowed_amount != 0 {
            return Err(LendingError::OutstandingLoan);
        }
        proof {
            // the pool always covers a loan-free position's collateral
            lemma_sum_split(s0, coll_fn(), diff_fn(), borr_fn());
            lemma_elem_le_sum(s0, diff_fn(), i);
            lemma_elem_le_sum(s0, coll_fn(), i);
            lemma_elem_le_sum(old(self).rewards(), reward_fn(), i);
        }
        let principal = match self.pool.withdraw(data.collateral_amount) {
            Ok(v) => v,
            Err(_) => {
                proof {
                    assert(false);
                }
                return Err(LendingError::InsufficientFunds);
            },
        };
        proof {
            assert(old(self).rewards()[i].0 == ticket.id);
            lemma_idx_of(old(self).rewards(), ticket.id, i);
        }
        let reward_part = match self.ledger.drain(ticket.id) {
            Ok(v) => v,
            Err(_) => {
                proof {
                    assert(false);
                }
                return Err(LendingError::NotFound);
            },
        };
        proof {
            lemma_idx_of(self.ledger@, ticket.id, i);
        }
        match self.ledger.close_account(ticket.id) {
            Ok(u) => u,
            Err(_) => {
                proof {
                    assert(false);
                }
                return Err(LendingError::NotFound);
            },
        };
        match self.registry.remove(ticket.id) {
            Ok(u) => u,
            Err(_) => {
                proof {
                    assert(false);
                }
                return Err(LendingError::NotFound);
            },
        };
        self.total_collateral = self.total_collateral - data.collateral_amount;
        self.total_rewards = self.total_rewards - reward_part;
        proof {
            let r0 = old(self).rewards();
            lemma_sum_remove(s0, coll_fn(), i);
            lemma_sum_remove(s0, borr_fn(), i);
            assert(r0.update(i, (ticket.id, 0u64)).remove(i) =~= r0.remove(i));
            lemma_sum_remove(r0, reward_fn(), i);
            assert forall|j: int| 0 <= j < self.positions().len() implies self.rewards()[j].0
                == self.positions()[j].0 && (#[trigger] self.positions()[j]).1.wf() by {
                if j < i {
                    assert(self.positions()[j] == s0[j] && self.rewards()[j] == r0[j]);
                } else {
                    assert(self.positions()[j] == s0[j + 1] && self.rewards()[j] == r0[j + 1]);
                }
            }
        }
        Ok(principal + reward_part)
    }

    /// Withdraws `amount` of unused collateral after the lock period, as
    /// long as what is left still covers the loan at the collateral ratio.
    /// The failing checks, in order, are in `reduce_err`; every failure
    /// changes nothing.
    pub fn reduce_collateral(&mut self, access: TicketProof, amount: u64, now: u64) -> (r: Result<
        u64,
        LendingError,
    >)
        requires
            old(self).wf(),
        ensures
            final(self).wf(),
            match r {
                Ok(v) => ({
                    let s0 = old(self).positions();
                    let i = idx_of(s0, access.id);
                    let d0 = s0[i].1;
                    let d1 = BankerTicketData {
                        collateral_amount: (d0.collateral_amount - amount) as u64,
                        borrowed_amount: d0.borrowed_amount,
                        opened_at: d0.opened_at,
                    };
                    &&& old(self).reduce_err(access, amount, now) == None::<LendingError>
                    &&& v == amount
                    &&& final(self).positions() == s0.update(i, (access.id, d1))
                    &&& d1.ratio_ok()
                    &&& final(self).rewards() == old(self).rewards()
                    &&& final(self).pool_balance() == old(self).pool_balance() - amount
                    &&& final(self).resource() == old(self).resource()
                    &&& final(self).next_ticket_id() == old(self).next_ticket_id()
                    &&& final(self).spec_total_collateral() == old(self).spec_total_collateral()
                        - amount
                    &&& final(self).spec_total_rewards() == old(self).spec_total_rewards()
                }),
                Err(e) => {
                    &&& Some(e) == old(self).reduce_err(access, amount, now)
                    &&& final(self).state_eq(old(self))
                },
            },
    {
        if access.resource != self.ticket_resource {
            return Err(LendingError::Unauthorized);
        }
        let data = match self.registry.get(access.id) {
            Ok(d) => d,
            Err(e) => {
                return Err(e);
            },
        };
        let ghost s0 = old(self).positions();
        let ghost i = idx_of(s0, access.id);
        if (now as u128) < (data.opened_at as u128) + (LOCK_PERIOD as u128) {
            return Err(LendingError::StillLocked);
        }
        let ratio_holds = if amount <= data.collateral_amount {
            (RATIO_NUM as u128) * (data.borrowed_amount as u128) <= (RATIO_DEN as u128) * ((
            data.collateral_amount - amount) as u128)
        } else {
            false
        };
        if !ratio_holds {
            return Err(LendingError::WouldBreachCollateralRatio);
        }
        proof {
            // the loan fits under the reduced collateral, so the pool's
            // share of this position covers the withdrawal
            lemma_sum_split(s0, coll_fn(), diff_fn(), borr_fn());
            lemma_elem_le_sum(s0, diff_fn(), i);
            lemma_elem_le_sum(s0, coll_fn(), i);
        }
        let withdrawn = match self.pool.withdraw(amount) {
            Ok(v) => v,
            Err(_) => {
                proof {
                    assert(false);
                }
                return Err(LendingError::InsufficientFunds);
            },
        };
        let new_data = BankerTicketData {
            collateral_amount: data.collateral_amount - amount,
            borrowed_amount: data.borrowed_amount,
            opened_at: data.opened_at,
        };
        match self.registry.update(access.id, new_data) {
            Ok(u) => u,
            Err(_) => {
                proof {
                    assert(false);
                }
                return Err(LendingError::NotFound);
            },
        };
        self.total_collateral = self.total_collateral - amount;
        proof {
            lemma_sum_update(s0, coll_fn(), i, (access.id, new_data));
            lemma_sum_update(s0, borr_fn(), i, (access.id, new_data));
            assert forall|j: int| 0 <= j < self.positions().len() implies self.rewards()[j].0
                == self.positions()[j].0 && (#[trigger] self.positions()[j]).1.wf() by {
                if j != i {
                    assert(self.positions()[j] == s0[j]);
                }
            }
        }
        Ok(withdrawn)
    }

    /// Repays the whole loan.  The payment must cover the outstanding
    /// amount (`InsufficientRepayment` otherwise); exactly the loan is
    /// absorbed into the pool, the loan becomes zero, and any overpayment
    /// is handed back to the caller, so the loan can never go negative.
    /// The failing checks, in order, are in `repay_err`; every failure
    /// changes nothing.
    pub fn repay(&mut self, access: TicketProof, payment: u64) -> (r: Result<u64, LendingError>)
        requires
            old(self).wf(),
        ensures
            final(self).wf(),
            match r {
                Ok(excess) => ({
                    let s0 = old(self).positions();
                    let i = idx_of(s0, access.id);
                    let d0 = s0[i].1;
                    let d1 = BankerTicketData {
                        collateral_amount: d0.collateral_amount,
                        borrowed_amount: 0,
                        opened_at: d0.opened_at,
                    };
                    &&& old(self).repay_err(access, payment) == None::<LendingError>
                    &&& excess == payment - d0.borrowed_amount
                    &&& final(self).positions() == s0.update(i, (access.id, d1))
                    &&& d1.ratio_ok()
                    &&& final(self).rewards() == old(self).rewards()
                    &&& final(self).pool_balance() == old(self).pool_balance()
                        + d0.borrowed_amount
                    &&& final(self).resource() == old(self).resource()
                    &&& final(self).next_ticket_id() == old(self).next_ticket_id()
                    &&& final(self).spec_total_collateral() == old(self).spec_total_collateral()
                    &&& final(self).spec_total_rewards() == old(self).spec_total_rewards()
                }),
                Err(e) => {
                    &&& Some(e) == old(self).repay_err(access, payment)
                    &&& final(self).state_eq(old(self))
                },
            },
    {
        if access.resource != self.ticket_resource {
            return Err(LendingError::Unauthorized);
        }
        let data = match self.registry.get(access.id) {
            Ok(d) => d,
            Err(e) => {
                return Err(e);
            },
        };
        let ghost s0 = old(self).positions();
        let ghost i = idx_of(s0, access.id);
        if payment < data.borrowed_amount {
            return Err(LendingError::InsufficientRepayment);
        }
        let owed = data.borrowed_amount;
        if owed > 0 {
            proof {
                // the pool plus the repaid loan stays within the collateral
                // total, which has headroom by the invariant
                lemma_sum_split(s0, coll_fn(), diff_fn(), borr_fn());
                lemma_elem_le_sum(s0, borr_fn(), i);
                lemma_sum_nonneg(s0, diff_fn());
            }
            self.pool.deposit(owed);
        }
        let new_data = BankerTicketData {
            collateral_amount: data.collateral_amount,
            borrowed_amount: 0,
            opened_at: data.opened_at,
        };
        match self.registry.update(access.id, new_data) {
            Ok(u) => u,
            Err(_) => {
                proof {
                    assert(false);
                }
                return Err(LendingError::NotFound);
            },
        };
        proof {
            lemma_sum_update(s0, coll_fn(), i, (access.id, new_data));
            lemma_sum_update(s0, borr_fn(), i, (access.id, new_data));
            assert forall|j: int| 0 <= j < self.positions().len() implies self.rewards()[j].0
                == self.positions()[j].0 && (#[trigger] self.positions()[j]).1.wf() by {
                if j != i {
                    assert(self.positions()[j] == s0[j]);
                }
            }
        }
        Ok(payment - owed)
    }

    /// Drains the caller's reward account and returns what it held; the
    /// position itself is untouched.  The failing checks, in order, are in
    /// `claim_err`; every failure changes nothing.
    pub fn claim_rewards(&mut self, access: TicketProof) -> (r: Result<u64, LendingError>)
        requires
            old(self).wf(),
        ensures
            final(self).wf(),
            match r {
                Ok(v) => ({
                    let i = idx_of(old(self).positions(), access.id);
                    &&& old(self).claim_err(access) == None::<LendingError>
                    &&& v == old(self).rewards()[i].1
                    &&& final(self).rewards() == old(self).rewards().update(
                        i,
                        (access.id, 0u64),
                    )
                    &&& final(self).positions() == old(self).positions()
                    &&& final(self).pool_balance() == old(self).pool_balance()
                    &&& final(self).resource() == old(self).resource()
                    &&& final(self).next_ticket_id() == old(self).next_ticket_id()
                    &&& final(self).spec_total_collateral() == old(self).spec_total_collateral()
                    &&& final(self).spec_total_rewards() == old(self).spec_total_rewards() - v
                }),
                Err(e) => {
                    &&& Some(e) == old(self).claim_err(access)
                    &&& final(self).state_eq(old(self))
                },
            },
    {
        if access.resource != self.ticket_resource {
            return Err(LendingError::Unauthorized);
        }
        match self.registry.get(access.id) {
            Ok(d) => d,
            Err(e) => {
                return Err(e);
            },
        };
        let ghost s0 = old(self).positions();
        let ghost i = idx_of(s0, access.id);
        proof {
            assert(old(self).rewards()[i].0 == access.id);
            lemma_idx_of(old(self).rewards(), access.id, i);
            lemma_elem_le_sum(old(self).rewards(), reward_fn(), i);
        }
        let v = match self.ledger.drain(access.id) {
            Ok(v) => v,
            Err(_) => {
                proof {
                    assert(false);
                }
                return Err(LendingError::NotFound);
            },
        };
        self.total_rewards = self.total_rewards - v;
        proof {
            let r0 = old(self).rewards();
            lemma_sum_update(r0, reward_fn(), i, (access.id, 0u64));
            assert forall|j: int| 0 <= j < self.positions().len() implies self.rewards()[j].0
                == self.positions()[j].0 by {
                if j != i {
                    assert(self.rewards()[j] == r0[j]);
                }
            }
        }
        Ok(v)
    }

    /// Borrows `amount` against the caller's own collateral, up to
    /// `(collateral - borrowed) / 1.5` of the state before the call.  A
    /// commission of `amount * 0.02` is split off the withdrawn loan and
    /// distributed synchronously over every live position, the borrower's
    /// own included, each credited
    /// `weight * commission / balance` rounded down, where `weight` is the
    /// position's collateral times its unused-capacity fraction and
    /// `balance` is the pool's balance sampled once after the loan left the
    /// pool.  The distribution works over a snapshot of the registry, so
    /// the base is one consistent point-in-time view.  The rounding residue
    /// of the commission is folded back into the returned net, so
    /// `net + sum(credited shares) == amount` exactly.  The failing checks,
    /// in order, are in `borrow_err`; every failure changes nothing.
    ///
    /// The extra `requires` is a machine limit: headroom in the running
    /// totals for the commission.
    #[verifier::loop_isolation(false)]
    #[verifier::rlimit(100)]
    pub fn borrow(&mut self, access: TicketProof, amount: u64) -> (r: Result<u64, LendingError>)
        requires
            old(self).wf(),
            old(self).spec_total_collateral() + old(self).spec_total_rewards() + commission_spec(
                amount,
            ) <= u64::MAX,
        ensures
            final(self).wf(),
            match r {
                Ok(net) => ({
                    let s0 = old(self).positions();
                    let i = idx_of(s0, access.id);
                    let d0 = s0[i].1;
                    let d1 = BankerTicketData {
                        collateral_amount: d0.collateral_amount,
                        borrowed_amount: (d0.borrowed_amount + amount) as u64,
                        opened_at: d0.opened_at,
                    };
                    let s1 = s0.update(i, (access.id, d1));
                    let kk = commission_spec(amount);
                    let den = 2 * (old(self).pool_balance() - amount);
                    &&& old(self).borrow_err(access, amount) == None::<LendingError>
                    &&& final(self).positions() == s1
                    &&& (d0.borrowed_amount == 0 ==> d1.ratio_ok())
                    &&& final(self).pool_balance() == old(self).pool_balance() - amount
                    &&& final(self).rewards().len() == old(self).rewards().len()
                    &&& forall|j: int|
                        0 <= j < s1.len() ==> final(self).rewards()[j] == (
                        old(self).rewards()[j].0,
                        ((old(self).rewards()[j].1 + share_spec(s1[j].1, kk, den)) as u64),
                        )
                    &&& sum_by(s1, share_fn(kk, den)) <= kk
                    &&& net == amount - sum_by(s1, share_fn(kk, den))
                    &&& net + (sum_rewards(final(self).rewards()) - sum_rewards(
                        old(self).rewards(),
                    )) == amount
                    &&& final(self).resource() == old(self).resource()
                    &&& final(self).next_ticket_id() == old(self).next_ticket_id()
                    &&& final(self).spec_total_collateral() == old(self).spec_total_collateral()
                    &&& final(self).spec_total_rewards() == old(self).spec_total_rewards()
                        + sum_by(s1, share_fn(kk, den))
                }),
                Err(e) => {
                    &&& Some(e) == old(self).borrow_err(access, amount)
                    &&& final(self).state_eq(old(self))
                },
            },
    {
        if access.resource != self.ticket_resource {
            return Err(LendingError::Unauthorized);
        }
        let data = match self.registry.get(access.id) {
            Ok(d) => d,
            Err(e) => {
                return Err(e);
            },
        };
        let ghost s0 = old(self).positions();
        let ghost i = idx_of(s0, access.id);
        proof {
            assert(s0[i].1.wf());
        }
        if amount > data.max_borrow_amount() {
            proof {
                lemma_max_borrow_iff(data, amount);
            }
            return Err(LendingError::ExceedsBorrowLimit);
        }
        proof {
            lemma_max_borrow_iff(data, amount);
            assert(RATIO_NUM == 3 && RATIO_DEN == 2 && COMMISSION_NUM == 2 && COMMISSION_DEN
                == 100);
        }
        // the commission, rounded down to a whole unit
        let k: u64 = (((amount as u128) * (COMMISSION_NUM as u128)) / (COMMISSION_DEN
            as u128)) as u64;
        let ghost kk = commission_spec(amount);
        proof {
            vstd::arithmetic::div_mod::lemma_div_is_ordered_by_denominator(
                2 * amount,
                2,
                100,
            );
            vstd::arithmetic::div_mod::lemma_div_multiples_vanish(amount as int, 2);
            assert(kk <= amount);
            vstd::arithmetic::div_mod::lemma_fundamental_div_mod(2 * amount, 100);
            assert(100 * kk <= 2 * amount);
            assert(k == kk);
            // the pool covers the loan: this position's unborrowed backing
            // alone does
            lemma_sum_split(s0, coll_fn(), diff_fn(), borr_fn());
            lemma_elem_le_sum(s0, diff_fn(), i);
        }
        let _loan = match self.pool.withdraw(amount) {
            Ok(v) => v,
            Err(_) => {
                proof {
                    assert(false);
                }
                return Err(LendingError::InsufficientFunds);
            },
        };
        let new_data = BankerTicketData {
            collateral_amount: data.collateral_amount,
            borrowed_amount: data.borrowed_amount + amount,
            opened_at: data.opened_at,
        };
        match self.registry.update(access.id, new_data) {
            Ok(u) => u,
            Err(_) => {
                proof {
                    assert(false);
                }
                return Err(LendingError::NotFound);
            },
        };
        let ghost d1 = new_data;
        let ghost s1 = s0.update(i, (access.id, d1));
        let ghost r0 = old(self).rewards();
        // the distribution base: the pool balance, sampled once, and a
        // consistent snapshot of every live position
        let bal1 = self.pool.balance();
        let ghost den = 2 * (bal1 as int);
        let ghost f = share_fn(kk, den);
        let snapshot = self.registry.iterate();
        let n = snapshot.len();
        proof {
            lemma_sum_update(s0, coll_fn(), i, (access.id, d1));
            lemma_sum_update(s0, borr_fn(), i, (access.id, d1));
            assert(bal1 == sum_collateral(s1) - sum_borrowed(s1));
            assert forall|l: int| 0 <= l < s1.len() implies (#[trigger] s1[l]).1.wf() by {
                if l != i {
                    assert(s1[l] == s0[l]);
                }
            }
            // the doubled weights sum to at most the doubled balance
            lemma_sum_split(s1, coll_fn(), diff_fn(), borr_fn());
            lemma_sum_split(s1, twodiff_fn(), diff_fn(), diff_fn());
            assert forall|l: int| 0 <= l < s1.len() implies weight_fn()(s1[l]) <= twodiff_fn()(
                s1[l],
            ) by {
                assert(s1[l].1.wf());
            }
            lemma_sum_le(s1, weight_fn(), twodiff_fn());
            assert(sum_by(s1, weight_fn()) <= den);
            lemma_sum_nonneg(s0, coll_fn());
            assert(sum_rewards(r0) == old(self).spec_total_rewards());
        }
        let mut credited: u64 = 0;
        proof {
            assert(s1.take(0) =~= Seq::<(u64, BankerTicketData)>::empty());
        }
        for j in 0..n
            invariant
                self.ticket_resource == old(self).resource(),
                self.registry@ == s1,
                self.registry.wf(),
                self.registry.spec_next_id() == old(self).next_ticket_id(),
                self.pool.spec_balance() == bal1,
                self.total_collateral == old(self).spec_total_collateral(),
                self.total_rewards == old(self).spec_total_rewards(),
                self.ledger.wf(),
                self.ledger@.len() == n,
                forall|l: int| 0 <= l < n ==> self.ledger@[l].0 == r0[l].0,
                forall|l: int| 0 <= l < j ==> self.ledger@[l].1 == r0[l].1 + f(s1[l]),
                forall|l: int| j <= l < n ==> self.ledger@[l].1 == r0[l].1,
                credited == sum_by(s1.take(j as int), f),
                den > 0 ==> credited <= sum_by(s1.take(j as int), weight_fn()) * kk / den,
                den == 0 ==> credited == 0,
        {
            let entry = snapshot[j];
            let ghost w_j = weight_fn()(s1[j as int]);
            proof {
                assert(s1[j as int].1.wf());
                assert(0 <= w_j);
                assert(w_j <= 2 * (s1[j as int].1.collateral_amount
                    - s1[j as int].1.borrowed_amount));
                lemma_elem_le_sum(s1, diff_fn(), j as int);
                assert(w_j <= den);
            }
            let share: u64;
            if bal1 > 0 {
                let c2: u128 = (RATIO_DEN as u128) * (entry.1.collateral_amount as u128);
                let b3: u128 = (RATIO_NUM as u128) * (entry.1.borrowed_amount as u128);
                if b3 <= c2 {
                    let w: u128 = c2 - b3;
                    proof {
                        assert(w == w_j);
                        assert(kk <= 368934881474191032);
                        assert(w * (k as u128) < u128::MAX) by (nonlinear_arith)
                            requires
                                w <= 2 * (u64::MAX as u128),
                                (k as u128) <= 368934881474191032,
                        ;
                        lemma_mul_div_le(w_j, kk, den);
                    }
                    share = ((w * (k as u128)) / ((2 as u128) * (bal1 as u128))) as u64;
                    proof {
                        assert(share == f(s1[j as int]));
                    }
                } else {
                    share = 0;
                    proof {
                        assert(s1[j as int].1.weight_num() == 0);
                        vstd::arithmetic::div_mod::lemma_div_of0(den);
                        assert(s1[j as int].1.weight_num() * kk == 0);
                        assert(share_spec(s1[j as int].1, kk, den) == 0);
                        assert(f(s1[j as int]) == 0);
                    }
                }
            } else {
                share = 0;
                proof {
                    assert(f(s1[j as int]) == 0);
                }
            }
            proof {
                lemma_sum_take_succ(s1, f, j as int);
                lemma_sum_take_succ(s1, weight_fn(), j as int);
                if den > 0 {
                    let sw = sum_by(s1.take(j as int), weight_fn());
                    lemma_sum_nonneg_prefix(s1, weight_fn(), j as int);
                    lemma_div_sum_le(sw * kk, w_j * kk, den);
                    assert((sw + w_j) * kk == sw * kk + w_j * kk) by (nonlinear_arith);
                    lemma_sum_take_le(s1, weight_fn(), j as int + 1);
                    lemma_mul_div_le(sum_by(s1.take(j as int + 1), weight_fn()), kk, den);
                    lemma_sum_nonneg_prefix(s1, weight_fn(), j as int + 1);
                }
                // the account keeps headroom: its balance is within the
                // reward total, and the share within the commission
                lemma_elem_le_sum(r0, reward_fn(), j as int);
            }
            self.ledger.credit_at(j, share);
            credited = credited + share;
        }
        proof {
            lemma_sum_take_all(s1, f);
            lemma_sum_take_all(s1, weight_fn());
            if den > 0 {
                lemma_sum_nonneg_prefix(s1, weight_fn(), s1.len() as int);
                lemma_mul_div_le(sum_by(s1, weight_fn()), kk, den);
            }
            assert(credited <= kk);
        }
        let net = amount - credited;
        self.total_rewards = self.total_rewards + credited;
        proof {
            lemma_sum_add_across(self.ledger@, r0, s1, reward_fn(), f);
        }
        Ok(net)
    }

    /// The pool's balance.
    pub fn balance(&self) -> (r: u64)
        ensures
            r == self.pool_balance(),
    {
        self.pool.balance()
    }

    /// Running total of all live collateral.
    pub fn total_collateral(&self) -> (r: u64)
        ensures
            r == self.spec_total_collateral(),
    {
        self.total_collateral
    }

    /// Running total of all reward balances.
    pub fn total_rewards(&self) -> (r: u64)
        ensures
            r == self.spec_total_rewards(),
    {
        self.total_rewards
    }

    /// The resource class of this engine's tickets.
    pub fn ticket_resource(&self) -> (r: u64)
        ensures
            r == self.resource(),
    {
        self.ticket_resource
    }

    /// The id the next `open` will assign.
    pub fn next_id(&self) -> (r: u64)
        ensures
            r == self.next_ticket_id(),
    {
        self.registry.next_id()
    }

    /// How many positions are live.
    pub fn position_count(&self) -> (r: usize)
        ensures
            r == self.positions().len(),
    {
        self.registry.len()
    }

    /// The current record of the position under `id`; `NotFound` exactly
    /// when no live position carries `id`.
    pub fn position(&self, id: u64) -> (r: Result<BankerTicketData, LendingError>)
        requires
            self.wf(),
        ensures
            has_id(self.positions(), id) ==> r == Ok::<BankerTicketData, LendingError>(
                self.positions()[idx_of(self.positions(), id)].1,
            ),
            !has_id(self.positions(), id) ==> r == Err::<BankerTicketData, LendingError>(
                LendingError::NotFound,
            ),
    {
        self.registry.get(id)
    }

    /// The reward balance of the position under `id`, without draining it;
    /// `NotFound` exactly when no live position carries `id`.
    pub fn reward_balance(&self, id: u64) -> (r: Result<u64, LendingError>)
        requires
            self.wf(),
        ensures
            has_id(self.positions(), id) ==> r == Ok::<u64, LendingError>(
                self.rewards()[idx_of(self.positions(), id)].1,
            ),
            !has_id(self.positions(), id) ==> r == Err::<u64, LendingError>(
                LendingError::NotFound,
            ),
    {
        proof {
            if has_id(self.positions(), id) {
                let i = idx_of(self.positions(), id);
                assert(0 <= i < self.positions().len() && self.positions()[i].0 == id);
                assert(self.rewards()[i].0 == id);
                lemma_idx_of(self.rewards(), id, i);
            } else {
                assert forall|j: int| 0 <= j < self.rewards().len() implies self.rewards()[j].0
                    != id by {
                    assert(self.positions()[j].0 == self.rewards()[j].0);
                }
            }
        }
        self.ledger.balance_of(id)
    }
}

/// Pool accounting at rest: the pool holds exactly the collateral total
/// minus the outstanding-loan total.  Deposits and repayments put value in;
/// loans, reductions, and closes take it out; commissions travel from the
/// loan to the reward accounts without touching the pool again.
pub proof fn lemma_pool_accounting(e: LendingEngine)
    requires
        e.wf(),
    ensures
        e.pool_balance() == sum_collateral(e.positions()) - sum_borrowed(e.positions()),
{
}

/// Solvency at rest: whenever no loan is outstanding, the pool covers the
/// collateral of every position in full.  While loans are outstanding the
/// borrowed funds are with the borrowers, so the unqualified bound cannot
/// hold: one position of 1000 with a loan of 300 leaves 700 in the pool.
/// Between operations no commission is in flight, so nothing else is owed
/// from the pool.
pub proof fn lemma_solvency_at_rest(e: LendingEngine)
    requires
        e.wf(),
        forall|i: int|
            0 <= i < e.positions().len() ==> (#[trigger] e.positions()[i]).1.borrowed_amount
                == 0,
    ensures
        sum_collateral(e.positions()) <= e.pool_balance(),
{
    assert forall|i: int| 0 <= i < e.positions().len() implies borr_fn()(e.positions()[i])
        == 0 by {
        assert(e.positions()[i].1.borrowed_amount == 0);
    }
    lemma_sum_zero(e.positions(), borr_fn());
}

/// A position with no loan satisfies the collateral-ratio bound, so fresh
/// and fully repaid positions always do.
pub proof fn lemma_ratio_of_unborrowed(d: BankerTicketData)
    requires
        d.borrowed_amount == 0,
    ensures
        d.ratio_ok(),
{
}

/// The collateral-ratio bound after a first borrow: a position with no
/// loan that borrows within the limit satisfies
/// `borrowed * 1.5 <= collateral` afterwards.  With a loan already
/// outstanding the limit `(collateral - borrowed) / 1.5` is laxer than the
/// ratio bound, so a repeated borrow can pass beyond it: from collateral
/// 1000 and loan 666 a further 222 may be borrowed, and `888 * 1.5 > 1000`.
pub proof fn lemma_ratio_after_first_borrow(d: BankerTicketData, amount: u64)
    requires
        d.wf(),
        d.borrowed_amount == 0,
        RATIO_NUM * amount <= RATIO_DEN * (d.collateral_amount - d.borrowed_amount),
    ensures
        (BankerTicketData {
            collateral_amount: d.collateral_amount,
            borrowed_amount: (d.borrowed_amount + amount) as u64,
            opened_at: d.opened_at,
        }).ratio_ok(),
{
}

/// Lock enforcement: presented the right resource class and a live
/// position, `close` and `reduce_collateral` answer `StillLocked` exactly
/// when the lock period has not elapsed since the position opened.
pub proof fn lemma_lock_enforcement(
    e: LendingEngine,
    ticket: BankerTicket,
    access: TicketProof,
    amount: u64,
    now: u64,
)
    requires
        e.wf(),
        ticket.resource == e.resource(),
        access.resource == e.resource(),
        has_id(e.positions(), ticket.id),
        has_id(e.positions(), access.id),
    ensures
        (e.close_err(ticket, now) == Some(LendingError::StillLocked)) <==> (now < e.positions()[
            idx_of(e.positions(), ticket.id)
        ].1.opened_at + LOCK_PERIOD),
        (e.reduce_err(access, amount, now) == Some(LendingError::StillLocked)) <==> (now
            < e.positions()[idx_of(e.positions(), access.id)].1.opened_at + LOCK_PERIOD),
{
}

/// No double close: once a close succeeded and removed the position, a
/// second close of the same ticket fails with `NotFound`, at any later
/// epoch.  The id counter never hands an id out twice, so the id can never
/// point at another position either.
pub proof fn lemma_no_double_close(
    pre: LendingEngine,
    post: LendingEngine,
    ticket: BankerTicket,
    now: u64,
    later: u64,
)
    requires
        pre.wf(),
        pre.close_err(ticket, now) == None::<LendingError>,
        post.positions() == pre.positions().remove(idx_of(pre.positions(), ticket.id)),
        post.resource() == pre.resource(),
    ensures
        post.close_err(ticket, later) == Some(LendingError::NotFound),
{
    let s = pre.positions();
    let i = idx_of(s, ticket.id);
    assert(0 <= i < s.len() && s[i].0 == ticket.id);
    assert forall|j: int| 0 <= j < post.positions().len() implies post.positions()[j].0
        != ticket.id by {
        if j < i {
            assert(post.positions()[j] == s[j]);
            assert(s[j].0 != s[i].0);
        } else {
            assert(post.positions()[j] == s[j + 1]);
            assert(s[i].0 != s[j + 1].0);
        }
    }
    assert(!has_id(post.positions(), ticket.id));
}

} // verus!
