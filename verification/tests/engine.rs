use bankers_party::engine::LendingEngine;
use bankers_party::errors::LendingError;
use bankers_party::position::TicketProof;

const RES: u64 = 1;

fn access_for(id: u64) -> TicketProof {
    TicketProof { resource: RES, id }
}

#[test]
fn open_records_position() {
    let mut e = LendingEngine::new(RES);
    let t = e.open(1000, 0).unwrap();
    assert_eq!(t.resource, RES);
    assert_eq!(t.id, 0);
    let d = e.position(t.id).unwrap();
    assert_eq!(d.collateral_amount, 1000);
    assert_eq!(d.borrowed_amount, 0);
    assert_eq!(d.opened_at, 0);
    assert_eq!(e.balance(), 1000);
    assert_eq!(e.reward_balance(t.id).unwrap(), 0);
    assert_eq!(e.position_count(), 1);
}

#[test]
fn open_below_minimum() {
    let mut e = LendingEngine::new(RES);
    assert_eq!(e.open(50, 0), Err(LendingError::BelowMinimum));
    // the minimum itself is still too small; one unit more passes
    assert_eq!(e.open(100, 0), Err(LendingError::BelowMinimum));
    assert!(e.open(101, 0).is_ok());
    assert_eq!(e.position_count(), 1);
}

#[test]
fn open_assigns_fresh_ids() {
    let mut e = LendingEngine::new(RES);
    let a = e.open(1000, 0).unwrap();
    let b = e.open(2000, 0).unwrap();
    assert_ne!(a.id, b.id);
    let t = e.close(a, 500).unwrap();
    assert_eq!(t, 1000);
    // a closed id is never reused
    let c = e.open(3000, 600).unwrap();
    assert_ne!(c.id, a.id);
    assert_ne!(c.id, b.id);
}

#[test]
fn borrow_scenario_single_position() {
    // open 1000, borrow 300: limit 1000/1.5 = 666 allows it;
    // commission 300 * 0.02 = 6; balance after the loan leaves: 700;
    // the borrower's own weight 2*1000 - 3*300 = 1100 earns
    // 1100 * 6 / 1400 = 4, and the rounding residue of the commission is
    // folded back into the net: 300 - 4 = 296.
    let mut e = LendingEngine::new(RES);
    let t = e.open(1000, 0).unwrap();
    let net = e.borrow(access_for(t.id), 300).unwrap();
    assert_eq!(net, 296);
    let d = e.position(t.id).unwrap();
    assert_eq!(d.borrowed_amount, 300);
    assert_eq!(d.collateral_amount, 1000);
    assert_eq!(e.balance(), 700);
    let credited = e.reward_balance(t.id).unwrap();
    assert_eq!(credited, 4);
    // conservation: net plus every credited share is the amount
    assert_eq!(net + credited, 300);
    // the collateral ratio holds after a first borrow: 300 * 3 <= 1000 * 2
    assert!(3 * d.borrowed_amount <= 2 * d.collateral_amount);
}

#[test]
fn borrow_conservation_two_positions() {
    let mut e = LendingEngine::new(RES);
    let a = e.open(1000, 0).unwrap();
    let b = e.open(2000, 0).unwrap();
    let net = e.borrow(access_for(a.id), 300).unwrap();
    // balance sampled once after the loan left: 2700, commission 6;
    // weights 1100 and 4000 earn 1100*6/5400 = 1 and 4000*6/5400 = 4
    let ra = e.reward_balance(a.id).unwrap();
    let rb = e.reward_balance(b.id).unwrap();
    assert_eq!(ra, 1);
    assert_eq!(rb, 4);
    assert_eq!(net, 295);
    assert_eq!(net + ra + rb, 300);
    assert_eq!(e.balance(), 2700);
    assert_eq!(e.total_rewards(), 5);
}

#[test]
fn borrow_exceeds_limit() {
    let mut e = LendingEngine::new(RES);
    let t = e.open(1000, 0).unwrap();
    // the limit is 1000 / 1.5 = 666 whole units
    assert_eq!(
        e.borrow(access_for(t.id), 700),
        Err(LendingError::ExceedsBorrowLimit)
    );
    assert_eq!(
        e.borrow(access_for(t.id), 667),
        Err(LendingError::ExceedsBorrowLimit)
    );
    // state unchanged
    let d = e.position(t.id).unwrap();
    assert_eq!(d.borrowed_amount, 0);
    assert_eq!(e.balance(), 1000);
    assert_eq!(e.reward_balance(t.id).unwrap(), 0);
    // the limit itself passes
    assert!(e.borrow(access_for(t.id), 666).is_ok());
}

#[test]
fn borrow_of_nothing_moves_nothing() {
    let mut e = LendingEngine::new(RES);
    let t = e.open(1000, 0).unwrap();
    let net = e.borrow(access_for(t.id), 0).unwrap();
    assert_eq!(net, 0);
    assert_eq!(e.balance(), 1000);
    assert_eq!(e.position(t.id).unwrap().borrowed_amount, 0);
    assert_eq!(e.reward_balance(t.id).unwrap(), 0);
}

#[test]
fn reduce_before_lock_fails() {
    let mut e = LendingEngine::new(RES);
    let t = e.open(1000, 0).unwrap();
    assert_eq!(
        e.reduce_collateral(access_for(t.id), 100, 499),
        Err(LendingError::StillLocked)
    );
    assert_eq!(e.position(t.id).unwrap().collateral_amount, 1000);
    assert_eq!(e.balance(), 1000);
    // exactly at the lock boundary it succeeds
    assert_eq!(e.reduce_collateral(access_for(t.id), 100, 500), Ok(100));
    assert_eq!(e.position(t.id).unwrap().collateral_amount, 900);
    assert_eq!(e.balance(), 900);
}

#[test]
fn reduce_would_breach_ratio() {
    let mut e = LendingEngine::new(RES);
    let t = e.open(1000, 0).unwrap();
    e.borrow(access_for(t.id), 300).unwrap();
    // collateral left 400 would not cover 300 * 1.5 = 450
    assert_eq!(
        e.reduce_collateral(access_for(t.id), 600, 500),
        Err(LendingError::WouldBreachCollateralRatio)
    );
    // taking the whole collateral is a breach too
    assert_eq!(
        e.reduce_collateral(access_for(t.id), 1000, 500),
        Err(LendingError::WouldBreachCollateralRatio)
    );
    // collateral left 500 covers 450 exactly at the boundary ... 500 >= 450
    assert_eq!(e.reduce_collateral(access_for(t.id), 500, 500), Ok(500));
    let d = e.position(t.id).unwrap();
    assert_eq!(d.collateral_amount, 500);
    // the ratio bound holds after a reduce
    assert!(3 * d.borrowed_amount <= 2 * d.collateral_amount);
}

#[test]
fn repay_less_than_borrowed_fails() {
    let mut e = LendingEngine::new(RES);
    let t = e.open(1000, 0).unwrap();
    e.borrow(access_for(t.id), 300).unwrap();
    assert_eq!(
        e.repay(access_for(t.id), 299),
        Err(LendingError::InsufficientRepayment)
    );
    assert_eq!(e.position(t.id).unwrap().borrowed_amount, 300);
    assert_eq!(e.balance(), 700);
}

#[test]
fn repay_caps_debit_and_returns_excess() {
    let mut e = LendingEngine::new(RES);
    let t = e.open(1000, 0).unwrap();
    e.borrow(access_for(t.id), 300).unwrap();
    // overpayment: exactly the loan is absorbed, the excess comes back
    let excess = e.repay(access_for(t.id), 350).unwrap();
    assert_eq!(excess, 50);
    let d = e.position(t.id).unwrap();
    assert_eq!(d.borrowed_amount, 0);
    assert_eq!(e.balance(), 1000);
    // a second repayment owes nothing and gives the payment back whole
    let excess = e.repay(access_for(t.id), 80).unwrap();
    assert_eq!(excess, 80);
    assert_eq!(e.balance(), 1000);
}

#[test]
fn claim_rewards_drains_account() {
    let mut e = LendingEngine::new(RES);
    let a = e.open(1000, 0).unwrap();
    let b = e.open(2000, 0).unwrap();
    e.borrow(access_for(a.id), 300).unwrap();
    assert_eq!(e.claim_rewards(access_for(b.id)), Ok(4));
    assert_eq!(e.reward_balance(b.id).unwrap(), 0);
    // a second claim finds nothing; the position is untouched
    assert_eq!(e.claim_rewards(access_for(b.id)), Ok(0));
    assert_eq!(e.position(b.id).unwrap().collateral_amount, 2000);
    assert_eq!(e.balance(), 2700);
}

#[test]
fn close_returns_principal_plus_rewards() {
    let mut e = LendingEngine::new(RES);
    let a = e.open(1000, 0).unwrap();
    let b = e.open(2000, 0).unwrap();
    e.borrow(access_for(a.id), 300).unwrap();
    // position b earned 4; closing it returns 2000 + 4
    assert_eq!(e.close(b, 500), Ok(2004));
    assert_eq!(e.balance(), 700);
    assert_eq!(e.position_count(), 1);
    assert_eq!(e.position(b.id), Err(LendingError::NotFound));
}

#[test]
fn close_before_lock_fails() {
    let mut e = LendingEngine::new(RES);
    let t = e.open(1000, 10).unwrap();
    assert_eq!(e.close(t, 509), Err(LendingError::StillLocked));
    assert_eq!(e.position_count(), 1);
    assert_eq!(e.close(t, 510), Ok(1000));
}

#[test]
fn close_with_outstanding_loan_fails() {
    let mut e = LendingEngine::new(RES);
    let t = e.open(1000, 0).unwrap();
    e.borrow(access_for(t.id), 300).unwrap();
    assert_eq!(e.close(t, 500), Err(LendingError::OutstandingLoan));
    // after full repayment the close goes through, rewards folded in
    e.repay(access_for(t.id), 300).unwrap();
    assert_eq!(e.close(t, 500), Ok(1004));
    assert_eq!(e.balance(), 0);
}

#[test]
fn close_twice_fails_not_found() {
    let mut e = LendingEngine::new(RES);
    let t = e.open(1000, 0).unwrap();
    assert_eq!(e.close(t, 500), Ok(1000));
    // the ticket was burned with the position: a second close finds nothing
    assert_eq!(e.close(t, 500), Err(LendingError::NotFound));
    assert_eq!(e.close(t, 9000), Err(LendingError::NotFound));
}

#[test]
fn wrong_resource_and_unauthorized() {
    let mut e = LendingEngine::new(RES);
    let t = e.open(1000, 0).unwrap();
    let mut other = LendingEngine::new(2);
    let foreign = other.open(5000, 0).unwrap();
    assert_eq!(e.close(foreign, 500), Err(LendingError::WrongResource));
    let bad = TicketProof { resource: 2, id: t.id };
    assert_eq!(e.borrow(bad, 10), Err(LendingError::Unauthorized));
    assert_eq!(e.repay(bad, 10), Err(LendingError::Unauthorized));
    assert_eq!(e.claim_rewards(bad), Err(LendingError::Unauthorized));
    assert_eq!(
        e.reduce_collateral(bad, 10, 500),
        Err(LendingError::Unauthorized)
    );
}

#[test]
fn unknown_id_fails_not_found() {
    let mut e = LendingEngine::new(RES);
    e.open(1000, 0).unwrap();
    let stray_access = access_for(77);
    assert_eq!(e.borrow(stray_access, 10), Err(LendingError::NotFound));
    assert_eq!(e.repay(stray_access, 10), Err(LendingError::NotFound));
    assert_eq!(e.claim_rewards(stray_access), Err(LendingError::NotFound));
    assert_eq!(
        e.reduce_collateral(stray_access, 10, 500),
        Err(LendingError::NotFound)
    );
    assert_eq!(e.position(77), Err(LendingError::NotFound));
    assert_eq!(e.reward_balance(77), Err(LendingError::NotFound));
}

#[test]
fn repeated_borrow_follows_limit_not_ratio() {
    // the limit re-reads (collateral - borrowed) / 1.5 each time, so a
    // second borrow may carry the loan past collateral / 1.5
    let mut e = LendingEngine::new(RES);
    let t = e.open(1000, 0).unwrap();
    // commission 13, balance 334, own weight 2000 - 3*666 = 2,
    // share 2*13/668 = 0: the whole amount comes back
    assert_eq!(e.borrow(access_for(t.id), 666), Ok(666));
    // limit now (1000 - 666) / 1.5 = 222, and it is granted
    assert_eq!(e.borrow(access_for(t.id), 222), Ok(222));
    let d = e.position(t.id).unwrap();
    assert_eq!(d.borrowed_amount, 888);
    // past collateral / 1.5: such a position earns no commission share
    assert!(3 * d.borrowed_amount > 2 * d.collateral_amount);
    assert_eq!(e.reward_balance(t.id).unwrap(), 0);
    // a third borrow is still capped by what is left: (1000-888)/1.5 = 74
    assert_eq!(
        e.borrow(access_for(t.id), 75),
        Err(LendingError::ExceedsBorrowLimit)
    );
}

#[test]
fn solvency_at_rest() {
    let mut e = LendingEngine::new(RES);
    let a = e.open(1000, 0).unwrap();
    e.open(2000, 0).unwrap();
    e.borrow(access_for(a.id), 300).unwrap();
    // with a loan outstanding the pool holds collateral minus loans
    assert_eq!(e.balance(), 2700);
    assert_eq!(e.total_collateral(), 3000);
    e.repay(access_for(a.id), 300).unwrap();
    // with every loan repaid the pool covers all collateral
    assert!(e.total_collateral() <= e.balance());
    assert_eq!(e.balance(), 3000);
}
