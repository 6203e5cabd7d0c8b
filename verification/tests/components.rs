use bankers_party::errors::LendingError;
use bankers_party::ledger::RewardLedger;
use bankers_party::pool::AssetPool;
use bankers_party::position::BankerTicketData;
use bankers_party::registry::PositionRegistry;

#[test]
fn pool_deposit_withdraw() {
    let mut p = AssetPool::new();
    assert_eq!(p.balance(), 0);
    p.deposit(500);
    assert_eq!(p.balance(), 500);
    assert_eq!(p.withdraw(200), Ok(200));
    assert_eq!(p.balance(), 300);
    // more than the pool holds is refused and changes nothing
    assert_eq!(p.withdraw(301), Err(LendingError::InsufficientFunds));
    assert_eq!(p.balance(), 300);
    assert_eq!(p.withdraw(300), Ok(300));
    assert_eq!(p.balance(), 0);
}

#[test]
fn registry_lifecycle() {
    let mut r = PositionRegistry::new();
    assert_eq!(r.len(), 0);
    let a = r.create(1000, 7);
    let b = r.create(2000, 8);
    assert_ne!(a, b);
    let d = r.get(a).unwrap();
    assert_eq!(d.collateral_amount, 1000);
    assert_eq!(d.borrowed_amount, 0);
    assert_eq!(d.opened_at, 7);
    let updated = BankerTicketData {
        collateral_amount: 1000,
        borrowed_amount: 250,
        opened_at: 7,
    };
    assert_eq!(r.update(a, updated), Ok(()));
    assert_eq!(r.get(a).unwrap().borrowed_amount, 250);
    let all = r.iterate();
    assert_eq!(all.len(), 2);
    assert_eq!(all[0].0, a);
    assert_eq!(all[1].0, b);
    assert_eq!(r.remove(a), Ok(()));
    assert_eq!(r.get(a), Err(LendingError::NotFound));
    assert_eq!(r.update(a, updated), Err(LendingError::NotFound));
    assert_eq!(r.remove(a), Err(LendingError::NotFound));
    // the removed id is never handed out again
    let c = r.create(3000, 9);
    assert_ne!(c, a);
    assert_eq!(r.len(), 2);
}

#[test]
fn ledger_lifecycle() {
    let mut l = RewardLedger::new();
    l.open_account(4);
    assert_eq!(l.balance_of(4), Ok(0));
    assert_eq!(l.credit(4, 30), Ok(()));
    assert_eq!(l.credit(4, 12), Ok(()));
    assert_eq!(l.balance_of(4), Ok(42));
    assert_eq!(l.credit(9, 1), Err(LendingError::NotFound));
    assert_eq!(l.drain(4), Ok(42));
    assert_eq!(l.balance_of(4), Ok(0));
    assert_eq!(l.drain(9), Err(LendingError::NotFound));
    assert_eq!(l.close_account(4), Ok(()));
    assert_eq!(l.balance_of(4), Err(LendingError::NotFound));
    assert_eq!(l.close_account(4), Err(LendingError::NotFound));
}

#[test]
fn max_borrow_amount_rounds_down() {
    let fresh = BankerTicketData {
        collateral_amount: 1000,
        borrowed_amount: 0,
        opened_at: 0,
    };
    // 1000 / 1.5 = 666.67 rounded down
    assert_eq!(fresh.max_borrow_amount(), 666);
    let part = BankerTicketData {
        collateral_amount: 1000,
        borrowed_amount: 300,
        opened_at: 0,
    };
    // 700 / 1.5 = 466.67 rounded down
    assert_eq!(part.max_borrow_amount(), 466);
    let full = BankerTicketData {
        collateral_amount: 900,
        borrowed_amount: 600,
        opened_at: 0,
    };
    assert_eq!(full.max_borrow_amount(), 200);
}

#[test]
fn unused_collateral_fraction_is_exact() {
    let part = BankerTicketData {
        collateral_amount: 1000,
        borrowed_amount: 300,
        opened_at: 0,
    };
    // 1 - 300 / (1000 / 1.5) = 0.55 = 1100 / 2000
    assert_eq!(part.percentage_of_unused_collateral(), (1100, 2000));
    let fresh = BankerTicketData {
        collateral_amount: 400,
        borrowed_amount: 0,
        opened_at: 0,
    };
    assert_eq!(fresh.percentage_of_unused_collateral(), (800, 800));
    // past the theoretical maximum the fraction goes negative
    let over = BankerTicketData {
        collateral_amount: 300,
        borrowed_amount: 250,
        opened_at: 0,
    };
    assert_eq!(over.percentage_of_unused_collateral(), (-150, 600));
}
