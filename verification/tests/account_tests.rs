use market_game::account::Account;
use market_game::error::ErrorType;

#[test]
fn new_account_is_all_free() {
    let a = Account::new(100);
    assert_eq!(a.total_amount(), 100);
    assert_eq!(a.locked_amount(), 0);
    assert_eq!(a.get_free_amount(), 100);
}

#[test]
fn lock_moves_free_to_locked() {
    let mut a = Account::new(100);
    assert_eq!(a.lock_amount(30), Ok(()));
    assert_eq!(a.total_amount(), 100);
    assert_eq!(a.locked_amount(), 30);
    assert_eq!(a.get_free_amount(), 70);
}

#[test]
fn lock_more_than_free_fails() {
    let mut a = Account::new(100);
    assert_eq!(a.lock_amount(30), Ok(()));
    assert_eq!(a.lock_amount(71), Err(ErrorType::InsufficientFreeAmount));
    assert_eq!(a.locked_amount(), 30);
    assert_eq!(a.total_amount(), 100);
}

#[test]
fn unlock_more_than_locked_fails() {
    let mut a = Account::new(100);
    assert_eq!(a.lock_amount(30), Ok(()));
    assert_eq!(a.unlock_amount(31), Err(ErrorType::InsufficientLockedAmount));
    assert_eq!(a.unlock_amount(30), Ok(()));
    assert_eq!(a.locked_amount(), 0);
    assert_eq!(a.get_free_amount(), 100);
}

#[test]
fn spend_from_free_shrinks_total_only() {
    let mut a = Account::new(100);
    assert_eq!(a.lock_amount(30), Ok(()));
    assert_eq!(a.spend_from_free_amount(70), Ok(()));
    assert_eq!(a.total_amount(), 30);
    assert_eq!(a.locked_amount(), 30);
    assert_eq!(a.spend_from_free_amount(1), Err(ErrorType::InsufficientFreeAmount));
}

#[test]
fn spend_from_locked_shrinks_both() {
    let mut a = Account::new(100);
    assert_eq!(a.lock_amount(30), Ok(()));
    assert_eq!(a.spend_from_locked_amount(20), Ok(()));
    assert_eq!(a.total_amount(), 80);
    assert_eq!(a.locked_amount(), 10);
    assert_eq!(a.spend_from_locked_amount(11), Err(ErrorType::InsufficientLockedAmount));
    assert_eq!(a.total_amount(), 80);
    assert_eq!(a.locked_amount(), 10);
}

#[test]
fn add_grows_total() {
    let mut a = Account::new(5);
    a.add(7);
    assert_eq!(a.total_amount(), 12);
    assert_eq!(a.get_free_amount(), 12);
}
