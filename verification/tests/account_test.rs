use crab_keeper::banking::account::{AccountError, BranchAccount};
use crab_keeper::banking::time::PhysicalClock;

#[test]
fn test_account_new() {
    let acc = BranchAccount::new(1, 200);
    assert_eq!(acc.id, 1);
    assert_eq!(acc.current_balance(), 200);
    assert_eq!(acc.history.states.len(), 1);
    assert_eq!(acc.history.states[0].balance, 200);
    assert_eq!(acc.history.states[0].time, 0);
}

#[test]
fn test_debit_success() {
    let mut acc = BranchAccount::new(2, 100);
    assert!(acc.debit(30, 1).is_ok());
    assert_eq!(acc.current_balance(), 70);
    assert_eq!(acc.history.states.len(), 2);
    assert_eq!(acc.history.states[1].balance, 70);
    assert_eq!(acc.history.states[1].time, 1);
}

#[test]
fn test_debit_insufficient_funds() {
    let mut acc = BranchAccount::new(3, 50);
    let result = acc.debit(100, 1);
    assert!(result.is_err());
    match result {
        Err(AccountError::InsufficientFunds { account_id, balance, required }) => {
            assert_eq!(account_id, 3);
            assert_eq!(balance, 50);
            assert_eq!(required, 100);
        }
        _ => panic!("预期 InsufficientFunds 错误"),
    }
    assert_eq!(acc.current_balance(), 50);
    assert_eq!(acc.history.states.len(), 1, "失败不应产生新记录");
}

#[test]
fn test_debit_invalid_amount() {
    let mut acc = BranchAccount::new(7, 100);
    assert_eq!(acc.debit(0, 1).unwrap_err(), AccountError::InvalidAmount(0));
    assert_eq!(acc.debit(-10, 1).unwrap_err(), AccountError::InvalidAmount(-10));
    assert_eq!(acc.current_balance(), 100);
}

#[test]
fn test_credit_success() {
    let mut acc = BranchAccount::new(4, 100);
    assert!(acc.credit(50, 2).is_ok());
    assert_eq!(acc.current_balance(), 150);
    assert_eq!(acc.history.states.len(), 3);
    assert_eq!(acc.history.states[2].balance, 150);
    assert_eq!(acc.history.states[2].time, 2);
}

#[test]
fn test_credit_invalid_amount() {
    let mut acc = BranchAccount::new(8, 100);
    assert_eq!(acc.credit(0, 1).unwrap_err(), AccountError::InvalidAmount(0));
    assert_eq!(acc.credit(-5, 1).unwrap_err(), AccountError::InvalidAmount(-5));
    assert_eq!(acc.current_balance(), 100);
}

#[test]
fn test_balance_history_gap_filling() {
    let mut acc = BranchAccount::new(5, 100);
    acc.debit(20, 4).unwrap();
    assert_eq!(acc.history.states.len(), 5);
    let expected: Vec<(u64, i64)> = vec![(0, 100), (1, 100), (2, 100), (3, 100), (4, 80)];
    for (i, (t, b)) in expected.iter().enumerate() {
        assert_eq!(acc.history.states[i].time, *t);
        assert_eq!(acc.history.states[i].balance, *b);
    }
}

#[test]
fn test_balance_history_multiple_operations() {
    let mut acc = BranchAccount::new(6, 200);
    acc.debit(50, 2).unwrap();
    acc.credit(30, 5).unwrap();
    assert_eq!(acc.history.states.len(), 6);
    assert_eq!(acc.current_balance(), 180);
    assert_eq!(acc.history.states[2].balance, 150);
    assert_eq!(acc.history.states[5].balance, 180);
    assert_eq!(acc.history.states[5].time, 5);
}

#[test]
fn test_physical_clock_monotonic() {
    let mut clock = PhysicalClock::new();
    assert_eq!(clock.now(), 0);
    assert_eq!(clock.now(), 1);
    assert_eq!(clock.now(), 2);
    assert_eq!(clock.now(), 3);
    assert_eq!(clock.now(), 4);
}

#[test]
fn test_physical_clock_reset() {
    let mut clock = PhysicalClock::new();
    clock.now();
    clock.now();
    clock.now();
    assert_eq!(clock.now(), 3);
    clock.reset();
    assert_eq!(clock.now(), 0);
    assert_eq!(clock.now(), 1);
}

#[test]
fn test_physical_clock_default() {
    let mut clock = PhysicalClock::default();
    assert_eq!(clock.now(), 0);
}

#[test]
fn record_at_same_or_earlier_time_adds_no_gap() {
    let mut acc = BranchAccount::new(1, 10);
    acc.credit(5, 0).unwrap();
    assert_eq!(acc.history.states.len(), 2);
    assert_eq!(acc.history.states[1].time, 0);
    acc.debit(3, 3).unwrap();
    acc.credit(1, 1).unwrap();
    assert_eq!(acc.history.states.len(), 6);
    assert_eq!(acc.history.states[5].time, 1);
    assert_eq!(acc.current_balance(), 13);
}

#[test]
fn debit_then_credit_restores_balance() {
    let mut acc = BranchAccount::new(1, 100);
    acc.debit(20, 1).unwrap();
    acc.credit(20, 1).unwrap();
    assert_eq!(acc.current_balance(), 100);
}

#[test]
fn debit_of_whole_balance_is_allowed() {
    let mut acc = BranchAccount::new(1, 40);
    assert!(acc.debit(40, 1).is_ok());
    assert_eq!(acc.current_balance(), 0);
    assert!(acc.debit(1, 2).is_err());
}

#[test]
fn account_error_display_texts() {
    let e = AccountError::InsufficientFunds { account_id: 3, balance: 50, required: 100 };
    assert_eq!(e.to_display_string(), "账户 3 余额不足: 现有 50，需要 100");
    assert_eq!(AccountError::InvalidAmount(-10).to_display_string(), "无效金额: -10");
    assert_eq!(
        AccountError::InvalidAmount(i64::MIN).to_display_string(),
        "无效金额: -9223372036854775808"
    );
}

#[test]
fn record_state_fills_gaps_up_to_the_new_time() {
    let mut acc = BranchAccount::new(1, 7);
    acc.record_state(3, 9);
    assert_eq!(acc.history.states.len(), 4);
    for (i, s) in acc.history.states.iter().enumerate() {
        assert_eq!(s.time, i as u64);
    }
    assert_eq!(acc.history.states[2].balance, 7);
    assert_eq!(acc.current_balance(), 9);
}
