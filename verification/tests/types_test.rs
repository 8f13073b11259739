use crab_keeper::banking::types::{AllHistory, BalanceHistory, BalanceState, TransferOrder};

#[test]
fn test_transfer_order_roundtrip() {
    let order = TransferOrder { src: 3, dst: 7, amount: 500 };
    let bytes = order.to_bytes();
    let decoded = TransferOrder::from_bytes(&bytes).expect("往返反序列化应成功");
    assert_eq!(decoded, order);
}

#[test]
fn test_transfer_order_byte_length() {
    let bytes = TransferOrder { src: 1, dst: 2, amount: 0 }.to_bytes();
    assert_eq!(bytes.len(), 10);
}

#[test]
fn test_transfer_order_amount_encoding() {
    let bytes = TransferOrder { src: 1, dst: 1, amount: 1 }.to_bytes();
    assert_eq!(bytes[2..10], [0, 0, 0, 0, 0, 0, 0, 1]);
}

#[test]
fn test_transfer_order_from_bytes_invalid_length() {
    assert!(TransferOrder::from_bytes(&[0u8; 9]).is_err());
    assert!(TransferOrder::from_bytes(&[0u8; 11]).is_err());
}

#[test]
fn test_balance_state_roundtrip() {
    let state = BalanceState { balance: 100, time: 3, pending_in: 0 };
    let bytes = state.to_bytes();
    assert_eq!(bytes.len(), 24);
    let decoded = BalanceState::from_bytes(&bytes).expect("往返反序列化应成功");
    assert_eq!(decoded, state);
}

#[test]
fn test_balance_state_new() {
    let state = BalanceState::new(200, 5);
    assert_eq!(state.balance, 200);
    assert_eq!(state.time, 5);
    assert_eq!(state.pending_in, 0);
}

#[test]
fn test_balance_state_pending_in_zero() {
    let state = BalanceState::new(42, 7);
    let bytes = state.to_bytes();
    assert_eq!(&bytes[16..24], &[0u8; 8]);
}

#[test]
fn test_balance_history_new() {
    let history = BalanceHistory::new(2, 50);
    assert_eq!(history.id, 2);
    assert_eq!(history.states.len(), 1);
    assert_eq!(history.states[0].balance, 50);
    assert_eq!(history.states[0].time, 0);
}

#[test]
fn test_balance_history_roundtrip_single_state() {
    let history = BalanceHistory::new(1, 100);
    let bytes = history.to_bytes();
    let decoded = BalanceHistory::from_bytes(&bytes).expect("单状态往返应成功");
    assert_eq!(decoded, history);
}

#[test]
fn test_balance_history_roundtrip_multiple_states() {
    let mut history = BalanceHistory::new(3, 50);
    history.states.push(BalanceState::new(40, 1));
    history.states.push(BalanceState::new(30, 2));
    history.states.push(BalanceState::new(100, 3));
    let bytes = history.to_bytes();
    let decoded = BalanceHistory::from_bytes(&bytes).expect("多状态往返应成功");
    assert_eq!(decoded, history);
}

#[test]
fn test_balance_history_from_bytes_empty() {
    assert!(BalanceHistory::from_bytes(&[]).is_err());
}

#[test]
fn test_balance_history_from_bytes_truncated() {
    let mut bytes = vec![1u8, 3u8];
    bytes.extend_from_slice(&BalanceState::new(100, 0).to_bytes());
    assert!(BalanceHistory::from_bytes(&bytes).is_err());
}

#[test]
fn test_all_history_new_empty() {
    assert_eq!(AllHistory::new().histories.len(), 0);
}

#[test]
fn test_all_history_push() {
    let mut all = AllHistory::new();
    all.push(BalanceHistory::new(1, 42));
    assert_eq!(all.histories.len(), 1);
    assert_eq!(all.histories[0].id, 1);
}

#[test]
fn test_all_history_roundtrip() {
    let mut all = AllHistory::new();
    all.push(BalanceHistory::new(1, 100));
    all.push(BalanceHistory::new(2, 200));
    let bytes = all.to_bytes();
    let decoded = AllHistory::from_bytes(&bytes).expect("AllHistory 往返应成功");
    assert_eq!(decoded, all);
}

#[test]
fn test_all_history_from_bytes_empty() {
    assert!(AllHistory::from_bytes(&[]).is_err());
}

#[test]
fn negative_amounts_use_twos_complement() {
    let order = TransferOrder { src: 9, dst: 4, amount: -2 };
    let bytes = order.to_bytes();
    assert_eq!(bytes, vec![9, 4, 0xFF, 0xFF, 0xFF, 0xFF, 0xFF, 0xFF, 0xFF, 0xFE]);
    assert_eq!(TransferOrder::from_bytes(&bytes).unwrap(), order);
    let extreme = TransferOrder { src: 1, dst: 2, amount: i64::MIN };
    assert_eq!(TransferOrder::from_bytes(&extreme.to_bytes()).unwrap(), extreme);
}

#[test]
fn balance_state_exact_bytes() {
    let state = BalanceState { balance: 258, time: 0x0102030405060708, pending_in: -1 };
    let bytes = state.to_bytes();
    assert_eq!(
        bytes,
        vec![
            0, 0, 0, 0, 0, 0, 1, 2, 1, 2, 3, 4, 5, 6, 7, 8, 0xFF, 0xFF, 0xFF, 0xFF, 0xFF, 0xFF, 0xFF,
            0xFF
        ]
    );
    assert_eq!(BalanceState::from_bytes(&bytes).unwrap(), state);
    assert!(BalanceState::from_bytes(&bytes[..23]).is_err());
}

#[test]
fn decoding_errors_say_length_mismatch() {
    assert_eq!(TransferOrder::from_bytes(&[1, 2]).unwrap_err(), "长度不匹配");
    assert_eq!(BalanceState::from_bytes(&[]).unwrap_err(), "长度不匹配");
    assert_eq!(BalanceHistory::from_bytes(&[1]).unwrap_err(), "长度不匹配");
    assert_eq!(AllHistory::from_bytes(&[]).unwrap_err(), "长度不匹配");
}

#[test]
fn balance_history_exact_header() {
    let history = BalanceHistory::new(7, 5);
    let bytes = history.to_bytes();
    assert_eq!(bytes.len(), 26);
    assert_eq!(bytes[0], 7);
    assert_eq!(bytes[1], 1);
    let mut too_long = bytes.clone();
    too_long.push(0);
    assert!(BalanceHistory::from_bytes(&too_long).is_err());
}

#[test]
fn all_history_exact_layout_and_trailing_bytes() {
    let mut all = AllHistory::new();
    all.push(BalanceHistory::new(1, 100));
    let bytes = all.to_bytes();
    assert_eq!(bytes.len(), 1 + 8 + 26);
    assert_eq!(bytes[0], 1);
    assert_eq!(&bytes[1..9], &[0, 0, 0, 0, 0, 0, 0, 26]);
    let mut with_trailer = bytes.clone();
    with_trailer.extend_from_slice(&[9, 9, 9]);
    assert_eq!(AllHistory::from_bytes(&with_trailer).unwrap(), all);
}

#[test]
fn all_history_refuses_oversized_entry_length() {
    let mut bytes = vec![1u8];
    bytes.extend_from_slice(&u64::MAX.to_be_bytes());
    assert!(AllHistory::from_bytes(&bytes).is_err());
    let truncated = vec![1u8, 0, 0];
    assert!(AllHistory::from_bytes(&truncated).is_err());
}

#[test]
fn all_history_empty_batch() {
    let all = AllHistory::new();
    assert_eq!(all.to_bytes(), vec![0]);
    assert_eq!(AllHistory::from_bytes(&[0]).unwrap(), all);
}

#[test]
fn display_texts_of_banking_types() {
    let order = TransferOrder { src: 1, dst: 2, amount: -30 };
    assert_eq!(order.to_display_string(), "TRANSFER { src=1, dst=2, amount=-30 }");
    let state = BalanceState { balance: 100, time: 3, pending_in: 7 };
    assert_eq!(state.to_display_string(), "BalanceState { balance=100, time=3, pending_in=7 }");
    let mut history = BalanceHistory::new(4, 1);
    history.states.push(BalanceState::new(2, 1));
    assert_eq!(history.to_display_string(), "BalanceHistory(id=4, 2 states)");
    let mut all = AllHistory::new();
    all.push(history);
    assert_eq!(all.to_display_string(), "AllHistory(1 processes)");
}
