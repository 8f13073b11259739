use crab_keeper::banking::account::AccountError;
use crab_keeper::banking::transfer::{transfer_outcome, transfer_request, BankingError};
use crab_keeper::banking::types::{AllHistory, Balance, BalanceHistory, TransferOrder};
use crab_keeper::communication::process::{
    BankPhase, BankingBranch, BankingCoordinator, BranchError, ParentSync, SyncAction, SyncPhase,
};
use crab_keeper::communication::Message;
use std::collections::VecDeque;

/// Runs the banking parent against in-memory branches; each branch has
/// already sent STARTED.
fn run_bank(balances: &[Balance], orders: &[TransferOrder]) -> Result<AllHistory, BankingError> {
    let mut branches: Vec<BankingBranch> = balances
        .iter()
        .enumerate()
        .map(|(i, b)| BankingBranch::new((i + 1) as u8, *b))
        .collect();
    let mut inbox: Vec<VecDeque<Message>> =
        balances.iter().map(|_| VecDeque::from(vec![Message::Started])).collect();
    let mut coordinator = BankingCoordinator::new(balances.len(), balances, orders)?;
    loop {
        match coordinator.next_action() {
            SyncAction::Receive(i) => {
                let msg = inbox[i].pop_front().expect("分支应已发送消息");
                coordinator.on_received(msg)?;
            }
            SyncAction::Send(i, msg) => {
                let reply = branches[i].handle(msg).expect("分支应处理消息");
                inbox[i].extend(reply.messages);
                coordinator.on_sent();
            }
            SyncAction::Finish => break,
        }
    }
    Ok(coordinator.into_histories())
}

fn last_balance(all: &AllHistory, id: u8) -> Balance {
    all.histories.iter().find(|h| h.id == id).unwrap().states.last().unwrap().balance
}

#[test]
fn test_transfer_atomicity() {
    let all = run_bank(&[100, 50], &[TransferOrder { src: 1, dst: 2, amount: 30 }]).unwrap();
    assert_eq!(all.histories.len(), 2);
    assert_eq!(last_balance(&all, 1), 70, "P1 应为 100-30=70");
    assert_eq!(last_balance(&all, 2), 80, "P2 应为 50+30=80");
    let total: i64 = all.histories.iter().map(|h| h.states.last().unwrap().balance).sum();
    assert_eq!(total, 150, "转账前后总金额应不变");
}

#[test]
fn test_balance_consistency() {
    let orders = [
        TransferOrder { src: 1, dst: 2, amount: 50 },
        TransferOrder { src: 2, dst: 3, amount: 80 },
        TransferOrder { src: 3, dst: 1, amount: 30 },
    ];
    let all = run_bank(&[100, 200, 300], &orders).unwrap();
    assert_eq!(last_balance(&all, 1), 80);
    assert_eq!(last_balance(&all, 2), 170);
    assert_eq!(last_balance(&all, 3), 350);
    let total: i64 = all.histories.iter().map(|h| h.states.last().unwrap().balance).sum();
    assert_eq!(total, 600);
}

#[test]
fn test_cross_branch_transfer() {
    let orders = [
        TransferOrder { src: 1, dst: 2, amount: 10 },
        TransferOrder { src: 3, dst: 4, amount: 5 },
        TransferOrder { src: 2, dst: 3, amount: 20 },
        TransferOrder { src: 4, dst: 1, amount: 5 },
    ];
    let all = run_bank(&[40, 30, 20, 10], &orders).unwrap();
    assert_eq!(last_balance(&all, 1), 35);
    assert_eq!(last_balance(&all, 2), 20);
    assert_eq!(last_balance(&all, 3), 35);
    assert_eq!(last_balance(&all, 4), 10);
    let total: i64 = all.histories.iter().map(|h| h.states.last().unwrap().balance).sum();
    assert_eq!(total, 100);
    for h in &all.histories {
        assert!(h.states.len() >= 2, "进程 {} 的历史应至少有初始和保护操作记录", h.id);
        for w in h.states.windows(2) {
            assert!(w[1].time >= w[0].time, "进程 {} 时间不应倒退", h.id);
        }
    }
}

#[test]
fn test_banking_child_transfer_and_stop() {
    let mut branch = BankingBranch::new(1, 100);
    let order = TransferOrder { src: 1, dst: 1, amount: 20 };
    let reply = branch.handle(Message::Transfer(order.to_bytes())).expect("应处理 TRANSFER");
    assert_eq!(reply.messages.len(), 2);
    assert!(matches!(reply.messages[0], Message::Transfer(_)), "src 应转发 TRANSFER");
    assert_eq!(reply.messages[1], Message::Ack, "dst 应回复 ACK");
    assert!(!reply.finished);

    let reply = branch.handle(Message::Stop).expect("应处理 STOP");
    assert!(reply.finished);
    assert_eq!(reply.messages[0], Message::Done, "子进程应发送 DONE");
    match &reply.messages[1] {
        Message::BalanceHistory(bytes) => {
            let history = BalanceHistory::from_bytes(bytes).expect("解析 BALANCE_HISTORY 应成功");
            assert_eq!(history.id, 1);
            assert_eq!(history.states.last().unwrap().balance, 100, "amount=0 转账后余额应不变");
        }
        other => panic!("子进程应发送 BALANCE_HISTORY, got {}", other.to_display_string()),
    }
}

#[test]
fn test_banking_parent_work_transfers() {
    let all = run_bank(&[100, 50], &[TransferOrder { src: 1, dst: 2, amount: 30 }]).unwrap();
    assert_eq!(all.histories[0].states.last().unwrap().balance, 70, "P1 扣款后应为 70");
    assert_eq!(all.histories[1].states.last().unwrap().balance, 80, "P2 入账后应为 80");
}

#[test]
fn branch_relays_the_payload_it_received() {
    let mut src = BankingBranch::new(1, 100);
    let mut dst = BankingBranch::new(2, 50);
    let payload = TransferOrder { src: 1, dst: 2, amount: 30 }.to_bytes();
    let reply = src.handle(Message::Transfer(payload.clone())).unwrap();
    assert_eq!(reply.messages, vec![Message::Transfer(payload.clone())]);
    let reply = dst.handle(reply.messages[0].clone()).unwrap();
    assert_eq!(reply.messages, vec![Message::Ack]);
    assert_eq!(src.account().current_balance(), 70);
    assert_eq!(dst.account().current_balance(), 80);
    assert_eq!(src.account().history.states[1].time, 0);
}

#[test]
fn branch_ignores_other_orders_and_messages() {
    let mut branch = BankingBranch::new(3, 10);
    let payload = TransferOrder { src: 1, dst: 2, amount: 5 }.to_bytes();
    let reply = branch.handle(Message::Transfer(payload)).unwrap();
    assert!(reply.messages.is_empty());
    let reply = branch.handle(Message::Data(vec![1])).unwrap();
    assert!(reply.messages.is_empty());
    assert!(!reply.finished);
    assert_eq!(branch.account().current_balance(), 10);
}

#[test]
fn branch_errors() {
    let mut branch = BankingBranch::new(1, 10);
    assert_eq!(branch.handle(Message::Transfer(vec![1, 2, 3])).unwrap_err(), BranchError::BadOrder);
    let too_much = TransferOrder { src: 1, dst: 2, amount: 11 }.to_bytes();
    assert_eq!(
        branch.handle(Message::Transfer(too_much)).unwrap_err(),
        BranchError::Refused(AccountError::InsufficientFunds { account_id: 1, balance: 10, required: 11 })
    );
    let zero = TransferOrder { src: 2, dst: 1, amount: 0 }.to_bytes();
    assert_eq!(
        branch.handle(Message::Transfer(zero)).unwrap_err(),
        BranchError::Refused(AccountError::InvalidAmount(0))
    );
    let mut rich = BankingBranch::new(2, i64::MAX);
    let more = TransferOrder { src: 1, dst: 2, amount: 1 }.to_bytes();
    assert_eq!(rich.handle(Message::Transfer(more)).unwrap_err(), BranchError::Overflow);
    assert_eq!(branch.account().current_balance(), 10);
}

#[test]
fn test_transfer_same_account() {
    let (src_idx, dst_idx, msg) = transfer_request(1, 1, 100);
    assert_eq!((src_idx, dst_idx), (0, 0));
    assert!(matches!(msg, Message::Transfer(_)));
    let mut branch = BankingBranch::new(1, 100);
    let reply = branch.handle(msg).expect("子进程应收到 TRANSFER");
    let ack = reply.messages.last().unwrap();
    transfer_outcome(ack).expect("同账户转账应成功");
}

#[test]
fn test_transfer_cross_account() {
    let (src_idx, dst_idx, msg) = transfer_request(1, 2, 100);
    assert_eq!((src_idx, dst_idx), (0, 1));
    assert_eq!(msg, Message::Transfer(TransferOrder { src: 1, dst: 2, amount: 100 }.to_bytes()));
    assert!(matches!(msg, Message::Transfer(_)));
    transfer_outcome(&Message::Ack).expect("跨账户转账应成功");
}

#[test]
fn test_transfer_unexpected_response() {
    let result = transfer_outcome(&Message::Done);
    assert!(result.is_err());
    match result {
        Err(BankingError::ProtocolError(msg)) => {
            assert!(msg.contains("expected ACK"));
            assert_eq!(msg, "expected ACK, got DONE");
        }
        _ => panic!("预期 ProtocolError"),
    }
}

fn run_sync(children: usize) -> Vec<(usize, Message)> {
    let mut sync = ParentSync::new(children);
    let mut sent = Vec::new();
    loop {
        match sync.next_action() {
            SyncAction::Receive(_) => {
                let msg = if sync.phase() == SyncPhase::AwaitStarted { Message::Started } else { Message::Done };
                sync.on_received(&msg).expect("子进程消息应符合预期");
            }
            SyncAction::Send(i, msg) => {
                sent.push((i, msg));
                sync.on_sent();
            }
            SyncAction::Finish => break,
        }
    }
    sent
}

#[test]
fn test_process_start_sync_single_child() {
    let sent = run_sync(1);
    assert_eq!(sent, vec![(0, Message::Data(vec![1]))]);
}

#[test]
fn test_process_start_sync_multiple_children() {
    let sent = run_sync(3);
    assert_eq!(
        sent,
        vec![(0, Message::Data(vec![1])), (1, Message::Data(vec![2])), (2, Message::Data(vec![3]))]
    );
}

#[test]
fn coordinator_setup_checks() {
    let none = BankingCoordinator::new(0, &[], &[TransferOrder { src: 5, dst: 6, amount: 1 }]).unwrap();
    assert_eq!(none.phase(), BankPhase::Complete);
    assert_eq!(none.into_histories(), AllHistory::new());
    match BankingCoordinator::new(10, &[0; 10], &[]) {
        Err(BankingError::ProtocolError(s)) => assert_eq!(s, "子进程数量不能超过 9 (ITMO 限制)"),
        _ => panic!("more than nine children must be refused"),
    }
    match BankingCoordinator::new(2, &[1], &[]) {
        Err(BankingError::ProtocolError(s)) => assert_eq!(s, "初始余额数量应等于子进程数量"),
        _ => panic!("a balance per child is needed"),
    }
    match BankingCoordinator::new(2, &[1, 2], &[TransferOrder { src: 1, dst: 3, amount: 1 }]) {
        Err(BankingError::AccountNotFound(id)) => assert_eq!(id, 3),
        _ => panic!("an order to a missing branch must be refused"),
    }
    let all = run_bank(&[5, 6], &[]).unwrap();
    assert_eq!(last_balance(&all, 1), 5);
    assert_eq!(last_balance(&all, 2), 6);
}

#[test]
fn coordinator_refuses_unexpected_messages() {
    let mut c = BankingCoordinator::new(1, &[7], &[]).unwrap();
    match c.on_received(Message::Done) {
        Err(BankingError::ProtocolError(s)) => assert_eq!(s, "expected Started, but got DONE"),
        _ => panic!("DONE before STARTED must be refused"),
    }
    assert_eq!(c.phase(), BankPhase::AwaitStarted);
    c.on_received(Message::Started).unwrap();
    assert_eq!(c.phase(), BankPhase::SendStop);
    c.on_sent();
    c.on_received(Message::Done).unwrap();
    match c.on_received(Message::BalanceHistory(vec![1])) {
        Err(BankingError::SerializationError(s)) => assert_eq!(s, "长度不匹配"),
        _ => panic!("a bad history must be refused"),
    }
    assert_eq!(c.phase(), BankPhase::AwaitHistory);
}

#[test]
fn banking_error_display_texts() {
    assert_eq!(BankingError::AccountNotFound(4).to_display_string(), "账户未找到: 4");
    assert_eq!(
        BankingError::InsufficientFunds { account: 2, balance: -1, required: 5 }.to_display_string(),
        "账户 2 余额不足: 现有 -1，需要 5"
    );
    assert_eq!(BankingError::ProtocolError("x".to_string()).to_display_string(), "协议错误: x");
    assert_eq!(BankingError::NetworkError("y".to_string()).to_display_string(), "网络错误: y");
    assert_eq!(BankingError::SerializationError("z".to_string()).to_display_string(), "序列化错误: z");
}

#[test]
fn parent_sync_schedule() {
    let mut sync = ParentSync::new(2);
    let mut log: Vec<String> = Vec::new();
    loop {
        match sync.next_action() {
            SyncAction::Receive(i) => {
                log.push(format!("recv {i}"));
                let msg = if sync.phase() == SyncPhase::AwaitStarted { Message::Started } else { Message::Done };
                sync.on_received(&msg).unwrap();
            }
            SyncAction::Send(i, msg) => {
                assert_eq!(msg, Message::Data(vec![i as u8 + 1]));
                log.push(format!("send {i}"));
                sync.on_sent();
            }
            SyncAction::Finish => break,
        }
    }
    assert_eq!(log, vec!["recv 0", "recv 1", "send 0", "send 1", "recv 0", "recv 1"]);
}

#[test]
fn parent_sync_refuses_wrong_message() {
    let mut sync = ParentSync::new(1);
    assert_eq!(sync.on_received(&Message::Done).unwrap_err(), "expected Started, but got DONE");
    assert_eq!(sync.phase(), SyncPhase::AwaitStarted);
    let mut empty = ParentSync::new(0);
    assert!(matches!(empty.next_action(), SyncAction::Finish));
    assert_eq!(empty.phase(), SyncPhase::Complete);
    let _ = &mut empty;
}

/// Counts the coordinator's steps until it finishes.
fn count_steps(balances: &[Balance], orders: &[TransferOrder]) -> usize {
    let mut branches: Vec<BankingBranch> = balances
        .iter()
        .enumerate()
        .map(|(i, b)| BankingBranch::new((i + 1) as u8, *b))
        .collect();
    let mut inbox: Vec<VecDeque<Message>> =
        balances.iter().map(|_| VecDeque::from(vec![Message::Started])).collect();
    let mut coordinator = BankingCoordinator::new(balances.len(), balances, orders).unwrap();
    let mut steps = 0;
    loop {
        match coordinator.next_action() {
            SyncAction::Receive(i) => {
                coordinator.on_received(inbox[i].pop_front().unwrap()).unwrap();
            }
            SyncAction::Send(i, msg) => {
                inbox[i].extend(branches[i].handle(msg).unwrap().messages);
                coordinator.on_sent();
            }
            SyncAction::Finish => break,
        }
        steps += 1;
    }
    steps
}

#[test]
fn bank_run_takes_four_steps_per_branch_and_per_order() {
    assert_eq!(count_steps(&[100, 50], &[TransferOrder { src: 1, dst: 2, amount: 30 }]), 4 * 2 + 4);
    assert_eq!(count_steps(&[100], &[TransferOrder { src: 1, dst: 1, amount: 20 }]), 4 + 3);
    assert_eq!(count_steps(&[1, 2, 3], &[]), 12);
}
