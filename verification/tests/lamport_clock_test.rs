use crab_keeper::lamport_clock;
use crab_keeper::lamport_clock::LamportClock;

#[test]
fn test_clock_starts_at_zero() {
    let clock = LamportClock::new();
    assert_eq!(clock.get(), 0, "时钟初始值应为 0");
}

#[test]
fn test_clock_increment_basic() {
    let mut clock = LamportClock::new();
    assert_eq!(clock.increment(), 1, "第一次 increment 应返回 1");
    assert_eq!(clock.increment(), 2, "第二次 increment 应返回 2");
    assert_eq!(clock.increment(), 3, "第三次 increment 应返回 3");
    assert_eq!(clock.get(), 3, "get() 应反映当前值");
}

#[test]
fn test_clock_increment_multiple() {
    let mut clock = LamportClock::new();
    for expected in 1..=10 {
        assert_eq!(clock.increment(), expected, "第 {expected} 次 increment 应返回 {expected}");
    }
    assert_eq!(clock.get(), 10);
}

#[test]
fn test_clock_update_received_larger() {
    let mut clock = LamportClock::new();
    for _ in 0..3 {
        clock.increment();
    }
    assert_eq!(clock.get(), 3);
    assert_eq!(clock.update(7), 8, "应同步到 max(3,7)+1 = 8");
    assert_eq!(clock.get(), 8);
}

#[test]
fn test_clock_update_received_smaller() {
    let mut clock = LamportClock::new();
    clock.set(10);
    assert_eq!(clock.update(2), 11, "应保持本地进度 max(10,2)+1 = 11");
    assert_eq!(clock.get(), 11);
}

#[test]
fn test_clock_update_received_equal() {
    let mut clock = LamportClock::new();
    clock.set(5);
    assert_eq!(clock.update(5), 6, "应返回 max(5,5)+1 = 6");
    assert_eq!(clock.get(), 6);
}

#[test]
fn test_clock_get_does_not_modify() {
    let mut clock = LamportClock::new();
    clock.set(42);
    let val1 = clock.get();
    let val2 = clock.get();
    let val3 = clock.get();
    assert_eq!(val1, 42);
    assert_eq!(val2, 42);
    assert_eq!(val3, 42);
    assert_eq!(clock.get(), 42, "get() 多次调用应返回相同值");
}

#[test]
fn test_clock_reset() {
    let mut clock = LamportClock::new();
    clock.set(99);
    assert_eq!(clock.get(), 99);
    clock.reset();
    assert_eq!(clock.get(), 0, "reset 后时钟应为 0");
    assert_eq!(clock.increment(), 1);
}

#[test]
fn test_clock_set() {
    let mut clock = LamportClock::new();
    clock.set(7);
    assert_eq!(clock.get(), 7);
    clock.set(0);
    assert_eq!(clock.get(), 0);
    clock.set(u64::MAX);
    assert_eq!(clock.get(), u64::MAX);
}

#[test]
fn test_clock_default() {
    let clock: LamportClock = Default::default();
    assert_eq!(clock.get(), 0);
    assert_eq!(LamportClock::default(), LamportClock::new());
}

#[test]
fn test_is_transfer_complete_both_positive() {
    assert!(lamport_clock::is_transfer_complete(1, 2), "双方均已操作 → 完成");
    assert!(lamport_clock::is_transfer_complete(5, 3), "双方均已操作 → 完成（recv 可早于 send");
}

#[test]
fn test_is_transfer_complete_send_zero() {
    assert!(!lamport_clock::is_transfer_complete(0, 5), "send_time=0 → 未完成");
}

#[test]
fn test_is_transfer_complete_recv_zero() {
    assert!(!lamport_clock::is_transfer_complete(3, 0), "recv_time=0 → 未完成");
}

#[test]
fn test_is_transfer_complete_both_zero() {
    assert!(!lamport_clock::is_transfer_complete(0, 0), "双方均为 0 → 未完成");
}

#[test]
fn test_send_before_receive_ordering() {
    let mut sender_clock = LamportClock::new();
    sender_clock.increment();
    sender_clock.increment();
    sender_clock.increment();
    sender_clock.increment();
    let send_time = sender_clock.increment();
    assert_eq!(send_time, 5);

    let mut receiver_clock = LamportClock::new();
    receiver_clock.increment();
    receiver_clock.increment();
    let recv_time_before = receiver_clock.increment();
    assert_eq!(recv_time_before, 3);

    let recv_time = receiver_clock.update(send_time);
    assert_eq!(recv_time, 6, "接收事件时间戳应为 6");
    assert!(send_time < recv_time, "发送事件 ({send_time}) 应早于接收事件 ({recv_time})");
}

#[test]
fn test_clock_display() {
    let mut clock = LamportClock::new();
    clock.increment();
    assert_eq!(clock.to_display_string(), "LamportClock(1)");

    clock.set(42);
    assert_eq!(clock.to_display_string(), "LamportClock(42)");
}

#[test]
fn test_logical_clock_increment() {
    let mut clock = LamportClock::new();
    assert_eq!(clock.get(), 0, "初始值为 0");

    let events: Vec<u64> = (0..5).map(|_| clock.increment()).collect();
    assert_eq!(events, vec![1, 2, 3, 4, 5], "每次 event 应递增 1");
    assert_eq!(clock.get(), 5);

    for w in events.windows(2) {
        assert!(w[1] > w[0], "时间戳应严格递增");
    }
}

#[test]
fn test_event_timestamp_ordering() {
    let mut sender_clock = LamportClock::new();
    let _e1 = sender_clock.increment();
    let _e2 = sender_clock.increment();
    let _e3 = sender_clock.increment();
    let send_time = sender_clock.increment();
    assert_eq!(send_time, 4);

    let mut receiver_clock = LamportClock::new();
    let _e1r = receiver_clock.increment();
    let _e2r = receiver_clock.increment();

    let recv_time = receiver_clock.update(send_time);
    assert_eq!(recv_time, 5, "max(2,4)+1 = 5");
    assert!(send_time < recv_time, "发送事件 ({send_time}) 应严格早于接收事件 ({recv_time})");

    assert_eq!(receiver_clock.increment(), 6);
    assert_eq!(receiver_clock.increment(), 7);
}

#[test]
fn test_clock_sync_on_receive() {
    {
        let mut local = LamportClock::new();
        for _ in 0..3 {
            local.increment();
        }
        assert_eq!(local.get(), 3);
        assert_eq!(local.update(10), 11, "max(3,10)+1 = 11");
        assert_eq!(local.get(), 11);
    }
    {
        let mut local = LamportClock::new();
        local.set(20);
        assert_eq!(local.update(5), 21, "max(20,5)+1 = 21（不应倒退）");
        assert_eq!(local.get(), 21);
    }
    {
        let mut local = LamportClock::new();
        local.set(7);
        assert_eq!(local.update(7), 8, "max(7,7)+1 = 8");
        assert_eq!(local.get(), 8);
    }
}

#[test]
fn clock_update_from_zero_jumps_past_sender() {
    let mut clock = LamportClock::new();
    assert_eq!(clock.update(0), 1);
    assert_eq!(clock.update(100), 101);
    assert_eq!(clock.to_display_string(), "LamportClock(101)");
}

#[test]
fn clock_display_of_zero_and_large_values() {
    let mut clock = LamportClock::new();
    assert_eq!(clock.to_display_string(), "LamportClock(0)");
    clock.set(u64::MAX);
    assert_eq!(clock.to_display_string(), "LamportClock(18446744073709551615)");
}
