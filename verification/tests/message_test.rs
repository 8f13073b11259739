use crab_keeper::communication::{frame_length, frame_message, Message};

#[test]
fn test_message_serialization_roundtrip_started() {
    let msg = Message::Started;
    let bytes = msg.to_bytes();
    let decoded = Message::from_bytes(&bytes).expect("STARTED 反序列化应成功");
    assert_eq!(msg, decoded, "STARTED 往返序列化应保持不变");
    assert_eq!(bytes[0], 0x00, "STARTED 的 tag 应为 0x00");
}

#[test]
fn test_message_serialization_roundtrip_done() {
    let msg = Message::Done;
    let bytes = msg.to_bytes();
    let decoded = Message::from_bytes(&bytes).expect("DONE 反序列化应成功");
    assert_eq!(msg, decoded, "DONE 往返序列化应保持不变");
    assert_eq!(bytes[0], 0x01, "DONE 的 tag 应为 0x01");
}

#[test]
fn test_message_serialization_roundtrip_data() {
    let payload = b"hello, distributed world!".to_vec();
    let msg = Message::Data(payload.clone());
    let bytes = msg.to_bytes();
    let decoded = Message::from_bytes(&bytes).expect("DATA 反序列化应成功");
    assert_eq!(msg, decoded, "DATA 往返序列化应保持不变");
}

#[test]
fn test_message_serialization_empty_data() {
    let msg = Message::Data(vec![]);
    let bytes = msg.to_bytes();
    let decoded = Message::from_bytes(&bytes).expect("空 DATA 反序列化应成功");
    assert_eq!(msg, decoded);
}

#[test]
fn test_message_from_bytes_invalid_tag() {
    let bytes = vec![0xFF, 0, 0, 0, 0, 0, 0, 0, 0];
    let result = Message::from_bytes(&bytes);
    assert!(result.is_err(), "非法 tag 应返回错误");
}

#[test]
fn test_message_from_bytes_too_short() {
    let bytes = vec![0x00, 0, 0];
    let result = Message::from_bytes(&bytes);
    assert!(result.is_err(), "字节流过短应返回错误");
}

#[test]
fn test_message_from_bytes_payload_len_mismatch() {
    let len_bytes = 5u64.to_be_bytes();
    let mut bytes = vec![0x02];
    bytes.extend_from_slice(&len_bytes);
    let result = Message::from_bytes(&bytes);
    assert!(result.is_err(), "payload 长度不匹配应返回错误");
}

#[test]
fn message_exact_encodings() {
    assert_eq!(Message::Started.to_bytes(), vec![0x00, 0, 0, 0, 0, 0, 0, 0, 0]);
    assert_eq!(Message::Done.to_bytes(), vec![0x01, 0, 0, 0, 0, 0, 0, 0, 0]);
    assert_eq!(
        Message::Data(b"hi".to_vec()).to_bytes(),
        vec![0x02, 0, 0, 0, 0, 0, 0, 0, 2, b'h', b'i']
    );
    assert_eq!(Message::Ack.to_bytes()[0], 0x03);
    assert_eq!(Message::Stop.to_bytes()[0], 0x04);
    assert_eq!(Message::Transfer(vec![1]).to_bytes(), vec![0x05, 0, 0, 0, 0, 0, 0, 0, 1, 1]);
    assert_eq!(Message::BalanceHistory(vec![]).to_bytes()[0], 0x06);
}

#[test]
fn every_message_kind_roundtrips() {
    let all = vec![
        Message::Started,
        Message::Done,
        Message::Data(vec![1, 2, 3]),
        Message::Ack,
        Message::Stop,
        Message::Transfer(vec![1, 2, 0, 0, 0, 0, 0, 0, 0, 30]),
        Message::BalanceHistory(vec![9; 40]),
    ];
    for msg in all {
        assert_eq!(Message::from_bytes(&msg.to_bytes()).unwrap(), msg);
    }
}

#[test]
fn message_error_texts() {
    assert_eq!(Message::from_bytes(&[0, 0]).unwrap_err(), "消息太短");
    assert_eq!(
        Message::from_bytes(&[2, 0, 0, 0, 0, 0, 0, 0, 1]).unwrap_err(),
        "消息长度不匹配"
    );
    assert_eq!(
        Message::from_bytes(&[0, 0, 0, 0, 0, 0, 0, 0, 1, 7]).unwrap_err(),
        "STARTED 消息长度必须为 0"
    );
    assert_eq!(
        Message::from_bytes(&[1, 0, 0, 0, 0, 0, 0, 0, 1, 7]).unwrap_err(),
        "DONE 消息长度必须为 0"
    );
    assert_eq!(
        Message::from_bytes(&[3, 0, 0, 0, 0, 0, 0, 0, 1, 7]).unwrap_err(),
        "ACK 消息长度必须为 0"
    );
    assert_eq!(
        Message::from_bytes(&[4, 0, 0, 0, 0, 0, 0, 0, 1, 7]).unwrap_err(),
        "STOP 消息长度必须为 0"
    );
    assert_eq!(
        Message::from_bytes(&[0xFF, 0, 0, 0, 0, 0, 0, 0, 0]).unwrap_err(),
        "未知 tag: 0xFF"
    );
    assert_eq!(
        Message::from_bytes(&[0x0A, 0, 0, 0, 0, 0, 0, 0, 0]).unwrap_err(),
        "未知 tag: 0x0A"
    );
}

#[test]
fn message_display_texts() {
    assert_eq!(Message::Started.to_display_string(), "STARTED");
    assert_eq!(Message::Done.to_display_string(), "DONE");
    assert_eq!(Message::Data(b"hello".to_vec()).to_display_string(), "DATA(5B)");
    assert_eq!(Message::Ack.to_display_string(), "ACK");
    assert_eq!(Message::Stop.to_display_string(), "STOP");
    assert_eq!(Message::Transfer(vec![0; 10]).to_display_string(), "TRANSFER(10B)");
    assert_eq!(Message::BalanceHistory(vec![]).to_display_string(), "BALANCE_HISTORY(0B)");
}

#[test]
fn frame_carries_length_then_message() {
    let msg = Message::Data(b"hello".to_vec());
    let frame = frame_message(&msg);
    assert_eq!(frame.len(), 8 + 9 + 5);
    let n = frame_length(&frame[0..8]);
    assert_eq!(n, 14);
    assert_eq!(Message::from_bytes(&frame[8..]).unwrap(), msg);
    let started = frame_message(&Message::Started);
    assert_eq!(frame_length(&started[0..8]), 9);
}

/// Reads the frames one after another from a byte stream.
fn read_frames(mut stream: &[u8]) -> Vec<Message> {
    let mut out = Vec::new();
    while !stream.is_empty() {
        let n = frame_length(&stream[0..8]) as usize;
        out.push(Message::from_bytes(&stream[8..8 + n]).expect("接收应成功"));
        stream = &stream[8 + n..];
    }
    out
}

#[test]
fn test_send_recv_single_message() {
    let wire = frame_message(&Message::Started);
    let received = read_frames(&wire);
    assert_eq!(received, vec![Message::Started]);
}

#[test]
fn test_send_recv_multiple_messages() {
    let mut wire = frame_message(&Message::Started);
    wire.extend(frame_message(&Message::Data(b"hello".to_vec())));
    wire.extend(frame_message(&Message::Done));
    let received = read_frames(&wire);
    assert_eq!(received[0], Message::Started);
    assert_eq!(received[1], Message::Data(b"hello".to_vec()));
    assert_eq!(received[2], Message::Done);
}
