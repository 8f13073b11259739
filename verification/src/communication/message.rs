use vstd::prelude::*;
use crate::banking::types::append_bytes;
use crate::codec::{
    be_bytes, be_value, get_u64_be, lemma_be_roundtrip, lemma_be_value_bytes, lemma_pow256_8, push_u64_be,
};
use crate::text::{decimal, hex_byte, push_decimal, push_hex_byte};

verus! {

/// Messages exchanged between the processes.
///
/// Encoding: `tag(1) payload_len(8, big-endian) payload`, with tags
/// `0x00` STARTED, `0x01` DONE, `0x02` DATA, `0x03` ACK, `0x04` STOP,
/// `0x05` TRANSFER, `0x06` BALANCE_HISTORY. Only DATA, TRANSFER and
/// BALANCE_HISTORY carry a payload.
#[derive(Debug, Clone, PartialEq, Eq)]
pub enum Message {
    /// The child has started and is ready (child to parent).
    Started,
    /// The child has finished its work (child to parent).
    Done,
    /// Arbitrary data (both ways).
    Data(Vec<u8>),
    /// The destination of a transfer has credited the amount.
    Ack,
    /// No more transfers: the child reports and ends.
    Stop,
    /// An encoded `TransferOrder`.
    Transfer(Vec<u8>),
    /// An encoded `BalanceHistory`.
    BalanceHistory(Vec<u8>),
}

/// A message as a mathematical value.
pub enum MessageView {
    Started,
    Done,
    Data(Seq<u8>),
    Ack,
    Stop,
    Transfer(Seq<u8>),
    BalanceHistory(Seq<u8>),
}

impl View for Message {
    type V = MessageView;

    open spec fn view(&self) -> MessageView {
        match self {
            Message::Started => MessageView::Started,
            Message::Done => MessageView::Done,
            Message::Data(p) => MessageView::Data(p@),
            Message::Ack => MessageView::Ack,
            Message::Stop => MessageView::Stop,
            Message::Transfer(p) => MessageView::Transfer(p@),
            Message::BalanceHistory(p) => MessageView::BalanceHistory(p@),
        }
    }
}

/// The tag byte of a message.
pub open spec fn tag_of(m: MessageView) -> u8 {
    match m {
        MessageView::Started => 0x00,
        MessageView::Done => 0x01,
        MessageView::Data(_) => 0x02,
        MessageView::Ack => 0x03,
        MessageView::Stop => 0x04,
        MessageView::Transfer(_) => 0x05,
        MessageView::BalanceHistory(_) => 0x06,
    }
}

/// The payload of a message (empty for the messages that carry none).
pub open spec fn payload_of(m: MessageView) -> Seq<u8> {
    match m {
        MessageView::Data(p) => p,
        MessageView::Transfer(p) => p,
        MessageView::BalanceHistory(p) => p,
        _ => Seq::empty(),
    }
}

/// `tag(1) payload_len(8, big-endian) payload`.
pub open spec fn message_bytes(m: MessageView) -> Seq<u8> {
    seq![tag_of(m)] + be_bytes(payload_of(m).len(), 8) + payload_of(m)
}

/// The payload length that the header declares.
pub open spec fn declared_len(b: Seq<u8>) -> nat {
    be_value(b.subrange(1, 9))
}

/// The message that bytes denote: at least the 9-byte header, exactly as many
/// payload bytes as declared, a known tag, and no payload where the tag carries none.
pub open spec fn parse_message(b: Seq<u8>) -> Option<MessageView> {
    if b.len() < 9 || b.len() - 9 != declared_len(b) {
        None
    } else {
        let p = b.skip(9);
        let empty = declared_len(b) == 0;
        if b[0] == 0x00 {
            if empty { Some(MessageView::Started) } else { None }
        } else if b[0] == 0x01 {
            if empty { Some(MessageView::Done) } else { None }
        } else if b[0] == 0x02 {
            Some(MessageView::Data(p))
        } else if b[0] == 0x03 {
            if empty { Some(MessageView::Ack) } else { None }
        } else if b[0] == 0x04 {
            if empty { Some(MessageView::Stop) } else { None }
        } else if b[0] == 0x05 {
            Some(MessageView::Transfer(p))
        } else if b[0] == 0x06 {
            Some(MessageView::BalanceHistory(p))
        } else {
            None
        }
    }
}

/// The error text for bytes that `parse_message` refuses.
pub open spec fn message_error(b: Seq<u8>) -> Seq<char> {
    if b.len() < 9 {
        "消息太短"@
    } else if b.len() - 9 != declared_len(b) {
        "消息长度不匹配"@
    } else if b[0] == 0x00 {
        "STARTED 消息长度必须为 0"@
    } else if b[0] == 0x01 {
        "DONE 消息长度必须为 0"@
    } else if b[0] == 0x03 {
        "ACK 消息长度必须为 0"@
    } else if b[0] == 0x04 {
        "STOP 消息长度必须为 0"@
    } else {
        "未知 tag: 0x"@ + hex_byte(b[0])
    }
}

/// The name under which a message is shown, with the payload size where it has one.
pub open spec fn message_text(m: MessageView) -> Seq<char> {
    match m {
        MessageView::Started => "STARTED"@,
        MessageView::Done => "DONE"@,
        MessageView::Data(p) => "DATA("@ + decimal(p.len()) + "B)"@,
        MessageView::Ack => "ACK"@,
        MessageView::Stop => "STOP"@,
        MessageView::Transfer(p) => "TRANSFER("@ + decimal(p.len()) + "B)"@,
        MessageView::BalanceHistory(p) => "BALANCE_HISTORY("@ + decimal(p.len()) + "B)"@,
    }
}

/// A message is its 9-byte header plus its payload.
pub proof fn lemma_message_bytes_len(m: MessageView)
    requires
        payload_of(m).len() < 0x1_0000_0000_0000_0000,
    ensures
        message_bytes(m).len() == 9 + payload_of(m).len(),
{
    lemma_pow256_8();
    lemma_be_roundtrip(payload_of(m).len(), 8);
}

/// Every message survives encoding and decoding unchanged.
pub proof fn lemma_message_roundtrip(m: MessageView)
    requires
        payload_of(m).len() < 0x1_0000_0000_0000_0000,
    ensures
        parse_message(message_bytes(m)) == Some(m),
{
    let p = payload_of(m);
    let b = message_bytes(m);
    lemma_pow256_8();
    lemma_be_roundtrip(p.len(), 8);
    assert(b.subrange(1, 9) =~= be_bytes(p.len(), 8));
    assert(b.skip(9) =~= p);
    assert(b[0] == tag_of(m));
}

/// The encoding is canonical: bytes that decode to a message are that message's encoding.
pub proof fn lemma_message_canonical(b: Seq<u8>)
    requires
        parse_message(b) is Some,
    ensures
        message_bytes(parse_message(b)->0) == b,
{
    let m = parse_message(b)->0;
    lemma_be_value_bytes(b.subrange(1, 9));
    assert(payload_of(m) =~= b.skip(9));
    assert(message_bytes(m) =~= b);
}

impl Message {
    /// The tag byte, followed by the payload length (8 bytes, big-endian) and the payload.
    pub fn to_bytes(&self) -> (out: Vec<u8>)
        ensures
            out@ == message_bytes(self@),
    {
        let mut buf: Vec<u8> = Vec::new();
        match self {
            Message::Started => {
                buf.push(0x00);
                push_u64_be(&mut buf, 0);
            },
            Message::Done => {
                buf.push(0x01);
                push_u64_be(&mut buf, 0);
            },
            Message::Ack => {
                buf.push(0x03);
                push_u64_be(&mut buf, 0);
            },
            Message::Stop => {
                buf.push(0x04);
                push_u64_be(&mut buf, 0);
            },
            Message::Data(payload) => {
                buf.push(0x02);
                push_u64_be(&mut buf, payload.len() as u64);
                append_bytes(&mut buf, payload.as_slice());
            },
            Message::Transfer(payload) => {
                buf.push(0x05);
                push_u64_be(&mut buf, payload.len() as u64);
                append_bytes(&mut buf, payload.as_slice());
            },
            Message::BalanceHistory(payload) => {
                buf.push(0x06);
                push_u64_be(&mut buf, payload.len() as u64);
                append_bytes(&mut buf, payload.as_slice());
            },
        }
        proof {
            assert(buf@ =~= message_bytes(self@));
        }
        buf
    }

    /// Decode one message; see `parse_message` for what is accepted and
    /// `message_error` for the error text of what is not.
    pub fn from_bytes(bytes: &[u8]) -> (r: Result<Self, String>)
        ensures
            match r {
                Ok(m) => parse_message(bytes@) == Some(m@),
                Err(e) => parse_message(bytes@) is None && e@ == message_error(bytes@),
            },
    {
        if bytes.len() < 9 {
            return Err(String::from_str("消息太短"));
        }
        let tag: u8 = bytes[0];
        let payload_len: u64 = get_u64_be(bytes, 1);
        if (bytes.len() - 9) as u64 != payload_len {
            return Err(String::from_str("消息长度不匹配"));
        }
        let ghost p = bytes@.skip(9);
        if tag == 0x00 {
            if payload_len != 0 {
                return Err(String::from_str("STARTED 消息长度必须为 0"));
            }
            Ok(Message::Started)
        } else if tag == 0x01 {
            if payload_len != 0 {
                return Err(String::from_str("DONE 消息长度必须为 0"));
            }
            Ok(Message::Done)
        } else if tag == 0x02 {
            let payload = copy_payload(bytes);
            Ok(Message::Data(payload))
        } else if tag == 0x03 {
            if payload_len != 0 {
                return Err(String::from_str("ACK 消息长度必须为 0"));
            }
            Ok(Message::Ack)
        } else if tag == 0x04 {
            if payload_len != 0 {
                return Err(String::from_str("STOP 消息长度必须为 0"));
            }
            Ok(Message::Stop)
        } else if tag == 0x05 {
            let payload = copy_payload(bytes);
            Ok(Message::Transfer(payload))
        } else if tag == 0x06 {
            let payload = copy_payload(bytes);
            Ok(Message::BalanceHistory(payload))
        } else {
            let mut e = String::from_str("未知 tag: 0x");
            push_hex_byte(&mut e, tag);
            Err(e)
        }
    }

    /// The text under which the message is shown, such as `STARTED` or `DATA(5B)`.
    pub fn to_display_string(&self) -> (s: String)
        ensures
            s@ == message_text(self@),
    {
        match self {
            Message::Started => String::from_str("STARTED"),
            Message::Done => String::from_str("DONE"),
            Message::Ack => String::from_str("ACK"),
            Message::Stop => String::from_str("STOP"),
            Message::Data(p) => sized_text("DATA(", p.len()),
            Message::Transfer(p) => sized_text("TRANSFER(", p.len()),
            Message::BalanceHistory(p) => sized_text("BALANCE_HISTORY(", p.len()),
        }
    }
}

fn sized_text(prefix: &str, n: usize) -> (s: String)
    ensures
        s@ == prefix@ + decimal(n as nat) + "B)"@,
{
    let mut s = String::from_str(prefix);
    push_decimal(&mut s, n as u64);
    s.append("B)");
    s
}

fn copy_payload(bytes: &[u8]) -> (p: Vec<u8>)
    requires
        bytes@.len() >= 9,
    ensures
        p@ == bytes@.skip(9),
{
    let mut p: Vec<u8> = Vec::new();
    append_bytes(&mut p, &bytes[9..bytes.len()]);
    proof { assert(p@ =~= bytes@.skip(9)); }
    p
}

} // verus!
