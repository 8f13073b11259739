use vstd::prelude::*;
use crate::banking::types::{order_bytes, AccountId, Balance, TransferOrder};
use crate::communication::message::{message_text, Message, MessageView};
use crate::text::{decimal, push_decimal, push_signed_decimal, signed_decimal};

verus! {

/// Errors of the banking protocol.
#[derive(Debug)]
pub enum BankingError {
    AccountNotFound(AccountId),
    InsufficientFunds { account: AccountId, balance: Balance, required: Balance },
    ProtocolError(String),
    NetworkError(String),
    SerializationError(String),
}

/// The text under which a banking error is shown.
pub open spec fn banking_error_text(e: BankingError) -> Seq<char> {
    match e {
        BankingError::AccountNotFound(id) => "账户未找到: "@ + decimal(id as nat),
        BankingError::InsufficientFunds { account, balance, required } =>
            "账户 "@ + decimal(account as nat) + " 余额不足: 现有 "@ + signed_decimal(balance as int)
                + "，需要 "@ + signed_decimal(required as int),
        BankingError::ProtocolError(msg) => "协议错误: "@ + msg@,
        BankingError::NetworkError(msg) => "网络错误: "@ + msg@,
        BankingError::SerializationError(msg) => "序列化错误: "@ + msg@,
    }
}

impl BankingError {
    /// The text under which the error is shown.
    pub fn to_display_string(&self) -> (s: String)
        ensures
            s@ == banking_error_text(*self),
    {
        match self {
            BankingError::AccountNotFound(id) => {
                let mut s = String::from_str("账户未找到: ");
                push_decimal(&mut s, *id as u64);
                s
            },
            BankingError::InsufficientFunds { account, balance, required } => {
                let mut s = String::from_str("账户 ");
                push_decimal(&mut s, *account as u64);
                s.append(" 余额不足: 现有 ");
                push_signed_decimal(&mut s, *balance);
                s.append("，需要 ");
                push_signed_decimal(&mut s, *required);
                s
            },
            BankingError::ProtocolError(msg) => {
                let mut s = String::from_str("协议错误: ");
                s.append(msg.as_str());
                s
            },
            BankingError::NetworkError(msg) => {
                let mut s = String::from_str("网络错误: ");
                s.append(msg.as_str());
                s
            },
            BankingError::SerializationError(msg) => {
                let mut s = String::from_str("序列化错误: ");
                s.append(msg.as_str());
                s
            },
        }
    }
}

/// The request that starts a transfer: the index of the source branch's
/// connection, the index of the destination branch's connection (accounts are
/// 1-indexed, connections 0-indexed), and the TRANSFER message for the source.
pub fn transfer_request(src: AccountId, dst: AccountId, amount: Balance) -> (r: (usize, usize, Message))
    requires
        src >= 1,
        dst >= 1,
    ensures
        r.0 == src - 1,
        r.1 == dst - 1,
        r.2@ == MessageView::Transfer(order_bytes(TransferOrder { src, dst, amount })),
{
    let order = TransferOrder { src, dst, amount };
    let payload = order.to_bytes();
    ((src - 1) as usize, (dst - 1) as usize, Message::Transfer(payload))
}

/// The text of the error for a reply that is not ACK.
pub open spec fn unexpected_reply_text(reply: MessageView) -> Seq<char> {
    "expected ACK, got "@ + message_text(reply)
}

/// The outcome of a transfer, decided by the destination's reply: ACK completes
/// it, anything else is a protocol error.
pub fn transfer_outcome(reply: &Message) -> (r: Result<(), BankingError>)
    ensures
        reply@ is Ack ==> r is Ok,
        !(reply@ is Ack) ==> (r matches Err(BankingError::ProtocolError(s)) && s@ == unexpected_reply_text(reply@)),
{
    match reply {
        Message::Ack => Ok(()),
        other => {
            let mut s = String::from_str("expected ACK, got ");
            let shown = other.to_display_string();
            s.append(shown.as_str());
            Err(BankingError::ProtocolError(s))
        },
    }
}

} // verus!
