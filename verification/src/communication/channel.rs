use vstd::prelude::*;
use crate::banking::types::append_bytes;
use crate::codec::{get_u64_be, lemma_u64_roundtrip, push_u64_be, read_u64, u64_be};
use crate::communication::message::{
    lemma_message_bytes_len, lemma_message_roundtrip, message_bytes, parse_message, payload_of, Message,
    MessageView,
};

verus! {

/// A frame on the wire: the length of the encoded message (8 bytes,
/// big-endian), then the encoded message.
pub open spec fn frame_bytes(body: Seq<u8>) -> Seq<u8> {
    u64_be(body.len() as u64) + body
}

/// What a receiver reads back from a frame: the header declares the length
/// of the body, and the body decodes to the message that was framed.
pub proof fn lemma_frame_roundtrip(m: MessageView)
    requires
        payload_of(m).len() + 9 < 0x1_0000_0000_0000_0000,
    ensures
        read_u64(frame_bytes(message_bytes(m)).subrange(0, 8)) == message_bytes(m).len(),
        frame_bytes(message_bytes(m)).skip(8) == message_bytes(m),
        parse_message(frame_bytes(message_bytes(m)).skip(8)) == Some(m),
{
    let body = message_bytes(m);
    lemma_message_bytes_len(m);
    lemma_message_roundtrip(m);
    lemma_u64_roundtrip(body.len() as u64);
    assert(frame_bytes(body).subrange(0, 8) =~= u64_be(body.len() as u64));
    assert(frame_bytes(body).skip(8) =~= body);
}

/// The frames of several messages, one after another, as a sender writes them.
pub open spec fn frames_bytes(ms: Seq<MessageView>) -> Seq<u8>
    decreases ms.len(),
{
    if ms.len() == 0 {
        Seq::empty()
    } else {
        frame_bytes(message_bytes(ms[0])) + frames_bytes(ms.skip(1))
    }
}

/// What a receiver does with a byte stream: read the 8-byte header, read a
/// body of the length it declares, and decode that body (with `frame_length`
/// and `Message::from_bytes`); the message and the bytes after the frame, or
/// none when the stream is too short or the body does not decode.
pub open spec fn next_frame(b: Seq<u8>) -> Option<(MessageView, Seq<u8>)> {
    if b.len() < 8 {
        None
    } else {
        let n = read_u64(b.subrange(0, 8)) as int;
        if n > b.len() - 8 {
            None
        } else {
            match parse_message(b.subrange(8, 8 + n)) {
                Some(m) => Some((m, b.skip(8 + n))),
                None => None,
            }
        }
    }
}

/// The messages of `k` successive receives from a byte stream.
pub open spec fn read_frames(b: Seq<u8>, k: nat) -> Option<Seq<MessageView>>
    decreases k,
{
    if k == 0 {
        Some(Seq::empty())
    } else {
        match next_frame(b) {
            None => None,
            Some((m, rest)) => match read_frames(rest, (k - 1) as nat) {
                None => None,
                Some(ms) => Some(seq![m] + ms),
            },
        }
    }
}

/// One receive takes exactly one frame: whatever follows the frame of `m`,
/// the receiver gets `m` and the stream continues right after the frame.
pub proof fn lemma_next_frame(m: MessageView, rest: Seq<u8>)
    requires
        payload_of(m).len() + 9 < 0x1_0000_0000_0000_0000,
    ensures
        next_frame(frame_bytes(message_bytes(m)) + rest) == Some((m, rest)),
{
    let body = message_bytes(m);
    lemma_frame_roundtrip(m);
    let b = frame_bytes(body) + rest;
    assert(b.subrange(0, 8) =~= frame_bytes(body).subrange(0, 8));
    assert(b.subrange(8, 8 + body.len() as int) =~= body);
    assert(b.skip(8 + body.len() as int) =~= rest);
}

/// Frames sent one after another are received one after another: `k`
/// successive receives on the bytes of `k` frames give back the `k` messages
/// in order, each receive consuming exactly one frame.
pub proof fn lemma_frames_read_back(ms: Seq<MessageView>, rest: Seq<u8>)
    requires
        forall|i: int| 0 <= i < ms.len() ==> payload_of(#[trigger] ms[i]).len() + 9 < 0x1_0000_0000_0000_0000,
    ensures
        read_frames(frames_bytes(ms) + rest, ms.len()) == Some(ms),
    decreases ms.len(),
{
    if ms.len() > 0 {
        let tail = ms.skip(1);
        assert forall|i: int| 0 <= i < tail.len() implies
            payload_of(#[trigger] tail[i]).len() + 9 < 0x1_0000_0000_0000_0000 by {
            assert(tail[i] == ms[i + 1]);
        }
        lemma_frames_read_back(tail, rest);
        let f = frame_bytes(message_bytes(ms[0]));
        assert(frames_bytes(ms) + rest =~= f + (frames_bytes(tail) + rest));
        lemma_next_frame(ms[0], frames_bytes(tail) + rest);
        assert(seq![ms[0]] + tail =~= ms);
    } else {
        assert(ms =~= Seq::<MessageView>::empty());
    }
}

/// A frame whose body does not decode is refused by the receiver.
pub proof fn lemma_bad_frame_refused(body: Seq<u8>, rest: Seq<u8>)
    requires
        body.len() < 0x1_0000_0000_0000_0000,
        parse_message(body) is None,
    ensures
        next_frame(frame_bytes(body) + rest) is None,
{
    lemma_u64_roundtrip(body.len() as u64);
    let b = frame_bytes(body) + rest;
    assert(b.subrange(0, 8) =~= u64_be(body.len() as u64));
    assert(b.subrange(8, 8 + body.len() as int) =~= body);
}

/// The frame that carries a message.
pub fn frame_message(msg: &Message) -> (out: Vec<u8>)
    ensures
        out@ == frame_bytes(message_bytes(msg@)),
{
    let body = msg.to_bytes();
    let mut buf: Vec<u8> = Vec::new();
    push_u64_be(&mut buf, body.len() as u64);
    append_bytes(&mut buf, body.as_slice());
    buf
}

/// The body length that an 8-byte frame header declares.
pub fn frame_length(header: &[u8]) -> (n: u64)
    requires
        header@.len() == 8,
    ensures
        n == read_u64(header@),
{
    let n = get_u64_be(header, 0);
    proof { assert(header@.subrange(0, 8) =~= header@); }
    n
}

} // verus!
