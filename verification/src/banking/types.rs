use vstd::prelude::*;
use crate::text::{decimal, push_decimal, push_signed_decimal, signed_decimal};
use crate::codec::{
    lemma_be_roundtrip, lemma_be_value_bytes, lemma_i64_canonical, lemma_i64_roundtrip, lemma_u64_canonical, lemma_pow256_8, lemma_u64_roundtrip,
    be_bytes, be_value, get_i64_be, get_u64_be, i64_be, push_i64_be, push_u64_be, read_i64, read_u64,
    u64_be,
};

verus! {

/// Process / account identifier, 1-indexed.
pub type AccountId = u8;

/// Account balance; signed so that an overdraft can be detected.
pub type Balance = i64;

/// Time stamp of a balance snapshot.
pub type Timestamp = u64;

/// Largest number of processes.
pub const MAX_PROCESS_ID: usize = 11;

/// Largest physical time.
pub const MAX_T: usize = 256;

/// Transfer order, created by the parent and sent to the source branch.
#[derive(Debug, Clone, Copy, PartialEq, Eq)]
pub struct TransferOrder {
    pub src: AccountId,
    pub dst: AccountId,
    pub amount: Balance,
}

/// Balance snapshot at a point in time.
#[derive(Debug, Clone, Copy, PartialEq, Eq)]
pub struct BalanceState {
    pub balance: Balance,
    pub time: Timestamp,
    pub pending_in: Balance,
}

/// Complete balance history of one branch; `states[n]` is the state at time `n`
/// when the history was kept by an account.
#[derive(Debug, Clone, PartialEq, Eq)]
pub struct BalanceHistory {
    pub id: AccountId,
    pub states: Vec<BalanceState>,
}

/// Balance histories of all branches; `histories[0]` is process 1.
#[derive(Debug, Clone, PartialEq, Eq)]
pub struct AllHistory {
    pub histories: Vec<BalanceHistory>,
}

/// What a `BalanceHistory` holds, as mathematical values.
pub struct HistoryView {
    pub id: AccountId,
    pub states: Seq<BalanceState>,
}

impl View for BalanceHistory {
    type V = HistoryView;

    open spec fn view(&self) -> HistoryView {
        HistoryView { id: self.id, states: self.states@ }
    }
}

impl View for AllHistory {
    type V = Seq<HistoryView>;

    open spec fn view(&self) -> Seq<HistoryView> {
        self.histories@.map_values(|h: BalanceHistory| h@)
    }
}

// ───────────────────────── wire format ─────────────────────────

/// `src(1) dst(1) amount(8, big-endian)`.
pub open spec fn order_bytes(o: TransferOrder) -> Seq<u8> {
    seq![o.src, o.dst] + i64_be(o.amount)
}

/// The order that ten bytes denote, if there are ten.
pub open spec fn parse_order(b: Seq<u8>) -> Option<TransferOrder> {
    if b.len() == 10 {
        Some(TransferOrder { src: b[0], dst: b[1], amount: read_i64(b.subrange(2, 10)) })
    } else {
        None
    }
}

/// `balance(8) time(8) pending_in(8)`, each big-endian.
pub open spec fn state_bytes(s: BalanceState) -> Seq<u8> {
    i64_be(s.balance) + u64_be(s.time) + i64_be(s.pending_in)
}

/// The state that (the first) twenty-four bytes denote.
pub open spec fn state_at(b: Seq<u8>) -> BalanceState {
    BalanceState {
        balance: read_i64(b.subrange(0, 8)),
        time: read_u64(b.subrange(8, 16)),
        pending_in: read_i64(b.subrange(16, 24)),
    }
}

/// The state that twenty-four bytes denote, if there are twenty-four.
pub open spec fn parse_state(b: Seq<u8>) -> Option<BalanceState> {
    if b.len() == 24 { Some(state_at(b)) } else { None }
}

/// The states one after another.
pub open spec fn states_bytes(ss: Seq<BalanceState>) -> Seq<u8>
    decreases ss.len(),
{
    if ss.len() == 0 {
        Seq::empty()
    } else {
        states_bytes(ss.drop_last()) + state_bytes(ss.last())
    }
}

/// `id(1) count(1, modulo 256) states(24 each)`.
pub open spec fn history_bytes(h: HistoryView) -> Seq<u8> {
    seq![h.id, (h.states.len() % 256) as u8] + states_bytes(h.states)
}

/// The states in `n` consecutive 24-byte records.
pub open spec fn states_at(b: Seq<u8>, n: nat) -> Seq<BalanceState> {
    Seq::new(n, |i: int| state_at(b.subrange(24 * i, 24 * i + 24)))
}

/// The history that bytes denote: an id, a count, then exactly that many records.
pub open spec fn parse_history(b: Seq<u8>) -> Option<HistoryView> {
    if b.len() >= 2 && b.len() == 24 * (b[1] as int) + 2 {
        Some(HistoryView { id: b[0], states: states_at(b.skip(2), b[1] as nat) })
    } else {
        None
    }
}

/// One history in a batch: its encoded length (8, big-endian), then its encoding.
pub open spec fn entry_bytes(h: HistoryView) -> Seq<u8> {
    be_bytes(history_bytes(h).len(), 8) + history_bytes(h)
}

/// The entries one after another.
pub open spec fn entries_bytes(hs: Seq<HistoryView>) -> Seq<u8>
    decreases hs.len(),
{
    if hs.len() == 0 {
        Seq::empty()
    } else {
        entry_bytes(hs[0]) + entries_bytes(hs.skip(1))
    }
}

/// `count(1, modulo 256)` then the entries.
pub open spec fn all_bytes(hs: Seq<HistoryView>) -> Seq<u8> {
    seq![(hs.len() % 256) as u8] + entries_bytes(hs)
}

/// `a` followed by the histories in `o`, when there are any.
pub open spec fn prepend(a: Seq<HistoryView>, o: Option<Seq<HistoryView>>) -> Option<Seq<HistoryView>> {
    match o {
        Some(t) => Some(a + t),
        None => None,
    }
}

/// The `count` entries at the front of `b` (bytes after them are ignored).
pub open spec fn parse_entries(b: Seq<u8>, count: nat) -> Option<Seq<HistoryView>>
    decreases count,
{
    if count == 0 {
        Some(Seq::empty())
    } else if b.len() < 8 {
        None
    } else {
        let l = be_value(b.subrange(0, 8));
        if l > b.len() - 8 {
            None
        } else {
            match parse_history(b.subrange(8, 8 + l as int)) {
                None => None,
                Some(h) => prepend(seq![h], parse_entries(b.skip(8 + l as int), (count - 1) as nat)),
            }
        }
    }
}

/// The histories that bytes denote: a count, then that many entries.
pub open spec fn parse_all(b: Seq<u8>) -> Option<Seq<HistoryView>> {
    if b.len() < 1 { None } else { parse_entries(b.skip(1), b[0] as nat) }
}

/// The error text of every decoding failure: "length mismatch".
pub open spec fn length_mismatch_text() -> Seq<char> {
    "长度不匹配"@
}

fn length_mismatch() -> (e: String)
    ensures
        e@ == length_mismatch_text(),
{
    String::from_str("长度不匹配")
}

/// Append all of `src`.
pub fn append_bytes(buf: &mut Vec<u8>, src: &[u8])
    ensures
        final(buf)@ == old(buf)@ + src@,
{
    let mut i: usize = 0;
    while i < src.len()
        invariant
            i <= src@.len(),
            buf@ == old(buf)@ + src@.take(i as int),
        decreases src@.len() - i,
    {
        buf.push(src[i]);
        assert(src@.take(i + 1) =~= src@.take(i as int).push(src@[i as int]));
        i = i + 1;
    }
    assert(src@.take(i as int) =~= src@);
}

// ───────────────────────── laws of the wire format ─────────────────────────

/// A transfer order survives encoding and decoding unchanged.
pub proof fn lemma_transfer_order_roundtrip(o: TransferOrder)
    ensures
        order_bytes(o).len() == 10,
        parse_order(order_bytes(o)) == Some(o),
{
    lemma_i64_roundtrip(o.amount);
    assert(order_bytes(o).subrange(2, 10) =~= i64_be(o.amount));
}

/// The encoding is canonical: ten bytes that decode to an order are that order's encoding.
pub proof fn lemma_transfer_order_canonical(b: Seq<u8>)
    requires
        parse_order(b) is Some,
    ensures
        order_bytes(parse_order(b)->0) == b,
{
    lemma_i64_canonical(b.subrange(2, 10));
    assert(order_bytes(parse_order(b)->0) =~= b);
}

/// The encoding is canonical: twenty-four bytes that decode to a state are that state's encoding.
pub proof fn lemma_balance_state_canonical(b: Seq<u8>)
    requires
        parse_state(b) is Some,
    ensures
        state_bytes(parse_state(b)->0) == b,
{
    lemma_i64_canonical(b.subrange(0, 8));
    lemma_u64_canonical(b.subrange(8, 16));
    lemma_i64_canonical(b.subrange(16, 24));
    assert(state_bytes(parse_state(b)->0) =~= b);
}

/// A balance state survives encoding and decoding unchanged.
pub proof fn lemma_balance_state_roundtrip(s: BalanceState)
    ensures
        state_bytes(s).len() == 24,
        parse_state(state_bytes(s)) == Some(s),
        state_at(state_bytes(s)) == s,
{
    lemma_i64_roundtrip(s.balance);
    lemma_u64_roundtrip(s.time);
    lemma_i64_roundtrip(s.pending_in);
    let b = state_bytes(s);
    assert(b.subrange(0, 8) =~= i64_be(s.balance));
    assert(b.subrange(8, 16) =~= u64_be(s.time));
    assert(b.subrange(16, 24) =~= i64_be(s.pending_in));
}

/// The encoded states are 24-byte records, the `i`-th record encoding the `i`-th state.
pub proof fn lemma_states_bytes(ss: Seq<BalanceState>)
    ensures
        states_bytes(ss).len() == 24 * ss.len(),
        forall|i: int| 0 <= i < ss.len() ==>
            #[trigger] states_bytes(ss).subrange(24 * i, 24 * i + 24) == state_bytes(ss[i]),
    decreases ss.len(),
{
    if ss.len() > 0 {
        let init = ss.drop_last();
        lemma_states_bytes(init);
        lemma_balance_state_roundtrip(ss.last());
        let a = states_bytes(init);
        let b = state_bytes(ss.last());
        assert forall|i: int| 0 <= i < ss.len() implies
            #[trigger] states_bytes(ss).subrange(24 * i, 24 * i + 24) == state_bytes(ss[i]) by {
            if i < ss.len() - 1 {
                assert((a + b).subrange(24 * i, 24 * i + 24) =~= a.subrange(24 * i, 24 * i + 24));
                assert(init[i] == ss[i]);
            } else {
                assert((a + b).subrange(24 * i, 24 * i + 24) =~= b);
            }
        }
    }
}

/// The encoded length of a history: two header bytes and 24 bytes per state.
pub proof fn lemma_history_bytes_len(h: HistoryView)
    ensures
        history_bytes(h).len() == 2 + 24 * h.states.len(),
{
    lemma_states_bytes(h.states);
}

/// A history of fewer than 256 states survives encoding and decoding unchanged.
/// (The count is written in one byte, so longer histories do not.)
pub proof fn lemma_balance_history_roundtrip(h: HistoryView)
    requires
        h.states.len() < 256,
    ensures
        parse_history(history_bytes(h)) == Some(h),
{
    let b = history_bytes(h);
    let n = h.states.len();
    lemma_states_bytes(h.states);
    assert(b[1] as nat == n);
    assert(b.skip(2) =~= states_bytes(h.states));
    assert forall|i: int| 0 <= i < n implies #[trigger] states_at(b.skip(2), n)[i] == h.states[i] by {
        lemma_balance_state_roundtrip(h.states[i]);
        assert(states_bytes(h.states).subrange(24 * i, 24 * i + 24) == state_bytes(h.states[i]));
    }
    assert(states_at(b.skip(2), n) =~= h.states);
}

/// Twenty-four-byte records decode to states whose encodings are the records.
pub proof fn lemma_states_canonical(y: Seq<u8>, n: nat)
    requires
        y.len() == 24 * n,
    ensures
        states_bytes(states_at(y, n)) == y,
    decreases n,
{
    if n == 0 {
        assert(y =~= Seq::<u8>::empty());
    } else {
        let ss = states_at(y, n);
        let m = (n - 1) as nat;
        let front = y.take(24 * m as int);
        let chunk = y.subrange(24 * m as int, 24 * m as int + 24);
        lemma_states_canonical(front, m);
        assert forall|i: int| 0 <= i < m implies #[trigger] ss.drop_last()[i] == states_at(front, m)[i] by {
            assert(y.subrange(24 * i, 24 * i + 24) =~= front.subrange(24 * i, 24 * i + 24));
        }
        assert(ss.drop_last() =~= states_at(front, m));
        lemma_balance_state_canonical(chunk);
        assert(ss.last() == state_at(chunk));
        assert(front + chunk =~= y);
    }
}

/// The history encoding is canonical: bytes that decode to a history are that
/// history's encoding (so the count byte is the number of states).
pub proof fn lemma_balance_history_canonical(b: Seq<u8>)
    requires
        parse_history(b) is Some,
    ensures
        history_bytes(parse_history(b)->0) == b,
        (parse_history(b)->0).states.len() == b[1],
{
    let h = parse_history(b)->0;
    let n = b[1] as nat;
    lemma_states_canonical(b.skip(2), n);
    assert(seq![b[0], b[1]] + b.skip(2) =~= b);
    assert((h.states.len() % 256) as u8 == b[1]);
}

/// Decoding a batch is exact: what decodes holds exactly as many histories as
/// the entries demanded, and the bytes begin with their encoding.
pub proof fn lemma_entries_canonical(b: Seq<u8>, count: nat)
    requires
        parse_entries(b, count) is Some,
    ensures
        (parse_entries(b, count)->0).len() == count,
        entries_bytes(parse_entries(b, count)->0).len() <= b.len(),
        b.take(entries_bytes(parse_entries(b, count)->0).len() as int) == entries_bytes(parse_entries(b, count)->0),
    decreases count,
{
    let hs = parse_entries(b, count)->0;
    if count == 0 {
        assert(hs =~= Seq::<HistoryView>::empty());
        assert(b.take(0) =~= Seq::<u8>::empty());
    } else {
        let l = be_value(b.subrange(0, 8));
        let body = b.subrange(8, 8 + l as int);
        let h = parse_history(body)->0;
        let rest = b.skip(8 + l as int);
        let t = parse_entries(rest, (count - 1) as nat)->0;
        lemma_entries_canonical(rest, (count - 1) as nat);
        lemma_balance_history_canonical(body);
        lemma_be_value_bytes(b.subrange(0, 8));
        assert(hs == seq![h] + t);
        assert(hs[0] == h);
        assert(hs.skip(1) =~= t);
        let e = entry_bytes(h);
        assert(e =~= b.subrange(0, 8) + body);
        let te = entries_bytes(t);
        assert(entries_bytes(hs) == e + te);
        assert(b.take((e.len() + te.len()) as int) =~= e + rest.take(te.len() as int));
    }
}

/// Decoding a batch is exact: what decodes holds exactly as many histories as
/// the count byte declares (a batch holding fewer entries is refused), and the
/// bytes begin with the encoding of what was decoded.
pub proof fn lemma_all_history_canonical(b: Seq<u8>)
    requires
        parse_all(b) is Some,
    ensures
        (parse_all(b)->0).len() == b[0],
        all_bytes(parse_all(b)->0).len() <= b.len(),
        b.take(all_bytes(parse_all(b)->0).len() as int) == all_bytes(parse_all(b)->0),
{
    let hs = parse_all(b)->0;
    lemma_entries_canonical(b.skip(1), b[0] as nat);
    let e = entries_bytes(hs);
    assert(all_bytes(hs) == seq![(hs.len() % 256) as u8] + e);
    assert(b.take(1 + e.len() as int) =~= seq![b[0]] + b.skip(1).take(e.len() as int));
}

/// Whether every history has fewer than 256 states.
pub open spec fn histories_fit(hs: Seq<HistoryView>) -> bool {
    forall|i: int| 0 <= i < hs.len() ==> (#[trigger] hs[i]).states.len() < 256
}

/// Length-prefixed histories decode back to themselves, whatever follows them.
pub proof fn lemma_entries_roundtrip(hs: Seq<HistoryView>, rest: Seq<u8>)
    requires
        histories_fit(hs),
    ensures
        parse_entries(entries_bytes(hs) + rest, hs.len()) == Some(hs),
    decreases hs.len(),
{
    if hs.len() == 0 {
        assert(hs =~= Seq::<HistoryView>::empty());
    } else {
        let h = hs[0];
        let tail = hs.skip(1);
        assert(histories_fit(tail)) by {
            assert forall|i: int| 0 <= i < tail.len() implies (#[trigger] tail[i]).states.len() < 256 by {
                assert(tail[i] == hs[i + 1]);
            }
        }
        lemma_entries_roundtrip(tail, rest);
        let hb = history_bytes(h);
        let l = hb.len();
        lemma_history_bytes_len(h);
        lemma_pow256_8();
        lemma_be_roundtrip(l, 8);
        lemma_balance_history_roundtrip(h);
        let b = entries_bytes(hs) + rest;
        let after = entries_bytes(tail) + rest;
        assert(b =~= be_bytes(l, 8) + hb + after);
        assert(b.subrange(0, 8) =~= be_bytes(l, 8));
        assert(b.subrange(8, 8 + l as int) =~= hb);
        assert(b.skip(8 + l as int) =~= after);
        assert(seq![h] + tail =~= hs);
    }
}

/// A batch of fewer than 256 histories, each of fewer than 256 states,
/// survives encoding and decoding unchanged.
pub proof fn lemma_all_history_roundtrip(hs: Seq<HistoryView>)
    requires
        hs.len() < 256,
        histories_fit(hs),
    ensures
        parse_all(all_bytes(hs)) == Some(hs),
{
    let b = all_bytes(hs);
    let e = entries_bytes(hs) + Seq::<u8>::empty();
    lemma_entries_roundtrip(hs, Seq::empty());
    assert(b.skip(1) =~= e);
    assert(b[0] as nat == hs.len());
    assert(parse_all(b) == parse_entries(e, hs.len()));
}

/// Encoding one more history appends its entry.
pub proof fn lemma_entries_push(hs: Seq<HistoryView>, h: HistoryView)
    ensures
        entries_bytes(hs.push(h)) == entries_bytes(hs) + entry_bytes(h),
    decreases hs.len(),
{
    if hs.len() == 0 {
        assert(hs.push(h).skip(1) =~= Seq::<HistoryView>::empty());
        assert(hs.push(h)[0] == h);
        assert(entries_bytes(hs.push(h).skip(1)) == Seq::<u8>::empty());
        assert(entries_bytes(hs) == Seq::<u8>::empty());
        assert(entries_bytes(hs.push(h)) =~= entries_bytes(hs) + entry_bytes(h));
    } else {
        lemma_entries_push(hs.skip(1), h);
        assert(hs.push(h).skip(1) =~= hs.skip(1).push(h));
        assert(hs.push(h)[0] == hs[0]);
        let a = entry_bytes(hs[0]);
        let b = entries_bytes(hs.skip(1));
        let c = entry_bytes(h);
        assert(entries_bytes(hs.push(h)) == a + (b + c));
        assert(entries_bytes(hs) == a + b);
        assert(a + (b + c) =~= (a + b) + c);
    }
}

impl TransferOrder {
    /// The ten-byte encoding: `src`, `dst`, then `amount` big-endian.
    pub fn to_bytes(&self) -> (out: Vec<u8>)
        ensures
            out@ == order_bytes(*self),
            out@.len() == 10,
    {
        let mut buf: Vec<u8> = vec![self.src, self.dst];
        push_i64_be(&mut buf, self.amount);
        proof { assert(buf@ =~= order_bytes(*self)); }
        buf
    }

    /// Decode ten bytes; any other length is refused.
    pub fn from_bytes(bytes: &[u8]) -> (r: Result<Self, String>)
        ensures
            match r {
                Ok(o) => parse_order(bytes@) == Some(o),
                Err(e) => parse_order(bytes@) is None && e@ == length_mismatch_text(),
            },
    {
        if bytes.len() != 10 {
            return Err(length_mismatch());
        }
        let src = bytes[0];
        let dst = bytes[1];
        let amount = get_i64_be(bytes, 2);
        Ok(TransferOrder { src, dst, amount })
    }
}

impl BalanceState {
    /// A snapshot with nothing pending.
    pub fn new(balance: Balance, time: Timestamp) -> (s: Self)
        ensures
            s == (BalanceState { balance, time, pending_in: 0 }),
    {
        BalanceState { balance, time, pending_in: 0 }
    }

    /// The 24-byte encoding: balance, time, pending_in, each big-endian.
    pub fn to_bytes(&self) -> (out: Vec<u8>)
        ensures
            out@ == state_bytes(*self),
            out@.len() == 24,
    {
        let mut buf: Vec<u8> = Vec::new();
        push_i64_be(&mut buf, self.balance);
        push_u64_be(&mut buf, self.time);
        push_i64_be(&mut buf, self.pending_in);
        proof { assert(buf@ =~= state_bytes(*self)); }
        buf
    }

    /// Decode twenty-four bytes; any other length is refused.
    pub fn from_bytes(bytes: &[u8]) -> (r: Result<Self, String>)
        ensures
            match r {
                Ok(s) => parse_state(bytes@) == Some(s),
                Err(e) => parse_state(bytes@) is None && e@ == length_mismatch_text(),
            },
    {
        if bytes.len() != 24 {
            return Err(length_mismatch());
        }
        let balance = get_i64_be(bytes, 0);
        let time = get_u64_be(bytes, 8);
        let pending_in = get_i64_be(bytes, 16);
        Ok(BalanceState { balance, time, pending_in })
    }
}

impl BalanceHistory {
    /// A history that holds only the initial state, at time zero.
    pub fn new(id: AccountId, initial_balance: Balance) -> (h: Self)
        ensures
            h.id == id,
            h.states@ == seq![BalanceState { balance: initial_balance, time: 0, pending_in: 0 }],
    {
        BalanceHistory { id, states: vec![BalanceState::new(initial_balance, 0)] }
    }

    /// `id`, the number of states modulo 256, then each state's 24 bytes.
    pub fn to_bytes(&self) -> (out: Vec<u8>)
        ensures
            out@ == history_bytes(self@),
    {
        let mut buf: Vec<u8> = vec![self.id, (self.states.len() % 256) as u8];
        let mut i: usize = 0;
        while i < self.states.len()
            invariant
                i <= self.states@.len(),
                buf@ == seq![self.id, (self.states@.len() % 256) as u8] + states_bytes(self.states@.take(i as int)),
            decreases self.states@.len() - i,
        {
            let sb = self.states[i].to_bytes();
            append_bytes(&mut buf, sb.as_slice());
            proof {
                assert(self.states@.take(i + 1).drop_last() =~= self.states@.take(i as int));
            }
            i = i + 1;
        }
        proof { assert(self.states@.take(i as int) =~= self.states@); }
        buf
    }

    /// Decode `id`, a count, and exactly that many 24-byte states.
    pub fn from_bytes(bytes: &[u8]) -> (r: Result<Self, String>)
        ensures
            match r {
                Ok(h) => parse_history(bytes@) == Some(h@),
                Err(e) => parse_history(bytes@) is None && e@ == length_mismatch_text(),
            },
            r matches Ok(h) ==> history_bytes(h@) == bytes@ && h.states@.len() == bytes@[1],
    {
        if bytes.len() < 2 {
            return Err(length_mismatch());
        }
        let id = bytes[0];
        let len = bytes[1] as usize;
        if bytes.len() != 24 * len + 2 {
            return Err(length_mismatch());
        }
        let mut states: Vec<BalanceState> = Vec::with_capacity(len);
        let mut i: usize = 0;
        while i < len
            invariant
                i <= len,
                len == bytes@[1],
                bytes@.len() == 24 * len + 2,
                states@ =~= states_at(bytes@.skip(2), i as nat),
            decreases len - i,
        {
            let start = 24 * i + 2;
            let end = 24 * (i + 1) + 2;
            let chunk = &bytes[start..end];
            match BalanceState::from_bytes(chunk) {
                Ok(st) => {
                    assert(chunk@ =~= bytes@.skip(2).subrange(24 * i, 24 * i + 24));
                    states.push(st);
                },
                Err(e) => {
                    return Err(e);
                },
            }
            i = i + 1;
        }
        let h = BalanceHistory { id, states };
        proof { lemma_balance_history_canonical(bytes@); }
        Ok(h)
    }
}

impl AllHistory {
    /// No histories yet.
    pub fn new() -> (a: Self)
        ensures
            a.histories@.len() == 0,
    {
        AllHistory { histories: Vec::new() }
    }

    /// A count byte (modulo 256), then for each history its encoded length
    /// (8 bytes, big-endian) and its encoding.
    pub fn to_bytes(&self) -> (out: Vec<u8>)
        ensures
            out@ == all_bytes(self@),
    {
        let mut buf: Vec<u8> = vec![(self.histories.len() % 256) as u8];
        let mut i: usize = 0;
        while i < self.histories.len()
            invariant
                i <= self.histories@.len(),
                buf@ == seq![(self@.len() % 256) as u8] + entries_bytes(self@.take(i as int)),
            decreases self.histories@.len() - i,
        {
            let hb = self.histories[i].to_bytes();
            push_u64_be(&mut buf, hb.len() as u64);
            append_bytes(&mut buf, hb.as_slice());
            proof {
                lemma_entries_push(self@.take(i as int), self@[i as int]);
                assert(self@.take(i + 1) =~= self@.take(i as int).push(self@[i as int]));
                assert(buf@ =~= seq![(self@.len() % 256) as u8] + entries_bytes(self@.take(i + 1)));
            }
            i = i + 1;
        }
        proof { assert(self@.take(i as int) =~= self@); }
        buf
    }

    /// Decode a count and that many length-prefixed histories; bytes after
    /// the last history are ignored.
    pub fn from_bytes(bytes: &[u8]) -> (r: Result<Self, String>)
        ensures
            match r {
                Ok(a) => parse_all(bytes@) == Some(a@),
                Err(e) => parse_all(bytes@) is None && e@ == length_mismatch_text(),
            },
            r matches Ok(a) ==> a@.len() == bytes@[0] && all_bytes(a@).len() <= bytes@.len()
                && bytes@.take(all_bytes(a@).len() as int) == all_bytes(a@),
    {
        if bytes.len() < 1 {
            return Err(length_mismatch());
        }
        let count = bytes[0] as usize;
        let mut histories: Vec<BalanceHistory> = Vec::with_capacity(count);
        let mut offset: usize = 1;
        let mut i: usize = 0;
        while i < count
            invariant
                1 <= offset <= bytes@.len(),
                i <= count,
                count == bytes@[0],
                parse_all(bytes@) == prepend(
                    histories@.map_values(|h: BalanceHistory| h@),
                    parse_entries(bytes@.skip(offset as int), (count - i) as nat),
                ),
            decreases count - i,
        {
            let ghost rest = bytes@.skip(offset as int);
            let ghost done = histories@.map_values(|h: BalanceHistory| h@);
            if bytes.len() - offset < 8 {
                return Err(length_mismatch());
            }
            let history_len = get_u64_be(bytes, offset);
            assert(rest.subrange(0, 8) =~= bytes@.subrange(offset as int, offset + 8));
            offset = offset + 8;
            if history_len > (bytes.len() - offset) as u64 {
                return Err(length_mismatch());
            }
            let hl = history_len as usize;
            let chunk = &bytes[offset..offset + hl];
            assert(chunk@ =~= rest.subrange(8, 8 + hl as int));
            match BalanceHistory::from_bytes(chunk) {
                Ok(h) => {
                    histories.push(h);
                    proof {
                        assert(rest.skip(8 + hl as int) =~= bytes@.skip(offset + hl));
                        assert(histories@.map_values(|h: BalanceHistory| h@) =~= done.push(h@));
                        let tail = parse_entries(bytes@.skip(offset + hl), (count - i - 1) as nat);
                        if tail is Some {
                            assert(done + (seq![h@] + tail->0) =~= done.push(h@) + tail->0);
                        }
                    }
                },
                Err(e) => {
                    return Err(e);
                },
            }
            offset = offset + hl;
            i = i + 1;
        }
        proof {
            assert(histories@.map_values(|h: BalanceHistory| h@) + Seq::<HistoryView>::empty()
                =~= histories@.map_values(|h: BalanceHistory| h@));
        }
        let a = AllHistory { histories };
        proof { lemma_all_history_canonical(bytes@); }
        Ok(a)
    }

    /// Add one branch's history at the end.
    pub fn push(&mut self, history: BalanceHistory)
        ensures
            final(self).histories@ == old(self).histories@.push(history),
    {
        self.histories.push(history);
    }
}


// ───────────────────────── display texts ─────────────────────────

/// `TRANSFER { src=.., dst=.., amount=.. }`.
pub open spec fn order_text(o: TransferOrder) -> Seq<char> {
    "TRANSFER { src="@ + decimal(o.src as nat) + ", dst="@ + decimal(o.dst as nat) + ", amount="@
        + signed_decimal(o.amount as int) + " }"@
}

/// `BalanceState { balance=.., time=.., pending_in=.. }`.
pub open spec fn state_text(s: BalanceState) -> Seq<char> {
    "BalanceState { balance="@ + signed_decimal(s.balance as int) + ", time="@ + decimal(s.time as nat)
        + ", pending_in="@ + signed_decimal(s.pending_in as int) + " }"@
}

/// `BalanceHistory(id=.., N states)`.
pub open spec fn history_text(h: HistoryView) -> Seq<char> {
    "BalanceHistory(id="@ + decimal(h.id as nat) + ", "@ + decimal(h.states.len()) + " states)"@
}

/// `AllHistory(N processes)`.
pub open spec fn all_history_text(n: nat) -> Seq<char> {
    "AllHistory("@ + decimal(n) + " processes)"@
}

impl TransferOrder {
    /// The text under which the order is shown.
    pub fn to_display_string(&self) -> (s: String)
        ensures
            s@ == order_text(*self),
    {
        let mut s = String::from_str("TRANSFER { src=");
        push_decimal(&mut s, self.src as u64);
        s.append(", dst=");
        push_decimal(&mut s, self.dst as u64);
        s.append(", amount=");
        push_signed_decimal(&mut s, self.amount);
        s.append(" }");
        s
    }
}

impl BalanceState {
    /// The text under which the state is shown.
    pub fn to_display_string(&self) -> (s: String)
        ensures
            s@ == state_text(*self),
    {
        let mut s = String::from_str("BalanceState { balance=");
        push_signed_decimal(&mut s, self.balance);
        s.append(", time=");
        push_decimal(&mut s, self.time);
        s.append(", pending_in=");
        push_signed_decimal(&mut s, self.pending_in);
        s.append(" }");
        s
    }
}

impl BalanceHistory {
    /// The text under which the history is shown: its id and number of states.
    pub fn to_display_string(&self) -> (s: String)
        ensures
            s@ == history_text(self@),
    {
        let mut s = String::from_str("BalanceHistory(id=");
        push_decimal(&mut s, self.id as u64);
        s.append(", ");
        push_decimal(&mut s, self.states.len() as u64);
        s.append(" states)");
        s
    }
}

impl AllHistory {
    /// The text under which the batch is shown: its number of histories.
    pub fn to_display_string(&self) -> (s: String)
        ensures
            s@ == all_history_text(self.histories@.len()),
    {
        let mut s = String::from_str("AllHistory(");
        push_decimal(&mut s, self.histories.len() as u64);
        s.append(" processes)");
        s
    }
}

} // verus!
