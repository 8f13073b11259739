use vstd::prelude::*;
use crate::banking::account::{account_error_text, balance_of, recorded, AccountError, BranchAccount};
use crate::banking::time::PhysicalClock;
use crate::banking::transfer::{unexpected_reply_text, BankingError};
use crate::banking::types::{
    history_bytes, length_mismatch_text, order_bytes, parse_history, parse_order, AccountId, AllHistory,
    Balance, BalanceHistory, BalanceState, HistoryView, TransferOrder,
};
use crate::communication::message::{message_text, Message, MessageView};

verus! {

// ═══════════════ start / done synchronisation of the parent ═══════════════

/// Where the parent stands in the start/done synchronisation.
#[derive(Debug, Clone, Copy, PartialEq, Eq)]
pub enum SyncPhase {
    /// Waiting for STARTED from each child in turn.
    AwaitStarted,
    /// Sending each child its work.
    Dispatch,
    /// Waiting for DONE from each child in turn.
    AwaitDone,
    /// Every child has reported DONE.
    Complete,
}

/// What the parent does next.
#[derive(Debug)]
pub enum SyncAction {
    /// Read one message from the child at this index.
    Receive(usize),
    /// Send this message to the child at this index.
    Send(usize, Message),
    /// All children are synchronised.
    Finish,
}

/// An action as a mathematical value.
pub enum SyncActionView {
    Receive(nat),
    Send(nat, MessageView),
    Finish,
}

impl View for SyncAction {
    type V = SyncActionView;

    open spec fn view(&self) -> SyncActionView {
        match self {
            SyncAction::Receive(i) => SyncActionView::Receive(*i as nat),
            SyncAction::Send(i, m) => SyncActionView::Send(*i as nat, m@),
            SyncAction::Finish => SyncActionView::Finish,
        }
    }
}

/// The state of the synchronisation as mathematical values.
pub struct SyncView {
    pub children: nat,
    pub phase: SyncPhase,
    pub next: nat,
}

/// The parent's side of the start/done synchronisation with its children:
/// collect STARTED from every child, send every child a DATA message with its
/// 1-based number, then collect DONE from every child.
pub struct ParentSync {
    children: usize,
    phase: SyncPhase,
    next: usize,
}

impl View for ParentSync {
    type V = SyncView;

    closed spec fn view(&self) -> SyncView {
        SyncView { children: self.children as nat, phase: self.phase, next: self.next as nat }
    }
}

/// The phase that follows a phase.
pub open spec fn following(p: SyncPhase) -> SyncPhase {
    match p {
        SyncPhase::AwaitStarted => SyncPhase::Dispatch,
        SyncPhase::Dispatch => SyncPhase::AwaitDone,
        _ => SyncPhase::Complete,
    }
}

/// Whether a synchronisation state is consistent.
pub open spec fn sync_wf(v: SyncView) -> bool {
    &&& v.children <= 255
    &&& v.phase != SyncPhase::Complete ==> v.next < v.children
}

/// The start of the synchronisation with `n` children.
pub open spec fn sync_start(n: nat) -> SyncView {
    SyncView {
        children: n,
        phase: if n == 0 { SyncPhase::Complete } else { SyncPhase::AwaitStarted },
        next: 0,
    }
}

/// The state after the current step succeeded: the next child, or the first
/// child of the following phase.
pub open spec fn sync_advance(v: SyncView) -> SyncView {
    if v.next + 1 < v.children {
        SyncView { next: v.next + 1, ..v }
    } else {
        SyncView { phase: following(v.phase), next: 0, ..v }
    }
}

/// The work message for the child at index `i`: its 1-based number.
pub open spec fn work_for(i: nat) -> MessageView {
    MessageView::Data(seq![(i + 1) as u8])
}

/// What the parent does in a state.
pub open spec fn sync_action(v: SyncView) -> SyncActionView {
    match v.phase {
        SyncPhase::AwaitStarted => SyncActionView::Receive(v.next),
        SyncPhase::Dispatch => SyncActionView::Send(v.next, work_for(v.next)),
        SyncPhase::AwaitDone => SyncActionView::Receive(v.next),
        SyncPhase::Complete => SyncActionView::Finish,
    }
}

/// The message awaited in a receiving phase.
pub open spec fn awaited(p: SyncPhase) -> MessageView {
    if p == SyncPhase::AwaitStarted { MessageView::Started } else { MessageView::Done }
}

/// The error text when another message arrives than the one awaited.
pub open spec fn sync_error_text(p: SyncPhase, got: MessageView) -> Seq<char> {
    if p == SyncPhase::AwaitStarted {
        "expected Started, but got "@ + message_text(got)
    } else {
        "expected Done, but got "@ + message_text(got)
    }
}

/// The actions of `k` successful steps from `v`.
pub open spec fn sync_run(v: SyncView, k: nat) -> Seq<SyncActionView>
    decreases k,
{
    if k == 0 {
        Seq::empty()
    } else {
        seq![sync_action(v)] + sync_run(sync_advance(v), (k - 1) as nat)
    }
}

/// The actions of one phase: one per child, in order.
pub open spec fn phase_actions(n: nat, p: SyncPhase) -> Seq<SyncActionView> {
    Seq::new(n, |i: int| sync_action(SyncView { children: n, phase: p, next: i as nat }))
}

proof fn lemma_sync_phase(n: nat, p: SyncPhase, i: nat, rest: nat)
    requires
        i < n,
        p != SyncPhase::Complete,
    ensures
        sync_run(SyncView { children: n, phase: p, next: i }, ((n - i) + rest) as nat) ==
            phase_actions(n, p).skip(i as int)
                + sync_run(SyncView { children: n, phase: following(p), next: 0 }, rest),
    decreases n - i,
{
    let v = SyncView { children: n, phase: p, next: i };
    let k = ((n - i) + rest) as nat;
    assert(sync_run(v, k) == seq![sync_action(v)] + sync_run(sync_advance(v), (k - 1) as nat));
    if i + 1 < n {
        lemma_sync_phase(n, p, i + 1, rest);
        assert(phase_actions(n, p).skip(i as int) =~= seq![sync_action(v)] + phase_actions(n, p).skip(i + 1 as int));
        assert(k - 1 == (n - (i + 1)) + rest);
    } else {
        assert(phase_actions(n, p).skip(i as int) =~= seq![sync_action(v)]);
        assert(k - 1 == rest);
    }
}

/// With children that each answer as awaited, the parent first receives from
/// every child in turn (STARTED), then sends every child its work, then
/// receives from every child in turn (DONE), and then finishes: no work leaves
/// before every child has started, and no DONE is awaited before all work is sent.
pub proof fn lemma_sync_schedule(n: nat)
    requires
        n <= 255,
    ensures
        sync_run(sync_start(n), 3 * n + 1) ==
            phase_actions(n, SyncPhase::AwaitStarted) + phase_actions(n, SyncPhase::Dispatch)
                + phase_actions(n, SyncPhase::AwaitDone) + seq![SyncActionView::Finish],
{
    let fin = SyncView { children: n, phase: SyncPhase::Complete, next: 0 };
    assert(sync_run(sync_advance(fin), 0) == Seq::<SyncActionView>::empty());
    assert(sync_run(fin, 1) =~= seq![SyncActionView::Finish]);
    if n == 0 {
        assert(phase_actions(0, SyncPhase::AwaitStarted) =~= Seq::<SyncActionView>::empty());
        assert(phase_actions(0, SyncPhase::Dispatch) =~= Seq::<SyncActionView>::empty());
        assert(phase_actions(0, SyncPhase::AwaitDone) =~= Seq::<SyncActionView>::empty());
        assert(sync_start(0) == fin);
        assert(sync_run(sync_start(n), 3 * n + 1) =~= seq![SyncActionView::Finish]);
        assert(phase_actions(n, SyncPhase::AwaitStarted) + phase_actions(n, SyncPhase::Dispatch)
                + phase_actions(n, SyncPhase::AwaitDone) + seq![SyncActionView::Finish] =~= seq![SyncActionView::Finish]);
    } else {
        lemma_sync_phase(n, SyncPhase::AwaitDone, 0, 1);
        lemma_sync_phase(n, SyncPhase::Dispatch, 0, n + 1);
        lemma_sync_phase(n, SyncPhase::AwaitStarted, 0, 2 * n + 1);
        assert(phase_actions(n, SyncPhase::AwaitStarted).skip(0) == phase_actions(n, SyncPhase::AwaitStarted));
        assert(phase_actions(n, SyncPhase::Dispatch).skip(0) == phase_actions(n, SyncPhase::Dispatch));
        assert(phase_actions(n, SyncPhase::AwaitDone).skip(0) == phase_actions(n, SyncPhase::AwaitDone));
        assert(3 * n + 1 == n + (2 * n + 1));
        assert(2 * n + 1 == n + (n + 1));
        let a = phase_actions(n, SyncPhase::AwaitStarted);
        let b = phase_actions(n, SyncPhase::Dispatch);
        let c = phase_actions(n, SyncPhase::AwaitDone);
        let f = seq![SyncActionView::Finish];
        assert(a + (b + (c + f)) =~= a + b + c + f);
    }
}

impl ParentSync {
    /// Whether the state is consistent.
    pub closed spec fn wf(&self) -> bool {
        sync_wf(self@)
    }

    /// Start synchronising `children_count` children (none: already complete).
    pub fn new(children_count: usize) -> (s: Self)
        requires
            children_count <= 255,
        ensures
            s.wf(),
            s@ == sync_start(children_count as nat),
    {
        let phase = if children_count == 0 { SyncPhase::Complete } else { SyncPhase::AwaitStarted };
        ParentSync { children: children_count, phase, next: 0 }
    }

    /// The current phase.
    pub fn phase(&self) -> (p: SyncPhase)
        ensures
            p == self@.phase,
    {
        self.phase
    }

    /// What to do next.
    pub fn next_action(&self) -> (a: SyncAction)
        requires
            self.wf(),
        ensures
            a@ == sync_action(self@),
    {
        match self.phase {
            SyncPhase::AwaitStarted => SyncAction::Receive(self.next),
            SyncPhase::Dispatch => {
                let n: u8 = self.next as u8 + 1;
                let payload = vec![n];
                assert(payload@ =~= seq![(self@.next + 1) as u8]);
                let work = Message::Data(payload);
                SyncAction::Send(self.next, work)
            },
            SyncPhase::AwaitDone => SyncAction::Receive(self.next),
            SyncPhase::Complete => SyncAction::Finish,
        }
    }

    fn advance(&mut self)
        requires
            old(self).wf(),
            old(self)@.phase != SyncPhase::Complete,
        ensures
            final(self).wf(),
            final(self)@ == sync_advance(old(self)@),
    {
        if self.next + 1 < self.children {
            self.next = self.next + 1;
        } else {
            self.next = 0;
            self.phase = match self.phase {
                SyncPhase::AwaitStarted => SyncPhase::Dispatch,
                SyncPhase::Dispatch => SyncPhase::AwaitDone,
                _ => SyncPhase::Complete,
            };
        }
    }

    /// Take the message that the awaited child sent: the awaited one (STARTED,
    /// then DONE) moves on; any other is refused and nothing changes.
    pub fn on_received(&mut self, msg: &Message) -> (r: Result<(), String>)
        requires
            old(self).wf(),
            old(self)@.phase == SyncPhase::AwaitStarted || old(self)@.phase == SyncPhase::AwaitDone,
        ensures
            final(self).wf(),
            r is Ok <==> msg@ == awaited(old(self)@.phase),
            r is Ok ==> final(self)@ == sync_advance(old(self)@),
            r matches Err(e) ==> final(self)@ == old(self)@ && e@ == sync_error_text(old(self)@.phase, msg@),
    {
        let awaiting_started = match self.phase {
            SyncPhase::AwaitStarted => true,
            _ => false,
        };
        let matched = match msg {
            Message::Started => awaiting_started,
            Message::Done => !awaiting_started,
            _ => false,
        };
        if matched {
            self.advance();
            Ok(())
        } else {
            let mut e = if awaiting_started {
                String::from_str("expected Started, but got ")
            } else {
                String::from_str("expected Done, but got ")
            };
            let shown = msg.to_display_string();
            e.append(shown.as_str());
            Err(e)
        }
    }

    /// The work message was sent; move on.
    pub fn on_sent(&mut self)
        requires
            old(self).wf(),
            old(self)@.phase == SyncPhase::Dispatch,
        ensures
            final(self).wf(),
            final(self)@ == sync_advance(old(self)@),
    {
        self.advance();
    }
}


// ═══════════════ the banking branch (child side) ═══════════════

/// Why a branch could not handle a message.
#[derive(Debug, Clone, PartialEq, Eq)]
pub enum BranchError {
    /// The TRANSFER payload is not an encoded order.
    BadOrder,
    /// The account refused the debit or the credit.
    Refused(AccountError),
    /// The credit would take the balance past the largest balance.
    Overflow,
    /// The branch's clock has no later time left.
    ClockExhausted,
}

/// The text under which a branch error is shown.
pub open spec fn branch_error_text(e: BranchError) -> Seq<char> {
    match e {
        BranchError::BadOrder => "转账指令无法解析: 长度不匹配"@,
        BranchError::Refused(a) => account_error_text(a),
        BranchError::Overflow => "余额溢出"@,
        BranchError::ClockExhausted => "时钟已耗尽"@,
    }
}

impl BranchError {
    /// The text under which the error is shown.
    pub fn to_display_string(&self) -> (s: String)
        ensures
            s@ == branch_error_text(*self),
    {
        match self {
            BranchError::BadOrder => String::from_str("转账指令无法解析: 长度不匹配"),
            BranchError::Refused(a) => a.to_display_string(),
            BranchError::Overflow => String::from_str("余额溢出"),
            BranchError::ClockExhausted => String::from_str("时钟已耗尽"),
        }
    }
}

/// The messages that a branch sends back, and whether it has finished.
#[derive(Debug)]
pub struct BranchReply {
    pub messages: Vec<Message>,
    pub finished: bool,
}

/// The messages of a reply as mathematical values.
pub open spec fn reply_view(r: BranchReply) -> Seq<MessageView> {
    r.messages@.map_values(|m: Message| m@)
}

/// What a TRANSFER does at the branch `id` whose history is `states`, at time
/// `t`: as the source it debits and relays the order (payload `p`) onward, as
/// the destination it credits and acknowledges; a branch that is both does both.
/// The result is the new history and the replies, or why it was refused.
pub open spec fn transfer_effect(
    id: AccountId,
    states: Seq<BalanceState>,
    o: TransferOrder,
    t: u64,
    p: Seq<u8>,
) -> Result<(Seq<BalanceState>, Seq<MessageView>), BranchError> {
    let after_debit: Result<(Seq<BalanceState>, Seq<MessageView>), BranchError> = if o.src == id {
        if o.amount <= 0 {
            Err(BranchError::Refused(AccountError::InvalidAmount(o.amount)))
        } else if balance_of(states) < o.amount {
            Err(BranchError::Refused(AccountError::InsufficientFunds {
                account_id: id,
                balance: balance_of(states),
                required: o.amount,
            }))
        } else {
            Ok((recorded(states, t, (balance_of(states) - o.amount) as Balance), seq![MessageView::Transfer(p)]))
        }
    } else {
        Ok((states, Seq::empty()))
    };
    match after_debit {
        Err(e) => Err(e),
        Ok((s1, out1)) => if o.dst == id {
            if o.amount <= 0 {
                Err(BranchError::Refused(AccountError::InvalidAmount(o.amount)))
            } else if balance_of(s1) + o.amount > i64::MAX {
                Err(BranchError::Overflow)
            } else {
                Ok((recorded(s1, t, (balance_of(s1) + o.amount) as Balance), out1.push(MessageView::Ack)))
            }
        } else {
            Ok((s1, out1))
        },
    }
}

/// Money is conserved by a transfer between two branches: when the source
/// branch and the destination branch each handle the order successfully, the
/// sum of their balances is what it was; the source relays the very payload it
/// received and the destination acknowledges.
pub proof fn lemma_transfer_between_branches(
    src_states: Seq<BalanceState>,
    dst_states: Seq<BalanceState>,
    o: TransferOrder,
    src_time: u64,
    dst_time: u64,
    p: Seq<u8>,
)
    requires
        src_states.len() > 0,
        dst_states.len() > 0,
        o.src != o.dst,
        transfer_effect(o.src, src_states, o, src_time, p) is Ok,
        transfer_effect(o.dst, dst_states, o, dst_time, p) is Ok,
    ensures
        ({
            let (s1, out1) = transfer_effect(o.src, src_states, o, src_time, p)->Ok_0;
            let (s2, out2) = transfer_effect(o.dst, dst_states, o, dst_time, p)->Ok_0;
            &&& balance_of(s1) + balance_of(s2) == balance_of(src_states) + balance_of(dst_states)
            &&& balance_of(s1) == balance_of(src_states) - o.amount
            &&& balance_of(s2) == balance_of(dst_states) + o.amount
            &&& out1 == seq![MessageView::Transfer(p)]
            &&& out2 == seq![MessageView::Ack]
        }),
{
    let bal_src = balance_of(src_states);
    let bal_dst = balance_of(dst_states);
    crate::banking::account::lemma_recorded_appends(src_states, src_time, (bal_src - o.amount) as Balance);
    crate::banking::account::lemma_recorded_appends(dst_states, dst_time, (bal_dst + o.amount) as Balance);
    assert(Seq::<MessageView>::empty().push(MessageView::Ack) =~= seq![MessageView::Ack]);
}

/// A transfer from a branch to itself leaves its balance as it was; the branch
/// both relays the order and acknowledges it.
pub proof fn lemma_transfer_to_self(states: Seq<BalanceState>, o: TransferOrder, t: u64, p: Seq<u8>)
    requires
        states.len() > 0,
        o.src == o.dst,
        transfer_effect(o.src, states, o, t, p) is Ok,
    ensures
        balance_of(transfer_effect(o.src, states, o, t, p)->Ok_0.0) == balance_of(states),
        transfer_effect(o.src, states, o, t, p)->Ok_0.1 == seq![MessageView::Transfer(p), MessageView::Ack],
{
    let bal = balance_of(states);
    let s1 = recorded(states, t, (bal - o.amount) as Balance);
    crate::banking::account::lemma_recorded_appends(states, t, (bal - o.amount) as Balance);
    crate::banking::account::lemma_recorded_appends(s1, t, bal as Balance);
    assert(seq![MessageView::Transfer(p)].push(MessageView::Ack) =~= seq![MessageView::Transfer(p), MessageView::Ack]);
}

/// A branch that is neither the source nor the destination of an order is not
/// touched by it and sends nothing back.
pub proof fn lemma_transfer_elsewhere(id: AccountId, states: Seq<BalanceState>, o: TransferOrder, t: u64, p: Seq<u8>)
    requires
        o.src != id,
        o.dst != id,
    ensures
        transfer_effect(id, states, o, t, p) == Ok::<(Seq<BalanceState>, Seq<MessageView>), BranchError>((states, Seq::empty())),
{
}

/// A transfer is refused exactly when the source cannot cover a positive
/// amount, or the amount is not positive, or the destination would overflow.
pub proof fn lemma_transfer_refused(id: AccountId, states: Seq<BalanceState>, o: TransferOrder, t: u64, p: Seq<u8>)
    requires
        states.len() > 0,
        o.src == id || o.dst == id,
    ensures
        transfer_effect(id, states, o, t, p) is Err <==> (
            o.amount <= 0
            || (o.src == id && balance_of(states) < o.amount)
            || (o.src != id && balance_of(states) + o.amount > i64::MAX)
        ),
{
    if o.src == id && o.amount > 0 && balance_of(states) >= o.amount {
        crate::banking::account::lemma_recorded_appends(states, t, (balance_of(states) - o.amount) as Balance);
    }
}

/// The sum of the balances.
pub open spec fn total(bals: Seq<int>) -> int
    decreases bals.len(),
{
    if bals.len() == 0 { 0 } else { total(bals.drop_last()) + bals.last() }
}

/// The balances of branches `1..=bals.len()` (at index `id - 1`) after an order
/// has been carried out: the source loses the amount, then the destination gains it.
pub open spec fn settle(bals: Seq<int>, o: TransferOrder) -> Seq<int> {
    let s = src_index(o) as int;
    let d = dst_index(o) as int;
    let after_debit = bals.update(s, bals[s] - o.amount);
    after_debit.update(d, after_debit[d] + o.amount)
}

/// The balances after the orders have been carried out one after another.
pub open spec fn settle_all(bals: Seq<int>, orders: Seq<TransferOrder>) -> Seq<int>
    decreases orders.len(),
{
    if orders.len() == 0 { bals } else { settle(settle_all(bals, orders.drop_last()), orders.last()) }
}

/// Changing one balance changes the total by the difference.
pub proof fn lemma_total_update(bals: Seq<int>, i: int, v: int)
    requires
        0 <= i < bals.len(),
    ensures
        total(bals.update(i, v)) == total(bals) - bals[i] + v,
    decreases bals.len(),
{
    let u = bals.update(i, v);
    if i == bals.len() - 1 {
        assert(u.drop_last() =~= bals.drop_last());
    } else {
        lemma_total_update(bals.drop_last(), i, v);
        assert(u.drop_last() =~= bals.drop_last().update(i, v));
    }
}

/// Carrying out an order between existing branches keeps the total.
pub proof fn lemma_settle_conserves(bals: Seq<int>, o: TransferOrder)
    requires
        1 <= o.src <= bals.len(),
        1 <= o.dst <= bals.len(),
    ensures
        settle(bals, o).len() == bals.len(),
        total(settle(bals, o)) == total(bals),
{
    let s = src_index(o) as int;
    let d = dst_index(o) as int;
    let after_debit = bals.update(s, bals[s] - o.amount);
    lemma_total_update(bals, s, bals[s] - o.amount);
    lemma_total_update(after_debit, d, after_debit[d] + o.amount);
}

/// Total money is conserved: however many orders between existing branches
/// are carried out, the sum of all balances is what it was.
pub proof fn lemma_settle_all_conserves(bals: Seq<int>, orders: Seq<TransferOrder>)
    requires
        orders_valid(bals.len(), orders),
    ensures
        settle_all(bals, orders).len() == bals.len(),
        total(settle_all(bals, orders)) == total(bals),
    decreases orders.len(),
{
    if orders.len() > 0 {
        let init = orders.drop_last();
        assert(orders_valid(bals.len(), init)) by {
            assert forall|k: int| 0 <= k < init.len() implies
                1 <= (#[trigger] init[k]).src <= bals.len() && 1 <= init[k].dst <= bals.len() by {
                assert(init[k] == orders[k]);
            }
        }
        lemma_settle_all_conserves(bals, init);
        assert(orders.last() == orders[orders.len() - 1]);
        lemma_settle_conserves(settle_all(bals, init), orders.last());
    }
}

/// Each branch follows the ledger: when branch `id` (holding the balance at
/// index `id - 1`) handles an order successfully, its new balance is the one
/// that `settle` gives it, whether it is the source, the destination, both,
/// or neither.
pub proof fn lemma_branch_settles(
    id: AccountId,
    states: Seq<BalanceState>,
    bals: Seq<int>,
    o: TransferOrder,
    t: u64,
    p: Seq<u8>,
)
    requires
        states.len() > 0,
        1 <= id <= bals.len(),
        1 <= o.src <= bals.len(),
        1 <= o.dst <= bals.len(),
        bals[id - 1] == balance_of(states),
        transfer_effect(id, states, o, t, p) is Ok,
    ensures
        balance_of(transfer_effect(id, states, o, t, p)->Ok_0.0) == settle(bals, o)[id - 1],
{
    let bal = balance_of(states);
    if o.src == id {
        crate::banking::account::lemma_recorded_appends(states, t, (bal - o.amount) as Balance);
        if o.dst == id {
            let s1 = recorded(states, t, (bal - o.amount) as Balance);
            crate::banking::account::lemma_recorded_appends(s1, t, bal as Balance);
        }
    } else if o.dst == id {
        crate::banking::account::lemma_recorded_appends(states, t, (bal + o.amount) as Balance);
    }
}

/// A branch's state as mathematical values: its balance history and its
/// clock's next reading.
pub struct BranchView {
    pub states: Seq<BalanceState>,
    pub time: nat,
}

/// What handling a message does at the branch `id`: the new state and the
/// replies, or none when the branch refuses the message.
pub open spec fn branch_handle(id: AccountId, b: BranchView, m: MessageView) -> Option<(BranchView, Seq<MessageView>)> {
    match m {
        MessageView::Transfer(p) => match parse_order(p) {
            None => None,
            Some(o) => if b.time >= u64::MAX {
                None
            } else {
                match transfer_effect(id, b.states, o, b.time as u64, p) {
                    Ok((s, out)) => Some((BranchView { states: s, time: b.time + 1 }, out)),
                    Err(_) => None,
                }
            },
        },
        MessageView::Stop => Some((b, seq![
            MessageView::Done,
            MessageView::BalanceHistory(history_bytes(HistoryView { id, states: b.states })),
        ])),
        _ => Some((b, Seq::empty())),
    }
}

/// A bank branch: its account and its physical clock. It handles the
/// parent's messages: TRANSFER (debit and relay, or credit and acknowledge)
/// and STOP (report DONE and the balance history, then finish).
#[derive(Debug)]
pub struct BankingBranch {
    account: BranchAccount,
    clock: PhysicalClock,
    ticks: u64,
}

impl BankingBranch {
    /// Whether the parts agree: the history is not empty, belongs to the
    /// account, and the tick count is the clock's time.
    pub closed spec fn wf(&self) -> bool {
        &&& self.account.wf()
        &&& self.account.history.id == self.account.id
        &&& self.ticks as nat == self.clock@
    }

    /// The branch's account id.
    pub closed spec fn id(&self) -> AccountId {
        self.account.id
    }

    /// The branch's balance history.
    pub closed spec fn states(&self) -> Seq<BalanceState> {
        self.account.history.states@
    }

    /// The branch clock's next reading.
    pub closed spec fn time(&self) -> nat {
        self.clock@
    }

    /// The branch's state as mathematical values.
    pub open spec fn branch_view(&self) -> BranchView {
        BranchView { states: self.states(), time: self.time() }
    }

    /// A branch with the given id and initial balance, its clock at zero.
    pub fn new(child_id: AccountId, initial_balance: Balance) -> (b: Self)
        ensures
            b.wf(),
            b.states().len() > 0,
            b.id() == child_id,
            b.states() == seq![BalanceState { balance: initial_balance, time: 0, pending_in: 0 }],
            b.time() == 0,
    {
        BankingBranch { account: BranchAccount::new(child_id, initial_balance), clock: PhysicalClock::new(), ticks: 0 }
    }

    /// The branch's account.
    pub fn account(&self) -> (a: &BranchAccount)
        requires
            self.wf(),
        ensures
            a.wf(),
            a.id == self.id(),
            a.history.id == self.id(),
            a.history.states@ == self.states(),
    {
        &self.account
    }

    /// Handle one message from the parent.
    pub fn handle(&mut self, msg: Message) -> (r: Result<BranchReply, BranchError>)
        requires
            old(self).wf(),
        ensures
            final(self).wf(),
            final(self).states().len() > 0,
            final(self).id() == old(self).id(),
            r is Err ==> final(self).states() == old(self).states(),
            r is Ok <==> branch_handle(old(self).id(), old(self).branch_view(), msg@) is Some,
            r matches Ok(rep) ==> branch_handle(old(self).id(), old(self).branch_view(), msg@)
                == Some((final(self).branch_view(), reply_view(rep))),
            match msg@ {
                MessageView::Transfer(p) => match parse_order(p) {
                    None => r == Err::<BranchReply, BranchError>(BranchError::BadOrder)
                        && final(self).time() == old(self).time(),
                    Some(o) => if old(self).time() == u64::MAX {
                        r == Err::<BranchReply, BranchError>(BranchError::ClockExhausted)
                            && final(self).time() == old(self).time()
                    } else {
                        &&& final(self).time() == old(self).time() + 1
                        &&& match transfer_effect(old(self).id(), old(self).states(), o, old(self).time() as u64, p) {
                            Ok((s, out)) => r matches Ok(rep) && reply_view(rep) == out && !rep.finished
                                && final(self).states() == s,
                            Err(e) => r == Err::<BranchReply, BranchError>(e),
                        }
                    },
                },
                MessageView::Stop => r matches Ok(rep) && rep.finished && reply_view(rep) == seq![
                    MessageView::Done,
                    MessageView::BalanceHistory(history_bytes(HistoryView { id: old(self).id(), states: old(self).states() })),
                ] && final(self).states() == old(self).states() && final(self).time() == old(self).time(),
                _ => r matches Ok(rep) && !rep.finished && reply_view(rep).len() == 0
                    && final(self).states() == old(self).states() && final(self).time() == old(self).time(),
            },
    {
        match msg {
            Message::Transfer(payload) => {
                let order = match TransferOrder::from_bytes(payload.as_slice()) {
                    Ok(o) => o,
                    Err(_) => {
                        return Err(BranchError::BadOrder);
                    },
                };
                if self.ticks == u64::MAX {
                    return Err(BranchError::ClockExhausted);
                }
                let now = self.clock.now();
                self.ticks = self.ticks + 1;
                let id = self.account.id;
                let mut out: Vec<Message> = Vec::new();
                if order.src == id {
                    match self.account.debit(order.amount, now) {
                        Ok(()) => {},
                        Err(e) => {
                            return Err(BranchError::Refused(e));
                        },
                    }
                    out.push(Message::Transfer(payload));
                }
                if order.dst == id {
                    if order.amount > 0 {
                        let balance = self.account.current_balance();
                        if balance > i64::MAX - order.amount {
                            return Err(BranchError::Overflow);
                        }
                    }
                    match self.account.credit(order.amount, now) {
                        Ok(()) => {},
                        Err(e) => {
                            return Err(BranchError::Refused(e));
                        },
                    }
                    out.push(Message::Ack);
                }
                Ok(BranchReply { messages: out, finished: false })
            },
            Message::Stop => {
                let bytes = self.account.history.to_bytes();
                let messages = vec![Message::Done, Message::BalanceHistory(bytes)];
                Ok(BranchReply { messages, finished: true })
            },
            _ => Ok(BranchReply { messages: Vec::new(), finished: false }),
        }
    }
}


// ═══════════════ the banking parent (coordinator side) ═══════════════

/// Where the banking parent stands.
#[derive(Debug, Clone, Copy, PartialEq, Eq)]
pub enum BankPhase {
    /// Waiting for STARTED from each child in turn.
    AwaitStarted,
    /// Sending the current order to its source branch.
    SendOrder,
    /// Waiting for the source branch to relay the order.
    AwaitRelay,
    /// Forwarding the relayed order to the destination branch.
    Forward,
    /// Waiting for the destination branch's ACK.
    AwaitAck,
    /// Sending STOP to each child in turn.
    SendStop,
    /// Waiting for DONE from each child in turn.
    AwaitDone,
    /// Waiting for the balance history of each child in turn.
    AwaitHistory,
    /// Every history has arrived.
    Complete,
}

/// The banking parent's state as mathematical values.
pub struct BankView {
    pub children: nat,
    pub orders: Seq<TransferOrder>,
    pub phase: BankPhase,
    pub next: nat,
    pub acked: nat,
    pub relayed: Seq<u8>,
    pub histories: Seq<HistoryView>,
}

/// The banking parent: it synchronises the start of its children, carries out
/// each transfer order (the source debits and relays the order through the
/// parent, the destination credits and acknowledges), stops every child, and
/// collects DONE and then the balance history of every child.
pub struct BankingCoordinator {
    children: usize,
    orders: Vec<TransferOrder>,
    phase: BankPhase,
    next: usize,
    acked: usize,
    relayed: Vec<u8>,
    histories: AllHistory,
}

impl View for BankingCoordinator {
    type V = BankView;

    closed spec fn view(&self) -> BankView {
        BankView {
            children: self.children as nat,
            orders: self.orders@,
            phase: self.phase,
            next: self.next as nat,
            acked: self.acked as nat,
            relayed: self.relayed@,
            histories: self.histories@,
        }
    }
}

/// Whether a phase concerns one child at a time (rather than one order).
pub open spec fn per_child(p: BankPhase) -> bool {
    p == BankPhase::AwaitStarted || p == BankPhase::SendStop || p == BankPhase::AwaitDone
        || p == BankPhase::AwaitHistory
}

/// Whether a phase belongs to carrying out an order.
pub open spec fn per_order(p: BankPhase) -> bool {
    p == BankPhase::SendOrder || p == BankPhase::AwaitRelay || p == BankPhase::Forward
        || p == BankPhase::AwaitAck
}

/// Whether every order names branches that exist.
pub open spec fn orders_valid(children: nat, orders: Seq<TransferOrder>) -> bool {
    forall|k: int| 0 <= k < orders.len() ==>
        1 <= (#[trigger] orders[k]).src <= children && 1 <= orders[k].dst <= children
}

/// The first branch id, order by order (source before destination), that
/// names no existing branch; none when every order is valid.
pub open spec fn first_missing_branch(children: nat, orders: Seq<TransferOrder>) -> Option<AccountId>
    decreases orders.len(),
{
    if orders.len() == 0 {
        None
    } else if orders[0].src == 0 || orders[0].src > children {
        Some(orders[0].src)
    } else if orders[0].dst == 0 || orders[0].dst > children {
        Some(orders[0].dst)
    } else {
        first_missing_branch(children, orders.skip(1))
    }
}

/// An order list is valid exactly when no order names a missing branch.
pub proof fn lemma_first_missing_branch(children: nat, orders: Seq<TransferOrder>)
    ensures
        first_missing_branch(children, orders) is None <==> orders_valid(children, orders),
    decreases orders.len(),
{
    if orders.len() > 0 {
        let rest = orders.skip(1);
        lemma_first_missing_branch(children, rest);
        if orders_valid(children, orders) {
            assert forall|k: int| 0 <= k < rest.len() implies
                1 <= (#[trigger] rest[k]).src <= children && 1 <= rest[k].dst <= children by {
                assert(rest[k] == orders[k + 1]);
            }
        }
        if orders_valid(children, rest) && first_missing_branch(children, orders) is None {
            assert forall|k: int| 0 <= k < orders.len() implies
                1 <= (#[trigger] orders[k]).src <= children && 1 <= orders[k].dst <= children by {
                if k > 0 {
                    assert(orders[k] == rest[k - 1]);
                }
            }
        }
    }
}

/// Whether the coordinator's state is consistent: per-child phases point at
/// a child, per-order phases at an order with all earlier orders acknowledged,
/// STOP is only sent once every order is acknowledged, and the histories
/// collected so far are those of the children before `next`.
pub open spec fn bank_wf(v: BankView) -> bool {
    &&& v.children <= 9
    &&& orders_valid(v.children, v.orders)
    &&& v.orders.len() < usize::MAX
    &&& per_child(v.phase) ==> v.next < v.children
    &&& per_order(v.phase) ==> v.next < v.orders.len() && v.acked == v.next
    &&& v.phase == BankPhase::AwaitStarted ==> v.acked == 0
    &&& (v.phase == BankPhase::SendStop || v.phase == BankPhase::AwaitDone || v.phase == BankPhase::AwaitHistory
        || v.phase == BankPhase::Complete) ==> v.acked == v.orders.len() || v.children == 0
    &&& v.phase == BankPhase::AwaitHistory ==> v.histories.len() == v.next
    &&& v.phase == BankPhase::Complete ==> v.histories.len() == v.children
    &&& (v.phase != BankPhase::AwaitHistory && v.phase != BankPhase::Complete) ==> v.histories.len() == 0
}

/// The stream index of an order's source branch.
pub open spec fn src_index(o: TransferOrder) -> nat {
    (o.src - 1) as nat
}

/// The stream index of an order's destination branch.
pub open spec fn dst_index(o: TransferOrder) -> nat {
    (o.dst - 1) as nat
}

/// What the coordinator does in a state.
pub open spec fn bank_action(v: BankView) -> SyncActionView {
    match v.phase {
        BankPhase::AwaitStarted => SyncActionView::Receive(v.next),
        BankPhase::SendOrder => SyncActionView::Send(
            src_index(v.orders[v.next as int]),
            MessageView::Transfer(order_bytes(v.orders[v.next as int])),
        ),
        BankPhase::AwaitRelay => SyncActionView::Receive(src_index(v.orders[v.next as int])),
        BankPhase::Forward => SyncActionView::Send(
            dst_index(v.orders[v.next as int]),
            MessageView::Transfer(v.relayed),
        ),
        BankPhase::AwaitAck => SyncActionView::Receive(dst_index(v.orders[v.next as int])),
        BankPhase::SendStop => SyncActionView::Send(v.next, MessageView::Stop),
        BankPhase::AwaitDone => SyncActionView::Receive(v.next),
        BankPhase::AwaitHistory => SyncActionView::Receive(v.next),
        BankPhase::Complete => SyncActionView::Finish,
    }
}

/// The next child in a per-child phase, or the first child of phase `then`.
pub open spec fn next_child(v: BankView, then: BankPhase) -> BankView {
    if v.next + 1 < v.children {
        BankView { next: v.next + 1, ..v }
    } else {
        BankView { phase: then, next: 0, ..v }
    }
}

/// The phase after every child has started: the first order, or STOP when there is none.
pub open spec fn after_started(v: BankView) -> BankPhase {
    if v.orders.len() == 0 { BankPhase::SendStop } else { BankPhase::SendOrder }
}

/// The state after a message was sent.
pub open spec fn bank_sent(v: BankView) -> BankView {
    match v.phase {
        BankPhase::SendOrder => BankView { phase: BankPhase::AwaitRelay, ..v },
        BankPhase::Forward => BankView { phase: BankPhase::AwaitAck, ..v },
        _ => next_child(v, BankPhase::AwaitDone),
    }
}

/// Whether a phase waits for a message.
pub open spec fn receiving(p: BankPhase) -> bool {
    p == BankPhase::AwaitStarted || p == BankPhase::AwaitRelay || p == BankPhase::AwaitAck
        || p == BankPhase::AwaitDone || p == BankPhase::AwaitHistory
}

/// Whether a phase sends a message.
pub open spec fn sending(p: BankPhase) -> bool {
    p == BankPhase::SendOrder || p == BankPhase::Forward || p == BankPhase::SendStop
}

/// Whether the received message is the one awaited.
pub open spec fn bank_accepts(v: BankView, m: MessageView) -> bool {
    match v.phase {
        BankPhase::AwaitStarted => m is Started,
        BankPhase::AwaitRelay => m is Transfer,
        BankPhase::AwaitAck => m is Ack,
        BankPhase::AwaitDone => m is Done,
        BankPhase::AwaitHistory => m is BalanceHistory && parse_history(m->BalanceHistory_0) is Some,
        _ => false,
    }
}

/// The state after an awaited message arrived.
pub open spec fn bank_received(v: BankView, m: MessageView) -> BankView {
    match v.phase {
        BankPhase::AwaitStarted => next_child(v, after_started(v)),
        BankPhase::AwaitRelay => BankView {
            phase: if v.orders[v.next as int].src == v.orders[v.next as int].dst {
                BankPhase::AwaitAck
            } else {
                BankPhase::Forward
            },
            relayed: m->Transfer_0,
            ..v
        },
        BankPhase::AwaitAck => if v.next + 1 < v.orders.len() {
            BankView { phase: BankPhase::SendOrder, next: v.next + 1, acked: v.acked + 1, ..v }
        } else {
            BankView { phase: BankPhase::SendStop, next: 0, acked: v.acked + 1, ..v }
        },
        BankPhase::AwaitDone => next_child(v, BankPhase::AwaitHistory),
        _ => next_child(
            BankView { histories: v.histories.push(parse_history(m->BalanceHistory_0)->0), ..v },
            BankPhase::Complete,
        ),
    }
}

/// The error text when another message arrives than the one awaited.
pub open spec fn bank_error_text(p: BankPhase, got: MessageView) -> Seq<char> {
    match p {
        BankPhase::AwaitStarted => "expected Started, but got "@ + message_text(got),
        BankPhase::AwaitRelay => "expected TRANSFER, got "@ + message_text(got),
        BankPhase::AwaitAck => unexpected_reply_text(got),
        BankPhase::AwaitDone => "expected Done, but got "@ + message_text(got),
        _ => "expected BALANCE_HISTORY, got "@ + message_text(got),
    }
}

/// The error for a message that is not the one awaited.
pub open spec fn bank_refusal(v: BankView, m: MessageView, e: BankingError) -> bool {
    if v.phase == BankPhase::AwaitHistory && m is BalanceHistory {
        e matches BankingError::SerializationError(s) && s@ == length_mismatch_text()
    } else {
        e matches BankingError::ProtocolError(s) && s@ == bank_error_text(v.phase, m)
    }
}

/// The text of the error for a number of initial balances other than the number of children.
pub open spec fn balance_count_text() -> Seq<char> {
    "初始余额数量应等于子进程数量"@
}

/// The text of the error for more than nine children.
pub open spec fn too_many_children_text() -> Seq<char> {
    "子进程数量不能超过 9 (ITMO 限制)"@
}

fn expect_error(prefix: &str, got: &Message) -> (e: BankingError)
    ensures
        e matches BankingError::ProtocolError(s) && s@ == prefix@ + message_text(got@),
{
    let mut s = String::from_str(prefix);
    let shown = got.to_display_string();
    s.append(shown.as_str());
    BankingError::ProtocolError(s)
}

/// What every step keeps: STOP goes out only once every order has been
/// acknowledged, and a complete coordinator holds exactly one history per child.
pub proof fn lemma_bank_progress(v: BankView)
    requires
        bank_wf(v),
        v.children > 0,
    ensures
        bank_action(v) matches SyncActionView::Send(_, MessageView::Stop) ==> v.acked == v.orders.len(),
        v.phase == BankPhase::Complete ==> v.histories.len() == v.children && v.acked == v.orders.len(),
{
}

impl BankingCoordinator {
    /// Whether the state is consistent.
    pub closed spec fn wf(&self) -> bool {
        bank_wf(self@)
    }

    /// Set up the banking parent for `children_count` children and the given
    /// orders. No children: nothing to do. More than nine children are
    /// refused, and so is an order that names a branch that does not exist.
    pub fn new(
        children_count: usize,
        initial_balances: &[Balance],
        transfer_orders: &[TransferOrder],
    ) -> (r: Result<Self, BankingError>)
        requires
            transfer_orders@.len() < usize::MAX,
        ensures
            children_count > 9 ==> (r matches Err(BankingError::ProtocolError(s)) && s@ == too_many_children_text()),
            1 <= children_count <= 9 && initial_balances@.len() != children_count ==>
                (r matches Err(BankingError::ProtocolError(s)) && s@ == balance_count_text()),
            1 <= children_count <= 9 && initial_balances@.len() == children_count
                && !orders_valid(children_count as nat, transfer_orders@) ==>
                (r matches Err(BankingError::AccountNotFound(id))
                    && first_missing_branch(children_count as nat, transfer_orders@) == Some(id)),
            r is Ok <==> (children_count == 0 || (children_count <= 9 && initial_balances@.len() == children_count
                && orders_valid(children_count as nat, transfer_orders@))),
            r matches Ok(c) ==> c.wf() && c@ == (BankView {
                children: children_count as nat,
                orders: if children_count == 0 { Seq::empty() } else { transfer_orders@ },
                phase: if children_count == 0 { BankPhase::Complete } else { BankPhase::AwaitStarted },
                next: 0,
                acked: 0,
                relayed: Seq::empty(),
                histories: Seq::empty(),
            }),
    {
        if children_count == 0 {
            let c = BankingCoordinator {
                children: 0,
                orders: Vec::new(),
                phase: BankPhase::Complete,
                next: 0,
                acked: 0,
                relayed: Vec::new(),
                histories: AllHistory::new(),
            };
            assert(c@.histories =~= Seq::<HistoryView>::empty());
            assert(c@.orders =~= Seq::<TransferOrder>::empty());
            assert(c@.relayed =~= Seq::<u8>::empty());
            return Ok(c);
        }
        if children_count > 9 {
            return Err(BankingError::ProtocolError(String::from_str("子进程数量不能超过 9 (ITMO 限制)")));
        }
        if initial_balances.len() != children_count {
            return Err(BankingError::ProtocolError(String::from_str("初始余额数量应等于子进程数量")));
        }
        let mut orders: Vec<TransferOrder> = Vec::new();
        let mut k: usize = 0;
        assert(transfer_orders@.skip(0) =~= transfer_orders@);
        while k < transfer_orders.len()
            invariant
                k <= transfer_orders@.len(),
                1 <= children_count <= 9,
                initial_balances@.len() == children_count,
                orders@ == transfer_orders@.take(k as int),
                orders_valid(children_count as nat, orders@),
                first_missing_branch(children_count as nat, transfer_orders@)
                    == first_missing_branch(children_count as nat, transfer_orders@.skip(k as int)),
            decreases transfer_orders@.len() - k,
        {
            let o = transfer_orders[k];
            proof {
                let rest = transfer_orders@.skip(k as int);
                assert(rest[0] == o);
                assert(rest.skip(1) =~= transfer_orders@.skip(k + 1));
            }
            if o.src == 0 || o.src as usize > children_count {
                return Err(BankingError::AccountNotFound(o.src));
            }
            if o.dst == 0 || o.dst as usize > children_count {
                return Err(BankingError::AccountNotFound(o.dst));
            }
            orders.push(o);
            assert(transfer_orders@.take(k + 1) =~= transfer_orders@.take(k as int).push(o));
            k = k + 1;
        }
        assert(transfer_orders@.take(k as int) =~= transfer_orders@);
        proof { lemma_first_missing_branch(children_count as nat, transfer_orders@); }
        let c = BankingCoordinator {
            children: children_count,
            orders,
            phase: BankPhase::AwaitStarted,
            next: 0,
            acked: 0,
            relayed: Vec::new(),
            histories: AllHistory::new(),
        };
        assert(c@.histories =~= Seq::<HistoryView>::empty());
        assert(c@.relayed =~= Seq::<u8>::empty());
        Ok(c)
    }

    /// The current phase.
    pub fn phase(&self) -> (p: BankPhase)
        ensures
            p == self@.phase,
    {
        self.phase
    }

    /// What to do next.
    pub fn next_action(&self) -> (a: SyncAction)
        requires
            self.wf(),
        ensures
            a@ == bank_action(self@),
    {
        match self.phase {
            BankPhase::AwaitStarted => SyncAction::Receive(self.next),
            BankPhase::SendOrder => {
                let o = self.orders[self.next];
                let payload = o.to_bytes();
                SyncAction::Send((o.src - 1) as usize, Message::Transfer(payload))
            },
            BankPhase::AwaitRelay => {
                let o = self.orders[self.next];
                SyncAction::Receive((o.src - 1) as usize)
            },
            BankPhase::Forward => {
                let o = self.orders[self.next];
                let mut payload: Vec<u8> = Vec::new();
                crate::banking::types::append_bytes(&mut payload, self.relayed.as_slice());
                proof { assert(payload@ =~= self.relayed@); }
                SyncAction::Send((o.dst - 1) as usize, Message::Transfer(payload))
            },
            BankPhase::AwaitAck => {
                let o = self.orders[self.next];
                SyncAction::Receive((o.dst - 1) as usize)
            },
            BankPhase::SendStop => SyncAction::Send(self.next, Message::Stop),
            BankPhase::AwaitDone => SyncAction::Receive(self.next),
            BankPhase::AwaitHistory => SyncAction::Receive(self.next),
            BankPhase::Complete => SyncAction::Finish,
        }
    }

    fn next_child(&mut self, then: BankPhase)
        requires
            per_child(old(self)@.phase),
            old(self)@.next < old(self)@.children,
        ensures
            final(self)@ == next_child(old(self)@, then),
    {
        if self.next + 1 < self.children {
            self.next = self.next + 1;
        } else {
            self.next = 0;
            self.phase = then;
        }
    }

    /// The message of the current sending step was sent; move on.
    pub fn on_sent(&mut self)
        requires
            old(self).wf(),
            sending(old(self)@.phase),
        ensures
            final(self).wf(),
            final(self)@ == bank_sent(old(self)@),
    {
        match self.phase {
            BankPhase::SendOrder => {
                self.phase = BankPhase::AwaitRelay;
            },
            BankPhase::Forward => {
                self.phase = BankPhase::AwaitAck;
            },
            _ => {
                self.next_child(BankPhase::AwaitDone);
            },
        }
    }

    /// Take the message that the awaited child sent: the awaited one moves
    /// on (a relayed order is kept for forwarding, a balance history is
    /// decoded and collected); any other is refused and nothing changes.
    pub fn on_received(&mut self, msg: Message) -> (r: Result<(), BankingError>)
        requires
            old(self).wf(),
            receiving(old(self)@.phase),
        ensures
            final(self).wf(),
            r is Ok <==> bank_accepts(old(self)@, msg@),
            r is Ok ==> final(self)@ == bank_received(old(self)@, msg@),
            r matches Err(e) ==> final(self)@ == old(self)@ && bank_refusal(old(self)@, msg@, e),
    {
        match self.phase {
            BankPhase::AwaitStarted => {
                match msg {
                    Message::Started => {
                        let then = if self.orders.len() == 0 { BankPhase::SendStop } else { BankPhase::SendOrder };
                        self.next_child(then);
                        Ok(())
                    },
                    other => Err(expect_error("expected Started, but got ", &other)),
                }
            },
            BankPhase::AwaitRelay => {
                match msg {
                    Message::Transfer(payload) => {
                        let o = self.orders[self.next];
                        self.relayed = payload;
                        self.phase = if o.src == o.dst { BankPhase::AwaitAck } else { BankPhase::Forward };
                        Ok(())
                    },
                    other => Err(expect_error("expected TRANSFER, got ", &other)),
                }
            },
            BankPhase::AwaitAck => {
                match crate::banking::transfer::transfer_outcome(&msg) {
                    Ok(()) => {
                        self.acked = self.acked + 1;
                        if self.next + 1 < self.orders.len() {
                            self.next = self.next + 1;
                            self.phase = BankPhase::SendOrder;
                        } else {
                            self.next = 0;
                            self.phase = BankPhase::SendStop;
                        }
                        Ok(())
                    },
                    Err(e) => Err(e),
                }
            },
            BankPhase::AwaitDone => {
                match msg {
                    Message::Done => {
                        self.next_child(BankPhase::AwaitHistory);
                        Ok(())
                    },
                    other => Err(expect_error("expected Done, but got ", &other)),
                }
            },
            _ => {
                match msg {
                    Message::BalanceHistory(bytes) => {
                        match BalanceHistory::from_bytes(bytes.as_slice()) {
                            Ok(h) => {
                                let ghost before = self.histories@;
                                self.histories.push(h);
                                proof {
                                    assert(self.histories@ =~= before.push(h@));
                                }
                                self.next_child(BankPhase::Complete);
                                Ok(())
                            },
                            Err(e) => Err(BankingError::SerializationError(e)),
                        }
                    },
                    other => Err(expect_error("expected BALANCE_HISTORY, got ", &other)),
                }
            },
        }
    }

    /// The collected histories, one per child in order, once complete.
    pub fn into_histories(self) -> (a: AllHistory)
        requires
            self.wf(),
            self@.phase == BankPhase::Complete,
        ensures
            a@ == self@.histories,
            a@.len() == self@.children,
    {
        self.histories
    }
}

} // verus!
