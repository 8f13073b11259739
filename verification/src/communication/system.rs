use vstd::prelude::*;
use crate::banking::account::{balance_of, lemma_recorded_appends, recorded};
use crate::banking::types::{
    history_bytes, lemma_balance_history_roundtrip, lemma_history_bytes_len, lemma_transfer_order_roundtrip,
    order_bytes, parse_history, parse_order, AccountId, Balance, BalanceState, HistoryView, TransferOrder,
};
use crate::communication::message::MessageView;
use crate::communication::process::{
    after_started, bank_accepts, bank_action, bank_received, bank_sent, branch_handle, dst_index, lemma_settle_all_conserves,
    orders_valid, settle, settle_all, src_index, total, transfer_effect, BankPhase, BankView, BranchView,
    SyncActionView,
};

verus! {

/// A whole bank as mathematical values: the coordinator, every branch
/// (branch `i` has id `i + 1`), and for every branch the messages it has
/// sent that the coordinator has not read yet.
pub struct BankSystem {
    pub coord: BankView,
    pub branches: Seq<BranchView>,
    pub inbox: Seq<Seq<MessageView>>,
}

/// One step of the whole bank: the coordinator's next action. A send is
/// handled at once by the branch, whose replies queue up for the coordinator;
/// a receive takes the oldest queued message of that branch. None when a
/// branch refuses a message or the coordinator refuses what it reads.
pub open spec fn sys_step(s: BankSystem) -> Option<BankSystem> {
    match bank_action(s.coord) {
        SyncActionView::Send(i, m) => match branch_handle((i + 1) as u8, s.branches[i as int], m) {
            None => None,
            Some((b, out)) => Some(BankSystem {
                coord: bank_sent(s.coord),
                branches: s.branches.update(i as int, b),
                inbox: s.inbox.update(i as int, s.inbox[i as int] + out),
            }),
        },
        SyncActionView::Receive(i) => if s.inbox[i as int].len() > 0 && bank_accepts(s.coord, s.inbox[i as int][0]) {
            Some(BankSystem {
                coord: bank_received(s.coord, s.inbox[i as int][0]),
                branches: s.branches,
                inbox: s.inbox.update(i as int, s.inbox[i as int].skip(1)),
            })
        } else {
            None
        },
        SyncActionView::Finish => Some(s),
    }
}

/// `k` steps of the whole bank, or none if one of them fails.
pub open spec fn sys_run(s: BankSystem, k: nat) -> Option<BankSystem>
    decreases k,
{
    if k == 0 {
        Some(s)
    } else {
        match sys_step(s) {
            None => None,
            Some(t) => sys_run(t, (k - 1) as nat),
        }
    }
}

/// The bank at the start: a fresh coordinator, a fresh branch per initial
/// balance, each of which has sent STARTED.
pub open spec fn sys_start(balances: Seq<Balance>, orders: Seq<TransferOrder>) -> BankSystem {
    BankSystem {
        coord: BankView {
            children: balances.len(),
            orders,
            phase: BankPhase::AwaitStarted,
            next: 0,
            acked: 0,
            relayed: Seq::empty(),
            histories: Seq::empty(),
        },
        branches: Seq::new(
            balances.len(),
            |i: int| BranchView { states: seq![BalanceState { balance: balances[i], time: 0, pending_in: 0 }], time: 0 },
        ),
        inbox: Seq::new(balances.len(), |i: int| seq![MessageView::Started]),
    }
}

/// Balances as integers.
pub open spec fn as_ints(balances: Seq<Balance>) -> Seq<int> {
    Seq::new(balances.len(), |i: int| balances[i] as int)
}

/// The branches' current balances.
pub open spec fn branch_balances(branches: Seq<BranchView>) -> Seq<int> {
    Seq::new(branches.len(), |i: int| balance_of(branches[i].states) as int)
}

/// The ledger after the first `k` orders.
pub open spec fn ledger(init: Seq<int>, orders: Seq<TransferOrder>, k: nat) -> Seq<int> {
    settle_all(init, orders.take(k as int))
}

/// The ledger with only the source's side of an order carried out.
pub open spec fn debited(b: Seq<int>, o: TransferOrder) -> Seq<int> {
    b.update(src_index(o) as int, b[src_index(o) as int] - o.amount)
}

/// The history of branch `i` as it reports it.
pub open spec fn branch_history(i: int, b: BranchView) -> HistoryView {
    HistoryView { id: (i + 1) as u8, states: b.states }
}

/// The BALANCE_HISTORY message of branch `i`.
pub open spec fn history_msg(i: int, b: BranchView) -> MessageView {
    MessageView::BalanceHistory(history_bytes(branch_history(i, b)))
}

/// What holds in each phase of a run that started from `init` with `orders`.
pub open spec fn phase_inv(s: BankSystem, init: Seq<int>, orders: Seq<TransferOrder>) -> bool {
    let n = init.len();
    let c = s.coord;
    let bals = branch_balances(s.branches);
    match c.phase {
        BankPhase::AwaitStarted => {
            &&& c.next < n && c.histories.len() == 0
            &&& bals == ledger(init, orders, 0)
            &&& forall|i: int| 0 <= i < n ==> #[trigger] s.inbox[i]
                == (if i < c.next { Seq::<MessageView>::empty() } else { seq![MessageView::Started] })
        },
        BankPhase::SendOrder => {
            &&& c.next < orders.len() && c.histories.len() == 0
            &&& bals == ledger(init, orders, c.next)
            &&& forall|i: int| 0 <= i < n ==> #[trigger] s.inbox[i] == Seq::<MessageView>::empty()
        },
        BankPhase::AwaitRelay => {
            let o = orders[c.next as int];
            &&& c.next < orders.len() && c.histories.len() == 0
            &&& if o.src != o.dst {
                &&& bals == debited(ledger(init, orders, c.next), o)
                &&& forall|i: int| 0 <= i < n ==> #[trigger] s.inbox[i] == (if i == src_index(o) {
                    seq![MessageView::Transfer(order_bytes(o))]
                } else {
                    Seq::<MessageView>::empty()
                })
            } else {
                &&& bals == ledger(init, orders, c.next + 1)
                &&& forall|i: int| 0 <= i < n ==> #[trigger] s.inbox[i] == (if i == src_index(o) {
                    seq![MessageView::Transfer(order_bytes(o)), MessageView::Ack]
                } else {
                    Seq::<MessageView>::empty()
                })
            }
        },
        BankPhase::Forward => {
            let o = orders[c.next as int];
            &&& c.next < orders.len() && c.histories.len() == 0
            &&& o.src != o.dst
            &&& c.relayed == order_bytes(o)
            &&& bals == debited(ledger(init, orders, c.next), o)
            &&& forall|i: int| 0 <= i < n ==> #[trigger] s.inbox[i] == Seq::<MessageView>::empty()
        },
        BankPhase::AwaitAck => {
            let o = orders[c.next as int];
            &&& c.next < orders.len() && c.histories.len() == 0
            &&& bals == ledger(init, orders, c.next + 1)
            &&& forall|i: int| 0 <= i < n ==> #[trigger] s.inbox[i]
                == (if i == dst_index(o) { seq![MessageView::Ack] } else { Seq::<MessageView>::empty() })
        },
        BankPhase::SendStop => {
            &&& c.next < n && c.histories.len() == 0
            &&& bals == ledger(init, orders, orders.len())
            &&& forall|i: int| 0 <= i < n ==> #[trigger] s.inbox[i] == (if i < c.next {
                seq![MessageView::Done, history_msg(i, s.branches[i])]
            } else {
                Seq::<MessageView>::empty()
            })
        },
        BankPhase::AwaitDone => {
            &&& c.next < n && c.histories.len() == 0
            &&& bals == ledger(init, orders, orders.len())
            &&& forall|i: int| 0 <= i < n ==> #[trigger] s.inbox[i] == (if i < c.next {
                seq![history_msg(i, s.branches[i])]
            } else {
                seq![MessageView::Done, history_msg(i, s.branches[i])]
            })
        },
        BankPhase::AwaitHistory => {
            &&& c.next < n && c.histories.len() == c.next
            &&& bals == ledger(init, orders, orders.len())
            &&& forall|i: int| 0 <= i < c.next ==> #[trigger] c.histories[i] == branch_history(i, s.branches[i])
            &&& forall|i: int| 0 <= i < n ==> #[trigger] s.inbox[i] == (if i < c.next {
                Seq::<MessageView>::empty()
            } else {
                seq![history_msg(i, s.branches[i])]
            })
        },
        BankPhase::Complete => {
            &&& c.histories.len() == n
            &&& bals == ledger(init, orders, orders.len())
            &&& forall|i: int| 0 <= i < n ==> #[trigger] c.histories[i] == branch_history(i, s.branches[i])
        },
    }
}

/// The invariant of a run of the whole bank.
pub open spec fn sys_inv(s: BankSystem, init: Seq<int>, orders: Seq<TransferOrder>) -> bool {
    let n = init.len();
    &&& 1 <= n <= 9
    &&& orders_valid(n, orders)
    &&& s.coord.children == n
    &&& s.coord.orders == orders
    &&& s.branches.len() == n
    &&& s.inbox.len() == n
    &&& forall|i: int| 0 <= i < n ==> (#[trigger] s.branches[i]).states.len() > 0
    &&& phase_inv(s, init, orders)
}

proof fn lemma_orders_valid_take(n: nat, orders: Seq<TransferOrder>, k: int)
    requires
        orders_valid(n, orders),
        0 <= k <= orders.len(),
    ensures
        orders_valid(n, orders.take(k)),
{
    assert forall|j: int| 0 <= j < orders.take(k).len() implies
        1 <= (#[trigger] orders.take(k)[j]).src <= n && 1 <= orders.take(k)[j].dst <= n by {
        assert(orders.take(k)[j] == orders[j]);
    }
}

pub proof fn lemma_ledger(init: Seq<int>, orders: Seq<TransferOrder>, k: nat)
    requires
        orders_valid(init.len(), orders),
        k <= orders.len(),
    ensures
        ledger(init, orders, k).len() == init.len(),
        k < orders.len() ==> ledger(init, orders, k + 1) == settle(ledger(init, orders, k), orders[k as int]),
        ledger(init, orders, 0) == init,
{
    lemma_orders_valid_take(init.len(), orders, k as int);
    lemma_settle_all_conserves(init, orders.take(k as int));
    assert(orders.take(0) =~= Seq::<TransferOrder>::empty());
    if k < orders.len() {
        assert(orders.take(k + 1 as int).drop_last() =~= orders.take(k as int));
        assert(orders.take(k + 1 as int).last() == orders[k as int]);
    }
}

/// The order's bytes decode to the order.
proof fn lemma_order_decodes(o: TransferOrder)
    ensures
        parse_order(order_bytes(o)) == Some(o),
{
    lemma_transfer_order_roundtrip(o);
}

/// A history message that the coordinator can decode is the branch's own history.
proof fn lemma_balance_history_roundtrip_if_small(h: HistoryView)
    requires
        parse_history(history_bytes(h)) is Some,
    ensures
        h.states.len() < 256,
        parse_history(history_bytes(h)) == Some(h),
{
    lemma_history_bytes_len(h);
    let b = history_bytes(h);
    let n = h.states.len();
    assert(b[1] as nat == n % 256);
    assert(24 * (n % 256) + 2 == 24 * n + 2);
    assert(n % 256 == n);
    lemma_balance_history_roundtrip(h);
}

proof fn lemma_step_send_order(s: BankSystem, init: Seq<int>, orders: Seq<TransferOrder>)
    requires
        sys_inv(s, init, orders),
        s.coord.phase == BankPhase::SendOrder,
        sys_step(s) is Some,
    ensures
        sys_inv(sys_step(s)->0, init, orders),
{
    let c = s.coord;
    let k = c.next;
    let o = orders[k as int];
    let n = init.len();
    let si = src_index(o) as int;
    let p = order_bytes(o);
    lemma_order_decodes(o);
    lemma_ledger(init, orders, k);
    let b = s.branches[si];
    let bal = balance_of(b.states);
    let t = sys_step(s)->0;
    assert(bank_action(c) == SyncActionView::Send(si as nat, MessageView::Transfer(p)));
    assert((si + 1) as u8 == o.src);
    let eff = transfer_effect(o.src, b.states, o, b.time as u64, p);
    assert(eff is Ok);
    let L = ledger(init, orders, k);
    assert(L[si] == bal);
    if o.src != o.dst {
        lemma_recorded_appends(b.states, b.time as u64, (bal - o.amount) as Balance);
        assert(branch_balances(t.branches) =~= debited(L, o));
        assert forall|i: int| 0 <= i < n implies #[trigger] t.inbox[i] == (if i == si {
            seq![MessageView::Transfer(p)]
        } else {
            Seq::<MessageView>::empty()
        }) by {
            if i == si {
                assert(Seq::<MessageView>::empty() + seq![MessageView::Transfer(p)] =~= seq![MessageView::Transfer(p)]);
            }
        }
    } else {
        let s1 = recorded(b.states, b.time as u64, (bal - o.amount) as Balance);
        lemma_recorded_appends(b.states, b.time as u64, (bal - o.amount) as Balance);
        lemma_recorded_appends(s1, b.time as u64, bal as Balance);
        assert(branch_balances(t.branches) =~= settle(L, o));
        assert forall|i: int| 0 <= i < n implies #[trigger] t.inbox[i] == (if i == si {
            seq![MessageView::Transfer(p), MessageView::Ack]
        } else {
            Seq::<MessageView>::empty()
        }) by {
            if i == si {
                assert(Seq::<MessageView>::empty() + seq![MessageView::Transfer(p)].push(MessageView::Ack)
                    =~= seq![MessageView::Transfer(p), MessageView::Ack]);
            }
        }
    }
    assert forall|i: int| 0 <= i < n implies (#[trigger] t.branches[i]).states.len() > 0 by {
        if i == si {
            lemma_recorded_appends(b.states, b.time as u64, (bal - o.amount) as Balance);
        }
    }
}


proof fn lemma_step_await_started(s: BankSystem, init: Seq<int>, orders: Seq<TransferOrder>)
    requires
        sys_inv(s, init, orders),
        s.coord.phase == BankPhase::AwaitStarted,
        sys_step(s) is Some,
    ensures
        sys_inv(sys_step(s)->0, init, orders),
{
    let c = s.coord;
    let j = c.next as int;
    let n = init.len();
    let t = sys_step(s)->0;
    lemma_ledger(init, orders, 0);
    lemma_ledger(init, orders, orders.len());
    assert(s.inbox[j] == seq![MessageView::Started]);
    assert(seq![MessageView::Started].skip(1) =~= Seq::<MessageView>::empty());
    assert(t.branches == s.branches);
    if j + 1 < n {
        assert forall|i: int| 0 <= i < n implies #[trigger] t.inbox[i]
            == (if i < j + 1 { Seq::<MessageView>::empty() } else { seq![MessageView::Started] }) by {}
    } else if orders.len() == 0 {
        assert(orders.take(0) =~= orders.take(orders.len() as int));
        assert forall|i: int| 0 <= i < n implies #[trigger] t.inbox[i] == (if i < 0 {
            seq![MessageView::Done, history_msg(i, t.branches[i])]
        } else {
            Seq::<MessageView>::empty()
        }) by {}
    } else {
        assert forall|i: int| 0 <= i < n implies #[trigger] t.inbox[i] == Seq::<MessageView>::empty() by {}
    }
}

proof fn lemma_step_await_relay(s: BankSystem, init: Seq<int>, orders: Seq<TransferOrder>)
    requires
        sys_inv(s, init, orders),
        s.coord.phase == BankPhase::AwaitRelay,
        sys_step(s) is Some,
    ensures
        sys_inv(sys_step(s)->0, init, orders),
{
    let c = s.coord;
    let o = orders[c.next as int];
    let n = init.len();
    let si = src_index(o) as int;
    let p = order_bytes(o);
    let t = sys_step(s)->0;
    assert(bank_action(c) == SyncActionView::Receive(si as nat));
    if o.src != o.dst {
        assert(s.inbox[si] == seq![MessageView::Transfer(p)]);
        assert(seq![MessageView::Transfer(p)].skip(1) =~= Seq::<MessageView>::empty());
        assert forall|i: int| 0 <= i < n implies #[trigger] t.inbox[i] == Seq::<MessageView>::empty() by {}
    } else {
        assert(s.inbox[si] == seq![MessageView::Transfer(p), MessageView::Ack]);
        assert(seq![MessageView::Transfer(p), MessageView::Ack].skip(1) =~= seq![MessageView::Ack]);
        assert forall|i: int| 0 <= i < n implies #[trigger] t.inbox[i]
            == (if i == dst_index(o) { seq![MessageView::Ack] } else { Seq::<MessageView>::empty() }) by {}
    }
}

proof fn lemma_step_forward(s: BankSystem, init: Seq<int>, orders: Seq<TransferOrder>)
    requires
        sys_inv(s, init, orders),
        s.coord.phase == BankPhase::Forward,
        sys_step(s) is Some,
    ensures
        sys_inv(sys_step(s)->0, init, orders),
{
    let c = s.coord;
    let k = c.next;
    let o = orders[k as int];
    let n = init.len();
    let di = dst_index(o) as int;
    let p = order_bytes(o);
    lemma_order_decodes(o);
    lemma_ledger(init, orders, k);
    let b = s.branches[di];
    let bal = balance_of(b.states);
    let t = sys_step(s)->0;
    assert(bank_action(c) == SyncActionView::Send(di as nat, MessageView::Transfer(p)));
    assert((di + 1) as u8 == o.dst);
    let L = ledger(init, orders, k);
    let D = debited(L, o);
    assert(D[di] == bal);
    lemma_recorded_appends(b.states, b.time as u64, (bal + o.amount) as Balance);
    assert(branch_balances(t.branches) =~= settle(L, o));
    assert forall|i: int| 0 <= i < n implies #[trigger] t.inbox[i]
        == (if i == di { seq![MessageView::Ack] } else { Seq::<MessageView>::empty() }) by {
        if i == di {
            assert(Seq::<MessageView>::empty() + Seq::<MessageView>::empty().push(MessageView::Ack)
                =~= seq![MessageView::Ack]);
        }
    }
    assert forall|i: int| 0 <= i < n implies (#[trigger] t.branches[i]).states.len() > 0 by {}
}

proof fn lemma_step_await_ack(s: BankSystem, init: Seq<int>, orders: Seq<TransferOrder>)
    requires
        sys_inv(s, init, orders),
        s.coord.phase == BankPhase::AwaitAck,
        sys_step(s) is Some,
    ensures
        sys_inv(sys_step(s)->0, init, orders),
{
    let c = s.coord;
    let o = orders[c.next as int];
    let n = init.len();
    let di = dst_index(o) as int;
    let t = sys_step(s)->0;
    assert(bank_action(c) == SyncActionView::Receive(di as nat));
    assert(s.inbox[di] == seq![MessageView::Ack]);
    assert(seq![MessageView::Ack].skip(1) =~= Seq::<MessageView>::empty());
    assert forall|i: int| 0 <= i < n implies #[trigger] t.inbox[i] == Seq::<MessageView>::empty() by {}
    if c.next + 1 >= orders.len() {
        assert forall|i: int| 0 <= i < n implies #[trigger] t.inbox[i] == (if i < 0 {
            seq![MessageView::Done, history_msg(i, t.branches[i])]
        } else {
            Seq::<MessageView>::empty()
        }) by {}
    }
}

proof fn lemma_step_send_stop(s: BankSystem, init: Seq<int>, orders: Seq<TransferOrder>)
    requires
        sys_inv(s, init, orders),
        s.coord.phase == BankPhase::SendStop,
        sys_step(s) is Some,
    ensures
        sys_inv(sys_step(s)->0, init, orders),
{
    let c = s.coord;
    let j = c.next as int;
    let n = init.len();
    let t = sys_step(s)->0;
    assert(bank_action(c) == SyncActionView::Send(j as nat, MessageView::Stop));
    assert(t.branches =~= s.branches);
    let hm = history_msg(j, s.branches[j]);
    assert(Seq::<MessageView>::empty() + seq![MessageView::Done, hm] =~= seq![MessageView::Done, hm]);
    if j + 1 < n {
        assert forall|i: int| 0 <= i < n implies #[trigger] t.inbox[i] == (if i < j + 1 {
            seq![MessageView::Done, history_msg(i, t.branches[i])]
        } else {
            Seq::<MessageView>::empty()
        }) by {}
    } else {
        assert forall|i: int| 0 <= i < n implies #[trigger] t.inbox[i] == (if i < 0 {
            seq![history_msg(i, t.branches[i])]
        } else {
            seq![MessageView::Done, history_msg(i, t.branches[i])]
        }) by {}
    }
}

proof fn lemma_step_await_done(s: BankSystem, init: Seq<int>, orders: Seq<TransferOrder>)
    requires
        sys_inv(s, init, orders),
        s.coord.phase == BankPhase::AwaitDone,
        sys_step(s) is Some,
    ensures
        sys_inv(sys_step(s)->0, init, orders),
{
    let c = s.coord;
    let j = c.next as int;
    let n = init.len();
    let t = sys_step(s)->0;
    let hm = history_msg(j, s.branches[j]);
    assert(s.inbox[j] == seq![MessageView::Done, hm]);
    assert(seq![MessageView::Done, hm].skip(1) =~= seq![hm]);
    assert(t.branches == s.branches);
    if j + 1 < n {
        assert forall|i: int| 0 <= i < n implies #[trigger] t.inbox[i] == (if i < j + 1 {
            seq![history_msg(i, t.branches[i])]
        } else {
            seq![MessageView::Done, history_msg(i, t.branches[i])]
        }) by {}
    } else {
        assert forall|i: int| 0 <= i < n implies #[trigger] t.inbox[i] == (if i < 0 {
            Seq::<MessageView>::empty()
        } else {
            seq![history_msg(i, t.branches[i])]
        }) by {}
    }
}

proof fn lemma_step_await_history(s: BankSystem, init: Seq<int>, orders: Seq<TransferOrder>)
    requires
        sys_inv(s, init, orders),
        s.coord.phase == BankPhase::AwaitHistory,
        sys_step(s) is Some,
    ensures
        sys_inv(sys_step(s)->0, init, orders),
{
    let c = s.coord;
    let j = c.next as int;
    let n = init.len();
    let t = sys_step(s)->0;
    let h = branch_history(j, s.branches[j]);
    let hm = history_msg(j, s.branches[j]);
    assert(s.inbox[j] == seq![hm]);
    assert(seq![hm].skip(1) =~= Seq::<MessageView>::empty());
    assert(seq![hm][0] == hm);
    lemma_balance_history_roundtrip_if_small(h);
    assert(t.branches == s.branches);
    let hs = c.histories.push(h);
    assert(t.coord.histories == hs);
    assert forall|i: int| 0 <= i < j + 1 implies #[trigger] hs[i] == branch_history(i, s.branches[i]) by {}
    if j + 1 < n {
        assert forall|i: int| 0 <= i < n implies #[trigger] t.inbox[i] == (if i < j + 1 {
            Seq::<MessageView>::empty()
        } else {
            seq![history_msg(i, t.branches[i])]
        }) by {}
    }
}

/// Every successful step of the whole bank keeps the run invariant.
pub proof fn lemma_sys_step(s: BankSystem, init: Seq<int>, orders: Seq<TransferOrder>)
    requires
        sys_inv(s, init, orders),
        sys_step(s) is Some,
    ensures
        sys_inv(sys_step(s)->0, init, orders),
{
    match s.coord.phase {
        BankPhase::AwaitStarted => lemma_step_await_started(s, init, orders),
        BankPhase::SendOrder => lemma_step_send_order(s, init, orders),
        BankPhase::AwaitRelay => lemma_step_await_relay(s, init, orders),
        BankPhase::Forward => lemma_step_forward(s, init, orders),
        BankPhase::AwaitAck => lemma_step_await_ack(s, init, orders),
        BankPhase::SendStop => lemma_step_send_stop(s, init, orders),
        BankPhase::AwaitDone => lemma_step_await_done(s, init, orders),
        BankPhase::AwaitHistory => lemma_step_await_history(s, init, orders),
        BankPhase::Complete => {},
    }
}

proof fn lemma_sys_run(s: BankSystem, init: Seq<int>, orders: Seq<TransferOrder>, k: nat)
    requires
        sys_inv(s, init, orders),
        sys_run(s, k) is Some,
    ensures
        sys_inv(sys_run(s, k)->0, init, orders),
    decreases k,
{
    if k > 0 {
        lemma_sys_step(s, init, orders);
        lemma_sys_run(sys_step(s)->0, init, orders, (k - 1) as nat);
    }
}

/// The start of a run satisfies the run invariant.
pub proof fn lemma_start_inv(balances: Seq<Balance>, orders: Seq<TransferOrder>)
    requires
        1 <= balances.len() <= 9,
        orders_valid(balances.len(), orders),
    ensures
        sys_inv(sys_start(balances, orders), as_ints(balances), orders),
{
    let init = as_ints(balances);
    let s0 = sys_start(balances, orders);
    lemma_ledger(init, orders, 0);
    assert(branch_balances(s0.branches) =~= init);
    assert forall|i: int| 0 <= i < init.len() implies #[trigger] s0.inbox[i]
        == (if i < 0 { Seq::<MessageView>::empty() } else { seq![MessageView::Started] }) by {}
}

/// A run of the whole bank that reaches the end, however the steps went,
/// reports one history per branch, in branch order, and each branch's last
/// balance is the ledger's after carrying out every order in turn; so the
/// total of the last balances is the total of the initial balances.
pub proof fn lemma_bank_run_settles(balances: Seq<Balance>, orders: Seq<TransferOrder>, k: nat)
    requires
        1 <= balances.len() <= 9,
        orders_valid(balances.len(), orders),
        sys_run(sys_start(balances, orders), k) is Some,
        sys_run(sys_start(balances, orders), k)->0.coord.phase == BankPhase::Complete,
    ensures
        ({
            let hs = sys_run(sys_start(balances, orders), k)->0.coord.histories;
            let last = Seq::new(hs.len(), |i: int| balance_of(hs[i].states) as int);
            &&& hs.len() == balances.len()
            &&& forall|i: int| 0 <= i < hs.len() ==> (#[trigger] hs[i]).id == i + 1
            &&& last == settle_all(as_ints(balances), orders)
            &&& total(last) == total(as_ints(balances))
        }),
{
    let init = as_ints(balances);
    let s0 = sys_start(balances, orders);
    lemma_start_inv(balances, orders);
    lemma_ledger(init, orders, orders.len());
    lemma_sys_run(s0, init, orders, k);
    let s = sys_run(s0, k)->0;
    let hs = s.coord.histories;
    let last = Seq::new(hs.len(), |i: int| balance_of(hs[i].states) as int);
    assert(orders.take(orders.len() as int) =~= orders);
    assert(last =~= branch_balances(s.branches));
    assert forall|i: int| 0 <= i < hs.len() implies (#[trigger] hs[i]).id == i + 1 by {
        assert(hs[i] == branch_history(i, s.branches[i]));
    }
    lemma_settle_all_conserves(init, orders);
}


// ───────────── progress: a feasible run reaches the end ─────────────

/// How many records the orders make in branch `id`'s history: one as the
/// source, one as the destination (two for a transfer to itself).
pub open spec fn involvement(id: AccountId, os: Seq<TransferOrder>) -> nat
    decreases os.len(),
{
    if os.len() == 0 {
        0
    } else {
        involvement(id, os.drop_last()) + (if os.last().src == id { 1nat } else { 0 })
            + (if os.last().dst == id { 1nat } else { 0 })
    }
}

/// How many of the orders branch `id` takes part in (each advances its clock once).
pub open spec fn touches(id: AccountId, os: Seq<TransferOrder>) -> nat
    decreases os.len(),
{
    if os.len() == 0 {
        0
    } else {
        touches(id, os.drop_last()) + (if os.last().src == id || os.last().dst == id { 1nat } else { 0 })
    }
}

/// The steps that one order takes: send, relay, (forward, for another
/// branch,) acknowledge.
pub open spec fn order_steps(o: TransferOrder) -> nat {
    if o.src == o.dst { 3 } else { 4 }
}

/// The steps that the orders from index `k` on take.
pub open spec fn steps_from(orders: Seq<TransferOrder>, k: nat) -> nat
    decreases orders.len() - k,
{
    if k >= orders.len() { 0 } else { order_steps(orders[k as int]) + steps_from(orders, k + 1) }
}

/// The steps of a whole run with `n` branches: per branch a STARTED, a STOP,
/// a DONE and a history; and the steps of every order.
pub open spec fn run_length(n: nat, orders: Seq<TransferOrder>) -> nat {
    4 * n + steps_from(orders, 0)
}

/// Whether a bank can run to the end: at most nine branches, valid orders of
/// positive amounts, every source covering its amount when its turn comes, no
/// balance ever above `i64::MAX`, and every history staying under 256 states.
pub open spec fn bank_feasible(balances: Seq<Balance>, orders: Seq<TransferOrder>) -> bool {
    let n = balances.len();
    let init = as_ints(balances);
    &&& 1 <= n <= 9
    &&& orders_valid(n, orders)
    &&& forall|k: int| 0 <= k < orders.len() ==> (#[trigger] orders[k]).amount > 0
    &&& forall|k: nat| k < orders.len() ==>
        #[trigger] ledger(init, orders, k)[src_index(orders[k as int]) as int] >= orders[k as int].amount
    &&& forall|k: nat, i: int| k <= orders.len() && 0 <= i < n ==>
        #[trigger] ledger(init, orders, k)[i] <= i64::MAX
    &&& forall|i: int| 0 <= i < n ==> 1 + #[trigger] involvement((i + 1) as u8, orders) < 256
}

/// How many orders branch `i` has carried out in a coordinator state.
pub open spec fn prefix_len(c: BankView, i: int) -> nat {
    match c.phase {
        BankPhase::AwaitStarted => 0,
        BankPhase::SendOrder => c.next,
        BankPhase::AwaitRelay => if i == src_index(c.orders[c.next as int]) { c.next + 1 } else { c.next },
        BankPhase::Forward => if i == src_index(c.orders[c.next as int]) { c.next + 1 } else { c.next },
        BankPhase::AwaitAck => c.next + 1,
        _ => c.orders.len(),
    }
}

/// The shape of branch `id`'s state after carrying out the orders `q`: one
/// record per involvement, one clock tick per order, no gaps in the history.
pub open spec fn branch_shape(b: BranchView, id: AccountId, q: Seq<TransferOrder>) -> bool {
    &&& b.states.len() == 1 + involvement(id, q)
    &&& b.time == touches(id, q)
    &&& b.states.last().time == (if b.time == 0 { 0 } else { b.time - 1 })
}

/// Every branch has the shape of the orders it has carried out.
pub open spec fn shape_inv(s: BankSystem, orders: Seq<TransferOrder>) -> bool {
    forall|i: int| 0 <= i < s.branches.len() ==>
        branch_shape(#[trigger] s.branches[i], (i + 1) as u8, orders.take(prefix_len(s.coord, i) as int))
}

proof fn lemma_count_step(id: AccountId, orders: Seq<TransferOrder>, k: nat)
    requires
        k < orders.len(),
    ensures
        involvement(id, orders.take(k + 1 as int)) == involvement(id, orders.take(k as int))
            + (if orders[k as int].src == id { 1nat } else { 0 }) + (if orders[k as int].dst == id { 1nat } else { 0 }),
        touches(id, orders.take(k + 1 as int)) == touches(id, orders.take(k as int))
            + (if orders[k as int].src == id || orders[k as int].dst == id { 1nat } else { 0 }),
{
    assert(orders.take(k + 1 as int).drop_last() =~= orders.take(k as int));
    assert(orders.take(k + 1 as int).last() == orders[k as int]);
}

proof fn lemma_counts_bounded(id: AccountId, orders: Seq<TransferOrder>, k: nat)
    requires
        k <= orders.len(),
    ensures
        touches(id, orders.take(k as int)) <= involvement(id, orders.take(k as int)),
        involvement(id, orders.take(k as int)) <= involvement(id, orders),
    decreases orders.len() - k,
{
    lemma_touches_le(id, orders.take(k as int));
    if k < orders.len() {
        lemma_counts_bounded(id, orders, k + 1);
        lemma_count_step(id, orders, k);
    } else {
        assert(orders.take(k as int) =~= orders);
    }
}

proof fn lemma_touches_le(id: AccountId, os: Seq<TransferOrder>)
    ensures
        touches(id, os) <= involvement(id, os),
    decreases os.len(),
{
    if os.len() > 0 {
        lemma_touches_le(id, os.drop_last());
    }
}

/// `a + b` steps are `a` steps and then `b` steps.
pub proof fn lemma_run_add(s: BankSystem, a: nat, b: nat)
    ensures
        sys_run(s, a + b) == (match sys_run(s, a) {
            Some(t) => sys_run(t, b),
            None => None,
        }),
    decreases a,
{
    if a > 0 {
        match sys_step(s) {
            Some(t) => {
                lemma_run_add(t, (a - 1) as nat, b);
                assert((a + b - 1) as nat == (a - 1) as nat + b);
            },
            None => {},
        }
    }
}

/// Recording at the branch's current time adds exactly one state when the
/// history has no gap.
proof fn lemma_record_no_gap(states: Seq<BalanceState>, t: u64, balance: Balance)
    requires
        states.len() > 0,
        states.last().time == (if t == 0 { 0 } else { t - 1 }) || states.last().time == t,
    ensures
        recorded(states, t, balance).len() == states.len() + 1,
        recorded(states, t, balance).last().time == t,
        balance_of(recorded(states, t, balance)) == balance,
{
    lemma_recorded_appends(states, t, balance);
}

/// What the feasibility conditions give at a given order.
proof fn lemma_feasible_at(balances: Seq<Balance>, orders: Seq<TransferOrder>, k: nat)
    requires
        bank_feasible(balances, orders),
        k < orders.len(),
    ensures
        orders[k as int].amount > 0,
        ledger(as_ints(balances), orders, k)[src_index(orders[k as int]) as int] >= orders[k as int].amount,
        ledger(as_ints(balances), orders, k)[src_index(orders[k as int]) as int] <= i64::MAX,
        ledger(as_ints(balances), orders, k + 1)[dst_index(orders[k as int]) as int] <= i64::MAX,
        1 <= orders[k as int].src <= balances.len(),
        1 <= orders[k as int].dst <= balances.len(),
{
    let o = orders[k as int];
    let init = as_ints(balances);
    assert(ledger(init, orders, k)[src_index(o) as int] >= o.amount);
    assert(ledger(init, orders, k)[src_index(o) as int] <= i64::MAX);
    assert(ledger(init, orders, k + 1)[dst_index(o) as int] <= i64::MAX);
}

/// A branch's clock stays well below its limit in a feasible run.
proof fn lemma_time_bounded(balances: Seq<Balance>, orders: Seq<TransferOrder>, i: int, q: nat)
    requires
        bank_feasible(balances, orders),
        0 <= i < balances.len(),
        q <= orders.len(),
    ensures
        touches((i + 1) as u8, orders.take(q as int)) <= involvement((i + 1) as u8, orders.take(q as int)),
        involvement((i + 1) as u8, orders.take(q as int)) < 255,
{
    lemma_counts_bounded((i + 1) as u8, orders, q);
    assert(1 + involvement((i + 1) as u8, orders) < 256);
}


/// The run invariants together with the feasibility of the bank.
pub open spec fn on_track(s: BankSystem, balances: Seq<Balance>, orders: Seq<TransferOrder>) -> bool {
    &&& sys_inv(s, as_ints(balances), orders)
    &&& shape_inv(s, orders)
    &&& bank_feasible(balances, orders)
}

proof fn lemma_progress_started(s: BankSystem, balances: Seq<Balance>, orders: Seq<TransferOrder>)
    requires
        on_track(s, balances, orders),
        s.coord.phase == BankPhase::AwaitStarted,
    ensures
        sys_step(s) is Some,
        on_track(sys_step(s)->0, balances, orders),
        sys_step(s)->0.coord.phase == (if s.coord.next + 1 < balances.len() {
            BankPhase::AwaitStarted
        } else {
            after_started(s.coord)
        }),
        sys_step(s)->0.coord.next == (if s.coord.next + 1 < balances.len() { s.coord.next + 1 } else { 0 }),
{
    let c = s.coord;
    let j = c.next as int;
    assert(s.inbox[j] == seq![MessageView::Started]);
    assert(sys_step(s) is Some);
    let init = as_ints(balances);
    lemma_sys_step(s, init, orders);
    let t = sys_step(s)->0;
    assert(t.branches == s.branches);
    assert(orders.take(0) =~= orders.take(orders.len() as int) || orders.len() > 0);
    assert forall|i: int| 0 <= i < t.branches.len() implies
        branch_shape(#[trigger] t.branches[i], (i + 1) as u8, orders.take(prefix_len(t.coord, i) as int)) by {
        assert(branch_shape(s.branches[i], (i + 1) as u8, orders.take(prefix_len(s.coord, i) as int)));
        if orders.len() == 0 {
            assert(orders.take(0) =~= orders.take(orders.len() as int));
        }
    }
}

proof fn lemma_progress_send_order(s: BankSystem, balances: Seq<Balance>, orders: Seq<TransferOrder>)
    requires
        on_track(s, balances, orders),
        s.coord.phase == BankPhase::SendOrder,
    ensures
        sys_step(s) is Some,
        on_track(sys_step(s)->0, balances, orders),
        sys_step(s)->0.coord.phase == BankPhase::AwaitRelay,
        sys_step(s)->0.coord.next == s.coord.next,
{
    let c = s.coord;
    let k = c.next;
    let o = orders[k as int];
    let init = as_ints(balances);
    let si = src_index(o) as int;
    let id = o.src;
    let p = order_bytes(o);
    let b = s.branches[si];
    lemma_feasible_at(balances, orders, k);
    lemma_ledger(init, orders, k);
    lemma_order_decodes(o);
    lemma_time_bounded(balances, orders, si, k);
    assert((si + 1) as u8 == id);
    assert(branch_shape(b, id, orders.take(k as int)));
    let L = ledger(init, orders, k);
    let bal = balance_of(b.states);
    assert(L[si] == bal);
    let t0 = b.time as u64;
    lemma_record_no_gap(b.states, t0, (bal - o.amount) as Balance);
    let s1 = recorded(b.states, t0, (bal - o.amount) as Balance);
    if o.src == o.dst {
        lemma_record_no_gap(s1, t0, bal as Balance);
    }
    assert(transfer_effect(id, b.states, o, t0, p) is Ok);
    assert(sys_step(s) is Some);
    lemma_sys_step(s, init, orders);
    let t = sys_step(s)->0;
    lemma_count_step(id, orders, k);
    assert forall|i: int| 0 <= i < t.branches.len() implies
        branch_shape(#[trigger] t.branches[i], (i + 1) as u8, orders.take(prefix_len(t.coord, i) as int)) by {
        if i != si {
            assert(t.branches[i] == s.branches[i]);
            assert(branch_shape(s.branches[i], (i + 1) as u8, orders.take(prefix_len(s.coord, i) as int)));
            lemma_count_step((i + 1) as u8, orders, k);
        }
    }
}

proof fn lemma_progress_relay(s: BankSystem, balances: Seq<Balance>, orders: Seq<TransferOrder>)
    requires
        on_track(s, balances, orders),
        s.coord.phase == BankPhase::AwaitRelay,
    ensures
        sys_step(s) is Some,
        on_track(sys_step(s)->0, balances, orders),
        sys_step(s)->0.coord.phase == (if orders[s.coord.next as int].src == orders[s.coord.next as int].dst {
            BankPhase::AwaitAck
        } else {
            BankPhase::Forward
        }),
        sys_step(s)->0.coord.next == s.coord.next,
{
    let c = s.coord;
    let k = c.next;
    let o = orders[k as int];
    let init = as_ints(balances);
    let si = src_index(o) as int;
    lemma_feasible_at(balances, orders, k);
    assert(s.inbox[si].len() > 0 && s.inbox[si][0] == MessageView::Transfer(order_bytes(o)));
    assert(sys_step(s) is Some);
    lemma_sys_step(s, init, orders);
    let t = sys_step(s)->0;
    assert(t.branches == s.branches);
    assert forall|i: int| 0 <= i < t.branches.len() implies
        branch_shape(#[trigger] t.branches[i], (i + 1) as u8, orders.take(prefix_len(t.coord, i) as int)) by {
        assert(branch_shape(s.branches[i], (i + 1) as u8, orders.take(prefix_len(s.coord, i) as int)));
        lemma_count_step((i + 1) as u8, orders, k);
    }
}

proof fn lemma_progress_forward(s: BankSystem, balances: Seq<Balance>, orders: Seq<TransferOrder>)
    requires
        on_track(s, balances, orders),
        s.coord.phase == BankPhase::Forward,
    ensures
        sys_step(s) is Some,
        on_track(sys_step(s)->0, balances, orders),
        sys_step(s)->0.coord.phase == BankPhase::AwaitAck,
        sys_step(s)->0.coord.next == s.coord.next,
{
    let c = s.coord;
    let k = c.next;
    let o = orders[k as int];
    let init = as_ints(balances);
    let si = src_index(o) as int;
    let di = dst_index(o) as int;
    let id = o.dst;
    let p = order_bytes(o);
    let b = s.branches[di];
    lemma_feasible_at(balances, orders, k);
    lemma_ledger(init, orders, k);
    lemma_ledger(init, orders, k + 1);
    lemma_order_decodes(o);
    lemma_time_bounded(balances, orders, di, k);
    assert((di + 1) as u8 == id);
    assert(branch_shape(b, id, orders.take(k as int)));
    let L = ledger(init, orders, k);
    let bal = balance_of(b.states);
    assert(debited(L, o)[di] == bal);
    assert(settle(L, o)[di] == bal + o.amount);
    let t0 = b.time as u64;
    lemma_record_no_gap(b.states, t0, (bal + o.amount) as Balance);
    assert(transfer_effect(id, b.states, o, t0, p) is Ok);
    assert(sys_step(s) is Some);
    lemma_sys_step(s, init, orders);
    let t = sys_step(s)->0;
    lemma_count_step(id, orders, k);
    assert forall|i: int| 0 <= i < t.branches.len() implies
        branch_shape(#[trigger] t.branches[i], (i + 1) as u8, orders.take(prefix_len(t.coord, i) as int)) by {
        if i != di {
            assert(t.branches[i] == s.branches[i]);
            assert(branch_shape(s.branches[i], (i + 1) as u8, orders.take(prefix_len(s.coord, i) as int)));
            lemma_count_step((i + 1) as u8, orders, k);
        }
    }
}

proof fn lemma_progress_ack(s: BankSystem, balances: Seq<Balance>, orders: Seq<TransferOrder>)
    requires
        on_track(s, balances, orders),
        s.coord.phase == BankPhase::AwaitAck,
    ensures
        sys_step(s) is Some,
        on_track(sys_step(s)->0, balances, orders),
        sys_step(s)->0.coord.phase == (if s.coord.next + 1 < orders.len() {
            BankPhase::SendOrder
        } else {
            BankPhase::SendStop
        }),
        sys_step(s)->0.coord.next == (if s.coord.next + 1 < orders.len() { s.coord.next + 1 } else { 0 }),
{
    let c = s.coord;
    let k = c.next;
    let o = orders[k as int];
    let init = as_ints(balances);
    let di = dst_index(o) as int;
    lemma_feasible_at(balances, orders, k);
    assert(s.inbox[di] == seq![MessageView::Ack]);
    assert(sys_step(s) is Some);
    lemma_sys_step(s, init, orders);
    let t = sys_step(s)->0;
    assert(t.branches == s.branches);
    assert forall|i: int| 0 <= i < t.branches.len() implies
        branch_shape(#[trigger] t.branches[i], (i + 1) as u8, orders.take(prefix_len(t.coord, i) as int)) by {
        assert(branch_shape(s.branches[i], (i + 1) as u8, orders.take(prefix_len(s.coord, i) as int)));
    }
}

proof fn lemma_progress_stop(s: BankSystem, balances: Seq<Balance>, orders: Seq<TransferOrder>)
    requires
        on_track(s, balances, orders),
        s.coord.phase == BankPhase::SendStop,
    ensures
        sys_step(s) is Some,
        on_track(sys_step(s)->0, balances, orders),
        sys_step(s)->0.coord.phase == (if s.coord.next + 1 < balances.len() {
            BankPhase::SendStop
        } else {
            BankPhase::AwaitDone
        }),
        sys_step(s)->0.coord.next == (if s.coord.next + 1 < balances.len() { s.coord.next + 1 } else { 0 }),
{
    let init = as_ints(balances);
    assert(sys_step(s) is Some);
    lemma_sys_step(s, init, orders);
    let t = sys_step(s)->0;
    assert(t.branches =~= s.branches);
    assert forall|i: int| 0 <= i < t.branches.len() implies
        branch_shape(#[trigger] t.branches[i], (i + 1) as u8, orders.take(prefix_len(t.coord, i) as int)) by {
        assert(branch_shape(s.branches[i], (i + 1) as u8, orders.take(prefix_len(s.coord, i) as int)));
    }
}

proof fn lemma_progress_done(s: BankSystem, balances: Seq<Balance>, orders: Seq<TransferOrder>)
    requires
        on_track(s, balances, orders),
        s.coord.phase == BankPhase::AwaitDone,
    ensures
        sys_step(s) is Some,
        on_track(sys_step(s)->0, balances, orders),
        sys_step(s)->0.coord.phase == (if s.coord.next + 1 < balances.len() {
            BankPhase::AwaitDone
        } else {
            BankPhase::AwaitHistory
        }),
        sys_step(s)->0.coord.next == (if s.coord.next + 1 < balances.len() { s.coord.next + 1 } else { 0 }),
{
    let init = as_ints(balances);
    let j = s.coord.next as int;
    assert(s.inbox[j][0] == MessageView::Done);
    assert(sys_step(s) is Some);
    lemma_sys_step(s, init, orders);
    let t = sys_step(s)->0;
    assert(t.branches == s.branches);
    assert forall|i: int| 0 <= i < t.branches.len() implies
        branch_shape(#[trigger] t.branches[i], (i + 1) as u8, orders.take(prefix_len(t.coord, i) as int)) by {
        assert(branch_shape(s.branches[i], (i + 1) as u8, orders.take(prefix_len(s.coord, i) as int)));
    }
}

proof fn lemma_progress_history(s: BankSystem, balances: Seq<Balance>, orders: Seq<TransferOrder>)
    requires
        on_track(s, balances, orders),
        s.coord.phase == BankPhase::AwaitHistory,
    ensures
        sys_step(s) is Some,
        on_track(sys_step(s)->0, balances, orders),
        sys_step(s)->0.coord.phase == (if s.coord.next + 1 < balances.len() {
            BankPhase::AwaitHistory
        } else {
            BankPhase::Complete
        }),
        sys_step(s)->0.coord.next == (if s.coord.next + 1 < balances.len() { s.coord.next + 1 } else { 0 }),
{
    let init = as_ints(balances);
    let j = s.coord.next as int;
    let b = s.branches[j];
    let h = branch_history(j, b);
    assert(branch_shape(b, (j + 1) as u8, orders.take(orders.len() as int)));
    assert(orders.take(orders.len() as int) =~= orders);
    assert(1 + involvement((j + 1) as u8, orders) < 256);
    lemma_balance_history_roundtrip(h);
    assert(s.inbox[j][0] == history_msg(j, b));
    assert(sys_step(s) is Some);
    lemma_sys_step(s, init, orders);
    let t = sys_step(s)->0;
    assert(t.branches == s.branches);
    assert forall|i: int| 0 <= i < t.branches.len() implies
        branch_shape(#[trigger] t.branches[i], (i + 1) as u8, orders.take(prefix_len(t.coord, i) as int)) by {
        assert(branch_shape(s.branches[i], (i + 1) as u8, orders.take(prefix_len(s.coord, i) as int)));
    }
}


/// The phase that follows a per-branch phase once every branch is through it.
pub open spec fn child_phase_after(p: BankPhase, orders: Seq<TransferOrder>) -> BankPhase {
    match p {
        BankPhase::AwaitStarted => if orders.len() == 0 { BankPhase::SendStop } else { BankPhase::SendOrder },
        BankPhase::SendStop => BankPhase::AwaitDone,
        BankPhase::AwaitDone => BankPhase::AwaitHistory,
        _ => BankPhase::Complete,
    }
}

proof fn lemma_seg_children(s: BankSystem, balances: Seq<Balance>, orders: Seq<TransferOrder>)
    requires
        on_track(s, balances, orders),
        s.coord.phase == BankPhase::AwaitStarted || s.coord.phase == BankPhase::SendStop
            || s.coord.phase == BankPhase::AwaitDone || s.coord.phase == BankPhase::AwaitHistory,
    ensures
        ({
            let r = sys_run(s, (balances.len() - s.coord.next) as nat);
            &&& r is Some
            &&& on_track(r->0, balances, orders)
            &&& r->0.coord.phase == child_phase_after(s.coord.phase, orders)
            &&& r->0.coord.next == 0
        }),
    decreases balances.len() - s.coord.next,
{
    let p = s.coord.phase;
    match p {
        BankPhase::AwaitStarted => lemma_progress_started(s, balances, orders),
        BankPhase::SendStop => lemma_progress_stop(s, balances, orders),
        BankPhase::AwaitDone => lemma_progress_done(s, balances, orders),
        _ => lemma_progress_history(s, balances, orders),
    }
    let t = sys_step(s)->0;
    let m = (balances.len() - s.coord.next) as nat;
    assert(sys_run(s, m) == sys_run(t, (m - 1) as nat));
    if s.coord.next + 1 < balances.len() {
        lemma_seg_children(t, balances, orders);
    } else {
        assert(sys_run(t, 0) == Some(t));
    }
}

proof fn lemma_seg_order(s: BankSystem, balances: Seq<Balance>, orders: Seq<TransferOrder>)
    requires
        on_track(s, balances, orders),
        s.coord.phase == BankPhase::SendOrder,
    ensures
        ({
            let k = s.coord.next;
            let r = sys_run(s, order_steps(orders[k as int]));
            &&& r is Some
            &&& on_track(r->0, balances, orders)
            &&& r->0.coord.phase == (if k + 1 < orders.len() { BankPhase::SendOrder } else { BankPhase::SendStop })
            &&& r->0.coord.next == (if k + 1 < orders.len() { k + 1 } else { 0 })
        }),
{
    let o = orders[s.coord.next as int];
    lemma_progress_send_order(s, balances, orders);
    let t1 = sys_step(s)->0;
    lemma_progress_relay(t1, balances, orders);
    let t2 = sys_step(t1)->0;
    if o.src == o.dst {
        lemma_progress_ack(t2, balances, orders);
        let t3 = sys_step(t2)->0;
        assert(sys_run(t3, 0) == Some(t3));
        assert(sys_run(t2, 1) == sys_run(t3, 0));
        assert(sys_run(t1, 2) == sys_run(t2, 1));
        assert(sys_run(s, 3) == sys_run(t1, 2));
    } else {
        lemma_progress_forward(t2, balances, orders);
        let t3 = sys_step(t2)->0;
        lemma_progress_ack(t3, balances, orders);
        let t4 = sys_step(t3)->0;
        assert(sys_run(t4, 0) == Some(t4));
        assert(sys_run(t3, 1) == sys_run(t4, 0));
        assert(sys_run(t2, 2) == sys_run(t3, 1));
        assert(sys_run(t1, 3) == sys_run(t2, 2));
        assert(sys_run(s, 4) == sys_run(t1, 3));
    }
}

proof fn lemma_seg_orders(s: BankSystem, balances: Seq<Balance>, orders: Seq<TransferOrder>)
    requires
        on_track(s, balances, orders),
        s.coord.phase == BankPhase::SendOrder,
    ensures
        ({
            let r = sys_run(s, steps_from(orders, s.coord.next));
            &&& r is Some
            &&& on_track(r->0, balances, orders)
            &&& r->0.coord.phase == BankPhase::SendStop
            &&& r->0.coord.next == 0
        }),
    decreases orders.len() - s.coord.next,
{
    let k = s.coord.next;
    lemma_seg_order(s, balances, orders);
    let a = order_steps(orders[k as int]);
    let b = steps_from(orders, k + 1);
    assert(steps_from(orders, k) == a + b);
    lemma_run_add(s, a, b);
    let t = sys_run(s, a)->0;
    if k + 1 < orders.len() {
        lemma_seg_orders(t, balances, orders);
    } else {
        assert(b == 0);
        assert(sys_run(t, 0) == Some(t));
    }
}

/// A feasible bank runs to the end: with at most nine branches, valid orders
/// of positive amounts, each source covering its amount when its turn comes,
/// no balance ever above `i64::MAX` and every history under 256 states, the
/// run takes exactly `run_length` steps to complete (four per branch, three
/// per transfer to oneself, four per other transfer), and then every
/// branch's reported last balance is the ledger's after all orders.
pub proof fn lemma_bank_run_completes(balances: Seq<Balance>, orders: Seq<TransferOrder>)
    requires
        bank_feasible(balances, orders),
    ensures
        sys_run(sys_start(balances, orders), run_length(balances.len(), orders)) is Some,
        ({
            let s = sys_run(sys_start(balances, orders), run_length(balances.len(), orders))->0;
            let hs = s.coord.histories;
            &&& s.coord.phase == BankPhase::Complete
            &&& hs.len() == balances.len()
            &&& Seq::new(hs.len(), |i: int| balance_of(hs[i].states) as int) == settle_all(as_ints(balances), orders)
        }),
{
    let n = balances.len();
    let s0 = sys_start(balances, orders);
    lemma_start_inv(balances, orders);
    assert forall|i: int| 0 <= i < s0.branches.len() implies
        branch_shape(#[trigger] s0.branches[i], (i + 1) as u8, orders.take(prefix_len(s0.coord, i) as int)) by {
        assert(orders.take(0) =~= Seq::<TransferOrder>::empty());
    }
    assert(on_track(s0, balances, orders));
    lemma_seg_children(s0, balances, orders);
    let s1 = sys_run(s0, n)->0;
    let mid = steps_from(orders, 0);
    let s2 = if orders.len() == 0 {
        assert(mid == 0);
        assert(sys_run(s1, 0) == Some(s1));
        s1
    } else {
        lemma_seg_orders(s1, balances, orders);
        sys_run(s1, mid)->0
    };
    assert(sys_run(s1, mid) == Some(s2));
    lemma_seg_children(s2, balances, orders);
    let s3 = sys_run(s2, n)->0;
    lemma_seg_children(s3, balances, orders);
    let s4 = sys_run(s3, n)->0;
    lemma_seg_children(s4, balances, orders);
    let s5 = sys_run(s4, n)->0;
    lemma_run_add(s4, n, 0);
    lemma_run_add(s3, n, n);
    lemma_run_add(s2, n, 2 * n);
    lemma_run_add(s1, mid, 3 * n);
    lemma_run_add(s0, n, mid + 3 * n);
    assert(run_length(n, orders) == n + (mid + (n + (n + n))));
    assert(sys_run(s0, run_length(n, orders)) == Some(s5));
    lemma_bank_run_settles(balances, orders, run_length(n, orders));
}

} // verus!
