use vstd::prelude::*;
use crate::banking::types::{AccountId, Balance, BalanceHistory, BalanceState, Timestamp};
use crate::text::{decimal, push_decimal, push_signed_decimal, signed_decimal};

verus! {

/// Why an account operation was refused.
#[derive(Debug, Clone, PartialEq, Eq)]
pub enum AccountError {
    /// The balance does not cover the amount.
    InsufficientFunds { account_id: AccountId, balance: Balance, required: Balance },
    /// The amount is not positive.
    InvalidAmount(Balance),
}

/// The text under which an account error is shown.
pub open spec fn account_error_text(e: AccountError) -> Seq<char> {
    match e {
        AccountError::InsufficientFunds { account_id, balance, required } =>
            "账户 "@ + decimal(account_id as nat) + " 余额不足: 现有 "@ + signed_decimal(balance as int)
                + "，需要 "@ + signed_decimal(required as int),
        AccountError::InvalidAmount(amount) => "无效金额: "@ + signed_decimal(amount as int),
    }
}

impl AccountError {
    /// The text under which the error is shown.
    pub fn to_display_string(&self) -> (s: String)
        ensures
            s@ == account_error_text(*self),
    {
        match self {
            AccountError::InsufficientFunds { account_id, balance, required } => {
                let mut s = String::from_str("账户 ");
                push_decimal(&mut s, *account_id as u64);
                s.append(" 余额不足: 现有 ");
                push_signed_decimal(&mut s, *balance);
                s.append("，需要 ");
                push_signed_decimal(&mut s, *required);
                s
            },
            AccountError::InvalidAmount(amount) => {
                let mut s = String::from_str("无效金额: ");
                push_signed_decimal(&mut s, *amount);
                s
            },
        }
    }
}

/// A branch account: its id and its balance history, whose last state holds
/// the current balance.
#[derive(Debug, Clone)]
pub struct BranchAccount {
    pub id: AccountId,
    pub history: BalanceHistory,
}

/// The states that fill the gap after `last` up to (not including) `time`,
/// each holding `last`'s balance.
pub open spec fn gap_states(last: BalanceState, time: Timestamp) -> Seq<BalanceState> {
    Seq::new(
        if time > last.time { (time - last.time - 1) as nat } else { 0 },
        |k: int| BalanceState { balance: last.balance, time: (last.time + 1 + k) as u64, pending_in: 0 },
    )
}

/// The history after recording `balance` at `time`: the gap since the last
/// state is filled with the last balance, then the new state follows.
pub open spec fn recorded(states: Seq<BalanceState>, time: Timestamp, balance: Balance) -> Seq<BalanceState> {
    states + gap_states(states.last(), time) + seq![BalanceState { balance, time, pending_in: 0 }]
}

/// The balance of the last state.
pub open spec fn balance_of(states: Seq<BalanceState>) -> Balance {
    states.last().balance
}

/// Whether the state at index `i` is the state at time `i`.
pub open spec fn timeline_dense(states: Seq<BalanceState>) -> bool {
    forall|i: int| 0 <= i < states.len() ==> (#[trigger] states[i]).time == i
}

/// Whether the times of the states never go backwards.
pub open spec fn timeline_ordered(states: Seq<BalanceState>) -> bool {
    forall|i: int, j: int| 0 <= i <= j < states.len() ==> states[i].time <= states[j].time
}

/// Recording keeps every earlier state, and the last state holds the recorded
/// balance at the recorded time.
pub proof fn lemma_recorded_appends(states: Seq<BalanceState>, time: Timestamp, balance: Balance)
    requires
        states.len() > 0,
    ensures
        recorded(states, time, balance).len() > states.len(),
        recorded(states, time, balance).take(states.len() as int) == states,
        balance_of(recorded(states, time, balance)) == balance,
        recorded(states, time, balance).last().time == time,
{
    assert(recorded(states, time, balance).take(states.len() as int) =~= states);
}

/// What recording does to a history, stated directly: the earlier states stay;
/// every time strictly between the last state's time and the new time gets
/// one state, in order, holding the last state's balance and nothing pending;
/// then the new balance follows at the new time (right after the last state
/// when the new time is not later).
pub proof fn lemma_recorded_gap_keeps_last_balance(states: Seq<BalanceState>, time: Timestamp, balance: Balance)
    requires
        states.len() > 0,
    ensures
        ({
            let r = recorded(states, time, balance);
            let last = states.last();
            &&& r.len() == states.len() + (if time > last.time { time - last.time } else { 1 })
            &&& r.take(states.len() as int) == states
            &&& forall|k: int| states.len() <= k < r.len() - 1 ==> {
                &&& (#[trigger] r[k]).balance == last.balance
                &&& r[k].time == last.time + 1 + (k - states.len())
                &&& r[k].pending_in == 0
            }
            &&& r.last() == (BalanceState { balance, time, pending_in: 0 })
        }),
{
    let r = recorded(states, time, balance);
    let g = gap_states(states.last(), time);
    assert(r.take(states.len() as int) =~= states);
    assert forall|k: int| states.len() <= k < r.len() - 1 implies {
        &&& (#[trigger] r[k]).balance == states.last().balance
        &&& r[k].time == states.last().time + 1 + (k - states.len())
        &&& r[k].pending_in == 0
    } by {
        assert(r[k] == g[k - states.len()]);
    }
}

/// Gap filling: a history that holds one state per time step, recorded at a
/// later time, still holds one state per time step, up to and including that time.
pub proof fn lemma_recorded_dense(states: Seq<BalanceState>, time: Timestamp, balance: Balance)
    requires
        states.len() > 0,
        timeline_dense(states),
        time > states.last().time,
    ensures
        timeline_dense(recorded(states, time, balance)),
        recorded(states, time, balance).len() == time + 1,
{
    let r = recorded(states, time, balance);
    let n = states.len();
    let g = gap_states(states.last(), time);
    assert(states.last().time == n - 1);
    assert forall|i: int| 0 <= i < r.len() implies (#[trigger] r[i]).time == i by {
        if i < n {
            assert(r[i] == states[i]);
        } else if i < n + g.len() {
            assert(r[i] == g[i - n]);
        }
    }
}

/// Recording at a time no earlier than the last state keeps the times in order.
pub proof fn lemma_recorded_ordered(states: Seq<BalanceState>, time: Timestamp, balance: Balance)
    requires
        states.len() > 0,
        timeline_ordered(states),
        time >= states.last().time,
    ensures
        timeline_ordered(recorded(states, time, balance)),
{
    let r = recorded(states, time, balance);
    let n = states.len();
    let g = gap_states(states.last(), time);
    assert forall|i: int, j: int| 0 <= i <= j < r.len() implies r[i].time <= r[j].time by {
        if j < n {
            assert(r[i] == states[i] && r[j] == states[j]);
        } else {
            let ti = if i < n { states[i].time as int } else if i < n + g.len() { g[i - n].time as int } else { time as int };
            assert(r[i].time == ti);
            if i < n {
                assert(states[i].time <= states[n - 1].time);
            }
        }
    }
}

/// A transfer between two accounts keeps the sum of their balances: the source
/// records its balance less the amount, the destination its balance plus the amount.
pub proof fn lemma_transfer_conserves_total(
    src: Seq<BalanceState>,
    dst: Seq<BalanceState>,
    amount: Balance,
    debit_time: Timestamp,
    credit_time: Timestamp,
)
    requires
        src.len() > 0,
        dst.len() > 0,
        0 < amount <= balance_of(src),
        balance_of(dst) + amount <= i64::MAX,
    ensures
        balance_of(recorded(src, debit_time, (balance_of(src) - amount) as Balance))
            + balance_of(recorded(dst, credit_time, (balance_of(dst) + amount) as Balance))
            == balance_of(src) + balance_of(dst),
{
    lemma_recorded_appends(src, debit_time, (balance_of(src) - amount) as Balance);
    lemma_recorded_appends(dst, credit_time, (balance_of(dst) + amount) as Balance);
}

impl BranchAccount {
    /// Whether the history holds at least one state.
    pub open spec fn wf(&self) -> bool {
        self.history.states@.len() > 0
    }

    /// The current balance.
    pub open spec fn balance(&self) -> Balance {
        balance_of(self.history.states@)
    }

    /// A new account whose history holds the initial balance at time zero.
    pub fn new(id: AccountId, initial_balance: Balance) -> (a: Self)
        ensures
            a.wf(),
            a.id == id,
            a.history.id == id,
            a.history.states@ == seq![BalanceState { balance: initial_balance, time: 0, pending_in: 0 }],
            a.balance() == initial_balance,
    {
        let history = BalanceHistory::new(id, initial_balance);
        BranchAccount { id, history }
    }

    /// The balance in the last state of the history.
    pub fn current_balance(&self) -> (b: Balance)
        requires
            self.wf(),
        ensures
            b == self.balance(),
    {
        let n = self.history.states.len();
        self.history.states[n - 1].balance
    }

    /// Record `new_balance` at `time`, first filling the times between the last
    /// state and `time` with the last balance.
    pub fn record_state(&mut self, time: Timestamp, new_balance: Balance)
        requires
            old(self).wf(),
        ensures
            final(self).wf(),
            final(self).id == old(self).id,
            final(self).history.id == old(self).history.id,
            final(self).history.states@ == recorded(old(self).history.states@, time, new_balance),
            ({
                let o = old(self).history.states@;
                let f = final(self).history.states@;
                &&& f.len() == o.len() + (if time > o.last().time { time - o.last().time } else { 1 })
                &&& f.take(o.len() as int) == o
                &&& forall|k: int| o.len() <= k < f.len() - 1 ==> {
                    &&& (#[trigger] f[k]).balance == o.last().balance
                    &&& f[k].time == o.last().time + 1 + (k - o.len())
                    &&& f[k].pending_in == 0
                }
                &&& f.last() == (BalanceState { balance: new_balance, time, pending_in: 0 })
            }),
            timeline_dense(old(self).history.states@) && time > old(self).history.states@.last().time ==> {
                &&& timeline_dense(final(self).history.states@)
                &&& final(self).history.states@.len() == time + 1
            },
    {
        proof {
            lemma_recorded_gap_keeps_last_balance(old(self).history.states@, time, new_balance);
            if timeline_dense(old(self).history.states@) && time > old(self).history.states@.last().time {
                lemma_recorded_dense(old(self).history.states@, time, new_balance);
            }
        }
        let n = self.history.states.len();
        let last_time = self.history.states[n - 1].time;
        let last_balance = self.history.states[n - 1].balance;
        let ghost start = self.history.states@;
        if time > last_time {
            let mut t = last_time + 1;
            while t < time
                invariant
                    last_time < t <= time,
                    start.len() > 0,
                    last_time == start.last().time,
                    last_balance == start.last().balance,
                    self.id == old(self).id,
                    self.history.id == old(self).history.id,
                    start == old(self).history.states@,
                    self.history.states@ =~= start + gap_states(start.last(), time).take(t - last_time - 1),
                decreases time - t,
            {
                self.history.states.push(BalanceState::new(last_balance, t));
                proof {
                    let g = gap_states(start.last(), time);
                    assert(g.take(t - last_time) =~= g.take(t - last_time - 1).push(g[t - last_time - 1]));
                }
                t = t + 1;
            }
            proof {
                let g = gap_states(start.last(), time);
                assert(g.take(t - last_time - 1) =~= g);
            }
        } else {
            proof {
                assert(gap_states(start.last(), time) =~= Seq::<BalanceState>::empty());
                assert(self.history.states@ =~= start + gap_states(start.last(), time));
            }
        }
        self.history.states.push(BalanceState::new(new_balance, time));
    }

    /// Withdraw a positive amount that the balance covers, recording the new
    /// balance at `time`. On an error nothing changes.
    pub fn debit(&mut self, amount: Balance, time: Timestamp) -> (r: Result<(), AccountError>)
        requires
            old(self).wf(),
        ensures
            final(self).wf(),
            final(self).id == old(self).id,
            final(self).history.id == old(self).history.id,
            amount <= 0 ==> r == Err::<(), AccountError>(AccountError::InvalidAmount(amount)),
            amount > 0 && old(self).balance() < amount ==> r == Err::<(), AccountError>(
                AccountError::InsufficientFunds {
                    account_id: old(self).id,
                    balance: old(self).balance(),
                    required: amount,
                },
            ),
            r is Ok <==> (amount > 0 && old(self).balance() >= amount),
            r is Ok ==> final(self).history.states@ == recorded(
                old(self).history.states@,
                time,
                (old(self).balance() - amount) as Balance,
            ),
            r is Ok ==> ({
                let o = old(self).history.states@;
                let f = final(self).history.states@;
                &&& f.len() == o.len() + (if time > o.last().time { time - o.last().time } else { 1 })
                &&& f.take(o.len() as int) == o
                &&& forall|k: int| o.len() <= k < f.len() - 1 ==> {
                    &&& (#[trigger] f[k]).balance == o.last().balance
                    &&& f[k].time == o.last().time + 1 + (k - o.len())
                    &&& f[k].pending_in == 0
                }
                &&& f.last() == (BalanceState { balance: (old(self).balance() - amount) as Balance, time, pending_in: 0 })
            }),
            r is Ok && timeline_dense(old(self).history.states@) && time > old(self).history.states@.last().time ==> {
                &&& timeline_dense(final(self).history.states@)
                &&& final(self).history.states@.len() == time + 1
            },
            r is Err ==> *final(self) == *old(self),
    {
        if amount <= 0 {
            return Err(AccountError::InvalidAmount(amount));
        }
        let current = self.current_balance();
        if current < amount {
            return Err(AccountError::InsufficientFunds {
                account_id: self.id,
                balance: current,
                required: amount,
            });
        }
        self.record_state(time, current - amount);
        Ok(())
    }

    /// Deposit a positive amount, recording the new balance at `time`.
    /// On an error nothing changes.
    pub fn credit(&mut self, amount: Balance, time: Timestamp) -> (r: Result<(), AccountError>)
        requires
            old(self).wf(),
            amount > 0 ==> old(self).balance() + amount <= i64::MAX,
        ensures
            final(self).wf(),
            final(self).id == old(self).id,
            final(self).history.id == old(self).history.id,
            amount <= 0 ==> r == Err::<(), AccountError>(AccountError::InvalidAmount(amount)),
            r is Ok <==> amount > 0,
            r is Ok ==> final(self).history.states@ == recorded(
                old(self).history.states@,
                time,
                (old(self).balance() + amount) as Balance,
            ),
            r is Ok ==> ({
                let o = old(self).history.states@;
                let f = final(self).history.states@;
                &&& f.len() == o.len() + (if time > o.last().time { time - o.last().time } else { 1 })
                &&& f.take(o.len() as int) == o
                &&& forall|k: int| o.len() <= k < f.len() - 1 ==> {
                    &&& (#[trigger] f[k]).balance == o.last().balance
                    &&& f[k].time == o.last().time + 1 + (k - o.len())
                    &&& f[k].pending_in == 0
                }
                &&& f.last() == (BalanceState { balance: (old(self).balance() + amount) as Balance, time, pending_in: 0 })
            }),
            r is Ok && timeline_dense(old(self).history.states@) && time > old(self).history.states@.last().time ==> {
                &&& timeline_dense(final(self).history.states@)
                &&& final(self).history.states@.len() == time + 1
            },
            r is Err ==> *final(self) == *old(self),
    {
        if amount <= 0 {
            return Err(AccountError::InvalidAmount(amount));
        }
        let new_balance = self.current_balance() + amount;
        self.record_state(time, new_balance);
        Ok(())
    }
}

} // verus!
