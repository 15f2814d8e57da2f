//! How a call reaches a server: the error taxonomy of the transport, and the
//! decisions of a connection that retries its connect.
//!
//! The connection itself is the caller's. This module decides, from what the
//! caller reports, what it does next: connect with a timeout, sleep, use the
//! connection, or give up.

use vstd::prelude::*;

verus! {

/// Why a call failed.
#[derive(Clone, Copy, Debug, PartialEq, Eq, Structural, Hash)]
pub enum Error {
    /// No connection was made within the attempts and the time allowed.
    Unreachable,
    /// No response came before the deadline of the call.
    CallTimeout,
    /// The response could not be decoded.
    Deserialize,
    /// Reading or writing failed.
    Io,
}

/// How the exchange on an established connection ended.
pub enum CallReply<T> {
    /// The response arrived and was decoded.
    Response(T),
    /// Reading or writing failed.
    IoFailure,
    /// What arrived could not be decoded.
    Malformed,
    /// Nothing arrived before the deadline.
    DeadlineExpired,
}

/// The result of a call from how its exchange ended: the response, or the
/// error of the failure. Every failure fails the call.
pub fn call_result<T>(reply: CallReply<T>) -> (result: Result<T, Error>)
    ensures
        result == match reply {
            CallReply::Response(response) => Ok::<T, Error>(response),
            CallReply::IoFailure => Err(Error::Io),
            CallReply::Malformed => Err(Error::Deserialize),
            CallReply::DeadlineExpired => Err(Error::CallTimeout),
        },
{
    match reply {
        CallReply::Response(response) => Ok(response),
        CallReply::IoFailure => Err(Error::Io),
        CallReply::Malformed => Err(Error::Deserialize),
        CallReply::DeadlineExpired => Err(Error::CallTimeout),
    }
}

/// The sum of `xs`.
pub open spec fn total(xs: Seq<u64>) -> nat
    decreases xs.len(),
{
    if xs.len() == 0 {
        0
    } else {
        total(xs.drop_last()) + xs.last() as nat
    }
}

/// The sum of the first elements is at most the sum of all.
pub proof fn lemma_total_of_prefix(xs: Seq<u64>, n: int)
    requires
        0 <= n <= xs.len(),
    ensures
        total(xs.take(n)) <= total(xs),
    decreases xs.len(),
{
    if n == xs.len() {
        assert(xs.take(n) =~= xs);
    } else {
        assert(xs.drop_last().take(n) =~= xs.take(n));
        lemma_total_of_prefix(xs.drop_last(), n);
    }
}

/// Where a connection stands.
#[derive(Clone, Copy, Debug, PartialEq, Eq, Structural, Hash)]
pub enum Phase {
    /// The next thing to do is a connect attempt.
    Connecting,
    /// The next thing to do is to wait before the next attempt.
    Sleeping,
    /// The connection is made.
    Established,
    /// The connection was given up.
    Failed,
}

/// What the caller does next.
#[derive(Clone, Copy, Debug, PartialEq, Eq, Structural, Hash)]
pub enum ConnectAction {
    /// Try to connect, for at most this many milliseconds.
    Connect { timeout_ms: u64 },
    /// Wait this many milliseconds.
    Sleep { millis: u64 },
    /// Use the connection.
    Proceed,
    /// Fail the call with this error.
    Fail(Error),
}

/// What the caller reports.
#[derive(Clone, Copy, Debug, PartialEq, Eq, Structural, Hash)]
pub enum ConnectEvent {
    /// The connect attempt succeeded.
    Connected,
    /// The connect attempt failed after this many milliseconds.
    Refused { elapsed_ms: u64 },
    /// The wait is over.
    Slept,
}

/// The progress of one connection: its phase, the attempts that failed, and
/// the milliseconds that the attempts took.
#[derive(Clone, Copy, Debug, PartialEq, Eq, Structural, Hash)]
pub struct ConnectState {
    pub phase: Phase,
    pub failures: usize,
    pub spent_ms: u64,
}

/// How often and for how long a connection is tried: one attempt per delay,
/// with the delay number `k` slept after the failure number `k`, and a budget
/// of time for all attempts together. The last delay is never slept.
pub struct RetryPolicy {
    pub delays: Vec<u64>,
    pub budget_ms: u64,
}

impl ConnectState {
    /// The waits that are over.
    pub open spec fn sleeps_done(self) -> int {
        match self.phase {
            Phase::Connecting | Phase::Established => self.failures as int,
            Phase::Sleeping | Phase::Failed => if self.failures == 0 {
                0
            } else {
                self.failures - 1
            },
        }
    }
}

impl RetryPolicy {
    /// The policy with the given delays and budget.
    pub fn new(delays: Vec<u64>, budget_ms: u64) -> (policy: RetryPolicy)
        ensures
            policy.delays == delays,
            policy.budget_ms == budget_ms,
    {
        RetryPolicy { delays, budget_ms }
    }

    /// The states that a connection under this policy can be in.
    pub open spec fn admits(&self, state: ConnectState) -> bool {
        &&& state.failures <= self.delays@.len()
        &&& state.spent_ms <= self.budget_ms
        &&& state.phase == Phase::Connecting ==> state.failures < self.delays@.len()
            && state.spent_ms < self.budget_ms
        &&& state.phase == Phase::Sleeping ==> 1 <= state.failures < self.delays@.len()
            && state.spent_ms < self.budget_ms
    }

    /// The state before the first attempt. With no attempt or no time allowed
    /// the connection has failed already.
    pub open spec fn initial(&self) -> ConnectState {
        ConnectState {
            phase: if self.delays@.len() == 0 || self.budget_ms == 0 {
                Phase::Failed
            } else {
                Phase::Connecting
            },
            failures: 0,
            spent_ms: 0,
        }
    }

    /// The state that follows `state` on `event`. A failed attempt counts
    /// with the time it took, but with no more than its timeout; it is the
    /// last one if no attempt or no time is left. A report that does not fit
    /// the phase changes nothing, and neither does any report in a state
    /// that the policy does not admit.
    pub open spec fn after(&self, state: ConnectState, event: ConnectEvent) -> ConnectState {
        if !self.admits(state) {
            state
        } else {
            self.after_admitted(state, event)
        }
    }

    /// The state that follows an admitted state on `event`.
    pub open spec fn after_admitted(&self, state: ConnectState, event: ConnectEvent) -> ConnectState {
        match (state.phase, event) {
            (Phase::Connecting, ConnectEvent::Connected) => ConnectState {
                phase: Phase::Established,
                ..state
            },
            (Phase::Connecting, ConnectEvent::Refused { elapsed_ms }) => {
                let left = self.budget_ms - state.spent_ms;
                let used = if elapsed_ms < left {
                    elapsed_ms as int
                } else {
                    left
                };
                let failures = (state.failures + 1) as usize;
                let spent_ms = (state.spent_ms + used) as u64;
                ConnectState {
                    phase: if failures >= self.delays@.len() || spent_ms >= self.budget_ms {
                        Phase::Failed
                    } else {
                        Phase::Sleeping
                    },
                    failures,
                    spent_ms,
                }
            },
            (Phase::Sleeping, ConnectEvent::Slept) => ConnectState {
                phase: Phase::Connecting,
                ..state
            },
            _ => state,
        }
    }

    /// What the caller does in `state`. In a state that the policy does not
    /// admit it gives up.
    pub open spec fn action_in(&self, state: ConnectState) -> ConnectAction {
        if !self.admits(state) {
            ConnectAction::Fail(Error::Unreachable)
        } else {
            match state.phase {
                Phase::Connecting => ConnectAction::Connect {
                    timeout_ms: (self.budget_ms - state.spent_ms) as u64,
                },
                Phase::Sleeping => ConnectAction::Sleep {
                    millis: self.delays@[state.failures - 1],
                },
                Phase::Established => ConnectAction::Proceed,
                Phase::Failed => ConnectAction::Fail(Error::Unreachable),
            }
        }
    }

    /// Whether the policy admits `state`.
    pub fn check(&self, state: &ConnectState) -> (admitted: bool)
        ensures
            admitted == self.admits(*state),
    {
        let attempts: usize = self.delays.len();
        state.failures <= attempts && state.spent_ms <= self.budget_ms && (match state.phase {
            Phase::Connecting => state.failures < attempts && state.spent_ms < self.budget_ms,
            Phase::Sleeping => 1 <= state.failures && state.failures < attempts && state.spent_ms
                < self.budget_ms,
            _ => true,
        })
    }

    /// The state after `refused.len()` failed attempts that took the given
    /// times, each followed by its wait.
    pub open spec fn after_refusals(&self, refused: Seq<u64>) -> ConnectState
        decreases refused.len(),
    {
        if refused.len() == 0 {
            self.initial()
        } else {
            self.after(
                self.after(
                    self.after_refusals(refused.drop_last()),
                    ConnectEvent::Refused { elapsed_ms: refused.last() },
                ),
                ConnectEvent::Slept,
            )
        }
    }

    /// The state before the first attempt.
    pub fn start(&self) -> (state: ConnectState)
        ensures
            state == self.initial(),
            self.admits(state),
    {
        let phase: Phase = if self.delays.len() == 0 || self.budget_ms == 0 {
            Phase::Failed
        } else {
            Phase::Connecting
        };
        ConnectState { phase, failures: 0, spent_ms: 0 }
    }

    /// What the caller does in `state`.
    pub fn action(&self, state: &ConnectState) -> (action: ConnectAction)
        ensures
            action == self.action_in(*state),
    {
        if !self.check(state) {
            return ConnectAction::Fail(Error::Unreachable);
        }
        match state.phase {
            Phase::Connecting => ConnectAction::Connect {
                timeout_ms: self.budget_ms - state.spent_ms,
            },
            Phase::Sleeping => ConnectAction::Sleep { millis: self.delays[state.failures - 1] },
            Phase::Established => ConnectAction::Proceed,
            Phase::Failed => ConnectAction::Fail(Error::Unreachable),
        }
    }

    /// The state that follows `state` on `event`.
    pub fn step(&self, state: ConnectState, event: ConnectEvent) -> (next: ConnectState)
        ensures
            next == self.after(state, event),
            self.admits(state) ==> self.admits(next),
    {
        if !self.check(&state) {
            return state;
        }
        match state.phase {
            Phase::Connecting => match event {
                ConnectEvent::Connected => ConnectState {
                    phase: Phase::Established,
                    failures: state.failures,
                    spent_ms: state.spent_ms,
                },
                ConnectEvent::Refused { elapsed_ms } => {
                    let left: u64 = self.budget_ms - state.spent_ms;
                    let used: u64 = if elapsed_ms < left {
                        elapsed_ms
                    } else {
                        left
                    };
                    let attempts: usize = self.delays.len();
                    let failures: usize = state.failures + 1;
                    let spent_ms: u64 = state.spent_ms + used;
                    let phase: Phase = if failures >= attempts || spent_ms >= self.budget_ms {
                        Phase::Failed
                    } else {
                        Phase::Sleeping
                    };
                    ConnectState { phase, failures, spent_ms }
                },
                ConnectEvent::Slept => state,
            },
            Phase::Sleeping => match event {
                ConnectEvent::Slept => ConnectState {
                    phase: Phase::Connecting,
                    failures: state.failures,
                    spent_ms: state.spent_ms,
                },
                _ => state,
            },
            _ => state,
        }
    }
}

/// After attempts that failed, with an attempt and time left, the connection
/// is about to try again, and it has counted the failures and their time.
pub proof fn lemma_after_refusals(policy: RetryPolicy, refused: Seq<u64>)
    requires
        refused.len() < policy.delays@.len(),
        total(refused) < policy.budget_ms,
    ensures
        policy.after_refusals(refused) == (ConnectState {
            phase: Phase::Connecting,
            failures: refused.len() as usize,
            spent_ms: total(refused) as u64,
        }),
    decreases refused.len(),
{
    assert(policy.delays.len() == policy.delays@.len());
    if refused.len() > 0 {
        lemma_after_refusals(policy, refused.drop_last());
        assert(total(refused) == total(refused.drop_last()) + refused.last());
    }
}

/// The retry budget, first half: a server that refuses fewer attempts than
/// the policy allows, in less time than the budget, and then accepts, is
/// reached.
pub proof fn law_accepted_after_refusals(policy: RetryPolicy, refused: Seq<u64>)
    requires
        refused.len() < policy.delays@.len(),
        total(refused) < policy.budget_ms,
    ensures
        policy.after(policy.after_refusals(refused), ConnectEvent::Connected).phase
            == Phase::Established,
        policy.action_in(policy.after(policy.after_refusals(refused), ConnectEvent::Connected))
            == ConnectAction::Proceed,
{
    lemma_after_refusals(policy, refused);
}

/// The retry budget, second half: a server that refuses as many attempts as
/// the policy allows is unreachable, and no further attempt is made.
pub proof fn law_unreachable_after_all_refusals(policy: RetryPolicy, refused: Seq<u64>)
    requires
        refused.len() == policy.delays@.len(),
    ensures
        policy.after_refusals(refused).phase == Phase::Failed,
        policy.action_in(policy.after_refusals(refused)) == ConnectAction::Fail(Error::Unreachable),
        policy.after(policy.after_refusals(refused), ConnectEvent::Connected).phase
            == Phase::Failed,
    decreases refused.len(),
{
    assert(policy.delays.len() == policy.delays@.len());
    if refused.len() > 0 {
        lemma_refusals_counted(policy, refused.drop_last());
    }
}

/// After `refused.len()` failed attempts within what the policy allows, the
/// connection has either failed or counted exactly these failures.
proof fn lemma_refusals_counted(policy: RetryPolicy, refused: Seq<u64>)
    requires
        refused.len() < policy.delays@.len(),
    ensures
        policy.admits(policy.after_refusals(refused)),
        policy.after_refusals(refused).phase == Phase::Failed || (policy.after_refusals(
            refused,
        ).phase == Phase::Connecting && policy.after_refusals(refused).failures == refused.len()),
    decreases refused.len(),
{
    assert(policy.delays.len() == policy.delays@.len());
    if refused.len() > 0 {
        lemma_refusals_counted(policy, refused.drop_last());
    }
}

/// The time of connecting is bounded: in every state that the policy admits,
/// the attempts took no more than the budget, and the waits that are over
/// are the first delays, so that both together took no more than the budget
/// and all delays.
pub proof fn law_connect_time_is_bounded(policy: RetryPolicy, state: ConnectState)
    requires
        policy.admits(state),
    ensures
        state.spent_ms <= policy.budget_ms,
        0 <= state.sleeps_done() <= policy.delays@.len(),
        state.spent_ms + total(policy.delays@.take(state.sleeps_done())) <= policy.budget_ms
            + total(policy.delays@),
{
    lemma_total_of_prefix(policy.delays@, state.sleeps_done());
}

} // verus!
