//! A transactional consume--procedure--produce step.
//!
//! For each delivered record the step asks the attempt tracker for an attempt,
//! invokes a procedure, and puts the procedure's outputs and the delivery into
//! one transaction. The caller makes the calls and reports what came of each;
//! this module says what to do next.
use vstd::prelude::*;

use crate::wire;

verus! {

/// The longest sleep between two looks at a pending invocation, in
/// milliseconds.
pub const INVOKE_POLL_MS: u32 = 10;

/// What the step may do, and how long it waits.
pub struct Profile {
    pub allowed_routes: Vec<u16>,
    pub dlq_route: u16,
    pub max_outputs: usize,
    pub max_attempts: u16,
    pub procedure_timeout_ms: u32,
    pub retry_backoff_ms: u32,
    pub idle_poll_ms: u32,
}

/// Every record goes to a route of `allowed`, and there are not too many.
pub open spec fn outputs_allowed(routes: Seq<u16>, allowed: Seq<u16>, max_outputs: int) -> bool {
    &&& routes.len() <= max_outputs
    &&& forall|i: int| 0 <= i < routes.len() ==> allowed.contains(#[trigger] routes[i])
}

impl Profile {
    /// Whether outputs may go to `route`.
    pub fn allows(&self, route: u16) -> (allowed: bool)
        ensures
            allowed == self.allowed_routes@.contains(route),
    {
        let mut index: usize = 0;
        while index < self.allowed_routes.len()
            invariant
                index <= self.allowed_routes@.len(),
                forall|j: int| 0 <= j < index ==> self.allowed_routes@[j] != route,
            decreases self.allowed_routes@.len() - index,
        {
            if self.allowed_routes[index] == route {
                assert(self.allowed_routes@[index as int] == route);
                return true;
            }
            index += 1;
        }
        false
    }

    /// Whether a batch of outputs to `routes` is acceptable.
    pub fn allows_outputs(&self, routes: &[u16]) -> (allowed: bool)
        ensures
            allowed == outputs_allowed(
                routes@,
                self.allowed_routes@,
                self.max_outputs as int,
            ),
    {
        if routes.len() > self.max_outputs {
            return false;
        }
        let mut index: usize = 0;
        while index < routes.len()
            invariant
                index <= routes@.len(),
                forall|j: int|
                    0 <= j < index ==> self.allowed_routes@.contains(#[trigger] routes@[j]),
            decreases routes@.len() - index,
        {
            if !self.allows(routes[index]) {
                assert(!self.allowed_routes@.contains(routes@[index as int]));
                return false;
            }
            index += 1;
        }
        true
    }
}

/// What the step has done.
#[derive(Clone, Copy, Debug, PartialEq, Eq, Structural)]
pub struct Counters {
    pub polled: u32,
    pub invoked: u32,
    pub produced: u32,
    pub commits: u32,
    pub retries: u32,
    pub dlq: u32,
    pub timeouts: u32,
    pub aborts: u32,
}

impl Counters {
    pub fn new() -> (counters: Counters)
        ensures
            counters == (Counters {
                polled: 0,
                invoked: 0,
                produced: 0,
                commits: 0,
                retries: 0,
                dlq: 0,
                timeouts: 0,
                aborts: 0,
            }),
    {
        Counters {
            polled: 0,
            invoked: 0,
            produced: 0,
            commits: 0,
            retries: 0,
            dlq: 0,
            timeouts: 0,
            aborts: 0,
        }
    }
}

/// What an invocation came to.
#[derive(Clone, Copy, Debug, PartialEq, Eq, Structural)]
pub enum Invocation {
    /// The procedure is done and has no outputs.
    Complete,
    /// The first `len` bytes of the reply's memory hold an output batch.
    Outputs { len: usize },
    /// The procedure may succeed later.
    Retry,
    /// The procedure will never succeed.
    Terminal,
    Timeout,
    /// The reply makes no sense.
    Invalid,
}

/// The results that a procedure replies with instead of outputs.
#[derive(Clone, Copy, Debug, PartialEq, Eq)]
pub struct ReplyCodes {
    pub retry: i64,
    pub terminal: i64,
}

/// What a procedure's reply means.
pub open spec fn reply_meaning(result: i64, has_memory: bool, codes: ReplyCodes) -> Invocation {
    if result == 0 && !has_memory {
        Invocation::Complete
    } else if result > 0 && has_memory {
        if result <= usize::MAX {
            Invocation::Outputs { len: result as usize }
        } else {
            Invocation::Invalid
        }
    } else if result == codes.retry && !has_memory {
        Invocation::Retry
    } else if result == codes.terminal && !has_memory {
        Invocation::Terminal
    } else {
        Invocation::Invalid
    }
}

/// What a look at a pending invocation found.
#[derive(Clone, Copy, Debug, PartialEq, Eq, Structural)]
pub enum InvokePoll {
    Replied { result: i64, has_memory: bool },
    Pending,
    Failed,
}

/// What to do about a pending invocation.
#[derive(Clone, Copy, Debug, PartialEq, Eq, Structural)]
pub enum InvokeStep {
    Done { invocation: Invocation },
    /// Sleep, then look again.
    Sleep { ms: u32 },
}

/// The step after a look at an invocation that has been pending for `elapsed`
/// milliseconds.
pub open spec fn invoke_next(
    poll: InvokePoll,
    elapsed: u32,
    timeout_ms: u32,
    codes: ReplyCodes,
) -> InvokeStep {
    match poll {
        InvokePoll::Replied { result, has_memory } => InvokeStep::Done {
            invocation: reply_meaning(result, has_memory, codes),
        },
        InvokePoll::Failed => InvokeStep::Done { invocation: Invocation::Retry },
        InvokePoll::Pending => if elapsed >= timeout_ms {
            InvokeStep::Done { invocation: Invocation::Timeout }
        } else if timeout_ms - elapsed <= INVOKE_POLL_MS {
            InvokeStep::Sleep { ms: (timeout_ms - elapsed) as u32 }
        } else {
            InvokeStep::Sleep { ms: INVOKE_POLL_MS }
        },
    }
}

/// Decide about a pending invocation. After a `Sleep`, `elapsed` grows by its
/// length.
pub fn invoke_step(poll: InvokePoll, elapsed: u32, timeout_ms: u32, codes: &ReplyCodes) -> (step:
    InvokeStep)
    ensures
        step == invoke_next(poll, elapsed, timeout_ms, *codes),
{
    match poll {
        InvokePoll::Replied { result, has_memory } => {
            let invocation: Invocation = if result == 0 && !has_memory {
                Invocation::Complete
            } else if result > 0 && has_memory {
                if result as u64 <= usize::MAX as u64 {
                    Invocation::Outputs { len: result as usize }
                } else {
                    Invocation::Invalid
                }
            } else if result == codes.retry && !has_memory {
                Invocation::Retry
            } else if result == codes.terminal && !has_memory {
                Invocation::Terminal
            } else {
                Invocation::Invalid
            };
            InvokeStep::Done { invocation }
        },
        InvokePoll::Failed => InvokeStep::Done { invocation: Invocation::Retry },
        InvokePoll::Pending => {
            if elapsed >= timeout_ms {
                InvokeStep::Done { invocation: Invocation::Timeout }
            } else if timeout_ms - elapsed <= INVOKE_POLL_MS {
                InvokeStep::Sleep { ms: timeout_ms - elapsed }
            } else {
                InvokeStep::Sleep { ms: INVOKE_POLL_MS }
            }
        },
    }
}

/// What the attempt tracker says of a failed attempt.
#[derive(Clone, Copy, Debug, PartialEq, Eq, Structural)]
pub enum FailureAction {
    Retry,
    DeadLetter,
}

/// How far the step is with a delivery.
#[derive(Clone, Copy, Debug, PartialEq, Eq, Structural)]
pub enum Stage {
    /// Waiting for a delivery.
    Polling,
    /// Waiting for the tracker's attempt number.
    Attempting,
    /// Waiting for the procedure.
    Invoking,
    /// Waiting for a transaction that takes `outputs` outputs.
    Beginning { outputs: usize },
    /// Waiting for the output with number `next`.
    Producing { next: usize, outputs: usize },
    /// Waiting for the tracker's judgement of a failed attempt.
    Judging,
    /// Waiting for the transaction that dead-letters the record.
    DeadLettering,
    /// Waiting for the commit.
    Committing,
}

/// What the step asks of the caller.
#[derive(Clone, Copy, Debug, PartialEq, Eq, Structural)]
pub enum Action {
    /// Poll the consumer. `publish` asks to publish the counters first.
    Poll { publish: bool },
    /// Give the delivery back, sleep, then poll.
    Rest { ms: u32, publish: bool },
    /// Ask the tracker for an attempt.
    Attempt,
    /// Invoke the procedure.
    Invoke { attempt: u16 },
    /// Begin a transaction.
    Begin,
    /// Produce the output with this number.
    Produce { index: usize },
    /// Ask the tracker whether to retry.
    Judge,
    /// Begin a transaction and produce the record to this route.
    DeadLetter { route: u16 },
    /// Put the delivery into the transaction and commit it.
    Commit,
}

/// The step's state.
#[derive(Clone, Copy, Debug, PartialEq, Eq, Structural)]
pub struct Step {
    pub stage: Stage,
    pub counters: Counters,
}

/// Consumer poll results.
#[derive(Clone, Copy, Debug, PartialEq, Eq, Structural)]
pub enum Poll {
    Delivered,
    Nothing,
    Failed,
}

/// The counters after an attempt that will be repeated.
pub open spec fn retried(counters: Counters) -> Counters {
    Counters { retries: counters.retries.wrapping_add(1), ..counters }
}

/// The step after an attempt that will be repeated.
pub open spec fn rested(counters: Counters) -> Step {
    Step { stage: Stage::Polling, counters: retried(counters) }
}

/// The counters once a transaction was aborted.
pub open spec fn aborted(counters: Counters) -> Counters {
    Counters { aborts: counters.aborts.wrapping_add(1), ..counters }
}

impl Step {
    /// Where a poll leads.
    pub open spec fn after_poll(self, poll: Poll, profile: Profile) -> (Step, Action) {
        match poll {
            Poll::Delivered => (
                Step {
                    stage: Stage::Attempting,
                    counters: Counters {
                        polled: self.counters.polled.wrapping_add(1),
                        ..self.counters
                    },
                },
                Action::Attempt,
            ),
            Poll::Nothing => (self, Action::Rest { ms: profile.idle_poll_ms, publish: false }),
            Poll::Failed => (self, Action::Rest { ms: profile.retry_backoff_ms, publish: false }),
        }
    }

    /// Where the number of the attempt leads.
    pub open spec fn after_attempt(self, attempt: Option<u16>, profile: Profile) -> (Step, Action) {
        match attempt {
            Some(number) => (
                Step {
                    stage: Stage::Invoking,
                    counters: Counters {
                        invoked: self.counters.invoked.wrapping_add(1),
                        ..self.counters
                    },
                },
                Action::Invoke { attempt: number },
            ),
            None => (
                Step { stage: Stage::Polling, ..self },
                Action::Rest { ms: profile.retry_backoff_ms, publish: false },
            ),
        }
    }

    /// Where what the procedure answered leads; `routes` are those of its outputs.
    pub open spec fn after_invocation(
        self,
        invocation: Invocation,
        routes: Option<Seq<u16>>,
        profile: Profile,
    ) -> (Step, Action) {
        let counters = self.counters;
        let dead_letter = (
            Step { stage: Stage::DeadLettering, counters },
            Action::DeadLetter { route: profile.dlq_route },
        );
        match invocation {
            Invocation::Complete => (
                Step { stage: Stage::Beginning { outputs: 0 }, counters },
                Action::Begin,
            ),
            Invocation::Outputs { len } => if routes is Some && outputs_allowed(
                routes->0,
                profile.allowed_routes@,
                profile.max_outputs as int,
            ) {
                (
                    Step { stage: Stage::Beginning { outputs: routes->0.len() as usize }, counters },
                    Action::Begin,
                )
            } else {
                dead_letter
            },
            Invocation::Retry => (Step { stage: Stage::Judging, counters }, Action::Judge),
            Invocation::Timeout => (
                Step {
                    stage: Stage::Judging,
                    counters: Counters { timeouts: counters.timeouts.wrapping_add(1), ..counters },
                },
                Action::Judge,
            ),
            Invocation::Terminal | Invocation::Invalid => dead_letter,
        }
    }

    /// Where a transaction that was begun, or was not, leads.
    pub open spec fn after_begin(self, ok: bool, profile: Profile) -> (Step, Action) {
        let outputs = self.stage->Beginning_outputs;
        if !ok {
            (
                rested(aborted(self.counters)),
                Action::Rest { ms: profile.retry_backoff_ms, publish: true },
            )
        } else if outputs == 0 {
            (Step { stage: Stage::Committing, ..self }, Action::Commit)
        } else {
            (
                Step { stage: Stage::Producing { next: 0, outputs }, ..self },
                Action::Produce { index: 0 },
            )
        }
    }

    /// Where an output that was written, or was not, leads.
    pub open spec fn after_produce(self, ok: bool, profile: Profile) -> (Step, Action) {
        let next = self.stage->next;
        let outputs = self.stage->Producing_outputs;
        let counted = Counters {
            produced: self.counters.produced.wrapping_add(1),
            ..self.counters
        };
        if !ok {
            (
                rested(aborted(self.counters)),
                Action::Rest { ms: profile.retry_backoff_ms, publish: true },
            )
        } else if next + 1 == outputs {
            (Step { stage: Stage::Committing, counters: counted }, Action::Commit)
        } else {
            (
                Step {
                    stage: Stage::Producing { next: (next + 1) as usize, outputs },
                    counters: counted,
                },
                Action::Produce { index: (next + 1) as usize },
            )
        }
    }

    /// Where the judgement on a failure leads.
    pub open spec fn after_judgement(self, judgement: FailureAction, profile: Profile) -> (
        Step,
        Action,
    ) {
        match judgement {
            FailureAction::DeadLetter => (
                Step { stage: Stage::DeadLettering, ..self },
                Action::DeadLetter { route: profile.dlq_route },
            ),
            FailureAction::Retry => (
                rested(self.counters),
                Action::Rest { ms: profile.retry_backoff_ms, publish: true },
            ),
        }
    }

    /// Where a record that was put aside, or was not, leads.
    pub open spec fn after_dead_letter(self, ok: bool, profile: Profile) -> (Step, Action) {
        let counters = self.counters;
        if ok {
            (
                Step {
                    stage: Stage::Committing,
                    counters: Counters {
                        produced: counters.produced.wrapping_add(1),
                        dlq: counters.dlq.wrapping_add(1),
                        ..counters
                    },
                },
                Action::Commit,
            )
        } else {
            (rested(counters), Action::Rest { ms: profile.retry_backoff_ms, publish: true })
        }
    }

    /// Where a transaction that was committed, or was not, leads.
    pub open spec fn after_commit(self, ok: bool, profile: Profile) -> (Step, Action) {
        let counters = self.counters;
        if ok {
            (
                Step {
                    stage: Stage::Polling,
                    counters: Counters { commits: counters.commits.wrapping_add(1), ..counters },
                },
                Action::Poll { publish: true },
            )
        } else {
            (
                rested(aborted(counters)),
                Action::Rest { ms: profile.retry_backoff_ms, publish: true },
            )
        }
    }

    pub fn new() -> (step: Step)
        ensures
            step.stage == Stage::Polling,
            step.counters == (Counters {
                polled: 0,
                invoked: 0,
                produced: 0,
                commits: 0,
                retries: 0,
                dlq: 0,
                timeouts: 0,
                aborts: 0,
            }),
    {
        Step { stage: Stage::Polling, counters: Counters::new() }
    }

    /// Give the delivery back and sleep.
    fn rest(&mut self, profile: &Profile) -> (action: Action)
        ensures
            *final(self) == rested(old(self).counters),
            action == (Action::Rest { ms: profile.retry_backoff_ms, publish: true }),
    {
        self.counters.retries = self.counters.retries.wrapping_add(1);
        self.stage = Stage::Polling;
        Action::Rest { ms: profile.retry_backoff_ms, publish: true }
    }

    /// The consumer was polled.
    pub fn polled(&mut self, poll: Poll, profile: &Profile) -> (action: Action)
        requires
            old(self).stage == Stage::Polling,
        ensures
            (*final(self), action) == old(self).after_poll(poll, *profile),
    {
        match poll {
            Poll::Delivered => {
                self.counters.polled = self.counters.polled.wrapping_add(1);
                self.stage = Stage::Attempting;
                Action::Attempt
            },
            Poll::Nothing => Action::Rest { ms: profile.idle_poll_ms, publish: false },
            Poll::Failed => Action::Rest { ms: profile.retry_backoff_ms, publish: false },
        }
    }

    /// The tracker gave an attempt number, or has no room for the delivery.
    pub fn attempted(&mut self, attempt: Option<u16>, profile: &Profile) -> (action: Action)
        requires
            old(self).stage == Stage::Attempting,
        ensures
            (*final(self), action) == old(self).after_attempt(attempt, *profile),
    {
        match attempt {
            Some(attempt) => {
                self.counters.invoked = self.counters.invoked.wrapping_add(1);
                self.stage = Stage::Invoking;
                Action::Invoke { attempt }
            },
            None => {
                self.stage = Stage::Polling;
                Action::Rest { ms: profile.retry_backoff_ms, publish: false }
            },
        }
    }

    /// The procedure was invoked. `routes` are the routes of its output batch,
    /// where it replied with one that could be read.
    pub fn invoked(&mut self, invocation: Invocation, routes: Option<&[u16]>, profile: &Profile) -> (
        action: Action)
        requires
            old(self).stage == Stage::Invoking,
        ensures
            (*final(self), action) == old(self).after_invocation(
                invocation,
                match routes {
                    Some(routes) => Some(routes@),
                    None => None,
                },
                *profile,
            ),
    {
        match invocation {
            Invocation::Complete => {
                self.stage = Stage::Beginning { outputs: 0 };
                Action::Begin
            },
            Invocation::Outputs { len } => {
                if let Some(routes) = routes {
                    if profile.allows_outputs(routes) {
                        self.stage = Stage::Beginning { outputs: routes.len() };
                        return Action::Begin;
                    }
                }
                self.stage = Stage::DeadLettering;
                Action::DeadLetter { route: profile.dlq_route }
            },
            Invocation::Retry => {
                self.stage = Stage::Judging;
                Action::Judge
            },
            Invocation::Timeout => {
                self.counters.timeouts = self.counters.timeouts.wrapping_add(1);
                self.stage = Stage::Judging;
                Action::Judge
            },
            Invocation::Terminal | Invocation::Invalid => {
                self.stage = Stage::DeadLettering;
                Action::DeadLetter { route: profile.dlq_route }
            },
        }
    }

    /// The transaction was begun, or could not be.
    pub fn begun(&mut self, ok: bool, profile: &Profile) -> (action: Action)
        requires
            old(self).stage is Beginning,
        ensures
            (*final(self), action) == old(self).after_begin(ok, *profile),
    {
        let outputs: usize = match self.stage {
            Stage::Beginning { outputs } => outputs,
            _ => 0,
        };
        if !ok {
            self.counters.aborts = self.counters.aborts.wrapping_add(1);
            return self.rest(profile);
        }
        if outputs == 0 {
            self.stage = Stage::Committing;
            Action::Commit
        } else {
            self.stage = Stage::Producing { next: 0, outputs };
            Action::Produce { index: 0 }
        }
    }

    /// An output was produced, or could not be.
    pub fn produced(&mut self, ok: bool, profile: &Profile) -> (action: Action)
        requires
            old(self).stage is Producing,
            old(self).stage->next < old(self).stage->Producing_outputs,
        ensures
            (*final(self), action) == old(self).after_produce(ok, *profile),
    {
        if !ok {
            self.counters.aborts = self.counters.aborts.wrapping_add(1);
            return self.rest(profile);
        }
        self.counters.produced = self.counters.produced.wrapping_add(1);
        match self.stage {
            Stage::Producing { next, outputs } => {
                if next + 1 == outputs {
                    self.stage = Stage::Committing;
                    Action::Commit
                } else {
                    self.stage = Stage::Producing { next: next + 1, outputs };
                    Action::Produce { index: next + 1 }
                }
            },
            _ => Action::Commit,
        }
    }

    /// The tracker judged a failed attempt.
    pub fn judged(&mut self, judgement: FailureAction, profile: &Profile) -> (action: Action)
        requires
            old(self).stage == Stage::Judging,
        ensures
            (*final(self), action) == old(self).after_judgement(judgement, *profile),
    {
        match judgement {
            FailureAction::DeadLetter => {
                self.stage = Stage::DeadLettering;
                Action::DeadLetter { route: profile.dlq_route }
            },
            FailureAction::Retry => self.rest(profile),
        }
    }

    /// The record was produced to the dead-letter route in a new transaction, or
    /// could not be.
    pub fn dead_lettered(&mut self, ok: bool, profile: &Profile) -> (action: Action)
        requires
            old(self).stage == Stage::DeadLettering,
        ensures
            (*final(self), action) == old(self).after_dead_letter(ok, *profile),
    {
        if !ok {
            return self.rest(profile);
        }
        self.counters.produced = self.counters.produced.wrapping_add(1);
        self.counters.dlq = self.counters.dlq.wrapping_add(1);
        self.stage = Stage::Committing;
        Action::Commit
    }

    /// The transaction was committed, with the delivery in it, or could not be.
    /// After a commit the tracker forgets the delivery's attempts.
    pub fn committed(&mut self, ok: bool, profile: &Profile) -> (action: Action)
        requires
            old(self).stage == Stage::Committing,
        ensures
            (*final(self), action) == old(self).after_commit(ok, *profile),
    {
        if !ok {
            self.counters.aborts = self.counters.aborts.wrapping_add(1);
            return self.rest(profile);
        }
        self.counters.commits = self.counters.commits.wrapping_add(1);
        self.stage = Stage::Polling;
        Action::Poll { publish: true }
    }
}

/// Milliseconds that an invocation which never answers is waited for, from
/// `elapsed` on.
pub open spec fn invocation_wait(elapsed: u32, timeout_ms: u32, codes: ReplyCodes) -> int
    decreases timeout_ms - elapsed,
{
    if elapsed >= timeout_ms {
        0
    } else {
        match invoke_next(InvokePoll::Pending, elapsed, timeout_ms, codes) {
            InvokeStep::Sleep { ms } if 0 < ms <= timeout_ms - elapsed => ms + invocation_wait(
                (elapsed + ms) as u32,
                timeout_ms,
                codes,
            ),
            _ => 0,
        }
    }
}

/// An invocation that never answers is waited for exactly as long as its
/// timeout, and then counts as timed out.
pub proof fn law_invocation_waits_for_its_timeout(elapsed: u32, timeout_ms: u32, codes: ReplyCodes)
    requires
        elapsed <= timeout_ms,
    ensures
        invocation_wait(elapsed, timeout_ms, codes) == timeout_ms - elapsed,
        invoke_next(InvokePoll::Pending, timeout_ms, timeout_ms, codes) == (InvokeStep::Done {
            invocation: Invocation::Timeout,
        }),
    decreases timeout_ms - elapsed,
{
    if elapsed < timeout_ms {
        let ms = if timeout_ms - elapsed <= INVOKE_POLL_MS {
            (timeout_ms - elapsed) as u32
        } else {
            INVOKE_POLL_MS
        };
        law_invocation_waits_for_its_timeout((elapsed + ms) as u32, timeout_ms, codes);
    }
}

/// The record that the self-test procedure answers with an output.
pub const STEP_INPUT: [u8; 20] = [
    99, 104, 97, 114, 108, 111, 116, 116, 101, 45, 115, 116, 101, 112, 45, 105, 110, 112, 117, 116,
];

/// The record whose first attempt asks for a retry.
pub const STEP_RETRY: [u8; 20] = [
    99, 104, 97, 114, 108, 111, 116, 116, 101, 45, 115, 116, 101, 112, 45, 114, 101, 116, 114, 121,
];

/// The record whose first attempt takes too long.
pub const STEP_TIMEOUT: [u8; 22] = [
    99, 104, 97, 114, 108, 111, 116, 116, 101, 45, 115, 116, 101, 112, 45, 116, 105, 109, 101, 111,
    117, 116,
];

/// The record that can never succeed.
pub const STEP_DLQ: [u8; 18] = [
    99, 104, 97, 114, 108, 111, 116, 116, 101, 45, 115, 116, 101, 112, 45, 100, 108, 113,
];

/// What the self-test procedure does with a record.
#[derive(Clone, Copy, Debug, PartialEq, Eq, Structural)]
pub enum ProcedureAction {
    Retry,
    Timeout,
    Terminal,
    Output,
    Complete,
}

/// The self-test procedure's answer to `value` on attempt `attempt`.
pub open spec fn procedure_answer(value: Seq<u8>, attempt: u16) -> ProcedureAction {
    if value == STEP_RETRY@ && attempt == 1 {
        ProcedureAction::Retry
    } else if value == STEP_TIMEOUT@ && attempt == 1 {
        ProcedureAction::Timeout
    } else if value == STEP_DLQ@ {
        ProcedureAction::Terminal
    } else if value == STEP_INPUT@ || value == STEP_RETRY@ || value == STEP_TIMEOUT@ {
        ProcedureAction::Output
    } else {
        ProcedureAction::Complete
    }
}

/// Choose the self-test procedure's answer.
pub fn procedure_action(value: &[u8], attempt: u16) -> (action: ProcedureAction)
    ensures
        action == procedure_answer(value@, attempt),
{
    let input: [u8; 20] = STEP_INPUT;
    let retry: [u8; 20] = STEP_RETRY;
    let timeout: [u8; 22] = STEP_TIMEOUT;
    let dlq: [u8; 18] = STEP_DLQ;
    let is_retry: bool = wire::bytes_equal(value, &retry);
    let is_timeout: bool = wire::bytes_equal(value, &timeout);
    if is_retry && attempt == 1 {
        ProcedureAction::Retry
    } else if is_timeout && attempt == 1 {
        ProcedureAction::Timeout
    } else if wire::bytes_equal(value, &dlq) {
        ProcedureAction::Terminal
    } else if wire::bytes_equal(value, &input) || is_retry || is_timeout {
        ProcedureAction::Output
    } else {
        ProcedureAction::Complete
    }
}

/// The attempt number of an invocation of the self-test procedure, where the
/// request is a proper one.
pub fn requested_attempt(is_invoke: bool, argument: u64) -> (attempt: Option<u16>)
    ensures
        attempt == (if is_invoke && 0 < argument <= u16::MAX {
            Some(argument as u16)
        } else {
            None
        }),
{
    if !is_invoke || argument == 0 || argument > 65535 {
        None
    } else {
        Some(argument as u16)
    }
}

/// The steps once all outputs from `next` on were written.
pub open spec fn all_produced(step: Step, profile: Profile, count: nat) -> (Step, Action)
    decreases count,
{
    if count == 0 {
        (step, Action::Produce { index: step.stage->next })
    } else {
        all_produced(step, profile, (count - 1) as nat).0.after_produce(true, profile)
    }
}

/// Every output is written, in order and once, before the transaction is committed.
pub proof fn law_outputs_are_written_in_order(step: Step, profile: Profile, count: nat)
    requires
        step.stage is Producing,
        step.stage->next == 0,
        0 < count <= step.stage->Producing_outputs,
    ensures
        ({
            let (after, action) = all_produced(step, profile, count);
            if count < step.stage->Producing_outputs {
                &&& action == (Action::Produce { index: count as usize })
                &&& after.stage is Producing
                &&& after.stage->next == count
                &&& after.stage->Producing_outputs == step.stage->Producing_outputs
            } else {
                &&& action == Action::Commit
                &&& after.stage == Stage::Committing
            }
        }),
        step.counters.produced + count <= u32::MAX ==> all_produced(
            step,
            profile,
            count,
        ).0.counters == (Counters {
            produced: (step.counters.produced + count) as u32,
            ..step.counters
        }),
    decreases count,
{
    reveal_with_fuel(all_produced, 2);
    if count > 1 {
        law_outputs_are_written_in_order(step, profile, (count - 1) as nat);
    }
}

/// A record's way through the steps: it is attempted, invoked and then either its
/// outputs are written and committed with it, or it is judged, or put aside and
/// committed; whatever fails on the way lets it be delivered again.
pub proof fn law_records_way_through_the_steps(
    step: Step,
    profile: Profile,
    number: u16,
    routes: Seq<u16>,
    len: usize,
    failure: FailureAction,
)
    requires
        step.counters.polled < u32::MAX,
        step.counters.invoked < u32::MAX,
        step.counters.produced < u32::MAX,
        step.counters.commits < u32::MAX,
        step.counters.retries < u32::MAX,
        step.counters.dlq < u32::MAX,
        step.counters.timeouts < u32::MAX,
        step.counters.aborts < u32::MAX,
    ensures
        step.after_poll(Poll::Delivered, profile) == (
            Step {
                stage: Stage::Attempting,
                counters: Counters { polled: (step.counters.polled + 1) as u32, ..step.counters },
            },
            Action::Attempt,
        ),
        step.after_poll(Poll::Nothing, profile) == (
            step,
            Action::Rest { ms: profile.idle_poll_ms, publish: false },
        ),
        step.after_poll(Poll::Failed, profile) == (
            step,
            Action::Rest { ms: profile.retry_backoff_ms, publish: false },
        ),
        step.after_attempt(Some(number), profile).1 == (Action::Invoke { attempt: number }),
        step.after_attempt(Some(number), profile).0.stage == Stage::Invoking,
        step.after_attempt(Some(number), profile).0.counters.invoked == step.counters.invoked + 1,
        step.after_attempt(None, profile).0.stage == Stage::Polling,
        step.after_attempt(None, profile).0.counters == step.counters,
        step.after_invocation(Invocation::Complete, None, profile).0.after_begin(true, profile).1
            == Action::Commit,
        outputs_allowed(routes, profile.allowed_routes@, profile.max_outputs as int)
            && routes.len() > 0 ==> step.after_invocation(
            Invocation::Outputs { len },
            Some(routes),
            profile,
        ).0.after_begin(true, profile) == (
            Step {
                stage: Stage::Producing { next: 0, outputs: routes.len() as usize },
                counters: step.counters,
            },
            Action::Produce { index: 0 },
        ),
        !outputs_allowed(routes, profile.allowed_routes@, profile.max_outputs as int)
            ==> step.after_invocation(Invocation::Outputs { len }, Some(routes), profile).1 == (
        Action::DeadLetter { route: profile.dlq_route }),
        step.after_invocation(Invocation::Outputs { len }, None, profile).1 == (
        Action::DeadLetter { route: profile.dlq_route }),
        step.after_invocation(Invocation::Terminal, None, profile) == (
            Step { stage: Stage::DeadLettering, counters: step.counters },
            Action::DeadLetter { route: profile.dlq_route },
        ),
        step.after_invocation(Invocation::Invalid, None, profile) == step.after_invocation(
            Invocation::Terminal,
            None,
            profile,
        ),
        step.after_invocation(Invocation::Retry, None, profile) == (
            Step { stage: Stage::Judging, counters: step.counters },
            Action::Judge,
        ),
        step.after_invocation(Invocation::Timeout, None, profile).1 == Action::Judge,
        step.after_invocation(Invocation::Timeout, None, profile).0.stage == Stage::Judging,
        step.after_invocation(Invocation::Timeout, None, profile).0.counters.timeouts
            == step.counters.timeouts + 1,
        step.after_judgement(FailureAction::DeadLetter, profile) == (
            Step { stage: Stage::DeadLettering, counters: step.counters },
            Action::DeadLetter { route: profile.dlq_route },
        ),
        step.after_dead_letter(true, profile) == (
            Step {
                stage: Stage::Committing,
                counters: Counters {
                    produced: (step.counters.produced + 1) as u32,
                    dlq: (step.counters.dlq + 1) as u32,
                    ..step.counters
                },
            },
            Action::Commit,
        ),
        step.after_commit(true, profile) == (
            Step {
                stage: Stage::Polling,
                counters: Counters { commits: (step.counters.commits + 1) as u32, ..step.counters },
            },
            Action::Poll { publish: true },
        ),
        ({
            let rest = Action::Rest { ms: profile.retry_backoff_ms, publish: true };
            let again = Counters { retries: (step.counters.retries + 1) as u32, ..step.counters };
            let undone = Counters { aborts: (step.counters.aborts + 1) as u32, ..again };
            &&& step.after_judgement(FailureAction::Retry, profile) == (
                Step { stage: Stage::Polling, counters: again },
                rest,
            )
            &&& step.after_dead_letter(false, profile) == (
                Step { stage: Stage::Polling, counters: again },
                rest,
            )
            &&& step.after_begin(false, profile) == (
                Step { stage: Stage::Polling, counters: undone },
                rest,
            )
            &&& step.after_produce(false, profile) == (
                Step { stage: Stage::Polling, counters: undone },
                rest,
            )
            &&& step.after_commit(false, profile) == (
                Step { stage: Stage::Polling, counters: undone },
                rest,
            )
        }),
{
}

/// A procedure's reply has one meaning: bytes with a length are outputs, none with
/// zero completes, its two codes retry or end, and everything else is invalid.
pub proof fn law_replies_have_one_meaning(result: i64, has_memory: bool, codes: ReplyCodes)
    requires
        codes.retry < 0,
        codes.terminal < 0,
        codes.retry != codes.terminal,
        result <= usize::MAX,
    ensures
        reply_meaning(result, has_memory, codes) == Invocation::Complete <==> result == 0
            && !has_memory,
        reply_meaning(result, has_memory, codes) is Outputs <==> result > 0 && has_memory,
        reply_meaning(result, has_memory, codes) is Outputs ==> reply_meaning(
            result,
            has_memory,
            codes,
        )->len == result,
        reply_meaning(result, has_memory, codes) == Invocation::Retry <==> result == codes.retry
            && !has_memory,
        reply_meaning(result, has_memory, codes) == Invocation::Terminal <==> result
            == codes.terminal && !has_memory,
        reply_meaning(result, has_memory, codes) != Invocation::Timeout,
{
}

/// Outputs are allowed exactly where they are few enough and each goes to a route
/// that the profile names.
pub proof fn law_every_output_has_a_named_route(
    routes: Seq<u16>,
    allowed: Seq<u16>,
    max_outputs: int,
    index: int,
)
    requires
        0 <= index < routes.len(),
    ensures
        outputs_allowed(routes, allowed, max_outputs) ==> allowed.contains(routes[index])
            && routes.len() <= max_outputs,
        !allowed.contains(routes[index]) ==> !outputs_allowed(routes, allowed, max_outputs),
        outputs_allowed(routes, allowed, max_outputs) <==> routes.len() <= max_outputs && forall|
            i: int,
        |
            0 <= i < routes.len() ==> allowed.contains(#[trigger] routes[i]),
{
}

/// A first attempt of a record that asks for it is retried or times out; from the
/// second on the same record has an output.
pub proof fn law_second_attempt_has_an_output(attempt: u16)
    requires
        attempt != 1,
    ensures
        procedure_answer(STEP_RETRY@, 1) == ProcedureAction::Retry,
        procedure_answer(STEP_TIMEOUT@, 1) == ProcedureAction::Timeout,
        procedure_answer(STEP_RETRY@, attempt) == ProcedureAction::Output,
        procedure_answer(STEP_TIMEOUT@, attempt) == ProcedureAction::Output,
        procedure_answer(STEP_INPUT@, attempt) == ProcedureAction::Output,
        procedure_answer(STEP_INPUT@, 1) == ProcedureAction::Output,
        procedure_answer(STEP_DLQ@, attempt) == ProcedureAction::Terminal,
        procedure_answer(STEP_DLQ@, 1) == ProcedureAction::Terminal,
{
    assert(STEP_RETRY@[15] == 114);
    assert(STEP_INPUT@[15] == 105);
    assert(STEP_TIMEOUT@.len() == 22);
    assert(STEP_DLQ@.len() == 18);
}

/// While an invocation does not answer, it is looked at every ten milliseconds, and
/// once more at its timeout.
pub proof fn law_invocations_are_looked_at_often(elapsed: u32, timeout_ms: u32, codes: ReplyCodes)
    ensures
        elapsed >= timeout_ms ==> invoke_next(InvokePoll::Pending, elapsed, timeout_ms, codes) == (
        InvokeStep::Done { invocation: Invocation::Timeout }),
        timeout_ms > elapsed + 10 ==> invoke_next(InvokePoll::Pending, elapsed, timeout_ms, codes)
            == (InvokeStep::Sleep { ms: 10 }),
        elapsed < timeout_ms <= elapsed + 10 ==> invoke_next(
            InvokePoll::Pending,
            elapsed,
            timeout_ms,
            codes,
        ) == (InvokeStep::Sleep { ms: (timeout_ms - elapsed) as u32 }),
        invoke_next(InvokePoll::Failed, elapsed, timeout_ms, codes) == (InvokeStep::Done {
            invocation: Invocation::Retry,
        }),
{
}

} // verus!
