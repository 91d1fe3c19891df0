use catten_services::kafka_step::{
    invoke_step, procedure_action, requested_attempt, Action, Counters, FailureAction, Invocation,
    InvokePoll, InvokeStep, Poll, ProcedureAction, Profile, ReplyCodes, Stage, Step, STEP_DLQ,
    STEP_INPUT, STEP_RETRY, STEP_TIMEOUT,
};

const CODES: ReplyCodes = ReplyCodes { retry: -11, terminal: -22 };

fn profile() -> Profile {
    Profile {
        allowed_routes: vec![3, 5],
        dlq_route: 9,
        max_outputs: 2,
        max_attempts: 3,
        procedure_timeout_ms: 25,
        retry_backoff_ms: 100,
        idle_poll_ms: 40,
    }
}

fn invoking() -> Step {
    let profile = profile();
    let mut step = Step::new();
    assert_eq!(step.polled(Poll::Delivered, &profile), Action::Attempt);
    assert_eq!(step.attempted(Some(1), &profile), Action::Invoke { attempt: 1 });
    step
}

#[test]
fn idle_and_failed_polls_rest() {
    let profile = profile();
    let mut step = Step::new();
    assert_eq!(step.polled(Poll::Nothing, &profile), Action::Rest { ms: 40, publish: false });
    assert_eq!(step.polled(Poll::Failed, &profile), Action::Rest { ms: 100, publish: false });
    assert_eq!(step, Step::new());
    assert_eq!(step.polled(Poll::Delivered, &profile), Action::Attempt);
    assert_eq!(step.attempted(None, &profile), Action::Rest { ms: 100, publish: false });
    assert_eq!(step.counters.polled, 1);
    assert_eq!(step.counters.invoked, 0);
}

#[test]
fn outputs_are_produced_in_order_and_committed() {
    let profile = profile();
    let mut step = invoking();
    let routes = [5u16, 3];
    let next = step.invoked(Invocation::Outputs { len: 64 }, Some(&routes), &profile);
    assert_eq!(next, Action::Begin);
    assert_eq!(step.begun(true, &profile), Action::Produce { index: 0 });
    assert_eq!(step.produced(true, &profile), Action::Produce { index: 1 });
    assert_eq!(step.produced(true, &profile), Action::Commit);
    assert_eq!(step.committed(true, &profile), Action::Poll { publish: true });
    assert_eq!(step.counters, Counters { polled: 1, invoked: 1, produced: 2, commits: 1, ..Counters::new() });
}

#[test]
fn completion_without_outputs_commits_at_once() {
    let profile = profile();
    let mut step = invoking();
    assert_eq!(step.invoked(Invocation::Complete, None, &profile), Action::Begin);
    assert_eq!(step.begun(true, &profile), Action::Commit);
    assert_eq!(step.committed(false, &profile), Action::Rest { ms: 100, publish: true });
    assert_eq!(step.counters.aborts, 1);
    assert_eq!(step.counters.retries, 1);
    assert_eq!(step.counters.commits, 0);
}

#[test]
fn forbidden_outputs_are_dead_lettered() {
    let profile = profile();
    let wrong = [5u16, 4];
    let many = [3u16, 3, 3];
    for routes in [Some(&wrong[..]), Some(&many[..]), None] {
        let mut step = invoking();
        let next = step.invoked(Invocation::Outputs { len: 64 }, routes, &profile);
        assert_eq!(next, Action::DeadLetter { route: 9 });
    }
    let mut step = invoking();
    assert_eq!(
        step.invoked(Invocation::Terminal, None, &profile),
        Action::DeadLetter { route: 9 }
    );
    assert_eq!(step.dead_lettered(true, &profile), Action::Commit);
    assert_eq!(step.counters.dlq, 1);
    assert_eq!(step.counters.produced, 1);
    let mut step = invoking();
    assert_eq!(
        step.invoked(Invocation::Invalid, None, &profile),
        Action::DeadLetter { route: 9 }
    );
    assert_eq!(step.dead_lettered(false, &profile), Action::Rest { ms: 100, publish: true });
    assert_eq!(step.stage, Stage::Polling);
    assert_eq!(step.counters.retries, 1);
}

#[test]
fn retries_and_timeouts_are_judged() {
    let profile = profile();
    let mut step = invoking();
    assert_eq!(step.invoked(Invocation::Retry, None, &profile), Action::Judge);
    assert_eq!(
        step.judged(FailureAction::Retry, &profile),
        Action::Rest { ms: 100, publish: true }
    );
    let mut step = invoking();
    assert_eq!(step.invoked(Invocation::Timeout, None, &profile), Action::Judge);
    assert_eq!(step.counters.timeouts, 1);
    assert_eq!(
        step.judged(FailureAction::DeadLetter, &profile),
        Action::DeadLetter { route: 9 }
    );
}

#[test]
fn aborted_transactions_are_retried() {
    let profile = profile();
    let mut step = invoking();
    assert_eq!(step.invoked(Invocation::Complete, None, &profile), Action::Begin);
    assert_eq!(step.begun(false, &profile), Action::Rest { ms: 100, publish: true });
    assert_eq!(step.counters.aborts, 1);
    let mut step = invoking();
    let routes = [3u16];
    step.invoked(Invocation::Outputs { len: 1 }, Some(&routes), &profile);
    assert_eq!(step.begun(true, &profile), Action::Produce { index: 0 });
    assert_eq!(step.produced(false, &profile), Action::Rest { ms: 100, publish: true });
    assert_eq!(step.counters.produced, 0);
    assert_eq!(step.counters.aborts, 1);
}

#[test]
fn replies_have_their_meanings() {
    let cases = [
        (0, false, Invocation::Complete),
        (0, true, Invocation::Invalid),
        (64, true, Invocation::Outputs { len: 64 }),
        (64, false, Invocation::Invalid),
        (-11, false, Invocation::Retry),
        (-11, true, Invocation::Invalid),
        (-22, false, Invocation::Terminal),
        (-5, false, Invocation::Invalid),
    ];
    for (result, has_memory, invocation) in cases {
        let step = invoke_step(InvokePoll::Replied { result, has_memory }, 0, 25, &CODES);
        assert_eq!(step, InvokeStep::Done { invocation });
    }
    assert_eq!(
        invoke_step(InvokePoll::Failed, 0, 25, &CODES),
        InvokeStep::Done { invocation: Invocation::Retry }
    );
}

#[test]
fn an_invocation_waits_for_exactly_its_timeout() {
    let mut elapsed: u32 = 0;
    let mut sleeps = vec![];
    loop {
        match invoke_step(InvokePoll::Pending, elapsed, 25, &CODES) {
            InvokeStep::Sleep { ms } => {
                sleeps.push(ms);
                elapsed += ms;
            }
            InvokeStep::Done { invocation } => {
                assert_eq!(invocation, Invocation::Timeout);
                break;
            }
        }
    }
    assert_eq!(sleeps, vec![10, 10, 5]);
}

#[test]
fn the_test_procedure_answers_by_value() {
    assert_eq!(&STEP_INPUT, b"charlotte-step-input");
    assert_eq!(&STEP_RETRY, b"charlotte-step-retry");
    assert_eq!(&STEP_TIMEOUT, b"charlotte-step-timeout");
    assert_eq!(&STEP_DLQ, b"charlotte-step-dlq");
    assert_eq!(procedure_action(b"charlotte-step-retry", 1), ProcedureAction::Retry);
    assert_eq!(procedure_action(b"charlotte-step-retry", 2), ProcedureAction::Output);
    assert_eq!(procedure_action(b"charlotte-step-timeout", 1), ProcedureAction::Timeout);
    assert_eq!(procedure_action(b"charlotte-step-timeout", 2), ProcedureAction::Output);
    assert_eq!(procedure_action(b"charlotte-step-dlq", 3), ProcedureAction::Terminal);
    assert_eq!(procedure_action(b"charlotte-step-input", 1), ProcedureAction::Output);
    assert_eq!(procedure_action(b"something else", 1), ProcedureAction::Complete);
}

#[test]
fn attempts_are_sixteen_bit_numbers() {
    assert_eq!(requested_attempt(true, 1), Some(1));
    assert_eq!(requested_attempt(true, 65535), Some(65535));
    assert_eq!(requested_attempt(true, 0), None);
    assert_eq!(requested_attempt(true, 65536), None);
    assert_eq!(requested_attempt(false, 1), None);
}
