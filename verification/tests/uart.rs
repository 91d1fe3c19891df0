use catten_services::uart::{Action, Console, Request};

#[test]
fn writes_put_the_low_byte() {
    let mut console = Console::new();
    let action = console.handle(Request::Write { argument: 0x1_41 }, 7);
    assert_eq!(action, Action::Put { byte: 0x41 });
    assert_eq!(console.served, 1);
}

#[test]
fn reads_wait_for_an_interrupt() {
    let mut console = Console::new();
    assert_eq!(console.handle(Request::ReadDeferred, 0), Action::Ignore);
    assert_eq!(console.handle(Request::ReadDeferred, 77), Action::Wait);
    assert_eq!(console.handle(Request::ReadDeferred, 78), Action::Refuse);
    assert!(!console.interrupted(false, 2));
    assert!(!console.interrupted(true, 0));
    assert!(console.interrupted(true, 2));
    let (reply, result) = console.complete_read(Some(0x61));
    assert_eq!(reply, 77);
    assert_eq!(result, 0x61 + 256 * 2);
    assert_eq!(console.pending_read, 0);
    assert!(!console.interrupted(true, 1));
    assert_eq!(console.handle(Request::Status, 1), Action::Reply { result: 3 });
}

#[test]
fn interrupts_are_counted_without_overflow() {
    let mut console = Console::new();
    console.interrupted(true, u32::MAX as u64);
    console.interrupted(true, 5);
    assert_eq!(console.irq_count, u32::MAX);
    let (_, result) = console.complete_read(None);
    assert_eq!(result, 256 * (u32::MAX as i64));
}

#[test]
fn a_read_result_gives_back_byte_and_count() {
    let mut console = Console::new();
    console.interrupted(true, 1000);
    let (_, result) = console.complete_read(Some(200));
    assert_eq!(result % 256, 200);
    assert_eq!(result / 256, 1000);
}

#[test]
fn control_requests() {
    let mut console = Console::new();
    assert_eq!(console.handle(Request::Shutdown, 1), Action::Stop);
    assert_eq!(console.handle(Request::Crash, 1), Action::Exit);
    assert_eq!(console.handle(Request::Unknown, 1), Action::Refuse);
    assert_eq!(console, Console::new());
}
