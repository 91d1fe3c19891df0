use catten_services::grant_client::{acquire, publish, request_len, Error, Reply};
use catten_services::servicemgr::{
    do_upgrade, found, may_administer, name, replacement_image, upgrade_code, UpgradeEvent,
    UpgradeOutcome, UpgradeStage, MANAGER_NAME,
};

fn run(events: &[UpgradeEvent]) -> UpgradeStage {
    let mut stage = UpgradeStage::Finding;
    for event in events {
        stage = do_upgrade(stage, *event);
    }
    stage
}

fn outcome(events: &[UpgradeEvent]) -> i64 {
    match run(events) {
        UpgradeStage::Done { outcome } => upgrade_code(outcome),
        other => panic!("not done: {other:?}"),
    }
}

const FOUND: UpgradeEvent = UpgradeEvent::Found { service: Some((3, 40)) };
const DRAINED: UpgradeEvent = UpgradeEvent::Drained { called: true, answered: true, state: 7 };
const UNPUBLISHED: UpgradeEvent = UpgradeEvent::Unpublished { generation: Some(3) };
const STARTED: UpgradeEvent = UpgradeEvent::Started { replacement: 99 };

#[test]
fn an_upgrade_runs_through_all_stages() {
    assert_eq!(run(&[FOUND]), UpgradeStage::Draining { generation: 3, connection: 40 });
    assert_eq!(
        run(&[FOUND, DRAINED]),
        UpgradeStage::Unpublishing { generation: 3, connection: 40, state: 7 }
    );
    assert_eq!(
        run(&[FOUND, DRAINED, UNPUBLISHED]),
        UpgradeStage::Starting { generation: 3, connection: 40, state: 7 }
    );
    assert_eq!(
        run(&[FOUND, DRAINED, UNPUBLISHED, STARTED]),
        UpgradeStage::Confirming { generation: 3, replacement: 99 }
    );
    let confirmed = UpgradeEvent::Found { service: Some((4, 41)) };
    assert_eq!(outcome(&[FOUND, DRAINED, UNPUBLISHED, STARTED, confirmed]), 99);
}

#[test]
fn each_failure_has_its_number() {
    assert_eq!(outcome(&[UpgradeEvent::Found { service: None }]), -1);
    let not_called = UpgradeEvent::Drained { called: false, answered: true, state: 7 };
    assert_eq!(outcome(&[FOUND, not_called]), -2);
    let not_answered = UpgradeEvent::Drained { called: true, answered: false, state: 7 };
    assert_eq!(outcome(&[FOUND, not_answered]), -3);
    let no_state = UpgradeEvent::Drained { called: true, answered: true, state: 0 };
    assert_eq!(outcome(&[FOUND, no_state]), -4);
    let not_started = UpgradeEvent::Started { replacement: 0 };
    assert_eq!(outcome(&[FOUND, DRAINED, UNPUBLISHED, not_started]), -5);
    assert_eq!(outcome(&[FOUND, DRAINED, UpgradeEvent::Unpublished { generation: None }]), -6);
    assert_eq!(outcome(&[FOUND, DRAINED, UpgradeEvent::Unpublished { generation: Some(4) }]), -6);
    let lost = UpgradeEvent::Found { service: None };
    assert_eq!(outcome(&[FOUND, DRAINED, UNPUBLISHED, STARTED, lost]), -7);
}

#[test]
fn a_replacement_of_the_same_generation_is_not_confirmed() {
    let same = UpgradeEvent::Found { service: Some((3, 41)) };
    assert_eq!(
        run(&[FOUND, DRAINED, UNPUBLISHED, STARTED, same]),
        UpgradeStage::Done { outcome: UpgradeOutcome::NotConfirmed }
    );
}

#[test]
fn no_replacement_starts_before_the_old_one_is_removed() {
    assert_eq!(
        run(&[FOUND, DRAINED, STARTED]),
        UpgradeStage::Unpublishing { generation: 3, connection: 40, state: 7 }
    );
}

#[test]
fn names_are_packed_low_byte_first() {
    assert_eq!(name(b"svcmgr"), MANAGER_NAME);
    assert_eq!(name(b""), 0);
    assert_eq!(name(b"a"), 0x61);
    assert_eq!(name(b"abcdefgh"), u64::from_le_bytes(*b"abcdefgh"));
    assert_eq!(name(b"abcdefghij"), u64::from_le_bytes(*b"abcdefgh"));
}

#[test]
fn lookups_need_a_generation_and_a_connection() {
    assert_eq!(found(true, 1, 5), Some((1, 5)));
    assert_eq!(found(false, 1, 5), None);
    assert_eq!(found(true, 0, 5), None);
    assert_eq!(found(true, 1, 0), None);
}

#[test]
fn only_an_administrator_sets_policy() {
    assert!(may_administer(1, 0b110, 0b100));
    assert!(!may_administer(0, 0b110, 0b100));
    assert!(!may_administer(1, 0b011, 0b100));
}

#[test]
fn the_built_in_image_stands_in() {
    assert_eq!(replacement_image(true, 4, 100), (4, 100));
    assert_eq!(replacement_image(false, 4, 100), (0, 0));
    assert_eq!(replacement_image(true, 0, 100), (0, 0));
    assert_eq!(replacement_image(true, 4, 0), (0, 0));
}

#[test]
fn a_grant_is_a_connection_and_nothing_else() {
    let reply = |result, connection, has_memory| Ok(Reply { result, connection, has_memory });
    assert_eq!(acquire(reply(0, Some(7), false)), Ok(7));
    assert_eq!(acquire(reply(-3, Some(7), false)), Err(Error::Service { code: -3 }));
    assert_eq!(acquire(reply(0, Some(7), true)), Err(Error::InvalidRequest));
    assert_eq!(acquire(reply(0, None, false)), Err(Error::InvalidRequest));
    assert_eq!(acquire(Err(Error::Ipc { code: 2 })), Err(Error::Ipc { code: 2 }));
}

#[test]
fn a_publication_is_a_generation_and_nothing_else() {
    let reply = |result, connection, has_memory| Ok(Reply { result, connection, has_memory });
    assert_eq!(publish(reply(4, None, false)), Ok(4));
    assert_eq!(publish(reply(0, None, false)), Err(Error::Service { code: 0 }));
    assert_eq!(publish(reply(4, Some(1), false)), Err(Error::InvalidRequest));
    assert_eq!(publish(reply(4, None, true)), Err(Error::InvalidRequest));
    assert_eq!(publish(Err(Error::Memory { code: 9 })), Err(Error::Memory { code: 9 }));
    assert_eq!(request_len(Some(12)), Ok(12));
    assert_eq!(request_len(None), Err(Error::InvalidRequest));
}
