use catten_services::broker::Catalog;
use catten_services::ns::{
    answer_legacy, delegation_outcome, operation_of, plan, policy_answer, scalar_key,
    valid_name_len, valid_request_len, write_audit_snapshot, AuditRecord, AuthRequest,
    Authorization, Denial, DomainIdentity, Grant, LookupAnswer, Message, NameError, NameService,
    Opcodes, Operation, Outcome, PendingLookup, Plan, Publisher, Registration, Registry,
    StatusLayout,
};

const CALLER: DomainIdentity = DomainIdentity { asid: 4, generation: 2 };

#[test]
fn scalar_names_lose_their_padding() {
    assert_eq!(scalar_key(u64::from_le_bytes(*b"disk\0\0\0\0")), b"disk".to_vec());
    assert_eq!(scalar_key(u64::from_le_bytes(*b"a\0b\0\0\0\0\0")), b"a\0b".to_vec());
    assert_eq!(scalar_key(0), Vec::<u8>::new());
    assert_eq!(scalar_key(u64::from_le_bytes(*b"fullname")), b"fullname".to_vec());
}

#[test]
fn lengths_are_bounded() {
    assert!(!valid_name_len(0, 64));
    assert!(valid_name_len(64, 64));
    assert!(!valid_name_len(65, 64));
    assert!(!valid_request_len(7, 8, 100));
    assert!(valid_request_len(8, 8, 100));
    assert!(valid_request_len(100, 8, 100));
    assert!(!valid_request_len(101, 8, 100));
}

#[test]
fn generations_increase() {
    let mut names = NameService::new();
    assert_eq!(names.next_generation(b"net"), Some(1));
    let first = names.register(b"net".to_vec(), 10, 0, Some(1));
    assert_eq!(first.result, Ok(1));
    assert_eq!(first.close, 0);
    let second = names.register(b"net".to_vec(), 11, 0, Some(2));
    assert_eq!(second.result, Ok(2));
    assert_eq!(second.close, 10);
    assert_eq!(names.unregister(b"net"), Some((11, 2)));
    assert!(!names.resolves(b"net"));
    assert_eq!(names.unregister(b"net"), None);
    let third = names.register(b"net".to_vec(), 12, 0, Some(3));
    assert_eq!(third.result, Ok(3));
    assert_eq!(third.close, 0);
}

#[test]
fn an_unbound_registration_is_refused() {
    let mut names = NameService::new();
    for binding in [None, Some(2)] {
        let refused = names.register(b"net".to_vec(), 10, 0, binding);
        assert_eq!(refused.result, Err(NameError::AccessDenied));
        assert_eq!(refused.close, 10);
    }
    assert!(!names.resolves(b"net"));
}

#[test]
fn a_waiting_lookup_is_answered_by_registration() {
    let mut names = NameService::new();
    assert_eq!(names.lookup_or_defer(b"net", 70, 5), LookupAnswer::Deferred);
    let authorized = PendingLookup::Authorized { reply: 71, caller: CALLER, requested: 1 };
    assert!(names.defer(b"net", authorized));
    assert_eq!(names.lookup_or_defer(b"disk", 72, 0), LookupAnswer::Deferred);
    let registered = names.register(b"net".to_vec(), 10, 5, Some(1));
    assert_eq!(
        registered.waiters,
        vec![PendingLookup::Legacy { reply: 70, access_key: 5 }, authorized]
    );
    assert!(!names.defer(b"net", authorized));
    assert_eq!(
        names.lookup_or_defer(b"net", 73, 5),
        LookupAnswer::Connect { connection: 10, generation: 1 }
    );
    assert_eq!(
        names.lookup_or_defer(b"net", 74, 6),
        LookupAnswer::Refuse { error: NameError::AccessDenied }
    );
}

#[test]
fn keyed_names_are_refused_without_the_key() {
    let mut names = NameService::new();
    assert_eq!(
        names.try_lookup(b"net"),
        LookupAnswer::Refuse { error: NameError::NotFound }
    );
    names.register(b"net".to_vec(), 10, 0, Some(1));
    assert_eq!(names.try_lookup(b"net"), LookupAnswer::Connect { connection: 10, generation: 1 });
    names.register(b"key".to_vec(), 11, 9, Some(1));
    assert_eq!(
        names.try_lookup(b"key"),
        LookupAnswer::Refuse { error: NameError::AccessDenied }
    );
    let keyed = Registration { connection: 11, generation: 1, access_key: 9 };
    assert_eq!(
        answer_legacy(&keyed, 9),
        LookupAnswer::Connect { connection: 11, generation: 1 }
    );
}

#[test]
fn only_recorded_and_granted_connections_are_issued() {
    let mut names = NameService::new();
    names.register(b"net".to_vec(), 10, 0, Some(1));
    let grant = Grant { rights: 3, service_generation: 1, policy_version: 8 };
    assert_eq!(
        names.authorize(b"net", true, Some(grant)),
        Authorization::Issue { connection: 10, generation: 1, grant }
    );
    assert_eq!(
        names.authorize(b"net", false, Some(grant)),
        Authorization::Refuse { denial: Denial::AuditFull, error: NameError::AccessDenied }
    );
    assert_eq!(
        names.authorize(b"net", true, None),
        Authorization::Refuse { denial: Denial::Policy, error: NameError::AccessDenied }
    );
    assert_eq!(
        names.authorize(b"disk", true, Some(grant)),
        Authorization::Refuse { denial: Denial::ServiceMissing, error: NameError::NotFound }
    );
    let stale = Grant { service_generation: 2, ..grant };
    assert_eq!(
        names.authorize(b"net", true, Some(stale)),
        Authorization::Refuse {
            denial: Denial::StaleServiceGeneration,
            error: NameError::AccessDenied,
        }
    );
    names.unregister(b"net");
    assert_eq!(
        names.authorize(b"net", true, Some(grant)),
        Authorization::Refuse {
            denial: Denial::StaleServiceGeneration,
            error: NameError::AccessDenied,
        }
    );
    assert_eq!(delegation_outcome(true, &grant), (Outcome::Issued, 3));
    assert_eq!(delegation_outcome(false, &grant), (Outcome::DelegationFailed, 0));
}

#[test]
fn live_generations_match_what_is_expected() {
    let mut names = NameService::new();
    assert_eq!(names.live_generation(b"net", None), None);
    names.register(b"net".to_vec(), 10, 0, Some(1));
    assert_eq!(names.live_generation(b"net", None), Some(1));
    assert_eq!(names.live_generation(b"net", Some(1)), Some(1));
    assert_eq!(names.live_generation(b"net", Some(2)), None);
    names.unregister(b"net");
    assert_eq!(names.live_generation(b"net", None), None);
}

#[test]
fn an_empty_registry_resolves_nothing() {
    let registry = Registry::new();
    assert_eq!(registry.len(), 0);
    assert_eq!(registry.get(b"net"), None);
    assert_eq!(registry.resolve(b"net"), None);
}

#[test]
fn the_status_lists_the_names_in_order() {
    let mut names = NameService::new();
    names.register(b"net".to_vec(), 10, 0, Some(1));
    names.register(b"disk".to_vec(), 11, 0, Some(1));
    names.lookup_or_defer(b"late", 70, 0);
    let layout = StatusLayout { magic_number: 0x5253, magic: 0, registered: 1, pending: 2 };
    let image = names.status_image(&layout);
    assert_eq!(
        image,
        b"\x53\x52\0\0\x02\0\0\0\x01\0\0\0\x04disk\x03net".to_vec()
    );
}

#[test]
fn long_names_are_cut_in_the_status() {
    let mut names = NameService::new();
    names.register(vec![b'a'; 300], 10, 0, Some(1));
    let layout = StatusLayout { magic_number: 1, magic: 0, registered: 1, pending: 2 };
    let image = names.status_image(&layout);
    assert_eq!(image.len(), 12 + 1 + 255);
    assert_eq!(image[12], 255);
}

#[test]
fn audit_records_are_written_until_the_page_is_full() {
    let record = |sequence: u64, outcome: Outcome| AuditRecord {
        sequence,
        caller: CALLER,
        principal: 6,
        service: b"net".to_vec(),
        service_generation: 1,
        policy_version: 8,
        requested: 7,
        granted: 3,
        outcome,
    };
    let image = write_audit_snapshot(
        &[record(1, Outcome::Denied), record(2, Outcome::DelegationFailed)],
        0xabcd,
    );
    assert_eq!(image.len(), 8 + 2 * 67);
    assert_eq!(&image[..16], &[0xcd, 0xab, 0, 0, 2, 0, 0, 0, 1, 0, 0, 0, 0, 0, 0, 0]);
    assert_eq!(&image[56..72], &[7, 0, 0, 0, 3, 0, 0, 0, 255, 255, 255, 255, 3, 0, 0, 0]);
    assert_eq!(&image[72..75], b"net");
    assert_eq!(&image[75 + 56..75 + 60], &[254, 255, 255, 255]);
    let many: Vec<AuditRecord> = (0..100).map(|i| record(i, Outcome::Issued)).collect();
    let image = write_audit_snapshot(&many, 0xabcd);
    assert_eq!(image[4], 61);
    assert_eq!(image.len(), 8 + 61 * 67);
}

fn asked(operation: Operation) -> Message {
    Message {
        operation,
        argument: u64::from_le_bytes(*b"net\0\0\0\0\0"),
        has_reply: true,
        has_connection: true,
        access_key: 5,
        name: Some(b"long name".to_vec()),
        generation: Some(3),
        request: None,
        sender: Some(CALLER),
        administers: false,
    }
}

fn refusal(message: Message) -> NameError {
    match plan(message) {
        Plan::Refuse { error } => error,
        _ => panic!("the request was not refused"),
    }
}

#[test]
fn requests_are_told_by_their_numbers() {
    let codes = Opcodes {
        register: 1,
        register_keyed: 2,
        register_named: 3,
        register_authorized: 4,
        lookup: 5,
        lookup_keyed: 6,
        lookup_named: 7,
        lookup_authorized: 8,
        lookup_for_grant: 9,
        try_lookup: 10,
        try_lookup_named: 11,
        unregister: 12,
        unregister_generation: 13,
        set_policy: 14,
        audit: 15,
        status: 16,
    };
    let operations = [
        Operation::Register,
        Operation::RegisterKeyed,
        Operation::RegisterNamed,
        Operation::RegisterAuthorized,
        Operation::Lookup,
        Operation::LookupKeyed,
        Operation::LookupNamed,
        Operation::LookupAuthorized,
        Operation::LookupForGrant,
        Operation::TryLookup,
        Operation::TryLookupNamed,
        Operation::Unregister,
        Operation::UnregisterGeneration,
        Operation::SetPolicy,
        Operation::Audit,
        Operation::Status,
        Operation::Unknown,
    ];
    for (index, operation) in operations.iter().enumerate() {
        assert_eq!(operation_of(&codes, index as u32 + 1), *operation);
    }
}

#[test]
fn registrations_offer_a_connection() {
    assert!(matches!(
        plan(asked(Operation::Register)),
        Plan::Register { name, access_key: 0, publisher: Publisher::Own } if name == b"net"
    ));
    assert!(matches!(
        plan(asked(Operation::RegisterKeyed)),
        Plan::Register { access_key: 5, .. }
    ));
    assert!(matches!(
        plan(asked(Operation::RegisterNamed)),
        Plan::Register { name, .. } if name == b"long name"
    ));
    for operation in
        [Operation::Register, Operation::RegisterKeyed, Operation::RegisterNamed]
    {
        let message = Message { has_connection: false, ..asked(operation) };
        assert_eq!(refusal(message), NameError::Invalid);
    }
    let nameless = Message { name: None, ..asked(Operation::RegisterNamed) };
    assert_eq!(refusal(nameless), NameError::Invalid);
    let publish = || Some(AuthRequest::Publish { service: b"net".to_vec(), ceiling: 7 });
    let message = Message { request: publish(), ..asked(Operation::RegisterAuthorized) };
    assert!(matches!(
        plan(message),
        Plan::Register { publisher: Publisher::Sender { identity: CALLER, ceiling: 7 }, .. }
    ));
    let unknown =
        Message { request: publish(), sender: None, ..asked(Operation::RegisterAuthorized) };
    assert_eq!(refusal(unknown), NameError::AccessDenied);
}

#[test]
fn lookups_without_a_reply_are_ignored() {
    for operation in [
        Operation::Lookup,
        Operation::LookupKeyed,
        Operation::LookupNamed,
        Operation::LookupAuthorized,
        Operation::LookupForGrant,
        Operation::TryLookup,
        Operation::TryLookupNamed,
        Operation::Audit,
    ] {
        let message = Message { has_reply: false, administers: true, ..asked(operation) };
        assert!(matches!(plan(message), Plan::Ignore));
    }
    assert!(matches!(
        plan(asked(Operation::LookupKeyed)),
        Plan::Lookup { access_key: 5, .. }
    ));
    assert!(matches!(plan(asked(Operation::Lookup)), Plan::Lookup { access_key: 0, .. }));
    assert!(matches!(
        plan(asked(Operation::TryLookupNamed)),
        Plan::TryLookup { name } if name == b"long name"
    ));
    let nameless = Message { name: None, ..asked(Operation::LookupNamed) };
    assert_eq!(refusal(nameless), NameError::Invalid);
}

#[test]
fn only_administrators_act_for_others() {
    assert_eq!(refusal(asked(Operation::Audit)), NameError::AccessDenied);
    let admin = Message { administers: true, ..asked(Operation::Audit) };
    assert!(matches!(plan(admin), Plan::Audit));
    let grant = || {
        Some(AuthRequest::GrantLookup {
            service: b"net".to_vec(),
            requested: 3,
            target: Some(DomainIdentity { asid: 9, generation: 1 }),
            target_principal: Some(6),
        })
    };
    let message = Message { request: grant(), ..asked(Operation::LookupForGrant) };
    assert_eq!(refusal(message), NameError::AccessDenied);
    let message =
        Message { request: grant(), administers: true, ..asked(Operation::LookupForGrant) };
    assert!(matches!(
        plan(message),
        Plan::Grant { actor: CALLER, target_principal: 6, requested: 3, .. }
    ));
}

#[test]
fn policy_and_unregistration_requests() {
    let change = Some(AuthRequest::SetPolicy {
        service: b"net".to_vec(),
        subject: 6,
        allowed: 3,
        expected_version: 2,
    });
    let message = Message { request: change, ..asked(Operation::SetPolicy) };
    assert!(matches!(
        plan(message),
        Plan::SetPolicy { actor: CALLER, subject: 6, allowed: 3, expected_version: 2, .. }
    ));
    assert_eq!(refusal(asked(Operation::SetPolicy)), NameError::AccessDenied);
    assert_eq!(policy_answer(Some(4)), Ok(4));
    assert_eq!(policy_answer(Some(1 << 63)), Err(NameError::AccessDenied));
    assert_eq!(policy_answer(None), Err(NameError::AccessDenied));
    assert!(matches!(
        plan(asked(Operation::Unregister)),
        Plan::Unregister { expected: None, .. }
    ));
    assert!(matches!(
        plan(asked(Operation::UnregisterGeneration)),
        Plan::Unregister { expected: Some(3), .. }
    ));
    let unread = Message { generation: None, ..asked(Operation::UnregisterGeneration) };
    assert_eq!(refusal(unread), NameError::NotFound);
    let lookup = Some(AuthRequest::Lookup { service: b"net".to_vec(), requested: 1 });
    let message = Message { request: lookup, ..asked(Operation::LookupAuthorized) };
    assert!(matches!(plan(message), Plan::Authorize { caller: CALLER, requested: 1, .. }));
    assert!(matches!(plan(asked(Operation::Status)), Plan::Status));
    assert_eq!(refusal(asked(Operation::Unknown)), NameError::BadOpcode);
}
