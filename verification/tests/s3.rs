use catten_services::s3::{
    check_digest, head_step, monotonic_seconds, remote_error, request_head, response_outcome,
    signing_input, time_now, Action, Body, BodyMemory, CalendarTime, ClientIdentity, ClockReading,
    GetOperation, HeadParse, HeadStep, Manifest, ManifestValue, Message, Method, ObjectRequest,
    Operation, Profile, ProtocolNumbers, PutOperation, RawProfile, ReadStep, ResponseStart,
    S3Error, Service,
};

const NUMBERS: ProtocolNumbers = ProtocolNumbers {
    right_get: 1,
    right_put: 2,
    right_delete: 4,
    right_list: 8,
    flag_range: 1,
    flag_if_none_match: 2,
    max_chunk_len: 10,
};

const OWNER: ClientIdentity = ClientIdentity { domain: 4, generation: 1 };
const OTHER: ClientIdentity = ClientIdentity { domain: 5, generation: 1 };

fn raw() -> RawProfile {
    RawProfile {
        endpoint_ipv4: [10, 0, 0, 7],
        host: b"s3.example.org".to_vec(),
        port: 9000,
        tls: false,
        ca_certificate_der: vec![],
        region: b"us-east-1".to_vec(),
        bucket: b"data".to_vec(),
        prefix: b"node/".to_vec(),
        access_key: b"AKIA".to_vec(),
        secret_key: b"hidden".to_vec(),
        namespace: vec![],
        rights: 7,
    }
}

fn profile() -> Profile {
    Profile::from_wire(raw(), &NUMBERS).unwrap()
}

fn manifest() -> Manifest {
    let bytes = |text: &str| Some(ManifestValue::Bytes(text.as_bytes().to_vec()));
    Manifest {
        ip: Some(ManifestValue::Bytes(vec![10, 0, 0, 7])),
        host: bytes("s3.example.org"),
        bucket: bytes("data"),
        access_key: bytes("AKIA"),
        secret_key: bytes("hidden"),
        region: None,
        prefix: None,
        namespace: None,
        tls: None,
        ca_der: None,
        port: None,
        rights: Some(ManifestValue::Unsigned(3)),
    }
}

fn request(key: &str) -> ObjectRequest {
    ObjectRequest {
        flags: 0,
        content_length: 0,
        range_start: 0,
        range_end: 0,
        payload_sha256: [0; 32],
        key: key.as_bytes().to_vec(),
    }
}

fn message(operation: Operation, arg0: u64, request: Option<ObjectRequest>) -> Message {
    Message { operation, owner: OWNER, now: 100, arg0, request, memory: BodyMemory::Missing }
}

fn response(body: &[u8], length: u64) -> ResponseStart {
    ResponseStart {
        status: 200,
        chunked: false,
        content_length: Some(length),
        initial: body.to_vec(),
        decoded: None,
    }
}

fn begun_get(service: &mut Service, body: &[u8], length: u64) -> u64 {
    match service.handle(message(Operation::GetBegin, 0, Some(request("k")))) {
        Action::StartGet { id, .. } => {
            assert_eq!(service.open_get(id, OWNER, 100, response(body, length)), Ok(()));
            id
        }
        _ => panic!("the get was refused"),
    }
}

fn begun_put(service: &mut Service, length: u64) -> u64 {
    let asked = ObjectRequest { content_length: length, payload_sha256: [7; 32], ..request("k") };
    match service.handle(message(Operation::PutBegin, 0, Some(asked))) {
        Action::StartPut { id, request } => {
            service.open_put(id, OWNER, 100, &request);
            id
        }
        _ => panic!("the put was refused"),
    }
}

fn refused(action: Action) -> S3Error {
    match action {
        Action::Reply(Err(error)) => error,
        _ => panic!("the request was not refused"),
    }
}

#[test]
fn profiles_are_validated() {
    assert!(Profile::from_wire(raw(), &NUMBERS).is_some());
    let wrong = [
        RawProfile { port: 0, ..raw() },
        RawProfile { host: b"a_b".to_vec(), ..raw() },
        RawProfile { host: vec![0xff], ..raw() },
        RawProfile { bucket: b"a/b".to_vec(), ..raw() },
        RawProfile { bucket: vec![], ..raw() },
        RawProfile { access_key: b"a\nb".to_vec(), ..raw() },
        RawProfile { secret_key: vec![], ..raw() },
        RawProfile { region: b"us_east".to_vec(), ..raw() },
        RawProfile { namespace: b"a\nb".to_vec(), ..raw() },
        RawProfile { namespace: vec![0xff], ..raw() },
        RawProfile { rights: 0, ..raw() },
        RawProfile { rights: 16, ..raw() },
        RawProfile { prefix: b"/node".to_vec(), ..raw() },
        RawProfile { prefix: b"a/../b".to_vec(), ..raw() },
        RawProfile { tls: true, ..raw() },
    ];
    for raw in wrong {
        assert!(Profile::from_wire(raw, &NUMBERS).is_none());
    }
}

#[test]
fn a_forgotten_secret_is_gone() {
    let mut profile = profile();
    assert_eq!(profile.secret_key, b"hidden".to_vec());
    profile.forget_secret();
    assert!(profile.secret_key.is_empty());
    assert_eq!(profile.access_key, b"AKIA".to_vec());
}

#[test]
fn manifests_have_defaults() {
    let served = Profile::from_manifest(manifest(), &NUMBERS).unwrap();
    assert_eq!(served.port, 80);
    assert_eq!(served.region, b"us-east-1".to_vec());
    assert_eq!(served.rights, 3);
    let tls = Manifest {
        tls: Some(ManifestValue::Bytes(b"1".to_vec())),
        ca_der: Some(ManifestValue::Bytes(vec![1])),
        ..manifest()
    };
    let served = Profile::from_manifest(tls, &NUMBERS).unwrap();
    assert!(served.tls);
    assert_eq!(served.port, 443);
    let port = Manifest { port: Some(ManifestValue::Unsigned(70000)), ..manifest() };
    assert!(Profile::from_manifest(port, &NUMBERS).is_none());
    let ip = Manifest { ip: Some(ManifestValue::Bytes(vec![1, 2, 3])), ..manifest() };
    assert!(Profile::from_manifest(ip, &NUMBERS).is_none());
    let rights = Manifest { rights: Some(ManifestValue::Other), ..manifest() };
    assert!(Profile::from_manifest(rights, &NUMBERS).is_none());
    assert!(Profile::from_manifest(Manifest { host: None, ..manifest() }, &NUMBERS).is_none());
}

#[test]
fn keys_stay_below_the_prefix() {
    let profile = profile();
    assert_eq!(profile.object_path(b"a/b.txt"), Some(b"/data/node/a/b.txt".to_vec()));
    for key in ["/a", "a/../b", ".", "a\0b"] {
        assert_eq!(profile.object_path(key.as_bytes()), None);
    }
    assert_eq!(profile.object_path(&[0xff]), None);
    assert_eq!(profile.authority(), b"s3.example.org:9000".to_vec());
    let plain = Profile::from_wire(
        RawProfile { port: 80, prefix: vec![], ..raw() },
        &NUMBERS,
    )
    .unwrap();
    assert_eq!(plain.object_path(b"k"), Some(b"/data/k".to_vec()));
    assert_eq!(plain.authority(), b"s3.example.org".to_vec());
    assert!(plain.has(4) && !plain.has(8));
}

#[test]
fn signed_heads_have_their_headers() {
    let served = Profile::from_wire(
        RawProfile { namespace: b"ns".to_vec(), ..raw() },
        &NUMBERS,
    )
    .unwrap();
    let asked = ObjectRequest { flags: 1, range_start: 5, range_end: 10, ..request("k") };
    let input = signing_input(&served, &asked, Method::Get, b"20260101T000000Z", &NUMBERS).unwrap();
    assert_eq!(input.path, b"/data/node/k".to_vec());
    assert_eq!(input.range, Some(b"bytes=5-9".to_vec()));
    let names: Vec<&[u8]> = input.headers.iter().map(|header| &header.name[..]).collect();
    assert_eq!(
        names,
        vec![
            &b"host"[..],
            b"x-amz-content-sha256",
            b"x-amz-date",
            b"x-emc-namespace",
            b"range",
        ]
    );
    let head = request_head(
        &served,
        &asked,
        Method::Get,
        &input,
        b"/data/node/k",
        b"20260101T000000Z",
        b"SIGNED",
        &NUMBERS,
    );
    let expected = "GET /data/node/k HTTP/1.1\r\nHost: s3.example.org:9000\r\n\
        x-amz-content-sha256: \
        e3b0c44298fc1c149afbf4c8996fb92427ae41e4649b934ca495991b7852b855\r\n\
        x-amz-date: 20260101T000000Z\r\nAuthorization: SIGNED\r\nx-emc-namespace: ns\r\n\
        Range: bytes=5-9\r\nConnection: close\r\n\r\n";
    assert_eq!(head, expected.as_bytes().to_vec());
}

#[test]
fn conditional_puts_have_a_length() {
    let served = profile();
    let asked = ObjectRequest {
        flags: 2,
        content_length: 12,
        payload_sha256: [0xab; 32],
        ..request("k")
    };
    let input = signing_input(&served, &asked, Method::Put, b"D", &NUMBERS).unwrap();
    assert_eq!(input.payload_hash, b"ab".repeat(32));
    let head = request_head(&served, &asked, Method::Put, &input, b"/p", b"D", b"S", &NUMBERS);
    let text = String::from_utf8(head).unwrap();
    assert!(text.starts_with("PUT /p HTTP/1.1\r\n"));
    assert!(text.ends_with(
        "If-None-Match: *\r\nContent-Length: 12\r\nConnection: close\r\n\r\n"
    ));
    assert!(signing_input(&served, &request("/k"), Method::Get, b"D", &NUMBERS).is_none());
    let open = ObjectRequest { flags: 1, range_start: 5, ..request("k") };
    let input = signing_input(&served, &open, Method::Get, b"D", &NUMBERS).unwrap();
    assert_eq!(input.range, Some(b"bytes=5-".to_vec()));
}

#[test]
fn statuses_have_their_errors() {
    assert_eq!(remote_error(404), S3Error::NotFound);
    assert_eq!(remote_error(409), S3Error::Precondition);
    assert_eq!(remote_error(412), S3Error::Precondition);
    assert_eq!(remote_error(500), S3Error::Remote);
    assert_eq!(response_outcome(204), Ok(()));
    assert_eq!(response_outcome(300), Err(S3Error::Remote));
    assert_eq!(response_outcome(404), Err(S3Error::NotFound));
}

#[test]
fn clocks_are_read_only_when_synchronized() {
    let utc = CalendarTime { year: 2026, month: 1, day: 2, hour: 3, minute: 4, second: 5 };
    let reading = ClockReading {
        synchronized: true,
        unix_seconds: 1000,
        utc,
        monotonic_ticks: 7500,
        counter_frequency_hz: 1000,
    };
    assert_eq!(time_now(Some(reading)), Some((utc, 1000)));
    assert_eq!(time_now(Some(ClockReading { synchronized: false, ..reading })), None);
    assert_eq!(time_now(Some(ClockReading { unix_seconds: 0, ..reading })), None);
    assert_eq!(time_now(None), None);
    assert_eq!(monotonic_seconds(Some(reading)), Some(7));
    assert_eq!(
        monotonic_seconds(Some(ClockReading { counter_frequency_hz: 0, ..reading })),
        None
    );
    assert_eq!(head_step(&HeadParse::Complete(9), 0), HeadStep::Done);
    assert_eq!(head_step(&HeadParse::Malformed, 0), HeadStep::GiveUp);
    assert_eq!(head_step(&HeadParse::Incomplete, 15), HeadStep::ReadMore);
    assert_eq!(head_step(&HeadParse::Incomplete, 16), HeadStep::GiveUp);
}

#[test]
fn reading_preserves_the_stream() {
    let mut get = GetOperation {
        id: 1,
        owner: OWNER,
        last_activity: 0,
        body: Body::Length(25),
        buffered: (0..12).collect(),
        offset: 0,
    };
    let mut stream = vec![];
    let mut fed = false;
    loop {
        match get.next(10) {
            ReadStep::Chunk(bytes) => {
                assert!(bytes.len() <= 10);
                stream.extend_from_slice(&bytes);
            }
            ReadStep::Receive => {
                assert!(!fed);
                fed = true;
                get.supply((12..25).collect(), false);
            }
            ReadStep::End => break,
            ReadStep::Overrun => panic!("the body is too long"),
        }
    }
    assert_eq!(stream, (0..25).collect::<Vec<u8>>());
    let mut long = GetOperation {
        id: 1,
        owner: OWNER,
        last_activity: 0,
        body: Body::Length(3),
        buffered: vec![1, 2, 3, 4],
        offset: 0,
    };
    assert!(matches!(long.next(10), ReadStep::Overrun));
    let mut chunked = GetOperation {
        id: 1,
        owner: OWNER,
        last_activity: 0,
        body: Body::Chunked { complete: false },
        buffered: vec![],
        offset: 0,
    };
    assert!(matches!(chunked.next(10), ReadStep::Receive));
    chunked.supply(vec![], true);
    assert!(matches!(chunked.next(10), ReadStep::End));
}

#[test]
fn operations_belong_to_their_owner() {
    let mut service = Service::new(profile(), NUMBERS);
    let id = begun_get(&mut service, b"hello", 5);
    let foreign = Message { owner: OTHER, ..message(Operation::GetRead, id, None) };
    assert_eq!(refused(service.handle(foreign)), S3Error::Invalid);
    let foreign = Message { owner: OTHER, ..message(Operation::GetClose, id, None) };
    assert_eq!(refused(service.handle(foreign)), S3Error::Invalid);
    match service.handle(message(Operation::GetRead, id, None)) {
        Action::SendChunk { bytes, .. } => assert_eq!(bytes, b"hello".to_vec()),
        _ => panic!("no chunk came"),
    }
    assert!(matches!(
        service.handle(message(Operation::GetRead, id, None)),
        Action::SendEnd { .. }
    ));
    assert!(matches!(
        service.handle(message(Operation::GetClose, id, None)),
        Action::CloseGet { .. }
    ));
    assert_eq!(
        refused(service.handle(message(Operation::GetRead, id, None))),
        S3Error::Invalid
    );
}

#[test]
fn an_overrun_ends_the_get() {
    let mut service = Service::new(profile(), NUMBERS);
    let id = begun_get(&mut service, b"hello", 3);
    assert_eq!(
        refused(service.handle(message(Operation::GetRead, id, None))),
        S3Error::Transport
    );
    assert!(!service.close_get(id, OWNER));
    let id = begun_get(&mut service, b"", 3);
    assert!(matches!(
        service.handle(message(Operation::GetRead, id, None)),
        Action::Receive { .. }
    ));
    assert!(service.supply(id, OWNER, b"abc".to_vec(), false));
    assert!(!service.supply(id, OTHER, b"abc".to_vec(), false));
    assert!(matches!(
        service.handle(message(Operation::GetRead, id, None)),
        Action::SendChunk { .. }
    ));
}

#[test]
fn gets_need_a_usable_response() {
    let mut service = Service::new(profile(), NUMBERS);
    let missing = ResponseStart { status: 404, ..response(b"", 0) };
    assert_eq!(service.open_get(1, OWNER, 0, missing), Err(S3Error::NotFound));
    let unsized_body = ResponseStart { content_length: None, ..response(b"", 0) };
    assert_eq!(service.open_get(1, OWNER, 0, unsized_body), Err(S3Error::Protocol));
    let undecoded = ResponseStart { chunked: true, ..response(b"", 0) };
    assert_eq!(service.open_get(1, OWNER, 0, undecoded), Err(S3Error::Protocol));
    let decoded = ResponseStart {
        status: 206,
        chunked: true,
        decoded: Some((b"x".to_vec(), true)),
        ..response(b"", 0)
    };
    assert_eq!(service.open_get(1, OWNER, 0, decoded), Ok(()));
}

#[test]
fn uploads_are_counted_to_their_length() {
    let mut service = Service::new(profile(), NUMBERS);
    let id = begun_put(&mut service, 15);
    let write = |len: u64, memory: BodyMemory| Message {
        memory,
        ..message(Operation::PutWrite, (len << 32) | id, None)
    };
    assert_eq!(refused(service.handle(write(0, BodyMemory::Mapped(10)))), S3Error::Invalid);
    assert_eq!(refused(service.handle(write(11, BodyMemory::Mapped(20)))), S3Error::Invalid);
    assert_eq!(refused(service.handle(write(10, BodyMemory::Mapped(9)))), S3Error::Invalid);
    assert_eq!(refused(service.handle(write(10, BodyMemory::Missing))), S3Error::Invalid);
    assert!(matches!(
        service.handle(write(10, BodyMemory::Mapped(10))),
        Action::SendBody { len: 10, .. }
    ));
    service.wrote(id, OWNER, 10, 101);
    assert_eq!(refused(service.handle(write(6, BodyMemory::Mapped(10)))), S3Error::Invalid);
    assert_eq!(service.check_write(id, OWNER, 5, BodyMemory::Mapped(10)), Ok(()));
    service.wrote(id, OWNER, 5, 102);
    match service.handle(message(Operation::PutFinish, id, None)) {
        Action::Finish { put } => {
            assert_eq!((put.written, put.expected), (15, 15));
            assert_eq!(check_digest(&put, &[7; 32]), Ok(()));
            assert_eq!(check_digest(&put, &[8; 32]), Err(S3Error::Invalid));
        }
        _ => panic!("the put was not finished"),
    }
    assert_eq!(
        refused(service.handle(message(Operation::PutFinish, id, None))),
        S3Error::Denied
    );
}

#[test]
fn unfinished_uploads_are_dropped() {
    let mut service = Service::new(profile(), NUMBERS);
    let id = begun_put(&mut service, 15);
    assert_eq!(
        refused(service.handle(message(Operation::PutFinish, id, None))),
        S3Error::Invalid
    );
    let id = begun_put(&mut service, 15);
    let unmapped = Message {
        memory: BodyMemory::Unmappable,
        ..message(Operation::PutWrite, (5 << 32) | id, None)
    };
    assert_eq!(refused(service.handle(unmapped)), S3Error::Transport);
    assert!(!service.close_put(id, OWNER));
    let id = begun_put(&mut service, 15);
    assert!(matches!(
        service.handle(message(Operation::PutAbort, id, None)),
        Action::ClosePut { .. }
    ));
    assert_eq!(
        refused(service.handle(message(Operation::PutAbort, id, None))),
        S3Error::Invalid
    );
}

#[test]
fn operations_are_bounded_and_leased() {
    let mut service = Service::new(profile(), NUMBERS);
    for expected in 1..9 {
        assert_eq!(begun_get(&mut service, b"", 1), expected);
    }
    assert_eq!(
        refused(service.handle(message(Operation::GetBegin, 0, Some(request("k"))))),
        S3Error::Busy
    );
    let late = Message { now: 400, ..message(Operation::GetBegin, 0, Some(request("k"))) };
    assert_eq!(refused(service.handle(late)), S3Error::Busy);
    let later = Message { now: 401, ..message(Operation::GetBegin, 0, Some(request("k"))) };
    assert!(matches!(service.handle(later), Action::StartGet { id: 9, .. }));
}

#[test]
fn requests_are_refused_with_their_errors() {
    let mut service = Service::new(profile(), NUMBERS);
    assert_eq!(
        refused(service.handle(message(Operation::GetBegin, 0, None))),
        S3Error::Invalid
    );
    let sized = ObjectRequest { content_length: 1, ..request("k") };
    assert_eq!(
        refused(service.handle(message(Operation::GetBegin, 0, Some(sized)))),
        S3Error::Invalid
    );
    let ranged = ObjectRequest { flags: 1, ..request("k") };
    assert_eq!(
        refused(service.handle(message(Operation::PutBegin, 0, Some(ranged)))),
        S3Error::Invalid
    );
    assert_eq!(
        refused(service.handle(message(Operation::Unknown, 0, None))),
        S3Error::BadOpcode
    );
    let mut reader = Service::new(
        Profile::from_wire(RawProfile { rights: 1, ..raw() }, &NUMBERS).unwrap(),
        NUMBERS,
    );
    assert_eq!(
        refused(reader.handle(message(Operation::PutBegin, 0, Some(request("k"))))),
        S3Error::Denied
    );
    assert_eq!(
        refused(reader.handle(message(Operation::Delete, 0, Some(request("k"))))),
        S3Error::Denied
    );
    assert!(matches!(
        reader.handle(message(Operation::Head, 0, Some(request("k")))),
        Action::Exchange { method: Method::Head, .. }
    ));
    let flagged = ObjectRequest { flags: 1, ..request("k") };
    assert_eq!(
        refused(reader.handle(message(Operation::Head, 0, Some(flagged)))),
        S3Error::Invalid
    );
}

#[test]
fn the_status_sums_up_the_profile() {
    let mut service = Service::new(profile(), NUMBERS);
    match service.handle(message(Operation::Status, 0, None)) {
        Action::Reply(Ok(summary)) => assert_eq!(summary, 7 | (9000 << 40)),
        _ => panic!("no status came"),
    }
    assert_eq!(service.status_summary(), 7 | (9000 << 40));
    assert_eq!(service.served_profile().port, 9000);
    service.account(true);
    let activity = service.activity();
    assert_eq!((activity.requests, activity.failures), (1, 1));
    assert!(activity.gets.is_empty() && activity.puts.is_empty());
    let upload = request("k");
    let id = match service.admit_put(&upload) {
        Ok(id) => id,
        Err(_) => panic!("the upload was refused"),
    };
    service.open_put(id, OWNER, 0, &upload);
    assert_eq!(service.activity().puts, vec![id]);
    service.sweep_expired(0);
    let put = PutOperation {
        id: 1,
        owner: OWNER,
        last_activity: 0,
        expected: 0,
        written: 0,
        expected_sha256: [1; 32],
    };
    assert_eq!(check_digest(&put, &[1; 32]), Ok(()));
}
