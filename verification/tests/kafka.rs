use catten_services::kafka::{
    check_versions, coordinator_step, leader_step, listing_step, map_broker, map_wire,
    tcpip_has_ipv4, tls_unix_seconds, trial_step, unix_millis, BrokerAddress, BrokerCodes,
    BrokerDestination, BrokerSession, BrokerTransport, ClusterMetadata, CodecError,
    CoordinatorPlace, CoordinatorReply, CoordinatorStep, Error, Exchange, LeaderReply, LeaderStep,
    PartitionLeader, Profile, Target, TopicMetadata, TopicPartition, TrialStep,
};

const CODES: BrokerCodes = BrokerCodes {
    no_error: 0,
    producer_fenced: 90,
    invalid_producer_epoch: 47,
    transaction_coordinator_fenced: 52,
    request_timed_out: 7,
};

fn destination(host: &str, port: u16) -> BrokerDestination {
    BrokerDestination { ip: [10, 0, 0, 1], host: host.as_bytes().to_vec(), port }
}

fn route(topic: &str, partition: i32) -> TopicPartition {
    TopicPartition { topic: topic.as_bytes().to_vec(), partition }
}

fn profile() -> Profile {
    Profile::new(
        vec![destination("boot", 9092), destination("k1", 9092), destination("k2", 9093)],
        b"orders".to_vec(),
        0,
        vec![route("audit", 1), route("orders", 2), route("audit", 0)],
        0b101,
        30_000,
    )
    .unwrap()
}

fn address(node_id: i32, host: &str, port: i32) -> BrokerAddress {
    BrokerAddress { node_id, host: host.as_bytes().to_vec(), port }
}

fn topic(name: &str, error: i16, leaders: &[(i32, i16, i32)]) -> TopicMetadata {
    TopicMetadata {
        topic: name.as_bytes().to_vec(),
        error,
        partitions: leaders
            .iter()
            .map(|(partition, error, leader)| PartitionLeader {
                partition: *partition,
                error: *error,
                leader: *leader,
            })
            .collect(),
    }
}

fn metadata() -> ClusterMetadata {
    ClusterMetadata {
        brokers: vec![address(5, "k2", 9093), address(1, "k1", 9092), address(9, "evil", 9092)],
        topics: vec![
            topic("orders", 0, &[(0, 0, 1), (2, 0, 5)]),
            topic("audit", 0, &[(1, 0, 1), (0, 0, 5)]),
        ],
    }
}

#[test]
fn broker_errors_are_sorted() {
    assert_eq!(map_broker(90, &CODES), Error::Fenced);
    assert_eq!(map_broker(47, &CODES), Error::Fenced);
    assert_eq!(map_broker(52, &CODES), Error::Fenced);
    assert_eq!(map_broker(7, &CODES), Error::Timeout);
    assert_eq!(map_broker(3, &CODES), Error::Broker);
    assert_eq!(map_wire(CodecError::TooLarge, &CODES), Error::TooLarge);
    assert_eq!(map_wire(CodecError::UnsupportedVersion, &CODES), Error::Unsupported);
    assert_eq!(map_wire(CodecError::Broker { code: 7 }, &CODES), Error::Timeout);
    for error in
        [CodecError::Incomplete, CodecError::Invalid, CodecError::Correlation, CodecError::Checksum]
    {
        assert_eq!(map_wire(error, &CODES), Error::Protocol);
    }
}

#[test]
fn a_profile_needs_text_and_a_timeout_in_range() {
    let make = |host: Vec<u8>, timeout: u32| {
        Profile::new(
            vec![BrokerDestination { ip: [0; 4], host, port: 1 }],
            Vec::new(),
            0,
            Vec::new(),
            0,
            timeout,
        )
    };
    assert!(make(b"k1".to_vec(), 5).is_some());
    assert!(make(vec![0xff], 5).is_none());
    assert!(make(b"k1".to_vec(), 1 << 31).is_none());
    let profile = profile();
    assert!(profile.has(0b100));
    assert!(!profile.has(0b010));
}

#[test]
fn routes_are_numbered_from_the_default() {
    let profile = profile();
    let route = |index| profile.route(index).map(|(topic, partition)| (topic.clone(), partition));
    assert_eq!(route(0), Some((b"orders".to_vec(), 0)));
    assert_eq!(route(1), Some((b"audit".to_vec(), 1)));
    assert_eq!(route(3), Some((b"audit".to_vec(), 0)));
    assert_eq!(route(4), None);
    assert_eq!(profile.metadata_topics(), vec![b"orders".to_vec(), b"audit".to_vec()]);
}

#[test]
fn only_listed_destinations_are_authorized() {
    let profile = profile();
    assert_eq!(profile.broker_destination(b"boot", 9092), Some(0));
    assert_eq!(profile.broker_destination(b"k2", 9093), Some(2));
    assert_eq!(profile.broker_destination(b"k2", 9092), None);
    assert_eq!(profile.broker_destination(b"k2", 9093 + 65_536), None);
    assert_eq!(profile.broker_destination(b"evil", 9092), None);
}

#[test]
fn clocks_and_networks_are_read() {
    assert_eq!(unix_millis(2, 3_999_999), Some(2_003));
    assert_eq!(unix_millis(0, 5), None);
    assert_eq!(unix_millis(i64::MAX / 1_000 + 1, 0), None);
    assert_eq!(tls_unix_seconds(true, 7), Some(7));
    assert_eq!(tls_unix_seconds(false, 7), None);
    assert_eq!(tls_unix_seconds(true, 0), None);
    assert!(tcpip_has_ipv4(36, Some(&[0, 0, 0, 1])));
    assert!(!tcpip_has_ipv4(36, Some(&[0, 0, 0, 0])));
    assert!(!tcpip_has_ipv4(3, Some(&[1, 0, 0, 0])));
    assert!(!tcpip_has_ipv4(36, Some(&[1, 0, 0])));
    assert!(!tcpip_has_ipv4(36, None));
}

fn framed(payload: &[u8]) -> Vec<u8> {
    let mut frame = (payload.len() as i32).to_be_bytes().to_vec();
    frame.extend_from_slice(payload);
    frame
}

#[test]
fn frames_are_cut_at_their_ends() {
    let mut transport = BrokerTransport::new();
    assert!(matches!(transport.start(), Exchange::Connect));
    assert!(matches!(transport.opened(Ok(())), Exchange::Send));
    assert!(matches!(transport.start(), Exchange::Send));
    assert!(matches!(transport.sent(true, 100), Exchange::Receive));
    let frame = framed(b"hello");
    for byte in &frame[..frame.len() - 1] {
        assert!(matches!(transport.receive(Ok(vec![*byte]), 100), Exchange::Receive));
    }
    let mut last = vec![b'o'];
    last.extend_from_slice(&framed(b"next"));
    match transport.receive(Ok(last), 100) {
        Exchange::Reply { frame: got } => assert_eq!(got, frame),
        _ => panic!("no reply"),
    }
    match transport.sent(true, 100) {
        Exchange::Reply { frame: got } => assert_eq!(got, framed(b"next")),
        _ => panic!("no reply"),
    }
    assert!(transport.connected);
}

#[test]
fn a_failed_exchange_starts_over() {
    let open = || {
        let mut transport = BrokerTransport::new();
        transport.opened(Ok(()));
        transport
    };
    let failure = |next| match next {
        Exchange::Failed { error } => error,
        _ => panic!("did not fail"),
    };
    let mut transport = open();
    assert_eq!(failure(transport.receive(Ok(vec![0, 0, 0, 3]), 100)), Error::Protocol);
    assert!(!transport.connected && transport.received.is_empty());
    let mut transport = open();
    assert_eq!(failure(transport.receive(Ok(vec![0xff, 0, 0, 9]), 100)), Error::Protocol);
    let mut transport = open();
    assert_eq!(failure(transport.receive(Ok(vec![0, 0, 0, 101]), 100)), Error::Protocol);
    let mut transport = open();
    assert_eq!(failure(transport.receive(Ok(vec![0; 105]), 100)), Error::TooLarge);
    let mut transport = open();
    assert!(matches!(transport.receive(Ok(vec![0, 0, 0, 9]), 100), Exchange::Receive));
    assert_eq!(failure(transport.receive(Err(Error::Timeout), 100)), Error::Timeout);
    assert!(!transport.connected && transport.received.is_empty());
    let mut transport = open();
    assert_eq!(failure(transport.sent(false, 100)), Error::Transport);
    assert!(!transport.connected);
    assert_eq!(failure(transport.opened(Err(Error::TlsRequired))), Error::TlsRequired);
    assert!(matches!(transport.start(), Exchange::Connect));
}

#[test]
fn routes_lead_to_authorized_brokers() {
    let mut session = BrokerSession::new();
    assert_eq!(session.route_node(0), Err(Error::Denied));
    assert_eq!(session.refresh_routes(&profile(), &metadata(), &CODES), Ok(()));
    assert_eq!(session.route_node(0), Ok(1));
    assert_eq!(session.route_node(1), Ok(1));
    assert_eq!(session.route_node(2), Ok(5));
    assert_eq!(session.route_node(3), Ok(5));
    assert_eq!(session.route_node(4), Err(Error::Denied));
    assert_eq!(session.node_destination(1), Ok(1));
    assert_eq!(session.node_destination(5), Ok(2));
    assert_eq!(session.node_destination(9), Err(Error::Denied));
}

#[test]
fn a_refused_refresh_changes_nothing() {
    let mut session = BrokerSession::new();
    session.refresh_routes(&profile(), &metadata(), &CODES).unwrap();
    let mut refuse = |change: &dyn Fn(&mut ClusterMetadata)| {
        let mut metadata = metadata();
        change(&mut metadata);
        let result = session.refresh_routes(&profile(), &metadata, &CODES);
        assert_eq!(session.route_node(2), Ok(5));
        result
    };
    assert_eq!(refuse(&|m| { m.topics.pop(); }), Err(Error::Broker));
    assert_eq!(refuse(&|m| m.topics[0].error = 3), Err(Error::Broker));
    assert_eq!(refuse(&|m| { m.topics[0].partitions.pop(); }), Err(Error::Unsupported));
    assert_eq!(refuse(&|m| m.topics[1].partitions[0].error = 7), Err(Error::Timeout));
    assert_eq!(refuse(&|m| m.topics[1].partitions[0].leader = 9), Err(Error::Denied));
    assert_eq!(refuse(&|m| { m.brokers.remove(0); }), Err(Error::Denied));
}

#[test]
fn correlations_are_positive_and_in_turn() {
    let mut session = BrokerSession::new();
    assert_eq!(session.next(), 1);
    assert_eq!(session.next(), 2);
    session.correlation = i32::MAX;
    assert_eq!(session.next(), i32::MAX);
    assert_eq!(session.next(), 1);
}

#[test]
fn coordinators_are_found_where_they_are_authorized() {
    let mut session = BrokerSession::new();
    assert_eq!(session.group_node(), Err(Error::Broker));
    assert_eq!(session.transaction_node(), Err(Error::Broker));
    let place = |error, retriable, node_id, host: &str| CoordinatorPlace {
        error,
        retriable,
        node_id,
        host: host.as_bytes().to_vec(),
        port: 9092,
    };
    let mut find = |place: CoordinatorPlace, attempt| {
        session.coordinator_found(&profile(), &place, &CODES, attempt)
    };
    assert_eq!(find(place(0, false, 7, "k1"), 0), CoordinatorStep::Accept);
    assert_eq!(
        find(place(0, false, 8, "evil"), 0),
        CoordinatorStep::Fail { error: Error::Denied }
    );
    assert_eq!(find(place(15, true, 0, ""), 118), CoordinatorStep::Again { ms: 250 });
    assert_eq!(find(place(15, true, 0, ""), 119), CoordinatorStep::GiveUp { ms: 250 });
    assert_eq!(
        find(place(90, false, 0, ""), 0),
        CoordinatorStep::Fail { error: Error::Fenced }
    );
    assert_eq!(find(place(0, false, 7, "boot"), 0), CoordinatorStep::Accept);
    assert_eq!(session.node_destination(7), Ok(1));
    session.group_coordinator = Some(7);
    session.transaction_coordinator = Some(7);
    assert_eq!(session.group_node(), Ok(7));
    assert_eq!(session.transaction_node(), Ok(7));
}

#[test]
fn attempts_are_bounded() {
    assert_eq!(coordinator_step(3, CoordinatorReply::Accepted), CoordinatorStep::Accept);
    let failed = CoordinatorReply::Failed { error: Error::Protocol };
    assert_eq!(coordinator_step(0, failed), CoordinatorStep::Fail { error: Error::Protocol });
    let leader = |attempt, reply| leader_step(attempt, reply, &CODES);
    assert_eq!(leader(0, LeaderReply::Accepted), LeaderStep::Accept);
    let refused = LeaderReply::Refused { code: 6, retriable: true };
    assert_eq!(leader(1, refused), LeaderStep::Refresh);
    assert_eq!(leader(2, refused), LeaderStep::Fail { error: Error::Broker });
    let fenced = LeaderReply::Refused { code: 90, retriable: false };
    assert_eq!(leader(0, fenced), LeaderStep::Fail { error: Error::Fenced });
    let lost = LeaderReply::Failed { error: Error::Transport };
    assert_eq!(leader(0, lost), LeaderStep::Refresh);
    assert_eq!(leader(2, lost), LeaderStep::Fail { error: Error::Transport });
    let denied = LeaderReply::Failed { error: Error::Denied };
    assert_eq!(leader(0, denied), LeaderStep::Fail { error: Error::Denied });
    assert_eq!(listing_step(0, Error::Broker), LeaderStep::Refresh);
    assert_eq!(listing_step(2, Error::Broker), LeaderStep::Fail { error: Error::Broker });
    assert_eq!(listing_step(0, Error::Fenced), LeaderStep::Fail { error: Error::Fenced });
}

#[test]
fn any_broker_is_tried_in_order() {
    let mut session = BrokerSession::new();
    session.refresh_routes(&profile(), &metadata(), &CODES).unwrap();
    assert_eq!(
        session.trial_targets(3),
        vec![
            Target::Destination { index: 0 },
            Target::Destination { index: 1 },
            Target::Destination { index: 2 },
            Target::Node { node: 1 },
            Target::Node { node: 5 },
        ]
    );
    assert_eq!(trial_step(0, 5, Error::Timeout), TrialStep::Try { position: 1 });
    assert_eq!(trial_step(4, 5, Error::Timeout), TrialStep::Fail { error: Error::Timeout });
    assert_eq!(check_versions(&[true, true]), Ok(()));
    assert_eq!(check_versions(&[true, false]), Err(Error::Unsupported));
}
