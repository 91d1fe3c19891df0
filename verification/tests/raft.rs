use catten_services::raft::{
    choose_anchor, choose_storage, cluster_name, decode_removal, follow_hint, frame_kind,
    heartbeat_due, heartbeat_interval, lookup_step, node_name, payload_fits, persistent_namespace,
    posture_bits, read_frame, reconcile, remove_member, role_number, status_word, storage_policy,
    Announcements, FrameKind, JoinTags, Joining, LookupPoll, LookupStep, Neighbor, Peer, PeerSpec,
    Removal, Role, Standing, Storage, StoragePolicy, MEMBERSHIP_EVENT,
};

fn peer(id: &str, service_name: u64) -> Peer {
    Peer { id: id.as_bytes().to_vec(), service_name }
}

fn spec(id: &str, name: u64, pending: u64) -> PeerSpec {
    PeerSpec { id: id.as_bytes().to_vec(), name, pending }
}

fn plain(specs: &[PeerSpec]) -> Vec<(String, u64, u64)> {
    specs
        .iter()
        .map(|spec| (String::from_utf8(spec.id.clone()).unwrap(), spec.name, spec.pending))
        .collect()
}

fn fnv(bytes: &[u8]) -> u64 {
    bytes.iter().fold(0xcbf2_9ce4_8422_2325u64, |hash, byte| {
        (hash ^ *byte as u64).wrapping_mul(0x0000_0100_0000_01b3)
    })
}

#[test]
fn a_namespace_is_a_hash_of_cluster_and_node() {
    assert_eq!(persistent_namespace(b"c", b"n1"), fnv(b"c\xffn1"));
    assert_ne!(persistent_namespace(b"c", b"n1"), persistent_namespace(b"cn", b"1"));
}

#[test]
fn configuration_has_defaults() {
    assert_eq!(storage_policy(None), StoragePolicy::Memory);
    assert_eq!(storage_policy(Some(0)), StoragePolicy::Memory);
    assert_eq!(storage_policy(Some(1)), StoragePolicy::Optional);
    assert_eq!(storage_policy(Some(2)), StoragePolicy::Required);
    assert_eq!(storage_policy(Some(3)), StoragePolicy::Memory);
    assert_eq!(cluster_name(None), b"default".to_vec());
    assert_eq!(cluster_name(Some(b"")), b"default".to_vec());
    assert_eq!(cluster_name(Some(b"west")), b"west".to_vec());
    assert_eq!(node_name(b"n7"), b"n7".to_vec());
    assert_eq!(node_name(b""), b"r1".to_vec());
    assert_eq!(node_name(&[0xff, 0xfe]), b"r1".to_vec());
    assert_eq!(node_name("knoten-ä".as_bytes()), "knoten-ä".as_bytes().to_vec());
}

#[test]
fn required_storage_must_be_there() {
    assert_eq!(choose_storage(StoragePolicy::Memory, true, true), Storage::Memory);
    assert_eq!(choose_storage(StoragePolicy::Optional, true, true), Storage::Disk);
    assert_eq!(choose_storage(StoragePolicy::Optional, true, false), Storage::Memory);
    assert_eq!(choose_storage(StoragePolicy::Required, true, true), Storage::Disk);
    assert_eq!(choose_storage(StoragePolicy::Required, false, true), Storage::Missing);
}

#[test]
fn heartbeats_are_spaced() {
    assert_eq!(heartbeat_interval(150), 37);
    assert_eq!(heartbeat_interval(50), 25);
    assert_eq!(heartbeat_interval(10_000), 250);
    assert!(heartbeat_due(true, 100, 60, 40));
    assert!(!heartbeat_due(true, 100, 61, 40));
    assert!(!heartbeat_due(false, 100, 0, 40));
    assert!(!heartbeat_due(true, 10, 60, 1));
}

#[test]
fn one_question_is_open_at_a_time() {
    let answered = |generation, connection| LookupPoll::Answered { generation, connection };
    assert_eq!(lookup_step(false, LookupPoll::Pending), LookupStep::Ask);
    assert_eq!(lookup_step(true, LookupPoll::Pending), LookupStep::Wait);
    assert_eq!(lookup_step(true, LookupPoll::Failed), LookupStep::Forget);
    assert_eq!(lookup_step(true, answered(1, 5)), LookupStep::Connect { connection: 5 });
    assert_eq!(lookup_step(true, answered(0, 5)), LookupStep::Forget);
    assert_eq!(lookup_step(true, answered(1, 0)), LookupStep::Forget);
}

#[test]
fn lookups_follow_the_cluster() {
    let mut specs = vec![spec("gone", 1, 9), spec("b", 2, 8)];
    let peers =
        vec![peer("me", 10), peer("b", 20), peer("c", 30), peer("c", 31), peer("d", 40)];
    let dropped = reconcile(&mut specs, &peers, &b"me".to_vec());
    assert_eq!(plain(&dropped), vec![("gone".to_string(), 1, 9)]);
    assert_eq!(
        plain(&specs),
        vec![("b".to_string(), 2, 8), ("c".to_string(), 30, 0), ("d".to_string(), 40, 0)]
    );
    let dropped = reconcile(&mut specs, &peers, &b"me".to_vec());
    assert!(dropped.is_empty());
    assert_eq!(specs.len(), 3);
}

fn neighbor(leader: bool, raft_id: &str, leader_id: &str) -> Neighbor {
    Neighbor {
        leader,
        raft_id: raft_id.as_bytes().to_vec(),
        leader_id: leader_id.as_bytes().to_vec(),
    }
}

#[test]
fn the_smallest_name_is_the_anchor() {
    let neighbors = vec![
        neighbor(false, "", ""),
        neighbor(false, "b", ""),
        neighbor(true, "z", ""),
        neighbor(false, "a", "b"),
        neighbor(false, "a", ""),
        neighbor(false, "m", ""),
    ];
    assert_eq!(choose_anchor(b"m", &neighbors), Some(3));
    assert_eq!(choose_anchor(b"b", &neighbors), Some(3));
    assert_eq!(choose_anchor(b"a", &neighbors), None);
    assert_eq!(choose_anchor(b"aa", &vec![neighbor(true, "b", "")]), None);
    assert_eq!(choose_anchor(b"b", &vec![neighbor(true, "aa", "")]), Some(0));
    assert!(follow_hint(false, true, true));
    assert!(!follow_hint(true, true, true));
    assert!(!follow_hint(false, false, true));
    assert!(!follow_hint(false, true, false));
}

#[test]
fn an_application_is_repeated_until_it_is_accepted() {
    let alone = Standing { role: Role::Leader, members: 1, joining: false, joining_from_target: false };
    let mut joining = Joining::new();
    assert!(joining.query_due(true, false, 0));
    assert!(!joining.query_due(true, false, 1_999));
    assert!(joining.query_due(true, false, 2_000));
    assert!(!joining.query_due(false, false, 9_000));
    assert!(!joining.query_due(true, true, 9_000));
    assert!(joining.applies(&alone));
    joining.applied(2_000);
    assert!(!joining.applies(&alone));
    joining.expire(2_999);
    assert!(joining.pending);
    joining.expire(3_000);
    assert!(!joining.pending);
    assert_eq!(joining.next_query_ms, 3_000);
    joining.applied(3_000);
    joining.replied(None);
    assert!(joining.pending);
    joining.replied(Some(0));
    assert!(!joining.pending && !joining.accepted);
    assert!(joining.applies(&alone));
    joining.replied(Some(12));
    assert!(joining.accepted);
    assert!(!joining.applies(&alone));
    joining.requested();
    assert_eq!((joining.attempts, joining.replies_received, joining.requests_received), (2, 3, 1));
}

#[test]
fn only_a_node_without_company_applies() {
    let joining = Joining::new();
    let standing = |role, members, under_way, from_target| Standing {
        role,
        members,
        joining: under_way,
        joining_from_target: from_target,
    };
    assert!(!joining.applies(&standing(Role::Leader, 2, false, false)));
    assert!(!joining.applies(&standing(Role::Follower, 1, false, true)));
    assert!(!joining.applies(&standing(Role::Candidate, 1, true, false)));
    assert!(joining.applies(&standing(Role::Follower, 1, true, true)));
}

#[test]
fn frames_are_taken_apart() {
    let mut memory = vec![0u8; 64];
    memory[6..12].copy_from_slice(&[1, 2, 3, 4, 5, 6]);
    memory[14] = 7;
    let frame = read_frame(&memory, 20).unwrap();
    assert_eq!(frame.source, [1, 2, 3, 4, 5, 6]);
    assert_eq!(frame.payload, &[7, 0, 0, 0, 0, 0]);
    assert!(read_frame(&memory, 14).is_none());
    assert!(read_frame(&memory, 15).is_some());
    let tags = JoinTags { request: 7, reply: 8 };
    assert_eq!(frame_kind(1, &tags), FrameKind::Consensus { place: 0 });
    assert_eq!(frame_kind(6, &tags), FrameKind::Consensus { place: 5 });
    assert_eq!(frame_kind(7, &tags), FrameKind::JoinRequest);
    assert_eq!(frame_kind(8, &tags), FrameKind::JoinReply);
    assert_eq!(frame_kind(0, &tags), FrameKind::Other);
    assert!(payload_fits(true, 100, 100));
    assert!(!payload_fits(true, 101, 100));
    assert!(!payload_fits(false, 1, 100));
}

#[test]
fn the_status_packs_role_term_and_index() {
    assert_eq!(status_word(Role::Leader, 5, 9), 3 | (5 << 8) | (9 << 32));
    assert_eq!(role_number(Role::Follower), 1);
    assert_eq!(role_number(Role::Candidate), 2);
    assert_eq!(status_word(Role::Follower, 0x100_0000, 0) as u64 >> 32, 1);
    let bits = posture_bits(true, false, true, &Joining::new(), true);
    assert_eq!(bits, 0b100101);
    let mut joining = Joining::new();
    joining.applied(0);
    joining.accepted = true;
    assert_eq!(posture_bits(false, true, false, &joining, false), 0b011010);
}

#[test]
fn the_last_member_is_not_removed() {
    assert_eq!(decode_removal(b""), None);
    assert_eq!(decode_removal(&[0]), None);
    assert_eq!(decode_removal(&[3, b'a', b'b']), None);
    assert_eq!(decode_removal(&[2, b'a', b'b', b'c']), Some(b"ab".to_vec()));
    assert_eq!(decode_removal(&[1, 0xff]), None);
    let members = vec![peer("a", 1), peer("b", 2), peer("c", 3)];
    assert_eq!(remove_member(&None, true, &members), Removal::Malformed);
    assert_eq!(remove_member(&Some(b"b".to_vec()), false, &members), Removal::NotLeader);
    assert_eq!(
        remove_member(&Some(b"b".to_vec()), true, &members),
        Removal::Propose { members: vec![0, 2] }
    );
    let last = vec![peer("a", 1)];
    assert_eq!(remove_member(&Some(b"a".to_vec()), true, &last), Removal::LastMember);
}

#[test]
fn admissions_are_announced_once() {
    assert_eq!(&MEMBERSHIP_EVENT, b"event:membership:");
    let me = b"a".to_vec();
    let members = vec![peer("a", 1), peer("b", 2), peer("c", 3)];
    let mut events = Announcements::new();
    assert_eq!(events.next(false, &me, &members), None);
    assert_eq!(events.next(true, &me, &members), Some(b"event:membership:b".to_vec()));
    events.fired(-1);
    assert_eq!(events.next(true, &me, &members), Some(b"event:membership:b".to_vec()));
    events.fired(4);
    assert_eq!(events.next(true, &me, &members), Some(b"event:membership:c".to_vec()));
    events.fired(5);
    assert_eq!(events.next(true, &me, &members), None);
}
