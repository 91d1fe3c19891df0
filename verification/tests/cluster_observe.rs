use catten_services::cluster_ingress::ServiceId;
use catten_services::cluster_observe::{
    decode, encode, valid, ArtifactCatalog, ControllerCounters, Deployment, Ingress, Limits, Node,
    Snapshot, FLAG_FRESH_COMMITTED, FLAG_LOCAL_LEADER, MAX_NODES, NODE_CAPACITY_FRESH,
    NODE_CAPACITY_PRESENT, NODE_LEADER, NODE_MAC_PRESENT, NODE_MEMBER, NODE_SELF,
};

const ROLLOUT_COMMITTED: u8 = 1;
const ROLLOUT_READY: u8 = 2;
const ROLLOUT_REPLACING: u8 = 3;

fn limits() -> Limits {
    Limits {
        max_ingress: 16,
        rollout_committed: ROLLOUT_COMMITTED,
        rollout_ready: ROLLOUT_READY,
        rollout_replacing: ROLLOUT_REPLACING,
    }
}

fn names() -> ArtifactCatalog {
    ArtifactCatalog { names: vec![b"orders".to_vec(), b"billing".to_vec()] }
}

fn sample() -> Snapshot {
    Snapshot {
        flags: FLAG_FRESH_COMMITTED | FLAG_LOCAL_LEADER,
        state: 3,
        term: 8,
        commit_index: 42,
        membership_epoch: 7,
        observed_millis: 12_345,
        leader_id: b"charlotte:a".to_vec(),
        self_id: b"charlotte:a".to_vec(),
        controller: ControllerCounters {
            capacity_reports_accepted: 9,
            capacity_commands_proposed: 3,
            placement_reassignments: 2,
            forced_reassignments: 1,
        },
        nodes: vec![Node {
            node_key: 1,
            flags: NODE_MEMBER
                | NODE_SELF
                | NODE_LEADER
                | NODE_MAC_PRESENT
                | NODE_CAPACITY_PRESENT
                | NODE_CAPACITY_FRESH,
            mac: [2, 0, 0, 0, 0, 1],
            capacity_boot_nonce: 11,
            capacity_epoch: 12,
            free_frames: 900,
            usable_frames: 1_000,
            committed_frames: 40,
            cpu_load_permille: 125,
        }],
        deployments: vec![Deployment {
            name: b"orders".to_vec(),
            state: ROLLOUT_READY,
            generation: 4,
            service_generation: 5,
            object_id: 6,
            demand_frames: 24,
            desired_nodes: vec![1],
            ready_nodes: vec![1],
        }],
        ingress: vec![Ingress {
            service: ServiceId::tcp_v4([10, 0, 0, 42], 443),
            backend_name: Some(b"orders".to_vec()),
            projection_present: true,
            member_count: 1,
            advertiser_node: Some(1),
            epoch: 13,
            eligible_nodes: vec![1],
        }],
    }
}

#[test]
fn snapshot_round_trips_and_rejects_trailing_data() {
    let snapshot = sample();
    let encoded = encode(&snapshot, &limits(), &names()).unwrap();
    assert_eq!(decode(&encoded, &limits(), &names()), Some(snapshot));
    let mut trailing = encoded;
    trailing.push(0);
    assert_eq!(decode(&trailing, &limits(), &names()), None);
}

#[test]
fn snapshot_rejects_noncanonical_nodes_and_unknown_flags() {
    let mut snapshot = sample();
    snapshot.nodes.push(snapshot.nodes[0]);
    assert_eq!(encode(&snapshot, &limits(), &names()), None);
    let mut snapshot = sample();
    snapshot.flags |= 0x8000;
    assert_eq!(encode(&snapshot, &limits(), &names()), None);
}

#[test]
fn snapshot_header_is_laid_out_as_documented() {
    let encoded = encode(&sample(), &limits(), &names()).unwrap();
    assert_eq!(&encoded[..8], b"CLOBSV1\0");
    assert_eq!(encoded.len(), 72 + 11 + 11 + 60 + (36 + 6 + 8 + 8) + (32 + 6 + 8));
}

#[test]
fn truncated_and_foreign_snapshots_are_refused() {
    let encoded = encode(&sample(), &limits(), &names()).unwrap();
    for len in 0..encoded.len() {
        assert_eq!(decode(&encoded[..len], &limits(), &names()), None, "length {len}");
    }
    let mut foreign = encoded.clone();
    foreign[0] ^= 1;
    assert_eq!(decode(&foreign, &limits(), &names()), None);
}

#[test]
fn every_rule_of_a_snapshot_is_checked() {
    let good = sample();
    assert!(valid(&good, &limits(), &names()));

    let mut bad = sample();
    bad.state = 0;
    assert!(!valid(&bad, &limits(), &names()));
    let mut bad = sample();
    bad.state = 4;
    assert!(!valid(&bad, &limits(), &names()));
    let mut bad = sample();
    bad.self_id = Vec::new();
    assert!(!valid(&bad, &limits(), &names()));
    let mut bad = sample();
    bad.leader_id = vec![b'x'; 256];
    assert!(!valid(&bad, &limits(), &names()));
    let mut bad = sample();
    bad.nodes[0].node_key = 0;
    assert!(!valid(&bad, &limits(), &names()));
    let mut bad = sample();
    bad.nodes[0].cpu_load_permille = 1_001;
    assert!(!valid(&bad, &limits(), &names()));
    let mut good = sample();
    good.nodes[0].cpu_load_permille = u16::MAX;
    assert!(valid(&good, &limits(), &names()));
    let mut bad = sample();
    bad.nodes[0].flags &= !NODE_MAC_PRESENT;
    assert!(!valid(&bad, &limits(), &names()));
    let mut bad = sample();
    bad.nodes[0].flags &= !NODE_CAPACITY_PRESENT;
    assert!(!valid(&bad, &limits(), &names()));
    let mut bad = sample();
    bad.deployments[0].name = b"unknown".to_vec();
    assert!(!valid(&bad, &limits(), &names()));
    let mut bad = sample();
    bad.deployments[0].state = 9;
    assert!(!valid(&bad, &limits(), &names()));
    let mut bad = sample();
    bad.deployments[0].desired_nodes = vec![2, 1];
    assert!(!valid(&bad, &limits(), &names()));
    let mut bad = sample();
    bad.ingress[0].projection_present = false;
    assert!(!valid(&bad, &limits(), &names()));
    let mut bad = sample();
    bad.ingress[0].member_count = MAX_NODES as u16 + 1;
    assert!(!valid(&bad, &limits(), &names()));
    let mut bad = sample();
    let twice = bad.ingress[0].clone();
    bad.ingress.push(twice);
    assert!(!valid(&bad, &limits(), &names()));
}

#[test]
fn records_are_ordered() {
    let mut snapshot = sample();
    let mut second = snapshot.deployments[0].clone();
    second.name = b"billing".to_vec();
    snapshot.deployments.push(second.clone());
    assert!(!valid(&snapshot, &limits(), &names()));
    snapshot.deployments.swap(0, 1);
    assert!(valid(&snapshot, &limits(), &names()));
    let encoded = encode(&snapshot, &limits(), &names()).unwrap();
    assert_eq!(decode(&encoded, &limits(), &names()), Some(snapshot));
}
