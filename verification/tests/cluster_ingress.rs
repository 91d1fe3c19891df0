use catten_services::cluster_ingress::{
    decapsulate_forwarded_frame, encapsulate_forwarded_frame, gratuitous_arp,
    is_arp_request_for_vip, load_balancing_epoch, local_advertises_vip, parse_service_flow,
    select_backend, Backend, BackendSnapshot, FlowEpochTable, FlowKey, ParsedFlow, ServiceId,
    SnapshotHistory, ARP_ETHERTYPE, FORWARDED_ETHERTYPE, FORWARD_ENVELOPE_LEN, IPV4_ETHERTYPE,
    IP_PROTOCOL_TCP,
};

fn service() -> ServiceId {
    ServiceId::tcp_v4([10, 0, 0, 42], 443)
}

fn backend(id: u64) -> Backend {
    Backend {
        node_id: id,
        mac: [0x02, 0, 0, 0, 0, id as u8],
    }
}

fn snapshot(epoch: u64, ids: &[u64]) -> BackendSnapshot {
    BackendSnapshot::new(epoch, ids[0], ids.iter().copied().map(backend).collect()).unwrap()
}

fn flow(index: u32) -> FlowKey {
    FlowKey {
        protocol: IP_PROTOCOL_TCP,
        src_addr: [192, 0, (index >> 8) as u8, index as u8],
        dst_addr: service().address,
        src_port: 1024 + (index % 60_000) as u16,
        dst_port: service().port,
    }
}

fn frame(key: FlowKey, flags: u8) -> Vec<u8> {
    let mut bytes = vec![0u8; 14 + 20 + 20 + 7];
    let ip_len = (bytes.len() - 14) as u16;
    bytes[0..6].copy_from_slice(&[0x02, 0, 0, 0, 0, 1]);
    bytes[6..12].copy_from_slice(&[0x02, 0, 0, 0, 0, 99]);
    bytes[12..14].copy_from_slice(&IPV4_ETHERTYPE.to_be_bytes());
    bytes[14] = 0x45;
    bytes[16..18].copy_from_slice(&ip_len.to_be_bytes());
    bytes[23] = IP_PROTOCOL_TCP;
    bytes[26..30].copy_from_slice(&key.src_addr);
    bytes[30..34].copy_from_slice(&key.dst_addr);
    bytes[34..36].copy_from_slice(&key.src_port.to_be_bytes());
    bytes[36..38].copy_from_slice(&key.dst_port.to_be_bytes());
    bytes[46] = 0x50;
    bytes[47] = flags;
    bytes[54..].copy_from_slice(b"payload");
    bytes
}

#[test]
fn selection_is_order_independent_and_snapshot_round_trips() {
    let one = snapshot(17, &[1, 2, 3]);
    let two = BackendSnapshot::new(17, 1, vec![backend(3), backend(1), backend(2)]).unwrap();
    assert_eq!(one, BackendSnapshot::decode(&one.encode()).unwrap());
    for index in 0..1_000 {
        assert_eq!(
            select_backend(&service(), &flow(index), &one),
            select_backend(&service(), &flow(index), &two)
        );
    }
    let mut history = SnapshotHistory::new(2);
    history.install(snapshot(18, &[1, 2, 3]));
    history.install(snapshot(17, &[1, 2, 3]));
    // Policy epochs are opaque fingerprints, so arrival order rather
    // than numeric comparison determines the current local snapshot.
    assert_eq!(history.current().unwrap().epoch, 17);
}

#[test]
fn policy_epoch_is_deterministic_and_changes_with_drain_state() {
    let one = load_balancing_epoch(17, &[(3, 1), (2, 4)]);
    let reordered = load_balancing_epoch(17, &[(2, 4), (3, 1)]);
    assert_eq!(one, reordered);
    assert_ne!(one, load_balancing_epoch(18, &[(2, 4), (3, 1)]));
    assert_ne!(one, load_balancing_epoch(17, &[(2, 5), (3, 1)]));
}

#[test]
fn rendezvous_distribution_is_balanced() {
    let members = snapshot(17, &[1, 2, 3]);
    let mut counts = [0usize; 3];
    for index in 0..30_000 {
        let selected = select_backend(&service(), &flow(index), &members).unwrap();
        counts[selected.node_id as usize - 1] += 1;
    }
    for count in counts {
        assert!((8_500..=11_500).contains(&count), "unbalanced count {count}");
    }
}

#[test]
fn adding_a_member_only_moves_its_winners() {
    let before = snapshot(17, &[1, 2, 3]);
    let after = snapshot(18, &[1, 2, 3, 4]);
    let mut moved = 0usize;
    let mut selected_four = 0usize;
    for index in 0..20_000 {
        let old = select_backend(&service(), &flow(index), &before).unwrap();
        let new = select_backend(&service(), &flow(index), &after).unwrap();
        if old != new {
            moved += 1;
            assert_eq!(new.node_id, 4);
        }
        selected_four += usize::from(new.node_id == 4);
    }
    assert!((3_500..=6_500).contains(&moved));
    assert_eq!(moved, selected_four);
}

#[test]
fn removal_preserves_survivors_and_releases_failed_backend_bindings() {
    let before = snapshot(17, &[1, 2, 3]);
    let after = snapshot(18, &[1, 3]);
    let mut history = SnapshotHistory::new(4);
    history.install(before.clone());
    history.install(after.clone());
    let mut table = FlowEpochTable::new(20_000);
    let mut removed = 0usize;
    let mut surviving = 0usize;
    for index in 0..10_000 {
        let key = flow(index);
        let packet = ParsedFlow {
            key,
            initial_syn: true,
            terminal: false,
        };
        table.observe(&packet, before.epoch);
        match select_backend(&service(), &key, &before).unwrap().node_id {
            2 => removed += 1,
            _ => surviving += 1,
        }
    }
    assert_eq!(table.remove_absent_backends(&service(), &history, &after), removed);
    assert_eq!(table.len(), surviving);
}

#[test]
fn drain_stops_new_selection_but_retains_existing_backend_binding() {
    let before = snapshot(17, &[1, 2, 3]);
    let after = BackendSnapshot::new_with_members(
        18,
        1,
        Some(1),
        vec![backend(1), backend(2), backend(3)],
        vec![1, 3],
    )
    .unwrap();
    assert_eq!(after.members().len(), 3);
    assert_eq!(after.backends().iter().map(|item| item.node_id).collect::<Vec<_>>(), [1, 3]);
    assert_eq!(after, BackendSnapshot::decode(&after.encode()).unwrap());

    let (index, key) = (0..10_000)
        .map(|index| (index, flow(index)))
        .find(|(_, key)| select_backend(&service(), key, &before).unwrap().node_id == 2)
        .expect("one test flow selects the draining backend");
    let mut history = SnapshotHistory::new(4);
    history.install(before.clone());
    history.install(after.clone());
    let mut table = FlowEpochTable::new(1);
    table.observe(
        &ParsedFlow {
            key,
            initial_syn: true,
            terminal: false,
        },
        before.epoch,
    );
    assert_eq!(table.remove_absent_backends(&service(), &history, &after), 0);
    let retained = history.get(table.observe(
        &ParsedFlow {
            key,
            initial_syn: false,
            terminal: false,
        },
        after.epoch,
    ));
    assert_eq!(select_backend(&service(), &key, retained.unwrap()).unwrap().node_id, 2);
    assert_ne!(select_backend(&service(), &flow(index + 1), &after).unwrap().node_id, 2);
}

#[test]
fn draining_every_member_produces_a_complete_fail_closed_snapshot() {
    let drained =
        BackendSnapshot::new_with_members(19, 1, None, vec![backend(1), backend(2)], vec![])
            .unwrap();
    assert_eq!(drained.members().len(), 2);
    assert!(drained.backends().is_empty());
    assert_eq!(drained.vip_advertiser(), None);
    assert_eq!(select_backend(&service(), &flow(1), &drained), None);
    assert_eq!(drained, BackendSnapshot::decode(&drained.encode()).unwrap());
}

#[test]
fn observed_flow_keeps_its_epoch_across_membership_change() {
    let key = flow(9);
    let syn = ParsedFlow {
        key,
        initial_syn: true,
        terminal: false,
    };
    let data = ParsedFlow {
        key,
        initial_syn: false,
        terminal: false,
    };
    let mut table = FlowEpochTable::new(16);
    assert_eq!(table.observe(&syn, 17), 17);
    assert_eq!(table.observe(&syn, 18), 17);
    assert_eq!(table.observe(&data, 18), 17);
}

#[test]
fn replacement_ingress_selects_same_backend_without_shared_state() {
    let members = snapshot(17, &[1, 2, 3]);
    let key = flow(42);
    let from_a = select_backend(&service(), &key, &members).unwrap();
    let replacement =
        BackendSnapshot::new_with_advertiser(17, 3, Some(3), members.backends().to_vec())
            .unwrap();
    let independently_decoded = BackendSnapshot::decode(&replacement.encode()).unwrap();
    let from_c = select_backend(&service(), &key, &independently_decoded).unwrap();
    assert_eq!(from_a, from_c);
    assert!(local_advertises_vip(Some(&independently_decoded)));
}

#[test]
fn forwarding_envelope_round_trip_preserves_the_ip_packet() {
    let key = flow(1);
    let mut packet = frame(key, 0x02);
    packet.resize(packet.len() + FORWARD_ENVELOPE_LEN, 0);
    let parsed = parse_service_flow(&packet, &service()).unwrap();
    assert_eq!(parsed.key, key);
    assert!(parsed.initial_syn);
    let original = packet[..packet.len() - FORWARD_ENVELOPE_LEN].to_vec();
    let ingress = backend(1).mac;
    let forwarded_len =
        encapsulate_forwarded_frame(&mut packet, original.len(), ingress, backend(2).mac)
            .unwrap();
    assert_eq!(forwarded_len, original.len() + FORWARD_ENVELOPE_LEN);
    assert_eq!(&packet[0..6], &backend(2).mac);
    assert_eq!(&packet[6..12], &ingress);
    assert_eq!(u16::from_be_bytes(packet[12..14].try_into().unwrap()), FORWARDED_ETHERTYPE);

    let (restored_len, restored_ethertype) =
        decapsulate_forwarded_frame(&mut packet, forwarded_len).unwrap();
    assert_eq!(restored_len, original.len());
    assert_eq!(restored_ethertype, IPV4_ETHERTYPE);
    assert_eq!(&packet[..6], &backend(2).mac);
    assert_eq!(&packet[6..restored_len], &original[6..]);
    assert_eq!(parse_service_flow(&packet[..restored_len], &service()).unwrap().key, key);
}

#[test]
fn forwarding_envelope_is_bounded_and_type_checked() {
    let mut packet = frame(flow(1), 0x02);
    let exact_len = packet.len();
    assert!(
        encapsulate_forwarded_frame(&mut packet, exact_len, backend(1).mac, backend(2).mac)
            .is_none()
    );
    packet.resize(exact_len + FORWARD_ENVELOPE_LEN, 0);
    assert!(decapsulate_forwarded_frame(&mut packet, exact_len).is_none());
}

#[test]
fn arp_matching_and_gratuitous_advertisement_are_vip_specific() {
    let mut request = [0u8; 42];
    request[12..14].copy_from_slice(&ARP_ETHERTYPE.to_be_bytes());
    request[14..16].copy_from_slice(&1u16.to_be_bytes());
    request[16..18].copy_from_slice(&IPV4_ETHERTYPE.to_be_bytes());
    request[18] = 6;
    request[19] = 4;
    request[20..22].copy_from_slice(&1u16.to_be_bytes());
    request[38..42].copy_from_slice(&service().address);
    assert!(is_arp_request_for_vip(&request, service().address));
    assert!(!is_arp_request_for_vip(&request, [10, 0, 0, 43]));

    let owner = snapshot(17, &[1, 2, 3]);
    let non_owner = BackendSnapshot::new(17, 2, owner.backends().to_vec()).unwrap();
    assert!(local_advertises_vip(Some(&owner)));
    assert!(!local_advertises_vip(Some(&non_owner)));
    assert!(!local_advertises_vip(None));

    let announcement = gratuitous_arp(backend(1).mac, service().address);
    assert_eq!(&announcement[0..6], &[0xff; 6]);
    assert_eq!(&announcement[28..32], &service().address);
    assert_eq!(&announcement[38..42], &service().address);
}

#[test]
fn retained_snapshots_tell_their_epoch_and_node() {
    let mut history = SnapshotHistory::new(2);
    assert!(history.current().is_none());
    history.install(snapshot(18, &[1, 2, 3]));
    history.install(snapshot(19, &[1, 2, 3]));
    history.install(snapshot(20, &[1, 2, 3]));
    assert!(history.get(18).is_none());
    let kept = history.get(19).unwrap();
    assert_eq!((kept.epoch(), kept.self_node()), (kept.epoch, kept.self_node));
    assert_eq!(kept.epoch(), 19);
    assert_eq!(history.current().unwrap().epoch(), 20);
    assert!(kept.vip_advertiser().is_none_or(|owner| kept.backends().contains(&owner)));
}
