use catten_services::disk_raft::{
    DiskLogStore, DiskPersistentStateStore, JoinAdmission, LogEntry, ObjectIds,
};

fn entry(term: u64, peer: &str, data: &[u8]) -> LogEntry {
    LogEntry { term, peer_id: peer.as_bytes().to_vec(), data: data.to_vec() }
}

fn plain(entries: &[LogEntry]) -> Vec<(u64, Vec<u8>, Vec<u8>)> {
    entries.iter().map(|e| (e.term, e.peer_id.clone(), e.data.clone())).collect()
}

fn log(base: u64, term: u64, terms: &[u64]) -> DiskLogStore {
    DiskLogStore {
        snapshot_index: base,
        snapshot_term: term,
        snapshot_data: b"snap".to_vec(),
        entries: terms.iter().map(|term| entry(*term, "n", &[*term as u8])).collect(),
    }
}

fn load(log: &[u8]) -> Option<(DiskLogStore, bool)> {
    DiskLogStore::new(&[], Vec::new(), log)
}

#[test]
fn nodes_share_no_object() {
    let one = ObjectIds::new(5);
    assert_eq!(one.state, 0x8000_0000_0000_0014);
    assert_eq!((one.snapshot_meta, one.snapshot_data, one.log), (one.state + 1, one.state + 2, one.state + 3));
    assert_eq!(ObjectIds::new(6).state, one.state + 4);
    assert_eq!(ObjectIds::new(5 | (7 << 61)), one);
    assert_eq!(ObjectIds::new(u64::MAX).log, u64::MAX);
}

#[test]
fn a_stored_log_reads_back() {
    let mut store = log(7, 3, &[3, 4]);
    store.append(vec![entry(4, "", b"x"), entry(0, "peer", b"")]);
    let image = store.image();
    assert_eq!(&image[..8], b"CRFTLOG1");
    let (back, migrate) = load(&image).unwrap();
    assert!(!migrate);
    assert_eq!((back.snapshot_index, back.snapshot_term), (7, 3));
    assert_eq!(back.snapshot_data, b"snap".to_vec());
    assert_eq!(plain(&back.entries), plain(&store.entries));
}

#[test]
fn an_entry_is_stored_with_its_lengths() {
    let store = DiskLogStore {
        snapshot_index: 0,
        snapshot_term: 0,
        snapshot_data: Vec::new(),
        entries: vec![entry(0x0102, "ab", b"xyz")],
    };
    let image = store.image();
    assert_eq!(
        &image[40..],
        &[2, 1, 0, 0, 0, 0, 0, 0, 2, 0, 0, 0, 3, 0, 0, 0, b'a', b'b', b'x', b'y', b'z']
    );
    assert_eq!(&image[32..40], &21u64.to_le_bytes());
}

#[test]
fn a_torn_log_is_never_read_as_something_else() {
    let image = log(7, 3, &[3, 4]).image();
    for len in 8..image.len() {
        assert!(load(&image[..len]).is_none(), "length {len}");
    }
    let mut longer = image.clone();
    longer.push(0);
    assert!(load(&longer).is_none());
}

#[test]
fn the_three_objects_of_before_are_migrated() {
    let store = log(0, 0, &[5, 6]);
    let image = store.image();
    let stream = &image[40 + 4..];
    let mut meta = Vec::new();
    meta.extend_from_slice(&9u64.to_le_bytes());
    meta.extend_from_slice(&2u64.to_le_bytes());
    let (old, migrate) = DiskLogStore::new(&meta, b"data".to_vec(), stream).unwrap();
    assert!(migrate);
    assert_eq!((old.snapshot_index, old.snapshot_term), (9, 2));
    assert_eq!(old.snapshot_data, b"data".to_vec());
    assert_eq!(plain(&old.entries), plain(&store.entries));
    let (blank, migrate) = DiskLogStore::new(&meta[..15], Vec::new(), &[]).unwrap();
    assert!(migrate);
    assert_eq!((blank.snapshot_index, blank.entries.len()), (0, 0));
}

#[test]
fn names_that_cannot_be_stored_do_not_read_back() {
    let mut store = log(0, 0, &[]);
    store.append(vec![LogEntry { term: 1, peer_id: vec![0xff], data: Vec::new() }]);
    assert!(load(&store.image()).is_none());
    let mut store = log(0, 0, &[]);
    store.append(vec![entry(1, &"x".repeat(300), b"")]);
    let (back, _) = load(&store.image()).unwrap();
    assert_eq!(back.entries[0].peer_id.len(), 255);
    let mut store = log(0, 0, &[]);
    store.append(vec![entry(0, "", b"")]);
    assert!(load(&store.image()).is_none());
}

#[test]
fn terms_and_entries_are_found_by_index() {
    let store = log(10, 3, &[4, 4, 5]);
    assert_eq!(store.last_index(), 13);
    assert_eq!(store.last_term(), 5);
    assert_eq!(store.term_at(0), 0);
    assert_eq!(store.term_at(9), 0);
    assert_eq!(store.term_at(10), 3);
    assert_eq!(store.term_at(11), 4);
    assert_eq!(store.term_at(13), 5);
    assert_eq!(store.term_at(14), 0);
    assert!(store.entry_at(10).is_none());
    assert_eq!(store.entry_at(13).unwrap().term, 5);
    assert_eq!(plain(&store.entries_from(12)), plain(&store.entries[1..]));
    assert_eq!(store.entries_from(3).len(), 3);
    assert_eq!(store.entries_from(14).len(), 0);
    let empty = log(10, 3, &[]);
    assert_eq!((empty.last_index(), empty.last_term()), (10, 3));
}

#[test]
fn truncation_keeps_what_is_before() {
    let mut store = log(10, 3, &[4, 4, 5]);
    assert!(!store.truncate_from(10));
    assert!(store.truncate_from(14));
    assert_eq!(store.last_index(), 13);
    assert!(store.truncate_from(12));
    assert_eq!(store.last_index(), 11);
    assert_eq!(store.term_at(11), 4);
}

#[test]
fn compaction_keeps_what_is_behind() {
    let mut store = log(10, 3, &[4, 4, 5]);
    assert!(!store.compact_up_to(10));
    assert!(!store.compact_up_to(14));
    assert!(store.compact_up_to(12));
    assert_eq!((store.snapshot_index, store.snapshot_term), (12, 4));
    assert_eq!(store.last_index(), 13);
    assert_eq!(store.term_at(13), 5);
    assert!(store.entry_at(12).is_none());
}

#[test]
fn a_snapshot_keeps_a_matching_tail_only() {
    let mut store = log(10, 3, &[4, 4, 5]);
    store.install_snapshot(12, 4, b"new".to_vec());
    assert_eq!((store.snapshot_index, store.snapshot_term, store.last_index()), (12, 4, 13));
    assert_eq!(store.snapshot_data, b"new".to_vec());
    let mut store = log(10, 3, &[4, 4, 5]);
    store.install_snapshot(12, 9, Vec::new());
    assert_eq!((store.last_index(), store.last_term()), (12, 9));
    let mut store = log(10, 3, &[4, 4, 5]);
    store.install_snapshot(10, 3, Vec::new());
    assert_eq!(store.last_index(), 13);
    let mut store = log(10, 3, &[4, 4, 5]);
    store.install_snapshot(20, 6, Vec::new());
    assert_eq!(store.last_index(), 20);
    let mut store = log(10, 3, &[4, 4, 5]);
    store.install_snapshot(5, 1, Vec::new());
    assert_eq!((store.last_index(), store.last_term()), (5, 1));
}

fn state(bytes: &[u8]) -> Option<(u64, Option<Vec<u8>>, Option<(Vec<u8>, u64)>)> {
    DiskPersistentStateStore::new(Some(bytes)).map(|store| {
        (
            store.current_term,
            store.voted_for,
            store.join_admission.map(|a| (a.anchor_id, a.snapshot_index)),
        )
    })
}

#[test]
fn a_stored_state_reads_back() {
    let mut store = DiskPersistentStateStore::new(None).unwrap();
    store.set_current_term(9);
    store.set_voted_for(Some(b"n2".to_vec()));
    store.set_join_admission(Some(JoinAdmission { anchor_id: b"a".to_vec(), snapshot_index: 44 }));
    let image = store.image();
    assert_eq!(image.len(), 24 + 2 + 1);
    assert_eq!(state(&image), Some((9, Some(b"n2".to_vec()), Some((b"a".to_vec(), 44)))));
    store.set_voted_for(None);
    store.set_join_admission(None);
    assert_eq!(state(&store.image()), Some((9, None, None)));
    store.set_voted_for(Some(Vec::new()));
    assert_eq!(state(&store.image()), Some((9, None, None)));
}

#[test]
fn a_state_that_makes_no_sense_is_refused() {
    assert_eq!(state(&[]), Some((0, None, None)));
    assert_eq!(state(&[0; 11]), None);
    let mut short = 9u64.to_le_bytes().to_vec();
    short.extend_from_slice(&2u32.to_le_bytes());
    short.extend_from_slice(b"n2");
    assert_eq!(state(&short), Some((9, Some(b"n2".to_vec()), None)));
    let mut cut = short.clone();
    cut.pop();
    assert_eq!(state(&cut), None);
    let mut long = short.clone();
    long.push(0);
    assert_eq!(state(&long), None);
    let mut other = short.clone();
    other[12] = 0xff;
    assert_eq!(state(&other), None);
    let mut huge = short.clone();
    huge[8..12].copy_from_slice(&257u32.to_le_bytes());
    huge.resize(12 + 257, b'x');
    assert_eq!(state(&huge), None);
    let mut admitted = short;
    admitted.extend_from_slice(&1u64.to_le_bytes());
    admitted.extend_from_slice(&2u32.to_le_bytes());
    admitted.push(b'a');
    assert_eq!(state(&admitted), None);
}
