//! The durable state of a Raft node: its term, vote and join admission, and
//! its log with the snapshot that the log continues.
//!
//! Each of the two is one object of the object store, written whole and
//! flushed after every change, so that a crash leaves the last flushed version.
//! Here are the bytes of the objects and what the changes do; the caller moves
//! the bytes.
use vstd::prelude::*;

use crate::text;
use crate::wire;

verus! {

/// The objects of one node.
#[derive(Clone, Copy, Debug, PartialEq, Eq, Structural)]
pub struct ObjectIds {
    pub state: u64,
    pub snapshot_meta: u64,
    pub snapshot_data: u64,
    pub log: u64,
}

/// The first object of a node. The high bit keeps it away from the numbers
/// that the object store hands out.
pub open spec fn first_object(namespace: u64) -> int {
    0x8000_0000_0000_0000 + 4 * (namespace % 0x2000_0000_0000_0000)
}

impl ObjectIds {
    /// The objects of the node that owns a namespace.
    pub fn new(namespace: u64) -> (ids: ObjectIds)
        ensures
            ids.state == first_object(namespace),
            ids.snapshot_meta == first_object(namespace) + 1,
            ids.snapshot_data == first_object(namespace) + 2,
            ids.log == first_object(namespace) + 3,
    {
        let base: u64 = 0x8000_0000_0000_0000 + 4 * (namespace % 0x2000_0000_0000_0000);
        ObjectIds {
            state: base,
            snapshot_meta: base + 1,
            snapshot_data: base + 2,
            log: base + 3,
        }
    }
}

/// Namespaces that differ in their low 61 bits share no object, and no object
/// has a low number.
pub proof fn law_nodes_share_no_object(one: u64, two: u64, slot: int, other: int)
    requires
        one % 0x2000_0000_0000_0000 != two % 0x2000_0000_0000_0000,
        0 <= slot < 4,
        0 <= other < 4,
    ensures
        first_object(one) + slot != first_object(two) + other,
        first_object(one) + slot >= 0x8000_0000_0000_0000,
        first_object(one) + slot <= u64::MAX,
{
}

/// A command, and the peer that proposed it.
pub struct LogEntry {
    pub term: u64,
    pub peer_id: Vec<u8>,
    pub data: Vec<u8>,
}

#[verifier::ext_equal]
pub struct EntryView {
    pub term: u64,
    pub peer_id: Seq<u8>,
    pub data: Seq<u8>,
}

impl View for LogEntry {
    type V = EntryView;

    open spec fn view(&self) -> EntryView {
        EntryView { term: self.term, peer_id: self.peer_id@, data: self.data@ }
    }
}

pub open spec fn entry_views(entries: Seq<LogEntry>) -> Seq<EntryView> {
    Seq::new(entries.len(), |i: int| entries[i]@)
}

/// How many bytes of a peer's name are stored.
pub open spec fn stored_len(len: int) -> int {
    let short = len % 0x1_0000_0000;
    if short < 255 {
        short
    } else {
        255
    }
}

/// The fixed part of a stored entry.
pub open spec fn entry_fields(entry: EntryView) -> Seq<(u64, usize)> {
    seq![
        (entry.term, 8usize),
        (stored_len(entry.peer_id.len() as int) as u64, 4usize),
        (entry.data.len() as u64, 4usize),
    ]
}

/// A stored entry.
pub open spec fn entry_bytes(entry: EntryView) -> Seq<u8> {
    wire::coded(entry_fields(entry)) + entry.peer_id.take(
        stored_len(entry.peer_id.len() as int),
    ) + entry.data
}

/// The stored entries one after another.
pub open spec fn entries_bytes(entries: Seq<EntryView>) -> Seq<u8>
    decreases entries.len(),
{
    if entries.len() == 0 {
        Seq::empty()
    } else {
        entries_bytes(entries.drop_last()) + entry_bytes(entries.last())
    }
}

/// The data of every entry has a length that can be stored.
pub open spec fn lengths_fit(entries: Seq<EntryView>) -> bool {
    forall|i: int| 0 <= i < entries.len() ==> (#[trigger] entries[i]).data.len() <= u32::MAX
}

/// The length of the stored entry at the start of `bytes`, if there is one.
pub open spec fn entry_extent(bytes: Seq<u8>) -> Option<int> {
    if bytes.len() < 16 {
        None
    } else {
        let term = wire::field(bytes, 0, 8);
        let peer_len = wire::field(bytes, 8, 4) as int;
        let data_len = wire::field(bytes, 12, 4) as int;
        if peer_len > 255 || (term == 0 && peer_len == 0 && data_len == 0) || 16 + peer_len
            + data_len > bytes.len() {
            None
        } else {
            Some(16 + peer_len + data_len)
        }
    }
}

/// The entry at the start of `bytes`. A name that is no text is dropped.
pub open spec fn entry_at_start(bytes: Seq<u8>) -> EntryView {
    let peer_len = wire::field(bytes, 8, 4) as int;
    let data_len = wire::field(bytes, 12, 4) as int;
    let name = bytes.subrange(16, 16 + peer_len);
    EntryView {
        term: wire::field(bytes, 0, 8) as u64,
        peer_id: if vstd::utf8::valid_utf8(name) {
            name
        } else {
            Seq::empty()
        },
        data: bytes.subrange(16 + peer_len, 16 + peer_len + data_len),
    }
}

/// The entries that `bytes` hold, up to the first place that holds none.
pub open spec fn entries_of(bytes: Seq<u8>) -> Seq<EntryView>
    decreases bytes.len(),
{
    match entry_extent(bytes) {
        Some(extent) => if 0 < extent <= bytes.len() {
            seq![entry_at_start(bytes)] + entries_of(bytes.skip(extent))
        } else {
            Seq::empty()
        },
        None => Seq::empty(),
    }
}

/// Append a stored entry.
fn serialize_entry(out: &mut Vec<u8>, entry: &LogEntry)
    requires
        entry@.data.len() <= u32::MAX,
    ensures
        final(out)@ == old(out)@ + entry_bytes(entry@),
{
    let ghost before = out@;
    let short: u64 = entry.peer_id.len() as u64 % 0x1_0000_0000;
    let stored: usize = if short < 255 {
        short as usize
    } else {
        255
    };
    wire::push_fields(
        out,
        [(entry.term, 8usize), (stored as u64, 4usize), (entry.data.len() as u64, 4usize)].as_slice(),
    );
    wire::push_range(out, entry.peer_id.as_slice(), 0, stored);
    wire::push_all(out, entry.data.as_slice());
    proof {
        assert(entry_fields(entry@) =~= seq![
            (entry.term, 8usize),
            (stored as u64, 4usize),
            (entry.data@.len() as u64, 4usize),
        ]);
        assert(entry.peer_id@.subrange(0, stored as int) =~= entry.peer_id@.take(stored as int));
        assert(out@ =~= before + entry_bytes(entry@));
    }
}

/// The stored entries one after another.
fn serialize_entries(entries: &Vec<LogEntry>) -> (out: Vec<u8>)
    requires
        lengths_fit(entry_views(entries@)),
    ensures
        out@ == entries_bytes(entry_views(entries@)),
{
    let ghost views = entry_views(entries@);
    let mut out: Vec<u8> = Vec::new();
    let mut index: usize = 0;
    assert(views.take(0) =~= Seq::empty());
    while index < entries.len()
        invariant
            index <= entries@.len(),
            views == entry_views(entries@),
            lengths_fit(views),
            out@ == entries_bytes(views.take(index as int)),
        decreases entries@.len() - index,
    {
        assert(views[index as int].data.len() <= u32::MAX);
        assert(views.take(index + 1).drop_last() =~= views.take(index as int));
        assert(views.take(index + 1).last() == entries@[index as int]@);
        serialize_entry(&mut out, &entries[index]);
        index += 1;
    }
    assert(views.take(index as int) =~= views);
    out
}

/// The entries that the bytes from `from` on hold.
fn deserialize_entries(bytes: &[u8], from: usize) -> (entries: Vec<LogEntry>)
    requires
        from <= bytes@.len(),
    ensures
        entry_views(entries@) == entries_of(bytes@.skip(from as int)),
        lengths_fit(entry_views(entries@)),
{
    let total: usize = bytes.len();
    let mut entries: Vec<LogEntry> = Vec::new();
    let mut at: usize = from;
    let ghost whole = entries_of(bytes@.skip(from as int));
    assert(entry_views(entries@) + entries_of(bytes@.skip(at as int)) =~= whole);
    while total - at >= 16
        invariant
            at <= total == bytes@.len(),
            whole == entry_views(entries@) + entries_of(bytes@.skip(at as int)),
            lengths_fit(entry_views(entries@)),
        ensures
            entry_extent(bytes@.skip(at as int)) is None,
        decreases total - at,
    {
        let ghost rest = bytes@.skip(at as int);
        let term: u64 = wire::read_le(bytes, at, 8);
        let peer_len: usize = wire::read_le(bytes, at + 8, 4) as usize;
        let data_len: usize = wire::read_le(bytes, at + 12, 4) as usize;
        proof {
            wire::lemma_byte_capacities();
            assert(rest.subrange(0, 8) =~= bytes@.subrange(at as int, at + 8));
            assert(rest.subrange(8, 12) =~= bytes@.subrange(at + 8, at + 12));
            assert(rest.subrange(12, 16) =~= bytes@.subrange(at + 12, at + 16));
        }
        if peer_len > 255 || (term == 0 && peer_len == 0 && data_len == 0) {
            break;
        }
        let room: usize = total - at - 16;
        if peer_len > room || data_len > room - peer_len {
            break;
        }
        let name: Vec<u8> = wire::copy_range(bytes, at + 16, peer_len);
        let data: Vec<u8> = wire::copy_range(bytes, at + 16 + peer_len, data_len);
        let peer_id: Vec<u8> = if text::is_utf8(name.as_slice()) {
            name
        } else {
            Vec::new()
        };
        let ghost before = entries@;
        entries.push(LogEntry { term, peer_id, data });
        proof {
            let extent = 16 + peer_len + data_len;
            assert(entry_extent(rest) == Some(extent as int));
            assert(rest.subrange(16, 16 + peer_len) =~= bytes@.subrange(
                at + 16,
                at + 16 + peer_len,
            ));
            assert(rest.subrange(16 + peer_len, extent as int) =~= bytes@.subrange(
                at + 16 + peer_len,
                at + extent,
            ));
            assert(entries@.last()@ =~= entry_at_start(rest));
            assert(rest.skip(extent as int) =~= bytes@.skip(at + extent));
            assert(entry_views(entries@) =~= entry_views(before).push(entry_at_start(rest)));
            assert(entries_of(rest) == seq![entry_at_start(rest)] + entries_of(
                rest.skip(extent as int),
            ));
            assert(entry_views(entries@) + entries_of(rest.skip(extent as int)) =~= entry_views(
                before,
            ) + entries_of(rest));
        }
        at = at + 16 + peer_len + data_len;
    }
    assert(entry_views(entries@) =~= whole);
    entries
}


/// An entry that is read back as it was written: its name is short and text,
/// and it is not the empty entry, which marks the end.
pub open spec fn storable(entry: EntryView) -> bool {
    &&& entry.peer_id.len() <= 255
    &&& vstd::utf8::valid_utf8(entry.peer_id)
    &&& entry.data.len() <= u32::MAX
    &&& !(entry.term == 0 && entry.peer_id.len() == 0 && entry.data.len() == 0)
}

proof fn lemma_entry_round_trip(entry: EntryView, rest: Seq<u8>)
    requires
        storable(entry),
    ensures
        entry_extent(entry_bytes(entry) + rest) == Some(entry_bytes(entry).len() as int),
        entry_bytes(entry).len() > 0,
        entry_at_start(entry_bytes(entry) + rest) == entry,
        (entry_bytes(entry) + rest).skip(entry_bytes(entry).len() as int) == rest,
{
    let bytes = entry_bytes(entry) + rest;
    let fields = entry_fields(entry);
    let peer_len = entry.peer_id.len() as int;
    let data_len = entry.data.len() as int;
    wire::lemma_byte_capacities();
    wire::lemma_coded_len(fields);
    reveal_with_fuel(wire::field_offset, 4);
    assert(wire::coded(fields).len() == 16);
    assert(entry.peer_id.take(peer_len) =~= entry.peer_id);
    assert(bytes.take(16) =~= wire::coded(fields));
    wire::lemma_read_coded(bytes, fields, 0);
    wire::lemma_read_coded(bytes, fields, 1);
    wire::lemma_read_coded(bytes, fields, 2);
    assert(bytes.subrange(16, 16 + peer_len) =~= entry.peer_id);
    assert(bytes.subrange(16 + peer_len, 16 + peer_len + data_len) =~= entry.data);
    assert(bytes.skip(entry_bytes(entry).len() as int) =~= rest);
}

/// Stored entries are read back in front of the entries behind them.
proof fn lemma_entries_round_trip(entries: Seq<EntryView>, rest: Seq<u8>)
    requires
        forall|i: int| 0 <= i < entries.len() ==> storable(#[trigger] entries[i]),
    ensures
        entries_of(entries_bytes(entries) + rest) == entries + entries_of(rest),
    decreases entries.len(),
{
    if entries.len() == 0 {
        assert(entries_bytes(entries) + rest =~= rest);
        assert(entries + entries_of(rest) =~= entries_of(rest));
    } else {
        let before = entries.drop_last();
        let last = entries.last();
        let tail = entry_bytes(last) + rest;
        assert(storable(entries[entries.len() - 1]));
        assert forall|i: int| 0 <= i < before.len() implies storable(#[trigger] before[i]) by {
            assert(storable(entries[i]));
        }
        lemma_entries_round_trip(before, tail);
        assert(entries_bytes(entries) + rest =~= entries_bytes(before) + tail);
        lemma_entry_round_trip(last, rest);
        assert(entries_of(tail) =~= seq![last] + entries_of(rest));
        assert(entries + entries_of(rest) =~= before + entries_of(tail));
    }
}

/// What stored entries start with: "CRFTLOG1".
pub const LOG_STATE_MAGIC: u64 = 0x3147_4f4c_5446_5243;

pub const LOG_STATE_HEADER_LEN: usize = 40;

/// A log, and the snapshot that it continues.
pub struct DiskLogStore {
    pub snapshot_index: u64,
    pub snapshot_term: u64,
    pub snapshot_data: Vec<u8>,
    pub entries: Vec<LogEntry>,
}

#[verifier::ext_equal]
pub struct LogView {
    pub snapshot_index: u64,
    pub snapshot_term: u64,
    pub snapshot_data: Seq<u8>,
    pub entries: Seq<EntryView>,
}

impl View for DiskLogStore {
    type V = LogView;

    open spec fn view(&self) -> LogView {
        LogView {
            snapshot_index: self.snapshot_index,
            snapshot_term: self.snapshot_term,
            snapshot_data: self.snapshot_data@,
            entries: entry_views(self.entries@),
        }
    }
}

/// The fixed part of a stored log.
pub open spec fn log_fields(log: LogView) -> Seq<(u64, usize)> {
    seq![
        (LOG_STATE_MAGIC, 8usize),
        (log.snapshot_index, 8usize),
        (log.snapshot_term, 8usize),
        (log.snapshot_data.len() as u64, 8usize),
        (entries_bytes(log.entries).len() as u64, 8usize),
    ]
}

/// A stored log.
pub open spec fn log_image(log: LogView) -> Seq<u8> {
    wire::coded(log_fields(log)) + log.snapshot_data + entries_bytes(log.entries)
}

/// The bytes are a log in one piece, whole or not.
pub open spec fn is_unified(bytes: Seq<u8>) -> bool {
    bytes.len() >= 8 && wire::field(bytes, 0, 8) == LOG_STATE_MAGIC
}

/// The log that a stored log in one piece holds.
pub open spec fn stored_log(bytes: Seq<u8>) -> Option<LogView> {
    if bytes.len() < LOG_STATE_HEADER_LEN || !is_unified(bytes) {
        None
    } else {
        let snapshot_len = wire::field(bytes, 24, 8) as int;
        let entries_len = wire::field(bytes, 32, 8) as int;
        let entries = entries_of(bytes.skip(40 + snapshot_len));
        if 40 + snapshot_len + entries_len != bytes.len() || entries_bytes(entries).len()
            != entries_len {
            None
        } else {
            Some(
                LogView {
                    snapshot_index: wire::field(bytes, 8, 8) as u64,
                    snapshot_term: wire::field(bytes, 16, 8) as u64,
                    snapshot_data: bytes.subrange(40, 40 + snapshot_len),
                    entries,
                },
            )
        }
    }
}

/// A stored log reads back as it was.
pub proof fn law_stored_log_reads_back(log: LogView)
    requires
        forall|i: int| 0 <= i < log.entries.len() ==> storable(#[trigger] log.entries[i]),
        log_image(log).len() <= u64::MAX,
    ensures
        stored_log(log_image(log)) == Some(log),
{
    let bytes = log_image(log);
    let fields = log_fields(log);
    let snapshot_len = log.snapshot_data.len() as int;
    let entries = entries_bytes(log.entries);
    wire::lemma_byte_capacities();
    wire::lemma_coded_len(fields);
    reveal_with_fuel(wire::field_offset, 6);
    assert(wire::coded(fields).len() == 40);
    assert(bytes.take(40) =~= wire::coded(fields));
    wire::lemma_read_coded(bytes, fields, 0);
    wire::lemma_read_coded(bytes, fields, 1);
    wire::lemma_read_coded(bytes, fields, 2);
    wire::lemma_read_coded(bytes, fields, 3);
    wire::lemma_read_coded(bytes, fields, 4);
    assert(bytes.subrange(40, 40 + snapshot_len) =~= log.snapshot_data);
    assert(bytes.skip(40 + snapshot_len) =~= entries + Seq::<u8>::empty());
    lemma_entries_round_trip(log.entries, Seq::empty());
    assert(entries_of(Seq::<u8>::empty()) =~= Seq::empty());
    assert(log.entries + Seq::<EntryView>::empty() =~= log.entries);
}

/// A stored log is refused with bytes appended to it, and with bytes cut off its
/// end.
pub proof fn law_resized_log_is_refused(log: LogView, extra: Seq<u8>, kept: int)
    requires
        log_image(log).len() <= u64::MAX,
        extra.len() > 0,
        0 <= kept < log_image(log).len(),
    ensures
        stored_log(log_image(log) + extra) is None,
        stored_log(log_image(log).take(kept)) is None,
{
    let bytes = log_image(log);
    let fields = log_fields(log);
    wire::lemma_byte_capacities();
    wire::lemma_coded_len(fields);
    reveal_with_fuel(wire::field_offset, 6);
    assert(wire::coded(fields).len() == 40);
    let longer = bytes + extra;
    assert(longer.take(40) =~= wire::coded(fields));
    wire::lemma_read_coded(longer, fields, 3);
    wire::lemma_read_coded(longer, fields, 4);
    if kept >= 40 {
        let shorter = bytes.take(kept);
        assert(shorter.take(40) =~= wire::coded(fields));
        wire::lemma_read_coded(shorter, fields, 3);
        wire::lemma_read_coded(shorter, fields, 4);
    }
}

/// The snapshot's index and term in the form they had in an object of their
/// own.
pub open spec fn legacy_meta(bytes: Seq<u8>) -> (u64, u64) {
    if bytes.len() < 16 {
        (0, 0)
    } else {
        (wire::field(bytes, 0, 8) as u64, wire::field(bytes, 8, 8) as u64)
    }
}

/// The log that a node finds when it starts: the log in one piece, or the
/// three objects of before. Bytes that claim to be a log in one piece and are
/// none are never read as anything else.
pub open spec fn loaded(meta: Seq<u8>, data: Seq<u8>, log: Seq<u8>) -> Option<LogView> {
    if is_unified(log) {
        stored_log(log)
    } else {
        Some(
            LogView {
                snapshot_index: legacy_meta(meta).0,
                snapshot_term: legacy_meta(meta).1,
                snapshot_data: data,
                entries: entries_of(log),
            },
        )
    }
}

fn unified(bytes: &[u8]) -> (is: bool)
    ensures
        is == is_unified(bytes@),
{
    bytes.len() >= 8 && wire::read_le(bytes, 0, 8) == LOG_STATE_MAGIC
}

/// The log in one piece that `bytes` hold.
fn deserialize_log_state(bytes: &[u8]) -> (log: Option<DiskLogStore>)
    ensures
        match log {
            Some(log) => stored_log(bytes@) == Some(log@),
            None => stored_log(bytes@) is None,
        },
{
    let total: usize = bytes.len();
    if total < LOG_STATE_HEADER_LEN || !unified(bytes) {
        return None;
    }
    let snapshot_index: u64 = wire::read_le(bytes, 8, 8);
    let snapshot_term: u64 = wire::read_le(bytes, 16, 8);
    let snapshot_len: u64 = wire::read_le(bytes, 24, 8);
    let entries_len: u64 = wire::read_le(bytes, 32, 8);
    let room: u64 = (total - LOG_STATE_HEADER_LEN) as u64;
    if snapshot_len > room || entries_len != room - snapshot_len {
        return None;
    }
    let snapshot_end: usize = LOG_STATE_HEADER_LEN + snapshot_len as usize;
    let snapshot_data: Vec<u8> = wire::copy_range(
        bytes,
        LOG_STATE_HEADER_LEN,
        snapshot_len as usize,
    );
    let entries: Vec<LogEntry> = deserialize_entries(bytes, snapshot_end);
    let again: Vec<u8> = serialize_entries(&entries);
    if again.len() as u64 != entries_len {
        return None;
    }
    Some(DiskLogStore { snapshot_index, snapshot_term, snapshot_data, entries })
}

impl LogView {
    /// The log has as many entries as indices can number.
    pub open spec fn indexable(self) -> bool {
        self.snapshot_index + self.entries.len() <= u64::MAX
    }

    /// The index of the last entry.
    pub open spec fn last(self) -> int {
        self.snapshot_index + self.entries.len()
    }

    /// The entry at an index, if the log still has it.
    pub open spec fn entry(self, index: int) -> Option<EntryView> {
        if self.snapshot_index < index <= self.last() {
            Some(self.entries[index - self.snapshot_index - 1])
        } else {
            None
        }
    }

    /// The term of the entry at an index, as far as it is known; zero if not.
    pub open spec fn term(self, index: int) -> u64 {
        if index == 0 {
            0
        } else if index == self.snapshot_index {
            self.snapshot_term
        } else {
            match self.entry(index) {
                Some(entry) => entry.term,
                None => 0,
            }
        }
    }

    /// The term of the last entry, or of the snapshot where it has none.
    pub open spec fn newest_term(self) -> u64 {
        if self.entries.len() == 0 {
            self.snapshot_term
        } else {
            self.entries.last().term
        }
    }

    /// The entries from `index` on, as far as the log has them.
    pub open spec fn since(self, index: int) -> Seq<EntryView> {
        if index > self.last() {
            Seq::empty()
        } else if index <= self.snapshot_index {
            self.entries
        } else {
            self.entries.skip(index - self.snapshot_index - 1)
        }
    }

    /// The log without the entries from an index on.
    pub open spec fn truncated(self, index: int) -> LogView {
        if self.snapshot_index < index <= self.last() {
            LogView { entries: self.entries.take(index - self.snapshot_index - 1), ..self }
        } else {
            self
        }
    }

    /// The log with its entries up to an index left to the snapshot.
    pub open spec fn compacted(self, index: int) -> LogView {
        if self.snapshot_index < index <= self.last() {
            LogView {
                snapshot_index: index as u64,
                snapshot_term: self.term(index),
                entries: self.entries.skip(index - self.snapshot_index),
                ..self
            }
        } else {
            self
        }
    }

    /// The log has the entry that a snapshot ends with.
    pub open spec fn continues(self, index: u64, term: u64) -> bool {
        if index == self.snapshot_index {
            term == self.snapshot_term
        } else {
            self.entry(index as int) matches Some(entry) && entry.term == term
        }
    }

    /// The log with another snapshot. The entries behind it stay if the log
    /// has the entry that the snapshot ends with; otherwise all go.
    pub open spec fn with_snapshot(self, index: u64, term: u64, data: Seq<u8>) -> LogView {
        LogView {
            snapshot_index: index,
            snapshot_term: term,
            snapshot_data: data,
            entries: if self.continues(index, term) {
                self.entries.skip(index - self.snapshot_index)
            } else {
                Seq::empty()
            },
        }
    }
}

fn copy_bytes(bytes: &Vec<u8>) -> (copy: Vec<u8>)
    ensures
        copy@ == bytes@,
{
    assert(bytes@.subrange(0, bytes@.len() as int) =~= bytes@);
    wire::copy_range(bytes.as_slice(), 0, bytes.len())
}

fn copy_entry(entry: &LogEntry) -> (copy: LogEntry)
    ensures
        copy@ == entry@,
{
    LogEntry {
        term: entry.term,
        peer_id: copy_bytes(&entry.peer_id),
        data: copy_bytes(&entry.data),
    }
}

fn copy_entries(entries: &Vec<LogEntry>, from: usize) -> (copy: Vec<LogEntry>)
    requires
        from <= entries@.len(),
    ensures
        entry_views(copy@) == entry_views(entries@).skip(from as int),
{
    let mut copy: Vec<LogEntry> = Vec::new();
    let mut index: usize = from;
    while index < entries.len()
        invariant
            from <= index <= entries@.len(),
            entry_views(copy@) == entry_views(entries@).subrange(from as int, index as int),
        decreases entries@.len() - index,
    {
        let ghost before = copy@;
        copy.push(copy_entry(&entries[index]));
        index += 1;
        assert(entry_views(copy@) =~= entry_views(before).push(entry_views(entries@)[index - 1]));
        assert(entry_views(copy@) =~= entry_views(entries@).subrange(from as int, index as int));
    }
    assert(entry_views(copy@) =~= entry_views(entries@).skip(from as int));
    copy
}

/// Remove the first `count` entries.
fn drain(entries: &mut Vec<LogEntry>, count: usize)
    requires
        count <= old(entries)@.len(),
    ensures
        entry_views(final(entries)@) == entry_views(old(entries)@).skip(count as int),
{
    let ghost before = entries@;
    let tail: Vec<LogEntry> = entries.split_off(count);
    *entries = tail;
    assert(entry_views(entries@) =~= entry_views(before).skip(count as int));
}

impl DiskLogStore {
    /// The log that a node starts with, and whether it has yet to be stored in
    /// one piece, given what its three objects hold.
    pub fn new(meta: &[u8], data: Vec<u8>, log: &[u8]) -> (store: Option<(DiskLogStore, bool)>)
        ensures
            match store {
                Some((store, migrate)) => loaded(meta@, data@, log@) == Some(store@) && migrate
                    == !is_unified(log@),
                None => loaded(meta@, data@, log@) is None,
            },
    {
        if unified(log) {
            match deserialize_log_state(log) {
                Some(store) => Some((store, false)),
                None => None,
            }
        } else {
            let (snapshot_index, snapshot_term): (u64, u64) = if meta.len() < 16 {
                (0, 0)
            } else {
                (wire::read_le(meta, 0, 8), wire::read_le(meta, 8, 8))
            };
            assert(log@.skip(0) =~= log@);
            let entries: Vec<LogEntry> = deserialize_entries(log, 0);
            Some(
                (
                    DiskLogStore { snapshot_index, snapshot_term, snapshot_data: data, entries },
                    true,
                ),
            )
        }
    }

    /// The bytes to store after a change.
    pub fn image(&self) -> (bytes: Vec<u8>)
        requires
            lengths_fit(self@.entries),
        ensures
            bytes@ == log_image(self@),
    {
        let entries: Vec<u8> = serialize_entries(&self.entries);
        let mut bytes: Vec<u8> = Vec::new();
        wire::push_fields(
            &mut bytes,
            [
                (LOG_STATE_MAGIC, 8usize),
                (self.snapshot_index, 8usize),
                (self.snapshot_term, 8usize),
                (self.snapshot_data.len() as u64, 8usize),
                (entries.len() as u64, 8usize),
            ].as_slice(),
        );
        wire::push_all(&mut bytes, self.snapshot_data.as_slice());
        wire::push_all(&mut bytes, entries.as_slice());
        proof {
            assert(log_fields(self@) =~= seq![
                (LOG_STATE_MAGIC, 8usize),
                (self.snapshot_index, 8usize),
                (self.snapshot_term, 8usize),
                (self.snapshot_data@.len() as u64, 8usize),
                (entries@.len() as u64, 8usize),
            ]);
            assert(bytes@ =~= log_image(self@));
        }
        bytes
    }

    /// The index of the last entry.
    pub fn last_index(&self) -> (index: u64)
        requires
            self@.indexable(),
        ensures
            index == self@.last(),
    {
        self.snapshot_index + self.entries.len() as u64
    }

    /// The term of the last entry.
    pub fn last_term(&self) -> (term: u64)
        ensures
            term == self@.newest_term(),
    {
        if self.entries.len() == 0 {
            self.snapshot_term
        } else {
            self.entries[self.entries.len() - 1].term
        }
    }

    /// The place of an index behind the snapshot, if the log has it.
    fn place(&self, index: u64) -> (place: Option<usize>)
        ensures
            match place {
                Some(place) => place == index - self@.snapshot_index - 1 && place
                    < self.entries@.len(),
                None => !(self@.snapshot_index < index <= self@.last()),
            },
    {
        if index <= self.snapshot_index {
            return None;
        }
        let offset: u64 = index - self.snapshot_index - 1;
        if offset < self.entries.len() as u64 {
            Some(offset as usize)
        } else {
            None
        }
    }

    /// The term of the entry at an index.
    pub fn term_at(&self, index: u64) -> (term: u64)
        ensures
            term == self@.term(index as int),
    {
        if index == 0 {
            return 0;
        }
        if index == self.snapshot_index {
            return self.snapshot_term;
        }
        match self.place(index) {
            Some(place) => self.entries[place].term,
            None => 0,
        }
    }

    /// The entry at an index.
    pub fn entry_at(&self, index: u64) -> (entry: Option<LogEntry>)
        ensures
            match entry {
                Some(entry) => self@.entry(index as int) == Some(entry@),
                None => self@.entry(index as int) is None,
            },
    {
        match self.place(index) {
            Some(place) => Some(copy_entry(&self.entries[place])),
            None => None,
        }
    }

    /// Append entries.
    pub fn append(&mut self, new_entries: Vec<LogEntry>)
        ensures
            final(self)@ == (LogView {
                entries: old(self)@.entries + entry_views(new_entries@),
                ..old(self)@
            }),
    {
        let ghost added = new_entries@;
        let mut new_entries = new_entries;
        self.entries.append(&mut new_entries);
        assert(self@.entries =~= old(self)@.entries + entry_views(added));
    }

    /// Remove the entries from an index on. True if the log is to be stored.
    pub fn truncate_from(&mut self, index: u64) -> (stored: bool)
        ensures
            final(self)@ == old(self)@.truncated(index as int),
            stored == (index > old(self)@.snapshot_index),
    {
        if index <= self.snapshot_index {
            return false;
        }
        match self.place(index) {
            Some(place) => {
                self.entries.truncate(place);
                assert(self@.entries =~= old(self)@.entries.take(place as int));
            },
            None => {},
        }
        true
    }

    /// The entries from an index on.
    pub fn entries_from(&self, index: u64) -> (entries: Vec<LogEntry>)
        requires
            self@.indexable(),
        ensures
            entry_views(entries@) == self@.since(index as int),
    {
        if index <= self.snapshot_index {
            assert(self@.entries.skip(0) =~= self@.entries);
            return copy_entries(&self.entries, 0);
        }
        match self.place(index) {
            Some(place) => copy_entries(&self.entries, place),
            None => {
                let none: Vec<LogEntry> = Vec::new();
                assert(entry_views(none@) =~= Seq::empty());
                none
            },
        }
    }

    /// Leave the entries up to an index to the snapshot. True if the log is to
    /// be stored.
    pub fn compact_up_to(&mut self, index: u64) -> (stored: bool)
        ensures
            final(self)@ == old(self)@.compacted(index as int),
            stored == (old(self)@.snapshot_index < index <= old(self)@.last()),
    {
        match self.place(index) {
            Some(place) => {
                let total: usize = self.entries.len();
                assert(place < total);
                let term: u64 = self.entries[place].term;
                drain(&mut self.entries, place + 1);
                self.snapshot_index = index;
                self.snapshot_term = term;
                true
            },
            None => false,
        }
    }

    /// Replace the snapshot.
    pub fn install_snapshot(&mut self, index: u64, term: u64, data: Vec<u8>)
        ensures
            final(self)@ == old(self)@.with_snapshot(index, term, data@),
    {
        let total: usize = self.entries.len();
        let retain: Option<usize> = if index == self.snapshot_index {
            if term == self.snapshot_term {
                Some(0)
            } else {
                None
            }
        } else {
            match self.place(index) {
                Some(place) => if place < total && self.entries[place].term == term {
                    Some(place + 1)
                } else {
                    None
                },
                None => None,
            }
        };
        match retain {
            Some(count) => {
                drain(&mut self.entries, count);
            },
            None => {
                self.entries = Vec::new();
                assert(entry_views(self.entries@) =~= Seq::empty());
            },
        }
        self.snapshot_index = index;
        self.snapshot_term = term;
        self.snapshot_data = data;
    }
}


/// Removing entries from an index on keeps what is before it, and nothing else.
pub proof fn law_truncation_keeps_what_is_before(log: LogView, index: int, other: int)
    requires
        index > log.snapshot_index,
        0 <= other,
    ensures
        other < index ==> log.truncated(index).term(other) == log.term(other),
        other < index ==> log.truncated(index).entry(other) == log.entry(other),
        other >= index ==> log.truncated(index).entry(other) is None,
{
}

/// Leaving entries to the snapshot changes no term and no entry that the log
/// still has.
pub proof fn law_compaction_keeps_what_is_behind(log: LogView, index: int, other: int)
    requires
        log.indexable(),
        log.snapshot_index < index <= log.last(),
        other >= index,
    ensures
        log.compacted(index).term(other) == log.term(other),
        other > index ==> log.compacted(index).entry(other) == log.entry(other),
        log.compacted(index).last() == log.last(),
{
}

/// A snapshot that ends with an entry of the log keeps what is behind it; a
/// snapshot that does not leaves nothing behind it. Either way the log's last
/// index and term are at least the snapshot's.
pub proof fn law_snapshot_keeps_only_a_matching_tail(
    log: LogView,
    index: u64,
    term: u64,
    data: Seq<u8>,
    other: int,
)
    requires
        log.indexable(),
        other > index,
    ensures
        log.continues(index, term) ==> log.with_snapshot(index, term, data).entry(other)
            == log.entry(other),
        !log.continues(index, term) ==> log.with_snapshot(index, term, data).entry(other) is None,
        log.with_snapshot(index, term, data).indexable(),
        index > 0 ==> log.with_snapshot(index, term, data).term(index as int) == term,
{
}

/// Appended entries follow the last index; what was there stays.
pub proof fn law_append_follows_the_last_entry(log: LogView, added: Seq<EntryView>, index: int)
    requires
        0 <= index,
    ensures
        ({
            let after = LogView { entries: log.entries + added, ..log };
            &&& index <= log.last() ==> after.entry(index) == log.entry(index)
            &&& log.last() < index <= log.last() + added.len() ==> after.entry(index) == Some(
                added[index - log.last() - 1],
            )
        }),
{
}

/// Where a node is admitted to the cluster.
pub struct JoinAdmission {
    pub anchor_id: Vec<u8>,
    pub snapshot_index: u64,
}

/// A node's term, vote and join admission.
pub struct DiskPersistentStateStore {
    pub current_term: u64,
    pub voted_for: Option<Vec<u8>>,
    pub join_admission: Option<JoinAdmission>,
}

#[verifier::ext_equal]
pub struct StateView {
    pub current_term: u64,
    pub voted_for: Option<Seq<u8>>,
    /// The anchor, and the index of its snapshot.
    pub join_admission: Option<(Seq<u8>, u64)>,
}

impl View for DiskPersistentStateStore {
    type V = StateView;

    open spec fn view(&self) -> StateView {
        StateView {
            current_term: self.current_term,
            voted_for: match self.voted_for {
                Some(peer) => Some(peer@),
                None => None,
            },
            join_admission: match self.join_admission {
                Some(admission) => Some((admission.anchor_id@, admission.snapshot_index)),
                None => None,
            },
        }
    }
}

/// The longest name that is stored.
pub const MAX_NAME_LEN: usize = 256;

impl StateView {
    pub open spec fn voter(self) -> Seq<u8> {
        match self.voted_for {
            Some(peer) => peer,
            None => Seq::empty(),
        }
    }

    pub open spec fn anchor(self) -> Seq<u8> {
        match self.join_admission {
            Some((anchor, _)) => anchor,
            None => Seq::empty(),
        }
    }

    pub open spec fn admitted_at(self) -> u64 {
        match self.join_admission {
            Some((_, index)) => index,
            None => 0,
        }
    }

    /// The names are short enough to be stored.
    pub open spec fn names_fit(self) -> bool {
        self.voter().len() <= MAX_NAME_LEN && self.anchor().len() <= MAX_NAME_LEN
    }

    /// The state reads back as it was written: its names are text, and none is
    /// empty.
    pub open spec fn readable(self) -> bool {
        &&& self.names_fit()
        &&& vstd::utf8::valid_utf8(self.voter())
        &&& vstd::utf8::valid_utf8(self.anchor())
        &&& self.voted_for is Some ==> self.voter().len() > 0
        &&& self.join_admission is Some ==> self.anchor().len() > 0
    }
}

/// A stored state.
pub open spec fn state_image(state: StateView) -> Seq<u8> {
    wire::coded(seq![(state.current_term, 8usize), (state.voter().len() as u64, 4usize)])
        + state.voter() + wire::coded(
        seq![(state.admitted_at(), 8usize), (state.anchor().len() as u64, 4usize)],
    ) + state.anchor()
}

/// The state of a node that has stored none.
pub open spec fn blank_state() -> StateView {
    StateView { current_term: 0, voted_for: None, join_admission: None }
}

/// The state that `bytes` hold. A state without an admission may end behind
/// the vote.
pub open spec fn stored_state(bytes: Seq<u8>) -> Option<StateView> {
    if bytes.len() == 0 {
        Some(blank_state())
    } else if bytes.len() < 12 {
        None
    } else {
        let term = wire::field(bytes, 0, 8) as u64;
        let voted_len = wire::field(bytes, 8, 4) as int;
        let voted_end = 12 + voted_len;
        let voter = bytes.subrange(12, voted_end);
        let voted_for = if voted_len == 0 {
            None
        } else {
            Some(voter)
        };
        if voted_len > MAX_NAME_LEN || voted_end > bytes.len() || !vstd::utf8::valid_utf8(voter) {
            None
        } else if voted_end == bytes.len() {
            Some(StateView { current_term: term, voted_for, join_admission: None })
        } else if bytes.len() < voted_end + 12 {
            None
        } else {
            let index = wire::field(bytes, voted_end, 8) as u64;
            let anchor_len = wire::field(bytes, voted_end + 8, 4) as int;
            let anchor = bytes.skip(voted_end + 12);
            if anchor_len > MAX_NAME_LEN || voted_end + 12 + anchor_len != bytes.len()
                || !vstd::utf8::valid_utf8(anchor) {
                None
            } else {
                Some(
                    StateView {
                        current_term: term,
                        voted_for,
                        join_admission: if anchor_len == 0 {
                            None
                        } else {
                            Some((anchor, index))
                        },
                    },
                )
            }
        }
    }
}

/// A stored state reads back as it was.
pub proof fn law_stored_state_reads_back(state: StateView)
    requires
        state.readable(),
    ensures
        stored_state(state_image(state)) == Some(state),
{
    let first = seq![(state.current_term, 8usize), (state.voter().len() as u64, 4usize)];
    let second = seq![(state.admitted_at(), 8usize), (state.anchor().len() as u64, 4usize)];
    let bytes = state_image(state);
    let end = 12 + state.voter().len() as int;
    wire::lemma_byte_capacities();
    wire::lemma_coded_len(first);
    wire::lemma_coded_len(second);
    reveal_with_fuel(wire::field_offset, 3);
    assert(bytes.take(12) =~= wire::coded(first));
    wire::lemma_read_coded(bytes, first, 0);
    wire::lemma_read_coded(bytes, first, 1);
    assert(bytes.subrange(12, end) =~= state.voter());
    let rest = bytes.skip(end);
    assert(rest.take(12) =~= wire::coded(second));
    wire::lemma_read_coded(rest, second, 0);
    wire::lemma_read_coded(rest, second, 1);
    assert(rest.subrange(0, 8) =~= bytes.subrange(end, end + 8));
    assert(rest.subrange(8, 12) =~= bytes.subrange(end + 8, end + 12));
    assert(bytes.skip(end + 12) =~= state.anchor());
}

impl DiskPersistentStateStore {
    /// The state that a node starts with, given what its object holds.
    pub fn new(record: Option<&[u8]>) -> (store: Option<DiskPersistentStateStore>)
        ensures
            ({
                let found = match record {
                    Some(bytes) => stored_state(bytes@),
                    None => Some(blank_state()),
                };
                match store {
                    Some(store) => found == Some(store@),
                    None => found is None,
                }
            }),
    {
        let bytes: &[u8] = match record {
            Some(bytes) => bytes,
            None => {
                return Some(
                    DiskPersistentStateStore {
                        current_term: 0,
                        voted_for: None,
                        join_admission: None,
                    },
                );
            },
        };
        let total: usize = bytes.len();
        if total == 0 {
            return Some(
                DiskPersistentStateStore { current_term: 0, voted_for: None, join_admission: None },
            );
        }
        if total < 12 {
            return None;
        }
        proof {
            wire::lemma_byte_capacities();
        }
        let current_term: u64 = wire::read_le(bytes, 0, 8);
        let voted_len: usize = wire::read_le(bytes, 8, 4) as usize;
        if voted_len > MAX_NAME_LEN || voted_len > total - 12 {
            return None;
        }
        let voted_end: usize = 12 + voted_len;
        let voter: Vec<u8> = wire::copy_range(bytes, 12, voted_len);
        if !text::is_utf8(voter.as_slice()) {
            return None;
        }
        let voted_for: Option<Vec<u8>> = if voted_len == 0 {
            None
        } else {
            Some(voter)
        };
        if voted_end == total {
            return Some(
                DiskPersistentStateStore { current_term, voted_for, join_admission: None },
            );
        }
        if total - voted_end < 12 {
            return None;
        }
        let snapshot_index: u64 = wire::read_le(bytes, voted_end, 8);
        let anchor_len: usize = wire::read_le(bytes, voted_end + 8, 4) as usize;
        if anchor_len > MAX_NAME_LEN || anchor_len != total - voted_end - 12 {
            return None;
        }
        let anchor_id: Vec<u8> = wire::copy_range(bytes, voted_end + 12, anchor_len);
        assert(anchor_id@ =~= bytes@.skip(voted_end + 12));
        if !text::is_utf8(anchor_id.as_slice()) {
            return None;
        }
        let join_admission: Option<JoinAdmission> = if anchor_len == 0 {
            None
        } else {
            Some(JoinAdmission { anchor_id, snapshot_index })
        };
        Some(DiskPersistentStateStore { current_term, voted_for, join_admission })
    }

    /// The bytes to store after a change.
    pub fn image(&self) -> (bytes: Vec<u8>)
        requires
            self@.names_fit(),
        ensures
            bytes@ == state_image(self@),
    {
        let mut bytes: Vec<u8> = Vec::new();
        let voted_len: usize = match &self.voted_for {
            Some(peer) => peer.len(),
            None => 0,
        };
        let (index, anchor_len): (u64, usize) = match &self.join_admission {
            Some(admission) => (admission.snapshot_index, admission.anchor_id.len()),
            None => (0, 0),
        };
        let ghost state = self@;
        wire::push_fields(
            &mut bytes,
            [(self.current_term, 8usize), (voted_len as u64, 4usize)].as_slice(),
        );
        match &self.voted_for {
            Some(peer) => {
                wire::push_all(&mut bytes, peer.as_slice());
            },
            None => {},
        }
        let ghost first = seq![(state.current_term, 8usize), (state.voter().len() as u64, 4usize)];
        assert(first =~= seq![(self.current_term, 8usize), (voted_len as u64, 4usize)]);
        assert(bytes@ =~= wire::coded(first) + state.voter());
        wire::push_fields(
            &mut bytes,
            [(index, 8usize), (anchor_len as u64, 4usize)].as_slice(),
        );
        match &self.join_admission {
            Some(admission) => {
                wire::push_all(&mut bytes, admission.anchor_id.as_slice());
            },
            None => {},
        }
        let ghost second = seq![(state.admitted_at(), 8usize), (state.anchor().len() as u64, 4usize)];
        assert(second =~= seq![(index, 8usize), (anchor_len as u64, 4usize)]);
        assert(bytes@ =~= state_image(state));
        bytes
    }

    /// Enter a term.
    pub fn set_current_term(&mut self, term: u64)
        ensures
            final(self)@ == (StateView { current_term: term, ..old(self)@ }),
    {
        self.current_term = term;
    }

    /// Vote.
    pub fn set_voted_for(&mut self, peer_id: Option<Vec<u8>>)
        ensures
            final(self)@ == (StateView {
                voted_for: match peer_id {
                    Some(peer) => Some(peer@),
                    None => None,
                },
                ..old(self)@
            }),
    {
        self.voted_for = peer_id;
    }

    /// Note where the node is admitted.
    pub fn set_join_admission(&mut self, admission: Option<JoinAdmission>)
        ensures
            final(self)@ == (StateView {
                join_admission: match admission {
                    Some(admission) => Some((admission.anchor_id@, admission.snapshot_index)),
                    None => None,
                },
                ..old(self)@
            }),
    {
        self.join_admission = admission;
    }
}

/// The entries from an index on are those of the log, in order, up to the last.
pub proof fn law_entries_from_an_index_on(log: LogView, index: int, at: int)
    requires
        log.snapshot_index < index <= log.last(),
        0 <= at < log.since(index).len(),
    ensures
        log.since(index).len() == log.last() - index + 1,
        log.entry(index + at) == Some(log.since(index)[at]),
        log.since(log.last() + 1).len() == 0,
        log.since(log.snapshot_index as int) == log.entries,
{
}

/// The newest term is that of the last index.
pub proof fn law_newest_term_is_the_last(log: LogView)
    requires
        log.last() > 0,
    ensures
        log.newest_term() == log.term(log.last()),
        log.term(0) == 0,
        log.term(log.last() + 1) == 0,
{
}

/// Leaving entries to the snapshot leaves none of them, and keeps its data; an index
/// that is already in the snapshot, or not yet in the log, changes nothing.
pub proof fn law_compaction_drops_what_it_covers(log: LogView, index: int, other: int)
    requires
        log.indexable(),
        other <= index,
    ensures
        log.snapshot_index < index <= log.last() ==> log.compacted(index).entry(other) is None
            && log.compacted(index).snapshot_index == index && log.compacted(index).snapshot_term
            == log.term(index) && log.compacted(index).snapshot_data == log.snapshot_data,
        index <= log.snapshot_index || index > log.last() ==> log.compacted(index) == log,
        index <= log.snapshot_index || index > log.last() ==> log.truncated(index) == log,
        log.snapshot_index < index <= log.last() ==> log.truncated(index).last() == index - 1,
{
}

/// An installed snapshot is the log's snapshot, with its data.
pub proof fn law_installed_snapshot_counts(log: LogView, index: u64, term: u64, data: Seq<u8>)
    requires
        log.indexable(),
    ensures
        ({
            let after = log.with_snapshot(index, term, data);
            &&& after.snapshot_index == index
            &&& after.snapshot_term == term
            &&& after.snapshot_data == data
            &&& index > 0 ==> after.term(index as int) == term
            &&& after.last() >= index
            &&& log.snapshot_index < index <= log.last() ==> (log.continues(index, term)
                <==> log.term(index as int) == term)
            &&& index < log.snapshot_index || index > log.last() ==> after.last() == index
        }),
{
}

/// A stored entry is its term, the lengths of its peer's name and its data, and then
/// both; a log has them behind its snapshot.
pub proof fn law_log_by_its_bytes(log: LogView, entry: EntryView)
    requires
        entry.peer_id.len() <= 255,
        entry.data.len() <= u32::MAX,
        log.snapshot_data.len() <= u64::MAX,
        entries_bytes(log.entries).len() <= u64::MAX,
    ensures
        entry_bytes(entry).len() == 16 + entry.peer_id.len() + entry.data.len(),
        entry_bytes(entry).subrange(0, 8) == wire::le_bytes(entry.term as nat, 8),
        entry_bytes(entry).subrange(8, 12) == wire::le_bytes(entry.peer_id.len(), 4),
        entry_bytes(entry).subrange(12, 16) == wire::le_bytes(entry.data.len(), 4),
        entry_bytes(entry).subrange(16, 16 + entry.peer_id.len() as int) == entry.peer_id,
        entry_bytes(entry).skip(16 + entry.peer_id.len() as int) == entry.data,
        entries_bytes(log.entries.push(entry)) == entries_bytes(log.entries) + entry_bytes(entry),
        ({
            let bytes = log_image(log);
            let at = 40 + log.snapshot_data.len() as int;
            &&& bytes.subrange(0, 8) == seq![
                0x43u8, 0x52u8, 0x46u8, 0x54u8, 0x4cu8, 0x4fu8, 0x47u8, 0x31u8,
            ]
            &&& bytes.subrange(8, 16) == wire::le_bytes(log.snapshot_index as nat, 8)
            &&& bytes.subrange(16, 24) == wire::le_bytes(log.snapshot_term as nat, 8)
            &&& bytes.subrange(24, 32) == wire::le_bytes(log.snapshot_data.len(), 8)
            &&& bytes.subrange(32, 40) == wire::le_bytes(entries_bytes(log.entries).len(), 8)
            &&& bytes.subrange(40, at) == log.snapshot_data
            &&& bytes.skip(at) == entries_bytes(log.entries)
        }),
{
    lemma_entry_parts(entry);
    lemma_log_parts(log);
    assert(log.entries.push(entry).drop_last() =~= log.entries);
}

proof fn lemma_entry_parts(entry: EntryView)
    requires
        entry.peer_id.len() <= 255,
        entry.data.len() <= u32::MAX,
    ensures
        entry_bytes(entry).len() == 16 + entry.peer_id.len() + entry.data.len(),
        entry_bytes(entry).subrange(0, 8) == wire::le_bytes(entry.term as nat, 8),
        entry_bytes(entry).subrange(8, 12) == wire::le_bytes(entry.peer_id.len(), 4),
        entry_bytes(entry).subrange(12, 16) == wire::le_bytes(entry.data.len(), 4),
        entry_bytes(entry).subrange(16, 16 + entry.peer_id.len() as int) == entry.peer_id,
        entry_bytes(entry).skip(16 + entry.peer_id.len() as int) == entry.data,
{
    let bytes = entry_bytes(entry);
    let fields = entry_fields(entry);
    let head = wire::coded(fields);
    wire::lemma_coded_len(fields);
    reveal_with_fuel(wire::field_offset, 4);
    assert(head.len() == 16);
    wire::lemma_coded_field(fields, 0);
    wire::lemma_coded_field(fields, 1);
    wire::lemma_coded_field(fields, 2);
    assert(bytes.subrange(0, 8) =~= head.subrange(0, 8));
    assert(bytes.subrange(8, 12) =~= head.subrange(8, 12));
    assert(bytes.subrange(12, 16) =~= head.subrange(12, 16));
    assert(entry.peer_id.take(entry.peer_id.len() as int) =~= entry.peer_id);
    assert(bytes.subrange(16, 16 + entry.peer_id.len() as int) =~= entry.peer_id);
    assert(bytes.skip(16 + entry.peer_id.len() as int) =~= entry.data);
}

proof fn lemma_log_parts(log: LogView)
    requires
        log.snapshot_data.len() <= u64::MAX,
        entries_bytes(log.entries).len() <= u64::MAX,
    ensures
        ({
            let bytes = log_image(log);
            let at = 40 + log.snapshot_data.len() as int;
            &&& bytes.subrange(0, 8) == seq![
                0x43u8, 0x52u8, 0x46u8, 0x54u8, 0x4cu8, 0x4fu8, 0x47u8, 0x31u8,
            ]
            &&& bytes.subrange(8, 16) == wire::le_bytes(log.snapshot_index as nat, 8)
            &&& bytes.subrange(16, 24) == wire::le_bytes(log.snapshot_term as nat, 8)
            &&& bytes.subrange(24, 32) == wire::le_bytes(log.snapshot_data.len(), 8)
            &&& bytes.subrange(32, 40) == wire::le_bytes(entries_bytes(log.entries).len(), 8)
            &&& bytes.subrange(40, at) == log.snapshot_data
            &&& bytes.skip(at) == entries_bytes(log.entries)
        }),
{
    let bytes = log_image(log);
    let fields = log_fields(log);
    let head = wire::coded(fields);
    wire::lemma_coded_len(fields);
    reveal_with_fuel(wire::field_offset, 6);
    assert(head.len() == 40);
    wire::lemma_coded_field(fields, 0);
    wire::lemma_coded_field(fields, 1);
    wire::lemma_coded_field(fields, 2);
    wire::lemma_coded_field(fields, 3);
    wire::lemma_coded_field(fields, 4);
    assert(bytes.subrange(0, 8) =~= head.subrange(0, 8));
    assert(bytes.subrange(8, 16) =~= head.subrange(8, 16));
    assert(bytes.subrange(16, 24) =~= head.subrange(16, 24));
    assert(bytes.subrange(24, 32) =~= head.subrange(24, 32));
    assert(bytes.subrange(32, 40) =~= head.subrange(32, 40));
    assert(bytes.subrange(40, 40 + log.snapshot_data.len() as int) =~= log.snapshot_data);
    assert(bytes.skip(40 + log.snapshot_data.len() as int) =~= entries_bytes(log.entries));
    lemma_log_magic();
}

proof fn lemma_log_magic()
    ensures
        wire::le_bytes(LOG_STATE_MAGIC as nat, 8) == seq![
            0x43u8, 0x52u8, 0x46u8, 0x54u8, 0x4cu8, 0x4fu8, 0x47u8, 0x31u8,
        ],
{
    reveal_with_fuel(wire::le_bytes, 9);
    assert(wire::le_bytes(LOG_STATE_MAGIC as nat, 8) =~= seq![
        0x43u8, 0x52u8, 0x46u8, 0x54u8, 0x4cu8, 0x4fu8, 0x47u8, 0x31u8,
    ]);
}

/// A log that was stored in parts is still read: its entries up to the first that is
/// not whole, behind the snapshot that lies beside it.
pub proof fn law_log_in_parts_is_read(
    entries: Seq<EntryView>,
    rest: Seq<u8>,
    meta: Seq<u8>,
    data: Seq<u8>,
    index: u64,
    term: u64,
)
    requires
        forall|i: int| 0 <= i < entries.len() ==> storable(#[trigger] entries[i]),
        rest.len() < 16,
        !is_unified(entries_bytes(entries) + rest),
        meta == wire::le_bytes(index as nat, 8) + wire::le_bytes(term as nat, 8),
    ensures
        loaded(meta, data, entries_bytes(entries) + rest) == Some(
            LogView { snapshot_index: index, snapshot_term: term, snapshot_data: data, entries },
        ),
        loaded(Seq::empty(), data, entries_bytes(entries) + rest) == Some(
            LogView { snapshot_index: 0, snapshot_term: 0, snapshot_data: data, entries },
        ),
{
    lemma_entries_round_trip(entries, rest);
    assert(entries_of(rest) =~= Seq::empty());
    assert(entries + entries_of(rest) =~= entries);
    wire::lemma_byte_capacities();
    wire::lemma_le_bytes_len(index as nat, 8);
    wire::lemma_le_bytes_len(term as nat, 8);
    wire::lemma_le_round_trip(index as nat, 8);
    wire::lemma_le_round_trip(term as nat, 8);
    assert(meta.subrange(0, 8) =~= wire::le_bytes(index as nat, 8));
    assert(meta.subrange(8, 16) =~= wire::le_bytes(term as nat, 8));
}

/// A stored state is its term and vote, and then its admission, each name behind its
/// length; a state from before there were admissions ends with the vote.
pub proof fn law_state_by_its_bytes(state: StateView)
    requires
        state.readable(),
    ensures
        ({
            let bytes = state_image(state);
            let end = 12 + state.voter().len() as int;
            &&& bytes.len() == end + 12 + state.anchor().len()
            &&& bytes.subrange(0, 8) == wire::le_bytes(state.current_term as nat, 8)
            &&& bytes.subrange(8, 12) == wire::le_bytes(state.voter().len(), 4)
            &&& bytes.subrange(12, end) == state.voter()
            &&& bytes.subrange(end, end + 8) == wire::le_bytes(state.admitted_at() as nat, 8)
            &&& bytes.subrange(end + 8, end + 12) == wire::le_bytes(state.anchor().len(), 4)
            &&& bytes.skip(end + 12) == state.anchor()
            &&& stored_state(bytes.take(end)) == Some(StateView { join_admission: None, ..state })
            &&& state.voter().len() <= 256 && state.anchor().len() <= 256
        }),
        stored_state(Seq::empty()) == Some(
            StateView { current_term: 0, voted_for: None, join_admission: None },
        ),
{
    let first = seq![(state.current_term, 8usize), (state.voter().len() as u64, 4usize)];
    let second = seq![(state.admitted_at(), 8usize), (state.anchor().len() as u64, 4usize)];
    let bytes = state_image(state);
    let end = 12 + state.voter().len() as int;
    wire::lemma_byte_capacities();
    wire::lemma_coded_len(first);
    wire::lemma_coded_len(second);
    reveal_with_fuel(wire::field_offset, 3);
    let head = wire::coded(first);
    let tail = wire::coded(second);
    wire::lemma_coded_field(first, 0);
    wire::lemma_coded_field(first, 1);
    wire::lemma_coded_field(second, 0);
    wire::lemma_coded_field(second, 1);
    assert(bytes.subrange(0, 8) =~= head.subrange(0, 8));
    assert(bytes.subrange(8, 12) =~= head.subrange(8, 12));
    assert(bytes.subrange(12, end) =~= state.voter());
    assert(bytes.subrange(end, end + 8) =~= tail.subrange(0, 8));
    assert(bytes.subrange(end + 8, end + 12) =~= tail.subrange(8, 12));
    assert(bytes.skip(end + 12) =~= state.anchor());
    let short = bytes.take(end);
    assert(short.take(12) =~= head);
    wire::lemma_read_coded(short, first, 0);
    wire::lemma_read_coded(short, first, 1);
    assert(short.subrange(12, end) =~= state.voter());
}

} // verus!
