//! Resource history: samples of the kernel's statistics snapshot, the history
//! image that operators read, and the archive that keeps older samples.
//!
//! The archive is a bounded ring of fixed-size object-store chunks. Each flush
//! rewrites the active chunk, so appends never require more than one directory
//! slot per chunk. Sequence numbers let an offline reader detect overwritten
//! history after the ring wraps. Word indices and magic numbers are those of
//! the statistics and observability protocols and come from the caller.
use std::collections::VecDeque;

use vstd::prelude::*;

use crate::wire;

verus! {

/// Upper bound on records read from one kernel snapshot. The kernel bounds its
/// own tables well below this; the check keeps a corrupt header from driving a
/// long loop.
pub const MAX_SNAPSHOT_RECORDS: u64 = 4096;

/// A flush that takes this long has failed.
pub const FLUSH_TIMEOUT_MS: u64 = 2_000;

/// Aggregated sample retained in the history ring.
#[derive(Clone, Copy, Debug, Default, PartialEq, Eq, Structural)]
pub struct HistorySample {
    pub ticks: u64,
    pub free_frames: u64,
    pub usable_frames: u64,
    pub logical_processors: u64,
    pub cpu_busy_ticks: u64,
    pub threads: u64,
    pub domains: u64,
    pub owned_frames: u64,
    pub heap_allocated_bytes: u64,
    pub heap_peak_bytes: u64,
    pub stack_pages: u64,
    pub stack_used_high_water: u64,
    pub threads_high_water: u64,
}

/// Where the statistics snapshot keeps its words.
#[derive(Clone, Copy, Debug, PartialEq, Eq)]
pub struct SnapshotLayout {
    pub magic_number: u64,
    pub version_number: u64,
    pub header_words: u16,
    pub thread_words: u16,
    pub domain_words: u16,
    pub magic: u16,
    pub version: u16,
    pub record_bytes: u16,
    pub domain_record_bytes: u16,
    pub monotonic_ticks: u16,
    pub free_frames: u16,
    pub usable_frames: u16,
    pub logical_processors: u16,
    pub cpu_busy_ticks: u16,
    pub record_count: u16,
    pub domain_record_count: u16,
    pub thread_stack_reserved_pages: u16,
    pub thread_stack_used_pages: u16,
    pub domain_owned_frames: u16,
    pub domain_heap_status_valid: u16,
    pub domain_heap_allocated_bytes: u16,
    pub domain_heap_peak_bytes: u16,
    pub domain_stack_pages_used_high_water: u16,
    pub domain_threads_high_water: u16,
}

/// The little-endian word at `index`, where the bytes reach that far.
pub open spec fn word(bytes: Seq<u8>, index: int) -> Option<u64> {
    if 0 <= index && 8 * index + 8 <= bytes.len() {
        Some(wire::field(bytes, 8 * index, 8) as u64)
    } else {
        None
    }
}

/// Read the word at `index`.
pub fn read_word(bytes: &[u8], index: usize) -> (value: Option<u64>)
    ensures
        value == word(bytes@, index as int),
{
    let total: usize = bytes.len();
    if index >= total / 8 {
        return None;
    }
    let value: u64 = wire::read_le(bytes, 8 * index, 8);
    Some(value)
}

/// The sum, or the largest value where it does not fit.
pub open spec fn saturating_sum(left: u64, right: u64) -> u64 {
    if left + right > u64::MAX {
        u64::MAX
    } else {
        (left + right) as u64
    }
}

/// The larger value.
pub open spec fn larger(left: u64, right: u64) -> u64 {
    if left >= right {
        left
    } else {
        right
    }
}

fn saturating(left: u64, right: u64) -> (sum: u64)
    ensures
        sum == saturating_sum(left, right),
{
    if left > u64::MAX - right {
        u64::MAX
    } else {
        left + right
    }
}

fn max_of(left: u64, right: u64) -> (max: u64)
    ensures
        max == larger(left, right),
{
    if left >= right {
        left
    } else {
        right
    }
}

/// Totals over the thread records.
#[derive(Clone, Copy, Debug, PartialEq, Eq, Structural)]
pub struct ThreadTotals {
    pub stack_pages: u64,
    pub stack_used_high_water: u64,
}

/// The totals of the first `count` thread records, where all are present.
pub open spec fn thread_totals(bytes: Seq<u8>, layout: SnapshotLayout, count: int) -> Option<
    ThreadTotals,
>
    decreases count,
{
    if count <= 0 {
        Some(ThreadTotals { stack_pages: 0, stack_used_high_water: 0 })
    } else {
        let base = layout.header_words + (count - 1) * layout.thread_words;
        match (
            thread_totals(bytes, layout, count - 1),
            word(bytes, base + layout.thread_stack_reserved_pages),
            word(bytes, base + layout.thread_stack_used_pages),
        ) {
            (Some(totals), Some(pages), Some(used)) => Some(
                ThreadTotals {
                    stack_pages: saturating_sum(totals.stack_pages, pages),
                    stack_used_high_water: larger(totals.stack_used_high_water, used),
                },
            ),
            _ => None,
        }
    }
}

/// Totals over the domain records.
#[derive(Clone, Copy, Debug, PartialEq, Eq, Structural)]
pub struct DomainTotals {
    pub owned_frames: u64,
    pub heap_allocated_bytes: u64,
    pub heap_peak_bytes: u64,
    pub stack_used_high_water: u64,
    pub threads_high_water: u64,
}

/// The totals with the domain record at word `base` added. Heap figures count
/// only where the record says that they are valid.
pub open spec fn domain_added(
    bytes: Seq<u8>,
    layout: SnapshotLayout,
    base: int,
    totals: DomainTotals,
) -> Option<DomainTotals> {
    match (
        word(bytes, base + layout.domain_owned_frames),
        word(bytes, base + layout.domain_heap_status_valid),
        word(bytes, base + layout.domain_stack_pages_used_high_water),
        word(bytes, base + layout.domain_threads_high_water),
    ) {
        (Some(owned), Some(valid), Some(stack_used), Some(threads)) => {
            let allocated = word(bytes, base + layout.domain_heap_allocated_bytes);
            let peak = word(bytes, base + layout.domain_heap_peak_bytes);
            if valid != 0 && (allocated is None || peak is None) {
                None
            } else {
                Some(
                    DomainTotals {
                        owned_frames: saturating_sum(totals.owned_frames, owned),
                        heap_allocated_bytes: if valid != 0 {
                            saturating_sum(totals.heap_allocated_bytes, allocated->0)
                        } else {
                            totals.heap_allocated_bytes
                        },
                        heap_peak_bytes: if valid != 0 {
                            saturating_sum(totals.heap_peak_bytes, peak->0)
                        } else {
                            totals.heap_peak_bytes
                        },
                        stack_used_high_water: larger(totals.stack_used_high_water, stack_used),
                        threads_high_water: larger(totals.threads_high_water, threads),
                    },
                )
            }
        },
        _ => None,
    }
}

/// The totals of the first `count` domain records from word `start` on, where
/// all are present. `stack_used` is the high water of the threads.
pub open spec fn domain_totals(
    bytes: Seq<u8>,
    layout: SnapshotLayout,
    start: int,
    stack_used: u64,
    count: int,
) -> Option<DomainTotals>
    decreases count,
{
    if count <= 0 {
        Some(
            DomainTotals {
                owned_frames: 0,
                heap_allocated_bytes: 0,
                heap_peak_bytes: 0,
                stack_used_high_water: stack_used,
                threads_high_water: 0,
            },
        )
    } else {
        match domain_totals(bytes, layout, start, stack_used, count - 1) {
            Some(totals) => domain_added(
                bytes,
                layout,
                start + (count - 1) * layout.domain_words,
                totals,
            ),
            None => None,
        }
    }
}

/// The header names this snapshot format.
pub open spec fn known_format(bytes: Seq<u8>, layout: SnapshotLayout) -> bool {
    &&& word(bytes, layout.magic as int) == Some(layout.magic_number)
    &&& word(bytes, layout.version as int) == Some(layout.version_number)
    &&& word(bytes, layout.record_bytes as int) == Some((8 * layout.thread_words) as u64)
    &&& word(bytes, layout.domain_record_bytes as int) == Some((8 * layout.domain_words) as u64)
}

/// The sample that a statistics snapshot holds.
pub open spec fn sampled(bytes: Seq<u8>, layout: SnapshotLayout) -> Option<HistorySample> {
    match (
        word(bytes, layout.monotonic_ticks as int),
        word(bytes, layout.free_frames as int),
        word(bytes, layout.usable_frames as int),
        word(bytes, layout.logical_processors as int),
        word(bytes, layout.cpu_busy_ticks as int),
        word(bytes, layout.record_count as int),
        word(bytes, layout.domain_record_count as int),
    ) {
        (
            Some(ticks),
            Some(free_frames),
            Some(usable_frames),
            Some(logical_processors),
            Some(cpu_busy_ticks),
            Some(threads),
            Some(domains),
        ) => if !known_format(bytes, layout) || threads > MAX_SNAPSHOT_RECORDS || domains
            > MAX_SNAPSHOT_RECORDS {
            None
        } else {
            match thread_totals(bytes, layout, threads as int) {
                Some(by_thread) => match domain_totals(
                    bytes,
                    layout,
                    layout.header_words + threads * layout.thread_words,
                    by_thread.stack_used_high_water,
                    domains as int,
                ) {
                    Some(by_domain) => Some(
                        HistorySample {
                            ticks,
                            free_frames,
                            usable_frames,
                            logical_processors,
                            cpu_busy_ticks,
                            threads,
                            domains,
                            owned_frames: by_domain.owned_frames,
                            heap_allocated_bytes: by_domain.heap_allocated_bytes,
                            heap_peak_bytes: by_domain.heap_peak_bytes,
                            stack_pages: by_thread.stack_pages,
                            stack_used_high_water: by_domain.stack_used_high_water,
                            threads_high_water: by_domain.threads_high_water,
                        },
                    ),
                    None => None,
                },
                None => None,
            }
        },
        _ => None,
    }
}

proof fn lemma_thread_totals_missing(bytes: Seq<u8>, layout: SnapshotLayout, at: int, count: int)
    requires
        thread_totals(bytes, layout, at) is None,
        at <= count,
    ensures
        thread_totals(bytes, layout, count) is None,
    decreases count - at,
{
    if at < count {
        lemma_thread_totals_missing(bytes, layout, at, count - 1);
        if count <= 0 {
            assert(thread_totals(bytes, layout, at) is Some);
        }
    }
}

proof fn lemma_domain_totals_missing(
    bytes: Seq<u8>,
    layout: SnapshotLayout,
    start: int,
    stack_used: u64,
    at: int,
    count: int,
)
    requires
        domain_totals(bytes, layout, start, stack_used, at) is None,
        at <= count,
    ensures
        domain_totals(bytes, layout, start, stack_used, count) is None,
    decreases count - at,
{
    if at < count {
        lemma_domain_totals_missing(bytes, layout, start, stack_used, at, count - 1);
        if count <= 0 {
            assert(domain_totals(bytes, layout, start, stack_used, at) is Some);
        }
    }
}

/// A record's base word stays small.
proof fn lemma_record_base(count: int, index: int, width: u16)
    requires
        0 <= index <= count <= 4096,
    ensures
        0 <= index * width <= 4096 * 0xffff,
{
    assert(0 <= index * width <= 4096 * 0xffff) by (nonlinear_arith)
        requires
            0 <= index <= 4096,
            0 <= width <= 0xffff,
    ;
}

fn total_threads(bytes: &[u8], layout: &SnapshotLayout, count: usize) -> (totals: Option<
    ThreadTotals,
>)
    requires
        count <= MAX_SNAPSHOT_RECORDS,
    ensures
        totals == thread_totals(bytes@, *layout, count as int),
{
    let mut totals: ThreadTotals = ThreadTotals { stack_pages: 0, stack_used_high_water: 0 };
    let mut index: usize = 0;
    while index < count
        invariant
            index <= count <= 4096,
            thread_totals(bytes@, *layout, index as int) == Some(totals),
        decreases count - index,
    {
        proof {
            lemma_record_base(count as int, index as int, layout.thread_words);
        }
        let base: usize = layout.header_words as usize + index * (layout.thread_words as usize);
        let pages: Option<u64> = read_word(bytes, base + layout.thread_stack_reserved_pages as usize);
        let used: Option<u64> = read_word(bytes, base + layout.thread_stack_used_pages as usize);
        match (pages, used) {
            (Some(pages), Some(used)) => {
                totals = ThreadTotals {
                    stack_pages: saturating(totals.stack_pages, pages),
                    stack_used_high_water: max_of(totals.stack_used_high_water, used),
                };
            },
            _ => {
                proof {
                    lemma_thread_totals_missing(bytes@, *layout, index + 1, count as int);
                }
                return None;
            },
        }
        index += 1;
    }
    Some(totals)
}

fn add_domain(bytes: &[u8], layout: &SnapshotLayout, base: usize, totals: &DomainTotals) -> (added:
    Option<DomainTotals>)
    requires
        base <= 0x3fff_ffff,
    ensures
        added == domain_added(bytes@, *layout, base as int, *totals),
{
    let owned: u64 = match read_word(bytes, base + layout.domain_owned_frames as usize) {
        Some(owned) => owned,
        None => {
            return None;
        },
    };
    let valid: u64 = match read_word(bytes, base + layout.domain_heap_status_valid as usize) {
        Some(valid) => valid,
        None => {
            return None;
        },
    };
    let mut allocated: u64 = totals.heap_allocated_bytes;
    let mut peak: u64 = totals.heap_peak_bytes;
    if valid != 0 {
        match read_word(bytes, base + layout.domain_heap_allocated_bytes as usize) {
            Some(more) => {
                allocated = saturating(allocated, more);
            },
            None => {
                return None;
            },
        }
        match read_word(bytes, base + layout.domain_heap_peak_bytes as usize) {
            Some(more) => {
                peak = saturating(peak, more);
            },
            None => {
                return None;
            },
        }
    }
    let stack_used: u64 = match read_word(
        bytes,
        base + layout.domain_stack_pages_used_high_water as usize,
    ) {
        Some(used) => used,
        None => {
            return None;
        },
    };
    let threads: u64 = match read_word(bytes, base + layout.domain_threads_high_water as usize) {
        Some(threads) => threads,
        None => {
            return None;
        },
    };
    Some(
        DomainTotals {
            owned_frames: saturating(totals.owned_frames, owned),
            heap_allocated_bytes: allocated,
            heap_peak_bytes: peak,
            stack_used_high_water: max_of(totals.stack_used_high_water, stack_used),
            threads_high_water: max_of(totals.threads_high_water, threads),
        },
    )
}

fn total_domains(
    bytes: &[u8],
    layout: &SnapshotLayout,
    start: usize,
    stack_used: u64,
    count: usize,
) -> (totals: Option<DomainTotals>)
    requires
        count <= MAX_SNAPSHOT_RECORDS,
        start <= 0x1fff_ffff,
    ensures
        totals == domain_totals(bytes@, *layout, start as int, stack_used, count as int),
{
    let mut totals: DomainTotals = DomainTotals {
        owned_frames: 0,
        heap_allocated_bytes: 0,
        heap_peak_bytes: 0,
        stack_used_high_water: stack_used,
        threads_high_water: 0,
    };
    let mut index: usize = 0;
    while index < count
        invariant
            index <= count <= 4096,
            start <= 0x1fff_ffff,
            domain_totals(bytes@, *layout, start as int, stack_used, index as int) == Some(totals),
        decreases count - index,
    {
        proof {
            lemma_record_base(count as int, index as int, layout.domain_words);
        }
        let base: usize = start + index * (layout.domain_words as usize);
        match add_domain(bytes, layout, base, &totals) {
            Some(added) => {
                totals = added;
            },
            None => {
                proof {
                    lemma_domain_totals_missing(
                        bytes@,
                        *layout,
                        start as int,
                        stack_used,
                        index + 1,
                        count as int,
                    );
                }
                return None;
            },
        }
        index += 1;
    }
    Some(totals)
}

/// Aggregate a statistics snapshot. `None` where the snapshot has another
/// format, is too short or claims too many records.
pub fn snapshot_sample(bytes: &[u8], layout: &SnapshotLayout) -> (sample: Option<HistorySample>)
    ensures
        sample == sampled(bytes@, *layout),
{
    let thread_bytes: u64 = layout.thread_words as u64 * 8;
    let domain_bytes: u64 = layout.domain_words as u64 * 8;
    match read_word(bytes, layout.magic as usize) {
        Some(magic) => {
            if magic != layout.magic_number {
                return None;
            }
        },
        None => {
            return None;
        },
    }
    match read_word(bytes, layout.version as usize) {
        Some(version) => {
            if version != layout.version_number {
                return None;
            }
        },
        None => {
            return None;
        },
    }
    match read_word(bytes, layout.record_bytes as usize) {
        Some(width) => {
            if width != thread_bytes {
                return None;
            }
        },
        None => {
            return None;
        },
    }
    match read_word(bytes, layout.domain_record_bytes as usize) {
        Some(width) => {
            if width != domain_bytes {
                return None;
            }
        },
        None => {
            return None;
        },
    }
    assert(known_format(bytes@, *layout));
    let ticks: Option<u64> = read_word(bytes, layout.monotonic_ticks as usize);
    let free: Option<u64> = read_word(bytes, layout.free_frames as usize);
    let usable: Option<u64> = read_word(bytes, layout.usable_frames as usize);
    let processors: Option<u64> = read_word(bytes, layout.logical_processors as usize);
    let busy: Option<u64> = read_word(bytes, layout.cpu_busy_ticks as usize);
    let threads: Option<u64> = read_word(bytes, layout.record_count as usize);
    let domains: Option<u64> = read_word(bytes, layout.domain_record_count as usize);
    match (ticks, free, usable, processors, busy, threads, domains) {
        (
            Some(ticks),
            Some(free_frames),
            Some(usable_frames),
            Some(logical_processors),
            Some(cpu_busy_ticks),
            Some(threads),
            Some(domains),
        ) => {
            if threads > MAX_SNAPSHOT_RECORDS || domains > MAX_SNAPSHOT_RECORDS {
                return None;
            }
            let by_thread: ThreadTotals = match total_threads(bytes, layout, threads as usize) {
                Some(totals) => totals,
                None => {
                    return None;
                },
            };
            proof {
                lemma_record_base(4096, threads as int, layout.thread_words);
            }
            let start: usize = layout.header_words as usize + (threads as usize) * (
            layout.thread_words as usize);
            let by_domain: DomainTotals = match total_domains(
                bytes,
                layout,
                start,
                by_thread.stack_used_high_water,
                domains as usize,
            ) {
                Some(totals) => totals,
                None => {
                    return None;
                },
            };
            Some(
                HistorySample {
                    ticks,
                    free_frames,
                    usable_frames,
                    logical_processors,
                    cpu_busy_ticks,
                    threads,
                    domains,
                    owned_frames: by_domain.owned_frames,
                    heap_allocated_bytes: by_domain.heap_allocated_bytes,
                    heap_peak_bytes: by_domain.heap_peak_bytes,
                    stack_pages: by_thread.stack_pages,
                    stack_used_high_water: by_domain.stack_used_high_water,
                    threads_high_water: by_domain.threads_high_water,
                },
            )
        },
        _ => None,
    }
}

/// `words` with each field written in turn at its index from `base` on.
pub open spec fn assigned(words: Seq<u64>, base: int, fields: Seq<(u16, u64)>) -> Seq<u64>
    decreases fields.len(),
{
    if fields.len() == 0 {
        words
    } else {
        assigned(words, base, fields.drop_last()).update(
            base + fields.last().0,
            fields.last().1,
        )
    }
}

/// Every field lies inside a record of `width` words.
pub open spec fn fields_within(fields: Seq<(u16, u64)>, width: int) -> bool {
    forall|i: int| 0 <= i < fields.len() ==> (#[trigger] fields[i]).0 < width
}

fn assign(words: &mut Vec<u64>, base: usize, width: u16, fields: &[(u16, u64)])
    requires
        fields_within(fields@, width as int),
        base + width <= old(words)@.len(),
    ensures
        final(words)@ == assigned(old(words)@, base as int, fields@),
        final(words)@.len() == old(words)@.len(),
{
    let ghost start = words@;
    let count: usize = words.len();
    let mut index: usize = 0;
    assert(fields@.take(0) =~= Seq::<(u16, u64)>::empty());
    while index < fields.len()
        invariant
            index <= fields@.len(),
            fields_within(fields@, width as int),
            base + width <= count == words@.len() == start.len(),
            words@ == assigned(start, base as int, fields@.take(index as int)),
        decreases fields@.len() - index,
    {
        let (at, value): (u16, u64) = fields[index];
        assert(fields@[index as int].0 < width);
        words.set(base + at as usize, value);
        proof {
            let next = fields@.take(index + 1);
            assert(next.drop_last() =~= fields@.take(index as int));
        }
        index += 1;
    }
    assert(fields@.take(index as int) =~= fields@);
}

/// Where a record of the history or the archive keeps a sample's figures.
#[derive(Clone, Copy, Debug, PartialEq, Eq)]
pub struct SampleLayout {
    pub monotonic_ticks: u16,
    pub threads: u16,
    pub domains: u16,
    pub owned_frames: u16,
    pub stack_pages: u16,
    pub stack_used_high_water: u16,
    pub threads_high_water: u16,
    pub free_frames: u16,
    pub usable_frames: u16,
    pub logical_processors: u16,
    pub cpu_busy_ticks: u16,
    pub heap_allocated_bytes: u16,
    pub heap_peak_bytes: u16,
}

impl SampleLayout {
    /// Every figure lies inside a record of `width` words.
    pub open spec fn within(self, width: int) -> bool {
        &&& self.monotonic_ticks < width
        &&& self.threads < width
        &&& self.domains < width
        &&& self.owned_frames < width
        &&& self.stack_pages < width
        &&& self.stack_used_high_water < width
        &&& self.threads_high_water < width
        &&& self.free_frames < width
        &&& self.usable_frames < width
        &&& self.logical_processors < width
        &&& self.cpu_busy_ticks < width
        &&& self.heap_allocated_bytes < width
        &&& self.heap_peak_bytes < width
    }

    /// Whether every figure lies inside a record of `width` words.
    pub fn is_within(&self, width: u16) -> (ok: bool)
        ensures
            ok == self.within(width as int),
    {
        self.monotonic_ticks < width && self.threads < width && self.domains < width
            && self.owned_frames < width && self.stack_pages < width
            && self.stack_used_high_water < width && self.threads_high_water < width
            && self.free_frames < width && self.usable_frames < width
            && self.logical_processors < width && self.cpu_busy_ticks < width
            && self.heap_allocated_bytes < width && self.heap_peak_bytes < width
    }
}

/// The fields of a sample.
pub open spec fn sample_fields(layout: SampleLayout, sample: HistorySample) -> Seq<(u16, u64)> {
    seq![
        (layout.monotonic_ticks, sample.ticks),
        (layout.threads, sample.threads),
        (layout.domains, sample.domains),
        (layout.owned_frames, sample.owned_frames),
        (layout.stack_pages, sample.stack_pages),
        (layout.stack_used_high_water, sample.stack_used_high_water),
        (layout.threads_high_water, sample.threads_high_water),
        (layout.free_frames, sample.free_frames),
        (layout.usable_frames, sample.usable_frames),
        (layout.logical_processors, sample.logical_processors),
        (layout.cpu_busy_ticks, sample.cpu_busy_ticks),
        (layout.heap_allocated_bytes, sample.heap_allocated_bytes),
        (layout.heap_peak_bytes, sample.heap_peak_bytes),
    ]
}

fn fields_of(layout: &SampleLayout, sample: &HistorySample) -> (fields: [(u16, u64); 13])
    ensures
        fields@ == sample_fields(*layout, *sample),
{
    let fields: [(u16, u64); 13] = [
        (layout.monotonic_ticks, sample.ticks),
        (layout.threads, sample.threads),
        (layout.domains, sample.domains),
        (layout.owned_frames, sample.owned_frames),
        (layout.stack_pages, sample.stack_pages),
        (layout.stack_used_high_water, sample.stack_used_high_water),
        (layout.threads_high_water, sample.threads_high_water),
        (layout.free_frames, sample.free_frames),
        (layout.usable_frames, sample.usable_frames),
        (layout.logical_processors, sample.logical_processors),
        (layout.cpu_busy_ticks, sample.cpu_busy_ticks),
        (layout.heap_allocated_bytes, sample.heap_allocated_bytes),
        (layout.heap_peak_bytes, sample.heap_peak_bytes),
    ];
    assert(fields@ =~= sample_fields(*layout, *sample));
    fields
}

/// Zero words.
pub open spec fn zero_words(count: nat) -> Seq<u64> {
    Seq::new(count, |i: int| 0u64)
}

fn zeroed(count: usize) -> (words: Vec<u64>)
    ensures
        words@ == zero_words(count as nat),
{
    let mut words: Vec<u64> = Vec::new();
    let mut index: usize = 0;
    while index < count
        invariant
            index <= count,
            words@ == zero_words(index as nat),
        decreases count - index,
    {
        words.push(0);
        index += 1;
        assert(words@ =~= zero_words(index as nat));
    }
    words
}

/// The history image format.
#[derive(Clone, Copy, Debug, PartialEq, Eq)]
pub struct HistoryLayout {
    pub magic_number: u64,
    pub version_number: u64,
    pub sample_interval: u64,
    pub header_words: u16,
    pub record_words: u16,
    pub magic: u16,
    pub version: u16,
    pub record_bytes: u16,
    pub record_count: u16,
    pub counter_frequency_hz: u16,
    pub sample_interval_ms: u16,
    pub sample: SampleLayout,
}

impl HistoryLayout {
    pub open spec fn wf(self) -> bool {
        &&& self.magic < self.header_words
        &&& self.version < self.header_words
        &&& self.record_bytes < self.header_words
        &&& self.record_count < self.header_words
        &&& self.counter_frequency_hz < self.header_words
        &&& self.sample_interval_ms < self.header_words
        &&& self.sample.within(self.record_words as int)
    }

    /// Whether the words are where they may be.
    pub fn is_wf(&self) -> (ok: bool)
        ensures
            ok == self.wf(),
    {
        self.magic < self.header_words && self.version < self.header_words
            && self.record_bytes < self.header_words && self.record_count < self.header_words
            && self.counter_frequency_hz < self.header_words
            && self.sample_interval_ms < self.header_words
            && self.sample.is_within(self.record_words)
    }

    /// The words of an image of `count` records.
    pub open spec fn words(self, count: int) -> int {
        self.header_words + count * self.record_words
    }
}

/// The header fields of a history image of `count` records.
pub open spec fn history_header(layout: HistoryLayout, frequency_hz: u64, count: int) -> Seq<
    (u16, u64),
> {
    seq![
        (layout.magic, layout.magic_number),
        (layout.version, layout.version_number),
        (layout.record_bytes, (8 * layout.record_words) as u64),
        (layout.record_count, count as u64),
        (layout.counter_frequency_hz, frequency_hz),
        (layout.sample_interval_ms, layout.sample_interval),
    ]
}

/// `words` with the first `count` samples written one record after another.
pub open spec fn samples_assigned(
    words: Seq<u64>,
    layout: HistoryLayout,
    history: Seq<HistorySample>,
    count: int,
) -> Seq<u64>
    decreases count,
{
    if count <= 0 {
        words
    } else {
        assigned(
            samples_assigned(words, layout, history, count - 1),
            layout.words(count - 1),
            sample_fields(layout.sample, history[count - 1]),
        )
    }
}

/// The words of the history image.
pub open spec fn history_words(
    layout: HistoryLayout,
    frequency_hz: u64,
    history: Seq<HistorySample>,
) -> Seq<u64> {
    samples_assigned(
        assigned(
            zero_words(layout.words(history.len() as int) as nat),
            0,
            history_header(layout, frequency_hz, history.len() as int),
        ),
        layout,
        history,
        history.len() as int,
    )
}

/// A record ends within an image of more records.
proof fn lemma_record_fits(header: u16, width: u16, index: int, count: int)
    requires
        0 <= index < count,
    ensures
        0 <= header + index * width,
        header + index * width + width <= header + count * width,
{
    assert(0 <= index * width && index * width + width <= count * width) by (nonlinear_arith)
        requires
            0 <= index < count,
            0 <= width,
    ;
}

/// The history image: a header and one record for each sample, as
/// little-endian words.
pub fn history_image(
    layout: &HistoryLayout,
    frequency_hz: u64,
    history: &VecDeque<HistorySample>,
) -> (image: Vec<u8>)
    requires
        layout.wf(),
        8 * layout.words(history@.len() as int) <= usize::MAX,
    ensures
        image@ == wire::le_list(history_words(*layout, frequency_hz, history@)),
        image@.len() == 8 * layout.words(history@.len() as int),
{
    let count: usize = history.len();
    proof {
        let n = count as int;
        let w = layout.record_words as int;
        assert(0 <= n * w) by (nonlinear_arith)
            requires
                0 <= n,
                0 <= w,
        ;
    }
    let total: usize = layout.header_words as usize + count * (layout.record_words as usize);
    let mut words: Vec<u64> = zeroed(total);
    let header: [(u16, u64); 6] = [
        (layout.magic, layout.magic_number),
        (layout.version, layout.version_number),
        (layout.record_bytes, 8 * layout.record_words as u64),
        (layout.record_count, count as u64),
        (layout.counter_frequency_hz, frequency_hz),
        (layout.sample_interval_ms, layout.sample_interval),
    ];
    assert(header@ =~= history_header(*layout, frequency_hz, count as int));
    assign(&mut words, 0, layout.header_words, &header);
    let ghost start = words@;
    let mut index: usize = 0;
    while index < count
        invariant
            layout.wf(),
            index <= count == history@.len(),
            total == layout.words(count as int),
            words@.len() == total,
            words@ == samples_assigned(start, *layout, history@, index as int),
        decreases count - index,
    {
        proof {
            lemma_record_fits(layout.header_words, layout.record_words, index as int, count as int);
        }
        let base: usize = layout.header_words as usize + index * (layout.record_words as usize);
        let fields: [(u16, u64); 13] = fields_of(&layout.sample, &history[index]);
        assign(&mut words, base, layout.record_words, &fields);
        index += 1;
    }
    let mut image: Vec<u8> = Vec::new();
    wire::push_le_list(&mut image, &words);
    proof {
        wire::lemma_le_list_len(words@);
        assert(image@ =~= wire::le_list(words@));
    }
    image
}

/// The archive's chunk format and place in the object store.
#[derive(Clone, Copy, Debug, PartialEq, Eq)]
pub struct ArchiveLayout {
    pub magic_number: u64,
    pub version_number: u64,
    /// The object of the first chunk.
    pub base_id: u64,
    pub chunks: u64,
    pub chunk_bytes: usize,
    pub header_words: u16,
    pub record_words: u16,
    pub magic: u16,
    pub version: u16,
    pub chunk_index: u16,
    pub session_ticks: u16,
    pub first_sequence: u16,
    pub record_count: u16,
    pub counter_frequency_hz: u16,
    pub sequence: u16,
    pub sample: SampleLayout,
}

impl ArchiveLayout {
    pub open spec fn wf(self) -> bool {
        &&& self.chunks > 0
        &&& self.base_id + self.chunks <= u64::MAX
        &&& self.record_words > 0
        &&& self.header_words <= self.chunk_bytes / 8
        &&& self.magic < self.header_words
        &&& self.version < self.header_words
        &&& self.chunk_index < self.header_words
        &&& self.session_ticks < self.header_words
        &&& self.first_sequence < self.header_words
        &&& self.record_count < self.header_words
        &&& self.counter_frequency_hz < self.header_words
        &&& self.sequence < self.record_words
        &&& self.sample.within(self.record_words as int)
    }

    /// Whether the words are where they may be.
    pub fn is_wf(&self) -> (ok: bool)
        ensures
            ok == self.wf(),
    {
        self.chunks > 0 && self.chunks <= u64::MAX - self.base_id && self.record_words > 0
            && self.header_words as usize <= self.chunk_bytes / 8
            && self.magic < self.header_words && self.version < self.header_words
            && self.chunk_index < self.header_words && self.session_ticks < self.header_words
            && self.first_sequence < self.header_words && self.record_count < self.header_words
            && self.counter_frequency_hz < self.header_words && self.sequence < self.record_words
            && self.sample.is_within(self.record_words)
    }

    /// The words of a chunk of `count` records.
    pub open spec fn words(self, count: int) -> int {
        self.header_words + count * self.record_words
    }

    /// How many records fit in a chunk.
    pub open spec fn records_per_chunk(self) -> int {
        (self.chunk_bytes as int / 8 - self.header_words) / self.record_words as int
    }
}

/// How many records fit in a chunk.
pub fn archive_records_per_chunk(layout: &ArchiveLayout) -> (records: usize)
    requires
        layout.wf(),
    ensures
        records == layout.records_per_chunk(),
        8 * layout.words(records as int) <= layout.chunk_bytes,
{
    let records: usize = (layout.chunk_bytes / 8 - layout.header_words as usize) / (
    layout.record_words as usize);
    proof {
        let room = layout.chunk_bytes as int / 8 - layout.header_words;
        let width = layout.record_words as int;
        let n = records as int;
        assert(n * width <= room) by (nonlinear_arith)
            requires
                n == room / width,
                width > 0,
        ;
    }
    records
}

/// A sample with its archive sequence number.
#[derive(Clone, Copy, Debug, PartialEq, Eq, Structural)]
pub struct ArchivedSample {
    pub sequence: u64,
    pub sample: HistorySample,
}

/// How far the active flush has come.
#[derive(Clone, Copy, Debug, PartialEq, Eq, Structural)]
pub enum FlushStage {
    /// The chunk's object is being created.
    Creating,
    /// Its size is being set.
    Sizing,
    /// The image is being written.
    Writing,
    /// The write is being made durable.
    Flushing,
}

/// A flush under way.
#[derive(Clone, Copy, Debug, PartialEq, Eq, Structural)]
pub struct ActiveFlush {
    pub stage: FlushStage,
    pub started_ticks: u64,
    pub record_count: usize,
    pub full: bool,
}

/// What became of the call that a flush waits for.
#[derive(Clone, Copy, Debug, PartialEq, Eq, Structural)]
pub enum FlushReply {
    Pending,
    /// The object store did what was asked.
    Done,
    /// The object exists already.
    Exists,
    /// The call or the object store failed.
    Failed,
}

/// What a flush asks of the caller. After a call that cannot be made, drop the
/// archive.
#[derive(Clone, Copy, Debug, PartialEq, Eq, Structural)]
pub enum FlushProgress {
    /// No flush is under way.
    Idle,
    /// Wait for the call under way.
    Pending,
    /// Set the size of the object.
    SetSize { object_id: u64 },
    /// Write the image to the object.
    Write { object_id: u64 },
    /// Flush the object store.
    Flush,
    Complete { record_count: usize, full: bool },
    /// The archive is to be dropped; it is looked up again later.
    Failed,
}

/// The archive's state.
#[verifier::ext_equal]
pub struct ArchiveView {
    pub chunk: Seq<ArchivedSample>,
    pub chunk_index: u64,
    pub session_ticks: u64,
    pub next_sequence: u64,
    pub last_flush_ticks: u64,
    pub active_flush: Option<ActiveFlush>,
}

impl ArchiveView {
    /// The active chunk exists, and until the numbers run out the samples in it
    /// are numbered without a gap.
    pub open spec fn wf(self, layout: ArchiveLayout) -> bool {
        &&& self.chunk_index < layout.chunks
        &&& self.next_sequence < u64::MAX ==> forall|i: int|
            0 <= i < self.chunk.len() ==> (#[trigger] self.chunk[i]).sequence == self.next_sequence
                - self.chunk.len() + i
        &&& self.next_sequence < u64::MAX ==> self.chunk.len() < self.next_sequence
    }

    /// The archive with one more sample.
    pub open spec fn recorded(self, sample: HistorySample) -> ArchiveView {
        ArchiveView {
            chunk: self.chunk.push(ArchivedSample { sequence: self.next_sequence, sample }),
            next_sequence: saturating_sum(self.next_sequence, 1),
            ..self
        }
    }

    /// The archive with more samples.
    pub open spec fn seeded(self, samples: Seq<HistorySample>) -> ArchiveView
        decreases samples.len(),
    {
        if samples.len() == 0 {
            self
        } else {
            self.seeded(samples.drop_last()).recorded(samples.last())
        }
    }

    /// How many records the next flush writes.
    pub open spec fn flush_count(self, layout: ArchiveLayout) -> int {
        if self.chunk.len() <= layout.records_per_chunk() {
            self.chunk.len() as int
        } else {
            layout.records_per_chunk()
        }
    }
}

/// The header fields of a chunk of `count` records.
pub open spec fn chunk_header(
    layout: ArchiveLayout,
    archive: ArchiveView,
    frequency_hz: u64,
    count: int,
) -> Seq<(u16, u64)> {
    seq![
        (layout.magic, layout.magic_number),
        (layout.version, layout.version_number),
        (layout.chunk_index, archive.chunk_index),
        (layout.session_ticks, archive.session_ticks),
        (
            layout.first_sequence,
            if archive.chunk.len() > 0 {
                archive.chunk[0].sequence
            } else {
                0
            },
        ),
        (layout.record_count, count as u64),
        (layout.counter_frequency_hz, frequency_hz),
    ]
}

/// The fields of an archived sample.
pub open spec fn record_fields(layout: ArchiveLayout, record: ArchivedSample) -> Seq<(u16, u64)> {
    seq![(layout.sequence, record.sequence)] + sample_fields(layout.sample, record.sample)
}

/// `words` with the first `count` records of a chunk written one after another.
pub open spec fn records_assigned(
    words: Seq<u64>,
    layout: ArchiveLayout,
    chunk: Seq<ArchivedSample>,
    count: int,
) -> Seq<u64>
    decreases count,
{
    if count <= 0 {
        words
    } else {
        assigned(
            records_assigned(words, layout, chunk, count - 1),
            layout.words(count - 1),
            record_fields(layout, chunk[count - 1]),
        )
    }
}

/// The words of the active chunk's image.
pub open spec fn chunk_words(
    layout: ArchiveLayout,
    archive: ArchiveView,
    frequency_hz: u64,
) -> Seq<u64> {
    let count = archive.flush_count(layout);
    records_assigned(
        assigned(
            zero_words(layout.words(count) as nat),
            0,
            chunk_header(layout, archive, frequency_hz, count),
        ),
        layout,
        archive.chunk,
        count,
    )
}

/// Ticks of `ms` milliseconds.
pub open spec fn ticks_of(frequency_hz: u64, ms: u64) -> u64 {
    if frequency_hz * ms > u64::MAX {
        u64::MAX / 1000
    } else {
        (frequency_hz * ms) as u64 / 1000
    }
}

fn to_ticks(frequency_hz: u64, ms: u64) -> (ticks: u64)
    ensures
        ticks == ticks_of(frequency_hz, ms),
{
    match frequency_hz.checked_mul(ms) {
        Some(product) => product / 1000,
        None => u64::MAX / 1000,
    }
}

/// The ticks from `since` to `now`, or zero.
pub open spec fn elapsed(now: u64, since: u64) -> int {
    if now >= since {
        now - since
    } else {
        0
    }
}

/// A flush that started at `started` has taken too long at `ticks`.
pub open spec fn flush_timed_out(started: u64, ticks: u64, frequency_hz: u64) -> bool {
    elapsed(ticks, started) >= larger(ticks_of(frequency_hz, FLUSH_TIMEOUT_MS), 1)
}

/// The archive after a poll of its flush, and what the flush asks for.
pub open spec fn flush_polled(
    archive: ArchiveView,
    layout: ArchiveLayout,
    ticks: u64,
    frequency_hz: u64,
    reply: FlushReply,
) -> (ArchiveView, FlushProgress) {
    let object_id = (layout.base_id + archive.chunk_index) as u64;
    let stopped = ArchiveView { active_flush: None, ..archive };
    match archive.active_flush {
        None => (archive, FlushProgress::Idle),
        Some(active) => if flush_timed_out(active.started_ticks, ticks, frequency_hz) {
            (stopped, FlushProgress::Failed)
        } else {
            match (active.stage, reply) {
                (_, FlushReply::Pending) => (archive, FlushProgress::Pending),
                (_, FlushReply::Failed) => (stopped, FlushProgress::Failed),
                (FlushStage::Creating, _) => (
                    ArchiveView {
                        active_flush: Some(ActiveFlush { stage: FlushStage::Sizing, ..active }),
                        ..archive
                    },
                    FlushProgress::SetSize { object_id },
                ),
                (_, FlushReply::Exists) => (stopped, FlushProgress::Failed),
                (FlushStage::Sizing, FlushReply::Done) => (
                    ArchiveView {
                        active_flush: Some(ActiveFlush { stage: FlushStage::Writing, ..active }),
                        ..archive
                    },
                    FlushProgress::Write { object_id },
                ),
                (FlushStage::Writing, FlushReply::Done) => (
                    ArchiveView {
                        active_flush: Some(ActiveFlush { stage: FlushStage::Flushing, ..active }),
                        ..archive
                    },
                    FlushProgress::Flush,
                ),
                (FlushStage::Flushing, FlushReply::Done) => (
                    if active.full {
                        ArchiveView {
                            chunk: if active.record_count <= archive.chunk.len() {
                                archive.chunk.skip(active.record_count as int)
                            } else {
                                Seq::empty()
                            },
                            chunk_index: ((archive.chunk_index + 1) % layout.chunks as int) as u64,
                            ..stopped
                        }
                    } else {
                        stopped
                    },
                    FlushProgress::Complete {
                        record_count: active.record_count,
                        full: active.full,
                    },
                ),
            }
        },
    }
}

/// The samples that wait for the object store, and the flush under way.
pub struct Archive {
    pub chunk: Vec<ArchivedSample>,
    pub chunk_index: u64,
    pub session_ticks: u64,
    pub next_sequence: u64,
    pub last_flush_ticks: u64,
    pub active_flush: Option<ActiveFlush>,
}

impl View for Archive {
    type V = ArchiveView;

    open spec fn view(&self) -> ArchiveView {
        ArchiveView {
            chunk: self.chunk@,
            chunk_index: self.chunk_index,
            session_ticks: self.session_ticks,
            next_sequence: self.next_sequence,
            last_flush_ticks: self.last_flush_ticks,
            active_flush: self.active_flush,
        }
    }
}

/// A new archive session.
pub open spec fn fresh_archive(ticks: u64) -> ArchiveView {
    ArchiveView {
        chunk: Seq::empty(),
        chunk_index: 0,
        session_ticks: ticks,
        next_sequence: 1,
        last_flush_ticks: ticks,
        active_flush: None,
    }
}

/// What a started flush hands to the object store.
pub struct FlushStart {
    /// The object to create.
    pub object_id: u64,
    /// The size to set, in bytes.
    pub size: usize,
    /// The bytes to write.
    pub image: Vec<u8>,
}

proof fn lemma_recorded_wf(archive: ArchiveView, layout: ArchiveLayout, sample: HistorySample)
    requires
        archive.wf(layout),
    ensures
        archive.recorded(sample).wf(layout),
{
    let after = archive.recorded(sample);
    if after.next_sequence < u64::MAX {
        assert forall|i: int| 0 <= i < after.chunk.len() implies (
        #[trigger] after.chunk[i]).sequence == after.next_sequence - after.chunk.len() + i by {
            if i < archive.chunk.len() {
                assert(after.chunk[i] == archive.chunk[i]);
            }
        }
    }
}

impl Archive {
    pub fn new(ticks: u64) -> (archive: Archive)
        ensures
            archive@ == fresh_archive(ticks),
            forall|layout: ArchiveLayout| layout.wf() ==> #[trigger] archive@.wf(layout),
    {
        Archive {
            chunk: Vec::new(),
            chunk_index: 0,
            session_ticks: ticks,
            next_sequence: 1,
            last_flush_ticks: ticks,
            active_flush: None,
        }
    }

    /// Add a sample.
    pub fn record(&mut self, sample: HistorySample)
        ensures
            final(self)@ == old(self)@.recorded(sample),
            forall|layout: ArchiveLayout| #[trigger]
                old(self)@.wf(layout) ==> final(self)@.wf(layout),
    {
        let ghost before = self@;
        self.chunk.push(ArchivedSample { sequence: self.next_sequence, sample });
        self.next_sequence = saturating(self.next_sequence, 1);
        proof {
            assert(self@ =~= before.recorded(sample));
            assert forall|layout: ArchiveLayout| #[trigger] before.wf(layout) implies self@.wf(
                layout,
            ) by {
                lemma_recorded_wf(before, layout, sample);
            }
        }
    }

    /// Add the most recent samples of the history, as many as fit in a chunk.
    pub fn seed_recent(&mut self, history: &VecDeque<HistorySample>, layout: &ArchiveLayout)
        requires
            layout.wf(),
            old(self)@.wf(*layout),
        ensures
            final(self)@.wf(*layout),
            final(self)@ == old(self)@.seeded(
                if history@.len() > layout.records_per_chunk() {
                    history@.skip(history@.len() - layout.records_per_chunk())
                } else {
                    history@
                },
            ),
    {
        let retain: usize = archive_records_per_chunk(layout);
        let total: usize = history.len();
        let first: usize = if total > retain {
            total - retain
        } else {
            0
        };
        let ghost before = self@;
        let ghost recent = history@.skip(first as int);
        let mut index: usize = first;
        assert(recent.take(0) =~= Seq::<HistorySample>::empty());
        while index < total
            invariant
                first <= index <= total == history@.len(),
                recent == history@.skip(first as int),
                self@ == before.seeded(recent.take(index - first)),
                self@.wf(*layout),
            decreases total - index,
        {
            proof {
                let next = recent.take(index - first + 1);
                assert(next.drop_last() =~= recent.take(index - first));
                assert(next.last() == history@[index as int]);
            }
            self.record(history[index]);
            index += 1;
        }
        proof {
            assert(recent.take(index - first) =~= recent);
            assert(first == 0 ==> recent =~= history@);
        }
    }

    /// Whether a flush is to be started.
    pub fn due(&self, ticks: u64, flush_ticks: u64, layout: &ArchiveLayout) -> (due: bool)
        requires
            layout.wf(),
        ensures
            due == (self@.active_flush is None && self@.chunk.len() > 0 && (self@.chunk.len()
                >= layout.records_per_chunk() || elapsed(ticks, self@.last_flush_ticks)
                >= flush_ticks)),
    {
        let since: u64 = if ticks >= self.last_flush_ticks {
            ticks - self.last_flush_ticks
        } else {
            0
        };
        self.active_flush.is_none() && self.chunk.len() > 0 && (self.chunk.len()
            >= archive_records_per_chunk(layout) || since >= flush_ticks)
    }

    /// Start to rewrite the active chunk.
    pub fn start_flush(&mut self, ticks: u64, frequency_hz: u64, layout: &ArchiveLayout) -> (start:
        FlushStart)
        requires
            layout.wf(),
            old(self)@.wf(*layout),
        ensures
            final(self)@.wf(*layout),
            final(self)@ == (ArchiveView {
                active_flush: Some(
                    ActiveFlush {
                        stage: FlushStage::Creating,
                        started_ticks: ticks,
                        record_count: old(self)@.flush_count(*layout) as usize,
                        full: old(self)@.flush_count(*layout) >= layout.records_per_chunk(),
                    },
                ),
                ..old(self)@
            }),
            start.object_id == layout.base_id + old(self)@.chunk_index,
            start.size == start.image@.len(),
            start.image@ == wire::le_list(chunk_words(*layout, old(self)@, frequency_hz)),
            start.size == 8 * layout.words(old(self)@.flush_count(*layout)),
            start.size <= layout.chunk_bytes,
    {
        let per_chunk: usize = archive_records_per_chunk(layout);
        let count: usize = if self.chunk.len() <= per_chunk {
            self.chunk.len()
        } else {
            per_chunk
        };
        proof {
            let n = count as int;
            let p = per_chunk as int;
            let w = layout.record_words as int;
            assert(0 <= n * w <= p * w) by (nonlinear_arith)
                requires
                    0 <= n <= p,
                    0 <= w,
            ;
        }
        let total: usize = layout.header_words as usize + count * (layout.record_words as usize);
        let mut words: Vec<u64> = zeroed(total);
        let first: u64 = if self.chunk.len() > 0 {
            self.chunk[0].sequence
        } else {
            0
        };
        let header: [(u16, u64); 7] = [
            (layout.magic, layout.magic_number),
            (layout.version, layout.version_number),
            (layout.chunk_index, self.chunk_index),
            (layout.session_ticks, self.session_ticks),
            (layout.first_sequence, first),
            (layout.record_count, count as u64),
            (layout.counter_frequency_hz, frequency_hz),
        ];
        assert(header@ =~= chunk_header(*layout, self@, frequency_hz, count as int));
        assign(&mut words, 0, layout.header_words, &header);
        let ghost start = words@;
        let mut index: usize = 0;
        while index < count
            invariant
                layout.wf(),
                index <= count <= self.chunk@.len(),
                total == layout.words(count as int),
                words@.len() == total,
                words@ == records_assigned(start, *layout, self.chunk@, index as int),
            decreases count - index,
        {
            proof {
                lemma_record_fits(
                    layout.header_words,
                    layout.record_words,
                    index as int,
                    count as int,
                );
            }
            let base: usize = layout.header_words as usize + index * (layout.record_words as usize);
            let record: ArchivedSample = self.chunk[index];
            let number: [(u16, u64); 1] = [(layout.sequence, record.sequence)];
            let fields: [(u16, u64); 13] = fields_of(&layout.sample, &record.sample);
            let ghost before = words@;
            assign(&mut words, base, layout.record_words, &number);
            assign(&mut words, base, layout.record_words, &fields);
            proof {
                lemma_assigned_concat(before, base as int, number@, fields@);
                assert(number@ =~= seq![(layout.sequence, record.sequence)]);
            }
            index += 1;
        }
        let mut image: Vec<u8> = Vec::new();
        wire::push_le_list(&mut image, &words);
        proof {
            wire::lemma_le_list_len(words@);
            assert(image@ =~= wire::le_list(words@));
        }
        self.active_flush = Some(
            ActiveFlush {
                stage: FlushStage::Creating,
                started_ticks: ticks,
                record_count: count,
                full: count >= per_chunk,
            },
        );
        FlushStart { object_id: layout.base_id + self.chunk_index, size: image.len(), image }
    }

    /// Move the flush along. `reply` is what became of the call under way.
    pub fn poll_flush(
        &mut self,
        ticks: u64,
        frequency_hz: u64,
        reply: FlushReply,
        layout: &ArchiveLayout,
    ) -> (progress: FlushProgress)
        requires
            layout.wf(),
            old(self)@.wf(*layout),
        ensures
            final(self)@.wf(*layout),
            (final(self)@, progress) == flush_polled(
                old(self)@,
                *layout,
                ticks,
                frequency_hz,
                reply,
            ),
    {
        let ghost before = self@;
        let active: ActiveFlush = match self.active_flush {
            Some(active) => active,
            None => {
                return FlushProgress::Idle;
            },
        };
        let since: u64 = if ticks >= active.started_ticks {
            ticks - active.started_ticks
        } else {
            0
        };
        if since >= max_of(to_ticks(frequency_hz, FLUSH_TIMEOUT_MS), 1) {
            self.active_flush = None;
            return FlushProgress::Failed;
        }
        let object_id: u64 = layout.base_id + self.chunk_index;
        match reply {
            FlushReply::Pending => {
                return FlushProgress::Pending;
            },
            FlushReply::Failed => {
                self.active_flush = None;
                return FlushProgress::Failed;
            },
            FlushReply::Exists => match active.stage {
                FlushStage::Creating => {},
                _ => {
                    self.active_flush = None;
                    return FlushProgress::Failed;
                },
            },
            FlushReply::Done => {},
        }
        match active.stage {
            FlushStage::Creating => {
                self.active_flush = Some(ActiveFlush { stage: FlushStage::Sizing, ..active });
                FlushProgress::SetSize { object_id }
            },
            FlushStage::Sizing => {
                self.active_flush = Some(ActiveFlush { stage: FlushStage::Writing, ..active });
                FlushProgress::Write { object_id }
            },
            FlushStage::Writing => {
                self.active_flush = Some(ActiveFlush { stage: FlushStage::Flushing, ..active });
                FlushProgress::Flush
            },
            FlushStage::Flushing => {
                self.active_flush = None;
                if active.full {
                    let drop: usize = if active.record_count <= self.chunk.len() {
                        active.record_count
                    } else {
                        self.chunk.len()
                    };
                    let rest: Vec<ArchivedSample> = self.chunk.split_off(drop);
                    self.chunk = rest;
                    self.chunk_index = (self.chunk_index + 1) % layout.chunks;
                    proof {
                        assert(drop == before.chunk.len() ==> self.chunk@ =~= Seq::empty());
                        assert(self.chunk@ =~= before.chunk.skip(drop as int));
                    }
                }
                FlushProgress::Complete { record_count: active.record_count, full: active.full }
            },
        }
    }
}

proof fn lemma_assigned_concat(
    words: Seq<u64>,
    base: int,
    first: Seq<(u16, u64)>,
    second: Seq<(u16, u64)>,
)
    ensures
        assigned(words, base, first + second) == assigned(
            assigned(words, base, first),
            base,
            second,
        ),
    decreases second.len(),
{
    if second.len() == 0 {
        assert(first + second =~= first);
    } else {
        assert((first + second).drop_last() =~= first + second.drop_last());
        lemma_assigned_concat(words, base, first, second.drop_last());
    }
}

/// The service's timing and capacity.
#[derive(Clone, Copy, Debug, PartialEq, Eq)]
pub struct Schedule {
    /// Samples that the history holds.
    pub history_capacity: usize,
    pub sample_interval_ms: u64,
    pub flush_interval_ms: u64,
    pub frequency_hz: u64,
}

/// The observer's state.
#[verifier::ext_equal]
pub struct ObserverView {
    pub history: Seq<HistorySample>,
    pub next_sample_ticks: u64,
    pub next_archive_retry_ticks: u64,
    pub archive: Option<ArchiveView>,
}

impl ObserverView {
    pub open spec fn wf(self, schedule: Schedule, layout: ArchiveLayout) -> bool {
        &&& self.history.len() <= schedule.history_capacity
        &&& self.archive matches Some(archive) ==> archive.wf(layout)
    }
}

/// The history after one more sample: the oldest makes room.
pub open spec fn remembered(
    history: Seq<HistorySample>,
    sample: HistorySample,
    capacity: int,
) -> Seq<HistorySample> {
    if history.len() == capacity {
        history.drop_first().push(sample)
    } else {
        history.push(sample)
    }
}

/// When to look again after `ticks`.
pub open spec fn next_due(ticks: u64, schedule: Schedule) -> u64 {
    saturating_sum(
        ticks,
        larger(ticks_of(schedule.frequency_hz, schedule.sample_interval_ms), 1),
    )
}

fn due_after(ticks: u64, schedule: &Schedule) -> (due: u64)
    ensures
        due == next_due(ticks, *schedule),
{
    saturating(ticks, max_of(to_ticks(schedule.frequency_hz, schedule.sample_interval_ms), 1))
}

/// Milliseconds to wait before the next look.
pub open spec fn wait_ms(observer: ObserverView, ticks: u64, frequency_hz: u64) -> int {
    let hz = larger(frequency_hz, 1) as int;
    let until = if ticks >= observer.next_sample_ticks {
        1
    } else {
        let ms = (observer.next_sample_ticks - ticks) * 1000 / hz;
        if ms >= 1 {
            ms
        } else {
            1
        }
    };
    let flushing = observer.archive matches Some(archive) && archive.active_flush is Some;
    if flushing && until > 10 {
        10
    } else {
        until
    }
}

/// The history, the archive and when to look at each.
pub struct Observer {
    pub history: VecDeque<HistorySample>,
    pub next_sample_ticks: u64,
    pub next_archive_retry_ticks: u64,
    pub archive: Option<Archive>,
}

impl View for Observer {
    type V = ObserverView;

    open spec fn view(&self) -> ObserverView {
        ObserverView {
            history: self.history@,
            next_sample_ticks: self.next_sample_ticks,
            next_archive_retry_ticks: self.next_archive_retry_ticks,
            archive: match self.archive {
                Some(archive) => Some(archive@),
                None => None,
            },
        }
    }
}

impl Observer {
    /// An observer that starts at `ticks`, with its first sample if there is
    /// one.
    pub fn new(ticks: u64, first: Option<HistorySample>, schedule: &Schedule) -> (observer: Observer)
        requires
            schedule.history_capacity >= 1,
        ensures
            observer@ == (ObserverView {
                history: match first {
                    Some(sample) => seq![sample],
                    None => Seq::empty(),
                },
                next_sample_ticks: next_due(ticks, *schedule),
                next_archive_retry_ticks: ticks,
                archive: None,
            }),
            forall|layout: ArchiveLayout| #[trigger] observer@.wf(*schedule, layout),
    {
        let mut history: VecDeque<HistorySample> = VecDeque::with_capacity(
            schedule.history_capacity,
        );
        if let Some(sample) = first {
            history.push_back(sample);
            assert(history@ =~= seq![sample]);
        }
        Observer {
            history,
            next_sample_ticks: due_after(ticks, schedule),
            next_archive_retry_ticks: ticks,
            archive: None,
        }
    }

    /// Whether a sample is due.
    pub fn sample_due(&self, ticks: u64) -> (due: bool)
        ensures
            due == (ticks >= self@.next_sample_ticks),
    {
        ticks >= self.next_sample_ticks
    }

    /// Take a due sample, where the snapshot gave one.
    pub fn take_sample(
        &mut self,
        ticks: u64,
        sample: Option<HistorySample>,
        schedule: &Schedule,
        layout: &ArchiveLayout,
    )
        requires
            schedule.history_capacity >= 1,
            old(self)@.wf(*schedule, *layout),
        ensures
            final(self)@.wf(*schedule, *layout),
            final(self)@ == (ObserverView {
                next_sample_ticks: next_due(ticks, *schedule),
                history: match sample {
                    Some(sample) => remembered(
                        old(self)@.history,
                        sample,
                        schedule.history_capacity as int,
                    ),
                    None => old(self)@.history,
                },
                archive: match (old(self)@.archive, sample) {
                    (Some(archive), Some(sample)) => Some(archive.recorded(sample)),
                    (archive, _) => archive,
                },
                ..old(self)@
            }),
    {
        let ghost before = self@;
        if let Some(sample) = sample {
            if self.history.len() == schedule.history_capacity {
                let oldest: Option<HistorySample> = self.history.pop_front();
                assert(self.history@ =~= before.history.drop_first());
            }
            self.history.push_back(sample);
            let mut held: Option<Archive> = None;
            std::mem::swap(&mut held, &mut self.archive);
            if let Some(mut archive) = held {
                archive.record(sample);
                self.archive = Some(archive);
            }
        }
        self.next_sample_ticks = due_after(ticks, schedule);
    }

    /// Whether to look for the object store.
    pub fn lookup_due(&self, ticks: u64) -> (due: bool)
        ensures
            due == (self@.archive is None && ticks >= self@.next_archive_retry_ticks),
    {
        self.archive.is_none() && ticks >= self.next_archive_retry_ticks
    }

    /// The object store was looked for. Storage may not exist yet or may be
    /// restarting: a missing archive delays durability, never sampling. A new
    /// archive starts with the recent history.
    pub fn looked_up(
        &mut self,
        ticks: u64,
        found: bool,
        schedule: &Schedule,
        layout: &ArchiveLayout,
    )
        requires
            layout.wf(),
            old(self)@.wf(*schedule, *layout),
        ensures
            final(self)@.wf(*schedule, *layout),
            final(self)@ == (ObserverView {
                next_archive_retry_ticks: next_due(ticks, *schedule),
                archive: if found {
                    Some(
                        fresh_archive(ticks).seeded(
                            if old(self)@.history.len() > layout.records_per_chunk() {
                                old(self)@.history.skip(
                                    old(self)@.history.len() - layout.records_per_chunk(),
                                )
                            } else {
                                old(self)@.history
                            },
                        ),
                    )
                } else {
                    old(self)@.archive
                },
                ..old(self)@
            }),
    {
        if found {
            let mut archive: Archive = Archive::new(ticks);
            archive.seed_recent(&self.history, layout);
            self.archive = Some(archive);
        }
        self.next_archive_retry_ticks = due_after(ticks, schedule);
    }

    /// Start a flush if one is due.
    pub fn start_due_flush(&mut self, ticks: u64, schedule: &Schedule, layout: &ArchiveLayout) -> (
        start: Option<FlushStart>)
        requires
            layout.wf(),
            old(self)@.wf(*schedule, *layout),
        ensures
            final(self)@.wf(*schedule, *layout),
            match old(self)@.archive {
                Some(archive) if archive.active_flush is None && archive.chunk.len() > 0 && (
                archive.chunk.len() >= layout.records_per_chunk() || elapsed(
                    ticks,
                    archive.last_flush_ticks,
                ) >= ticks_of(schedule.frequency_hz, schedule.flush_interval_ms)) => {
                    &&& start matches Some(started) && started.object_id == layout.base_id
                        + archive.chunk_index && started.image@ == wire::le_list(
                        chunk_words(*layout, archive, schedule.frequency_hz),
                    ) && started.size == started.image@.len()
                    &&& final(self)@ == (ObserverView {
                        archive: Some(
                            ArchiveView {
                                active_flush: Some(
                                    ActiveFlush {
                                        stage: FlushStage::Creating,
                                        started_ticks: ticks,
                                        record_count: archive.flush_count(*layout) as usize,
                                        full: archive.flush_count(*layout)
                                            >= layout.records_per_chunk(),
                                    },
                                ),
                                ..archive
                            },
                        ),
                        ..old(self)@
                    })
                },
                _ => start is None && final(self)@ == old(self)@,
            },
    {
        let flush_ticks: u64 = to_ticks(schedule.frequency_hz, schedule.flush_interval_ms);
        let mut held: Option<Archive> = None;
        std::mem::swap(&mut held, &mut self.archive);
        match held {
            Some(mut archive) => {
                if !archive.due(ticks, flush_ticks, layout) {
                    self.archive = Some(archive);
                    return None;
                }
                let start: FlushStart = archive.start_flush(ticks, schedule.frequency_hz, layout);
                self.archive = Some(archive);
                Some(start)
            },
            None => None,
        }
    }

    /// Move the flush along. A completed flush starts the flush interval anew; a
    /// failed one drops the archive.
    pub fn poll_flush(
        &mut self,
        ticks: u64,
        reply: FlushReply,
        schedule: &Schedule,
        layout: &ArchiveLayout,
    ) -> (progress: FlushProgress)
        requires
            layout.wf(),
            old(self)@.wf(*schedule, *layout),
        ensures
            final(self)@.wf(*schedule, *layout),
            match old(self)@.archive {
                Some(archive) => {
                    let (polled, made) = flush_polled(
                        archive,
                        *layout,
                        ticks,
                        schedule.frequency_hz,
                        reply,
                    );
                    &&& progress == made
                    &&& final(self)@ == (ObserverView {
                        archive: match made {
                            FlushProgress::Failed => None,
                            FlushProgress::Complete { record_count, full } => Some(
                                ArchiveView { last_flush_ticks: ticks, ..polled },
                            ),
                            _ => Some(polled),
                        },
                        ..old(self)@
                    })
                },
                None => progress == FlushProgress::Idle && final(self)@ == old(self)@,
            },
    {
        let mut held: Option<Archive> = None;
        std::mem::swap(&mut held, &mut self.archive);
        match held {
            Some(mut archive) => {
                let progress: FlushProgress = archive.poll_flush(
                    ticks,
                    schedule.frequency_hz,
                    reply,
                    layout,
                );
                match progress {
                    FlushProgress::Failed => {},
                    FlushProgress::Complete { record_count, full } => {
                        archive.last_flush_ticks = ticks;
                        self.archive = Some(archive);
                    },
                    _ => {
                        self.archive = Some(archive);
                    },
                }
                progress
            },
            None => FlushProgress::Idle,
        }
    }

    /// Drop the archive after a call that could not be made. It is looked up
    /// again later.
    pub fn drop_archive(&mut self)
        ensures
            final(self)@ == (ObserverView { archive: None, ..old(self)@ }),
    {
        self.archive = None;
    }

    /// Milliseconds to wait before the next look.
    pub fn remaining_ms(&self, ticks: u64, frequency_hz: u64) -> (ms: u64)
        requires
            ticks < self@.next_sample_ticks ==> (self@.next_sample_ticks - ticks) * 1000
                <= u64::MAX,
        ensures
            ms == wait_ms(self@, ticks, frequency_hz),
    {
        let until: u64 = if ticks >= self.next_sample_ticks {
            1
        } else {
            max_of((self.next_sample_ticks - ticks) * 1000 / max_of(frequency_hz, 1), 1)
        };
        let flushing: bool = match &self.archive {
            Some(archive) => archive.active_flush.is_some(),
            None => false,
        };
        if flushing && until > 10 {
            10
        } else {
            until
        }
    }
}

/// The history holds the most recent samples: what a full history forgets is
/// its oldest sample.
pub proof fn law_history_keeps_the_most_recent_samples(
    history: Seq<HistorySample>,
    sample: HistorySample,
    capacity: int,
)
    requires
        1 <= capacity,
        history.len() <= capacity,
    ensures
        remembered(history, sample, capacity).len() <= capacity,
        remembered(history, sample, capacity) == history.push(sample).skip(
            history.len() + 1 - remembered(history, sample, capacity).len(),
        ),
        history.len() < capacity ==> remembered(history, sample, capacity) == history.push(sample),
{
    let after = remembered(history, sample, capacity);
    assert(after =~= history.push(sample).skip(history.len() + 1 - after.len()));
}

/// A flush completes only after its write, a write follows only a set size, and
/// a size is set only on a created object.
pub proof fn law_flush_steps_follow_each_other(
    archive: ArchiveView,
    layout: ArchiveLayout,
    ticks: u64,
    frequency_hz: u64,
    reply: FlushReply,
)
    ensures
        ({
            let (after, progress) = flush_polled(archive, layout, ticks, frequency_hz, reply);
            let stage = archive.active_flush->0.stage;
            &&& progress is SetSize ==> archive.active_flush is Some && stage
                == FlushStage::Creating && after.active_flush->0.stage == FlushStage::Sizing
            &&& progress is Write ==> archive.active_flush is Some && stage == FlushStage::Sizing
                && after.active_flush->0.stage == FlushStage::Writing
            &&& progress is Flush ==> archive.active_flush is Some && stage == FlushStage::Writing
                && after.active_flush->0.stage == FlushStage::Flushing
            &&& progress is Complete ==> archive.active_flush is Some && stage
                == FlushStage::Flushing && after.active_flush is None
        }),
{
}

/// A completed flush drops only samples that it wrote: those that were recorded
/// while it was under way stay, and a flush of less than a chunk drops nothing.
pub proof fn law_rotation_keeps_unwritten_samples(
    written: Seq<ArchivedSample>,
    later: Seq<ArchivedSample>,
    archive: ArchiveView,
    layout: ArchiveLayout,
    ticks: u64,
    frequency_hz: u64,
    reply: FlushReply,
)
    requires
        archive.active_flush is Some,
        archive.active_flush->0.record_count <= written.len(),
        archive.chunk == written + later,
        flush_polled(archive, layout, ticks, frequency_hz, reply).1 is Complete,
    ensures
        ({
            let (after, progress) = flush_polled(archive, layout, ticks, frequency_hz, reply);
            &&& !archive.active_flush->0.full ==> after.chunk == archive.chunk
            &&& archive.active_flush->0.full ==> after.chunk == written.skip(
                archive.active_flush->0.record_count as int,
            ) + later
        }),
{
    let count = archive.active_flush->0.record_count as int;
    assert((written + later).skip(count) =~= written.skip(count) + later);
}

/// The stacks of the threads add up, and the most that one of them used is the most
/// of all: no thread used more, and one used that much.
pub proof fn law_thread_totals_cover_every_thread(
    bytes: Seq<u8>,
    layout: SnapshotLayout,
    count: int,
    thread: int,
)
    requires
        thread_totals(bytes, layout, count) is Some,
        0 <= thread < count,
    ensures
        ({
            let totals = thread_totals(bytes, layout, count)->0;
            let base = layout.header_words + thread * layout.thread_words;
            let used = word(bytes, base + layout.thread_stack_used_pages);
            let pages = word(bytes, base + layout.thread_stack_reserved_pages);
            &&& used is Some && used->0 <= totals.stack_used_high_water
            &&& pages is Some && pages->0 <= totals.stack_pages
        }),
        thread_totals(bytes, layout, 0) == Some(
            ThreadTotals { stack_pages: 0, stack_used_high_water: 0 },
        ),
        ({
            let last = layout.header_words + (count - 1) * layout.thread_words;
            let totals = thread_totals(bytes, layout, count)->0;
            let before = thread_totals(bytes, layout, count - 1)->0;
            &&& before.stack_pages + word(
                bytes,
                last + layout.thread_stack_reserved_pages,
            )->0 <= u64::MAX ==> totals.stack_pages == before.stack_pages + word(
                bytes,
                last + layout.thread_stack_reserved_pages,
            )->0
            &&& totals.stack_used_high_water == before.stack_used_high_water || Some(
                totals.stack_used_high_water,
            ) == word(bytes, last + layout.thread_stack_used_pages)
        }),
    decreases count,
{
    if thread < count - 1 {
        law_thread_totals_cover_every_thread(bytes, layout, count - 1, thread);
    }
}

/// What the domains own adds up; a domain whose heap status is not valid adds nothing
/// to the heaps; and the high waters are the highest of all domains.
pub proof fn law_domains_add_up(
    bytes: Seq<u8>,
    layout: SnapshotLayout,
    base: int,
    totals: DomainTotals,
)
    requires
        domain_added(bytes, layout, base, totals) is Some,
    ensures
        ({
            let after = domain_added(bytes, layout, base, totals)->0;
            let owned = word(bytes, base + layout.domain_owned_frames)->0;
            let valid = word(bytes, base + layout.domain_heap_status_valid)->0;
            let allocated = word(bytes, base + layout.domain_heap_allocated_bytes)->0;
            let peak = word(bytes, base + layout.domain_heap_peak_bytes)->0;
            let stack = word(bytes, base + layout.domain_stack_pages_used_high_water)->0;
            let threads = word(bytes, base + layout.domain_threads_high_water)->0;
            &&& totals.owned_frames + owned <= u64::MAX ==> after.owned_frames
                == totals.owned_frames + owned
            &&& totals.owned_frames + owned > u64::MAX ==> after.owned_frames == u64::MAX
            &&& valid == 0 ==> after.heap_allocated_bytes == totals.heap_allocated_bytes
                && after.heap_peak_bytes == totals.heap_peak_bytes
            &&& valid != 0 && totals.heap_allocated_bytes + allocated <= u64::MAX
                ==> after.heap_allocated_bytes == totals.heap_allocated_bytes + allocated
            &&& valid != 0 && totals.heap_peak_bytes + peak <= u64::MAX ==> after.heap_peak_bytes
                == totals.heap_peak_bytes + peak
            &&& after.stack_used_high_water >= totals.stack_used_high_water
                && after.stack_used_high_water >= stack
            &&& after.stack_used_high_water == totals.stack_used_high_water
                || after.stack_used_high_water == stack
            &&& after.threads_high_water >= totals.threads_high_water && after.threads_high_water
                >= threads
            &&& after.threads_high_water == totals.threads_high_water || after.threads_high_water
                == threads
        }),
{
}

/// A snapshot is sampled only in the known format and with at most 4096 records of
/// either kind; the sample has the header's numbers.
pub proof fn law_sample_has_the_headers_numbers(bytes: Seq<u8>, layout: SnapshotLayout)
    requires
        sampled(bytes, layout) is Some,
    ensures
        ({
            let sample = sampled(bytes, layout)->0;
            &&& word(bytes, layout.magic as int) == Some(layout.magic_number)
            &&& word(bytes, layout.version as int) == Some(layout.version_number)
            &&& word(bytes, layout.monotonic_ticks as int) == Some(sample.ticks)
            &&& word(bytes, layout.free_frames as int) == Some(sample.free_frames)
            &&& word(bytes, layout.usable_frames as int) == Some(sample.usable_frames)
            &&& word(bytes, layout.logical_processors as int) == Some(sample.logical_processors)
            &&& word(bytes, layout.cpu_busy_ticks as int) == Some(sample.cpu_busy_ticks)
            &&& word(bytes, layout.record_count as int) == Some(sample.threads)
            &&& word(bytes, layout.domain_record_count as int) == Some(sample.domains)
            &&& sample.threads <= 4096
            &&& sample.domains <= 4096
            &&& thread_totals(bytes, layout, sample.threads as int) is Some
            &&& sample.stack_pages == thread_totals(
                bytes,
                layout,
                sample.threads as int,
            )->0.stack_pages
            &&& sample.stack_used_high_water >= thread_totals(
                bytes,
                layout,
                sample.threads as int,
            )->0.stack_used_high_water
        }),
{
    let sample = sampled(bytes, layout)->0;
    let used = thread_totals(bytes, layout, sample.threads as int)->0.stack_used_high_water;
    lemma_domains_keep_high_water(
        bytes,
        layout,
        layout.header_words + sample.threads * layout.thread_words,
        used,
        sample.domains as int,
    );
}

proof fn lemma_domains_keep_high_water(
    bytes: Seq<u8>,
    layout: SnapshotLayout,
    start: int,
    stack_used: u64,
    count: int,
)
    ensures
        domain_totals(bytes, layout, start, stack_used, count) matches Some(totals)
            ==> totals.stack_used_high_water >= stack_used,
    decreases count,
{
    if count > 0 {
        lemma_domains_keep_high_water(bytes, layout, start, stack_used, count - 1);
    }
}

/// The positions of the fields are all different.
pub open spec fn apart(fields: Seq<(u16, u64)>) -> bool {
    forall|i: int, j: int|
        0 <= i < j < fields.len() ==> (#[trigger] fields[i]).0 != (#[trigger] fields[j]).0
}

proof fn lemma_assigned(words: Seq<u64>, base: int, fields: Seq<(u16, u64)>, width: int, at: int)
    requires
        apart(fields),
        fields_within(fields, width),
        0 <= base,
        base + width <= words.len(),
        0 <= at < words.len(),
    ensures
        assigned(words, base, fields).len() == words.len(),
        forall|i: int|
            0 <= i < fields.len() ==> assigned(words, base, fields)[base + (
            #[trigger] fields[i]).0] == fields[i].1,
        (at < base || at >= base + width) ==> assigned(words, base, fields)[at] == words[at],
    decreases fields.len(),
{
    if fields.len() > 0 {
        let before = fields.drop_last();
        assert forall|i: int, j: int| 0 <= i < j < before.len() implies (#[trigger] before[i]).0
            != (#[trigger] before[j]).0 by {
            assert(fields[i].0 != fields[j].0);
        }
        assert forall|i: int| 0 <= i < before.len() implies (#[trigger] before[i]).0 < width by {
            assert(fields[i].0 < width);
        }
        lemma_assigned(words, base, before, width, at);
        let last = fields.len() - 1;
        assert(fields[last].0 < width);
        assert forall|i: int| 0 <= i < fields.len() implies assigned(words, base, fields)[base + (
        #[trigger] fields[i]).0] == fields[i].1 by {
            if i < last {
                assert(before[i] == fields[i]);
                assert(fields[i].0 != fields[last].0);
                assert(fields[i].0 < width);
            }
        }
    }
}

/// Every sample of the history is in its image: sample `index` has each number in
/// the place that the layout gives it, behind the header and the samples before it.
pub proof fn law_history_image_has_every_sample(
    layout: HistoryLayout,
    frequency_hz: u64,
    history: Seq<HistorySample>,
    index: int,
)
    requires
        layout.wf(),
        0 <= index < history.len(),
        forall|sample: HistorySample| #[trigger] apart(sample_fields(layout.sample, sample)),
    ensures
        ({
            let words = history_words(layout, frequency_hz, history);
            let base = layout.header_words + index * layout.record_words;
            let sample = history[index];
            &&& words[base + layout.sample.monotonic_ticks] == sample.ticks
            &&& words[base + layout.sample.threads] == sample.threads
            &&& words[base + layout.sample.domains] == sample.domains
            &&& words[base + layout.sample.owned_frames] == sample.owned_frames
            &&& words[base + layout.sample.stack_pages] == sample.stack_pages
            &&& words[base + layout.sample.stack_used_high_water] == sample.stack_used_high_water
            &&& words[base + layout.sample.threads_high_water] == sample.threads_high_water
            &&& words[base + layout.sample.free_frames] == sample.free_frames
            &&& words[base + layout.sample.usable_frames] == sample.usable_frames
            &&& words[base + layout.sample.logical_processors] == sample.logical_processors
            &&& words[base + layout.sample.cpu_busy_ticks] == sample.cpu_busy_ticks
            &&& words[base + layout.sample.heap_allocated_bytes] == sample.heap_allocated_bytes
            &&& words[base + layout.sample.heap_peak_bytes] == sample.heap_peak_bytes
        }),
{
    let count = history.len() as int;
    let size = layout.words(count);
    let start = assigned(
        zero_words(size as nat),
        0,
        history_header(layout, frequency_hz, count),
    );
    assert(0 <= size && layout.header_words <= size) by (nonlinear_arith)
        requires
            size == layout.header_words + count * layout.record_words,
            count >= 0,
    ;
    lemma_assigned_len(
        zero_words(size as nat),
        0,
        history_header(layout, frequency_hz, count),
        layout.header_words as int,
    );
    lemma_samples_assigned(start, layout, history, count, index);
    let fields = sample_fields(layout.sample, history[index]);
    let words = history_words(layout, frequency_hz, history);
    let base = layout.header_words + index * layout.record_words;
    assert(words[base + fields[0].0] == fields[0].1);
    assert(words[base + fields[1].0] == fields[1].1);
    assert(words[base + fields[2].0] == fields[2].1);
    assert(words[base + fields[3].0] == fields[3].1);
    assert(words[base + fields[4].0] == fields[4].1);
    assert(words[base + fields[5].0] == fields[5].1);
    assert(words[base + fields[6].0] == fields[6].1);
    assert(words[base + fields[7].0] == fields[7].1);
    assert(words[base + fields[8].0] == fields[8].1);
    assert(words[base + fields[9].0] == fields[9].1);
    assert(words[base + fields[10].0] == fields[10].1);
    assert(words[base + fields[11].0] == fields[11].1);
    assert(words[base + fields[12].0] == fields[12].1);
}

proof fn lemma_assigned_len(words: Seq<u64>, base: int, fields: Seq<(u16, u64)>, width: int)
    requires
        0 <= base,
        base + width <= words.len(),
        fields_within(fields, width),
    ensures
        assigned(words, base, fields).len() == words.len(),
    decreases fields.len(),
{
    if fields.len() > 0 {
        let before = fields.drop_last();
        assert forall|i: int| 0 <= i < before.len() implies (#[trigger] before[i]).0 < width by {
            assert(fields[i].0 < width);
        }
        assert(fields[fields.len() - 1].0 < width);
        lemma_assigned_len(words, base, before, width);
    }
}

proof fn lemma_samples_assigned(
    words: Seq<u64>,
    layout: HistoryLayout,
    history: Seq<HistorySample>,
    count: int,
    index: int,
)
    requires
        layout.wf(),
        0 <= index < count <= history.len(),
        layout.words(count) <= words.len(),
        forall|sample: HistorySample| #[trigger] apart(sample_fields(layout.sample, sample)),
    ensures
        samples_assigned(words, layout, history, count).len() == words.len(),
        ({
            let fields = sample_fields(layout.sample, history[index]);
            forall|i: int|
                0 <= i < fields.len() ==> samples_assigned(
                    words,
                    layout,
                    history,
                    count,
                )[layout.words(index) + (#[trigger] fields[i]).0] == fields[i].1
        }),
    decreases count,
{
    let width = layout.record_words as int;
    let fields = sample_fields(layout.sample, history[index]);
    let last = sample_fields(layout.sample, history[count - 1]);
    let before = samples_assigned(words, layout, history, count - 1);
    let base = layout.words(count - 1);
    let h = layout.header_words as int;
    assert(0 <= base && base + width == layout.words(count)) by (nonlinear_arith)
        requires
            base == h + (count - 1) * width,
            layout.words(count) == h + count * width,
            count >= 1,
            width >= 0,
            h >= 0,
    ;
    assert(fields_within(last, width));
    assert(fields_within(fields, width));
    assert(apart(last));
    lemma_samples_len(words, layout, history, count - 1);
    if index == count - 1 {
        if words.len() > 0 {
            lemma_assigned(before, base, last, width, 0);
        }
    } else {
        let own = layout.words(index);
        assert(0 <= own && own + width <= base) by (nonlinear_arith)
            requires
                own == h + index * width,
                base == h + (count - 1) * width,
                0 <= index <= count - 2,
                width >= 0,
                h >= 0,
        ;
        lemma_samples_assigned(words, layout, history, count - 1, index);
        assert forall|i: int| 0 <= i < fields.len() implies samples_assigned(
            words,
            layout,
            history,
            count,
        )[own + (#[trigger] fields[i]).0] == fields[i].1 by {
            assert(fields[i].0 < width);
            lemma_assigned(before, base, last, width, own + fields[i].0);
        }
        lemma_assigned_len(before, base, last, width);
    }
}

proof fn lemma_samples_len(
    words: Seq<u64>,
    layout: HistoryLayout,
    history: Seq<HistorySample>,
    count: int,
)
    requires
        layout.wf(),
        count <= 0 || layout.words(count) <= words.len(),
    ensures
        samples_assigned(words, layout, history, count).len() == words.len(),
    decreases count,
{
    if count > 0 {
        let width = layout.record_words as int;
        let base = layout.words(count - 1);
        let h = layout.header_words as int;
        assert(0 <= base && base + width == layout.words(count)) by (nonlinear_arith)
            requires
                base == h + (count - 1) * width,
                layout.words(count) == h + count * width,
                count >= 1,
                width >= 0,
                h >= 0,
        ;
        lemma_samples_len(words, layout, history, count - 1);
        lemma_assigned_len(
            samples_assigned(words, layout, history, count - 1),
            base,
            sample_fields(layout.sample, history[count - 1]),
            width,
        );
    }
}

/// A chunk of the archive takes as many records as its size has room for.
pub proof fn law_chunk_is_filled(layout: ArchiveLayout)
    requires
        layout.wf(),
    ensures
        8 * (layout.header_words + layout.records_per_chunk() * layout.record_words)
            <= layout.chunk_bytes,
        layout.chunk_bytes < 8 * (layout.header_words + (layout.records_per_chunk() + 1)
            * layout.record_words) + 8,
{
    let room = layout.chunk_bytes as int / 8 - layout.header_words;
    let width = layout.record_words as int;
    let count = room / width;
    assert(count * width <= room < (count + 1) * width) by (nonlinear_arith)
        requires
            count == room / width,
            width > 0,
            room >= 0,
    ;
}

/// Samples are numbered in turn, from one on.
pub proof fn law_samples_are_numbered_in_turn(archive: ArchiveView, sample: HistorySample, ticks: u64)
    ensures
        fresh_archive(ticks).next_sequence == 1,
        fresh_archive(ticks).chunk.len() == 0,
        fresh_archive(ticks).session_ticks == ticks,
        archive.recorded(sample).chunk.last().sequence == archive.next_sequence,
        archive.recorded(sample).chunk.last().sample == sample,
        archive.recorded(sample).chunk.drop_last() == archive.chunk,
        archive.next_sequence < u64::MAX ==> archive.recorded(sample).next_sequence
            == archive.next_sequence + 1,
        archive.recorded(sample).chunk_index == archive.chunk_index,
{
    assert(archive.recorded(sample).chunk.drop_last() =~= archive.chunk);
}

/// A flush goes to the chunk's own object, is given up after two seconds, and, where
/// it filled its chunk, is followed by the next chunk of the ring.
pub proof fn law_flushes_go_round_the_ring(
    archive: ArchiveView,
    layout: ArchiveLayout,
    ticks: u64,
    frequency_hz: u64,
    reply: FlushReply,
)
    requires
        layout.wf(),
        archive.wf(layout),
        archive.active_flush is Some,
        0 < frequency_hz <= 0xffff_ffff,
    ensures
        ({
            let active = archive.active_flush->0;
            let (after, progress) = flush_polled(archive, layout, ticks, frequency_hz, reply);
            &&& progress matches FlushProgress::SetSize { object_id } ==> object_id
                == layout.base_id + archive.chunk_index
            &&& progress matches FlushProgress::Write { object_id } ==> object_id == layout.base_id
                + archive.chunk_index
            &&& ticks >= active.started_ticks + 2 * frequency_hz ==> progress
                == FlushProgress::Failed && after.active_flush is None && after.chunk
                == archive.chunk && after.chunk_index == archive.chunk_index
            &&& ticks < active.started_ticks + 2 * frequency_hz && reply == FlushReply::Pending
                ==> progress == FlushProgress::Pending && after == archive
            &&& progress is Complete && active.full ==> after.chunk_index == if archive.chunk_index
                + 1 == layout.chunks {
                0
            } else {
                archive.chunk_index + 1
            }
            &&& progress is Complete && !active.full ==> after.chunk_index == archive.chunk_index
            &&& progress is Complete ==> after.active_flush is None
            &&& after.next_sequence == archive.next_sequence
        }),
{
    assert(frequency_hz * FLUSH_TIMEOUT_MS == frequency_hz * 2000);
    let next = archive.chunk_index + 1;
    let chunks = layout.chunks as int;
    assert(next < chunks ==> next % chunks == next) by (nonlinear_arith)
        requires
            0 <= next <= chunks,
            chunks > 0,
    ;
    assert(next == chunks ==> next % chunks == 0) by (nonlinear_arith)
        requires
            chunks > 0,
    ;
}

/// Samples are taken at their interval, and the wait for one is at least a
/// millisecond, and at most ten while a flush is under way.
pub proof fn law_samples_come_at_their_interval(
    observer: ObserverView,
    ticks: u64,
    schedule: Schedule,
)
    requires
        schedule.frequency_hz * schedule.sample_interval_ms <= u64::MAX,
        schedule.frequency_hz * schedule.sample_interval_ms >= 1000,
        ticks + schedule.frequency_hz * schedule.sample_interval_ms <= u64::MAX,
    ensures
        next_due(ticks, schedule) == ticks + schedule.frequency_hz * schedule.sample_interval_ms
            / 1000,
        wait_ms(observer, ticks, schedule.frequency_hz) >= 1,
        ticks >= observer.next_sample_ticks ==> wait_ms(observer, ticks, schedule.frequency_hz)
            == 1,
        observer.archive is Some && observer.archive->0.active_flush is Some ==> wait_ms(
            observer,
            ticks,
            schedule.frequency_hz,
        ) <= 10,
        ticks < observer.next_sample_ticks && (observer.archive is None
            || observer.archive->0.active_flush is None) && wait_ms(
            observer,
            ticks,
            schedule.frequency_hz,
        ) > 1 ==> {
            let wait = wait_ms(observer, ticks, schedule.frequency_hz);
            let left = (observer.next_sample_ticks - ticks) * 1000;
            wait * schedule.frequency_hz <= left < (wait + 1) * schedule.frequency_hz
        },
{
    let hz = schedule.frequency_hz as int;
    assert(hz > 0) by (nonlinear_arith)
        requires
            hz * schedule.sample_interval_ms >= 1000,
            hz >= 0,
    ;
    let left = (observer.next_sample_ticks - ticks) * 1000;
    let ms = left / hz;
    assert(ms * hz <= left < (ms + 1) * hz) by (nonlinear_arith)
        requires
            ms == left / hz,
            hz > 0,
    ;
}

/// A chunk's header says which chunk it is, of which session, and with which sample it
/// starts; a flush takes as many samples as the chunk has room for.
pub proof fn law_chunk_header_says_what_follows(
    layout: ArchiveLayout,
    archive: ArchiveView,
    frequency_hz: u64,
)
    requires
        layout.wf(),
        archive.chunk.len() > 0,
    ensures
        ({
            let count = archive.flush_count(layout);
            let header = chunk_header(layout, archive, frequency_hz, count);
            &&& count <= archive.chunk.len()
            &&& count <= layout.records_per_chunk()
            &&& count == archive.chunk.len() || count == layout.records_per_chunk()
            &&& header.len() == 7
            &&& header[0] == (layout.magic, layout.magic_number)
            &&& header[1] == (layout.version, layout.version_number)
            &&& header[2] == (layout.chunk_index, archive.chunk_index)
            &&& header[3] == (layout.session_ticks, archive.session_ticks)
            &&& header[4] == (layout.first_sequence, archive.chunk[0].sequence)
            &&& header[5] == (layout.record_count, count as u64)
            &&& header[6] == (layout.counter_frequency_hz, frequency_hz)
        }),
        record_fields(layout, archive.chunk[0])[0] == (
            layout.sequence,
            archive.chunk[0].sequence,
        ),
        record_fields(layout, archive.chunk[0]).skip(1) == sample_fields(
            layout.sample,
            archive.chunk[0].sample,
        ),
{
    assert(record_fields(layout, archive.chunk[0]).skip(1) =~= sample_fields(
        layout.sample,
        archive.chunk[0].sample,
    ));
}

/// Record `index` of a chunk has its number and its sample in their places, behind
/// the header and the records before it.
pub proof fn law_chunk_has_every_record(
    layout: ArchiveLayout,
    archive: ArchiveView,
    frequency_hz: u64,
    index: int,
)
    requires
        layout.wf(),
        0 <= index < archive.flush_count(layout),
        forall|record: ArchivedSample| #[trigger] apart(record_fields(layout, record)),
    ensures
        ({
            let words = chunk_words(layout, archive, frequency_hz);
            let base = layout.header_words + index * layout.record_words;
            let record = archive.chunk[index];
            &&& words[base + layout.sequence] == record.sequence
            &&& words[base + layout.sample.monotonic_ticks] == record.sample.ticks
            &&& words[base + layout.sample.threads] == record.sample.threads
            &&& words[base + layout.sample.domains] == record.sample.domains
            &&& words[base + layout.sample.free_frames] == record.sample.free_frames
            &&& words[base + layout.sample.heap_peak_bytes] == record.sample.heap_peak_bytes
        }),
{
    let count = archive.flush_count(layout);
    let size = layout.words(count);
    let header = chunk_header(layout, archive, frequency_hz, count);
    let start = assigned(zero_words(size as nat), 0, header);
    assert(0 <= size && layout.header_words <= size) by (nonlinear_arith)
        requires
            size == layout.header_words + count * layout.record_words,
            count >= 0,
    ;
    lemma_assigned_len(zero_words(size as nat), 0, header, layout.header_words as int);
    lemma_records_assigned(start, layout, archive.chunk, count, index);
    let fields = record_fields(layout, archive.chunk[index]);
    let own = sample_fields(layout.sample, archive.chunk[index].sample);
    let words = chunk_words(layout, archive, frequency_hz);
    let base = layout.header_words + index * layout.record_words;
    assert(words[base + fields[0].0] == fields[0].1);
    assert(words[base + fields[1].0] == fields[1].1 && fields[1] == own[0]);
    assert(words[base + fields[2].0] == fields[2].1 && fields[2] == own[1]);
    assert(words[base + fields[3].0] == fields[3].1 && fields[3] == own[2]);
    assert(words[base + fields[8].0] == fields[8].1 && fields[8] == own[7]);
    assert(words[base + fields[13].0] == fields[13].1 && fields[13] == own[12]);
}

proof fn lemma_record_within(layout: ArchiveLayout, record: ArchivedSample)
    requires
        layout.wf(),
    ensures
        fields_within(record_fields(layout, record), layout.record_words as int),
{
    let fields = record_fields(layout, record);
    let own = sample_fields(layout.sample, record.sample);
    assert forall|i: int| 0 <= i < fields.len() implies (#[trigger] fields[i]).0
        < layout.record_words by {
        if i > 0 {
            assert(fields[i] == own[i - 1]);
        }
    }
}

proof fn lemma_records_assigned(
    words: Seq<u64>,
    layout: ArchiveLayout,
    chunk: Seq<ArchivedSample>,
    count: int,
    index: int,
)
    requires
        layout.wf(),
        0 <= index < count <= chunk.len(),
        layout.words(count) <= words.len(),
        forall|record: ArchivedSample| #[trigger] apart(record_fields(layout, record)),
    ensures
        records_assigned(words, layout, chunk, count).len() == words.len(),
        ({
            let fields = record_fields(layout, chunk[index]);
            forall|i: int|
                0 <= i < fields.len() ==> records_assigned(
                    words,
                    layout,
                    chunk,
                    count,
                )[layout.words(index) + (#[trigger] fields[i]).0] == fields[i].1
        }),
    decreases count,
{
    let width = layout.record_words as int;
    let fields = record_fields(layout, chunk[index]);
    let last = record_fields(layout, chunk[count - 1]);
    let before = records_assigned(words, layout, chunk, count - 1);
    let base = layout.words(count - 1);
    let h = layout.header_words as int;
    assert(0 <= base && base + width == layout.words(count)) by (nonlinear_arith)
        requires
            base == h + (count - 1) * width,
            layout.words(count) == h + count * width,
            count >= 1,
            width >= 0,
            h >= 0,
    ;
    lemma_record_within(layout, chunk[index]);
    lemma_record_within(layout, chunk[count - 1]);
    assert(apart(last));
    lemma_records_len(words, layout, chunk, count - 1);
    if index == count - 1 {
        if words.len() > 0 {
            lemma_assigned(before, base, last, width, 0);
        }
    } else {
        let own = layout.words(index);
        assert(0 <= own && own + width <= base) by (nonlinear_arith)
            requires
                own == h + index * width,
                base == h + (count - 1) * width,
                0 <= index <= count - 2,
                width >= 0,
                h >= 0,
        ;
        lemma_records_assigned(words, layout, chunk, count - 1, index);
        assert forall|i: int| 0 <= i < fields.len() implies records_assigned(
            words,
            layout,
            chunk,
            count,
        )[own + (#[trigger] fields[i]).0] == fields[i].1 by {
            assert(fields[i].0 < width);
            lemma_assigned(before, base, last, width, own + fields[i].0);
        }
        lemma_assigned_len(before, base, last, width);
    }
}

proof fn lemma_records_len(
    words: Seq<u64>,
    layout: ArchiveLayout,
    chunk: Seq<ArchivedSample>,
    count: int,
)
    requires
        layout.wf(),
        count <= 0 || layout.words(count) <= words.len(),
    ensures
        records_assigned(words, layout, chunk, count).len() == words.len(),
    decreases count,
{
    if count > 0 {
        let width = layout.record_words as int;
        let base = layout.words(count - 1);
        let h = layout.header_words as int;
        assert(0 <= base && base + width == layout.words(count)) by (nonlinear_arith)
            requires
                base == h + (count - 1) * width,
                layout.words(count) == h + count * width,
                count >= 1,
                width >= 0,
                h >= 0,
        ;
        lemma_records_len(words, layout, chunk, count - 1);
        lemma_record_within(layout, chunk[count - 1]);
        lemma_assigned_len(
            records_assigned(words, layout, chunk, count - 1),
            base,
            record_fields(layout, chunk[count - 1]),
            width,
        );
    }
}

/// Seeding records every sample, in order.
pub proof fn law_seeding_records_every_sample(
    archive: ArchiveView,
    samples: Seq<HistorySample>,
    index: int,
)
    requires
        0 <= index < samples.len(),
    ensures
        archive.seeded(samples).chunk.len() == archive.chunk.len() + samples.len(),
        archive.seeded(samples).chunk[archive.chunk.len() + index].sample == samples[index],
        archive.seeded(samples).chunk_index == archive.chunk_index,
        archive.seeded(Seq::empty()) == archive,
    decreases samples.len(),
{
    lemma_seeded_len(archive, samples.drop_last());
    if index < samples.len() - 1 {
        law_seeding_records_every_sample(archive, samples.drop_last(), index);
    }
}

proof fn lemma_seeded_len(archive: ArchiveView, samples: Seq<HistorySample>)
    ensures
        archive.seeded(samples).chunk.len() == archive.chunk.len() + samples.len(),
        archive.seeded(samples).chunk_index == archive.chunk_index,
    decreases samples.len(),
{
    if samples.len() > 0 {
        lemma_seeded_len(archive, samples.drop_last());
    }
}

} // verus!
