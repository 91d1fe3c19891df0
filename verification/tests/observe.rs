use std::collections::VecDeque;

use catten_services::observe::{
    archive_records_per_chunk, history_image, read_word, snapshot_sample, Archive, ArchiveLayout,
    FlushProgress, FlushReply, FlushStage, HistoryLayout, HistorySample, Observer, SampleLayout,
    Schedule, SnapshotLayout,
};

fn sample(ticks: u64) -> HistorySample {
    HistorySample {
        ticks,
        free_frames: 1,
        usable_frames: 2,
        logical_processors: 3,
        cpu_busy_ticks: 4,
        threads: 5,
        domains: 6,
        owned_frames: 7,
        heap_allocated_bytes: 8,
        heap_peak_bytes: 9,
        stack_pages: 10,
        stack_used_high_water: 11,
        threads_high_water: 12,
    }
}

fn sample_layout(first: u16) -> SampleLayout {
    SampleLayout {
        monotonic_ticks: first,
        threads: first + 1,
        domains: first + 2,
        owned_frames: first + 3,
        stack_pages: first + 4,
        stack_used_high_water: first + 5,
        threads_high_water: first + 6,
        free_frames: first + 7,
        usable_frames: first + 8,
        logical_processors: first + 9,
        cpu_busy_ticks: first + 10,
        heap_allocated_bytes: first + 11,
        heap_peak_bytes: first + 12,
    }
}

fn archive_layout() -> ArchiveLayout {
    ArchiveLayout {
        magic_number: 0xa11,
        version_number: 1,
        base_id: 100,
        chunks: 2,
        chunk_bytes: 8 * (7 + 14 * 3 + 5),
        header_words: 7,
        record_words: 14,
        magic: 0,
        version: 1,
        chunk_index: 2,
        session_ticks: 3,
        first_sequence: 4,
        record_count: 5,
        counter_frequency_hz: 6,
        sequence: 0,
        sample: sample_layout(1),
    }
}

fn schedule() -> Schedule {
    Schedule {
        history_capacity: 3,
        sample_interval_ms: 1000,
        flush_interval_ms: 5000,
        frequency_hz: 1000,
    }
}

fn snapshot_layout() -> SnapshotLayout {
    SnapshotLayout {
        magic_number: 0x0b5,
        version_number: 4,
        header_words: 11,
        thread_words: 2,
        domain_words: 6,
        magic: 0,
        version: 1,
        record_bytes: 2,
        domain_record_bytes: 3,
        monotonic_ticks: 4,
        free_frames: 5,
        usable_frames: 6,
        logical_processors: 7,
        cpu_busy_ticks: 8,
        record_count: 9,
        domain_record_count: 10,
        thread_stack_reserved_pages: 0,
        thread_stack_used_pages: 1,
        domain_owned_frames: 0,
        domain_heap_status_valid: 1,
        domain_heap_allocated_bytes: 2,
        domain_heap_peak_bytes: 3,
        domain_stack_pages_used_high_water: 4,
        domain_threads_high_water: 5,
    }
}

fn image(words: &[u64]) -> Vec<u8> {
    words.iter().flat_map(|word| word.to_le_bytes()).collect()
}

fn words(image: &[u8]) -> Vec<u64> {
    (0..image.len() / 8).map(|index| read_word(image, index).unwrap()).collect()
}

const SNAPSHOT: [u64; 27] = [
    0x0b5, 4, 16, 48, 500, 60, 70, 2, 80, 2, 2, // header
    16, 5, 16, 9, // threads
    100, 1, 1000, 2000, 3, 4, // a domain with a heap
    200, 0, 9999, 9999, 12, 7, // one without
];

#[test]
fn a_snapshot_is_summed_up() {
    let taken = snapshot_sample(&image(&SNAPSHOT), &snapshot_layout()).unwrap();
    assert_eq!(
        taken,
        HistorySample {
            ticks: 500,
            free_frames: 60,
            usable_frames: 70,
            logical_processors: 2,
            cpu_busy_ticks: 80,
            threads: 2,
            domains: 2,
            owned_frames: 300,
            heap_allocated_bytes: 1000,
            heap_peak_bytes: 2000,
            stack_pages: 32,
            stack_used_high_water: 12,
            threads_high_water: 7,
        }
    );
}

#[test]
fn a_snapshot_of_another_format_is_refused() {
    let layout = snapshot_layout();
    for index in 0..4 {
        let mut changed = SNAPSHOT;
        changed[index] += 1;
        assert_eq!(snapshot_sample(&image(&changed), &layout), None);
    }
    let mut many = SNAPSHOT;
    many[9] = 4097;
    assert_eq!(snapshot_sample(&image(&many), &layout), None);
    assert_eq!(snapshot_sample(&image(&SNAPSHOT[..26]), &layout), None);
    assert_eq!(snapshot_sample(&[], &layout), None);
    assert_eq!(read_word(&[1, 0, 0, 0, 0, 0, 0], 0), None);
    assert_eq!(read_word(&[1, 0, 0, 0, 0, 0, 0, 0], usize::MAX), None);
}

#[test]
fn history_is_written_field_by_field() {
    let layout = HistoryLayout {
        magic_number: 0x415,
        version_number: 2,
        sample_interval: 1000,
        header_words: 7,
        record_words: 13,
        magic: 0,
        version: 1,
        record_bytes: 2,
        record_count: 3,
        counter_frequency_hz: 4,
        sample_interval_ms: 5,
        sample: sample_layout(0),
    };
    let mut history = VecDeque::new();
    history.push_back(sample(77));
    let written = words(&history_image(&layout, 24_000_000, &history));
    assert_eq!(
        written,
        vec![
            0x415, 2, 104, 1, 24_000_000, 1000, 0, 77, 5, 6, 7, 10, 11, 12, 1, 2, 3, 4, 8, 9
        ]
    );
}

#[test]
fn history_keeps_the_most_recent_samples() {
    let schedule = schedule();
    let layout = archive_layout();
    let mut observer = Observer::new(0, Some(sample(0)), &schedule);
    assert!(!observer.sample_due(999));
    assert!(observer.sample_due(1000));
    for second in 1..6 {
        observer.take_sample(second * 1000, Some(sample(second * 1000)), &schedule, &layout);
    }
    observer.take_sample(6000, None, &schedule, &layout);
    let kept: Vec<u64> = observer.history.iter().map(|sample| sample.ticks).collect();
    assert_eq!(kept, vec![3000, 4000, 5000]);
    assert_eq!(observer.next_sample_ticks, 7000);
}

#[test]
fn an_archive_is_seeded_with_the_recent_history() {
    let schedule = Schedule { history_capacity: 10, ..schedule() };
    let layout = archive_layout();
    assert_eq!(archive_records_per_chunk(&layout), 3);
    let mut observer = Observer::new(0, Some(sample(0)), &schedule);
    for second in 1..5 {
        observer.take_sample(second * 1000, Some(sample(second * 1000)), &schedule, &layout);
    }
    assert!(observer.lookup_due(4500));
    observer.looked_up(4500, false, &schedule, &layout);
    assert!(!observer.lookup_due(5499));
    assert!(observer.lookup_due(5500));
    observer.looked_up(5500, true, &schedule, &layout);
    assert!(!observer.lookup_due(9999));
    let archive = observer.archive.as_ref().unwrap();
    let seeded: Vec<(u64, u64)> =
        archive.chunk.iter().map(|record| (record.sequence, record.sample.ticks)).collect();
    assert_eq!(seeded, vec![(1, 2000), (2, 3000), (3, 4000)]);
    assert_eq!(archive.session_ticks, 5500);
}

#[test]
fn flush_steps_follow_each_other() {
    let layout = archive_layout();
    let mut archive = Archive::new(10);
    for ticks in 20..24 {
        archive.record(sample(ticks));
    }
    assert!(archive.due(30, 1000, &layout));
    let start = archive.start_flush(30, 1000, &layout);
    assert_eq!(start.object_id, 100);
    assert_eq!(start.size, 8 * (7 + 3 * 14));
    let written = words(&start.image);
    assert_eq!(&written[..9], &[0xa11, 1, 0, 10, 1, 3, 1000, 1, 20]);
    assert!(!archive.due(30, 1000, &layout));
    let mut poll = |archive: &mut Archive, reply| archive.poll_flush(31, 1000, reply, &layout);
    assert_eq!(poll(&mut archive, FlushReply::Pending), FlushProgress::Pending);
    assert_eq!(poll(&mut archive, FlushReply::Exists), FlushProgress::SetSize { object_id: 100 });
    assert_eq!(archive.active_flush.unwrap().stage, FlushStage::Sizing);
    assert_eq!(poll(&mut archive, FlushReply::Done), FlushProgress::Write { object_id: 100 });
    assert_eq!(poll(&mut archive, FlushReply::Done), FlushProgress::Flush);
    archive.record(sample(24));
    assert_eq!(
        poll(&mut archive, FlushReply::Done),
        FlushProgress::Complete { record_count: 3, full: true }
    );
    assert_eq!(poll(&mut archive, FlushReply::Done), FlushProgress::Idle);
    let left: Vec<u64> = archive.chunk.iter().map(|record| record.sequence).collect();
    assert_eq!(left, vec![4, 5]);
    assert_eq!(archive.chunk_index, 1);
}

#[test]
fn a_part_filled_chunk_is_kept_after_its_flush() {
    let layout = archive_layout();
    let mut archive = Archive::new(0);
    archive.record(sample(1));
    assert!(!archive.due(999, 1000, &layout));
    assert!(archive.due(1000, 1000, &layout));
    archive.start_flush(1000, 1000, &layout);
    for _ in 0..3 {
        archive.poll_flush(1001, 1000, FlushReply::Done, &layout);
    }
    assert_eq!(
        archive.poll_flush(1001, 1000, FlushReply::Done, &layout),
        FlushProgress::Complete { record_count: 1, full: false }
    );
    assert_eq!(archive.chunk.len(), 1);
    assert_eq!(archive.chunk_index, 0);
}

#[test]
fn a_flush_fails_on_refusal_and_on_time() {
    let layout = archive_layout();
    for (ticks, reply) in
        [(1, FlushReply::Failed), (2001, FlushReply::Done), (2000, FlushReply::Pending)]
    {
        let mut archive = Archive::new(0);
        archive.record(sample(0));
        archive.start_flush(0, 1000, &layout);
        assert_eq!(archive.poll_flush(ticks, 1000, reply, &layout), FlushProgress::Failed);
        assert!(archive.active_flush.is_none());
    }
    let mut archive = Archive::new(0);
    archive.record(sample(0));
    archive.start_flush(0, 1000, &layout);
    archive.poll_flush(1, 1000, FlushReply::Done, &layout);
    assert_eq!(archive.poll_flush(1, 1000, FlushReply::Exists, &layout), FlushProgress::Failed);
}

#[test]
fn an_observer_drops_an_archive_that_fails() {
    let schedule = schedule();
    let layout = archive_layout();
    let mut observer = Observer::new(0, Some(sample(0)), &schedule);
    assert_eq!(observer.poll_flush(0, FlushReply::Done, &schedule, &layout), FlushProgress::Idle);
    assert!(observer.start_due_flush(9000, &schedule, &layout).is_none());
    observer.looked_up(0, true, &schedule, &layout);
    assert!(observer.start_due_flush(4999, &schedule, &layout).is_none());
    let start = observer.start_due_flush(5000, &schedule, &layout).unwrap();
    assert_eq!(start.object_id, 100);
    assert_eq!(
        observer.poll_flush(5001, FlushReply::Failed, &schedule, &layout),
        FlushProgress::Failed
    );
    assert!(observer.archive.is_none());
    assert_eq!(observer.history.len(), 1);
    observer.looked_up(6000, true, &schedule, &layout);
    observer.drop_archive();
    assert!(observer.archive.is_none());
}

#[test]
fn the_observer_sleeps_until_the_next_sample() {
    let schedule = schedule();
    let layout = archive_layout();
    let mut observer = Observer::new(0, Some(sample(0)), &schedule);
    assert_eq!(observer.remaining_ms(400, 1000), 600);
    assert_eq!(observer.remaining_ms(1000, 1000), 1);
    observer.looked_up(0, true, &schedule, &layout);
    observer.start_due_flush(5000, &schedule, &layout);
    assert_eq!(observer.remaining_ms(400, 1000), 10);
}
