use catten_services::object_requests::{save_step, SaveStage, StoreCodes};
use catten_services::time::{
    answer_request, ntp_request, ntp_request_token, ntp_to_unix_ns, parse_ntp_reply, poll_attempt,
    read_monotonic, server_address, start_attempt, ticks_after, ticks_to_ns,
    usable_calibration, Attempt, AttemptOutcome, Calibration, ClockModel, CounterLayout, MonoClock,
    NtpSample, ReplyPoll, Schedule, SyncState, TimeAnswer, TimeError,
    TimeOpcodes, DEFAULT_NTP_SERVER,
};

const HZ: u64 = 1_000_000;
const SECOND: u64 = 1_000_000_000;

fn mono(ticks: u64) -> MonoClock {
    MonoClock { ticks, frequency_hz: HZ }
}

fn sample(utc_ns: u64, mono_ticks: u64) -> NtpSample {
    NtpSample { utc_ns, mono_ticks, uncertainty_ns: 2_000_000, stratum: 2, leap_indicator: 0 }
}

fn record() -> Calibration {
    Calibration {
        utc_ns: 1_700_000_000 * SECOND,
        drift_ppb: -1_234,
        uncertainty_ns: 5,
        sample_count: 3,
        stratum: 2,
        leap_indicator: 1,
        server_ipv4: [1, 2, 3, 4],
    }
}

#[test]
fn ticks_are_converted_and_capped() {
    assert_eq!(ticks_to_ns(3, 2), 1_500_000_000);
    assert_eq!(ticks_to_ns(1, 3), 333_333_333);
    assert_eq!(ticks_to_ns(5, 0), 0);
    assert_eq!(ticks_to_ns(u64::MAX, 1), u64::MAX);
    assert_eq!(ticks_after(mono(10), 2), 10 + 2 * HZ);
    assert_eq!(ticks_after(MonoClock { ticks: 1, frequency_hz: u64::MAX }, 2), u64::MAX);
}

#[test]
fn the_clock_runs_on_the_counter() {
    let mut clock = ClockModel::from_sample(sample(100 * SECOND, 0), mono(0));
    assert_eq!(clock.utc_ns(2 * HZ), 102 * SECOND);
    clock.drift_ppb = 500_000;
    assert_eq!(clock.elapsed_ns(2 * HZ), 2_001_000_000);
    clock.drift_ppb = -500_000;
    assert_eq!(clock.elapsed_ns(2 * HZ), 1_999_000_000);
    assert_eq!(clock.elapsed_ns(0), 0);
}

#[test]
fn told_time_never_goes_back() {
    let mut clock = ClockModel::from_sample(sample(100 * SECOND, 0), mono(0));
    assert_eq!(clock.utc_ns(5 * HZ), 105 * SECOND);
    clock.accept_sample(sample(101 * SECOND, 5 * HZ), mono(5 * HZ));
    assert_eq!(clock.utc_ns(5 * HZ), 105 * SECOND);
    assert_eq!(clock.utc_ns(6 * HZ), 105 * SECOND);
    assert!(clock.utc_ns(11 * HZ) > 105 * SECOND);
}

#[test]
fn a_drift_measurement_counts_for_a_quarter() {
    let mut clock = ClockModel::from_sample(sample(100 * SECOND, 0), mono(0));
    assert_eq!(clock.sample_count, 1);
    clock.accept_sample(sample(100 * SECOND + 1_000 * SECOND + 400_000, 1_000 * HZ), mono(1_000 * HZ));
    assert_eq!(clock.drift_ppb, 100);
    assert_eq!(clock.sample_count, 2);
    assert_eq!(clock.state, SyncState::Synchronized);
    clock.accept_sample(sample(2_100 * SECOND - 1_000_000, 2_000 * HZ), mono(2_000 * HZ));
    assert_eq!(clock.drift_ppb, (300 - 1_400) / 4);
}

#[test]
fn drift_stays_within_what_is_believed() {
    let mut clock = ClockModel::from_sample(sample(100 * SECOND, 0), mono(0));
    for i in 1..40u64 {
        clock.accept_sample(sample((100 + 3 * i) * SECOND, i * HZ), mono(i * HZ));
        assert!(clock.drift_ppb <= 500_000);
    }
    assert!(clock.drift_ppb > 400_000);
}

#[test]
fn a_restart_holds_over_without_measuring_drift() {
    let mut clock = ClockModel::from_persisted(&record(), mono(50));
    assert_eq!(clock.state, SyncState::Holdover);
    assert_eq!(clock.utc_ns(50), 1_700_000_000 * SECOND);
    let snapshot = clock.snapshot(mono(50), [1, 2, 3, 4], 777);
    assert_eq!(snapshot.uncertainty_ms, u32::MAX);
    assert_eq!(snapshot.last_sync_age_ms, 777);
    clock.accept_sample(sample(1_800_000_000 * SECOND, 60), mono(60));
    assert_eq!(clock.drift_ppb, -1_234);
    let mut wild = record();
    wild.drift_ppb = i64::MIN;
    assert_eq!(ClockModel::from_persisted(&wild, mono(0)).drift_ppb, -500_000);
}

#[test]
fn a_snapshot_tells_age_and_uncertainty() {
    let mut clock = ClockModel::from_sample(sample(100 * SECOND + 7, 0), mono(0));
    let snapshot = clock.snapshot(mono(10 * HZ), [9, 9, 9, 9], 0);
    assert_eq!(snapshot.unix_seconds, 110);
    assert_eq!(snapshot.nanosecond, 7);
    assert_eq!(snapshot.last_sync_age_ms, 10_000);
    assert_eq!(snapshot.uncertainty_ms, 3);
    assert_eq!(snapshot.server_ipv4, [9, 9, 9, 9]);
    assert_eq!(snapshot.sample_count, 1);
}

#[test]
fn a_calibration_reads_back() {
    let bytes = record().encode();
    assert_eq!(bytes.len(), 64);
    assert_eq!(&bytes[..8], b"TIMECAL1");
    assert_eq!(Calibration::decode(&bytes), Some(record()));
    for place in 0..64 {
        let mut torn = bytes.clone();
        torn[place] ^= 1;
        assert_eq!(Calibration::decode(&torn), None, "byte {place}");
    }
    assert_eq!(Calibration::decode(&bytes[..63]), None);
}

#[test]
fn a_calibration_is_used_for_its_own_server() {
    let bytes = record().encode();
    assert_eq!(usable_calibration(64, Some(&bytes), [1, 2, 3, 4]), Some(record()));
    assert_eq!(usable_calibration(64, Some(&bytes), [1, 2, 3, 5]), None);
    assert_eq!(usable_calibration(63, Some(&bytes), [1, 2, 3, 4]), None);
    assert_eq!(usable_calibration(64, Some(&bytes[..60]), [1, 2, 3, 4]), None);
    assert_eq!(usable_calibration(64, None, [1, 2, 3, 4]), None);
    let clock = ClockModel::from_sample(sample(100 * SECOND, 0), mono(0));
    let kept = clock.calibration([7, 7, 7, 7]);
    assert_eq!((kept.utc_ns, kept.sample_count, kept.server_ipv4), (100 * SECOND, 1, [7, 7, 7, 7]));
}

#[test]
fn timestamps_of_both_eras_are_understood() {
    assert_eq!(ntp_to_unix_ns(2_208_988_800 << 32), 0);
    assert_eq!(ntp_to_unix_ns((2_208_988_801 << 32) | 0x8000_0000), 1_500_000_000);
    assert_eq!(ntp_to_unix_ns(0), ((1u64 << 32) - 2_208_988_800) * SECOND);
    let mut model = Some(ClockModel::from_sample(sample(1_700_000_000 * SECOND + 250_000_000, 0), mono(0)));
    let token = ntp_request_token(&mut model, mono(0));
    assert_eq!(token >> 32, 1_700_000_000 + 2_208_988_800);
    assert_eq!(token as u32, 0x4000_0000);
    assert_eq!(ntp_to_unix_ns(token), 1_700_000_000 * SECOND + 250_000_000);
}

#[test]
fn without_a_time_the_token_is_made_from_the_counter() {
    let mut none = None;
    assert_eq!(
        ntp_request_token(&mut none, mono(12_345)),
        12_345u64.rotate_left(17) ^ 0xa5c3_7d19_0000_0001
    );
    assert_eq!(0xd2e1_be8c_8000u64.rotate_left(17), 0xa5c3_7d19_0000_0001);
    assert_eq!(ntp_request_token(&mut none, mono(0xd2e1_be8c_8000)), 0xa5c3_7d19_0000_0001);
    assert!(none.is_none());
    let packet = ntp_request(0x0102_0304_0506_0708);
    assert_eq!(packet.len(), 48);
    assert_eq!(packet[0], 0x23);
    assert!(packet[1..40].iter().all(|byte| *byte == 0));
    assert_eq!(&packet[40..], &[1, 2, 3, 4, 5, 6, 7, 8]);
}

fn reply(token: u64) -> Vec<u8> {
    let mut bytes = vec![0u8; 48];
    bytes[0] = 0x24;
    bytes[1] = 3;
    bytes[8..12].copy_from_slice(&0x0001_8000u32.to_be_bytes());
    bytes[24..32].copy_from_slice(&token.to_be_bytes());
    let seconds = 2_208_988_800u64 + 1_000;
    bytes[32..40].copy_from_slice(&(seconds << 32).to_be_bytes());
    bytes[40..48].copy_from_slice(&((seconds << 32) | 0x8000_0000).to_be_bytes());
    bytes
}

#[test]
fn an_answer_gives_the_middle_of_everything() {
    let attempt = start_attempt(77, mono(1_000_000));
    assert_eq!(
        attempt,
        Attempt {
            request_transmit: 77,
            sent_mono_ticks: 1_000_000,
            deadline_mono_ticks: 6_000_000
        }
    );
    let sample = parse_ntp_reply(&reply(77), &attempt, mono(1_900_000)).unwrap();
    assert_eq!(sample.utc_ns, 1_000 * SECOND + 250_000_000);
    assert_eq!(sample.mono_ticks, 1_450_000);
    assert_eq!(sample.uncertainty_ns, 200_000_000 + 1_500_000_000);
    assert_eq!(sample.stratum, 3);
    assert_eq!(sample.leap_indicator, 0);
}

#[test]
fn bad_answers_are_refused() {
    let attempt = start_attempt(77, mono(1_000_000));
    let now = mono(1_900_000);
    assert!(parse_ntp_reply(&reply(78), &attempt, now).is_none());
    assert!(parse_ntp_reply(&reply(77)[..47], &attempt, now).is_none());
    assert!(parse_ntp_reply(&reply(77), &attempt, mono(999_999)).is_none());
    let with = |place: usize, value: u8| {
        let mut bytes = reply(77);
        bytes[place] = value;
        parse_ntp_reply(&bytes, &attempt, now)
    };
    assert!(with(0, 0xe4).is_none());
    assert!(with(0, 0x14).is_none());
    assert!(with(0, 0x23).is_none());
    assert!(with(1, 0).is_none());
    assert!(with(1, 16).is_none());
    let mut silent = reply(77);
    silent[40..48].fill(0);
    assert!(parse_ntp_reply(&silent, &attempt, now).is_none());
    let mut backwards = reply(77);
    backwards[43] -= 1;
    assert!(parse_ntp_reply(&backwards, &attempt, now).is_none());
}

#[test]
fn an_attempt_waits_until_its_deadline() {
    let attempt = start_attempt(77, mono(1_000_000));
    let outcome = |poll, ticks| poll_attempt(poll, &attempt, mono(ticks));
    assert_eq!(outcome(ReplyPoll::Pending, 5_999_999), AttemptOutcome::Waiting);
    assert_eq!(outcome(ReplyPoll::Pending, 6_000_000), AttemptOutcome::Failed);
    assert_eq!(outcome(ReplyPoll::Failed, 1_100_000), AttemptOutcome::Failed);
    let bytes = reply(77);
    let replied = |result, memory| ReplyPoll::Replied { result, memory };
    assert!(matches!(
        outcome(replied(48, Some(&bytes[..])), 1_100_000),
        AttemptOutcome::Sampled { .. }
    ));
    assert_eq!(outcome(replied(47, Some(&bytes[..])), 1_100_000), AttemptOutcome::Failed);
    assert_eq!(outcome(replied(49, Some(&bytes[..])), 1_100_000), AttemptOutcome::Failed);
    assert_eq!(outcome(replied(48, None), 1_100_000), AttemptOutcome::Failed);
}

#[test]
fn requests_are_made_on_schedule() {
    let mut schedule = Schedule::new(mono(5), true);
    assert!(schedule.due(mono(5)));
    schedule.no_address(mono(5));
    assert!(!schedule.due(mono(5)));
    assert!(schedule.due(mono(5 + HZ)));
    assert_eq!(schedule.failures, 0);
    schedule.started(mono(5 + HZ), true);
    assert!(!schedule.due(mono(u64::MAX)));
    schedule.ended(mono(10 * HZ), true);
    assert_eq!(schedule.next_sync_ticks, 910 * HZ);
    schedule.started(mono(910 * HZ), false);
    assert_eq!(schedule.failures, 1);
    assert_eq!(schedule.next_sync_ticks, 974 * HZ);
    schedule.ended(mono(1_000 * HZ), false);
    assert_eq!((schedule.failures, schedule.next_sync_ticks), (2, 1_064 * HZ));
    assert_eq!(Schedule::new(mono(0), false).next_sync_ticks, 64 * HZ);
}

#[test]
fn a_calibration_is_saved_in_four_steps() {
    let codes = StoreCodes { ok: 0, exists: -17 };
    let run = |replies: &[Option<i64>]| {
        let mut stage = SaveStage::Create;
        for reply in replies {
            stage = save_step(stage, *reply, &codes);
        }
        stage
    };
    let ok = Some(0);
    assert_eq!(run(&[ok, ok, ok, ok]), SaveStage::Saved);
    assert_eq!(run(&[Some(-17), ok, ok, ok]), SaveStage::Saved);
    assert_eq!(run(&[ok, ok, ok]), SaveStage::Flush);
    assert_eq!(run(&[Some(-1)]), SaveStage::Failed);
    assert_eq!(run(&[ok, Some(-17)]), SaveStage::Failed);
    assert_eq!(run(&[ok, ok, None]), SaveStage::Failed);
    assert_eq!(run(&[ok, ok, ok, Some(-5)]), SaveStage::Failed);
}

#[test]
fn the_server_and_the_counter_are_read() {
    assert_eq!(server_address(Some(&[1, 2, 3, 4])), [1, 2, 3, 4]);
    assert_eq!(server_address(Some(&[1, 2, 3])), DEFAULT_NTP_SERVER);
    assert_eq!(server_address(None), [162, 159, 200, 1]);
    let layout = CounterLayout {
        header_words: 4,
        magic_number: 0x1234,
        version_number: 2,
        magic: 0,
        version: 1,
        monotonic_ticks: 2,
        frequency_hz: 3,
    };
    let words: Vec<u8> =
        [0x1234u64, 2, 99, 1_000].iter().flat_map(|word| word.to_le_bytes()).collect();
    let clock = Some(MonoClock { ticks: 99, frequency_hz: 1_000 });
    assert_eq!(read_monotonic(32, Some(&words), &layout), clock);
    assert_eq!(read_monotonic(31, Some(&words), &layout), None);
    assert_eq!(read_monotonic(32, Some(&words[..31]), &layout), None);
    assert_eq!(read_monotonic(32, None, &layout), None);
    let other = CounterLayout { version_number: 3, ..layout };
    assert_eq!(read_monotonic(32, Some(&words), &other), None);
    let mut stopped = words.clone();
    stopped[24..32].fill(0);
    assert_eq!(read_monotonic(32, Some(&stopped), &layout), None);
}

#[test]
fn requests_are_answered_or_refused() {
    let codes = TimeOpcodes { now: 1, iso8601: 2, unix_seconds: 3 };
    let mut model = Some(ClockModel::from_sample(sample(100 * SECOND, 0), mono(0)));
    let refusal = |error| TimeAnswer::Refusal { error };
    let mut ask = |opcode, clock| answer_request(&mut model, opcode, &codes, clock, [0; 4], 0);
    assert_eq!(ask(9, Some(mono(0))), refusal(TimeError::BadOpcode));
    assert_eq!(ask(1, None), refusal(TimeError::Unavailable));
    assert_eq!(ask(3, Some(mono(HZ))), TimeAnswer::Seconds { seconds: 101 });
    assert!(matches!(ask(1, Some(mono(HZ))), TimeAnswer::Snapshot { .. }));
    assert!(matches!(ask(2, Some(mono(HZ))), TimeAnswer::Text { .. }));
    let mut none = None;
    assert_eq!(
        answer_request(&mut none, 1, &codes, Some(mono(0)), [0; 4], 0),
        refusal(TimeError::Unsynchronized)
    );
}
