//! UTC from a monotonic counter, corrected by samples from a time server.
//!
//! Between two samples the clock runs on the counter, corrected by the drift
//! that earlier samples showed. The latest calibration is kept across restarts;
//! it cannot account for the time without power, so a clock that starts from it
//! says so until a fresh sample arrives.
use vstd::prelude::*;

use crate::hash;
use crate::wire;

verus! {

/// The drift that a counter is believed to have at most, in parts per billion.
pub const MAX_DRIFT_PPB: i64 = 500_000;

/// The least drift that uncertainty grows with, in parts per billion.
pub const UNCERTAINTY_FLOOR_PPB: u64 = 50_000;

pub const REQUEST_TIMEOUT_MS: u64 = 5_000;

/// The pause after a failed attempt, in seconds.
pub const RETRY_INTERVAL_SECONDS: u64 = 64;

/// The pause after a sample, in seconds.
pub const SYNC_INTERVAL_SECONDS: u64 = 900;

pub const NTP_PACKET_LEN: usize = 48;

/// 1970 in seconds since 1900.
pub const NTP_UNIX_EPOCH_SECONDS: u64 = 2_208_988_800;

pub const DEFAULT_NTP_SERVER: [u8; 4] = [162, 159, 200, 1];

/// A reading of the monotonic counter.
#[derive(Clone, Copy, Debug, PartialEq, Eq, Structural)]
pub struct MonoClock {
    pub ticks: u64,
    pub frequency_hz: u64,
}

/// How far the clock can be trusted.
#[derive(Clone, Copy, Debug, PartialEq, Eq, Structural)]
pub enum SyncState {
    /// It runs on from before a restart.
    Holdover,
    Synchronized,
}

/// The nearest number that fits in 64 bits.
pub open spec fn capped(value: int) -> u64 {
    if value > u64::MAX {
        u64::MAX
    } else if value < 0 {
        0
    } else {
        value as u64
    }
}

/// A quotient, rounded toward zero.
pub open spec fn quotient(dividend: int, divisor: int) -> int {
    if dividend >= 0 {
        dividend / divisor
    } else {
        -((-dividend) / divisor)
    }
}

/// The nearest drift that is believed.
pub open spec fn believed(drift: int) -> i64 {
    if drift > MAX_DRIFT_PPB {
        MAX_DRIFT_PPB
    } else if drift < -MAX_DRIFT_PPB {
        (-MAX_DRIFT_PPB) as i64
    } else {
        drift as i64
    }
}

/// Ticks of a counter in nanoseconds.
pub open spec fn nanoseconds(ticks: int, frequency_hz: int) -> int {
    if frequency_hz == 0 {
        0
    } else {
        ticks * 1_000_000_000 / frequency_hz
    }
}

proof fn lemma_nanoseconds(ticks: u64, frequency_hz: u64)
    ensures
        0 <= nanoseconds(ticks as int, frequency_hz as int) <= ticks * 1_000_000_000,
{
    if frequency_hz > 0 {
        let total = ticks * 1_000_000_000;
        vstd::arithmetic::div_mod::lemma_div_pos_is_pos(total, frequency_hz as int);
        vstd::arithmetic::div_mod::lemma_div_is_ordered_by_denominator(
            total,
            1,
            frequency_hz as int,
        );
    }
}

/// Ticks of a counter in nanoseconds, as far as they fit.
pub fn ticks_to_ns(ticks: u64, frequency_hz: u64) -> (ns: u64)
    ensures
        ns == capped(nanoseconds(ticks as int, frequency_hz as int)),
{
    if frequency_hz == 0 {
        return 0;
    }
    proof {
        lemma_nanoseconds(ticks, frequency_hz);
    }
    let ns: u128 = ticks as u128 * 1_000_000_000 / frequency_hz as u128;
    if ns > u64::MAX as u128 {
        u64::MAX
    } else {
        ns as u64
    }
}

fn product(one: u64, two: u64) -> (product: u64)
    ensures
        product == capped(one * two),
{
    assert(0 <= one * two <= u64::MAX * u64::MAX) by (nonlinear_arith)
        requires
            one <= u64::MAX,
            two <= u64::MAX,
    ;
    let product: u128 = one as u128 * two as u128;
    if product > u64::MAX as u128 {
        u64::MAX
    } else {
        product as u64
    }
}

/// The count some seconds after a reading.
pub fn ticks_after(clock: MonoClock, seconds: u64) -> (ticks: u64)
    ensures
        ticks == capped(clock.ticks + capped(clock.frequency_hz * seconds)),
{
    clock.ticks.saturating_add(product(clock.frequency_hz, seconds))
}

/// What a time server's answer says.
#[derive(Clone, Copy, Debug, PartialEq, Eq, Structural)]
pub struct NtpSample {
    pub utc_ns: u64,
    pub mono_ticks: u64,
    pub uncertainty_ns: u64,
    pub stratum: u8,
    pub leap_indicator: u8,
}

/// The clock.
#[derive(Clone, Copy, Debug, PartialEq, Eq)]
pub struct ClockModel {
    /// The time when the counter stood at `anchor_mono_ticks`.
    pub anchor_utc_ns: u64,
    pub anchor_mono_ticks: u64,
    pub frequency_hz: u64,
    pub drift_ppb: i64,
    /// `u64::MAX` if nothing is known of it.
    pub uncertainty_ns: u64,
    pub state: SyncState,
    pub stratum: u8,
    pub leap_indicator: u8,
    pub sample_count: u32,
    pub last_sync_mono_ticks: Option<u64>,
    /// The last sample's time and count, if it was taken since the counter
    /// started.
    pub last_sample: Option<(u64, u64)>,
    /// The latest time that anyone was told.
    pub last_returned_ns: u64,
}

/// What is kept across restarts.
#[derive(Clone, Copy, Debug, PartialEq, Eq)]
pub struct Calibration {
    pub utc_ns: u64,
    pub drift_ppb: i64,
    pub uncertainty_ns: u64,
    pub sample_count: u32,
    pub stratum: u8,
    pub leap_indicator: u8,
    pub server_ipv4: [u8; 4],
}

/// What is told of the clock.
#[derive(Clone, Copy, Debug, PartialEq, Eq)]
pub struct TimeSnapshot {
    pub state: SyncState,
    pub stratum: u8,
    pub unix_seconds: i64,
    pub nanosecond: u32,
    pub uncertainty_ms: u32,
    pub drift_ppb: i64,
    pub last_sync_age_ms: u64,
    pub monotonic_ticks: u64,
    pub counter_frequency_hz: u64,
    pub leap_indicator: u8,
    pub server_ipv4: [u8; 4],
    pub sample_count: u32,
}

impl ClockModel {
    /// The drift is one that is believed.
    pub open spec fn wf(self) -> bool {
        -MAX_DRIFT_PPB <= self.drift_ppb <= MAX_DRIFT_PPB
    }

    /// The nanoseconds since the anchor.
    pub open spec fn elapsed(self, mono_ticks: u64) -> u64 {
        if self.frequency_hz == 0 || mono_ticks <= self.anchor_mono_ticks {
            0
        } else {
            let nominal = nanoseconds(
                mono_ticks - self.anchor_mono_ticks,
                self.frequency_hz as int,
            );
            capped(nominal * (1_000_000_000 + self.drift_ppb) / 1_000_000_000)
        }
    }

    /// The time that the clock makes it.
    pub open spec fn estimate(self, mono_ticks: u64) -> u64 {
        capped(self.anchor_utc_ns + self.elapsed(mono_ticks))
    }

    /// The time that is told: never one before a time that was told before.
    pub open spec fn told(self, mono_ticks: u64) -> u64 {
        if self.estimate(mono_ticks) > self.last_returned_ns {
            self.estimate(mono_ticks)
        } else {
            self.last_returned_ns
        }
    }

    /// The milliseconds since the last sample, if there was one.
    pub open spec fn age_ms(self, mono: MonoClock, never: u64) -> u64 {
        match self.last_sync_mono_ticks {
            None => never,
            Some(last) => capped(
                nanoseconds(
                    if mono.ticks > last {
                        mono.ticks - last
                    } else {
                        0
                    },
                    mono.frequency_hz as int,
                ),
            ) / 1_000_000,
        }
    }

    /// How far off the clock may be, in milliseconds.
    pub open spec fn uncertainty_ms(self, age_ms: u64) -> u32 {
        if self.uncertainty_ns == u64::MAX {
            u32::MAX
        } else {
            let drift = if self.drift_ppb < 0 {
                -self.drift_ppb
            } else {
                self.drift_ppb as int
            };
            let growth_ppb = if drift > UNCERTAINTY_FLOOR_PPB {
                drift
            } else {
                UNCERTAINTY_FLOOR_PPB as int
            };
            let growth_ns = capped(age_ms * growth_ppb) / 1_000;
            let ms = (capped(self.uncertainty_ns + growth_ns) + 999_999) / 1_000_000;
            if ms > u32::MAX {
                u32::MAX
            } else {
                ms as u32
            }
        }
    }

    /// What is told of the clock at `mono`.
    pub open spec fn described(self, mono: MonoClock, server_ipv4: [u8; 4], never: u64) -> TimeSnapshot {
        let ns = self.told(mono.ticks);
        let age_ms = self.age_ms(mono, never);
        TimeSnapshot {
            state: self.state,
            stratum: self.stratum,
            unix_seconds: (ns / 1_000_000_000) as i64,
            nanosecond: (ns % 1_000_000_000) as u32,
            uncertainty_ms: self.uncertainty_ms(age_ms),
            drift_ppb: self.drift_ppb,
            last_sync_age_ms: age_ms,
            monotonic_ticks: mono.ticks,
            counter_frequency_hz: mono.frequency_hz,
            leap_indicator: self.leap_indicator,
            server_ipv4,
            sample_count: self.sample_count,
        }
    }

    /// The clock that runs on from a stored calibration.
    pub open spec fn resumed(record: Calibration, mono: MonoClock) -> ClockModel {
        ClockModel {
            anchor_utc_ns: record.utc_ns,
            anchor_mono_ticks: mono.ticks,
            frequency_hz: mono.frequency_hz,
            drift_ppb: believed(record.drift_ppb as int),
            uncertainty_ns: u64::MAX,
            state: SyncState::Holdover,
            stratum: record.stratum,
            leap_indicator: record.leap_indicator,
            sample_count: record.sample_count,
            last_sync_mono_ticks: None,
            last_sample: None,
            last_returned_ns: record.utc_ns,
        }
    }

    /// The clock that starts with a sample.
    pub open spec fn started_with(sample: NtpSample, mono: MonoClock) -> ClockModel {
        ClockModel {
            anchor_utc_ns: sample.utc_ns,
            anchor_mono_ticks: sample.mono_ticks,
            frequency_hz: mono.frequency_hz,
            drift_ppb: 0,
            uncertainty_ns: sample.uncertainty_ns,
            state: SyncState::Synchronized,
            stratum: sample.stratum,
            leap_indicator: sample.leap_indicator,
            sample_count: 1,
            last_sync_mono_ticks: Some(sample.mono_ticks),
            last_sample: Some((sample.utc_ns, sample.mono_ticks)),
            last_returned_ns: sample.utc_ns,
        }
    }

    /// What is stored of the clock.
    pub open spec fn stored(self, server_ipv4: [u8; 4]) -> Calibration {
        Calibration {
            utc_ns: self.anchor_utc_ns,
            drift_ppb: self.drift_ppb,
            uncertainty_ns: self.uncertainty_ns,
            sample_count: self.sample_count,
            stratum: self.stratum,
            leap_indicator: self.leap_indicator,
            server_ipv4,
        }
    }

    /// The drift after a sample: a measurement counts for a quarter.
    pub open spec fn drift_after(self, sample: NtpSample, frequency_hz: u64) -> i64 {
        match self.last_sample {
            Some((utc, mono)) => if sample.mono_ticks > mono && sample.utc_ns > utc {
                let nominal = capped(
                    nanoseconds(sample.mono_ticks - mono, frequency_hz as int),
                );
                let actual = sample.utc_ns - utc;
                if nominal > 0 {
                    let measured = believed(
                        quotient((actual - nominal) * 1_000_000_000, nominal as int),
                    );
                    quotient(self.drift_ppb * 3 + measured, 4) as i64
                } else {
                    self.drift_ppb
                }
            } else {
                self.drift_ppb
            },
            None => self.drift_ppb,
        }
    }

    /// The clock after a sample.
    pub open spec fn after_sample(self, sample: NtpSample, frequency_hz: u64) -> ClockModel {
        ClockModel {
            anchor_utc_ns: sample.utc_ns,
            anchor_mono_ticks: sample.mono_ticks,
            frequency_hz,
            drift_ppb: self.drift_after(sample, frequency_hz),
            uncertainty_ns: sample.uncertainty_ns,
            state: SyncState::Synchronized,
            stratum: sample.stratum,
            leap_indicator: sample.leap_indicator,
            sample_count: if self.sample_count == u32::MAX {
                u32::MAX
            } else {
                (self.sample_count + 1) as u32
            },
            last_sync_mono_ticks: Some(sample.mono_ticks),
            last_sample: Some((sample.utc_ns, sample.mono_ticks)),
            ..self
        }
    }

    /// The clock that runs on from before a restart. The counter did not run
    /// without power, so no drift may be measured across it.
    pub fn from_persisted(record: &Calibration, mono: MonoClock) -> (model: ClockModel)
        ensures
            model.wf(),
            model == ClockModel::resumed(*record, mono),
    {
        let drift_ppb: i64 = if record.drift_ppb > MAX_DRIFT_PPB {
            MAX_DRIFT_PPB
        } else if record.drift_ppb < -MAX_DRIFT_PPB {
            -MAX_DRIFT_PPB
        } else {
            record.drift_ppb
        };
        ClockModel {
            anchor_utc_ns: record.utc_ns,
            anchor_mono_ticks: mono.ticks,
            frequency_hz: mono.frequency_hz,
            drift_ppb,
            uncertainty_ns: u64::MAX,
            state: SyncState::Holdover,
            stratum: record.stratum,
            leap_indicator: record.leap_indicator,
            sample_count: record.sample_count,
            last_sync_mono_ticks: None,
            last_sample: None,
            last_returned_ns: record.utc_ns,
        }
    }

    /// The clock that starts with a sample.
    pub fn from_sample(sample: NtpSample, mono: MonoClock) -> (model: ClockModel)
        ensures
            model.wf(),
            model == ClockModel::started_with(sample, mono),
    {
        ClockModel {
            anchor_utc_ns: sample.utc_ns,
            anchor_mono_ticks: sample.mono_ticks,
            frequency_hz: mono.frequency_hz,
            drift_ppb: 0,
            uncertainty_ns: sample.uncertainty_ns,
            state: SyncState::Synchronized,
            stratum: sample.stratum,
            leap_indicator: sample.leap_indicator,
            sample_count: 1,
            last_sync_mono_ticks: Some(sample.mono_ticks),
            last_sample: Some((sample.utc_ns, sample.mono_ticks)),
            last_returned_ns: sample.utc_ns,
        }
    }

    /// The nanoseconds since the anchor.
    pub fn elapsed_ns(&self, mono_ticks: u64) -> (ns: u64)
        requires
            self.wf(),
        ensures
            ns == self.elapsed(mono_ticks),
    {
        if self.frequency_hz == 0 || mono_ticks <= self.anchor_mono_ticks {
            return 0;
        }
        let ticks: u64 = mono_ticks - self.anchor_mono_ticks;
        proof {
            lemma_nanoseconds(ticks, self.frequency_hz);
        }
        let nominal: u128 = ticks as u128 * 1_000_000_000 / self.frequency_hz as u128;
        let scale: u128 = (1_000_000_000 + self.drift_ppb) as u128;
        assert(0 <= nominal * scale <= 0xffff_ffff_ffff_ffff * 1_000_000_000 * 1_000_500_000)
            by (nonlinear_arith)
            requires
                nominal <= 0xffff_ffff_ffff_ffff * 1_000_000_000,
                scale <= 1_000_500_000,
        ;
        let ns: u128 = nominal * scale / 1_000_000_000;
        if ns > u64::MAX as u128 {
            u64::MAX
        } else {
            ns as u64
        }
    }

    /// The time. A correction may move the clock back; whoever asks is told the
    /// last time again until the clock has caught up.
    pub fn utc_ns(&mut self, mono_ticks: u64) -> (ns: u64)
        requires
            old(self).wf(),
        ensures
            final(self).wf(),
            ns == old(self).told(mono_ticks),
            *final(self) == (ClockModel { last_returned_ns: ns, ..*old(self) }),
    {
        let estimated: u64 = self.anchor_utc_ns.saturating_add(self.elapsed_ns(mono_ticks));
        if estimated > self.last_returned_ns {
            self.last_returned_ns = estimated;
        }
        self.last_returned_ns
    }

    /// What is told of the clock at a reading of the counter. `never` stands
    /// for the age of a sample that was never taken.
    pub fn snapshot(&mut self, mono: MonoClock, server_ipv4: [u8; 4], never: u64) -> (snapshot:
        TimeSnapshot)
        requires
            old(self).wf(),
        ensures
            final(self).wf(),
            ({
                let ns = old(self).told(mono.ticks);
                &&& *final(self) == (ClockModel { last_returned_ns: ns, ..*old(self) })
                &&& snapshot == old(self).described(mono, server_ipv4, never)
            }),
    {
        let utc_ns: u64 = self.utc_ns(mono.ticks);
        let age_ms: u64 = match self.last_sync_mono_ticks {
            None => never,
            Some(last) => {
                let since: u64 = if mono.ticks > last {
                    mono.ticks - last
                } else {
                    0
                };
                ticks_to_ns(since, mono.frequency_hz) / 1_000_000
            },
        };
        let uncertainty_ms: u32 = if self.uncertainty_ns == u64::MAX {
            u32::MAX
        } else {
            let drift: u64 = if self.drift_ppb < 0 {
                (-self.drift_ppb) as u64
            } else {
                self.drift_ppb as u64
            };
            let growth_ppb: u64 = if drift > UNCERTAINTY_FLOOR_PPB {
                drift
            } else {
                UNCERTAINTY_FLOOR_PPB
            };
            let growth_ns: u64 = product(age_ms, growth_ppb) / 1_000;
            let total: u64 = self.uncertainty_ns.saturating_add(growth_ns);
            let ms: u128 = (total as u128 + 999_999) / 1_000_000;
            if ms > u32::MAX as u128 {
                u32::MAX
            } else {
                ms as u32
            }
        };
        TimeSnapshot {
            state: self.state,
            stratum: self.stratum,
            unix_seconds: (utc_ns / 1_000_000_000) as i64,
            nanosecond: (utc_ns % 1_000_000_000) as u32,
            uncertainty_ms,
            drift_ppb: self.drift_ppb,
            last_sync_age_ms: age_ms,
            monotonic_ticks: mono.ticks,
            counter_frequency_hz: mono.frequency_hz,
            leap_indicator: self.leap_indicator,
            server_ipv4,
            sample_count: self.sample_count,
        }
    }
}


/// A quarter, rounded toward zero.
fn quarter(value: i64) -> (result: i64)
    requires
        -0x1000_0000 <= value <= 0x1000_0000,
    ensures
        result == quotient(value as int, 4),
{
    if value >= 0 {
        value / 4
    } else {
        -((-value) / 4)
    }
}

/// The drift that two samples show: by how much `actual` is more than
/// `nominal`, in parts per billion.
fn measured_drift(actual: u64, nominal: u64) -> (drift: i64)
    requires
        nominal > 0,
    ensures
        drift == believed(quotient((actual - nominal) * 1_000_000_000, nominal as int)),
        -MAX_DRIFT_PPB <= drift <= MAX_DRIFT_PPB,
{
    let behind: bool = actual < nominal;
    let difference: u64 = if behind {
        nominal - actual
    } else {
        actual - nominal
    };
    let size: u128 = difference as u128 * 1_000_000_000 / nominal as u128;
    proof {
        vstd::arithmetic::div_mod::lemma_div_pos_is_pos(
            difference * 1_000_000_000,
            nominal as int,
        );
        if behind {
            assert(-((actual - nominal) * 1_000_000_000) == difference * 1_000_000_000);
        }
    }
    let near: i64 = if size > MAX_DRIFT_PPB as u128 {
        MAX_DRIFT_PPB
    } else {
        size as i64
    };
    if behind {
        -near
    } else {
        near
    }
}

impl ClockModel {
    /// Take a sample into account.
    pub fn accept_sample(&mut self, sample: NtpSample, mono: MonoClock)
        requires
            old(self).wf(),
        ensures
            final(self).wf(),
            *final(self) == old(self).after_sample(sample, mono.frequency_hz),
    {
        let mut drift: i64 = self.drift_ppb;
        match self.last_sample {
            Some((utc, ticks)) => {
                if sample.mono_ticks > ticks && sample.utc_ns > utc {
                    let nominal: u64 = ticks_to_ns(sample.mono_ticks - ticks, mono.frequency_hz);
                    if nominal > 0 {
                        let measured: i64 = measured_drift(sample.utc_ns - utc, nominal);
                        drift = quarter(drift * 3 + measured);
                    }
                }
            },
            None => {},
        }
        self.anchor_utc_ns = sample.utc_ns;
        self.anchor_mono_ticks = sample.mono_ticks;
        self.frequency_hz = mono.frequency_hz;
        self.drift_ppb = drift;
        self.uncertainty_ns = sample.uncertainty_ns;
        self.state = SyncState::Synchronized;
        self.stratum = sample.stratum;
        self.leap_indicator = sample.leap_indicator;
        if self.sample_count < u32::MAX {
            self.sample_count = self.sample_count + 1;
        }
        self.last_sync_mono_ticks = Some(sample.mono_ticks);
        self.last_sample = Some((sample.utc_ns, sample.mono_ticks));
    }

    /// What to keep across restarts.
    pub fn calibration(&self, server_ipv4: [u8; 4]) -> (record: Calibration)
        ensures
            record == self.stored(server_ipv4),
    {
        Calibration {
            utc_ns: self.anchor_utc_ns,
            drift_ppb: self.drift_ppb,
            uncertainty_ns: self.uncertainty_ns,
            sample_count: self.sample_count,
            stratum: self.stratum,
            leap_indicator: self.leap_indicator,
            server_ipv4,
        }
    }
}

/// The time that is told never goes back, whatever samples come in between.
pub proof fn law_time_never_goes_back(
    model: ClockModel,
    earlier: u64,
    sample: NtpSample,
    frequency_hz: u64,
    later: u64,
)
    requires
        model.wf(),
    ensures
        ({
            let asked = ClockModel { last_returned_ns: model.told(earlier), ..model };
            &&& asked.told(later) >= model.told(earlier)
            &&& asked.after_sample(sample, frequency_hz).told(later) >= model.told(earlier)
        }),
{
}

/// The drift stays one that is believed, whatever the samples say.
pub proof fn law_drift_stays_believed(model: ClockModel, sample: NtpSample, frequency_hz: u64)
    requires
        model.wf(),
    ensures
        model.after_sample(sample, frequency_hz).wf(),
{
}

/// A clock that runs on from before a restart measures no drift across it.
pub proof fn law_no_drift_is_measured_across_a_restart(
    model: ClockModel,
    sample: NtpSample,
    frequency_hz: u64,
)
    requires
        model.last_sample is None,
    ensures
        model.after_sample(sample, frequency_hz).drift_ppb == model.drift_ppb,
{
}

/// "TIMECAL1".
pub const CALIBRATION_MAGIC: u64 = 0x314c_4143_454d_4954;

pub const CALIBRATION_VERSION: u32 = 1;

pub const CALIBRATION_LEN: usize = 64;

/// The numbers of a stored calibration.
pub open spec fn calibration_fields(record: Calibration) -> Seq<(u64, usize)> {
    seq![
        (CALIBRATION_MAGIC, 8usize),
        (CALIBRATION_VERSION as u64, 4usize),
        (CALIBRATION_LEN as u64, 4usize),
        (record.utc_ns, 8usize),
        (record.drift_ppb as u64, 8usize),
        (record.uncertainty_ns, 8usize),
        (record.sample_count as u64, 4usize),
        (record.stratum as u64, 1usize),
        (record.leap_indicator as u64, 1usize),
        (0u64, 2usize),
    ]
}

/// A stored calibration without its checksum.
pub open spec fn calibration_body(record: Calibration) -> Seq<u8> {
    wire::coded(calibration_fields(record)) + record.server_ipv4@ + seq![0u8, 0u8, 0u8, 0u8]
}

/// A stored calibration.
pub open spec fn calibration_image(record: Calibration) -> Seq<u8> {
    calibration_body(record) + wire::le_bytes(
        hash::fnv_fold(hash::FNV_OFFSET, calibration_body(record)) as nat,
        8,
    )
}

/// The bytes are a calibration that was stored whole.
pub open spec fn is_calibration(bytes: Seq<u8>) -> bool {
    &&& bytes.len() >= CALIBRATION_LEN
    &&& wire::field(bytes, 0, 8) == CALIBRATION_MAGIC
    &&& wire::field(bytes, 8, 4) == CALIBRATION_VERSION
    &&& wire::field(bytes, 12, 4) == CALIBRATION_LEN
    &&& wire::field(bytes, 56, 8) == hash::fnv_fold(hash::FNV_OFFSET, bytes.take(56))
}

/// The record's fields are what the bytes hold.
pub open spec fn holds_calibration(bytes: Seq<u8>, record: Calibration) -> bool {
    &&& record.utc_ns == wire::field(bytes, 16, 8)
    &&& record.drift_ppb == (wire::field(bytes, 24, 8) as u64) as i64
    &&& record.uncertainty_ns == wire::field(bytes, 32, 8)
    &&& record.sample_count == wire::field(bytes, 40, 4)
    &&& record.stratum == bytes[44]
    &&& record.leap_indicator == bytes[45]
    &&& record.server_ipv4@ == bytes.subrange(48, 52)
}

impl Calibration {
    /// The bytes to store.
    pub fn encode(&self) -> (bytes: Vec<u8>)
        ensures
            bytes@ == calibration_image(*self),
    {
        let mut bytes: Vec<u8> = Vec::new();
        wire::push_fields(
            &mut bytes,
            [
                (CALIBRATION_MAGIC, 8usize),
                (CALIBRATION_VERSION as u64, 4usize),
                (CALIBRATION_LEN as u64, 4usize),
                (self.utc_ns, 8usize),
                (self.drift_ppb as u64, 8usize),
                (self.uncertainty_ns, 8usize),
                (self.sample_count as u64, 4usize),
                (self.stratum as u64, 1usize),
                (self.leap_indicator as u64, 1usize),
                (0u64, 2usize),
            ].as_slice(),
        );
        wire::push_all(&mut bytes, self.server_ipv4.as_slice());
        wire::push_all(&mut bytes, [0u8, 0u8, 0u8, 0u8].as_slice());
        proof {
            assert(calibration_fields(*self) =~= seq![
                (CALIBRATION_MAGIC, 8usize),
                (CALIBRATION_VERSION as u64, 4usize),
                (CALIBRATION_LEN as u64, 4usize),
                (self.utc_ns, 8usize),
                (self.drift_ppb as u64, 8usize),
                (self.uncertainty_ns, 8usize),
                (self.sample_count as u64, 4usize),
                (self.stratum as u64, 1usize),
                (self.leap_indicator as u64, 1usize),
                (0u64, 2usize),
            ]);
            assert([0u8, 0u8, 0u8, 0u8]@ =~= seq![0u8, 0u8, 0u8, 0u8]);
            assert(bytes@ =~= calibration_body(*self));
        }
        let checksum: u64 = hash::fnv1a64(bytes.as_slice());
        wire::push_le(&mut bytes, checksum, 8);
        bytes
    }

    /// The calibration that was stored.
    pub fn decode(bytes: &[u8]) -> (record: Option<Calibration>)
        ensures
            record is Some == is_calibration(bytes@),
            record matches Some(record) ==> holds_calibration(bytes@, record),
    {
        if bytes.len() < CALIBRATION_LEN {
            return None;
        }
        let body: Vec<u8> = wire::copy_range(bytes, 0, 56);
        assert(body@ =~= bytes@.take(56));
        if wire::read_le(bytes, 0, 8) != CALIBRATION_MAGIC || wire::read_le(bytes, 8, 4)
            != CALIBRATION_VERSION as u64 || wire::read_le(bytes, 12, 4) != CALIBRATION_LEN as u64
            || wire::read_le(bytes, 56, 8) != hash::fnv1a64(body.as_slice()) {
            return None;
        }
        proof {
            wire::lemma_byte_capacities();
        }
        let server_ipv4: [u8; 4] = [bytes[48], bytes[49], bytes[50], bytes[51]];
        assert(server_ipv4@ =~= bytes@.subrange(48, 52));
        Some(
            Calibration {
                utc_ns: wire::read_le(bytes, 16, 8),
                drift_ppb: wire::read_le(bytes, 24, 8) as i64,
                uncertainty_ns: wire::read_le(bytes, 32, 8),
                sample_count: wire::read_le(bytes, 40, 4) as u32,
                stratum: bytes[44],
                leap_indicator: bytes[45],
                server_ipv4,
            },
        )
    }
}

/// A stored calibration reads back as it was, and as nothing else.
pub proof fn law_stored_calibration_reads_back(record: Calibration, other: Calibration)
    ensures
        is_calibration(calibration_image(record)),
        holds_calibration(calibration_image(record), record),
        holds_calibration(calibration_image(record), other) ==> other.utc_ns == record.utc_ns
            && other.drift_ppb == record.drift_ppb && other.uncertainty_ns == record.uncertainty_ns
            && other.sample_count == record.sample_count && other.stratum == record.stratum
            && other.leap_indicator == record.leap_indicator && other.server_ipv4@
            == record.server_ipv4@,
        calibration_image(record).len() == CALIBRATION_LEN,
{
    let bytes = calibration_image(record);
    let body = calibration_body(record);
    let fields = calibration_fields(record);
    let checksum = hash::fnv_fold(hash::FNV_OFFSET, body);
    wire::lemma_byte_capacities();
    wire::lemma_coded_len(fields);
    reveal_with_fuel(wire::field_offset, 11);
    assert(wire::coded(fields).len() == 48);
    wire::lemma_le_bytes_len(checksum as nat, 8);
    assert(bytes.take(48) =~= wire::coded(fields));
    wire::lemma_read_coded(bytes, fields, 0);
    wire::lemma_read_coded(bytes, fields, 1);
    wire::lemma_read_coded(bytes, fields, 2);
    wire::lemma_read_coded(bytes, fields, 3);
    wire::lemma_read_coded(bytes, fields, 4);
    wire::lemma_read_coded(bytes, fields, 5);
    wire::lemma_read_coded(bytes, fields, 6);
    wire::lemma_read_coded(bytes, fields, 7);
    wire::lemma_read_coded(bytes, fields, 8);
    let drift = record.drift_ppb;
    assert((drift as u64) as i64 == drift) by (bit_vector);
    reveal_with_fuel(wire::le_value, 3);
    assert(bytes.subrange(44, 45).skip(1) =~= Seq::<u8>::empty());
    assert(bytes.subrange(45, 46).skip(1) =~= Seq::<u8>::empty());
    assert(bytes.take(56) =~= body);
    assert(bytes.subrange(48, 52) =~= record.server_ipv4@);
    assert(bytes.subrange(56, 64) =~= wire::le_bytes(checksum as nat, 8));
    wire::lemma_le_round_trip(checksum as nat, 8);
}

/// A stored calibration of which one byte was changed is refused.
pub proof fn law_damaged_calibration_is_refused(record: Calibration, bytes: Seq<u8>, at: int)
    requires
        bytes.len() == CALIBRATION_LEN,
        0 <= at < CALIBRATION_LEN,
        bytes[at] != calibration_image(record)[at],
        forall|i: int|
            0 <= i < CALIBRATION_LEN && i != at ==> bytes[i] == calibration_image(record)[i],
    ensures
        !is_calibration(bytes),
{
    let image = calibration_image(record);
    law_stored_calibration_reads_back(record, record);
    if at < 56 {
        assert(bytes.take(56) =~= image.take(56).update(at, bytes[at]));
        hash::lemma_fnv_notices_a_change(hash::FNV_OFFSET, image.take(56), at, bytes[at]);
        assert(bytes.subrange(56, 64) =~= image.subrange(56, 64));
    } else {
        assert(bytes.take(56) =~= image.take(56));
        let found = bytes.subrange(56, 64);
        let stored = image.subrange(56, 64);
        assert(found[at - 56] != stored[at - 56]);
        wire::lemma_le_value_inverse(found);
        wire::lemma_le_value_inverse(stored);
    }
}

/// The time of an NTP timestamp in nanoseconds since 1970. Seconds before 1970
/// are those of the era that starts in 2036.
pub open spec fn unix_ns_of(timestamp: u64) -> int {
    let seconds = timestamp as int / 0x1_0000_0000;
    let fraction = timestamp as int % 0x1_0000_0000;
    let since_1900 = if seconds < NTP_UNIX_EPOCH_SECONDS {
        seconds + 0x1_0000_0000
    } else {
        seconds
    };
    (since_1900 - NTP_UNIX_EPOCH_SECONDS) * 1_000_000_000 + fraction * 1_000_000_000
        / 0x1_0000_0000
}

/// The time of an NTP timestamp in nanoseconds since 1970.
pub fn ntp_to_unix_ns(timestamp: u64) -> (ns: u64)
    ensures
        ns == unix_ns_of(timestamp),
{
    let seconds: u64 = timestamp / 0x1_0000_0000;
    let fraction: u64 = timestamp % 0x1_0000_0000;
    let since_1900: u64 = if seconds < NTP_UNIX_EPOCH_SECONDS {
        seconds + 0x1_0000_0000
    } else {
        seconds
    };
    (since_1900 - NTP_UNIX_EPOCH_SECONDS) * 1_000_000_000 + fraction * 1_000_000_000
        / 0x1_0000_0000
}

/// The NTP timestamp of a time in nanoseconds since 1970.
pub open spec fn ntp_timestamp(unix_ns: u64) -> int {
    let seconds = (unix_ns as int / 1_000_000_000 + NTP_UNIX_EPOCH_SECONDS) % 0x1_0000_0000;
    let fraction = (unix_ns as int % 1_000_000_000) * 0x1_0000_0000 / 1_000_000_000;
    seconds * 0x1_0000_0000 + fraction
}

/// What mixing the counter gives.
pub open spec fn mixed(ticks: u64) -> u64 {
    ((ticks << 17) | (ticks >> 47)) ^ 0xa5c3_7d19_0000_0001
}

/// The number that ties a request to its answer when there is no time yet: the
/// mixed counter, and the number it is mixed with where that gives zero.
pub open spec fn nonce(ticks: u64) -> u64 {
    if mixed(ticks) == 0 {
        0xa5c3_7d19_0000_0001
    } else {
        mixed(ticks)
    }
}

/// The number that ties a request to its answer: the time, if there is one. It
/// is never zero before there is one.
pub fn ntp_request_token(model: &mut Option<ClockModel>, mono: MonoClock) -> (token: u64)
    requires
        *old(model) matches Some(clock) ==> clock.wf(),
    ensures
        match *old(model) {
            Some(clock) => token == ntp_timestamp(clock.told(mono.ticks)) && *final(model) == Some(
                ClockModel { last_returned_ns: clock.told(mono.ticks), ..clock },
            ) && final(model)->0.wf(),
            None => token == nonce(mono.ticks) && token != 0 && *final(model) is None,
        },
{
    match *model {
        Some(clock) => {
            let mut clock: ClockModel = clock;
            let unix_ns: u64 = clock.utc_ns(mono.ticks);
            *model = Some(clock);
            let seconds: u64 = (unix_ns / 1_000_000_000 + NTP_UNIX_EPOCH_SECONDS) % 0x1_0000_0000;
            let fraction: u64 = (unix_ns % 1_000_000_000) * 0x1_0000_0000 / 1_000_000_000;
            seconds * 0x1_0000_0000 + fraction
        },
        None => {
            let mixed: u64 = ((mono.ticks << 17) | (mono.ticks >> 47)) ^ 0xa5c3_7d19_0000_0001;
            if mixed == 0 {
                0xa5c3_7d19_0000_0001
            } else {
                mixed
            }
        },
    }
}

/// A request to a time server: version four, from a client.
pub open spec fn request_packet(token: u64) -> Seq<u8> {
    seq![0x23u8] + Seq::new(39, |i: int| 0u8) + wire::be_bytes(token as nat, 8)
}

/// The request that carries a token.
pub fn ntp_request(token: u64) -> (packet: Vec<u8>)
    ensures
        packet@ == request_packet(token),
        packet@.len() == NTP_PACKET_LEN,
{
    let mut packet: Vec<u8> = Vec::new();
    packet.push(0x23);
    wire::push_zeros(&mut packet, 39);
    wire::push_be(&mut packet, token, 8);
    proof {
        wire::lemma_be_bytes_len(token as nat, 8);
        assert(packet@ =~= request_packet(token));
    }
    packet
}

/// A request that waits for its answer.
#[derive(Clone, Copy, Debug, PartialEq, Eq, Structural)]
pub struct Attempt {
    pub request_transmit: u64,
    pub sent_mono_ticks: u64,
    pub deadline_mono_ticks: u64,
}

/// The request that goes out at `mono`.
pub open spec fn begun_attempt(request_transmit: u64, mono: MonoClock) -> Attempt {
    Attempt {
        request_transmit,
        sent_mono_ticks: mono.ticks,
        deadline_mono_ticks: capped(
            mono.ticks + capped(mono.frequency_hz * REQUEST_TIMEOUT_MS) / 1_000,
        ),
    }
}

/// A request that was sent just now.
pub fn start_attempt(request_transmit: u64, mono: MonoClock) -> (attempt: Attempt)
    ensures
        attempt == begun_attempt(request_transmit, mono),
{
    let wait: u64 = product(mono.frequency_hz, REQUEST_TIMEOUT_MS) / 1_000;
    Attempt {
        request_transmit,
        sent_mono_ticks: mono.ticks,
        deadline_mono_ticks: mono.ticks.saturating_add(wait),
    }
}

/// A big-endian number.
pub open spec fn number(bytes: Seq<u8>, at: int, width: int) -> int {
    wire::be_value(bytes.subrange(at, at + width)) as int
}

/// The answer is one to the request, from a server that knows the time.
pub open spec fn answers(bytes: Seq<u8>, attempt: Attempt, received: MonoClock) -> bool {
    &&& bytes.len() >= NTP_PACKET_LEN
    &&& bytes[0] / 64 != 3
    &&& (bytes[0] / 8) % 8 >= 3
    &&& bytes[0] % 8 == 4
    &&& 1 <= bytes[1] <= 15
    &&& number(bytes, 24, 8) == attempt.request_transmit
    &&& number(bytes, 32, 8) != 0
    &&& number(bytes, 40, 8) != 0
    &&& unix_ns_of(number(bytes, 32, 8) as u64) <= unix_ns_of(number(bytes, 40, 8) as u64)
    &&& attempt.sent_mono_ticks <= received.ticks
}

/// What an answer says: the middle of the server's two times holds in the
/// middle between request and answer.
pub open spec fn sample_in(bytes: Seq<u8>, attempt: Attempt, received: MonoClock) -> NtpSample {
    let arrived = unix_ns_of(number(bytes, 32, 8) as u64);
    let left = unix_ns_of(number(bytes, 40, 8) as u64);
    let round_trip = capped(
        nanoseconds(received.ticks - attempt.sent_mono_ticks, received.frequency_hz as int),
    );
    let network = if round_trip > left - arrived {
        round_trip - (left - arrived)
    } else {
        0
    };
    let dispersion = number(bytes, 8, 4) * 1_000_000_000 / 0x1_0000;
    NtpSample {
        utc_ns: ((arrived + left) / 2) as u64,
        mono_ticks: (attempt.sent_mono_ticks + (received.ticks - attempt.sent_mono_ticks) / 2) as u64,
        uncertainty_ns: (network / 2 + dispersion) as u64,
        stratum: bytes[1],
        leap_indicator: (bytes[0] / 64) as u8,
    }
}

/// Understand an answer.
pub fn parse_ntp_reply(bytes: &[u8], attempt: &Attempt, received: MonoClock) -> (sample: Option<
    NtpSample,
>)
    ensures
        sample == if answers(bytes@, *attempt, received) {
            Some(sample_in(bytes@, *attempt, received))
        } else {
            None::<NtpSample>
        },
{
    if bytes.len() < NTP_PACKET_LEN {
        return None;
    }
    proof {
        wire::lemma_byte_capacities();
    }
    let leap: u8 = bytes[0] / 64;
    let stratum: u8 = bytes[1];
    let originate: u64 = wire::read_be(bytes, 24, 8);
    let receive: u64 = wire::read_be(bytes, 32, 8);
    let transmit: u64 = wire::read_be(bytes, 40, 8);
    if leap == 3 || (bytes[0] / 8) % 8 < 3 || bytes[0] % 8 != 4 || stratum < 1 || stratum > 15
        || originate != attempt.request_transmit || receive == 0 || transmit == 0 {
        return None;
    }
    let arrived: u64 = ntp_to_unix_ns(receive);
    let left: u64 = ntp_to_unix_ns(transmit);
    if left < arrived || received.ticks < attempt.sent_mono_ticks {
        return None;
    }
    let round_trip: u64 = ticks_to_ns(
        received.ticks - attempt.sent_mono_ticks,
        received.frequency_hz,
    );
    let network: u64 = if round_trip > left - arrived {
        round_trip - (left - arrived)
    } else {
        0
    };
    let dispersion: u64 = wire::read_be(bytes, 8, 4) * 1_000_000_000 / 0x1_0000;
    Some(
        NtpSample {
            utc_ns: ((arrived as u128 + left as u128) / 2) as u64,
            mono_ticks: attempt.sent_mono_ticks + (received.ticks - attempt.sent_mono_ticks) / 2,
            uncertainty_ns: network / 2 + dispersion,
            stratum,
            leap_indicator: leap,
        },
    )
}

/// An answer to another request is refused.
pub proof fn law_foreign_answers_are_refused(
    bytes: Seq<u8>,
    attempt: Attempt,
    received: MonoClock,
)
    requires
        number(bytes, 24, 8) != attempt.request_transmit,
    ensures
        !answers(bytes, attempt, received),
{
}

/// A timestamp that the clock puts into a request reads back as its time, up to
/// a nanosecond, until 2106.
pub proof fn law_timestamps_read_back(unix_ns: u64)
    requires
        unix_ns < 0x1_0000_0000 * 1_000_000_000,
    ensures
        ntp_timestamp(unix_ns) <= u64::MAX,
        unix_ns - 1 <= unix_ns_of(ntp_timestamp(unix_ns) as u64) <= unix_ns,
{
    let seconds = unix_ns as int / 1_000_000_000;
    let rest = unix_ns as int % 1_000_000_000;
    let fraction = rest * 0x1_0000_0000 / 1_000_000_000;
    let since_1900 = seconds + NTP_UNIX_EPOCH_SECONDS;
    assert(0 <= fraction < 0x1_0000_0000);
    let stamp = ntp_timestamp(unix_ns);
    assert(stamp / 0x1_0000_0000 == since_1900 % 0x1_0000_0000);
    assert(stamp % 0x1_0000_0000 == fraction);
    let back = fraction * 1_000_000_000 / 0x1_0000_0000;
    assert(rest - 1 <= back <= rest);
}

/// What a look at a request that waits found.
pub enum ReplyPoll<'a> {
    Pending,
    Failed,
    /// The length that the reply claims, and its memory, if it has any.
    Replied { result: i64, memory: Option<&'a [u8]> },
}

/// What became of a request.
#[derive(Clone, Copy, Debug, PartialEq, Eq, Structural)]
pub enum AttemptOutcome {
    Waiting,
    Failed,
    Sampled { sample: NtpSample },
}

/// What a reply amounts to.
pub open spec fn reply_outcome(
    result: i64,
    memory: Option<Seq<u8>>,
    attempt: Attempt,
    received: MonoClock,
) -> AttemptOutcome {
    match memory {
        Some(memory) => {
            if result < NTP_PACKET_LEN || result > memory.len() || !answers(
                memory.take(result as int),
                attempt,
                received,
            ) {
                AttemptOutcome::Failed
            } else {
                AttemptOutcome::Sampled {
                    sample: sample_in(memory.take(result as int), attempt, received),
                }
            }
        },
        None => AttemptOutcome::Failed,
    }
}

/// Decide what became of a request.
pub fn poll_attempt(poll: ReplyPoll<'_>, attempt: &Attempt, received: MonoClock) -> (outcome:
    AttemptOutcome)
    ensures
        outcome == match poll {
            ReplyPoll::Pending => if received.ticks >= attempt.deadline_mono_ticks {
                AttemptOutcome::Failed
            } else {
                AttemptOutcome::Waiting
            },
            ReplyPoll::Failed => AttemptOutcome::Failed,
            ReplyPoll::Replied { result, memory } => reply_outcome(
                result,
                match memory {
                    Some(memory) => Some(memory@),
                    None => None,
                },
                *attempt,
                received,
            ),
        },
{
    match poll {
        ReplyPoll::Pending => {
            if received.ticks >= attempt.deadline_mono_ticks {
                AttemptOutcome::Failed
            } else {
                AttemptOutcome::Waiting
            }
        },
        ReplyPoll::Failed => AttemptOutcome::Failed,
        ReplyPoll::Replied { result, memory } => {
            match memory {
                None => AttemptOutcome::Failed,
                Some(memory) => {
                    if result < NTP_PACKET_LEN as i64 || result as u64 > memory.len() as u64 {
                        return AttemptOutcome::Failed;
                    }
                    let len: usize = result as usize;
                    let bytes: &[u8] = vstd::slice::slice_subrange(memory, 0, len);
                    assert(bytes@ =~= memory@.take(len as int));
                    match parse_ntp_reply(bytes, attempt, received) {
                        Some(sample) => AttemptOutcome::Sampled { sample },
                        None => AttemptOutcome::Failed,
                    }
                },
            }
        },
    }
}

/// When the next request is due, and how many failed.
#[derive(Clone, Copy, Debug, PartialEq, Eq, Structural)]
pub struct Schedule {
    pub next_sync_ticks: u64,
    pub attempting: bool,
    pub failures: u32,
}

/// The count some seconds after a reading.
pub open spec fn later(now: MonoClock, seconds: u64) -> u64 {
    capped(now.ticks + capped(now.frequency_hz * seconds))
}

impl Schedule {
    /// The schedule of a clock that starts at `now`.
    pub open spec fn first(now: MonoClock, network_ready: bool) -> Schedule {
        Schedule {
            next_sync_ticks: if network_ready {
                now.ticks
            } else {
                later(now, RETRY_INTERVAL_SECONDS)
            },
            attempting: false,
            failures: 0,
        }
    }

    /// The schedule once an attempt has ended.
    pub open spec fn after_attempt(self, now: MonoClock, sampled: bool) -> Schedule {
        Schedule {
            next_sync_ticks: later(
                now,
                if sampled {
                    SYNC_INTERVAL_SECONDS
                } else {
                    RETRY_INTERVAL_SECONDS
                },
            ),
            attempting: false,
            failures: if sampled {
                self.failures
            } else {
                self.failures.wrapping_add(1)
            },
        }
    }

    /// The schedule where the node has no address yet.
    pub open spec fn without_address(self, now: MonoClock) -> Schedule {
        Schedule { next_sync_ticks: later(now, 1), ..self }
    }

    /// The schedule once a request was to be sent.
    pub open spec fn after_sending(self, now: MonoClock, sent: bool) -> Schedule {
        if sent {
            Schedule { attempting: true, ..self }
        } else {
            Schedule {
                next_sync_ticks: later(now, RETRY_INTERVAL_SECONDS),
                failures: self.failures.wrapping_add(1),
                ..self
            }
        }
    }

    /// The first request is due at once if the network is ready.
    pub fn new(now: MonoClock, network_ready: bool) -> (schedule: Schedule)
        ensures
            schedule == Schedule::first(now, network_ready),
    {
        let next_sync_ticks: u64 = if network_ready {
            now.ticks
        } else {
            ticks_after(now, RETRY_INTERVAL_SECONDS)
        };
        Schedule { next_sync_ticks, attempting: false, failures: 0 }
    }

    /// A request came to an end.
    pub fn ended(&mut self, now: MonoClock, sampled: bool)
        ensures
            *final(self) == old(self).after_attempt(now, sampled),
    {
        self.attempting = false;
        if sampled {
            self.next_sync_ticks = ticks_after(now, SYNC_INTERVAL_SECONDS);
        } else {
            self.failures = self.failures.wrapping_add(1);
            self.next_sync_ticks = ticks_after(now, RETRY_INTERVAL_SECONDS);
        }
    }

    /// Whether a request is to be made.
    pub fn due(&self, now: MonoClock) -> (due: bool)
        ensures
            due == (!self.attempting && now.ticks >= self.next_sync_ticks),
    {
        !self.attempting && now.ticks >= self.next_sync_ticks
    }

    /// There is no address to send from yet: look again in a second, without
    /// counting a failure.
    pub fn no_address(&mut self, now: MonoClock)
        ensures
            *final(self) == old(self).without_address(now),
    {
        self.next_sync_ticks = ticks_after(now, 1);
    }

    /// A request was made, or could not be.
    pub fn started(&mut self, now: MonoClock, sent: bool)
        ensures
            *final(self) == old(self).after_sending(now, sent),
    {
        if sent {
            self.attempting = true;
        } else {
            self.failures = self.failures.wrapping_add(1);
            self.next_sync_ticks = ticks_after(now, RETRY_INTERVAL_SECONDS);
        }
    }
}

/// The calibration to start from: one that was taken from the same server.
pub fn usable_calibration(result: i64, memory: Option<&[u8]>, server_ipv4: [u8; 4]) -> (record: Option<
    Calibration,
>)
    ensures
        match record {
            Some(record) => {
                &&& result >= CALIBRATION_LEN
                &&& memory matches Some(memory) && is_calibration(
                    memory@.take(CALIBRATION_LEN as int),
                ) && holds_calibration(memory@.take(CALIBRATION_LEN as int), record)
                &&& record.server_ipv4@ == server_ipv4@
            },
            None => {
                ||| result < CALIBRATION_LEN
                ||| match memory {
                    Some(memory) => memory@.len() < CALIBRATION_LEN || !is_calibration(
                        memory@.take(CALIBRATION_LEN as int),
                    ) || memory@.subrange(48, 52) != server_ipv4@,
                    None => true,
                }
            },
        },
{
    let memory: &[u8] = match memory {
        Some(memory) => memory,
        None => return None,
    };
    if result < CALIBRATION_LEN as i64 || memory.len() < CALIBRATION_LEN {
        return None;
    }
    let bytes: &[u8] = vstd::slice::slice_subrange(memory, 0, CALIBRATION_LEN);
    assert(bytes@ =~= memory@.take(CALIBRATION_LEN as int));
    assert(bytes@.subrange(48, 52) =~= memory@.subrange(48, 52));
    match Calibration::decode(bytes) {
        Some(record) => {
            if wire::bytes_equal(record.server_ipv4.as_slice(), server_ipv4.as_slice()) {
                Some(record)
            } else {
                None
            }
        },
        None => None,
    }
}

/// The server that is asked for the time.
pub open spec fn server_for(configured: Option<Seq<u8>>) -> Seq<u8> {
    match configured {
        Some(bytes) => if bytes.len() == 4 {
            bytes
        } else {
            DEFAULT_NTP_SERVER@
        },
        None => DEFAULT_NTP_SERVER@,
    }
}

/// The time server: the configured one, if it is an address.
pub fn server_address(configured: Option<&[u8]>) -> (address: [u8; 4])
    ensures
        address@ == server_for(
            match configured {
                Some(bytes) => Some(bytes@),
                None => None,
            },
        ),
{
    match configured {
        Some(bytes) => {
            if bytes.len() == 4 {
                let address: [u8; 4] = [bytes[0], bytes[1], bytes[2], bytes[3]];
                assert(address@ =~= bytes@);
                return address;
            }
            DEFAULT_NTP_SERVER
        },
        None => DEFAULT_NTP_SERVER,
    }
}

/// Where the words of the counter's snapshot are.
#[derive(Clone, Copy, Debug, PartialEq, Eq)]
pub struct CounterLayout {
    pub header_words: u16,
    pub magic_number: u64,
    pub version_number: u64,
    pub magic: u16,
    pub version: u16,
    pub monotonic_ticks: u16,
    pub frequency_hz: u16,
}

impl CounterLayout {
    /// The words are within the header.
    pub open spec fn wf(self) -> bool {
        &&& self.magic < self.header_words
        &&& self.version < self.header_words
        &&& self.monotonic_ticks < self.header_words
        &&& self.frequency_hz < self.header_words
    }

    /// Whether the words are within the header.
    pub fn is_wf(&self) -> (ok: bool)
        ensures
            ok == self.wf(),
    {
        self.magic < self.header_words && self.version < self.header_words
            && self.monotonic_ticks < self.header_words && self.frequency_hz < self.header_words
    }
}

/// The reading that a snapshot holds.
pub open spec fn reading(result: i64, memory: Option<Seq<u8>>, layout: CounterLayout) -> Option<
    MonoClock,
> {
    match memory {
        Some(bytes) => {
            let frequency = wire::field(bytes, 8 * layout.frequency_hz, 8);
            if result < 8 * layout.header_words || bytes.len() < 8 * layout.header_words
                || wire::field(bytes, 8 * layout.magic, 8) != layout.magic_number || wire::field(
                bytes,
                8 * layout.version,
                8,
            ) != layout.version_number || frequency == 0 {
                None
            } else {
                Some(
                    MonoClock {
                        ticks: wire::field(bytes, 8 * layout.monotonic_ticks, 8) as u64,
                        frequency_hz: frequency as u64,
                    },
                )
            }
        },
        None => None,
    }
}

/// Read the counter from a snapshot.
pub fn read_monotonic(result: i64, memory: Option<&[u8]>, layout: &CounterLayout) -> (clock: Option<
    MonoClock,
>)
    requires
        layout.wf(),
    ensures
        clock == reading(
            result,
            match memory {
                Some(memory) => Some(memory@),
                None => None,
            },
            *layout,
        ),
{
    let bytes: &[u8] = match memory {
        Some(memory) => memory,
        None => return None,
    };
    let header: usize = 8 * layout.header_words as usize;
    if result < header as i64 || bytes.len() < header {
        return None;
    }
    let frequency_hz: u64 = wire::read_le(bytes, 8 * layout.frequency_hz as usize, 8);
    if wire::read_le(bytes, 8 * layout.magic as usize, 8) != layout.magic_number || wire::read_le(
        bytes,
        8 * layout.version as usize,
        8,
    ) != layout.version_number || frequency_hz == 0 {
        return None;
    }
    Some(
        MonoClock {
            ticks: wire::read_le(bytes, 8 * layout.monotonic_ticks as usize, 8),
            frequency_hz,
        },
    )
}

/// Why the time is not told.
#[derive(Clone, Copy, Debug, PartialEq, Eq, Structural)]
pub enum TimeError {
    /// The counter cannot be read.
    Unavailable,
    /// There has been no sample, and nothing was kept.
    Unsynchronized,
    BadOpcode,
}

/// The numbers of the requests.
#[derive(Clone, Copy, Debug, PartialEq, Eq)]
pub struct TimeOpcodes {
    pub now: u64,
    pub iso8601: u64,
    pub unix_seconds: u64,
}

/// What to answer a request with.
#[derive(Clone, Copy, Debug, PartialEq, Eq)]
pub enum TimeAnswer {
    Snapshot { snapshot: TimeSnapshot },
    Text { snapshot: TimeSnapshot },
    Seconds { seconds: i64 },
    Refusal { error: TimeError },
}

/// Answer a request, given a reading of the counter.
pub fn answer_request(
    model: &mut Option<ClockModel>,
    opcode: u64,
    codes: &TimeOpcodes,
    clock: Option<MonoClock>,
    server_ipv4: [u8; 4],
    never: u64,
) -> (answer: TimeAnswer)
    requires
        *old(model) matches Some(clock) ==> clock.wf(),
    ensures
        *final(model) matches Some(clock) ==> clock.wf(),
        ({
            let known = opcode == codes.now || opcode == codes.iso8601 || opcode
                == codes.unix_seconds;
            match (known, clock, *old(model)) {
                (false, _, _) => answer == (TimeAnswer::Refusal { error: TimeError::BadOpcode })
                    && *final(model) == *old(model),
                (true, None, _) => answer == (TimeAnswer::Refusal { error: TimeError::Unavailable })
                    && *final(model) == *old(model),
                (true, Some(_), None) => answer == (TimeAnswer::Refusal {
                    error: TimeError::Unsynchronized,
                }) && *final(model) == *old(model),
                (true, Some(mono), Some(before)) => {
                    let ns = before.told(mono.ticks);
                    let snapshot = before.described(mono, server_ipv4, never);
                    &&& *final(model) == Some(ClockModel { last_returned_ns: ns, ..before })
                    &&& answer == if opcode == codes.now {
                        TimeAnswer::Snapshot { snapshot }
                    } else if opcode == codes.iso8601 {
                        TimeAnswer::Text { snapshot }
                    } else {
                        TimeAnswer::Seconds { seconds: snapshot.unix_seconds }
                    }
                },
            }
        }),
{
    if opcode != codes.now && opcode != codes.iso8601 && opcode != codes.unix_seconds {
        return TimeAnswer::Refusal { error: TimeError::BadOpcode };
    }
    let mono: MonoClock = match clock {
        Some(mono) => mono,
        None => return TimeAnswer::Refusal { error: TimeError::Unavailable },
    };
    let mut known: ClockModel = match *model {
        Some(known) => known,
        None => return TimeAnswer::Refusal { error: TimeError::Unsynchronized },
    };
    let snapshot: TimeSnapshot = known.snapshot(mono, server_ipv4, never);
    *model = Some(known);
    if opcode == codes.now {
        TimeAnswer::Snapshot { snapshot }
    } else if opcode == codes.iso8601 {
        TimeAnswer::Text { snapshot }
    } else {
        TimeAnswer::Seconds { seconds: snapshot.unix_seconds }
    }
}

/// A second of ticks is a second: `seconds` times the frequency is that many
/// seconds, and more ticks are never less time.
pub proof fn law_ticks_are_seconds(seconds: int, frequency_hz: int, fewer: int, more: int)
    requires
        seconds >= 0,
        frequency_hz > 0,
        0 <= fewer <= more,
    ensures
        nanoseconds(seconds * frequency_hz, frequency_hz) == seconds * 1_000_000_000,
        nanoseconds(fewer, frequency_hz) <= nanoseconds(more, frequency_hz),
        nanoseconds(fewer, frequency_hz) * frequency_hz <= fewer * 1_000_000_000 < (nanoseconds(
            fewer,
            frequency_hz,
        ) + 1) * frequency_hz,
{
    assert(seconds * frequency_hz * 1_000_000_000 == (seconds * 1_000_000_000) * frequency_hz)
        by (nonlinear_arith);
    vstd::arithmetic::div_mod::lemma_div_by_multiple(seconds * 1_000_000_000, frequency_hz);
    vstd::arithmetic::div_mod::lemma_div_is_ordered(
        fewer * 1_000_000_000,
        more * 1_000_000_000,
        frequency_hz,
    );
    let product = fewer * 1_000_000_000;
    let whole = product / frequency_hz;
    assert(whole * frequency_hz <= product < (whole + 1) * frequency_hz) by (nonlinear_arith)
        requires
            whole == product / frequency_hz,
            frequency_hz > 0,
    ;
}

/// Between two samples the clock runs at the counter's rate, faster by the drift in
/// parts per billion, and never backwards.
pub proof fn law_clock_runs_at_the_drifted_rate(model: ClockModel, earlier: u64, later: u64)
    requires
        model.wf(),
        model.frequency_hz > 0,
        model.anchor_mono_ticks <= earlier <= later,
    ensures
        model.elapsed(model.anchor_mono_ticks) == 0,
        model.estimate(model.anchor_mono_ticks) == model.anchor_utc_ns,
        model.estimate(earlier) <= model.estimate(later),
        model.estimate(later) < u64::MAX ==> {
            let nominal = nanoseconds(
                later - model.anchor_mono_ticks,
                model.frequency_hz as int,
            );
            let passed = model.estimate(later) - model.anchor_utc_ns;
            &&& passed * 1_000_000_000 <= nominal * (1_000_000_000 + model.drift_ppb)
            &&& nominal * (1_000_000_000 + model.drift_ppb) < (passed + 1) * 1_000_000_000
            &&& model.drift_ppb == 0 ==> passed == nominal
        },
{
    let frequency = model.frequency_hz as int;
    let rate = 1_000_000_000 + model.drift_ppb;
    let first = nanoseconds(earlier - model.anchor_mono_ticks, frequency);
    let second = nanoseconds(later - model.anchor_mono_ticks, frequency);
    law_ticks_are_seconds(
        0,
        frequency,
        earlier - model.anchor_mono_ticks,
        later - model.anchor_mono_ticks,
    );
    assert(0 <= first) by {
        vstd::arithmetic::div_mod::lemma_div_pos_is_pos(
            (earlier - model.anchor_mono_ticks) * 1_000_000_000,
            frequency,
        );
    }
    assert(0 <= first * rate <= second * rate) by (nonlinear_arith)
        requires
            0 <= first <= second,
            rate > 0,
    ;
    if later == model.anchor_mono_ticks {
        assert(second == 0) by {
            vstd::arithmetic::div_mod::lemma_basic_div(0, frequency);
        }
        assert(second * rate == 0) by (nonlinear_arith)
            requires
                second == 0,
        ;
    }
    if earlier == model.anchor_mono_ticks {
        assert(first == 0) by {
            vstd::arithmetic::div_mod::lemma_basic_div(0, frequency);
        }
    }
    assert(model.drift_ppb == 0 ==> second * rate == second * 1_000_000_000) by (nonlinear_arith)
        requires
            rate == 1_000_000_000 + model.drift_ppb,
    ;
}

/// A second sample moves the drift a quarter of the way to what it measured. A
/// measurement of `parts` per billion that is believed counts as it is; one
/// beyond 500 000 counts as that.
pub proof fn law_drift_moves_a_quarter_of_the_way(
    model: ClockModel,
    utc: u64,
    mono: u64,
    sample: NtpSample,
    frequency_hz: u64,
    parts: int,
)
    requires
        model.wf(),
        model.last_sample == Some((utc, mono)),
        sample.mono_ticks > mono,
        sample.utc_ns > utc,
        0 < nanoseconds(sample.mono_ticks - mono, frequency_hz as int) <= u64::MAX,
        ({
            let nominal = nanoseconds(sample.mono_ticks - mono, frequency_hz as int);
            (sample.utc_ns - utc - nominal) * 1_000_000_000 == parts * nominal
        }),
    ensures
        ({
            let counted = if parts > 500_000 {
                500_000
            } else if parts < -500_000 {
                -500_000
            } else {
                parts
            };
            let after = model.after_sample(sample, frequency_hz).drift_ppb;
            -3 <= 4 * after - (3 * model.drift_ppb + counted) <= 3
        }),
        -500_000 <= model.after_sample(sample, frequency_hz).drift_ppb <= 500_000,
{
    let nominal = nanoseconds(sample.mono_ticks - mono, frequency_hz as int);
    let product = parts * nominal;
    if parts >= 0 {
        assert(product >= 0) by (nonlinear_arith)
            requires
                parts >= 0,
                nominal > 0,
                product == parts * nominal,
        ;
        vstd::arithmetic::div_mod::lemma_div_by_multiple(parts, nominal);
        assert(quotient(product, nominal) == parts);
    } else {
        assert(product < 0) by (nonlinear_arith)
            requires
                parts < 0,
                nominal > 0,
                product == parts * nominal,
        ;
        assert(-product == (-parts) * nominal) by (nonlinear_arith)
            requires
                product == parts * nominal,
        ;
        vstd::arithmetic::div_mod::lemma_div_by_multiple(-parts, nominal);
        assert(quotient(product, nominal) == parts);
    }
}

/// What is not known of the time is at least what the sample did not know, in whole
/// milliseconds rounded up, and grows with its age by at least 50 parts per
/// million; a clock that never had a sample knows nothing.
pub proof fn law_uncertainty_grows_with_age(model: ClockModel, age_ms: u64, older_ms: u64)
    requires
        model.wf(),
        age_ms <= older_ms,
    ensures
        model.uncertainty_ns == u64::MAX ==> model.uncertainty_ms(age_ms) == u32::MAX,
        model.uncertainty_ms(age_ms) <= model.uncertainty_ms(older_ms),
        model.uncertainty_ns < u64::MAX && model.uncertainty_ms(0) < u32::MAX ==> {
            &&& (model.uncertainty_ms(0) - 1) * 1_000_000 < model.uncertainty_ns
            &&& model.uncertainty_ns <= model.uncertainty_ms(0) * 1_000_000
        },
        model.uncertainty_ns < u64::MAX && model.uncertainty_ms(age_ms) < u32::MAX
            && age_ms <= 0xffff_ffff ==> model.uncertainty_ns + age_ms * 50 <= model.uncertainty_ms(
            age_ms,
        ) * 1_000_000,
{
    let drift = if model.drift_ppb < 0 {
        -model.drift_ppb
    } else {
        model.drift_ppb as int
    };
    let growth_ppb = if drift > UNCERTAINTY_FLOOR_PPB {
        drift
    } else {
        UNCERTAINTY_FLOOR_PPB as int
    };
    assert(age_ms * growth_ppb <= older_ms * growth_ppb) by (nonlinear_arith)
        requires
            age_ms <= older_ms,
            growth_ppb >= 0,
    ;
    assert(age_ms * 50_000 <= age_ms * growth_ppb) by (nonlinear_arith)
        requires
            growth_ppb >= 50_000,
            age_ms >= 0,
    ;
    assert(0 * growth_ppb == 0);
    if age_ms <= 0xffff_ffff {
        assert(age_ms * growth_ppb <= 0xffff_ffff * 500_000) by (nonlinear_arith)
            requires
                age_ms <= 0xffff_ffff,
                0 <= growth_ppb <= 500_000,
        ;
    }
}

/// A request asks as a client, by version four of the protocol, and carries its
/// token where the server's answer gives it back.
pub proof fn law_request_by_its_bytes(token: u64)
    ensures
        request_packet(token).len() == 48,
        request_packet(token)[0] / 64 == 0,
        (request_packet(token)[0] / 8) % 8 == 4,
        request_packet(token)[0] % 8 == 3,
        forall|i: int| 1 <= i < 40 ==> #[trigger] request_packet(token)[i] == 0,
        number(request_packet(token), 40, 8) == token,
{
    wire::lemma_be_bytes_len(token as nat, 8);
    wire::lemma_byte_capacities();
    wire::lemma_be_round_trip(token as nat, 8);
    assert(request_packet(token).subrange(40, 48) =~= wire::be_bytes(token as nat, 8));
}

/// An answer is a sample exactly where the server is synchronized, speaks a known
/// version as a server, and answers this request with two moments in order.
pub proof fn law_answers_by_their_bytes(bytes: Seq<u8>, attempt: Attempt, received: MonoClock)
    requires
        bytes.len() >= 48,
        attempt.sent_mono_ticks <= received.ticks,
        number(bytes, 24, 8) == attempt.request_transmit,
        0 < number(bytes, 32, 8) <= u64::MAX,
        0 < number(bytes, 40, 8) <= u64::MAX,
        unix_ns_of(number(bytes, 32, 8) as u64) <= unix_ns_of(number(bytes, 40, 8) as u64),
    ensures
        answers(bytes, attempt, received) <==> bytes[0] < 0xc0 && (bytes[0] % 64 == 0x1c
            || bytes[0] % 64 == 0x24 || bytes[0] % 64 == 0x2c || bytes[0] % 64 == 0x34 || bytes[0]
            % 64 == 0x3c) && 1 <= bytes[1] <= 15,
{
    let first = bytes[0];
    let low = first % 64;
    assert(first == (first / 64) * 64 + low);
    assert(first / 8 == (first / 64) * 8 + low / 8);
    assert((first / 8) % 8 == low / 8);
    assert(first % 8 == low % 8);
}

/// A sample is the middle of what the server saw at the middle of what was
/// measured here; not known is half of what the network took, and what the
/// server does not know itself, in parts of 65536 of a second.
pub proof fn law_sample_lies_in_the_middle(bytes: Seq<u8>, attempt: Attempt, received: MonoClock)
    requires
        answers(bytes, attempt, received),
        0 <= number(bytes, 8, 4) <= u32::MAX,
        number(bytes, 32, 8) <= u64::MAX,
        number(bytes, 40, 8) <= u64::MAX,
    ensures
        ({
            let sample = sample_in(bytes, attempt, received);
            let arrived = unix_ns_of(number(bytes, 32, 8) as u64);
            let left = unix_ns_of(number(bytes, 40, 8) as u64);
            let took = nanoseconds(
                received.ticks - attempt.sent_mono_ticks,
                received.frequency_hz as int,
            );
            let own = number(bytes, 8, 4) * 1_000_000_000 / 65536;
            &&& 2 * sample.utc_ns <= arrived + left <= 2 * sample.utc_ns + 1
            &&& 2 * sample.mono_ticks <= attempt.sent_mono_ticks + received.ticks <= 2
                * sample.mono_ticks + 1
            &&& sample.stratum == bytes[1]
            &&& sample.leap_indicator == bytes[0] / 64
            &&& left - arrived <= took <= u64::MAX ==> 2 * (sample.uncertainty_ns - own) <= took - (
            left - arrived) <= 2 * (sample.uncertainty_ns - own) + 1
            &&& 0 <= took < left - arrived ==> sample.uncertainty_ns == own
        }),
{
    lemma_unix_ns_bounds(number(bytes, 32, 8) as u64);
    lemma_unix_ns_bounds(number(bytes, 40, 8) as u64);
}

proof fn lemma_unix_ns_bounds(timestamp: u64)
    ensures
        0 <= unix_ns_of(timestamp) < 0x1_0000_0000 * 1_000_000_000,
{
}

/// A request waits for five seconds.
pub proof fn law_requests_wait_five_seconds(request_transmit: u64, mono: MonoClock)
    requires
        mono.ticks + 5_000 * mono.frequency_hz <= u64::MAX,
    ensures
        begun_attempt(request_transmit, mono).request_transmit == request_transmit,
        begun_attempt(request_transmit, mono).sent_mono_ticks == mono.ticks,
        begun_attempt(request_transmit, mono).deadline_mono_ticks == mono.ticks + 5
            * mono.frequency_hz,
{
}

/// The clock is set again a quarter of an hour after it was set, and tried again 64
/// seconds after a failure, or one second after there was no address; failures
/// are counted.
pub proof fn law_schedule_by_the_clock(schedule: Schedule, now: MonoClock)
    requires
        now.ticks + 900 * now.frequency_hz <= u64::MAX,
        schedule.failures < u32::MAX,
    ensures
        schedule.after_attempt(now, true).next_sync_ticks == now.ticks + 900 * now.frequency_hz,
        schedule.after_attempt(now, true).failures == schedule.failures,
        schedule.after_attempt(now, false).next_sync_ticks == now.ticks + 64 * now.frequency_hz,
        schedule.after_attempt(now, false).failures == schedule.failures + 1,
        !schedule.after_attempt(now, true).attempting,
        !schedule.after_attempt(now, false).attempting,
        schedule.after_sending(now, true) == (Schedule { attempting: true, ..schedule }),
        schedule.after_sending(now, false).next_sync_ticks == now.ticks + 64 * now.frequency_hz,
        schedule.after_sending(now, false).failures == schedule.failures + 1,
        schedule.without_address(now).next_sync_ticks == now.ticks + now.frequency_hz,
        schedule.without_address(now).failures == schedule.failures,
        Schedule::first(now, true).next_sync_ticks == now.ticks,
        Schedule::first(now, false).next_sync_ticks == now.ticks + 64 * now.frequency_hz,
        !Schedule::first(now, true).attempting,
        Schedule::first(now, false).failures == 0,
{
}

/// What is told of the time is the time: its seconds and nanoseconds make it up.
pub proof fn law_description_tells_the_time(
    model: ClockModel,
    mono: MonoClock,
    server_ipv4: [u8; 4],
    never: u64,
)
    requires
        model.wf(),
    ensures
        ({
            let told = model.described(mono, server_ipv4, never);
            &&& told.unix_seconds * 1_000_000_000 + told.nanosecond == model.told(mono.ticks)
            &&& 0 <= told.nanosecond < 1_000_000_000
            &&& told.drift_ppb == model.drift_ppb
            &&& told.state == model.state
            &&& told.stratum == model.stratum
            &&& told.leap_indicator == model.leap_indicator
            &&& told.sample_count == model.sample_count
            &&& told.monotonic_ticks == mono.ticks
            &&& told.counter_frequency_hz == mono.frequency_hz
            &&& told.server_ipv4 == server_ipv4
            &&& model.last_sync_mono_ticks is None ==> told.last_sync_age_ms == never
            &&& model.last_sync_mono_ticks matches Some(last) ==> mono.ticks <= last
                ==> told.last_sync_age_ms == 0
        }),
        model.last_sync_mono_ticks matches Some(last) ==> mono.ticks > last && mono.frequency_hz
            > 0 && nanoseconds(mono.ticks - last, mono.frequency_hz as int) <= u64::MAX ==> {
            let age = model.described(mono, server_ipv4, never).last_sync_age_ms;
            let passed = nanoseconds(mono.ticks - last, mono.frequency_hz as int);
            age * 1_000_000 <= passed < (age + 1) * 1_000_000
        },
{
    if let Some(last) = model.last_sync_mono_ticks {
        if mono.frequency_hz > 0 {
            vstd::arithmetic::div_mod::lemma_basic_div(0, mono.frequency_hz as int);
            if mono.ticks > last {
                vstd::arithmetic::div_mod::lemma_div_pos_is_pos(
                    (mono.ticks - last) * 1_000_000_000,
                    mono.frequency_hz as int,
                );
            }
        }
    }
}

/// A clock that is stored and read again goes on from its time, but in holdover,
/// and does not claim to know how far off it is.
pub proof fn law_stored_clock_resumes(model: ClockModel, server_ipv4: [u8; 4], mono: MonoClock)
    requires
        model.wf(),
    ensures
        ({
            let resumed = ClockModel::resumed(model.stored(server_ipv4), mono);
            &&& resumed.wf()
            &&& resumed.told(mono.ticks) == model.anchor_utc_ns
            &&& resumed.drift_ppb == model.drift_ppb
            &&& resumed.sample_count == model.sample_count
            &&& resumed.stratum == model.stratum
            &&& resumed.leap_indicator == model.leap_indicator
            &&& resumed.state == SyncState::Holdover
            &&& resumed.uncertainty_ns == u64::MAX
            &&& resumed.last_sync_mono_ticks is None
            &&& model.stored(server_ipv4).server_ipv4 == server_ipv4
            &&& model.stored(server_ipv4).uncertainty_ns == model.uncertainty_ns
        }),
{
}

/// A sample sets the clock: it is synchronized, tells the sample's time at the
/// sample's moment or what it already told, and counts the sample.
pub proof fn law_sample_sets_the_clock(
    model: ClockModel,
    sample: NtpSample,
    mono: MonoClock,
)
    requires
        model.wf(),
    ensures
        ({
            let after = model.after_sample(sample, mono.frequency_hz);
            &&& after.state == SyncState::Synchronized
            &&& after.estimate(sample.mono_ticks) == sample.utc_ns
            &&& after.told(sample.mono_ticks) >= sample.utc_ns
            &&& model.last_returned_ns <= sample.utc_ns ==> after.told(sample.mono_ticks)
                == sample.utc_ns
            &&& after.uncertainty_ns == sample.uncertainty_ns
            &&& after.frequency_hz == mono.frequency_hz
            &&& after.stratum == sample.stratum
            &&& after.leap_indicator == sample.leap_indicator
            &&& model.sample_count < u32::MAX ==> after.sample_count == model.sample_count + 1
            &&& after.last_sync_mono_ticks == Some(sample.mono_ticks)
            &&& after.last_sample == Some((sample.utc_ns, sample.mono_ticks))
        }),
        ({
            let first = ClockModel::started_with(sample, mono);
            &&& first.state == SyncState::Synchronized
            &&& first.drift_ppb == 0
            &&& first.sample_count == 1
            &&& first.told(sample.mono_ticks) == sample.utc_ns
            &&& first.uncertainty_ns == sample.uncertainty_ns
            &&& first.frequency_hz == mono.frequency_hz
            &&& first.last_sync_mono_ticks == Some(sample.mono_ticks)
            &&& first.last_sample == Some((sample.utc_ns, sample.mono_ticks))
        }),
{
}

/// Requests of a clock that does not know the time have tokens of their own: two
/// moments share one only where one of them would have had none.
pub proof fn law_tokens_differ(one: u64, two: u64)
    requires
        one != two,
        mixed(one) != 0,
        mixed(two) != 0,
    ensures
        nonce(one) != nonce(two),
        nonce(one) != 0,
{
    assert(one != two ==> ((one << 17) | (one >> 47)) ^ 0xa5c3_7d19_0000_0001u64 != ((two << 17) | (
    two >> 47)) ^ 0xa5c3_7d19_0000_0001u64) by (bit_vector);
}

/// A reply is a sample where it has as many bytes as it claims, at least 48, and they
/// answer the request; all else has failed.
pub proof fn law_replies_are_samples_or_failures(
    result: i64,
    memory: Seq<u8>,
    attempt: Attempt,
    received: MonoClock,
)
    ensures
        reply_outcome(result, Some(memory), attempt, received) is Sampled <==> 48 <= result
            <= memory.len() && answers(memory.take(result as int), attempt, received),
        reply_outcome(result, Some(memory), attempt, received) is Sampled ==> reply_outcome(
            result,
            Some(memory),
            attempt,
            received,
        )->sample == sample_in(memory.take(result as int), attempt, received),
        reply_outcome(result, Some(memory), attempt, received) !is Sampled ==> reply_outcome(
            result,
            Some(memory),
            attempt,
            received,
        ) == AttemptOutcome::Failed,
        reply_outcome(result, None, attempt, received) == AttemptOutcome::Failed,
{
}

/// The counter is read where its page is of the known kind and its frequency is known.
pub proof fn law_counter_is_read_from_its_page(result: i64, bytes: Seq<u8>, layout: CounterLayout)
    requires
        layout.wf(),
        result >= 8 * layout.header_words,
        bytes.len() >= 8 * layout.header_words,
    ensures
        reading(result, Some(bytes), layout) is Some <==> wire::field(bytes, 8 * layout.magic, 8)
            == layout.magic_number && wire::field(bytes, 8 * layout.version, 8)
            == layout.version_number && wire::field(bytes, 8 * layout.frequency_hz, 8) != 0,
        reading(result, Some(bytes), layout) matches Some(clock) ==> clock.ticks == wire::field(
            bytes,
            8 * layout.monotonic_ticks,
            8,
        ) as u64 && clock.frequency_hz == wire::field(bytes, 8 * layout.frequency_hz, 8) as u64,
        reading(result, None, layout) is None,
{
}

/// The server that is configured is asked, and else 162.159.200.1.
pub proof fn law_configured_server_is_asked(bytes: Seq<u8>)
    ensures
        bytes.len() == 4 ==> server_for(Some(bytes)) == bytes,
        bytes.len() != 4 ==> server_for(Some(bytes)) == server_for(None),
        server_for(None) == seq![162u8, 159u8, 200u8, 1u8],
{
    assert(DEFAULT_NTP_SERVER@ =~= seq![162u8, 159u8, 200u8, 1u8]);
}

/// The seconds of a timestamp are those since 1900: the seconds of 1970, and as many as
/// follow them, are the time since then, and the ones before them come after 2036.
pub proof fn law_timestamps_count_from_1900(seconds: int, fraction: int)
    requires
        0 <= seconds < 0x1_0000_0000,
        0 <= fraction < 0x1_0000_0000,
    ensures
        ({
            let stamp = (seconds * 0x1_0000_0000 + fraction) as u64;
            let part = fraction * 1_000_000_000 / 0x1_0000_0000;
            &&& seconds >= 2_208_988_800 ==> unix_ns_of(stamp) == (seconds - 2_208_988_800)
                * 1_000_000_000 + part
            &&& seconds < 2_208_988_800 ==> unix_ns_of(stamp) == (seconds + 2_085_978_496)
                * 1_000_000_000 + part
        }),
{
    let stamp = seconds * 0x1_0000_0000 + fraction;
    assert(0 <= stamp <= u64::MAX);
    assert(stamp / 0x1_0000_0000 == seconds);
    assert(stamp % 0x1_0000_0000 == fraction);
}

} // verus!
