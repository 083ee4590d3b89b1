//! Capture bookkeeping: calendar arithmetic for recording file names and the
//! per-packet counters that the capture loop publishes.
use vstd::prelude::*;
use vstd::arithmetic::div_mod::lemma_fundamental_div_mod;
use vstd::arithmetic::div_mod::lemma_fundamental_div_mod_converse;
use crate::decimal::append_zero_padded;
use crate::decimal::fixed_digits;
use crate::decimal::lemma_fixed_digits_order;
use crate::decimal::lemma_text_before_behind;
use crate::decimal::lemma_text_before_extend;
use crate::decimal::lemma_zero_padded_fixed;
use crate::decimal::pow10;
use crate::decimal::text_before;
use crate::decimal::zero_padded;
use crate::proto::Packet;

verus! {

// ---------------------------------------------------------------------------
// Proleptic Gregorian calendar
// ---------------------------------------------------------------------------

/// Gregorian leap-year rule.
pub open spec fn is_leap_year(y: int) -> bool {
    y % 4 == 0 && (y % 100 != 0 || y % 400 == 0)
}

/// Number of days in month `m` (1 = January) of year `y`.
pub open spec fn days_in_month(y: int, m: int) -> int {
    if m == 2 {
        if is_leap_year(y) { 29 } else { 28 }
    } else if m == 4 || m == 6 || m == 9 || m == 11 {
        30
    } else {
        31
    }
}

/// `(y, m, d)` names an existing day of the proleptic Gregorian calendar.
pub open spec fn is_valid_date(y: int, m: int, d: int) -> bool {
    1 <= m <= 12 && 1 <= d <= days_in_month(y, m)
}

/// Offset of the first day of year `yoe` within a 400-year era whose years
/// start on March 1st (so that the leap day closes each year).
pub open spec fn era_year_start(yoe: int) -> int {
    365 * yoe + yoe / 4 - yoe / 100 + yoe / 400
}

/// Offset of the first day of the month `mp` (0 = March, ..., 11 = February)
/// within a March-based year.
pub open spec fn month_start(mp: int) -> int {
    (153 * mp + 2) / 5
}

/// Number of days from 1970-01-01 to the proleptic Gregorian date `(y, m, d)`.
///
/// The year is shifted to start on March 1st, split into 400-year eras of
/// 146097 days, and the day is counted from 0000-03-01, which lies 719468
/// days before the Unix epoch.
pub open spec fn days_from_civil(y: int, m: int, d: int) -> int {
    let y = if m <= 2 { y - 1 } else { y };
    let era = y / 400;
    let yoe = y - era * 400;
    let mp = if m > 2 { m - 3 } else { m + 9 };
    let doe = era_year_start(yoe) + month_start(mp) + d - 1;
    era * 146097 + doe - 719468
}

/// Within an era, the day `doe` falls into the year computed by the
/// quotient formula of `civil_from_days`.
#[verifier::spinoff_prover]
proof fn lemma_year_of_era(doe: int)
    requires
        0 <= doe < 146097,
    ensures
        ({
            let yoe = (doe - doe / 1460 + doe / 36524 - doe / 146096) / 365;
            &&& 0 <= yoe < 400
            &&& era_year_start(yoe) <= doe < era_year_start(yoe + 1)
        }),
{
    if doe == 146096 {
        assert(doe / 1460 == 100);
        assert(doe / 36524 == 4);
        assert(doe / 146096 == 1);
        assert((doe - 100 + 4 - 1) / 365 == 399);
        assert(era_year_start(399) == 145731);
        assert(era_year_start(400) == 146097);
    } else {
        lemma_fundamental_div_mod(doe, 36524);
        let c = doe / 36524;
        let r1 = doe % 36524;
        assert(0 <= c < 4);
        lemma_fundamental_div_mod(r1, 1461);
        let q = r1 / 1461;
        let r2 = r1 % 1461;
        assert(0 <= q <= 24);
        let r: int = if r2 >= 1095 { 3 } else if r2 >= 730 { 2 } else if r2 >= 365 { 1 } else { 0 };
        let k = r2 - 365 * r;
        assert(0 <= k <= 365);
        assert(k == 365 ==> r == 3);
        assert(q == 24 ==> k <= 364);
        let big_y = 100 * c + 4 * q + r;
        assert(doe == 36524 * c + 1461 * q + 365 * r + k);
        let rem = 24 * c + q + 365 * r + k;
        let f: int = if rem >= 1460 { 1 } else { 0 };
        lemma_fundamental_div_mod_converse(doe, 1460, 25 * c + q + f, rem - 1460 * f);
        lemma_fundamental_div_mod_converse(doe, 36524, c, r1);
        lemma_fundamental_div_mod_converse(doe, 146096, 0, doe);
        let t = doe - doe / 1460 + doe / 36524 - doe / 146096;
        assert(t == 365 * big_y + (k - f));
        assert(0 <= k - f < 365);
        lemma_fundamental_div_mod_converse(t, 365, big_y, k - f);
        lemma_fundamental_div_mod_converse(big_y, 4, 25 * c + q, r);
        lemma_fundamental_div_mod_converse(big_y, 100, c, 4 * q + r);
        lemma_fundamental_div_mod_converse(big_y, 400, 0, big_y);
        assert(era_year_start(big_y) == 365 * big_y + 24 * c + q);
        if r < 3 {
            lemma_fundamental_div_mod_converse(big_y + 1, 4, 25 * c + q, r + 1);
            lemma_fundamental_div_mod_converse(big_y + 1, 100, c, 4 * q + r + 1);
            lemma_fundamental_div_mod_converse(big_y + 1, 400, 0, big_y + 1);
        } else if q < 24 {
            lemma_fundamental_div_mod_converse(big_y + 1, 4, 25 * c + q + 1, 0);
            lemma_fundamental_div_mod_converse(big_y + 1, 100, c, 4 * q + 4);
            lemma_fundamental_div_mod_converse(big_y + 1, 400, 0, big_y + 1);
        } else {
            lemma_fundamental_div_mod_converse(big_y + 1, 4, 25 * c + 25, 0);
            lemma_fundamental_div_mod_converse(big_y + 1, 100, c + 1, 0);
            if c < 3 {
                lemma_fundamental_div_mod_converse(big_y + 1, 400, 0, big_y + 1);
            } else {
                lemma_fundamental_div_mod_converse(big_y + 1, 400, 1, 0);
            }
        }
    }
}

/// First days of the months of a March-based year.
proof fn lemma_month_starts()
    ensures
        month_start(0) == 0,
        month_start(1) == 31,
        month_start(2) == 61,
        month_start(3) == 92,
        month_start(4) == 122,
        month_start(5) == 153,
        month_start(6) == 184,
        month_start(7) == 214,
        month_start(8) == 245,
        month_start(9) == 275,
        month_start(10) == 306,
        month_start(11) == 337,
{
}

/// Month number and day of month of day `doy` of a March-based year of
/// `len` days.
proof fn lemma_month_of_year(doy: int, len: int)
    requires
        0 <= doy < len,
        len == 365 || len == 366,
    ensures
        ({
            let mp = (5 * doy + 2) / 153;
            let m = if mp < 10 { mp + 3 } else { mp - 9 };
            let d = doy - month_start(mp) + 1;
            &&& 0 <= mp <= 11
            &&& 1 <= m <= 12
            &&& 1 <= d
            &&& d <= (if m == 2 { len - 337 } else { days_in_month(1, m) })
        }),
{
    lemma_fundamental_div_mod(5 * doy + 2, 153);
    let mp = (5 * doy + 2) / 153;
    assert(153 * mp <= 5 * doy + 2 < 153 * mp + 153);
    assert(0 <= mp <= 11);
    lemma_month_starts();
}

/// The length of a March-based year follows the leap-year rule applied to
/// the calendar year in which its February lies.
proof fn lemma_era_year_length(yoe: int, era: int)
    requires
        0 <= yoe < 400,
    ensures
        era_year_start(yoe + 1) - era_year_start(yoe) == if is_leap_year(yoe + 1 + 400 * era) {
            366int
        } else {
            365int
        },
{
    let x = yoe + 1;
    lemma_fundamental_div_mod(yoe, 4);
    lemma_fundamental_div_mod(x, 4);
    lemma_fundamental_div_mod(yoe, 100);
    lemma_fundamental_div_mod(x, 100);
    lemma_fundamental_div_mod(yoe, 400);
    lemma_fundamental_div_mod(x, 400);
    let w = x + 400 * era;
    lemma_fundamental_div_mod_converse(w, 4, x / 4 + 100 * era, x % 4);
    lemma_fundamental_div_mod_converse(w, 100, x / 100 + 4 * era, x % 100);
    lemma_fundamental_div_mod_converse(w, 400, x / 400 + era, x % 400);
}

/// Year starts grow with the year within an era.
proof fn lemma_era_year_start_monotone(a: int, b: int)
    requires
        0 <= a <= b <= 400,
    ensures
        era_year_start(a) <= era_year_start(b),
        a < b ==> era_year_start(a + 1) <= era_year_start(b),
    decreases b - a,
{
    if a < b {
        lemma_era_year_length(a, 0);
        lemma_era_year_start_monotone(a + 1, b);
    }
}

/// The quotient formula of `civil_from_days` finds the month `mp` of any day
/// that lies inside that month.
proof fn lemma_month_recovered(mp: int, doy: int)
    requires
        0 <= mp <= 11,
        month_start(mp) <= doy,
        mp < 11 ==> doy < month_start(mp + 1),
        mp == 11 ==> doy < 366,
    ensures
        (5 * doy + 2) / 153 == mp,
{
    lemma_month_starts();
    lemma_fundamental_div_mod_converse(5 * doy + 2, 153, mp, 5 * doy + 2 - 153 * mp);
}

/// For a valid date, the day count decomposes into the era, the year of the
/// era and the day of that year exactly as `civil_from_days` recomputes them.
#[verifier::spinoff_prover]
proof fn lemma_date_components(y: int, m: int, d: int)
    requires
        is_valid_date(y, m, d),
    ensures
        ({
            let yy = if m <= 2 { y - 1 } else { y };
            let zz = days_from_civil(y, m, d) + 719468;
            let doe = zz % 146097;
            let yoe = (doe - doe / 1460 + doe / 36524 - doe / 146096) / 365;
            let mp = if m > 2 { m - 3 } else { m + 9 };
            let doy = doe - era_year_start(yoe);
            &&& zz / 146097 == yy / 400
            &&& yoe == yy % 400
            &&& doy == month_start(mp) + d - 1
            &&& 0 <= doy < era_year_start(yoe + 1) - era_year_start(yoe)
            &&& (5 * doy + 2) / 153 == mp
        }),
{
    let yy = if m <= 2 { y - 1 } else { y };
    lemma_fundamental_div_mod(yy, 400);
    let era = yy / 400;
    let yoe = yy % 400;
    let mp = if m > 2 { m - 3 } else { m + 9 };
    let doy = month_start(mp) + d - 1;
    lemma_era_year_length(yoe, era);
    let len = era_year_start(yoe + 1) - era_year_start(yoe);
    lemma_month_starts();
    assert(m == 2 ==> y == yoe + 1 + 400 * era);
    assert(0 <= doy < len);
    lemma_month_recovered(mp, doy);
    let doe = era_year_start(yoe) + doy;
    lemma_era_year_start_monotone(yoe + 1, 400);
    assert(era_year_start(400) == 146097);
    assert(0 <= doe < 146097);
    let zz = days_from_civil(y, m, d) + 719468;
    assert(zz == era * 146097 + doe);
    lemma_fundamental_div_mod_converse(zz, 146097, era, doe);
    lemma_year_of_era(doe);
    let yoe2 = (doe - doe / 1460 + doe / 36524 - doe / 146096) / 365;
    if yoe2 < yoe {
        lemma_era_year_start_monotone(yoe2, yoe);
    } else if yoe < yoe2 {
        lemma_era_year_start_monotone(yoe, yoe2);
    }
    assert(yoe2 == yoe);
}

/// Two valid dates with the same day count are the same date, so the day
/// count identifies a date.
pub proof fn lemma_days_from_civil_injective(y1: int, m1: int, d1: int, y2: int, m2: int, d2: int)
    requires
        is_valid_date(y1, m1, d1),
        is_valid_date(y2, m2, d2),
        days_from_civil(y1, m1, d1) == days_from_civil(y2, m2, d2),
    ensures
        y1 == y2,
        m1 == m2,
        d1 == d2,
{
    lemma_date_components(y1, m1, d1);
    lemma_date_components(y2, m2, d2);
    let yy1 = if m1 <= 2 { y1 - 1 } else { y1 };
    let yy2 = if m2 <= 2 { y2 - 1 } else { y2 };
    lemma_fundamental_div_mod(yy1, 400);
    lemma_fundamental_div_mod(yy2, 400);
}

/// Converts a count of days since 1970-01-01 into the proleptic Gregorian
/// `(year, month, day)` it names (Howard Hinnant's `civil_from_days`).
#[verifier::spinoff_prover]
#[verifier::rlimit(40)]
pub fn civil_from_days(z: i64) -> (r: (i64, u32, u32))
    requires
        z <= i64::MAX - 719_468,
    ensures
        is_valid_date(r.0 as int, r.1 as int, r.2 as int),
        days_from_civil(r.0 as int, r.1 as int, r.2 as int) == z as int,
{
    let z = z + 719_468;
    let era = z.checked_div_euclid(146_097).unwrap();
    let doe = z.checked_rem_euclid(146_097).unwrap();
    proof {
        lemma_fundamental_div_mod(z as int, 146_097);
        lemma_year_of_era(doe as int);
    }
    let yoe = (doe - doe / 1460 + doe / 36524 - doe / 146_096) / 365;
    let y = yoe + era * 400;
    let doy = doe - (365 * yoe + yoe / 4 - yoe / 100);
    proof {
        lemma_fundamental_div_mod_converse(yoe as int, 400, 0, yoe as int);
        assert(doy == doe - era_year_start(yoe as int));
        lemma_era_year_length(yoe as int, era as int);
        let len = era_year_start(yoe + 1) - era_year_start(yoe as int);
        lemma_month_of_year(doy as int, len);
    }
    let mp = (5 * doy + 2) / 153;
    let d = (doy - (153 * mp + 2) / 5 + 1) as u32;
    let m = if mp < 10 { mp + 3 } else { mp - 9 } as u32;
    let year = if m <= 2 { y + 1 } else { y };
    proof {
        let yy = if m <= 2 { year - 1 } else { year as int };
        assert(yy == yoe + era * 400);
        lemma_fundamental_div_mod_converse(yy, 400, era as int, yoe as int);
        if m == 2 {
            assert(is_leap_year(yoe + 1 + 400 * era) == is_leap_year(year as int));
        }
    }
    (year, m, d)
}

/// The date that lies `days` days after 1970-01-01.
pub open spec fn unix_date(days: int) -> (int, int, int) {
    choose|date: (int, int, int)|
        is_valid_date(date.0, date.1, date.2) && days_from_civil(date.0, date.1, date.2) == days
}

/// A valid date with its day count is the date `unix_date` names.
pub proof fn lemma_unix_date_unique(y: int, m: int, d: int)
    requires
        is_valid_date(y, m, d),
    ensures
        unix_date(days_from_civil(y, m, d)) == (y, m, d),
{
    let days = days_from_civil(y, m, d);
    let w = (y, m, d);
    assert(is_valid_date(w.0, w.1, w.2) && days_from_civil(w.0, w.1, w.2) == days);
    let date = unix_date(days);
    lemma_days_from_civil_injective(date.0, date.1, date.2, y, m, d);
}

/// Dates on or after the epoch lie in years that are not negative.
proof fn lemma_epoch_year_nonnegative(y: int, m: int, d: int)
    requires
        is_valid_date(y, m, d),
        days_from_civil(y, m, d) >= 0,
    ensures
        y >= 0,
{
    lemma_date_components(y, m, d);
    let yy = if m <= 2 { y - 1 } else { y };
    let zz = days_from_civil(y, m, d) + 719468;
    lemma_fundamental_div_mod(yy, 400);
    lemma_fundamental_div_mod(zz, 146097);
}

/// Text of a recording's file stem for a time `secs` seconds after the Unix
/// epoch (UTC): `YYYYMMDD-HHMMSS`.
pub open spec fn timestamp_text(secs: nat) -> Seq<char> {
    let date = unix_date(secs as int / 86400);
    let tod = secs % 86400;
    zero_padded(date.0 as nat, 4) + zero_padded(date.1 as nat, 2) + zero_padded(date.2 as nat, 2)
        + seq!['-'] + zero_padded(tod / 3600, 2) + zero_padded(tod % 3600 / 60, 2) + zero_padded(
        tod % 60,
        2,
    )
}

/// Formats a Unix time (UTC) as the `YYYYMMDD-HHMMSS` stem of a recording file.
pub fn timestamp_from_unix_secs(secs: u64) -> (r: String)
    ensures
        r@ == timestamp_text(secs as nat),
{
    let days = secs / 86_400;
    let tod = secs % 86_400;
    let (year, month, day) = civil_from_days(days as i64);
    proof {
        lemma_unix_date_unique(year as int, month as int, day as int);
        lemma_epoch_year_nonnegative(year as int, month as int, day as int);
    }
    let mut out = String::new();
    append_zero_padded(&mut out, year as u64, 4);
    append_zero_padded(&mut out, month as u64, 2);
    append_zero_padded(&mut out, day as u64, 2);
    proof {
        reveal_strlit("-");
    }
    out.append("-");
    append_zero_padded(&mut out, tod / 3600, 2);
    append_zero_padded(&mut out, (tod % 3600) / 60, 2);
    append_zero_padded(&mut out, tod % 60, 2);
    out
}

// ---------------------------------------------------------------------------
// Capture counters
// ---------------------------------------------------------------------------

/// Magnitude of a sample.
pub open spec fn sample_magnitude(x: i16) -> int {
    if x < 0 { -x } else { x as int }
}

/// The meter level of channel `c` after the first `n` samples of an
/// interleaved block of `channels` channels, starting from `start`: the
/// largest of `start` and the magnitudes seen on that channel.
pub open spec fn channel_peak(samples: Seq<i16>, channels: nat, c: nat, n: nat, start: int) -> int
    decreases n,
{
    if n == 0 {
        start
    } else {
        let before = channel_peak(samples, channels, c, (n - 1) as nat, start);
        let k = n - 1;
        if k % (channels as int) == c && sample_magnitude(samples[k]) > before {
            sample_magnitude(samples[k])
        } else {
            before
        }
    }
}

/// The meter level of a channel is the largest of the level it started from
/// and the magnitudes of that channel's samples: at least each of them, and
/// equal to one of them.
pub proof fn lemma_channel_peak_is_max(samples: Seq<i16>, channels: nat, c: nat, n: nat, start: int)
    requires
        channels > 0,
        n <= samples.len(),
    ensures
        channel_peak(samples, channels, c, n, start) >= start,
        forall|k: int|
            0 <= k < n && k % (channels as int) == c ==> channel_peak(samples, channels, c, n, start)
                >= (if samples[k] < 0 { -(samples[k] as int) } else { samples[k] as int }),
        channel_peak(samples, channels, c, n, start) == start || exists|k: int|
            0 <= k < n && k % (channels as int) == c && channel_peak(samples, channels, c, n, start)
                == (if samples[k] < 0 { -(samples[k] as int) } else { samples[k] as int }),
    decreases n,
{
    if n > 0 {
        lemma_channel_peak_is_max(samples, channels, c, (n - 1) as nat, start);
    }
}

/// Number of packets after which the peak meters are published and restarted.
pub const PEAK_WINDOW_PACKETS: u32 = 10;

/// Counters that the capture loop keeps while it writes packets out.
pub struct CaptureCounters {
    /// Bytes read from the port.
    pub bytes: u64,
    /// Packets decoded.
    pub packets: u64,
    /// Packets presumed lost, inferred from gaps in the two-bit `idx` counter.
    pub lost: u64,
    /// Bytes the deframer skipped while resynchronising.
    pub resync_bytes: u64,
    /// Sample frames written (one sample per channel each).
    pub frames: u64,
    /// Sample rate written into the output file; 0 until the first packet.
    pub sample_rate: u32,
    /// Sample width reported in the latest packet header; 16 until the first
    /// packet lands.
    pub bits: u8,
    /// Counter value of the latest packet.
    pub last_idx: Option<u8>,
    /// Largest sample magnitude per channel in the current meter window.
    pub peak: [i32; 2],
    /// Packets seen in the current meter window.
    pub peak_countdown: u32,
}

impl CaptureCounters {
    pub fn new() -> (r: Self)
        ensures
            r.bytes == 0,
            r.packets == 0,
            r.lost == 0,
            r.resync_bytes == 0,
            r.frames == 0,
            r.sample_rate == 0,
            r.bits == 16,
            r.last_idx is None,
            r.peak@ == seq![0i32, 0i32],
            r.peak_countdown == 0,
    {
        let r = CaptureCounters {
            bytes: 0,
            packets: 0,
            lost: 0,
            resync_bytes: 0,
            frames: 0,
            sample_rate: 0,
            bits: 16,
            last_idx: None,
            peak: [0, 0],
            peak_countdown: 0,
        };
        assert(r.peak@ =~= seq![0i32, 0i32]);
        r
    }

    /// Counts `n` more bytes read from the port.
    pub fn record_bytes(&mut self, n: u64)
        requires
            old(self).bytes + n <= u64::MAX,
        ensures
            final(self).bytes == old(self).bytes + n,
            final(self).packets == old(self).packets,
            final(self).lost == old(self).lost,
            final(self).resync_bytes == old(self).resync_bytes,
            final(self).frames == old(self).frames,
            final(self).sample_rate == old(self).sample_rate,
            final(self).bits == old(self).bits,
            final(self).last_idx == old(self).last_idx,
            final(self).peak == old(self).peak,
            final(self).peak_countdown == old(self).peak_countdown,
    {
        self.bytes = self.bytes + n;
    }

    /// Chooses the sample rate of the output file when the first packet
    /// arrives: the configured override, else the rate in the packet header.
    pub fn start_output(&mut self, rate_override: Option<u32>, packet_rate: u32) -> (rate: u32)
        ensures
            rate == (match rate_override {
                Some(r) => r,
                None => packet_rate,
            }),
            final(self).sample_rate == rate,
            final(self).bytes == old(self).bytes,
            final(self).packets == old(self).packets,
            final(self).lost == old(self).lost,
            final(self).resync_bytes == old(self).resync_bytes,
            final(self).frames == old(self).frames,
            final(self).bits == old(self).bits,
            final(self).last_idx == old(self).last_idx,
            final(self).peak == old(self).peak,
            final(self).peak_countdown == old(self).peak_countdown,
    {
        let rate = match rate_override {
            Some(r) => r,
            None => packet_rate,
        };
        self.sample_rate = rate;
        rate
    }

    /// Accounts for a packet that has been written out in `channels`
    /// channels, with the deframer's resync count at that point.
    ///
    /// Every [`PEAK_WINDOW_PACKETS`] packets the per-channel peaks of the
    /// window are handed back for display and the window restarts.
    pub fn record_packet(&mut self, packet: &Packet, channels: u16, resync_bytes: u64) -> (published:
        Option<[i32; 2]>)
        requires
            channels == 1 || channels == 2,
            old(self).packets < u64::MAX,
            old(self).lost + 3 <= u64::MAX,
            old(self).frames + packet.samples@.len() <= u64::MAX,
            old(self).peak_countdown < u32::MAX,
        ensures
            ({
                let samples = packet.samples@;
                let peak0 = channel_peak(
                    samples,
                    channels as nat,
                    0,
                    samples.len(),
                    old(self).peak[0] as int,
                );
                let peak1 = channel_peak(
                    samples,
                    channels as nat,
                    1,
                    samples.len(),
                    old(self).peak[1] as int,
                );
                &&& final(self).packets == old(self).packets + 1
                &&& final(self).bits == packet.bits
                &&& final(self).lost == old(self).lost + (match old(self).last_idx {
                    Some(prev) => (packet.idx - prev - 1) % 4,
                    None => 0,
                })
                &&& final(self).last_idx == Some(packet.idx)
                &&& final(self).resync_bytes == resync_bytes
                &&& final(self).frames == old(self).frames + samples.len() / (channels as nat)
                &&& final(self).bytes == old(self).bytes
                &&& final(self).sample_rate == old(self).sample_rate
                &&& if old(self).peak_countdown + 1 >= PEAK_WINDOW_PACKETS {
                    &&& published matches Some(p) && p@ == seq![peak0 as i32, peak1 as i32]
                    &&& final(self).peak@ == seq![0i32, 0i32]
                    &&& final(self).peak_countdown == 0
                } else {
                    &&& published is None
                    &&& final(self).peak@ == seq![peak0 as i32, peak1 as i32]
                    &&& final(self).peak_countdown == old(self).peak_countdown + 1
                }
            }),
            // The level of each channel (kept, or handed back at the end of a
            // window) is the largest of its previous level and the magnitudes
            // of the packet's samples on that channel.
            forall|c: int|
                #![trigger old(self).peak[c]]
                0 <= c < 2 ==> {
                    let samples = packet.samples@;
                    let level = if old(self).peak_countdown + 1 >= PEAK_WINDOW_PACKETS {
                        published->0[c] as int
                    } else {
                        final(self).peak[c] as int
                    };
                    &&& level >= old(self).peak[c]
                    &&& forall|k: int|
                        0 <= k < samples.len() && k % (channels as int) == c ==> level >= (if samples[k]
                            < 0 {
                            -(samples[k] as int)
                        } else {
                            samples[k] as int
                        })
                    &&& (level == old(self).peak[c] || exists|k: int|
                        0 <= k < samples.len() && k % (channels as int) == c && level == (if samples[k]
                            < 0 {
                            -(samples[k] as int)
                        } else {
                            samples[k] as int
                        }))
                },
    {
        let ch = channels as usize;
        let n = packet.samples.len();
        let mut p0: i32 = self.peak[0];
        let mut p1: i32 = self.peak[1];
        let mut i: usize = 0;
        while i < n
            invariant
                i <= n,
                n == packet.samples@.len(),
                ch == channels,
                ch == 1 || ch == 2,
                p0 as int == channel_peak(packet.samples@, ch as nat, 0, i as nat, self.peak[0] as int),
                p1 as int == channel_peak(packet.samples@, ch as nat, 1, i as nat, self.peak[1] as int),
            decreases n - i,
        {
            let sample = packet.samples[i] as i32;
            let magnitude = if sample < 0 { -sample } else { sample };
            let channel = i % ch;
            if channel == 0 {
                if magnitude > p0 {
                    p0 = magnitude;
                }
            } else {
                if magnitude > p1 {
                    p1 = magnitude;
                }
            }
            i += 1;
        }
        let lost: u8 = match self.last_idx {
            Some(prev) => crate::proto::lost_between(prev, packet.idx),
            None => 0,
        };
        self.last_idx = Some(packet.idx);
        self.packets = self.packets + 1;
        self.bits = packet.bits;
        self.lost = self.lost + lost as u64;
        self.resync_bytes = resync_bytes;
        self.frames = self.frames + (n / ch) as u64;
        self.peak_countdown = self.peak_countdown + 1;
        proof {
            let samples = packet.samples@;
            lemma_channel_peak_is_max(samples, ch as nat, 0, n as nat, old(self).peak[0] as int);
            lemma_channel_peak_is_max(samples, ch as nat, 1, n as nat, old(self).peak[1] as int);
        }
        if self.peak_countdown >= PEAK_WINDOW_PACKETS {
            self.peak_countdown = 0;
            let published = [p0, p1];
            self.peak = [0, 0];
            assert(published@ =~= seq![p0, p1]);
            assert(self.peak@ =~= seq![0i32, 0i32]);
            Some(published)
        } else {
            self.peak = [p0, p1];
            assert(self.peak@ =~= seq![p0, p1]);
            None
        }
    }
}

// ---------------------------------------------------------------------------
// Order of dates and of recording file stems
// ---------------------------------------------------------------------------

/// `(y1, m1, d1)` comes before `(y2, m2, d2)` in the calendar.
pub open spec fn date_before(y1: int, m1: int, d1: int, y2: int, m2: int, d2: int) -> bool {
    y1 < y2 || (y1 == y2 && (m1 < m2 || (m1 == m2 && d1 < d2)))
}

/// Days from 0000-03-01 to March 1st of year `yy`.
spec fn march_year_start(yy: int) -> int {
    (yy / 400) * 146097 + era_year_start(yy % 400)
}

/// A March-based year is as long as its era-relative counterpart.
proof fn lemma_march_year_step(yy: int)
    ensures
        march_year_start(yy + 1) - march_year_start(yy) == era_year_start(yy % 400 + 1)
            - era_year_start(yy % 400),
{
    lemma_fundamental_div_mod(yy, 400);
    if yy % 400 < 399 {
        lemma_fundamental_div_mod_converse(yy + 1, 400, yy / 400, yy % 400 + 1);
    } else {
        lemma_fundamental_div_mod_converse(yy + 1, 400, yy / 400 + 1, 0);
        assert(era_year_start(400) == 146097);
        assert(era_year_start(0) == 0);
    }
}

/// March-based years start later and later.
proof fn lemma_march_year_start_monotone(a: int, b: int)
    requires
        a < b,
    ensures
        march_year_start(a + 1) <= march_year_start(b),
    decreases b - a,
{
    if a + 1 < b {
        lemma_march_year_start_monotone(a + 1, b);
        lemma_march_year_step(a + 1);
        lemma_fundamental_div_mod(a + 1, 400);
        lemma_era_year_length((a + 1) % 400, 0);
    }
}

/// The day count grows with the date.
#[verifier::spinoff_prover]
#[verifier::rlimit(40)]
pub proof fn lemma_days_from_civil_increasing(y1: int, m1: int, d1: int, y2: int, m2: int, d2: int)
    requires
        is_valid_date(y1, m1, d1),
        is_valid_date(y2, m2, d2),
        date_before(y1, m1, d1, y2, m2, d2),
    ensures
        days_from_civil(y1, m1, d1) < days_from_civil(y2, m2, d2),
{
    lemma_date_components(y1, m1, d1);
    lemma_date_components(y2, m2, d2);
    let yy1 = if m1 <= 2 { y1 - 1 } else { y1 };
    let yy2 = if m2 <= 2 { y2 - 1 } else { y2 };
    let mp1 = if m1 > 2 { m1 - 3 } else { m1 + 9 };
    let mp2 = if m2 > 2 { m2 - 3 } else { m2 + 9 };
    lemma_fundamental_div_mod(yy1, 400);
    lemma_fundamental_div_mod(yy2, 400);
    let doy1 = month_start(mp1) + d1 - 1;
    let doy2 = month_start(mp2) + d2 - 1;
    assert(days_from_civil(y1, m1, d1) == march_year_start(yy1) + doy1 - 719468);
    assert(days_from_civil(y2, m2, d2) == march_year_start(yy2) + doy2 - 719468);
    assert(yy1 < yy2 || (yy1 == yy2 && (mp1 < mp2 || (mp1 == mp2 && d1 < d2))));
    if yy1 < yy2 {
        lemma_march_year_step(yy1);
        lemma_march_year_start_monotone(yy1, yy2);
        assert(0 <= doy2);
    } else if mp1 < mp2 {
        lemma_month_starts();
        assert(doy1 < month_start(mp1 + 1));
    }
}

/// Every day count names a date.
#[verifier::spinoff_prover]
proof fn lemma_civil_date_exists(z: int) -> (date: (int, int, int))
    ensures
        is_valid_date(date.0, date.1, date.2),
        days_from_civil(date.0, date.1, date.2) == z,
{
    let zz = z + 719468;
    lemma_fundamental_div_mod(zz, 146097);
    let era = zz / 146097;
    let doe = zz % 146097;
    lemma_year_of_era(doe);
    let yoe = (doe - doe / 1460 + doe / 36524 - doe / 146096) / 365;
    lemma_fundamental_div_mod_converse(yoe, 400, 0, yoe);
    let doy = doe - era_year_start(yoe);
    lemma_era_year_length(yoe, era);
    let len = era_year_start(yoe + 1) - era_year_start(yoe);
    lemma_month_of_year(doy, len);
    let mp = (5 * doy + 2) / 153;
    let d = doy - month_start(mp) + 1;
    let m = if mp < 10 { mp + 3 } else { mp - 9 };
    let y = yoe + era * 400;
    let year = if m <= 2 { y + 1 } else { y };
    lemma_fundamental_div_mod_converse(y, 400, era, yoe);
    (year, m, d)
}

/// `unix_date` names the valid date of a day count.
pub proof fn lemma_unix_date_valid(days: int)
    ensures
        is_valid_date(unix_date(days).0, unix_date(days).1, unix_date(days).2),
        days_from_civil(unix_date(days).0, unix_date(days).1, unix_date(days).2) == days,
{
    let w = lemma_civil_date_exists(days);
    assert(is_valid_date(w.0, w.1, w.2) && days_from_civil(w.0, w.1, w.2) == days);
}

/// Text made of `parts` one after the other.
pub open spec fn join_text(parts: Seq<Seq<char>>) -> Seq<char>
    decreases parts.len(),
{
    if parts.len() == 0 {
        Seq::empty()
    } else {
        join_text(parts.drop_last()) + parts.last()
    }
}

/// Text joined from parts is ordered by the first part that differs, when the
/// parts after it have equal lengths.
proof fn lemma_join_text_before(p: Seq<Seq<char>>, q: Seq<Seq<char>>, k: int)
    requires
        p.len() == q.len(),
        0 <= k < p.len(),
        forall|j: int| 0 <= j < k ==> p[j] == q[j],
        text_before(p[k], q[k]),
        forall|j: int| k < j < p.len() ==> p[j].len() == q[j].len(),
    ensures
        text_before(join_text(p), join_text(q)),
    decreases p.len(),
{
    let n = p.len() as int;
    if k == n - 1 {
        assert(p.drop_last() =~= q.drop_last());
        lemma_text_before_behind(join_text(p.drop_last()), p.last(), q.last());
    } else {
        lemma_join_text_before(p.drop_last(), q.drop_last(), k);
        lemma_text_before_extend(
            join_text(p.drop_last()),
            join_text(q.drop_last()),
            p.last(),
            q.last(),
        );
    }
}

/// The parts of a recording's file stem.
spec fn stamp_parts(y: nat, m: nat, d: nat, tod: nat) -> Seq<Seq<char>> {
    seq![
        fixed_digits(y, 4),
        fixed_digits(m, 2),
        fixed_digits(d, 2),
        seq!['-'],
        fixed_digits(tod / 3600, 2),
        fixed_digits(tod % 3600 / 60, 2),
        fixed_digits(tod % 60, 2),
    ]
}

/// Seconds from the epoch to 10000-01-01T00:00:00Z, where four-digit years end.
pub open spec fn stamp_secs_limit() -> nat {
    253_402_300_800
}

/// The file stem of a time is made of its fixed-width parts.
#[verifier::spinoff_prover]
proof fn lemma_timestamp_parts(secs: nat)
    requires
        secs < stamp_secs_limit(),
    ensures
        ({
            let date = unix_date(secs as int / 86400);
            &&& 0 <= date.0 <= 9999
            &&& timestamp_text(secs) == join_text(
                stamp_parts(date.0 as nat, date.1 as nat, date.2 as nat, secs % 86400),
            )
        }),
{
    let days = secs as int / 86400;
    let tod = secs % 86400;
    lemma_unix_date_valid(days);
    let date = unix_date(days);
    lemma_epoch_year_nonnegative(date.0, date.1, date.2);
    assert(days_from_civil(10000, 1, 1) == 2932897);
    if date.0 >= 10000 {
        if date.0 != 10000 || date.1 != 1 || date.2 != 1 {
            lemma_days_from_civil_increasing(10000, 1, 1, date.0, date.1, date.2);
        }
    }
    reveal_with_fuel(pow10, 5);
    lemma_zero_padded_fixed(date.0 as nat, 4);
    lemma_zero_padded_fixed(date.1 as nat, 2);
    lemma_zero_padded_fixed(date.2 as nat, 2);
    lemma_zero_padded_fixed(tod / 3600, 2);
    lemma_zero_padded_fixed(tod % 3600 / 60, 2);
    lemma_zero_padded_fixed(tod % 60, 2);
    reveal_with_fuel(join_text, 8);
    let parts = stamp_parts(date.0 as nat, date.1 as nat, date.2 as nat, tod);
    assert(join_text(parts) =~= timestamp_text(secs));
}

/// The parts of two file stems have equal lengths.
proof fn lemma_stamp_parts_same_lengths(y1: nat, m1: nat, d1: nat, tod1: nat, y2: nat, m2: nat, d2: nat, tod2: nat)
    ensures
        ({
            let p = stamp_parts(y1, m1, d1, tod1);
            let q = stamp_parts(y2, m2, d2, tod2);
            &&& p.len() == 7
            &&& q.len() == 7
            &&& forall|j: int| 0 <= j < 7 ==> #[trigger] p[j].len() == q[j].len()
        }),
{
    crate::decimal::lemma_fixed_digits_len(y1, 4);
    crate::decimal::lemma_fixed_digits_len(y2, 4);
    crate::decimal::lemma_fixed_digits_len(m1, 2);
    crate::decimal::lemma_fixed_digits_len(m2, 2);
    crate::decimal::lemma_fixed_digits_len(d1, 2);
    crate::decimal::lemma_fixed_digits_len(d2, 2);
    crate::decimal::lemma_fixed_digits_len(tod1 / 3600, 2);
    crate::decimal::lemma_fixed_digits_len(tod2 / 3600, 2);
    crate::decimal::lemma_fixed_digits_len(tod1 % 3600 / 60, 2);
    crate::decimal::lemma_fixed_digits_len(tod2 % 3600 / 60, 2);
    crate::decimal::lemma_fixed_digits_len(tod1 % 60, 2);
    crate::decimal::lemma_fixed_digits_len(tod2 % 60, 2);
}

/// File stems of earlier dates sort first.
proof fn lemma_stamp_order_by_date(y1: nat, m1: nat, d1: nat, tod1: nat, y2: nat, m2: nat, d2: nat, tod2: nat)
    requires
        y2 <= 9999,
        m1 <= 12,
        m2 <= 12,
        d1 <= 31,
        d2 <= 31,
        date_before(y1 as int, m1 as int, d1 as int, y2 as int, m2 as int, d2 as int),
    ensures
        text_before(
            join_text(stamp_parts(y1, m1, d1, tod1)),
            join_text(stamp_parts(y2, m2, d2, tod2)),
        ),
{
    let p = stamp_parts(y1, m1, d1, tod1);
    let q = stamp_parts(y2, m2, d2, tod2);
    lemma_stamp_parts_same_lengths(y1, m1, d1, tod1, y2, m2, d2, tod2);
    reveal_with_fuel(pow10, 5);
    if y1 < y2 {
        lemma_fixed_digits_order(y1, y2, 4);
        lemma_join_text_before(p, q, 0);
    } else if m1 < m2 {
        lemma_fixed_digits_order(m1, m2, 2);
        lemma_join_text_before(p, q, 1);
    } else {
        lemma_fixed_digits_order(d1, d2, 2);
        lemma_join_text_before(p, q, 2);
    }
}

/// A time of day splits into hours, minutes and seconds.
proof fn lemma_time_of_day_split(tod: nat)
    requires
        tod < 86400,
    ensures
        tod == 3600 * (tod / 3600) + 60 * (tod % 3600 / 60) + tod % 60,
        tod / 3600 < 100,
        tod % 3600 / 60 < 60,
        tod % 60 < 60,
{
    lemma_fundamental_div_mod(tod as int, 3600);
    lemma_fundamental_div_mod((tod % 3600) as int, 60);
    vstd::arithmetic::div_mod::lemma_mod_mod(tod as int, 3600, 60);
}

/// Earlier times of day have earlier hours, or equal hours and earlier
/// minutes, or equal hours and minutes and earlier seconds.
proof fn lemma_time_of_day_order(tod1: nat, tod2: nat)
    requires
        tod1 < tod2 < 86400,
    ensures
        tod1 / 3600 < tod2 / 3600 || (tod1 / 3600 == tod2 / 3600 && (tod1 % 3600 / 60 < tod2
            % 3600 / 60 || (tod1 % 3600 / 60 == tod2 % 3600 / 60 && tod1 % 60 < tod2 % 60))),
{
    lemma_time_of_day_split(tod1);
    lemma_time_of_day_split(tod2);
    let h1 = tod1 / 3600;
    let h2 = tod2 / 3600;
    let mi1 = tod1 % 3600 / 60;
    let mi2 = tod2 % 3600 / 60;
    let s1 = tod1 % 60;
    let s2 = tod2 % 60;
    assert(tod1 == 3600 * h1 + 60 * mi1 + s1);
    assert(tod2 == 3600 * h2 + 60 * mi2 + s2);
}

/// On the same date, file stems of earlier times of day sort first.
proof fn lemma_stamp_order_by_time(y: nat, m: nat, d: nat, tod1: nat, tod2: nat)
    requires
        tod1 < tod2 < 86400,
    ensures
        text_before(join_text(stamp_parts(y, m, d, tod1)), join_text(stamp_parts(y, m, d, tod2))),
{
    let p = stamp_parts(y, m, d, tod1);
    let q = stamp_parts(y, m, d, tod2);
    lemma_stamp_parts_same_lengths(y, m, d, tod1, y, m, d, tod2);
    lemma_time_of_day_order(tod1, tod2);
    lemma_time_of_day_split(tod1);
    lemma_time_of_day_split(tod2);
    reveal_with_fuel(pow10, 3);
    let h1 = tod1 / 3600;
    let h2 = tod2 / 3600;
    let mi1 = tod1 % 3600 / 60;
    let mi2 = tod2 % 3600 / 60;
    if h1 < h2 {
        lemma_fixed_digits_order(h1, h2, 2);
        lemma_join_text_before(p, q, 4);
    } else if mi1 < mi2 {
        lemma_fixed_digits_order(mi1, mi2, 2);
        lemma_join_text_before(p, q, 5);
    } else {
        lemma_fixed_digits_order(tod1 % 60, tod2 % 60, 2);
        lemma_join_text_before(p, q, 6);
    }
}

/// Recording file stems sort like the times they name (for years up to 9999),
/// so listing them in reverse text order lists the newest first.
#[verifier::spinoff_prover]
pub proof fn lemma_timestamps_sort_by_time(s1: nat, s2: nat)
    requires
        s1 < s2 < stamp_secs_limit(),
    ensures
        text_before(timestamp_text(s1), timestamp_text(s2)),
{
    let days1 = s1 as int / 86400;
    let days2 = s2 as int / 86400;
    lemma_fundamental_div_mod(s1 as int, 86400);
    lemma_fundamental_div_mod(s2 as int, 86400);
    lemma_timestamp_parts(s1);
    lemma_timestamp_parts(s2);
    lemma_unix_date_valid(days1);
    lemma_unix_date_valid(days2);
    let a = unix_date(days1);
    let b = unix_date(days2);
    if days1 < days2 {
        if !date_before(a.0, a.1, a.2, b.0, b.1, b.2) && a != b {
            lemma_days_from_civil_increasing(b.0, b.1, b.2, a.0, a.1, a.2);
        }
        lemma_stamp_order_by_date(
            a.0 as nat,
            a.1 as nat,
            a.2 as nat,
            s1 % 86400,
            b.0 as nat,
            b.1 as nat,
            b.2 as nat,
            s2 % 86400,
        );
    } else {
        lemma_stamp_order_by_time(a.0 as nat, a.1 as nat, a.2 as nat, s1 % 86400, s2 % 86400);
    }
}

/// Day 0 is 1970-01-01.
pub proof fn lemma_epoch_is_day_zero()
    ensures
        is_valid_date(1970, 1, 1),
        days_from_civil(1970, 1, 1) == 0,
{
}

/// Consecutive days of the calendar have consecutive day counts: the day
/// after `(y, m, d)` (the next day of the month, the first of the next month,
/// or New Year's Day) is counted one higher.
pub proof fn lemma_days_from_civil_next_day(y: int, m: int, d: int)
    requires
        is_valid_date(y, m, d),
    ensures
        d < days_in_month(y, m) ==> days_from_civil(y, m, d + 1) == days_from_civil(y, m, d) + 1,
        d == days_in_month(y, m) && m < 12 ==> days_from_civil(y, m + 1, 1) == days_from_civil(
            y,
            m,
            d,
        ) + 1,
        d == days_in_month(y, m) && m == 12 ==> days_from_civil(y + 1, 1, 1) == days_from_civil(
            y,
            m,
            d,
        ) + 1,
{
    lemma_month_starts();
    let yy = if m <= 2 { y - 1 } else { y };
    lemma_fundamental_div_mod(yy, 400);
    lemma_fundamental_div_mod(y, 400);
    lemma_fundamental_div_mod(y - 1, 400);
    if d == days_in_month(y, m) && m == 2 {
        lemma_march_year_step(y - 1);
        lemma_fundamental_div_mod(y - 1, 400);
        lemma_era_year_length((y - 1) % 400, (y - 1) / 400);
        assert(days_from_civil(y, 2, d) == march_year_start(y - 1) + 337 + d - 1 - 719468);
        assert(days_from_civil(y, 3, 1) == march_year_start(y) - 719468);
    }
}

} // verus!
