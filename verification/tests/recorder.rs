use syner_uart_recorder::proto::Packet;
use syner_uart_recorder::recorder::{civil_from_days, timestamp_from_unix_secs, CaptureCounters};

#[test]
fn epoch_maps_to_1970() {
    assert_eq!(civil_from_days(0), (1970, 1, 1));
}

#[test]
fn handles_leap_years() {
    // 2024-02-29 is 19782 days after the epoch.
    assert_eq!(civil_from_days(19_782), (2024, 2, 29));
}

#[test]
fn civil_from_days_handles_century_rules_and_negative_days() {
    assert_eq!(civil_from_days(-1), (1969, 12, 31));
    assert_eq!(civil_from_days(-719_468), (0, 3, 1));
    // 2000 is a leap year, 2100 is not.
    assert_eq!(civil_from_days(11_016), (2000, 2, 29));
    assert_eq!(civil_from_days(47_541), (2100, 3, 1));
    assert_eq!(civil_from_days(47_540), (2100, 2, 28));
    assert_eq!(civil_from_days(10_957), (2000, 1, 1));
}

#[test]
fn timestamp_formats_utc_date_and_time() {
    assert_eq!(timestamp_from_unix_secs(0), "19700101-000000");
    assert_eq!(timestamp_from_unix_secs(1_700_000_000), "20231114-221320");
    assert_eq!(timestamp_from_unix_secs(1_709_251_199), "20240229-235959");
}

fn packet(idx: u8, samples: Vec<i16>) -> Packet {
    Packet { idx, bits: 16, sample_rate: 16_000, samples }
}

#[test]
fn counters_track_packets_losses_and_frames() {
    let mut c = CaptureCounters::new();
    assert_eq!(c.bits, 16);
    c.record_bytes(40);
    assert_eq!(c.start_output(None, 16_000), 16_000);
    assert_eq!(c.sample_rate, 16_000);
    assert_eq!(c.record_packet(&packet(0, vec![1, -2, 3, -4]), 2, 5), None);
    assert_eq!(c.lost, 0);
    assert_eq!(c.frames, 2);
    assert_eq!(c.peak, [3, 4]);
    // idx jumps from 0 to 3: two packets went missing.
    c.record_packet(&packet(3, vec![0, 0]), 2, 7);
    assert_eq!(c.lost, 2);
    assert_eq!(c.packets, 2);
    assert_eq!(c.resync_bytes, 7);
    assert_eq!(c.bytes, 40);
    assert_eq!(c.last_idx, Some(3));
}

#[test]
fn rate_override_wins_over_the_header() {
    let mut c = CaptureCounters::new();
    assert_eq!(c.start_output(Some(8_000), 16_000), 8_000);
    assert_eq!(c.sample_rate, 8_000);
}

#[test]
fn peaks_are_published_every_ten_packets() {
    let mut c = CaptureCounters::new();
    for i in 0..9u8 {
        let published = c.record_packet(&packet(i % 4, vec![i16::MIN, 10 * i as i16]), 1, 0);
        assert_eq!(published, None);
    }
    assert_eq!(c.peak, [32_768, 0]);
    let published = c.record_packet(&packet(1, vec![5, 6]), 1, 0);
    assert_eq!(published, Some([32_768, 0]));
    assert_eq!(c.peak, [0, 0]);
    assert_eq!(c.peak_countdown, 0);
    assert_eq!(c.bits, 16);
    assert_eq!(c.frames, 20);
}

#[test]
fn timestamps_sort_like_the_times_they_name() {
    let times = [
        0u64,
        59,
        60,
        3_599,
        3_600,
        86_399,
        86_400,
        951_782_400,
        1_700_000_000,
        1_709_251_199,
        1_709_251_200,
        253_402_300_799,
    ];
    for pair in times.windows(2) {
        let a = timestamp_from_unix_secs(pair[0]);
        let b = timestamp_from_unix_secs(pair[1]);
        assert_eq!(a.len(), b.len());
        assert!(a < b, "{a} should sort before {b}");
    }
    assert_eq!(timestamp_from_unix_secs(253_402_300_799), "99991231-235959");
    assert_eq!(timestamp_from_unix_secs(253_402_300_800), "100000101-000000");
}
