use syner_uart_recorder::settings::{rate_presets, Settings, BAUD_PRESETS, SAMPLES_PRESETS};
use syner_uart_recorder::proto::ChannelMode;

#[test]
fn cycles_through_presets_and_wraps() {
    let mut s = Settings::default();
    assert_eq!(s.baud, 115_200);
    s.cycle_baud();
    assert_eq!(s.baud, 921_600);
    for _ in 0..(BAUD_PRESETS.len() - 1) {
        s.cycle_baud();
    }
    assert_eq!(s.baud, BAUD_PRESETS[0], "wraps back around the preset list");
}

#[test]
fn cycles_rate_override_including_auto() {
    let mut s = Settings::default();
    assert_eq!(s.sample_rate_override, None);
    s.cycle_rate_override();
    assert_eq!(s.sample_rate_override, Some(16_000));
    s.cycle_rate_override();
    assert_eq!(s.sample_rate_override, Some(8_000));
    s.cycle_rate_override();
    assert_eq!(s.sample_rate_override, None);
}

#[test]
fn unknown_current_value_restarts_the_cycle() {
    let mut s = Settings {
        baud: 4_321,
        ..Default::default()
    };
    s.cycle_baud();
    assert_eq!(s.baud, BAUD_PRESETS[1]);
}

#[test]
fn defaults_match_the_firmware() {
    let s = Settings::default();
    assert_eq!(s.port, None);
    assert_eq!(s.samples_per_packet, 160);
    assert_eq!(s.channel_mode, ChannelMode::Both);
}

#[test]
fn cycling_samples_touches_nothing_else() {
    let mut s = Settings::default();
    s.port = Some("COM3".to_string());
    s.cycle_samples();
    assert_eq!(s.samples_per_packet, 320);
    s.cycle_samples();
    assert_eq!(s.samples_per_packet, 640);
    s.cycle_samples();
    assert_eq!(s.samples_per_packet, SAMPLES_PRESETS[0]);
    assert_eq!(s.port.as_deref(), Some("COM3"));
    assert_eq!(s.baud, 115_200);
    s.samples_per_packet = 7;
    s.cycle_samples();
    assert_eq!(s.samples_per_packet, SAMPLES_PRESETS[1]);
}

#[test]
fn rate_override_label_names_the_rate() {
    let mut s = Settings::default();
    assert_eq!(s.rate_override_label(), "自动 (读取包头)");
    s.sample_rate_override = Some(16_000);
    assert_eq!(s.rate_override_label(), "16000 Hz (强制)");
    s.sample_rate_override = Some(0);
    assert_eq!(s.rate_override_label(), "0 Hz (强制)");
    s.sample_rate_override = Some(u32::MAX);
    assert_eq!(s.rate_override_label(), "4294967295 Hz (强制)");
    assert_eq!(rate_presets(), [None, Some(16_000), Some(8_000)]);
}
