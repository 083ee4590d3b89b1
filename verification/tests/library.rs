use syner_uart_recorder::library::{is_wav_extension, newest_first};

#[test]
fn wav_extension_ignores_ascii_case() {
    assert!(is_wav_extension(b"wav"));
    assert!(is_wav_extension(b"WAV"));
    assert!(is_wav_extension(b"Wav"));
    assert!(!is_wav_extension(b"wave"));
    assert!(!is_wav_extension(b"mp3"));
    assert!(!is_wav_extension(b""));
}

fn chars(s: &str) -> Vec<char> {
    s.chars().collect()
}

#[test]
fn newest_first_lists_later_stems_first_and_keeps_ties_in_order() {
    let names = vec![
        chars("20240101-120000"),
        chars("20231231-235959"),
        chars("20240101-120000-1"),
        chars("x"),
        chars("20240101-120000"),
        chars(""),
    ];
    assert_eq!(newest_first(&names), vec![3, 2, 0, 4, 1, 5]);
    assert_eq!(newest_first(&Vec::new()), Vec::<usize>::new());
}
