# syner_uart_recorder

Records the PCM trace stream that the TL7218 firmware (`WAV_RECORD_EN`) sends over a
USB CDC serial port into WAV files, and plays them back.

- `src/` is the verified library (Verus):
  - `proto.rs`: the packet format, the incremental `Deframer` that resynchronises on
    garbage, `lost_between` for counter gaps, and the laws of the format: the encoding
    round trip, resynchronisation, and `lemma_chunking_does_not_matter` (feeding a
    stream in any chunks yields the same packets, resync count and leftover bytes as
    feeding it at once, stated over `drain`, which `next_packet` and `feed` follow).
  - `recorder.rs`: Gregorian calendar arithmetic (`civil_from_days`, proved against
    `days_from_civil`), the `YYYYMMDD-HHMMSS` file stem, and `CaptureCounters`, the
    decisions of the capture loop (loss counting, frame counting, peak-meter windows).
  - `settings.rs`: capture parameters and the preset cycling of the settings view.
  - `library.rs`: which files count as recordings, and `newest_first`, their
    listing order, with `lemma_newest_first_by_time`.
  - `decimal.rs`: decimal rendering used by the labels and the file stems.
- `app/` is the program around it: the gpui window, the serial port, the WAV files
  (hound), audio playback (rodio), the settings file (serde_json) and the clock.
  `Cargo.toml` does not name gpui: with it the dependency graph exceeds what this
  build environment accepts, so `app/main.rs` does not build here.
- `tests/` exercises the library.
