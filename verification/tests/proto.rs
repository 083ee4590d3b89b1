use syner_uart_recorder::proto::{lost_between, packet_fits, ChannelMode, Deframer, PREAMBLE};

fn packet(idx: u8, samples: &[(i16, i16)]) -> Vec<u8> {
    packet_with(idx, 16, 16_000, samples)
}

fn packet_with(idx: u8, bits: u8, rate: u32, samples: &[(i16, i16)]) -> Vec<u8> {
    let mut out = Vec::new();
    out.extend_from_slice(&PREAMBLE);
    out.push(idx);
    out.push(bits);
    out.extend_from_slice(&rate.to_le_bytes());
    for (hi, lo) in samples {
        let raw = ((*hi as u16 as u32) << 16) | (*lo as u16 as u32);
        out.extend_from_slice(&raw.to_le_bytes());
    }
    out
}

#[test]
fn decodes_both_halves() {
    let mut d = Deframer::new(2, ChannelMode::Both);
    d.extend(&packet(1, &[(100, -100), (i16::MAX, i16::MIN)]));
    let p = d.next_packet().unwrap();
    assert_eq!(p.idx, 1);
    assert_eq!(p.sample_rate, 16_000);
    assert_eq!(p.samples, vec![100, -100, i16::MAX, i16::MIN]);
    assert!(d.next_packet().is_none());
}

#[test]
fn selects_single_half() {
    let mut d = Deframer::new(2, ChannelMode::LowOnly);
    d.extend(&packet(0, &[(1, 2), (3, 4)]));
    assert_eq!(d.next_packet().unwrap().samples, vec![2, 4]);

    let mut d = Deframer::new(2, ChannelMode::HighOnly);
    d.extend(&packet(0, &[(1, 2), (3, 4)]));
    assert_eq!(d.next_packet().unwrap().samples, vec![1, 3]);
}

#[test]
fn resynchronises_after_leading_garbage() {
    let mut d = Deframer::new(2, ChannelMode::Both);
    d.extend(&[0x01, 0xAA, 0xFF]);
    d.extend(&packet(2, &[(7, 8), (9, 10)]));
    let p = d.next_packet().unwrap();
    assert_eq!(p.idx, 2);
    assert_eq!(d.resync_bytes, 3);
}

#[test]
fn reassembles_across_chunk_boundaries() {
    let bytes = packet(3, &[(11, 12), (13, 14)]);
    let mut d = Deframer::new(2, ChannelMode::Both);
    let (head, tail) = bytes.split_at(bytes.len() - 1);
    for chunk in head.chunks(3) {
        d.extend(chunk);
        assert!(d.next_packet().is_none(), "incomplete packet must not emit");
    }
    d.extend(tail);
    assert_eq!(d.next_packet().unwrap().idx, 3);
}

#[test]
fn counts_losses_from_idx_gaps() {
    assert_eq!(lost_between(0, 1), 0);
    assert_eq!(lost_between(3, 0), 0);
    assert_eq!(lost_between(0, 2), 1);
    assert_eq!(lost_between(0, 3), 2);
    assert_eq!(lost_between(0, 0), 3);
}

#[test]
fn lost_between_recovers_every_gap_from_every_counter() {
    for previous in 0u8..4 {
        for lost in 0u8..4 {
            let current = (previous + lost + 1) % 4;
            assert_eq!(lost_between(previous, current), lost);
        }
    }
}

#[test]
fn packet_len_counts_header_and_words() {
    assert_eq!(Deframer::new(2, ChannelMode::Both).packet_len(), 16);
    assert_eq!(Deframer::new(160, ChannelMode::Both).packet_len(), 648);
}

#[test]
fn rejects_implausible_headers_and_drops_what_cannot_start_a_packet() {
    // bits = 8 is not a width the firmware reports.
    let mut d = Deframer::new(2, ChannelMode::Both);
    d.extend(&packet_with(0, 8, 16_000, &[(1, 2), (3, 4)]));
    assert!(d.next_packet().is_none());
    // 16 bytes held, only offset 0 could start a 16-byte packet: one byte dropped.
    assert_eq!(d.resync_bytes, 1);
    assert_eq!(d.pending_len(), 15);

    // A rate outside the plausibility window.
    let mut d = Deframer::new(2, ChannelMode::Both);
    d.extend(&packet_with(0, 16, 1_000, &[(1, 2), (3, 4)]));
    assert!(d.next_packet().is_none());
    assert_eq!(d.resync_bytes, 1);

    // A counter value above 3.
    let mut d = Deframer::new(2, ChannelMode::Both);
    d.extend(&packet_with(4, 16, 16_000, &[(1, 2), (3, 4)]));
    assert!(d.next_packet().is_none());
    assert_eq!(d.resync_bytes, 1);
}

#[test]
fn accepts_the_edges_of_the_plausibility_window() {
    for (bits, rate) in [(24u8, 4_000u32), (32, 192_000)] {
        let mut d = Deframer::new(1, ChannelMode::Both);
        d.extend(&packet_with(3, bits, rate, &[(-1, 1)]));
        let p = d.next_packet().unwrap();
        assert_eq!(p.bits, bits);
        assert_eq!(p.sample_rate, rate);
        assert_eq!(p.samples, vec![-1, 1]);
        assert_eq!(d.resync_bytes, 0);
        assert_eq!(d.pending_len(), 0);
    }
}

#[test]
fn two_packets_in_one_chunk_come_out_in_order() {
    let mut bytes = packet(0, &[(1, 2)]);
    bytes.extend(packet(1, &[(3, 4)]));
    bytes.push(0xAA);
    let mut d = Deframer::new(1, ChannelMode::HighOnly);
    d.extend(&bytes);
    assert_eq!(d.next_packet().unwrap().samples, vec![1]);
    assert_eq!(d.next_packet().unwrap().samples, vec![3]);
    assert!(d.next_packet().is_none());
    assert_eq!(d.pending_len(), 1);
    assert_eq!(d.resync_bytes, 0);
}

#[test]
fn channel_modes_cycle_with_their_channel_counts() {
    assert_eq!(ChannelMode::Both.channels(), 2);
    assert_eq!(ChannelMode::HighOnly.channels(), 1);
    assert_eq!(ChannelMode::LowOnly.channels(), 1);
    assert_eq!(ChannelMode::Both.next(), ChannelMode::HighOnly);
    assert_eq!(ChannelMode::HighOnly.next(), ChannelMode::LowOnly);
    assert_eq!(ChannelMode::LowOnly.next(), ChannelMode::Both);
    for m in [ChannelMode::Both, ChannelMode::HighOnly, ChannelMode::LowOnly] {
        assert_eq!(m.next().next().next(), m);
    }
    assert_eq!(ChannelMode::Both.label(), "双通道 (高16位 + 低16位)");
    assert_eq!(ChannelMode::HighOnly.label(), "仅高16位 (降噪前 / 左)");
    assert_eq!(ChannelMode::LowOnly.label(), "仅低16位 (降噪后 / 右)");
}

#[test]
fn packet_fits_bounds_the_samples_per_packet() {
    assert!(packet_fits(160));
    assert!(packet_fits((usize::MAX - 8) / 4));
    assert!(!packet_fits((usize::MAX - 8) / 4 + 1));
    assert!(!packet_fits(usize::MAX));
}

#[test]
fn feeding_in_chunks_yields_what_feeding_at_once_yields() {
    let mut stream = vec![0x01, 0xAA, 0xFF];
    stream.extend(packet(1, &[(1, 2), (3, 4)]));
    stream.extend([0xAA, 0xAA, 0x07]);
    stream.extend(packet(2, &[(5, 6), (7, 8)]));
    stream.extend(packet(3, &[(9, 10), (11, 12)]));
    stream.extend([0xAA, 0xAA, 0x00]);

    let mut whole = Deframer::new(2, ChannelMode::Both);
    let at_once: Vec<_> = whole.feed(&stream).into_iter().map(|p| (p.idx, p.samples)).collect();
    assert_eq!(at_once.len(), 3);

    for size in 1..stream.len() {
        let mut d = Deframer::new(2, ChannelMode::Both);
        let mut got = Vec::new();
        for chunk in stream.chunks(size) {
            got.extend(d.feed(chunk).into_iter().map(|p| (p.idx, p.samples)));
        }
        assert_eq!(got, at_once, "chunk size {size}");
        assert_eq!(d.resync_bytes(), whole.resync_bytes());
        assert_eq!(d.pending_len(), whole.pending_len());
    }
    assert_eq!(whole.resync_bytes(), 6);
    assert_eq!(whole.resync_bytes, 6);
}

#[test]
fn feed_matches_extend_then_next_packet() {
    let mut a = Deframer::new(2, ChannelMode::LowOnly);
    let mut b = Deframer::new(2, ChannelMode::LowOnly);
    let mut bytes = vec![0x55];
    bytes.extend(packet(0, &[(1, 2), (3, 4)]));
    let fed: Vec<Vec<i16>> = a.feed(&bytes).into_iter().map(|p| p.samples).collect();
    b.extend(&bytes);
    let mut popped = Vec::new();
    while let Some(p) = b.next_packet() {
        popped.push(p.samples);
    }
    assert_eq!(fed, popped);
    assert_eq!(fed, vec![vec![2, 4]]);
    assert_eq!(a.resync_bytes(), b.resync_bytes());
}
