//! Trace packet format of the firmware's `WAV_RECORD_EN` stream.
//!
//! ```text
//! offset  size  field
//!   0      2    preamble = 0xAAAA (little endian)
//!   2      1    idx          packet counter & 0x03, used for drop detection
//!   3      1    bits         sample width reported by the firmware (16)
//!   4      4    sample_rate  little endian, 16000
//!   8    4*N    buffer[N]    N = samples per packet (160 => 10 ms at 16 kHz)
//! ```
//!
//! Every `buffer[i]` word packs two 16-bit samples: the high half and the low
//! half of a little-endian 32-bit word.
use vstd::prelude::*;
use vstd::arithmetic::div_mod::lemma_fundamental_div_mod;
use vstd::arithmetic::div_mod::lemma_fundamental_div_mod_converse;

verus! {

/// Packet preamble.
pub const PREAMBLE: [u8; 2] = [0xAA, 0xAA];

/// Bytes ahead of the sample words.
pub const HEADER_LEN: usize = 8;

/// Firmware default for the number of sample words per packet.
pub const DEFAULT_SAMPLES_PER_PACKET: usize = 160;

/// Lowest `sample_rate` header value accepted as a real packet while
/// resynchronising.
pub const MIN_SAMPLE_RATE: u32 = 4_000;

/// Highest `sample_rate` header value accepted as a real packet while
/// resynchronising.
pub const MAX_SAMPLE_RATE: u32 = 192_000;

/// How the two 16-bit halves of each 32-bit word are turned into output channels.
#[derive(Debug, Clone, Copy, PartialEq, Eq, Structural)]
pub enum ChannelMode {
    /// Two-channel output: channel 0 = high half, channel 1 = low half.
    Both,
    /// Mono output from the high half only (noise-suppression input / left).
    HighOnly,
    /// Mono output from the low half only (noise-suppression output / right).
    LowOnly,
}

/// Number of output channels of a mode.
pub open spec fn mode_channels(mode: ChannelMode) -> nat {
    match mode {
        ChannelMode::Both => 2,
        ChannelMode::HighOnly => 1,
        ChannelMode::LowOnly => 1,
    }
}

/// The mode that follows `mode` in the settings cycle.
pub open spec fn mode_after(mode: ChannelMode) -> ChannelMode {
    match mode {
        ChannelMode::Both => ChannelMode::HighOnly,
        ChannelMode::HighOnly => ChannelMode::LowOnly,
        ChannelMode::LowOnly => ChannelMode::Both,
    }
}

impl ChannelMode {
    pub fn channels(self) -> (r: u16)
        ensures
            r == mode_channels(self),
    {
        match self {
            ChannelMode::Both => 2,
            ChannelMode::HighOnly => 1,
            ChannelMode::LowOnly => 1,
        }
    }

    /// Human-readable name of the mode, as shown in the settings view.
    pub fn label(self) -> (r: &'static str)
        ensures
            self == ChannelMode::Both ==> r@ == "双通道 (高16位 + 低16位)"@,
            self == ChannelMode::HighOnly ==> r@ == "仅高16位 (降噪前 / 左)"@,
            self == ChannelMode::LowOnly ==> r@ == "仅低16位 (降噪后 / 右)"@,
    {
        match self {
            ChannelMode::Both => "双通道 (高16位 + 低16位)",
            ChannelMode::HighOnly => "仅高16位 (降噪前 / 左)",
            ChannelMode::LowOnly => "仅低16位 (降噪后 / 右)",
        }
    }

    pub fn next(self) -> (r: Self)
        ensures
            r == mode_after(self),
    {
        match self {
            ChannelMode::Both => ChannelMode::HighOnly,
            ChannelMode::HighOnly => ChannelMode::LowOnly,
            ChannelMode::LowOnly => ChannelMode::Both,
        }
    }
}

/// Cycling through the modes with `next` returns to the start after three steps
/// and visits every mode on the way.
pub proof fn lemma_mode_cycle(mode: ChannelMode)
    ensures
        mode_after(mode_after(mode_after(mode))) == mode,
        mode_after(mode) != mode,
        mode_after(mode_after(mode)) != mode,
{
}

// ---------------------------------------------------------------------------
// Packet layout
// ---------------------------------------------------------------------------

/// Length in bytes of a packet carrying `samples_per_packet` sample words.
pub open spec fn packet_len_spec(samples_per_packet: nat) -> nat {
    HEADER_LEN as nat + 4 * samples_per_packet
}

/// Little-endian 32-bit value of the four bytes of `b` starting at `at`.
pub open spec fn le_u32(b: Seq<u8>, at: int) -> int {
    b[at] + 256 * b[at + 1] + 65536 * b[at + 2] + 16777216 * b[at + 3]
}

/// Two's-complement value of the little-endian 16-bit word `(lo, hi)`.
pub open spec fn le_i16(lo: u8, hi: u8) -> i16 {
    let v = lo + 256 * hi;
    (if v >= 32768 { v - 65536 } else { v }) as i16
}

/// The first eight bytes of `b` form a header that a real packet could carry.
pub open spec fn header_plausible(b: Seq<u8>) -> bool {
    &&& b.len() >= HEADER_LEN
    &&& b[0] == 0xAA
    &&& b[1] == 0xAA
    &&& b[2] <= 3
    &&& (b[3] == 16 || b[3] == 24 || b[3] == 32)
    &&& MIN_SAMPLE_RATE <= le_u32(b, 4) <= MAX_SAMPLE_RATE
}

/// A header is plausible exactly when it starts with the `0xAA 0xAA`
/// preamble, its counter is at most 3, its sample width is 16, 24 or 32 and
/// its little-endian sample rate lies between 4000 and 192000.
pub proof fn lemma_header_plausible_bytes(b: Seq<u8>)
    ensures
        header_plausible(b) <==> (b.len() >= 8 && b[0] == 0xAA && b[1] == 0xAA && b[2] <= 3 && (b[3]
            == 16 || b[3] == 24 || b[3] == 32) && 4000 <= b[4] as int + 256 * b[5] + 65536 * b[6]
            + 16777216 * b[7] <= 192000),
{
}

/// High half of sample word `j` of the packet `frame`.
pub open spec fn high_sample(frame: Seq<u8>, j: int) -> i16 {
    le_i16(frame[HEADER_LEN + 4 * j + 2], frame[HEADER_LEN + 4 * j + 3])
}

/// Low half of sample word `j` of the packet `frame`.
pub open spec fn low_sample(frame: Seq<u8>, j: int) -> i16 {
    le_i16(frame[HEADER_LEN + 4 * j], frame[HEADER_LEN + 4 * j + 1])
}

/// Output samples of the first `n` sample words of `frame`, interleaved
/// high/low for `Both`.
pub open spec fn decoded_samples(frame: Seq<u8>, n: nat, mode: ChannelMode) -> Seq<i16> {
    match mode {
        ChannelMode::Both => Seq::new(
            2 * n,
            |k: int| if k % 2 == 0 { high_sample(frame, k / 2) } else { low_sample(frame, k / 2) },
        ),
        ChannelMode::HighOnly => Seq::new(n, |j: int| high_sample(frame, j)),
        ChannelMode::LowOnly => Seq::new(n, |j: int| low_sample(frame, j)),
    }
}

/// One decoded trace packet.
#[derive(Debug, Clone)]
pub struct Packet {
    pub idx: u8,
    pub bits: u8,
    pub sample_rate: u32,
    /// Interleaved output samples, already reduced according to the [`ChannelMode`].
    pub samples: Vec<i16>,
}

/// `p` is what decoding the packet bytes `frame` of `n` sample words in
/// `mode` gives.
pub open spec fn decodes_to(p: Packet, frame: Seq<u8>, n: nat, mode: ChannelMode) -> bool {
    &&& p.idx == frame[2]
    &&& p.bits == frame[3]
    &&& p.sample_rate == le_u32(frame, 4)
    &&& p.samples@ == decoded_samples(frame, n, mode)
}

/// The contents of a [`Packet`].
pub struct PacketView {
    pub idx: u8,
    pub bits: u8,
    pub sample_rate: int,
    pub samples: Seq<i16>,
}

impl View for Packet {
    type V = PacketView;

    open spec fn view(&self) -> PacketView {
        PacketView {
            idx: self.idx,
            bits: self.bits,
            sample_rate: self.sample_rate as int,
            samples: self.samples@,
        }
    }
}

/// The packet that decoding the bytes `frame` of `n` sample words in `mode`
/// gives.
pub open spec fn decoded_packet(frame: Seq<u8>, n: nat, mode: ChannelMode) -> PacketView {
    PacketView {
        idx: frame[2],
        bits: frame[3],
        sample_rate: le_u32(frame, 4),
        samples: decoded_samples(frame, n, mode),
    }
}

/// A plausible packet of `plen` bytes starts at offset `i` of `buf`.
pub open spec fn frame_at(buf: Seq<u8>, i: int, plen: int) -> bool {
    0 <= i && i + plen <= buf.len() && header_plausible(buf.skip(i))
}

/// Incremental packet extractor that tolerates arbitrary chunk boundaries and
/// resynchronises after corruption or a mid-stream connect.
pub struct Deframer {
    buf: Vec<u8>,
    samples_per_packet: usize,
    mode: ChannelMode,
    /// Bytes discarded while hunting for a valid preamble.
    pub resync_bytes: u64,
}

/// What a [`Deframer`] holds: the bytes received but not yet consumed, and
/// the packet shape it was made for.
pub struct DeframerView {
    pub pending: Seq<u8>,
    pub samples_per_packet: nat,
    pub mode: ChannelMode,
    pub resync_bytes: nat,
}

impl View for Deframer {
    type V = DeframerView;

    closed spec fn view(&self) -> DeframerView {
        DeframerView {
            pending: self.buf@,
            samples_per_packet: self.samples_per_packet as nat,
            mode: self.mode,
            resync_bytes: self.resync_bytes as nat,
        }
    }
}

/// Whether packets of `samples_per_packet` sample words have a length that
/// fits in `usize`, as [`Deframer::new`] requires.
pub fn packet_fits(samples_per_packet: usize) -> (r: bool)
    ensures
        r == (packet_len_spec(samples_per_packet as nat) <= usize::MAX),
{
    samples_per_packet <= (usize::MAX - HEADER_LEN) / 4
}

/// Two's-complement value of the little-endian 16-bit word `(lo, hi)`.
fn sample_from_le(lo: u8, hi: u8) -> (r: i16)
    ensures
        r == le_i16(lo, hi),
{
    let v: i32 = lo as i32 + 256 * hi as i32;
    if v >= 32768 {
        (v - 65536) as i16
    } else {
        v as i16
    }
}

impl Deframer {
    /// The packet length fits in `usize`.
    pub open spec fn wf(&self) -> bool {
        packet_len_spec(self@.samples_per_packet) <= usize::MAX
    }

    /// Length in bytes of the packets this deframer extracts.
    pub open spec fn spec_packet_len(&self) -> nat {
        packet_len_spec(self@.samples_per_packet)
    }

    pub fn new(samples_per_packet: usize, mode: ChannelMode) -> (r: Self)
        requires
            packet_len_spec(samples_per_packet as nat) <= usize::MAX,
        ensures
            r.wf(),
            r@.pending == Seq::<u8>::empty(),
            r@.samples_per_packet == samples_per_packet,
            r@.mode == mode,
            r@.resync_bytes == 0,
    {
        Self { buf: Vec::with_capacity(64 * 1024), samples_per_packet, mode, resync_bytes: 0 }
    }

    pub fn packet_len(&self) -> (r: usize)
        requires
            self.wf(),
        ensures
            r == self.spec_packet_len(),
    {
        HEADER_LEN + self.samples_per_packet * 4
    }

    /// Number of bytes received but not yet consumed.
    pub fn pending_len(&self) -> (r: usize)
        ensures
            r == self@.pending.len(),
    {
        self.buf.len()
    }

    pub fn extend(&mut self, data: &[u8])
        ensures
            final(self)@.pending == old(self)@.pending + data@,
            final(self)@.samples_per_packet == old(self)@.samples_per_packet,
            final(self)@.mode == old(self)@.mode,
            final(self)@.resync_bytes == old(self)@.resync_bytes,
    {
        self.buf.extend_from_slice(data);
        assert(self.buf@ =~= old(self).buf@ + data@);
    }

    /// Whether a plausible header starts at offset `at` of the buffer.
    fn header_is_plausible(&self, at: usize) -> (r: bool)
        requires
            at + HEADER_LEN <= self.buf.len(),
        ensures
            r == header_plausible(self.buf@.skip(at as int)),
    {
        let b = &self.buf;
        if b[at] != PREAMBLE[0] || b[at + 1] != PREAMBLE[1] {
            return false;
        }
        if b[at + 2] > 3 {
            return false;
        }
        let bits = b[at + 3];
        if !(bits == 16 || bits == 24 || bits == 32) {
            return false;
        }
        let rate = b[at + 4] as u32 + 256 * b[at + 5] as u32 + 65536 * b[at + 6] as u32
            + 16777216 * b[at + 7] as u32;
        MIN_SAMPLE_RATE <= rate && rate <= MAX_SAMPLE_RATE
    }

    /// Decodes the packet of `packet_len` bytes that starts at offset `at`.
    fn decode(&self, at: usize, packet_len: usize) -> (p: Packet)
        requires
            self.wf(),
            packet_len == self.spec_packet_len(),
            at + packet_len <= self.buf@.len(),
        ensures
            decodes_to(
                p,
                self.buf@.subrange(at as int, at + packet_len),
                self.samples_per_packet as nat,
                self.mode,
            ),
    {
        let ghost frame = self.buf@.subrange(at as int, at + packet_len);
        let b = &self.buf;
        let len = b.len();
        let idx = b[at + 2];
        let bits = b[at + 3];
        let sample_rate = b[at + 4] as u32 + 256 * b[at + 5] as u32 + 65536 * b[at + 6] as u32
            + 16777216 * b[at + 7] as u32;
        let n = self.samples_per_packet;
        let channels = self.mode.channels() as usize;
        assert(n * channels <= 4 * n) by (nonlinear_arith)
            requires
                channels <= 2,
        ;
        let mut samples: Vec<i16> = Vec::with_capacity(n * channels);
        let mut j: usize = 0;
        while j < n
            invariant
                j <= n,
                n == self.samples_per_packet,
                packet_len == HEADER_LEN + 4 * n,
                at + packet_len <= len,
                len == self.buf@.len(),
                b == &self.buf,
                frame == self.buf@.subrange(at as int, at + packet_len),
                samples@ == decoded_samples(frame, j as nat, self.mode),
            decreases n - j,
        {
            let w = at + HEADER_LEN + 4 * j;
            let high = sample_from_le(b[w + 2], b[w + 3]);
            let low = sample_from_le(b[w], b[w + 1]);
            assert(high == high_sample(frame, j as int));
            assert(low == low_sample(frame, j as int));
            match self.mode {
                ChannelMode::Both => {
                    samples.push(high);
                    samples.push(low);
                },
                ChannelMode::HighOnly => samples.push(high),
                ChannelMode::LowOnly => samples.push(low),
            }
            j += 1;
            assert(samples@ =~= decoded_samples(frame, j as nat, self.mode));
        }
        Packet { idx, bits, sample_rate, samples }
    }

    /// Bytes discarded so far while hunting for a valid preamble.
    pub fn resync_bytes(&self) -> (r: u64)
        ensures
            r == self@.resync_bytes,
    {
        self.resync_bytes
    }

    /// Appends `data` and takes out every packet that is then complete, as a
    /// call of `extend` followed by calls of `next_packet` until it returns
    /// `None` would. By `lemma_chunking_does_not_matter`, how a stream is cut
    /// into the chunks fed does not change the packets, the resync count or the
    /// leftover bytes.
    pub fn feed(&mut self, data: &[u8]) -> (packets: Vec<Packet>)
        requires
            old(self).wf(),
            old(self)@.resync_bytes + old(self)@.pending.len() + data@.len() <= u64::MAX,
        ensures
            final(self).wf(),
            final(self)@.samples_per_packet == old(self)@.samples_per_packet,
            final(self)@.mode == old(self)@.mode,
            ({
                let d = drain(
                    old(self)@.pending + data@,
                    old(self)@.samples_per_packet,
                    old(self)@.mode,
                );
                &&& packets@.map_values(|p: Packet| p@) == d.0
                &&& final(self)@.resync_bytes == old(self)@.resync_bytes + d.1
                &&& final(self)@.pending == d.2
            }),
    {
        self.extend(data);
        let ghost n = self@.samples_per_packet;
        let ghost mode = self@.mode;
        let ghost start = self@.resync_bytes;
        let ghost total = drain(self@.pending, n, mode);
        let mut packets: Vec<Packet> = Vec::new();
        assert(packets@.map_values(|p: Packet| p@) + total.0 =~= total.0);
        loop
            invariant
                self.wf(),
                self@.samples_per_packet == n,
                self@.mode == mode,
                self@.resync_bytes + self@.pending.len() <= u64::MAX,
                start <= self@.resync_bytes,
                total.0 == packets@.map_values(|p: Packet| p@) + drain(self@.pending, n, mode).0,
                total.1 == self@.resync_bytes - start + drain(self@.pending, n, mode).1,
                total.2 == drain(self@.pending, n, mode).2,
            ensures
                total == (packets@.map_values(|p: Packet| p@), (self@.resync_bytes - start) as nat, self@.pending),
                self.wf(),
                self@.samples_per_packet == n,
                self@.mode == mode,
                start <= self@.resync_bytes,
            decreases self@.pending.len(),
        {
            let ghost before = packets@.map_values(|p: Packet| p@);
            match self.next_packet() {
                Some(p) => {
                    packets.push(p);
                    assert(packets@.map_values(|p: Packet| p@) =~= before + seq![p@]);
                    let ghost rest = drain(self@.pending, n, mode);
                    assert(before + (seq![p@] + rest.0) =~= (before + seq![p@]) + rest.0);
                },
                None => {
                    let ghost rest = drain(self@.pending, n, mode);
                    assert(before + rest.0 =~= before);
                    break;
                },
            }
        }
        packets
    }

    /// Pops the next valid packet, discarding any leading garbage.
    ///
    /// With `k` the first offset at which a plausible header starts a whole
    /// packet, the packet there is returned, the `k` bytes before it are
    /// counted in `resync_bytes`, and the bytes up to its end are consumed.
    /// Without one, `None` comes back and all bytes that can no longer start a
    /// whole packet are dropped and counted.
    #[verifier::spinoff_prover]
    pub fn next_packet(&mut self) -> (r: Option<Packet>)
        requires
            old(self).wf(),
            old(self)@.resync_bytes + old(self)@.pending.len() <= u64::MAX,
        ensures
            final(self).wf(),
            final(self)@.samples_per_packet == old(self)@.samples_per_packet,
            final(self)@.mode == old(self)@.mode,
            old(self)@.resync_bytes <= final(self)@.resync_bytes,
            ({
                let buf = old(self)@.pending;
                let plen = old(self).spec_packet_len() as int;
                let k = final(self)@.resync_bytes - old(self)@.resync_bytes;
                match r {
                    Some(p) => {
                        &&& buf[k] == 0xAA && buf[k + 1] == 0xAA
                        &&& frame_at(buf, k, plen)
                        &&& forall|j: int| 0 <= j < k ==> !frame_at(buf, j, plen)
                        &&& final(self)@.pending == buf.skip(k + plen)
                        &&& decodes_to(
                            p,
                            buf.subrange(k, k + plen),
                            old(self)@.samples_per_packet,
                            old(self)@.mode,
                        )
                    },
                    None => {
                        &&& forall|j: int| 0 <= j ==> !frame_at(buf, j, plen)
                        &&& forall|j: int|
                            #![trigger buf[j]]
                            0 <= j && j + plen <= buf.len() && buf[j] == 0xAA && buf[j + 1] == 0xAA
                                ==> !(buf[j + 2] <= 3 && (buf[j + 3] == 16 || buf[j + 3] == 24
                                || buf[j + 3] == 32) && 4000 <= buf[j + 4] as int + 256 * buf[j + 5]
                                + 65536 * buf[j + 6] + 16777216 * buf[j + 7] <= 192000)
                        &&& k == (if buf.len() < plen { 0 } else { buf.len() - plen + 1 })
                        &&& final(self)@.pending == buf.skip(k)
                    },
                }
            }),
            final(self)@.resync_bytes + final(self)@.pending.len() <= old(self)@.resync_bytes
                + old(self)@.pending.len(),
            // In terms of what draining yields: one step of it.
            ({
                let n = old(self)@.samples_per_packet;
                let mode = old(self)@.mode;
                let k = final(self)@.resync_bytes - old(self)@.resync_bytes;
                let rest = drain(final(self)@.pending, n, mode);
                match r {
                    Some(p) => drain(old(self)@.pending, n, mode) == (
                        seq![p@] + rest.0,
                        (k + rest.1) as nat,
                        rest.2,
                    ),
                    None => {
                        &&& drain(old(self)@.pending, n, mode) == (
                            Seq::<PacketView>::empty(),
                            k as nat,
                            final(self)@.pending,
                        )
                        &&& rest == (Seq::<PacketView>::empty(), 0nat, final(self)@.pending)
                    },
                }
            }),
    {
        let packet_len = self.packet_len();
        let len = self.buf.len();
        let mut i: usize = 0;
        while i < len && packet_len <= len - i
            invariant
                self == old(self),
                self.wf(),
                packet_len == self.spec_packet_len(),
                len == self.buf@.len(),
                self@.resync_bytes + len <= u64::MAX,
                i <= len,
                forall|j: int| 0 <= j < i ==> !frame_at(self.buf@, j, packet_len as int),
            decreases len - i,
        {
            if self.header_is_plausible(i) {
                let packet = self.decode(i, packet_len);
                let ghost before = self.buf@;
                let rest = self.buf.split_off(i + packet_len);
                self.buf = rest;
                self.resync_bytes = self.resync_bytes + i as u64;
                assert(self.buf@ =~= before.skip(i + packet_len));
                proof {
                    lemma_drain_found(before, self.samples_per_packet as nat, self.mode, i as int);
                    lemma_header_plausible_bytes(before.skip(i as int));
                }
                return Some(packet);
            }
            i += 1;
        }
        assert forall|j: int| 0 <= j implies !frame_at(self.buf@, j, packet_len as int) by {
            if j < i {
            }
        }
        let skip = if len < packet_len { 0 } else { len - packet_len + 1 };
        let ghost before = self.buf@;
        let rest = self.buf.split_off(skip);
        self.buf = rest;
        self.resync_bytes = self.resync_bytes + skip as u64;
        assert(self.buf@ =~= before.skip(skip as int));
        proof {
            assert forall|j: int|
                #![trigger before[j]]
                0 <= j && j + packet_len <= before.len() && before[j] == 0xAA && before[j + 1] == 0xAA
                    implies !(before[j + 2] <= 3 && (before[j + 3] == 16 || before[j + 3] == 24
                    || before[j + 3] == 32) && 4000 <= before[j + 4] as int + 256 * before[j + 5]
                    + 65536 * before[j + 6] + 16777216 * before[j + 7] <= 192000) by {
                assert(!frame_at(before, j, packet_len as int));
                lemma_header_plausible_bytes(before.skip(j));
            }
            let n = self.samples_per_packet as nat;
            lemma_drain_none(before, n, self.mode);
            assert(self.buf@.len() < packet_len);
            assert forall|j: int| 0 <= j implies !frame_at(self.buf@, j, packet_len as int) by {}
            lemma_drain_none(self.buf@, n, self.mode);
            assert(self.buf@.skip(0) =~= self.buf@);
        }
        None
    }
}

/// Packets lost between two consecutive two-bit counter values: `idx`
/// counts modulo 4, so a gap of `n` packets shows up as a jump of `n + 1`.
pub fn lost_between(previous: u8, current: u8) -> (r: u8)
    ensures
        r as int == (current as int - previous as int - 1) % 4,
{
    let d = current.wrapping_sub(previous);
    let low = d & 0x03;
    let e = low.wrapping_sub(1);
    let r = e & 0x03;
    assert(low == d % 4) by (bit_vector)
        requires
            low == d & 0x03,
    ;
    assert(r == e % 4) by (bit_vector)
        requires
            r == e & 0x03,
    ;
    assert(d as int == (current as int - previous as int) % 256);
    assert(e as int == (low as int - 1) % 256);
    assert((current as int - previous as int) % 256 % 4 == (current as int - previous as int) % 4)
        by (nonlinear_arith);
    r
}

// ---------------------------------------------------------------------------
// What a byte stream yields
// ---------------------------------------------------------------------------

/// The first offset from `i` on at which a whole plausible packet of `plen`
/// bytes starts in `buf`, if any.
pub open spec fn first_frame_from(buf: Seq<u8>, plen: int, i: int) -> Option<int>
    decreases buf.len() - i,
{
    if i < 0 || plen < 1 || i + plen > buf.len() {
        None
    } else if frame_at(buf, i, plen) {
        Some(i)
    } else {
        first_frame_from(buf, plen, i + 1)
    }
}

/// Number of leading bytes that can no longer start a whole packet of `plen`
/// bytes when no packet starts in a buffer of `len` bytes.
pub open spec fn unusable_prefix(len: nat, plen: nat) -> nat {
    if len < plen { 0 } else { (len - plen + 1) as nat }
}

/// What draining `buf` with `next_packet` until it returns `None` yields:
/// the packets in order, the bytes skipped while resynchronising, and the
/// bytes left over for later.
pub open spec fn drain(buf: Seq<u8>, n: nat, mode: ChannelMode) -> (Seq<PacketView>, nat, Seq<u8>)
    decreases buf.len(),
{
    let plen = packet_len_spec(n) as int;
    match first_frame_from(buf, plen, 0) {
        Some(k) => if 0 <= k && k + plen <= buf.len() {
            let rest = drain(buf.skip(k + plen), n, mode);
            (
                seq![decoded_packet(buf.subrange(k, k + plen), n, mode)] + rest.0,
                (k + rest.1) as nat,
                rest.2,
            )
        } else {
            (Seq::empty(), 0, buf)
        },
        None => {
            let d = unusable_prefix(buf.len(), plen as nat);
            (Seq::empty(), d, buf.skip(d as int))
        },
    }
}

/// `first_frame_from` finds the least offset at which a packet starts.
proof fn lemma_first_frame_from(buf: Seq<u8>, plen: int, i: int)
    requires
        0 <= i,
        plen >= HEADER_LEN,
    ensures
        match first_frame_from(buf, plen, i) {
            Some(k) => i <= k && frame_at(buf, k, plen) && forall|j: int|
                i <= j < k ==> !frame_at(buf, j, plen),
            None => forall|j: int| i <= j ==> !frame_at(buf, j, plen),
        },
    decreases buf.len() - i,
{
    if i + plen <= buf.len() && !frame_at(buf, i, plen) {
        lemma_first_frame_from(buf, plen, i + 1);
    }
}

/// The first packet of a buffer is the least offset at which one starts.
proof fn lemma_first_frame_is_least(buf: Seq<u8>, plen: int, k: int)
    requires
        plen >= HEADER_LEN,
        frame_at(buf, k, plen),
        forall|j: int| 0 <= j < k ==> !frame_at(buf, j, plen),
    ensures
        first_frame_from(buf, plen, 0) == Some(k),
{
    lemma_first_frame_from(buf, plen, 0);
}

/// Draining a buffer whose first packet starts at `k` yields that packet
/// followed by what draining the bytes after it yields.
proof fn lemma_drain_found(buf: Seq<u8>, n: nat, mode: ChannelMode, k: int)
    requires
        frame_at(buf, k, packet_len_spec(n) as int),
        forall|j: int| 0 <= j < k ==> !frame_at(buf, j, packet_len_spec(n) as int),
    ensures
        ({
            let plen = packet_len_spec(n) as int;
            let rest = drain(buf.skip(k + plen), n, mode);
            drain(buf, n, mode) == (
                seq![decoded_packet(buf.subrange(k, k + plen), n, mode)] + rest.0,
                (k + rest.1) as nat,
                rest.2,
            )
        }),
{
    lemma_first_frame_is_least(buf, packet_len_spec(n) as int, k);
}

/// Draining a buffer in which no packet starts skips the bytes that can no
/// longer start one.
proof fn lemma_drain_none(buf: Seq<u8>, n: nat, mode: ChannelMode)
    requires
        forall|j: int| 0 <= j ==> !frame_at(buf, j, packet_len_spec(n) as int),
    ensures
        ({
            let d = unusable_prefix(buf.len(), packet_len_spec(n));
            drain(buf, n, mode) == (Seq::<PacketView>::empty(), d, buf.skip(d as int))
        }),
{
    lemma_first_frame_from(buf, packet_len_spec(n) as int, 0);
    if let Some(k) = first_frame_from(buf, packet_len_spec(n) as int, 0) {
        assert(frame_at(buf, k, packet_len_spec(n) as int));
    }
}

/// Leading bytes that start no packet only add to the skipped count.
#[verifier::spinoff_prover]
#[verifier::rlimit(30)]
proof fn lemma_drain_skip(buf: Seq<u8>, n: nat, mode: ChannelMode, d: int)
    requires
        0 <= d <= buf.len(),
        d == 0 || buf.len() - d >= packet_len_spec(n) - 1,
        forall|j: int| 0 <= j < d ==> !frame_at(buf, j, packet_len_spec(n) as int),
    ensures
        ({
            let rest = drain(buf.skip(d), n, mode);
            drain(buf, n, mode) == (rest.0, (d + rest.1) as nat, rest.2)
        }),
{
    let plen = packet_len_spec(n) as int;
    let tail = buf.skip(d);
    assert forall|j: int| 0 <= j implies frame_at(tail, j, plen) == frame_at(buf, d + j, plen) by {
        if j + plen <= tail.len() {
            assert(tail.skip(j) =~= buf.skip(d + j));
        }
    }
    lemma_first_frame_from(tail, plen, 0);
    match first_frame_from(tail, plen, 0) {
        Some(k) => {
            assert(frame_at(buf, d + k, plen));
            assert forall|j: int| 0 <= j < d + k implies !frame_at(buf, j, plen) by {
                if j >= d {
                    assert(!frame_at(tail, j - d, plen));
                }
            }
            lemma_drain_found(tail, n, mode, k);
            lemma_drain_found(buf, n, mode, d + k);
            assert(tail.skip(k + plen) =~= buf.skip(d + k + plen));
            assert(tail.subrange(k, k + plen) =~= buf.subrange(d + k, d + k + plen));
        },
        None => {
            assert forall|j: int| 0 <= j implies !frame_at(buf, j, plen) by {
                if j >= d {
                    assert(!frame_at(tail, j - d, plen));
                }
            }
            lemma_drain_none(tail, n, mode);
            lemma_drain_none(buf, n, mode);
            let e = unusable_prefix(tail.len(), plen as nat);
            assert(tail.skip(e as int) =~= buf.skip(d + e));
        },
    }
}

/// The two-chunk equation when a packet starts in the first chunk.
proof fn lemma_drain_concat_found(a: Seq<u8>, b: Seq<u8>, n: nat, mode: ChannelMode, k: int)
    requires
        frame_at(a, k, packet_len_spec(n) as int),
        forall|j: int| 0 <= j < k ==> !frame_at(a, j, packet_len_spec(n) as int),
    ensures
        ({
            let plen = packet_len_spec(n) as int;
            let a2 = a.skip(k + plen);
            &&& a2.len() < a.len()
            &&& (drain(a2, n, mode).2 + b) == (drain(a, n, mode).2 + b)
            &&& drain(a, n, mode) == (
                seq![decoded_packet(a.subrange(k, k + plen), n, mode)] + drain(a2, n, mode).0,
                (k + drain(a2, n, mode).1) as nat,
                drain(a2, n, mode).2,
            )
            &&& drain(a + b, n, mode) == (
                seq![decoded_packet(a.subrange(k, k + plen), n, mode)] + drain(a2 + b, n, mode).0,
                (k + drain(a2 + b, n, mode).1) as nat,
                drain(a2 + b, n, mode).2,
            )
        }),
{
    let plen = packet_len_spec(n) as int;
    assert forall|j: int| 0 <= j < k implies !frame_at(a + b, j, plen) by {
        lemma_frame_verdict_is_final(a, b, j, plen);
    }
    lemma_frame_verdict_is_final(a, b, k, plen);
    lemma_drain_found(a, n, mode, k);
    lemma_drain_found(a + b, n, mode, k);
    assert((a + b).skip(k + plen) =~= a.skip(k + plen) + b);
}

/// The two-chunk equation when no packet starts in the first chunk.
proof fn lemma_drain_concat_none(a: Seq<u8>, b: Seq<u8>, n: nat, mode: ChannelMode)
    requires
        forall|j: int| 0 <= j ==> !frame_at(a, j, packet_len_spec(n) as int),
    ensures
        ({
            let first = drain(a, n, mode);
            let second = drain(first.2 + b, n, mode);
            drain(a + b, n, mode) == (first.0 + second.0, (first.1 + second.1) as nat, second.2)
        }),
{
    let plen = packet_len_spec(n) as int;
    lemma_drain_none(a, n, mode);
    let d = unusable_prefix(a.len(), plen as nat) as int;
    assert forall|j: int| 0 <= j < d implies !frame_at(a + b, j, plen) by {
        lemma_frame_verdict_is_final(a, b, j, plen);
    }
    lemma_drain_skip(a + b, n, mode, d);
    assert((a + b).skip(d) =~= a.skip(d) + b);
    let first = drain(a, n, mode);
    assert(first.0 + drain(first.2 + b, n, mode).0 =~= drain(first.2 + b, n, mode).0);
}

/// Cutting a byte stream into two chunks, and draining after each, yields
/// the same packets, the same resynchronisation count and the same leftover
/// bytes as draining the whole stream at once.
pub proof fn lemma_drain_concat(a: Seq<u8>, b: Seq<u8>, n: nat, mode: ChannelMode)
    ensures
        ({
            let first = drain(a, n, mode);
            let second = drain(first.2 + b, n, mode);
            drain(a + b, n, mode) == (first.0 + second.0, (first.1 + second.1) as nat, second.2)
        }),
    decreases a.len(),
{
    let plen = packet_len_spec(n) as int;
    lemma_first_frame_from(a, plen, 0);
    match first_frame_from(a, plen, 0) {
        Some(k) => {
            lemma_drain_concat_found(a, b, n, mode, k);
            let a2 = a.skip(k + plen);
            lemma_drain_concat(a2, b, n, mode);
            let p = seq![decoded_packet(a.subrange(k, k + plen), n, mode)];
            let rest = drain(a2, n, mode);
            let second = drain(rest.2 + b, n, mode);
            assert((p + rest.0) + second.0 =~= p + (rest.0 + second.0));
        },
        None => {
            lemma_drain_concat_none(a, b, n, mode);
        },
    }
}

/// What feeding `chunks` one after the other to a deframer holding `pending`
/// yields, draining after each chunk: packets, skipped bytes, leftover bytes.
pub open spec fn feed_chunks(pending: Seq<u8>, chunks: Seq<Seq<u8>>, n: nat, mode: ChannelMode) -> (
    Seq<PacketView>,
    nat,
    Seq<u8>,
)
    decreases chunks.len(),
{
    if chunks.len() == 0 {
        (Seq::empty(), 0, pending)
    } else {
        let first = drain(pending + chunks[0], n, mode);
        let rest = feed_chunks(first.2, chunks.drop_first(), n, mode);
        (first.0 + rest.0, (first.1 + rest.1) as nat, rest.2)
    }
}

/// However a byte stream is cut into chunks, feeding the chunks one by one
/// and draining after each yields the same packets, the same resync count and
/// the same leftover bytes as feeding the whole stream at once.
pub proof fn lemma_chunking_does_not_matter(
    pending: Seq<u8>,
    chunks: Seq<Seq<u8>>,
    n: nat,
    mode: ChannelMode,
)
    requires
        chunks.len() > 0,
    ensures
        feed_chunks(pending, chunks, n, mode) == drain(pending + chunks.flatten(), n, mode),
    decreases chunks.len(),
{
    let c0 = chunks[0];
    let tail = chunks.drop_first();
    let first = drain(pending + c0, n, mode);
    if chunks.len() == 1 {
        assert(tail.flatten() =~= Seq::<u8>::empty());
        assert(chunks.flatten() =~= c0);
        let r = feed_chunks(first.2, tail, n, mode);
        assert(first.0 + r.0 =~= first.0);
    } else {
        lemma_chunking_does_not_matter(first.2, tail, n, mode);
        lemma_drain_concat(pending + c0, tail.flatten(), n, mode);
        assert(pending + chunks.flatten() =~= (pending + c0) + tail.flatten());
    }
}

// ---------------------------------------------------------------------------
// Laws of the packet format
// ---------------------------------------------------------------------------

/// The 16-bit pattern of a sample.
pub open spec fn sample_bits(x: i16) -> int {
    if x < 0 { x + 65536 } else { x as int }
}

/// The four bytes of a sample word carrying `high` and `low`: the
/// little-endian encoding of `(high << 16) | low`.
pub open spec fn sample_word_bytes(high: i16, low: i16) -> Seq<u8> {
    let h = sample_bits(high);
    let l = sample_bits(low);
    seq![(l % 256) as u8, (l / 256) as u8, (h % 256) as u8, (h / 256) as u8]
}

/// The bytes the firmware sends for a packet with header fields `idx`,
/// `bits`, `rate` and the `(high, low)` sample pairs `words`.
pub open spec fn encode_packet(idx: u8, bits: u8, rate: u32, words: Seq<(i16, i16)>) -> Seq<u8> {
    seq![
        0xAAu8,
        0xAAu8,
        idx,
        bits,
        (rate % 256) as u8,
        (rate / 256 % 256) as u8,
        (rate / 65536 % 256) as u8,
        (rate / 16777216) as u8,
    ] + Seq::new(
        4 * words.len(),
        |i: int| sample_word_bytes(words[i / 4].0, words[i / 4].1)[i % 4],
    )
}

/// A sample survives its little-endian encoding.
proof fn lemma_sample_bytes_round_trip(x: i16)
    ensures
        le_i16((sample_bits(x) % 256) as u8, (sample_bits(x) / 256) as u8) == x,
{
    let b = sample_bits(x);
    lemma_fundamental_div_mod(b, 256);
}

/// Decoding the bytes of an encoded packet gives back its header fields and
/// samples, and its header passes the plausibility check exactly when the
/// fields lie in the ranges a real packet can carry.
#[verifier::spinoff_prover]
pub proof fn lemma_encoded_packet_decodes(idx: u8, bits: u8, rate: u32, words: Seq<(i16, i16)>)
    ensures
        ({
            let frame = encode_packet(idx, bits, rate, words);
            let n = words.len();
            &&& frame.len() == packet_len_spec(n)
            &&& frame[2] == idx
            &&& frame[3] == bits
            &&& le_u32(frame, 4) == rate
            &&& header_plausible(frame) <==> (idx <= 3 && (bits == 16 || bits == 24 || bits == 32)
                && MIN_SAMPLE_RATE <= rate <= MAX_SAMPLE_RATE)
            &&& decoded_samples(frame, n, ChannelMode::Both) == Seq::new(
                2 * n,
                |k: int| if k % 2 == 0 { words[k / 2].0 } else { words[k / 2].1 },
            )
            &&& decoded_samples(frame, n, ChannelMode::HighOnly) == words.map_values(
                |w: (i16, i16)| w.0,
            )
            &&& decoded_samples(frame, n, ChannelMode::LowOnly) == words.map_values(
                |w: (i16, i16)| w.1,
            )
        }),
{
    let frame = encode_packet(idx, bits, rate, words);
    let n = words.len();
    assert((rate % 256) + 256 * ((rate / 256) % 256) + 65536 * ((rate / 65536) % 256) + 16777216 * (
    rate / 16777216) == rate) by (bit_vector);
    assert(rate / 16777216 < 256) by (bit_vector);
    assert forall|j: int| 0 <= j < n implies high_sample(frame, j) == words[j].0 && low_sample(
        frame,
        j,
    ) == words[j].1 by {
        lemma_fundamental_div_mod_converse(4 * j, 4, j, 0);
        lemma_fundamental_div_mod_converse(4 * j + 1, 4, j, 1);
        lemma_fundamental_div_mod_converse(4 * j + 2, 4, j, 2);
        lemma_fundamental_div_mod_converse(4 * j + 3, 4, j, 3);
        lemma_sample_bytes_round_trip(words[j].0);
        lemma_sample_bytes_round_trip(words[j].1);
        assert(frame[HEADER_LEN + 4 * j] == (sample_bits(words[j].1) % 256) as u8);
        assert(frame[HEADER_LEN + 4 * j + 1] == (sample_bits(words[j].1) / 256) as u8);
        assert(frame[HEADER_LEN + 4 * j + 2] == (sample_bits(words[j].0) % 256) as u8);
        assert(frame[HEADER_LEN + 4 * j + 3] == (sample_bits(words[j].0) / 256) as u8);
    }
    assert(decoded_samples(frame, n, ChannelMode::Both) =~= Seq::new(
        2 * n,
        |k: int| if k % 2 == 0 { words[k / 2].0 } else { words[k / 2].1 },
    ));
    assert(decoded_samples(frame, n, ChannelMode::HighOnly) =~= words.map_values(
        |w: (i16, i16)| w.0,
    ));
    assert(decoded_samples(frame, n, ChannelMode::LowOnly) =~= words.map_values(
        |w: (i16, i16)| w.1,
    ));
}

/// Whether a whole packet starts at an offset is settled by the bytes
/// already received: bytes that arrive later never change it. So bytes the
/// deframer drops could not have started a packet whatever followed them.
pub proof fn lemma_frame_verdict_is_final(buf: Seq<u8>, more: Seq<u8>, j: int, plen: int)
    requires
        plen >= HEADER_LEN,
        0 <= j,
        j + plen <= buf.len(),
    ensures
        frame_at(buf + more, j, plen) == frame_at(buf, j, plen),
        (buf + more).subrange(j, j + plen) == buf.subrange(j, j + plen),
{
    let a = (buf + more).skip(j);
    let b = buf.skip(j);
    assert forall|i: int| 0 <= i < HEADER_LEN implies a[i] == b[i] by {
    }
    assert((buf + more).subrange(j, j + plen) =~= buf.subrange(j, j + plen));
}

/// A packet preceded by bytes none of which starts a packet is the first
/// packet found, after exactly those bytes.
pub proof fn lemma_packet_after_garbage(garbage: Seq<u8>, frame: Seq<u8>, plen: int)
    requires
        frame.len() == plen,
        header_plausible(frame),
        forall|j: int| 0 <= j < garbage.len() ==> !frame_at(garbage + frame, j, plen),
    ensures
        frame_at(garbage + frame, garbage.len() as int, plen),
        (garbage + frame).subrange(garbage.len() as int, garbage.len() + plen) == frame,
        (garbage + frame).skip(garbage.len() + plen) == Seq::<u8>::empty(),
{
    assert((garbage + frame).skip(garbage.len() as int) =~= frame);
    assert((garbage + frame).subrange(garbage.len() as int, garbage.len() + plen) =~= frame);
    assert((garbage + frame).skip(garbage.len() + plen) =~= Seq::<u8>::empty());
}

/// When `lost` packets (up to three) go missing between two packets, the
/// counter jumps by `lost + 1` modulo 4, and that jump is what
/// `lost_between` reports.
pub proof fn lemma_lost_between_counts_gap(previous: int, lost: int)
    requires
        0 <= previous < 4,
        0 <= lost < 4,
    ensures
        ((previous + lost + 1) % 4 - previous - 1) % 4 == lost,
{
}

/// A packet of `n` sample words yields `n` samples per output channel.
pub proof fn lemma_decoded_sample_count(frame: Seq<u8>, n: nat, mode: ChannelMode)
    ensures
        decoded_samples(frame, n, mode).len() == n * mode_channels(mode),
        mode == ChannelMode::Both ==> decoded_samples(frame, n, mode).len() == 2 * n,
        mode != ChannelMode::Both ==> decoded_samples(frame, n, mode).len() == n,
{
}

} // verus!
