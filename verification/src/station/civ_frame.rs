//! Icom CI-V framing: building the frames the controller sends and reading
//! the ones the radio sends back, independent of the wire.
//!
//! A frame is `FE FE <to> <from> <cmd> [<data>…] FD`:
//!
//! | op | direction | data |
//! |---|---|---|
//! | `00` | radio → all (`to = 00`) | transceive: the dial moved, 5-byte BCD |
//! | `01` | radio → all | transceive: the mode changed, `<mode> <filter>` |
//! | `03` | ctrl → radio, and its reply | read frequency; reply is 5-byte BCD |
//! | `04` | ctrl → radio, and its reply | read mode; reply `<mode> <filter>` |
//! | `05` | ctrl → radio | set frequency, 5-byte BCD |
//! | `1C 00` | ctrl → radio | PTT, `00`/`01` |
//! | `26` | ctrl → radio, and its reply | mode with the data flag: `<vfo> <mode> <data> <filter>` |
//! | `FB` / `FA` | radio → ctrl | OK / NG |
//!
//! CI-V is a bus, so a controller can see its own frames: only frames from
//! the radio, addressed to the controller or broadcast, are read.

use crate::fixed::frame_bytes;
use crate::fixed::{frame_clone, frame_extend, frame_new, vec_clear, vec_push, vec_slice, Items};
use vstd::prelude::*;

verus! {

pub const PRE: u8 = 0xFE;

pub const POST: u8 = 0xFD;

/// The controller's address.
pub const CTRL_ADDR: u8 = 0xE0;

/// The IC-705's factory default.
pub const IC705_ADDR: u8 = 0xA4;

/// Transceive frames are addressed to everyone.
pub const BROADCAST: u8 = 0x00;

pub const OK: u8 = 0xFB;

pub const NG: u8 = 0xFA;

/// Longest frame that is built or accepted.
pub const MAX_FRAME: usize = 40;

pub type Frame = heapless::Vec<u8, 40>;

/// Icom mode byte for USB.
pub const MODE_USB: u8 = 0x01;

// ── Frequencies ─────────────────────────────────────────────────────────────

/// Both nibbles of every byte are decimal digits.
pub open spec fn decimal_bytes(b: Seq<u8>) -> bool {
    forall|i: int| 0 <= i < b.len() ==> (#[trigger] b[i]) / 16 <= 9 && b[i] % 16 <= 9
}

/// The number in little-endian BCD: two digits per byte, lowest first.
pub open spec fn bcd_value(b: Seq<u8>) -> nat
    decreases b.len(),
{
    if b.len() == 0 {
        0
    } else {
        bcd_value(b.skip(1)) * 100 + (b[0] / 16) as nat * 10 + (b[0] % 16) as nat
    }
}

/// The frequency in BCD bytes, if they are BCD and it fits.
pub open spec fn bcd_freq(b: Seq<u8>) -> Option<u32> {
    if decimal_bytes(b) && bcd_value(b) <= u32::MAX {
        Some(bcd_value(b) as u32)
    } else {
        None
    }
}

/// Encode `hz` as five bytes of little-endian BCD.
pub fn freq_to_bcd_le(hz: u32) -> (bcd: [u8; 5])
    ensures
        decimal_bytes(bcd@),
        bcd_value(bcd@) == hz,
{
    let f1: u32 = hz / 100;
    let f2: u32 = f1 / 100;
    let f3: u32 = f2 / 100;
    let f4: u32 = f3 / 100;
    let b0: u8 = bcd_byte(hz);
    let b1: u8 = bcd_byte(f1);
    let b2: u8 = bcd_byte(f2);
    let b3: u8 = bcd_byte(f3);
    let b4: u8 = bcd_byte(f4);
    let bcd: [u8; 5] = [b0, b1, b2, b3, b4];
    proof {
        let s = bcd@;
        assert(s =~= seq![b0, b1, b2, b3, b4]);
        assert(bcd_value(s.skip(5)) == 0);
        assert(s.skip(4)[0] == b4);
        assert(s.skip(5).len() == 0);
        assert(s.skip(4).skip(1) =~= s.skip(5));
        assert(s.skip(3).skip(1) =~= s.skip(4));
        assert(s.skip(2).skip(1) =~= s.skip(3));
        assert(s.skip(1).skip(1) =~= s.skip(2));
        assert(f1 <= 42949672 && f2 <= 429496 && f3 <= 4294 && f4 <= 42);
        assert(bcd_value(s.skip(4)) == f4);
        assert(bcd_value(s.skip(3)) == f3);
        assert(bcd_value(s.skip(2)) == f2);
        assert(bcd_value(s.skip(1)) == f1);
    }
    bcd
}

/// The last two decimal digits of `f`, one per nibble.
fn bcd_byte(f: u32) -> (b: u8)
    ensures
        b / 16 == f / 10 % 10,
        b % 16 == f % 10,
        (b / 16) * 10 + b % 16 == f % 100,
{
    ((f / 10 % 10) as u8) * 16 + (f % 10) as u8
}

/// The inverse of [`freq_to_bcd_le`]. `None` if a nibble is not a decimal
/// digit, which is what a torn or misaligned frame looks like, or the number
/// does not fit.
pub fn bcd_le_to_freq(bcd: &[u8]) -> (r: Option<u32>)
    ensures
        r == bcd_freq(bcd@),
{
    let mut hz: u64 = 0;
    let mut big = false;
    let mut i: usize = bcd.len();
    assert(bcd@.skip(i as int).len() == 0);
    while i > 0
        invariant
            i <= bcd.len(),
            forall|j: int| i <= j < bcd.len() ==> (#[trigger] bcd@[j]) / 16 <= 9 && bcd@[j] % 16 <= 9,
            big ==> bcd_value(bcd@.skip(i as int)) > u32::MAX,
            !big ==> hz == bcd_value(bcd@.skip(i as int)) && hz <= u32::MAX,
        decreases i,
    {
        let b: u8 = bcd[i - 1];
        let hi: u8 = b / 16;
        let lo: u8 = b % 16;
        if hi > 9 || lo > 9 {
            assert(bcd@[i - 1] / 16 > 9 || bcd@[i - 1] % 16 > 9);
            return None;
        }
        assert(bcd@.skip(i - 1).skip(1) =~= bcd@.skip(i as int));
        if !big {
            hz = hz * 100 + (hi as u64) * 10 + lo as u64;
            if hz > u32::MAX as u64 {
                big = true;
            }
        }
        i -= 1;
    }
    assert(bcd@.skip(0) =~= bcd@);
    if big {
        None
    } else {
        Some(hz as u32)
    }
}

// ── Frames to the radio ─────────────────────────────────────────────────────

/// `FE FE <to> E0 <body…> FD`. A body that does not fit is left out, and so
/// is the terminator after one that leaves it no room.
pub open spec fn frame_of(to: u8, body: Seq<u8>) -> Seq<u8> {
    let head = seq![PRE, PRE, to, CTRL_ADDR];
    let f = if head.len() + body.len() <= MAX_FRAME {
        head + body
    } else {
        head
    };
    if f.len() < MAX_FRAME {
        f.push(POST)
    } else {
        f
    }
}

/// `FE FE <to> E0 <body…> FD`.
pub fn build(to: u8, body: &[u8]) -> (f: Frame)
    ensures
        frame_bytes(f) == frame_of(to, body@),
{
    let mut f = frame_new();
    let head: [u8; 4] = [PRE, PRE, to, CTRL_ADDR];
    frame_extend(&mut f, head.as_slice());
    assert(frame_bytes(f) =~= seq![PRE, PRE, to, CTRL_ADDR]);
    frame_extend(&mut f, body);
    vec_push(&mut f, POST);
    f
}

/// Read the dial frequency.
pub fn read_freq(to: u8) -> (f: Frame)
    ensures
        frame_bytes(f) == seq![PRE, PRE, to, CTRL_ADDR, 0x03, POST],
{
    let body: [u8; 1] = [0x03];
    let f = build(to, body.as_slice());
    assert(frame_bytes(f) =~= seq![PRE, PRE, to, CTRL_ADDR, 0x03, POST]);
    f
}

/// Read the selected VFO's mode, data flag included.
pub fn read_mode(to: u8) -> (f: Frame)
    ensures
        frame_bytes(f) == seq![PRE, PRE, to, CTRL_ADDR, 0x26, 0x00, POST],
{
    let body: [u8; 2] = [0x26, 0x00];
    let f = build(to, body.as_slice());
    assert(frame_bytes(f) =~= seq![PRE, PRE, to, CTRL_ADDR, 0x26, 0x00, POST]);
    f
}

/// Set the dial frequency.
pub fn set_freq(to: u8, hz: u32) -> (f: Frame)
    ensures
        frame_bytes(f).len() == 11,
        frame_bytes(f).take(5) == seq![PRE, PRE, to, CTRL_ADDR, 0x05],
        bcd_freq(frame_bytes(f).subrange(5, 10)) == Some(hz),
        frame_bytes(f)[10] == POST,
{
    let bcd = freq_to_bcd_le(hz);
    let body: [u8; 6] = [0x05, bcd[0], bcd[1], bcd[2], bcd[3], bcd[4]];
    let f = build(to, body.as_slice());
    proof {
        let s = frame_bytes(f);
        assert(s.take(5) =~= seq![PRE, PRE, to, CTRL_ADDR, 0x05]);
        assert(s.subrange(5, 10) =~= bcd@);
    }
    f
}

/// USB with the data flag on, filter 1.
pub fn set_mode_usb_data(to: u8) -> (f: Frame)
    ensures
        frame_bytes(f) == seq![PRE, PRE, to, CTRL_ADDR, 0x26, 0x00, MODE_USB, 0x01, 0x01, POST],
{
    let body: [u8; 5] = [0x26, 0x00, MODE_USB, 0x01, 0x01];
    let f = build(to, body.as_slice());
    assert(frame_bytes(f) =~= seq![
        PRE,
        PRE,
        to,
        CTRL_ADDR,
        0x26,
        0x00,
        MODE_USB,
        0x01,
        0x01,
        POST,
    ]);
    f
}

/// Key or unkey the transmitter.
pub fn ptt(to: u8, on: bool) -> (f: Frame)
    ensures
        frame_bytes(f) == seq![
            PRE,
            PRE,
            to,
            CTRL_ADDR,
            0x1C,
            0x00,
            if on {
                1u8
            } else {
                0u8
            },
            POST,
        ],
{
    let key: u8 = if on {
        1
    } else {
        0
    };
    let body: [u8; 3] = [0x1C, 0x00, key];
    let f = build(to, body.as_slice());
    assert(frame_bytes(f) =~= seq![PRE, PRE, to, CTRL_ADDR, 0x1C, 0x00, key, POST]);
    f
}

/// Ask for the GPS position.
pub fn gps_query(to: u8) -> (f: Frame)
    ensures
        frame_bytes(f) == seq![PRE, PRE, to, CTRL_ADDR, 0x23, 0x00, POST],
{
    let body: [u8; 2] = [0x23, 0x00];
    let f = build(to, body.as_slice());
    assert(frame_bytes(f) =~= seq![PRE, PRE, to, CTRL_ADDR, 0x23, 0x00, POST]);
    f
}

// ── Frames from the radio ───────────────────────────────────────────────────

/// What a frame from the radio said.
#[derive(Clone, Copy, Debug, PartialEq, Eq)]
pub enum Event {
    /// The dial frequency: a reply to `03` or a transceive `00`.
    Freq(u32),
    /// The operating mode: a reply to `04`/`26` or a transceive `01`.
    /// `data` is `None` where the frame does not carry the flag.
    Mode { mode: u8, data: Option<bool>, filter: u8 },
    /// PTT state, in reply to a `1C 00` read.
    Ptt(bool),
    Okay,
    Ng,
    /// A well-formed frame from the radio that none of the above covers; its
    /// opcode.
    Other(u8),
}

/// What a command with its data says.
pub open spec fn event_of(cmd: u8, data: Seq<u8>) -> Option<Event> {
    if cmd == 0x00 || cmd == 0x03 {
        if data.len() < 5 {
            None
        } else {
            match bcd_freq(data.take(5)) {
                Some(hz) => Some(Event::Freq(hz)),
                None => None,
            }
        }
    } else if cmd == 0x01 || cmd == 0x04 {
        if data.len() < 1 {
            None
        } else {
            Some(
                Event::Mode {
                    mode: data[0],
                    data: None,
                    filter: if data.len() > 1 {
                        data[1]
                    } else {
                        0
                    },
                },
            )
        }
    } else if cmd == 0x26 {
        if data.len() < 3 {
            None
        } else {
            Some(
                Event::Mode {
                    mode: data[1],
                    data: Some(data[2] != 0),
                    filter: if data.len() > 3 {
                        data[3]
                    } else {
                        0
                    },
                },
            )
        }
    } else if cmd == 0x1C && data.len() == 2 && data[0] == 0 {
        Some(Event::Ptt(data[1] != 0))
    } else if cmd == OK {
        Some(Event::Okay)
    } else if cmd == NG {
        Some(Event::Ng)
    } else {
        Some(Event::Other(cmd))
    }
}

/// A whole frame from `radio`, to the controller or to everyone.
pub open spec fn from_radio(frame: Seq<u8>, radio: u8) -> bool {
    &&& frame.len() >= 6
    &&& frame[0] == PRE
    &&& frame[1] == PRE
    &&& frame.last() == POST
    &&& frame[2] == CTRL_ADDR || frame[2] == BROADCAST
    &&& frame[3] == radio
}

pub open spec fn meaning(frame: Seq<u8>, radio: u8) -> Option<Event> {
    if from_radio(frame, radio) {
        event_of(frame[4], frame.subrange(5, frame.len() - 1))
    } else {
        None
    }
}

/// Interpret one complete frame. `None` for a frame not from `radio`, not
/// addressed to the controller or to everyone, or malformed.
pub fn parse(frame: &[u8], radio: u8) -> (r: Option<Event>)
    ensures
        r == meaning(frame@, radio),
{
    let n: usize = frame.len();
    if n < 6 || frame[0] != PRE || frame[1] != PRE || frame[n - 1] != POST {
        return None;
    }
    if frame[3] != radio || (frame[2] != CTRL_ADDR && frame[2] != BROADCAST) {
        return None;
    }
    let cmd: u8 = frame[4];
    let data = vstd::slice::slice_subrange(frame, 5, n - 1);
    if cmd == 0x00 || cmd == 0x03 {
        if data.len() < 5 {
            return None;
        }
        let b = vstd::slice::slice_subrange(data, 0, 5);
        assert(b@ =~= data@.take(5));
        match bcd_le_to_freq(b) {
            Some(hz) => Some(Event::Freq(hz)),
            None => None,
        }
    } else if cmd == 0x01 || cmd == 0x04 {
        if data.len() < 1 {
            return None;
        }
        let filter: u8 = if data.len() > 1 {
            data[1]
        } else {
            0
        };
        Some(Event::Mode { mode: data[0], data: None, filter })
    } else if cmd == 0x26 {
        if data.len() < 3 {
            return None;
        }
        let filter: u8 = if data.len() > 3 {
            data[3]
        } else {
            0
        };
        Some(Event::Mode { mode: data[1], data: Some(data[2] != 0), filter })
    } else if cmd == 0x1C && data.len() == 2 && data[0] == 0 {
        Some(Event::Ptt(data[1] != 0))
    } else if cmd == OK {
        Some(Event::Okay)
    } else if cmd == NG {
        Some(Event::Ng)
    } else {
        Some(Event::Other(cmd))
    }
}

// ── The byte stream ─────────────────────────────────────────────────────────

/// What the reader holds after a byte, and the frame that the byte finished.
///
/// Bytes before a preamble are dropped, further preamble bytes after the
/// second change nothing, and a frame that outgrows [`MAX_FRAME`] is
/// discarded.
pub open spec fn reader_step(buf: Seq<u8>, b: u8) -> (Seq<u8>, Option<Seq<u8>>) {
    if buf.len() < 2 {
        if b == PRE {
            (buf.push(b), None)
        } else {
            (Seq::empty(), None)
        }
    } else if buf.len() == 2 && b == PRE {
        (buf, None)
    } else if buf.len() >= MAX_FRAME {
        (Seq::empty(), None)
    } else if b == POST {
        (Seq::empty(), Some(buf.push(b)))
    } else {
        (buf.push(b), None)
    }
}

/// Reassembles frames from a byte stream.
pub struct Reader {
    buf: Frame,
}

impl View for Reader {
    type V = Seq<u8>;

    closed spec fn view(&self) -> Seq<u8> {
        frame_bytes(self.buf)
    }
}

/// The bytes of a finished frame.
pub open spec fn frame_out(r: Option<Frame>) -> Option<Seq<u8>> {
    match r {
        Some(f) => Some(frame_bytes(f)),
        None => None,
    }
}

impl Reader {
    pub fn new() -> (r: Self)
        ensures
            r@ == Seq::<u8>::empty(),
    {
        Reader { buf: frame_new() }
    }

    /// Feed one byte; returns a complete `FE FE … FD` frame when this byte
    /// finishes one.
    pub fn push(&mut self, b: u8) -> (r: Option<Frame>)
        ensures
            (final(self)@, frame_out(r)) == reader_step(old(self)@, b),
    {
        let n: usize = vec_slice(&self.buf).len();
        if n == 0 {
            if b == PRE {
                vec_push(&mut self.buf, b);
            } else {
                assert(self@ =~= Seq::<u8>::empty());
            }
            return None;
        }
        if n == 1 {
            if b == PRE {
                vec_push(&mut self.buf, b);
            } else {
                vec_clear(&mut self.buf);
            }
            return None;
        }
        if n == 2 && b == PRE {
            return None;
        }
        if !vec_push(&mut self.buf, b) {
            vec_clear(&mut self.buf);
            return None;
        }
        if b == POST {
            let out = frame_clone(&self.buf);
            vec_clear(&mut self.buf);
            return Some(out);
        }
        None
    }
}

impl Default for Reader {
    fn default() -> (r: Self)
        ensures
            r@ == Seq::<u8>::empty(),
    {
        Reader::new()
    }
}

// ── Laws ────────────────────────────────────────────────────────────────────

/// BCD bytes of a frequency read back as the frequency.
pub proof fn law_bcd_round_trip(hz: u32, bcd: Seq<u8>)
    requires
        decimal_bytes(bcd),
        bcd_value(bcd) == hz,
    ensures
        bcd_freq(bcd) == Some(hz),
{
}

/// A frame this controller built, coming back as an echo, is not read as an
/// answer from the radio.
pub proof fn law_own_echo_is_ignored(to: u8, body: Seq<u8>, radio: u8)
    requires
        radio != CTRL_ADDR,
    ensures
        meaning(frame_of(to, body), radio) is None,
{
    assert(frame_of(to, body)[3] == CTRL_ADDR);
}

/// What the reader holds and has handed out after a run of bytes.
pub open spec fn reader_run(buf: Seq<u8>, bytes: Seq<u8>) -> (Seq<u8>, Seq<Seq<u8>>)
    decreases bytes.len(),
{
    if bytes.len() == 0 {
        (buf, Seq::empty())
    } else {
        let (b0, out0) = reader_run(buf, bytes.drop_last());
        let (b1, out1) = reader_step(b0, bytes.last());
        (
            b1,
            match out1 {
                Some(f) => out0.push(f),
                None => out0,
            },
        )
    }
}

/// What the reader holds between bytes: nothing, one preamble byte, or two
/// and what came after.
pub open spec fn reader_inv(buf: Seq<u8>) -> bool {
    &&& buf.len() <= MAX_FRAME
    &&& buf.len() >= 1 ==> buf[0] == PRE
    &&& buf.len() >= 2 ==> buf[1] == PRE
}

/// Whatever arrives, every frame handed out begins with the preamble, ends
/// with the terminator and is at most [`MAX_FRAME`] bytes long.
pub proof fn law_frames_are_framed(buf: Seq<u8>, b: u8)
    requires
        reader_inv(buf),
    ensures
        reader_inv(reader_step(buf, b).0),
        reader_step(buf, b).1 matches Some(f) ==> {
            &&& 3 <= f.len() <= MAX_FRAME
            &&& f[0] == PRE && f[1] == PRE && f.last() == POST
            &&& reader_step(buf, b).0.len() == 0
        },
{
}

/// A frame as it stands on the wire: a preamble of two, no preamble or
/// terminator byte right after it, and a terminator only at the end.
pub open spec fn wire_frame(f: Seq<u8>) -> bool {
    &&& 4 <= f.len() <= MAX_FRAME
    &&& f[0] == PRE && f[1] == PRE && f[2] != PRE
    &&& f.last() == POST
    &&& forall|i: int| 2 <= i < f.len() - 1 ==> #[trigger] f[i] != POST
}

proof fn lemma_reader_prefix(f: Seq<u8>, k: int)
    requires
        wire_frame(f),
        0 <= k < f.len(),
    ensures
        reader_run(Seq::empty(), f.take(k)) == (f.take(k), Seq::<Seq<u8>>::empty()),
    decreases k,
{
    if k > 0 {
        lemma_reader_prefix(f, k - 1);
        assert(f.take(k).drop_last() =~= f.take(k - 1));
        assert(f.take(k).last() == f[k - 1]);
        assert(f.take(k - 1).push(f[k - 1]) =~= f.take(k));
    } else {
        assert(f.take(0) =~= Seq::<u8>::empty());
    }
}

/// A frame fed byte by byte to an idle reader comes out whole with its last
/// byte, and leaves the reader idle for the next one.
pub proof fn law_frame_comes_out_whole(f: Seq<u8>)
    requires
        wire_frame(f),
    ensures
        reader_run(Seq::empty(), f) == (Seq::<u8>::empty(), seq![f]),
{
    let k = f.len() - 1;
    lemma_reader_prefix(f, k);
    assert(f.drop_last() =~= f.take(k));
    assert(f.take(k).push(f[k]) =~= f);
    assert(Seq::<Seq<u8>>::empty().push(f) =~= seq![f]);
}

/// A frame as the radio sends it, to the controller or to everyone.
pub open spec fn sent_by(radio: u8, everyone: bool, body: Seq<u8>) -> Seq<u8> {
    seq![
        0xFEu8,
        0xFEu8,
        if everyone {
            0x00u8
        } else {
            0xE0u8
        },
        radio,
    ] + body + seq![0xFDu8]
}

proof fn lemma_sent_by(radio: u8, everyone: bool, body: Seq<u8>)
    requires
        body.len() > 0,
    ensures
        meaning(sent_by(radio, everyone, body), radio) == event_of(body[0], body.skip(1)),
{
    let f = sent_by(radio, everyone, body);
    assert(f.subrange(5, f.len() - 1) =~= body.skip(1));
}

/// The radio transmits when it says so with anything but zero, and receives
/// when it says zero: what keys it is what it answers.
pub proof fn law_the_radio_tells_its_keying(radio: u8, everyone: bool, key: u8, on: bool)
    ensures
        meaning(sent_by(radio, everyone, seq![0x1Cu8, 0x00u8, 0x00u8]), radio) == Some(
            Event::Ptt(false),
        ),
        key != 0 ==> meaning(sent_by(radio, everyone, seq![0x1Cu8, 0x00u8, key]), radio) == Some(
            Event::Ptt(true),
        ),
        ({
            let asked = frame_of(
                radio,
                seq![
                    0x1Cu8,
                    0x00u8,
                    if on {
                        1u8
                    } else {
                        0u8
                    },
                ],
            );
            meaning(sent_by(radio, everyone, asked.subrange(4, 7)), radio) == Some(Event::Ptt(on))
        }),
{
    let off = seq![0x1Cu8, 0x00u8, 0x00u8];
    lemma_sent_by(radio, everyone, off);
    assert(off.skip(1) =~= seq![0x00u8, 0x00u8]);
    let up = seq![0x1Cu8, 0x00u8, key];
    lemma_sent_by(radio, everyone, up);
    assert(up.skip(1) =~= seq![0x00u8, key]);
    let b = seq![
        0x1Cu8,
        0x00u8,
        if on {
            1u8
        } else {
            0u8
        },
    ];
    assert(frame_of(radio, b).subrange(4, 7) =~= b);
    lemma_sent_by(radio, everyone, b);
    assert(b.skip(1)[0] == 0u8 && b.skip(1)[1] == b[2]);
}

/// The frequency of five bytes: two decimal digits in each, the high one in
/// the upper half, the lowest two digits first.
pub proof fn law_frequencies_are_low_digits_first(b: Seq<u8>)
    requires
        b.len() == 5,
    ensures
        bcd_value(b) == (b[0] % 16) + 10 * (b[0] / 16) + 100 * (b[1] % 16) + 1_000 * (b[1] / 16)
            + 10_000 * (b[2] % 16) + 100_000 * (b[2] / 16) + 1_000_000 * (b[3] % 16) + 10_000_000
            * (b[3] / 16) + 100_000_000 * (b[4] % 16) + 1_000_000_000 * (b[4] / 16),
{
    reveal_with_fuel(bcd_value, 6);
    assert(b.skip(1).skip(1) =~= b.skip(2));
    assert(b.skip(2).skip(1) =~= b.skip(3));
    assert(b.skip(3).skip(1) =~= b.skip(4));
    assert(b.skip(4).skip(1) =~= b.skip(5));
}

/// A frequency that the radio sends, asked for or as the dial moves, is heard
/// as that frequency; one that is not in decimal digits as nothing.
pub proof fn law_the_radio_tells_its_frequency(
    radio: u8,
    everyone: bool,
    asked: bool,
    b: Seq<u8>,
)
    requires
        b.len() == 5,
    ensures
        meaning(
            sent_by(
                radio,
                everyone,
                seq![
                    if asked {
                        0x03u8
                    } else {
                        0x00u8
                    },
                ] + b,
            ),
            radio,
        ) == (if decimal_bytes(b) && bcd_value(b) <= 0xffff_ffff {
            Some(Event::Freq(bcd_value(b) as u32))
        } else {
            None
        }),
{
    let body = seq![
        if asked {
            0x03u8
        } else {
            0x00u8
        },
    ] + b;
    lemma_sent_by(radio, everyone, body);
    assert(body.skip(1) =~= b);
    assert(b.take(5) =~= b);
}

/// A mode that the radio sends: mode and filter; or, behind the number of the
/// VFO, mode, data flag and filter.
pub proof fn law_the_radio_tells_its_mode(
    radio: u8,
    everyone: bool,
    asked: bool,
    mode: u8,
    filter: u8,
    vfo: u8,
    data: u8,
)
    ensures
        meaning(
            sent_by(
                radio,
                everyone,
                seq![
                    if asked {
                        0x04u8
                    } else {
                        0x01u8
                    },
                    mode,
                    filter,
                ],
            ),
            radio,
        ) == Some(Event::Mode { mode, data: None, filter }),
        meaning(sent_by(radio, everyone, seq![0x26u8, vfo, mode, data, filter]), radio) == Some(
            Event::Mode { mode, data: Some(data != 0), filter },
        ),
{
    let a = seq![
        if asked {
            0x04u8
        } else {
            0x01u8
        },
        mode,
        filter,
    ];
    lemma_sent_by(radio, everyone, a);
    assert(a.skip(1) =~= seq![mode, filter]);
    let b = seq![0x26u8, vfo, mode, data, filter];
    lemma_sent_by(radio, everyone, b);
    assert(b.skip(1) =~= seq![vfo, mode, data, filter]);
}

/// The radio's yes and no.
pub proof fn law_the_radio_says_yes_and_no(radio: u8, everyone: bool)
    ensures
        meaning(sent_by(radio, everyone, seq![0xFBu8]), radio) == Some(Event::Okay),
        meaning(sent_by(radio, everyone, seq![0xFAu8]), radio) == Some(Event::Ng),
{
    lemma_sent_by(radio, everyone, seq![0xFBu8]);
    lemma_sent_by(radio, everyone, seq![0xFAu8]);
}

/// Nothing is heard of a frame that another station sent, or that is for
/// another one, or that is not framed.
pub proof fn law_others_are_not_heard(frame: Seq<u8>, radio: u8)
    requires
        frame.len() < 6 || frame[3] != radio || (frame[2] != 0xE0 && frame[2] != 0x00) || frame[0]
            != 0xFE || frame[1] != 0xFE || frame.last() != 0xFD,
    ensures
        meaning(frame, radio) is None,
{
}

/// A command that fits is framed whole: preamble, addressee, controller, the
/// command, terminator.
pub proof fn law_commands_are_framed(to: u8, body: Seq<u8>)
    requires
        body.len() <= 35,
    ensures
        frame_of(to, body) == seq![0xFEu8, 0xFEu8, to, 0xE0u8] + body + seq![0xFDu8],
{
    assert(frame_of(to, body) =~= seq![0xFEu8, 0xFEu8, to, 0xE0u8] + body + seq![0xFDu8]);
}

/// Noise before a frame is lost, and the frame is not.
pub proof fn law_noise_is_skipped(noise: Seq<u8>, f: Seq<u8>)
    requires
        wire_frame(f),
        forall|i: int| 0 <= i < noise.len() ==> #[trigger] noise[i] != 0xFE,
    ensures
        reader_run(Seq::empty(), noise) == (Seq::<u8>::empty(), Seq::<Seq<u8>>::empty()),
        reader_run(Seq::empty(), noise + f) == (Seq::<u8>::empty(), seq![f]),
    decreases noise.len(),
{
    if noise.len() > 0 {
        let d = noise.drop_last();
        assert forall|i: int| 0 <= i < d.len() implies #[trigger] d[i] != 0xFE by {
            assert(noise[i] != 0xFE);
        }
        law_noise_is_skipped(d, f);
        assert(noise[noise.len() - 1] != 0xFE);
    }
    lemma_run_on(noise, f);
    law_frame_comes_out_whole(f);
    assert(Seq::<Seq<u8>>::empty() + seq![f] =~= seq![f]);
}

/// Reading on after an idle reader is reading anew.
proof fn lemma_run_on(a: Seq<u8>, b: Seq<u8>)
    requires
        reader_run(Seq::empty(), a) == (Seq::<u8>::empty(), Seq::<Seq<u8>>::empty()),
    ensures
        reader_run(Seq::empty(), a + b) == reader_run(Seq::empty(), b),
    decreases b.len(),
{
    if b.len() == 0 {
        assert(a + b =~= a);
    } else {
        let d = b.drop_last();
        lemma_run_on(a, d);
        assert((a + b).drop_last() =~= a + d);
        assert((a + b).last() == b.last());
    }
}

/// A frequency with anything but a decimal digit in one of its halves is not
/// heard; one of decimal digits is, if it fits.
pub proof fn law_only_decimal_digits_are_a_frequency(
    radio: u8,
    everyone: bool,
    b: Seq<u8>,
    i: int,
)
    requires
        b.len() == 5,
        0 <= i < 5,
    ensures
        b[i] % 16 > 9 || b[i] / 16 > 9 ==> meaning(
            sent_by(radio, everyone, seq![0x03u8] + b),
            radio,
        ) is None,
        (forall|k: int| 0 <= k < 5 ==> (#[trigger] b[k]) % 16 <= 9 && b[k] / 16 <= 9) && bcd_value(b)
            <= 0xffff_ffff ==> meaning(sent_by(radio, everyone, seq![0x03u8] + b), radio) == Some(
            Event::Freq(bcd_value(b) as u32),
        ),
{
    law_the_radio_tells_its_frequency(radio, everyone, true, b);
}

/// What a frame leaves out at its end counts as zero, but a frequency needs
/// its five bytes and a mode its own; the rest behind them is not read.
pub proof fn law_short_frames(
    radio: u8,
    everyone: bool,
    mode: u8,
    vfo: u8,
    data: u8,
    b: Seq<u8>,
    more: Seq<u8>,
)
    requires
        b.len() == 5,
    ensures
        meaning(sent_by(radio, everyone, seq![0x04u8, mode]), radio) == Some(
            Event::Mode { mode, data: None, filter: 0 },
        ),
        meaning(sent_by(radio, everyone, seq![0x04u8]), radio) is None,
        meaning(sent_by(radio, everyone, seq![0x26u8, vfo, mode, data]), radio) == Some(
            Event::Mode { mode, data: Some(data != 0), filter: 0 },
        ),
        meaning(sent_by(radio, everyone, seq![0x26u8, vfo, mode]), radio) is None,
        meaning(sent_by(radio, everyone, seq![0x03u8] + b.drop_last()), radio) is None,
        meaning(sent_by(radio, everyone, seq![0x03u8] + b + more), radio) == meaning(
            sent_by(radio, everyone, seq![0x03u8] + b),
            radio,
        ),
{
    let f1 = seq![0x04u8, mode];
    lemma_sent_by(radio, everyone, f1);
    assert(f1.skip(1) =~= seq![mode]);
    lemma_sent_by(radio, everyone, seq![0x04u8]);
    let f2 = seq![0x26u8, vfo, mode, data];
    lemma_sent_by(radio, everyone, f2);
    assert(f2.skip(1) =~= seq![vfo, mode, data]);
    let f3 = seq![0x26u8, vfo, mode];
    lemma_sent_by(radio, everyone, f3);
    assert(f3.skip(1) =~= seq![vfo, mode]);
    let f4 = seq![0x03u8] + b.drop_last();
    lemma_sent_by(radio, everyone, f4);
    assert(f4.skip(1) =~= b.drop_last());
    let f5 = seq![0x03u8] + b;
    lemma_sent_by(radio, everyone, f5);
    assert(f5.skip(1) =~= b);
    let f6 = seq![0x03u8] + b + more;
    lemma_sent_by(radio, everyone, f6);
    assert(f6.skip(1).take(5) =~= b.take(5));
}

/// Any other command is passed on by its number, and so is one about keying
/// that does not say whether the radio is keyed.
pub proof fn law_other_commands_are_passed_on(radio: u8, everyone: bool, cmd: u8, rest: Seq<u8>)
    requires
        !seq![0x00u8, 0x01u8, 0x03u8, 0x04u8, 0x26u8, 0xFAu8, 0xFBu8].contains(cmd),
        cmd == 0x1C ==> rest.len() != 2 || rest[0] != 0,
    ensures
        meaning(sent_by(radio, everyone, seq![cmd] + rest), radio) == Some(Event::Other(cmd)),
{
    let body = seq![cmd] + rest;
    lemma_sent_by(radio, everyone, body);
    assert(body.skip(1) =~= rest);
    let known = seq![0x00u8, 0x01u8, 0x03u8, 0x04u8, 0x26u8, 0xFAu8, 0xFBu8];
    assert(known[0] == 0x00 && known[1] == 0x01 && known[2] == 0x03 && known[3] == 0x04);
    assert(known[4] == 0x26 && known[5] == 0xFA && known[6] == 0xFB);
    assert(cmd != known[0] && cmd != known[1] && cmd != known[2] && cmd != known[3]);
    assert(cmd != known[4] && cmd != known[5] && cmd != known[6]);
}

/// A command of 36 bytes fills its frame and leaves no room for the
/// terminator; a longer one is left out.
pub proof fn law_long_commands_do_not_fit(to: u8, body: Seq<u8>)
    ensures
        body.len() == 36 ==> frame_of(to, body) == seq![0xFEu8, 0xFEu8, to, 0xE0u8] + body,
        body.len() > 36 ==> frame_of(to, body) == seq![0xFEu8, 0xFEu8, to, 0xE0u8, 0xFDu8],
{
    if body.len() == 36 {
        assert(frame_of(to, body) =~= seq![0xFEu8, 0xFEu8, to, 0xE0u8] + body);
    }
    if body.len() > 36 {
        assert(frame_of(to, body) =~= seq![0xFEu8, 0xFEu8, to, 0xE0u8, 0xFDu8]);
    }
}

}
