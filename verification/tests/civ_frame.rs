use mfsk::station::civ_frame::{
    bcd_le_to_freq, freq_to_bcd_le, gps_query, parse, ptt, read_freq, read_mode, set_freq, set_mode_usb_data,
    Event, Frame, Reader, BROADCAST, CTRL_ADDR, IC705_ADDR, MAX_FRAME, MODE_USB, NG, OK, POST, PRE,
};

const R: u8 = IC705_ADDR;

fn from_radio(to: u8, body: &[u8]) -> Frame {
    let mut f = Frame::new();
    f.extend_from_slice(&[PRE, PRE, to, R]).unwrap();
    f.extend_from_slice(body).unwrap();
    f.push(POST).unwrap();
    f
}

#[test]
fn bcd_known_values() {
    assert_eq!(freq_to_bcd_le(14_074_000), [0x00, 0x40, 0x07, 0x14, 0x00]);
    assert_eq!(freq_to_bcd_le(7_074_000), [0x00, 0x40, 0x07, 0x07, 0x00]);
    assert_eq!(freq_to_bcd_le(144_174_000), [0x00, 0x40, 0x17, 0x44, 0x01]);
}

#[test]
fn bcd_round_trips_every_ft8_dial() {
    for hz in [
        1_840_000,
        3_573_000,
        7_074_000,
        10_136_000,
        14_074_000,
        18_100_000,
        21_074_000,
        24_915_000,
        28_074_000,
        50_313_000,
        144_174_000,
        430_000_000,
        123_456_789,
    ] {
        assert_eq!(bcd_le_to_freq(&freq_to_bcd_le(hz)), Some(hz), "{hz}");
    }
}

#[test]
fn bcd_rejects_non_decimal_nibbles() {
    assert_eq!(bcd_le_to_freq(&[0x0A, 0, 0, 0, 0]), None);
    assert_eq!(bcd_le_to_freq(&[0, 0, 0, 0, 0xF0]), None);
}

#[test]
fn builders_match_hamlib_layouts() {
    assert_eq!(
        read_freq(R).as_slice(),
        &[0xFE, 0xFE, 0xA4, 0xE0, 0x03, 0xFD]
    );
    assert_eq!(
        set_freq(R, 14_074_000).as_slice(),
        &[
            0xFE, 0xFE, 0xA4, 0xE0, 0x05, 0x00, 0x40, 0x07, 0x14, 0x00, 0xFD
        ]
    );
    assert_eq!(
        set_mode_usb_data(R).as_slice(),
        &[0xFE, 0xFE, 0xA4, 0xE0, 0x26, 0x00, 0x01, 0x01, 0x01, 0xFD]
    );
    assert_eq!(
        ptt(R, true).as_slice(),
        &[0xFE, 0xFE, 0xA4, 0xE0, 0x1C, 0x00, 0x01, 0xFD]
    );
    assert_eq!(
        ptt(R, false).as_slice(),
        &[0xFE, 0xFE, 0xA4, 0xE0, 0x1C, 0x00, 0x00, 0xFD]
    );
    assert_eq!(
        read_mode(R).as_slice(),
        &[0xFE, 0xFE, 0xA4, 0xE0, 0x26, 0x00, 0xFD]
    );
}

#[test]
fn transceive_and_reply_frequencies() {
    let bcd = freq_to_bcd_le(7_074_000);
    let mut body = [0u8; 6];
    body[1..].copy_from_slice(&bcd);
    body[0] = 0x00;
    assert_eq!(
        parse(&from_radio(BROADCAST, &body), R),
        Some(Event::Freq(7_074_000))
    );
    body[0] = 0x03;
    assert_eq!(
        parse(&from_radio(CTRL_ADDR, &body), R),
        Some(Event::Freq(7_074_000))
    );
}

#[test]
fn modes_in_both_layouts() {
    assert_eq!(
        parse(&from_radio(CTRL_ADDR, &[0x26, 0x00, 0x01, 0x01, 0x01]), R),
        Some(Event::Mode {
            mode: MODE_USB,
            data: Some(true),
            filter: 1
        })
    );
    assert_eq!(
        parse(&from_radio(BROADCAST, &[0x01, 0x01, 0x02]), R),
        Some(Event::Mode {
            mode: MODE_USB,
            data: None,
            filter: 2
        })
    );
}

#[test]
fn ok_ng_and_ptt() {
    assert_eq!(parse(&from_radio(CTRL_ADDR, &[OK]), R), Some(Event::Okay));
    assert_eq!(parse(&from_radio(CTRL_ADDR, &[NG]), R), Some(Event::Ng));
    assert_eq!(
        parse(&from_radio(CTRL_ADDR, &[0x1C, 0x00, 0x01]), R),
        Some(Event::Ptt(true))
    );
}

#[test]
fn own_echo_and_other_radios_are_ignored() {
    assert_eq!(parse(&set_freq(R, 14_074_000), R), None);
    let mut other = from_radio(CTRL_ADDR, &[OK]);
    other[3] = 0x94;
    assert_eq!(parse(&other, R), None);
    let mut to_someone_else = from_radio(0x70, &[OK]);
    to_someone_else[2] = 0x70;
    assert_eq!(parse(&to_someone_else, R), None);
}

#[test]
fn torn_frames_are_rejected() {
    assert_eq!(
        parse(&[0xFE, 0xFE, 0xE0, 0xA4, 0x03, 0x00, 0x40, 0xFD], R),
        None
    );
    assert_eq!(parse(&[0xFE, 0xFE, 0xE0, 0xA4, 0xFB], R), None);
}

#[test]
fn reader_splits_a_stream_and_resyncs() {
    let mut stream: std::vec::Vec<u8> = vec![0x12, 0xFD, 0xFE];
    stream.extend_from_slice(&[0x33]);
    stream.extend_from_slice(&[0xFE, 0xFE, 0xFE]);
    stream.extend_from_slice(&[0x00, 0xA4, 0x00, 0x00, 0x40, 0x07, 0x14, 0x00, 0xFD]);
    stream.extend_from_slice(&from_radio(CTRL_ADDR, &[OK]));
    let mut r = Reader::new();
    let frames: std::vec::Vec<Frame> = stream.iter().filter_map(|&b| r.push(b)).collect();
    assert_eq!(frames.len(), 2);
    assert_eq!(parse(&frames[0], R), Some(Event::Freq(14_074_000)));
    assert_eq!(parse(&frames[1], R), Some(Event::Okay));
}

#[test]
fn reader_discards_an_overlong_frame() {
    let mut r = Reader::new();
    let mut got = 0;
    for b in [PRE, PRE]
        .into_iter()
        .chain(core::iter::repeat_n(0x11, MAX_FRAME + 4))
    {
        got += r.push(b).is_some() as u32;
    }
    assert_eq!(got, 0);
    for &b in from_radio(CTRL_ADDR, &[OK]).iter() {
        if let Some(f) = r.push(b) {
            assert_eq!(parse(&f, R), Some(Event::Okay));
            got += 1;
        }
    }
    assert_eq!(got, 1);
}

#[test]
fn the_position_is_asked_for() {
    assert_eq!(gps_query(R).as_slice(), [PRE, PRE, R, CTRL_ADDR, 0x23, 0x00, POST]);
}

/// A frame that the reader returns is the bytes that came, preamble included,
/// whatever came before it.
#[test]
fn a_frame_comes_out_whole() {
    let f = set_freq(R, 7_074_000);
    let mut reader = Reader::new();
    let mut got = None;
    for &b in [0x11, 0x22].iter().chain(f.iter()) {
        if let Some(x) = reader.push(b) {
            got = Some(x);
        }
    }
    assert_eq!(got.unwrap(), f);
}
