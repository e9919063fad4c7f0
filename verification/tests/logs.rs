use mfsk::station::adif::{band_for_hz, date_chars, header, record, report, time_chars, zero_pad, Qso};
use mfsk::station::all_txt::{rx_line, tx_line};
use mfsk::station::civil_time::{civil_from_unix, Civil};
use mfsk::station::prefs::{GridSource, WifiPref};

const ON: i64 = 1_790_072_100; // 2026-09-22 10:15:00

fn qso() -> Qso<'static> {
    Qso {
        call: "JA1ABC",
        grid: "PM95",
        mode: "FT8",
        rst_sent: -12,
        rst_rcvd: Some(3),
        on_unix: ON,
        off_unix: ON + 60,
        dial_hz: Some(14_074_000),
        my_call: "JL1NIE/P",
        my_grid: "PM95",
        my_sota_ref: Some("JA/NN-001"),
        my_pota_ref: None,
    }
}

#[test]
fn a_record_names_every_field() {
    assert_eq!(
        record(&qso()),
        "<call:6>JA1ABC <gridsquare:4>PM95 <mode:3>FT8 <rst_sent:3>-12 <rst_rcvd:3>+03 \
         <qso_date:8>20260922 <time_on:6>101500 <qso_date_off:8>20260922 <time_off:6>101600 \
         <band:3>20m <freq:9>14.074000 <station_callsign:8>JL1NIE/P <my_gridsquare:4>PM95 \
         <my_sota_ref:9>JA/NN-001 <eor>\n"
    );
}

#[test]
fn what_is_not_known_is_left_out() {
    let q = Qso {
        grid: "",
        mode: "FT4",
        rst_rcvd: None,
        dial_hz: None,
        my_grid: "",
        my_sota_ref: Some(""),
        my_pota_ref: Some("JP-1234"),
        ..qso()
    };
    assert_eq!(
        record(&q),
        "<call:6>JA1ABC <gridsquare:0> <mode:4>MFSK <submode:3>FT4 <rst_sent:3>-12 \
         <qso_date:8>20260922 <time_on:6>101500 <qso_date_off:8>20260922 <time_off:6>101600 \
         <station_callsign:8>JL1NIE/P <my_pota_ref:7>JP-1234 <eor>\n"
    );
    // Out of band: a frequency without a band.
    let r = record(&Qso { dial_hz: Some(13_000_001), ..qso() });
    assert!(r.contains("<time_off:6>101600 <freq:9>13.000001 <station"));
}

#[test]
fn submodes_are_mfsk() {
    for mode in ["FT4", "FST4", "Q65"] {
        let r = record(&Qso { mode, ..qso() });
        assert!(r.contains(&format!("<mode:4>MFSK <submode:{}>{mode} ", mode.len())));
    }
    for mode in ["FT8", "WSPR", "FT40"] {
        let r = record(&Qso { mode, ..qso() });
        assert!(r.contains(&format!("<mode:{}>{mode} <rst", mode.len())));
    }
}

/// Lengths are in bytes.
#[test]
fn a_field_counts_bytes() {
    assert!(record(&Qso { call: "é", ..qso() }).starts_with("<call:2>é "));
}

#[test]
fn frequencies_have_six_decimals() {
    let dials = [0u64, 1, 136_000, 474_200, 1_836_600, 50_313_000, 432_065_123, 999_999_999_999];
    // Dials that no double holds to the hertz, and halves between two decimals.
    let beyond = [
        4_503_599_627_370_495,
        4_503_599_627_370_497,
        9_007_199_254_740_993,
        1 << 63,
        (1 << 63) + 1_024,
        u64::MAX - 1_024,
        u64::MAX,
    ];
    let spread = (1..400u64).map(|k| k.wrapping_mul(0x9e37_79b9_7f4a_7c15));
    for hz in dials.into_iter().chain(beyond).chain(spread) {
        let r = record(&Qso { dial_hz: Some(hz), ..qso() });
        let want = format!("{:.6}", hz as f64 / 1e6);
        assert!(r.contains(&format!("<freq:{}>{want} ", want.len())), "{r}");
    }
}

/// What the rounding comes to, in figures.
#[test]
fn a_record_rounds_as_doubles_do() {
    for (hz, text) in [
        (432_065_123u64, "432.065123"),
        (4_503_599_627_370_495, "4503599627.370495"),
        (1 << 63, "9223372036854.775391"),
    ] {
        let r = record(&Qso { dial_hz: Some(hz), ..qso() });
        assert!(r.contains(&format!("<freq:{}>{text} ", text.len())), "{r}");
    }
}

#[test]
fn bands_have_edges() {
    for (hz, band) in [
        (135_699, None),
        (135_700, Some("2190m")),
        (137_800, Some("2190m")),
        (137_801, None),
        (474_200, Some("630m")),
        (7_074_000, Some("40m")),
        (14_350_000, Some("20m")),
        (14_350_001, None),
        (54_000_000, Some("6m")),
        (54_000_001, Some("5m")),
        (223_500_000, Some("1.25m")),
        (450_000_000, Some("70cm")),
        (u64::MAX, None),
    ] {
        assert_eq!(band_for_hz(hz), band, "{hz}");
    }
}

#[test]
fn reports_have_a_sign_and_two_digits() {
    for (v, text) in [(0, "+00"), (3, "+03"), (-7, "-07"), (-24, "-24"), (127, "+127"), (-128, "-128")] {
        assert_eq!(report(v), text);
    }
}

#[test]
fn a_header_says_when_and_what() {
    assert_eq!(
        header(ON),
        "ADIF Export\n<adif_ver:5>3.1.4\n<created_timestamp:15>20260922 101500\n\
         <programid:8>mfsk-app\n<programversion:5>0.1.0\n<eoh>\n"
    );
}

#[test]
fn dates_are_padded() {
    let c = Civil { year: i64::MIN, month: 1, day: 2, hour: 3, minute: 4, second: 5 };
    assert_eq!(date_chars(&c), "-92233720368547758080102");
    let c = civil_from_unix(-62_135_596_800); // 0001-01-01
    assert_eq!((date_chars(&c), time_chars(&c)), ("00010101".to_string(), "000000".to_string()));
    for (n, w) in [(7i64, 2usize), (-7, 4), (12_345, 4), (0, 0), (-7, 0), (-7, 1), (i64::MIN, 4), (i64::MIN, 0), (i64::MIN, 25), (i64::MAX, 20)] {
        assert_eq!(zero_pad(n, w), format!("{:0w$}", n, w = w));
    }
}

#[test]
fn civil_time_knows_the_calendar() {
    let at = |y, mo, d, h, mi, s| Civil { year: y, month: mo, day: d, hour: h, minute: mi, second: s };
    for (unix, want) in [
        (0, at(1970, 1, 1, 0, 0, 0)),
        (-1, at(1969, 12, 31, 23, 59, 59)),
        (951_782_400, at(2000, 2, 29, 0, 0, 0)),
        (4_107_542_399, at(2100, 2, 28, 23, 59, 59)),
        (4_107_542_400, at(2100, 3, 1, 0, 0, 0)),
        (ON, at(2026, 9, 22, 10, 15, 0)),
        (-62_167_219_200, at(0, 1, 1, 0, 0, 0)),
        (-62_167_219_201, at(-1, 12, 31, 23, 59, 59)),
    ] {
        let c = civil_from_unix(unix);
        assert_eq!(
            (c.year, c.month, c.day, c.hour, c.minute, c.second),
            (want.year, want.month, want.day, want.hour, want.minute, want.second),
            "{unix}"
        );
    }
}

#[test]
fn a_decode_is_a_line() {
    assert_eq!(
        rx_line(ON, Some(14_074_000), "FT8", -12, "0.3", 1234, "CQ JA1ABC PM95"),
        "260922_101500    14.074 Rx FT8    -12  0.3 1234 CQ JA1ABC PM95\n"
    );
    assert_eq!(
        rx_line(ON, None, "WSPR", 3, "-1.2", -15, "K1ABC FN42 37  "),
        "260922_101500     0.000 Rx WSPR     3 -1.2  -15 K1ABC FN42 37\n"
    );
}

#[test]
fn a_transmission_is_a_line() {
    assert_eq!(
        tx_line(ON + 15, Some(14_074_000), "FT8", 1500, "JA1ABC JL1NIE/P -12"),
        "260922_101515    14.074 Tx FT8      0  0.0 1500 JA1ABC JL1NIE/P -12\n"
    );
    // An empty message leaves no space at the end.
    assert_eq!(tx_line(ON, None, "FT8", 0, ""), "260922_101500     0.000 Tx FT8      0  0.0    0\n");
}

/// Dials are written as their double-precision megahertz round.
#[test]
fn dials_round_as_doubles_do() {
    for hz in [
        0u64,
        62_500,
        187_500,
        499,
        500,
        501,
        1_500,
        2_500,
        14_074_500,
        14_075_500,
        474_200,
        999_999_500,
        123_456_789_012_345_678,
        9_007_199_254_740_993,
        u64::MAX,
    ] {
        let want = format!("260922_101500{:10.3} Tx FT8      0  0.0    0 X\n", hz as f64 / 1e6);
        assert_eq!(tx_line(ON, Some(hz), "FT8", 0, "X"), want, "{hz}");
    }
}

#[test]
fn preferences_read_back() {
    for g in [GridSource::Ntp, GridSource::AirDt] {
        assert!(GridSource::from_str(g.as_str()) == g);
    }
    for w in [WifiPref::On, WifiPref::Off] {
        assert!(WifiPref::from_str(w.as_str()) == w);
    }
    assert_eq!((GridSource::Ntp.as_str(), GridSource::AirDt.as_str()), ("ntp", "air"));
    assert_eq!((WifiPref::On.label(), WifiPref::Off.label()), ("WIFI: ON", "WIFI: OFF"));
    assert_eq!((GridSource::Ntp.label(), GridSource::AirDt.label()), ("TIME: NTP", "TIME: AIR DT"));
    assert!(WifiPref::On.enabled() && !WifiPref::Off.enabled());
    // Anything else is the default.
    assert!(GridSource::from_str("AIR") == GridSource::Ntp);
    assert!(WifiPref::from_str("") == WifiPref::On);
}
