//! ADIF records for the contacts the activator logs.
//!
//! Field order and spelling are those of a WSJT-X log, so the two merge
//! as they are. `MY_SOTA_REF` and `MY_POTA_REF` are added for the
//! tools that read an activation's reference.

use crate::msg::wsjt77::fmt_report;
use crate::msg::wsjt77::report_text;
use crate::station::civil_time::civil_of;
use crate::station::civil_time::{civil_from_unix, Civil};
use crate::station::megahertz::decimal_mhz;
use crate::station::megahertz::mhz_decimal;
use crate::text::{chars_of, dec_padded, is_str, string_of};
use crate::text::{contains_text, dec, dec_value, law_zeros_in_front_do_not_count, pad_left};
use vstd::prelude::*;
use vstd::utf8::encode_utf8;

verus! {

/// A band and its edges, in Hz.
pub open spec fn bands() -> Seq<(Seq<char>, int, int)> {
    seq![
        ("2190m"@, 135_700, 137_800),
        ("630m"@, 472_000, 479_000),
        ("560m"@, 501_000, 504_000),
        ("160m"@, 1_800_000, 2_000_000),
        ("80m"@, 3_500_000, 4_000_000),
        ("60m"@, 5_060_000, 5_450_000),
        ("40m"@, 7_000_000, 7_300_000),
        ("30m"@, 10_100_000, 10_150_000),
        ("20m"@, 14_000_000, 14_350_000),
        ("17m"@, 18_068_000, 18_168_000),
        ("15m"@, 21_000_000, 21_450_000),
        ("12m"@, 24_890_000, 24_990_000),
        ("10m"@, 28_000_000, 29_700_000),
        ("8m"@, 40_000_000, 45_000_000),
        ("6m"@, 50_000_000, 54_000_000),
        ("5m"@, 54_000_001, 69_900_000),
        ("4m"@, 70_000_000, 71_000_000),
        ("2m"@, 144_000_000, 148_000_000),
        ("1.25m"@, 222_000_000, 225_000_000),
        ("70cm"@, 420_000_000, 450_000_000),
    ]
}

/// `hz` lies in band number `i`.
pub open spec fn in_band(hz: int, i: int) -> bool {
    0 <= i < bands().len() && bands()[i].1 <= hz <= bands()[i].2
}

/// The band that `hz` lies in.
pub open spec fn band_of(hz: int) -> Option<Seq<char>> {
    if exists|i: int| in_band(hz, i) {
        Some(bands()[choose|i: int| in_band(hz, i)].0)
    } else {
        None
    }
}

/// No frequency lies in two bands.
pub proof fn law_bands_are_disjoint(hz: int, i: int, j: int)
    requires
        in_band(hz, i),
        in_band(hz, j),
    ensures
        i == j,
{
}

proof fn lemma_band(hz: int, i: int)
    requires
        in_band(hz, i),
    ensures
        band_of(hz) == Some(bands()[i].0),
{
    law_bands_are_disjoint(hz, i, choose|i: int| in_band(hz, i));
}

/// The ADIF band a dial frequency lies in; `None` out of band.
pub fn band_for_hz(hz: u64) -> (r: Option<&'static str>)
    ensures
        match r {
            Some(name) => band_of(hz as int) == Some(name@),
            None => band_of(hz as int) is None,
        },
{
    if 135_700 <= hz && hz <= 137_800 {
        proof {
            lemma_band(hz as int, 0);
        }
        Some("2190m")
    } else if 472_000 <= hz && hz <= 479_000 {
        proof {
            lemma_band(hz as int, 1);
        }
        Some("630m")
    } else if 501_000 <= hz && hz <= 504_000 {
        proof {
            lemma_band(hz as int, 2);
        }
        Some("560m")
    } else if 1_800_000 <= hz && hz <= 2_000_000 {
        proof {
            lemma_band(hz as int, 3);
        }
        Some("160m")
    } else if 3_500_000 <= hz && hz <= 4_000_000 {
        proof {
            lemma_band(hz as int, 4);
        }
        Some("80m")
    } else if 5_060_000 <= hz && hz <= 5_450_000 {
        proof {
            lemma_band(hz as int, 5);
        }
        Some("60m")
    } else if 7_000_000 <= hz && hz <= 7_300_000 {
        proof {
            lemma_band(hz as int, 6);
        }
        Some("40m")
    } else if 10_100_000 <= hz && hz <= 10_150_000 {
        proof {
            lemma_band(hz as int, 7);
        }
        Some("30m")
    } else if 14_000_000 <= hz && hz <= 14_350_000 {
        proof {
            lemma_band(hz as int, 8);
        }
        Some("20m")
    } else if 18_068_000 <= hz && hz <= 18_168_000 {
        proof {
            lemma_band(hz as int, 9);
        }
        Some("17m")
    } else if 21_000_000 <= hz && hz <= 21_450_000 {
        proof {
            lemma_band(hz as int, 10);
        }
        Some("15m")
    } else if 24_890_000 <= hz && hz <= 24_990_000 {
        proof {
            lemma_band(hz as int, 11);
        }
        Some("12m")
    } else if 28_000_000 <= hz && hz <= 29_700_000 {
        proof {
            lemma_band(hz as int, 12);
        }
        Some("10m")
    } else if 40_000_000 <= hz && hz <= 45_000_000 {
        proof {
            lemma_band(hz as int, 13);
        }
        Some("8m")
    } else if 50_000_000 <= hz && hz <= 54_000_000 {
        proof {
            lemma_band(hz as int, 14);
        }
        Some("6m")
    } else if 54_000_001 <= hz && hz <= 69_900_000 {
        proof {
            lemma_band(hz as int, 15);
        }
        Some("5m")
    } else if 70_000_000 <= hz && hz <= 71_000_000 {
        proof {
            lemma_band(hz as int, 16);
        }
        Some("4m")
    } else if 144_000_000 <= hz && hz <= 148_000_000 {
        proof {
            lemma_band(hz as int, 17);
        }
        Some("2m")
    } else if 222_000_000 <= hz && hz <= 225_000_000 {
        proof {
            lemma_band(hz as int, 18);
        }
        Some("1.25m")
    } else if 420_000_000 <= hz && hz <= 450_000_000 {
        proof {
            lemma_band(hz as int, 19);
        }
        Some("70cm")
    } else {
        None
    }
}

// ── Numbers ─────────────────────────────────────────────────────────────────

/// At least `w` characters, zeros after the sign.
pub open spec fn zero_padded(n: int, w: nat) -> Seq<char> {
    if n < 0 {
        "-"@ + pad_left(
            dec((-n) as nat),
            (if w > 0 {
                w - 1
            } else {
                0
            }) as nat,
            '0',
        )
    } else {
        pad_left(dec(n as nat), w, '0')
    }
}

pub fn zero_pad(n: i64, w: usize) -> (r: String)
    ensures
        r@ == zero_padded(n as int, w as nat),
{
    if n < 0 {
        let mut r: String = "-".to_owned();
        let size: u64 = (-(n + 1)) as u64 + 1;
        let rest: usize = if w > 0 {
            w - 1
        } else {
            0
        };
        let d = dec_padded(size, rest, '0');
        r.append(d.as_str());
        r
    } else {
        dec_padded(n as u64, w, '0')
    }
}

/// `YYYYMMDD`.
pub open spec fn date_text(c: Civil) -> Seq<char> {
    zero_padded(c.year as int, 4) + pad_left(dec(c.month as nat), 2, '0') + pad_left(
        dec(c.day as nat),
        2,
        '0',
    )
}

/// `HHMMSS`.
pub open spec fn time_text(c: Civil) -> Seq<char> {
    pad_left(dec(c.hour as nat), 2, '0') + pad_left(dec(c.minute as nat), 2, '0') + pad_left(
        dec(c.second as nat),
        2,
        '0',
    )
}

pub fn date_chars(c: &Civil) -> (r: String)
    ensures
        r@ == date_text(*c),
{
    let mut r = zero_pad(c.year, 4);
    let m = dec_padded(c.month as u64, 2, '0');
    r.append(m.as_str());
    let d = dec_padded(c.day as u64, 2, '0');
    r.append(d.as_str());
    r
}

pub fn time_chars(c: &Civil) -> (r: String)
    ensures
        r@ == time_text(*c),
{
    let mut r = dec_padded(c.hour as u64, 2, '0');
    let m = dec_padded(c.minute as u64, 2, '0');
    r.append(m.as_str());
    let s = dec_padded(c.second as u64, 2, '0');
    r.append(s.as_str());
    r
}

/// `-07`, `+03`.
pub fn report(v: i8) -> (r: String)
    ensures
        r@ == report_text(v as int, 0),
{
    fmt_report(v as i32, 0)
}

/// Megahertz with six decimals.
pub open spec fn mhz6(hz: nat) -> Seq<char> {
    decimal_mhz(hz, 1_000_000, 6)
}

fn mhz6_text(hz: u64) -> (r: String)
    ensures
        r@ == mhz6(hz as nat),
{
    let d = mhz_decimal(hz, 1_000_000, 6);
    string_of(d.as_slice())
}

// ── Records ─────────────────────────────────────────────────────────────────

/// `<name:length>value` after what is there, a space between.
pub open spec fn with_tag(out: Seq<char>, name: Seq<char>, value: Seq<char>) -> Seq<char> {
    (if out.len() == 0 {
        out
    } else {
        out + " "@
    }) + "<"@ + name + ":"@ + dec(encode_utf8(value).len()) + ">"@ + value
}

fn field(out: &mut String, name: &str, value: &str)
    ensures
        final(out)@ == with_tag(old(out)@, name@, value@),
{
    if !out.as_str().is_empty() {
        out.append(" ");
    }
    out.append("<");
    out.append(name);
    out.append(":");
    let n: usize = value.as_bytes().len();
    let d = dec_padded(n as u64, 0, ' ');
    out.append(d.as_str());
    out.append(">");
    out.append(value);
}

/// One logged contact.
#[derive(Debug, Clone, Copy)]
pub struct Qso<'a> {
    pub call: &'a str,
    /// Empty when the caller never sent one.
    pub grid: &'a str,
    /// `FT8`, `FT4`, …
    pub mode: &'a str,
    pub rst_sent: i8,
    /// `None` when their report never reached us; the field is left out.
    pub rst_rcvd: Option<i8>,
    /// UTC, Unix seconds: when we first answered, and when RR73 went.
    pub on_unix: i64,
    pub off_unix: i64,
    /// Dial frequency. `None` when it is not known; `FREQ` and `BAND` are
    /// left out.
    pub dial_hz: Option<u64>,
    pub my_call: &'a str,
    pub my_grid: &'a str,
    pub my_sota_ref: Option<&'a str>,
    pub my_pota_ref: Option<&'a str>,
}

/// What an optional report adds.
pub open spec fn with_report(out: Seq<char>, rst: Option<i8>) -> Seq<char> {
    match rst {
        Some(v) => with_tag(out, "rst_rcvd"@, report_text(v as int, 0)),
        None => out,
    }
}

/// What an optional, non-empty reference adds.
pub open spec fn with_ref(out: Seq<char>, name: Seq<char>, r: Option<&str>) -> Seq<char> {
    match r {
        Some(v) => if v@.len() > 0 {
            with_tag(out, name, v@)
        } else {
            out
        },
        None => out,
    }
}

pub open spec fn is_submode(mode: Seq<char>) -> bool {
    mode == "FT4"@ || mode == "FST4"@ || mode == "Q65"@
}

/// The mode; some are submodes of `MFSK`.
pub open spec fn with_mode(out: Seq<char>, mode: Seq<char>) -> Seq<char> {
    if is_submode(mode) {
        with_tag(with_tag(out, "mode"@, "MFSK"@), "submode"@, mode)
    } else {
        with_tag(out, "mode"@, mode)
    }
}

/// The four date and time fields.
pub open spec fn with_times(out: Seq<char>, on: int, off: int) -> Seq<char> {
    let a = civil_of(on);
    let b = civil_of(off);
    let t = with_tag(out, "qso_date"@, date_text(a));
    let t = with_tag(t, "time_on"@, time_text(a));
    let t = with_tag(t, "qso_date_off"@, date_text(b));
    with_tag(t, "time_off"@, time_text(b))
}

/// Band, where there is one, and frequency, when the dial is known.
pub open spec fn with_dial(out: Seq<char>, dial: Option<u64>) -> Seq<char> {
    match dial {
        Some(hz) => with_tag(
            match band_of(hz as int) {
                Some(band) => with_tag(out, "band"@, band),
                None => out,
            },
            "freq"@,
            mhz6(hz as nat),
        ),
        None => out,
    }
}

/// The fields of a record up to the times.
pub open spec fn record_head(q: Qso) -> Seq<char> {
    let t = with_tag(Seq::empty(), "call"@, q.call@);
    let t = with_tag(t, "gridsquare"@, q.grid@);
    let t = with_mode(t, q.mode@);
    let t = with_tag(t, "rst_sent"@, report_text(q.rst_sent as int, 0));
    let t = with_report(t, q.rst_rcvd);
    with_times(t, q.on_unix as int, q.off_unix as int)
}

/// The fields of a record after the frequency, and its end.
pub open spec fn record_tail(t: Seq<char>, q: Qso) -> Seq<char> {
    let t = with_tag(t, "station_callsign"@, q.my_call@);
    let t = if q.my_grid@.len() > 0 {
        with_tag(t, "my_gridsquare"@, q.my_grid@)
    } else {
        t
    };
    let t = with_ref(t, "my_sota_ref"@, q.my_sota_ref);
    let t = with_ref(t, "my_pota_ref"@, q.my_pota_ref);
    t + " <eor>\n"@
}

fn add_ref(out: &mut String, name: &str, r: Option<&str>)
    ensures
        final(out)@ == with_ref(old(out)@, name@, r),
{
    if let Some(v) = r {
        if !v.is_empty() {
            field(out, name, v);
        }
    }
}

fn add_head(q: &Qso) -> (t: String)
    ensures
        t@ == record_head(*q),
{
    let mut t: String = String::new();
    field(&mut t, "call", q.call);
    field(&mut t, "gridsquare", q.grid);
    let mode = chars_of(q.mode);
    if is_str(mode.as_slice(), "FT4") || is_str(mode.as_slice(), "FST4") || is_str(
        mode.as_slice(),
        "Q65",
    ) {
        field(&mut t, "mode", "MFSK");
        field(&mut t, "submode", q.mode);
    } else {
        field(&mut t, "mode", q.mode);
    }
    let sent = report(q.rst_sent);
    field(&mut t, "rst_sent", sent.as_str());
    if let Some(v) = q.rst_rcvd {
        let rcvd = report(v);
        field(&mut t, "rst_rcvd", rcvd.as_str());
    }
    let on = civil_from_unix(q.on_unix);
    let off = civil_from_unix(q.off_unix);
    let d_on = date_chars(&on);
    field(&mut t, "qso_date", d_on.as_str());
    let t_on = time_chars(&on);
    field(&mut t, "time_on", t_on.as_str());
    let d_off = date_chars(&off);
    field(&mut t, "qso_date_off", d_off.as_str());
    let t_off = time_chars(&off);
    field(&mut t, "time_off", t_off.as_str());
    t
}

/// The whole of a record.
pub open spec fn record_text(q: Qso) -> Seq<char> {
    record_tail(with_dial(record_head(q), q.dial_hz), q)
}

/// One record, `<eor>` and newline included.
pub fn record(q: &Qso) -> (r: String)
    ensures
        r@ == record_text(*q),
{
    let mut t = add_head(q);
    if let Some(hz) = q.dial_hz {
        if let Some(b) = band_for_hz(hz) {
            field(&mut t, "band", b);
        }
        let f = mhz6_text(hz);
        field(&mut t, "freq", f.as_str());
    }
    field(&mut t, "station_callsign", q.my_call);
    if !q.my_grid.is_empty() {
        field(&mut t, "my_gridsquare", q.my_grid);
    }
    add_ref(&mut t, "my_sota_ref", q.my_sota_ref);
    add_ref(&mut t, "my_pota_ref", q.my_pota_ref);
    t.append(" <eor>\n");
    t
}

/// The version that the header names.
pub const VERSION: &'static str = "0.1.0";

/// A file header.
pub open spec fn header_text(unix: int) -> Seq<char> {
    let c = civil_of(unix);
    "ADIF Export\n<adif_ver:5>3.1.4\n<created_timestamp:15>"@ + date_text(c) + " "@ + time_text(c)
        + "\n<programid:8>mfsk-app\n<programversion:"@ + dec(encode_utf8(VERSION@).len()) + ">"@
        + VERSION@ + "\n<eoh>\n"@
}

/// A new file's header.
pub fn header(created_unix: i64) -> (r: String)
    ensures
        r@ == header_text(created_unix as int),
{
    let c = civil_from_unix(created_unix);
    let mut r: String = "ADIF Export\n<adif_ver:5>3.1.4\n<created_timestamp:15>".to_owned();
    let d = date_chars(&c);
    r.append(d.as_str());
    r.append(" ");
    let t = time_chars(&c);
    r.append(t.as_str());
    r.append("\n<programid:8>mfsk-app\n<programversion:");
    let n = dec_padded(VERSION.as_bytes().len() as u64, 0, ' ');
    r.append(n.as_str());
    r.append(">");
    r.append(VERSION);
    r.append("\n<eoh>\n");
    r
}

// ── Laws ────────────────────────────────────────────────────────────────────

/// The wavelength that a band is named after, in centimetres: metres, metres
/// with two decimals, or centimetres.
pub open spec fn wavelength_cm(name: Seq<char>) -> nat {
    let n = name.len() as int;
    if n >= 3 && name[n - 2] == 'c' {
        dec_value(name.take(n - 2))
    } else if n == 5 && name[1] == '.' {
        (dec_value(name.take(1)) * 100 + dec_value(name.subrange(2, 4))) as nat
    } else {
        (dec_value(name.take(n - 1)) * 100) as nat
    }
}

proof fn lemma_digits4(s: Seq<char>)
    requires
        1 <= s.len() <= 4,
    ensures
        s.len() == 1 ==> dec_value(s) == (s[0] as u32 - 48) as nat,
        s.len() == 2 ==> dec_value(s) == (s[0] as u32 - 48) as nat * 10 + (s[1] as u32 - 48) as nat,
        s.len() == 3 ==> dec_value(s) == (s[0] as u32 - 48) as nat * 100 + (s[1] as u32
            - 48) as nat * 10 + (s[2] as u32 - 48) as nat,
        s.len() == 4 ==> dec_value(s) == (s[0] as u32 - 48) as nat * 1000 + (s[1] as u32
            - 48) as nat * 100 + (s[2] as u32 - 48) as nat * 10 + (s[3] as u32 - 48) as nat,
{
    let d = Seq::new(s.len(), |i: int| (s[i] as u32 - 48) as nat);
    reveal_with_fuel(crate::radix::value, 5);
    if s.len() == 1 {
        assert(d.drop_last() =~= Seq::<nat>::empty());
    } else if s.len() == 2 {
        assert(d.drop_last().drop_last() =~= Seq::<nat>::empty());
    } else if s.len() == 3 {
        assert(d.drop_last().drop_last().drop_last() =~= Seq::<nat>::empty());
    } else {
        assert(d.drop_last().drop_last().drop_last().drop_last() =~= Seq::<nat>::empty());
    }
}

/// A band's name fits its frequencies: the wavelength of each, the speed of
/// light over the frequency, is what the band is named after, from a tenth
/// less to a fifth more. The higher the band, the shorter the wave.
pub proof fn law_band_names_fit_their_wavelengths(k: int)
    requires
        0 <= k < bands().len(),
    ensures
        ({
            let (name, lo, hi) = bands()[k];
            let light_cm = 29_979_245_800int;
            &&& 0 < lo <= hi
            &&& 10 * wavelength_cm(name) * lo >= 9 * light_cm
            &&& 100 * wavelength_cm(name) * hi <= 121 * light_cm
            &&& k + 1 < bands().len() ==> hi < bands()[k + 1].1 && wavelength_cm(name)
                > wavelength_cm(bands()[k + 1].0)
        }),
{
    lemma_wavelength(k);
    if k + 1 < bands().len() {
        lemma_wavelength(k + 1);
    }
}

proof fn lemma_wavelength(k: int)
    requires
        0 <= k < bands().len(),
    ensures
        wavelength_cm(bands()[k].0) == (
        if k == 0 {
            219000nat
        } else if k == 1 {
            63000nat
        } else if k == 2 {
            56000nat
        } else if k == 3 {
            16000nat
        } else if k == 4 {
            8000nat
        } else if k == 5 {
            6000nat
        } else if k == 6 {
            4000nat
        } else if k == 7 {
            3000nat
        } else if k == 8 {
            2000nat
        } else if k == 9 {
            1700nat
        } else if k == 10 {
            1500nat
        } else if k == 11 {
            1200nat
        } else if k == 12 {
            1000nat
        } else if k == 13 {
            800nat
        } else if k == 14 {
            600nat
        } else if k == 15 {
            500nat
        } else if k == 16 {
            400nat
        } else if k == 17 {
            200nat
        } else if k == 18 {
            125nat
        } else if k == 19 {
            70nat
        } else {
            0
        }),
{
    if k == 0 {
        let s = "2190m"@;
        reveal_strlit("2190m");
        lemma_digits4(s.take(s.len() - 1));
    }
    if k == 1 {
        let s = "630m"@;
        reveal_strlit("630m");
        lemma_digits4(s.take(s.len() - 1));
    }
    if k == 2 {
        let s = "560m"@;
        reveal_strlit("560m");
        lemma_digits4(s.take(s.len() - 1));
    }
    if k == 3 {
        let s = "160m"@;
        reveal_strlit("160m");
        lemma_digits4(s.take(s.len() - 1));
    }
    if k == 4 {
        let s = "80m"@;
        reveal_strlit("80m");
        lemma_digits4(s.take(s.len() - 1));
    }
    if k == 5 {
        let s = "60m"@;
        reveal_strlit("60m");
        lemma_digits4(s.take(s.len() - 1));
    }
    if k == 6 {
        let s = "40m"@;
        reveal_strlit("40m");
        lemma_digits4(s.take(s.len() - 1));
    }
    if k == 7 {
        let s = "30m"@;
        reveal_strlit("30m");
        lemma_digits4(s.take(s.len() - 1));
    }
    if k == 8 {
        let s = "20m"@;
        reveal_strlit("20m");
        lemma_digits4(s.take(s.len() - 1));
    }
    if k == 9 {
        let s = "17m"@;
        reveal_strlit("17m");
        lemma_digits4(s.take(s.len() - 1));
    }
    if k == 10 {
        let s = "15m"@;
        reveal_strlit("15m");
        lemma_digits4(s.take(s.len() - 1));
    }
    if k == 11 {
        let s = "12m"@;
        reveal_strlit("12m");
        lemma_digits4(s.take(s.len() - 1));
    }
    if k == 12 {
        let s = "10m"@;
        reveal_strlit("10m");
        lemma_digits4(s.take(s.len() - 1));
    }
    if k == 13 {
        let s = "8m"@;
        reveal_strlit("8m");
        lemma_digits4(s.take(s.len() - 1));
    }
    if k == 14 {
        let s = "6m"@;
        reveal_strlit("6m");
        lemma_digits4(s.take(s.len() - 1));
    }
    if k == 15 {
        let s = "5m"@;
        reveal_strlit("5m");
        lemma_digits4(s.take(s.len() - 1));
    }
    if k == 16 {
        let s = "4m"@;
        reveal_strlit("4m");
        lemma_digits4(s.take(s.len() - 1));
    }
    if k == 17 {
        let s = "2m"@;
        reveal_strlit("2m");
        lemma_digits4(s.take(s.len() - 1));
    }
    if k == 18 {
        let s = "1.25m"@;
        reveal_strlit("1.25m");
        lemma_digits4(s.take(1));
        lemma_digits4(s.subrange(2, 4));
    }
    if k == 19 {
        let s = "70cm"@;
        reveal_strlit("70cm");
        lemma_digits4(s.take(s.len() - 2));
    }
}

/// The band of every frequency, by its edges.
pub proof fn law_bands_by_their_edges(hz: int)
    ensures
        135_700 <= hz <= 137_800 ==> band_of(hz) == Some("2190m"@),
        472_000 <= hz <= 479_000 ==> band_of(hz) == Some("630m"@),
        501_000 <= hz <= 504_000 ==> band_of(hz) == Some("560m"@),
        1_800_000 <= hz <= 2_000_000 ==> band_of(hz) == Some("160m"@),
        3_500_000 <= hz <= 4_000_000 ==> band_of(hz) == Some("80m"@),
        5_060_000 <= hz <= 5_450_000 ==> band_of(hz) == Some("60m"@),
        7_000_000 <= hz <= 7_300_000 ==> band_of(hz) == Some("40m"@),
        10_100_000 <= hz <= 10_150_000 ==> band_of(hz) == Some("30m"@),
        14_000_000 <= hz <= 14_350_000 ==> band_of(hz) == Some("20m"@),
        18_068_000 <= hz <= 18_168_000 ==> band_of(hz) == Some("17m"@),
        21_000_000 <= hz <= 21_450_000 ==> band_of(hz) == Some("15m"@),
        24_890_000 <= hz <= 24_990_000 ==> band_of(hz) == Some("12m"@),
        28_000_000 <= hz <= 29_700_000 ==> band_of(hz) == Some("10m"@),
        40_000_000 <= hz <= 45_000_000 ==> band_of(hz) == Some("8m"@),
        50_000_000 <= hz <= 54_000_000 ==> band_of(hz) == Some("6m"@),
        54_000_001 <= hz <= 69_900_000 ==> band_of(hz) == Some("5m"@),
        70_000_000 <= hz <= 71_000_000 ==> band_of(hz) == Some("4m"@),
        144_000_000 <= hz <= 148_000_000 ==> band_of(hz) == Some("2m"@),
        222_000_000 <= hz <= 225_000_000 ==> band_of(hz) == Some("1.25m"@),
        420_000_000 <= hz <= 450_000_000 ==> band_of(hz) == Some("70cm"@),
        (hz < 135_700) || (137_800 < hz < 472_000) || (479_000 < hz < 501_000) || (504_000 < hz < 1_800_000) || (2_000_000 < hz < 3_500_000) || (4_000_000 < hz < 5_060_000) || (5_450_000 < hz < 7_000_000) || (7_300_000 < hz < 10_100_000) || (10_150_000 < hz < 14_000_000) || (14_350_000 < hz < 18_068_000) || (18_168_000 < hz < 21_000_000) || (21_450_000 < hz < 24_890_000) || (24_990_000 < hz < 28_000_000) || (29_700_000 < hz < 40_000_000) || (45_000_000 < hz < 50_000_000) || (69_900_000 < hz < 70_000_000) || (71_000_000 < hz < 144_000_000) || (148_000_000 < hz < 222_000_000) || (225_000_000 < hz < 420_000_000) || (hz > 450_000_000) ==> band_of(hz) is None,
{
    if 135_700 <= hz <= 137_800 {
        assert(in_band(hz, 0));
        lemma_band(hz, 0);
    }
    if 472_000 <= hz <= 479_000 {
        assert(in_band(hz, 1));
        lemma_band(hz, 1);
    }
    if 501_000 <= hz <= 504_000 {
        assert(in_band(hz, 2));
        lemma_band(hz, 2);
    }
    if 1_800_000 <= hz <= 2_000_000 {
        assert(in_band(hz, 3));
        lemma_band(hz, 3);
    }
    if 3_500_000 <= hz <= 4_000_000 {
        assert(in_band(hz, 4));
        lemma_band(hz, 4);
    }
    if 5_060_000 <= hz <= 5_450_000 {
        assert(in_band(hz, 5));
        lemma_band(hz, 5);
    }
    if 7_000_000 <= hz <= 7_300_000 {
        assert(in_band(hz, 6));
        lemma_band(hz, 6);
    }
    if 10_100_000 <= hz <= 10_150_000 {
        assert(in_band(hz, 7));
        lemma_band(hz, 7);
    }
    if 14_000_000 <= hz <= 14_350_000 {
        assert(in_band(hz, 8));
        lemma_band(hz, 8);
    }
    if 18_068_000 <= hz <= 18_168_000 {
        assert(in_band(hz, 9));
        lemma_band(hz, 9);
    }
    if 21_000_000 <= hz <= 21_450_000 {
        assert(in_band(hz, 10));
        lemma_band(hz, 10);
    }
    if 24_890_000 <= hz <= 24_990_000 {
        assert(in_band(hz, 11));
        lemma_band(hz, 11);
    }
    if 28_000_000 <= hz <= 29_700_000 {
        assert(in_band(hz, 12));
        lemma_band(hz, 12);
    }
    if 40_000_000 <= hz <= 45_000_000 {
        assert(in_band(hz, 13));
        lemma_band(hz, 13);
    }
    if 50_000_000 <= hz <= 54_000_000 {
        assert(in_band(hz, 14));
        lemma_band(hz, 14);
    }
    if 54_000_001 <= hz <= 69_900_000 {
        assert(in_band(hz, 15));
        lemma_band(hz, 15);
    }
    if 70_000_000 <= hz <= 71_000_000 {
        assert(in_band(hz, 16));
        lemma_band(hz, 16);
    }
    if 144_000_000 <= hz <= 148_000_000 {
        assert(in_band(hz, 17));
        lemma_band(hz, 17);
    }
    if 222_000_000 <= hz <= 225_000_000 {
        assert(in_band(hz, 18));
        lemma_band(hz, 18);
    }
    if 420_000_000 <= hz <= 450_000_000 {
        assert(in_band(hz, 19));
        lemma_band(hz, 19);
    }
}

/// One field of a record: its name, the length of its value in bytes, and the
/// value.
pub open spec fn tagged(name: Seq<char>, value: Seq<char>) -> Seq<char> {
    seq!['<'] + name + seq![':'] + dec(encode_utf8(value).len()) + seq!['>'] + value
}

/// `t` begins with `s`.
pub open spec fn goes_on(s: Seq<char>, t: Seq<char>) -> bool {
    s.len() <= t.len() && t.take(s.len() as int) == s
}

proof fn lemma_tag(out: Seq<char>, name: Seq<char>, value: Seq<char>)
    ensures
        goes_on(out, with_tag(out, name, value)),
        contains_text(with_tag(out, name, value), tagged(name, value)),
{
    reveal_strlit(" ");
    reveal_strlit("<");
    reveal_strlit(":");
    reveal_strlit(">");
    assert("<"@ =~= seq!['<']);
    assert(":"@ =~= seq![':']);
    assert(">"@ =~= seq!['>']);
    let head = if out.len() == 0 {
        out
    } else {
        out + " "@
    };
    let t = with_tag(out, name, value);
    let f = tagged(name, value);
    assert(t =~= head + f);
    assert(t.take(out.len() as int) =~= out);
    let a = head.len() as int;
    assert(t.subrange(a, a + f.len()) =~= f);
}

proof fn lemma_goes_on(s: Seq<char>, t: Seq<char>, f: Seq<char>)
    requires
        goes_on(s, t),
        contains_text(s, f),
    ensures
        contains_text(t, f),
{
    let a = choose|i: int|
        0 <= i <= s.len() - f.len() && #[trigger] s.subrange(i, i + f.len()) == f;
    assert(t.subrange(a, a + f.len()) =~= f) by {
        assert forall|i: int| 0 <= i < f.len() implies t.subrange(a, a + f.len())[i] == f[i] by {
            assert(t.take(s.len() as int)[a + i] == s[a + i]);
            assert(s.subrange(a, a + f.len())[i] == f[i]);
        }
    }
}

proof fn lemma_chain(a: Seq<char>, b: Seq<char>, c: Seq<char>)
    requires
        goes_on(a, b),
        goes_on(b, c),
    ensures
        goes_on(a, c),
{
    assert(c.take(a.len() as int) =~= a) by {
        assert forall|i: int| 0 <= i < a.len() implies c.take(a.len() as int)[i] == a[i] by {
            assert(c.take(b.len() as int)[i] == b[i]);
            assert(b.take(a.len() as int)[i] == a[i]);
        }
    }
}

/// The fields of a record up to the times say who was worked, how, and when:
/// the date and the time of the beginning, and those of the end.
#[verifier::spinoff_prover]
pub proof fn law_a_record_says_who_and_when(q: Qso)
    ensures
        ({
            let t = record_head(q);
            &&& contains_text(t, tagged("call"@, q.call@))
            &&& contains_text(t, tagged("gridsquare"@, q.grid@))
            &&& is_submode(q.mode@) ==> contains_text(t, tagged("mode"@, "MFSK"@))
                && contains_text(t, tagged("submode"@, q.mode@))
            &&& !is_submode(q.mode@) ==> contains_text(t, tagged("mode"@, q.mode@))
            &&& contains_text(t, tagged("rst_sent"@, report_text(q.rst_sent as int, 0)))
            &&& q.rst_rcvd is Some ==> contains_text(
                t,
                tagged("rst_rcvd"@, report_text(q.rst_rcvd->0 as int, 0)),
            )
            &&& contains_text(t, tagged("qso_date"@, date_text(civil_of(q.on_unix as int))))
            &&& contains_text(t, tagged("time_on"@, time_text(civil_of(q.on_unix as int))))
            &&& contains_text(t, tagged("qso_date_off"@, date_text(civil_of(q.off_unix as int))))
            &&& contains_text(t, tagged("time_off"@, time_text(civil_of(q.off_unix as int))))
        }),
{
    let e = Seq::<char>::empty();
    let t1 = with_tag(e, "call"@, q.call@);
    lemma_tag(e, "call"@, q.call@);
    let t2 = with_tag(t1, "gridsquare"@, q.grid@);
    lemma_tag(t1, "gridsquare"@, q.grid@);
    let t3 = with_mode(t2, q.mode@);
    lemma_mode(t2, q.mode@);
    let t4 = with_tag(t3, "rst_sent"@, report_text(q.rst_sent as int, 0));
    lemma_tag(t3, "rst_sent"@, report_text(q.rst_sent as int, 0));
    let t5 = with_report(t4, q.rst_rcvd);
    if q.rst_rcvd is Some {
        lemma_tag(t4, "rst_rcvd"@, report_text(q.rst_rcvd->0 as int, 0));
    } else {
        assert(t4.take(t4.len() as int) =~= t4);
    }
    let (a, b) = (civil_of(q.on_unix as int), civil_of(q.off_unix as int));
    let t6 = with_tag(t5, "qso_date"@, date_text(a));
    lemma_tag(t5, "qso_date"@, date_text(a));
    let t7 = with_tag(t6, "time_on"@, time_text(a));
    lemma_tag(t6, "time_on"@, time_text(a));
    let t8 = with_tag(t7, "qso_date_off"@, date_text(b));
    lemma_tag(t7, "qso_date_off"@, date_text(b));
    let t9 = with_tag(t8, "time_off"@, time_text(b));
    lemma_tag(t8, "time_off"@, time_text(b));
    lemma_chain(t7, t8, t9);
    lemma_chain(t6, t7, t9);
    lemma_chain(t5, t6, t9);
    lemma_chain(t4, t5, t9);
    lemma_chain(t3, t4, t9);
    lemma_chain(t2, t3, t9);
    lemma_chain(t1, t2, t9);
    lemma_goes_on(t1, t9, tagged("call"@, q.call@));
    lemma_goes_on(t2, t9, tagged("gridsquare"@, q.grid@));
    if is_submode(q.mode@) {
        lemma_goes_on(t3, t9, tagged("mode"@, "MFSK"@));
        lemma_goes_on(t3, t9, tagged("submode"@, q.mode@));
    } else {
        lemma_goes_on(t3, t9, tagged("mode"@, q.mode@));
    }
    lemma_goes_on(t4, t9, tagged("rst_sent"@, report_text(q.rst_sent as int, 0)));
    if q.rst_rcvd is Some {
        lemma_goes_on(t5, t9, tagged("rst_rcvd"@, report_text(q.rst_rcvd->0 as int, 0)));
    }
    lemma_goes_on(t6, t9, tagged("qso_date"@, date_text(a)));
    lemma_goes_on(t7, t9, tagged("time_on"@, time_text(a)));
    lemma_goes_on(t8, t9, tagged("qso_date_off"@, date_text(b)));
}

proof fn lemma_mode(out: Seq<char>, mode: Seq<char>)
    ensures
        goes_on(out, with_mode(out, mode)),
        is_submode(mode) ==> contains_text(with_mode(out, mode), tagged("submode"@, mode))
            && contains_text(with_mode(out, mode), tagged("mode"@, "MFSK"@)),
        !is_submode(mode) ==> contains_text(with_mode(out, mode), tagged("mode"@, mode)),
{
    if is_submode(mode) {
        let t = with_tag(out, "mode"@, "MFSK"@);
        lemma_tag(out, "mode"@, "MFSK"@);
        lemma_tag(t, "submode"@, mode);
        lemma_chain(out, t, with_tag(t, "submode"@, mode));
        lemma_goes_on(t, with_tag(t, "submode"@, mode), tagged("mode"@, "MFSK"@));
    } else {
        lemma_tag(out, "mode"@, mode);
    }
}

proof fn lemma_same_goes_on(s: Seq<char>)
    ensures
        goes_on(s, s),
{
    assert(s.take(s.len() as int) =~= s);
}

proof fn lemma_dial(h: Seq<char>, dial_hz: Option<u64>)
    ensures
        ({
            let d = with_dial(h, dial_hz);
            &&& goes_on(h, d)
            &&& dial_hz is Some ==> contains_text(d, tagged("freq"@, mhz6(dial_hz->0 as nat)))
            &&& dial_hz is Some && band_of(dial_hz->0 as int) is Some ==> contains_text(
                d,
                tagged("band"@, band_of(dial_hz->0 as int)->0),
            )
        }),
{
    lemma_same_goes_on(h);
    if dial_hz is Some {
        let hz = dial_hz->0;
        let d = with_dial(h, dial_hz);
        let b = match band_of(hz as int) {
            Some(band) => with_tag(h, "band"@, band),
            None => h,
        };
        if band_of(hz as int) is Some {
            lemma_tag(h, "band"@, band_of(hz as int)->0);
        }
        lemma_tag(b, "freq"@, mhz6(hz as nat));
        lemma_chain(h, b, d);
        if band_of(hz as int) is Some {
            lemma_goes_on(b, d, tagged("band"@, band_of(hz as int)->0));
        }
    }
}

proof fn lemma_ref(out: Seq<char>, name: Seq<char>, r: Option<&str>)
    ensures
        goes_on(out, with_ref(out, name, r)),
        r is Some && r->0@.len() > 0 ==> contains_text(
            with_ref(out, name, r),
            tagged(name, r->0@),
        ),
{
    lemma_same_goes_on(out);
    if r is Some {
        lemma_tag(out, name, r->0@);
    }
}

/// The rest of a record says on which band, on what frequency, and for whom;
/// all that came before stands before it.
#[verifier::spinoff_prover]
pub proof fn law_a_record_says_where_and_for_whom(q: Qso)
    ensures
        ({
            let t = record_text(q);
            &&& goes_on(record_head(q), t)
            &&& q.dial_hz is Some ==> contains_text(t, tagged("freq"@, mhz6(q.dial_hz->0 as nat)))
            &&& q.dial_hz is Some && band_of(q.dial_hz->0 as int) is Some ==> contains_text(
                t,
                tagged("band"@, band_of(q.dial_hz->0 as int)->0),
            )
            &&& contains_text(t, tagged("station_callsign"@, q.my_call@))
            &&& q.my_grid@.len() > 0 ==> contains_text(t, tagged("my_gridsquare"@, q.my_grid@))
            &&& q.my_sota_ref is Some && q.my_sota_ref->0@.len() > 0 ==> contains_text(
                t,
                tagged("my_sota_ref"@, q.my_sota_ref->0@),
            )
            &&& q.my_pota_ref is Some && q.my_pota_ref->0@.len() > 0 ==> contains_text(
                t,
                tagged("my_pota_ref"@, q.my_pota_ref->0@),
            )
        }),
{
    let h = record_head(q);
    let d = with_dial(h, q.dial_hz);
    lemma_dial(h, q.dial_hz);
    let t1 = with_tag(d, "station_callsign"@, q.my_call@);
    lemma_tag(d, "station_callsign"@, q.my_call@);
    let t2 = if q.my_grid@.len() > 0 {
        with_tag(t1, "my_gridsquare"@, q.my_grid@)
    } else {
        t1
    };
    lemma_tag(t1, "my_gridsquare"@, q.my_grid@);
    lemma_same_goes_on(t1);
    let t3 = with_ref(t2, "my_sota_ref"@, q.my_sota_ref);
    lemma_ref(t2, "my_sota_ref"@, q.my_sota_ref);
    let t4 = with_ref(t3, "my_pota_ref"@, q.my_pota_ref);
    lemma_ref(t3, "my_pota_ref"@, q.my_pota_ref);
    let t = record_text(q);
    assert(t == t4 + " <eor>\n"@);
    assert(t.take(t4.len() as int) =~= t4);
    lemma_chain(t3, t4, t);
    lemma_chain(t2, t3, t);
    lemma_chain(t1, t2, t);
    lemma_chain(d, t1, t);
    lemma_chain(h, d, t);
    if q.dial_hz is Some {
        lemma_goes_on(d, t, tagged("freq"@, mhz6(q.dial_hz->0 as nat)));
        if band_of(q.dial_hz->0 as int) is Some {
            lemma_goes_on(d, t, tagged("band"@, band_of(q.dial_hz->0 as int)->0));
        }
    }
    lemma_goes_on(t1, t, tagged("station_callsign"@, q.my_call@));
    if q.my_grid@.len() > 0 {
        lemma_goes_on(t2, t, tagged("my_gridsquare"@, q.my_grid@));
    }
    if q.my_sota_ref is Some && q.my_sota_ref->0@.len() > 0 {
        lemma_goes_on(t3, t, tagged("my_sota_ref"@, q.my_sota_ref->0@));
    }
    if q.my_pota_ref is Some && q.my_pota_ref->0@.len() > 0 {
        lemma_goes_on(t4, t, tagged("my_pota_ref"@, q.my_pota_ref->0@));
    }
}

/// A padded number is at least as wide as asked, with its sign in front, and
/// is read as that number.
pub proof fn law_padded_numbers_keep_their_value(n: int, w: nat)
    ensures
        zero_padded(n, w).len() >= w,
        n >= 0 ==> dec_value(zero_padded(n, w)) == n,
        n < 0 ==> zero_padded(n, w)[0] == '-' && dec_value(zero_padded(n, w).skip(1)) == -n,
        n >= 0 && dec(n as nat).len() <= w ==> zero_padded(n, w).len() == w,
        n < 0 && dec((-n) as nat).len() < w ==> zero_padded(n, w).len() == w,
        n >= 0 && dec(n as nat).len() >= w ==> zero_padded(n, w) == dec(n as nat),
        n < 0 && dec((-n) as nat).len() + 1 >= w ==> zero_padded(n, w) == seq!['-'] + dec(
            (-n) as nat,
        ),
{
    reveal_strlit("-");
    assert("-"@ =~= seq!['-']);
    if n < 0 {
        let v = (if w > 0 {
            w - 1
        } else {
            0
        }) as nat;
        let d = pad_left(dec((-n) as nat), v, '0');
        law_zeros_in_front_do_not_count((-n) as nat, v);
        assert(("-"@ + d).skip(1) =~= d);
    } else {
        law_zeros_in_front_do_not_count(n as nat, w);
    }
}

/// A date is written as year, month and day, four figures, two and two; a
/// time as hour, minute and second, two figures each.
pub proof fn law_dates_and_times_have_their_places(c: Civil)
    requires
        0 <= c.year <= 9999,
        c.month < 100,
        c.day < 100,
        c.hour < 100,
        c.minute < 100,
        c.second < 100,
    ensures
        date_text(c).len() == 8,
        dec_value(date_text(c).take(4)) == c.year,
        dec_value(date_text(c).subrange(4, 6)) == c.month,
        dec_value(date_text(c).skip(6)) == c.day,
        time_text(c).len() == 6,
        dec_value(time_text(c).take(2)) == c.hour,
        dec_value(time_text(c).subrange(2, 4)) == c.minute,
        dec_value(time_text(c).skip(4)) == c.second,
{
    lemma_figures(c.year as nat, 4);
    lemma_figures(c.month as nat, 2);
    lemma_figures(c.day as nat, 2);
    lemma_figures(c.hour as nat, 2);
    lemma_figures(c.minute as nat, 2);
    lemma_figures(c.second as nat, 2);
    let (y, m, d) = (
        pad_left(dec(c.year as nat), 4, '0'),
        pad_left(dec(c.month as nat), 2, '0'),
        pad_left(dec(c.day as nat), 2, '0'),
    );
    assert(date_text(c).take(4) =~= y);
    assert(date_text(c).subrange(4, 6) =~= m);
    assert(date_text(c).skip(6) =~= d);
    let (h, n, s) = (
        pad_left(dec(c.hour as nat), 2, '0'),
        pad_left(dec(c.minute as nat), 2, '0'),
        pad_left(dec(c.second as nat), 2, '0'),
    );
    assert(time_text(c).take(2) =~= h);
    assert(time_text(c).subrange(2, 4) =~= n);
    assert(time_text(c).skip(4) =~= s);
}

proof fn lemma_figures(n: nat, w: nat)
    requires
        w == 2 && n < 100 || w == 4 && n < 10_000,
    ensures
        pad_left(dec(n), w, '0').len() == w,
        dec_value(pad_left(dec(n), w, '0')) == n,
{
    law_zeros_in_front_do_not_count(n, w);
    reveal_with_fuel(dec, 5);
}

}
