//! `ALL.TXT` lines: every decode, and every transmission, one line each.
//!
//! ```text
//! 260922_101500    14.074 Rx FT8    -12  0.3 1234 CQ JA1ABC PM95
//! 260922_101515    14.074 Tx FT8      0  0.0 1500 JA1ABC JL1NIE/P -12
//! ```
//!
//! An unknown dial frequency is written `0.000`.

use crate::station::civil_time::civil_from_unix;
use crate::station::civil_time::civil_of;
use crate::station::adif::time_chars;
use crate::station::adif::time_text;
use crate::station::megahertz::{decimal_mhz, mhz_in};
use crate::station::megahertz::mhz_decimal;
use crate::text::{
    chars_of, dec_padded, padded_left, padded_right, signed_dec_of, string_of, trimmed_end,
};
use crate::text::{
    dec, dec_value, law_zeros_in_front_do_not_count, pad_left, pad_right, signed_dec, trim_end,
};
use vstd::prelude::*;

verus! {

// ── Lines ───────────────────────────────────────────────────────────────────

/// Megahertz with three decimals, ten wide.
pub open spec fn mhz_text(dial_hz: Option<u64>) -> Seq<char> {
    pad_left(
        decimal_mhz(
            match dial_hz {
                Some(hz) => hz as nat,
                None => 0,
            },
            1000,
            3,
        ),
        10,
        ' ',
    )
}

fn mhz_chars(dial_hz: Option<u64>) -> (r: String)
    ensures
        r@ == mhz_text(dial_hz),
{
    let hz: u64 = match dial_hz {
        Some(hz) => hz,
        None => 0,
    };
    let d = mhz_decimal(hz, 1000, 3);
    padded_left(d.as_slice(), 10, ' ')
}

/// The part of a line before the numbers.
pub open spec fn prefix_text(
    unix: int,
    dial_hz: Option<u64>,
    dir: Seq<char>,
    mode: Seq<char>,
) -> Seq<char> {
    let c = civil_of(unix);
    pad_left(dec((c.year as int % 100) as nat), 2, '0') + pad_left(dec(c.month as nat), 2, '0')
        + pad_left(dec(c.day as nat), 2, '0') + "_"@ + time_text(c) + mhz_text(dial_hz) + " "@ + dir
        + " "@ + pad_right(mode, 6)
}

fn prefix(unix: i64, dial_hz: Option<u64>, dir: &str, mode: &str) -> (r: String)
    ensures
        r@ == prefix_text(unix as int, dial_hz, dir@, mode@),
{
    let c = civil_from_unix(unix);
    proof {
        let y = c.year as int;
        assert(0 <= y % 100 < 100);
    }
    let yy: i64 = c.year.checked_rem_euclid(100).unwrap();
    let mut r = dec_padded(yy as u64, 2, '0');
    let m = dec_padded(c.month as u64, 2, '0');
    r.append(m.as_str());
    let d = dec_padded(c.day as u64, 2, '0');
    r.append(d.as_str());
    r.append("_");
    let t = time_chars(&c);
    r.append(t.as_str());
    let f = mhz_chars(dial_hz);
    r.append(f.as_str());
    r.append(" ");
    r.append(dir);
    r.append(" ");
    let mc = chars_of(mode);
    let mp = padded_right(mc.as_slice(), 6);
    r.append(mp.as_str());
    r
}

/// A line without the white space at its end, and the newline.
fn finish(s: String) -> (r: String)
    ensures
        r@ == trim_end(s@) + "\n"@,
{
    let c = chars_of(s.as_str());
    let t = trimmed_end(c.as_slice());
    let mut r = string_of(t.as_slice());
    r.append("\n");
    r
}

/// A signed number, right-aligned.
fn right_aligned(n: i32, w: usize) -> (r: String)
    ensures
        r@ == pad_left(signed_dec(n as int), w as nat, ' '),
{
    let d = signed_dec_of(n as i64);
    padded_left(d.as_slice(), w, ' ')
}

/// A decode heard in the slot that began at `slot_unix`. `dt` is the time
/// offset in seconds, written with one decimal.
pub fn rx_line(
    slot_unix: i64,
    dial_hz: Option<u64>,
    mode: &str,
    snr_db: i32,
    dt: &str,
    df_hz: i32,
    msg: &str,
) -> (r: String)
    ensures
        r@ == trim_end(
            prefix_text(slot_unix as int, dial_hz, "Rx"@, mode@) + pad_left(
                signed_dec(snr_db as int),
                4,
                ' ',
            ) + pad_left(dt@, 5, ' ') + pad_left(signed_dec(df_hz as int), 5, ' ') + " "@ + msg@,
        ) + "\n"@,
{
    let mut s = prefix(slot_unix, dial_hz, "Rx", mode);
    let n = right_aligned(snr_db, 4);
    s.append(n.as_str());
    let dc = chars_of(dt);
    let d = padded_left(dc.as_slice(), 5, ' ');
    s.append(d.as_str());
    let f = right_aligned(df_hz, 5);
    s.append(f.as_str());
    s.append(" ");
    s.append(msg);
    finish(s)
}

/// A transmission beginning at `unix`, at audio offset `df_hz`.
pub fn tx_line(unix: i64, dial_hz: Option<u64>, mode: &str, df_hz: i32, msg: &str) -> (r: String)
    ensures
        r@ == trim_end(
            prefix_text(unix as int, dial_hz, "Tx"@, mode@) + "   0  0.0"@ + pad_left(
                signed_dec(df_hz as int),
                5,
                ' ',
            ) + " "@ + msg@,
        ) + "\n"@,
{
    let mut s = prefix(unix, dial_hz, "Tx", mode);
    s.append("   0  0.0");
    let f = right_aligned(df_hz, 5);
    s.append(f.as_str());
    s.append(" ");
    s.append(msg);
    finish(s)
}

/// A line begins with its date in six figures, the last two of the year
/// first, and its time in six behind a `_`; then the dial in megahertz, ten
/// wide, the direction, and the mode, six wide.
pub proof fn law_a_line_begins_with_its_time(
    unix: int,
    dial_hz: Option<u64>,
    dir: Seq<char>,
    mode: Seq<char>,
)
    requires
        civil_of(unix).month < 100,
        civil_of(unix).day < 100,
        civil_of(unix).hour < 100,
        civil_of(unix).minute < 100,
        civil_of(unix).second < 100,
    ensures
        ({
            let c = civil_of(unix);
            let t = prefix_text(unix, dial_hz, dir, mode);
            &&& t.len() >= 13
            &&& dec_value(t.take(2)) == c.year as int % 100
            &&& dec_value(t.subrange(2, 4)) == c.month
            &&& dec_value(t.subrange(4, 6)) == c.day
            &&& t[6] == '_'
            &&& t.subrange(7, 13) == time_text(c)
            &&& t.skip(13) == mhz_text(dial_hz) + seq![' '] + dir + seq![' '] + pad_right(mode, 6)
        }),
{
    reveal_strlit("_");
    reveal_strlit(" ");
    assert(" "@ =~= seq![' ']);
    let c = civil_of(unix);
    let t = prefix_text(unix, dial_hz, dir, mode);
    let y = (c.year as int % 100) as nat;
    lemma_two_figures(y);
    lemma_two_figures(c.month as nat);
    lemma_two_figures(c.day as nat);
    lemma_two_figures(c.hour as nat);
    lemma_two_figures(c.minute as nat);
    lemma_two_figures(c.second as nat);
    assert(t.take(2) =~= pad_left(dec(y), 2, '0'));
    assert(t.subrange(2, 4) =~= pad_left(dec(c.month as nat), 2, '0'));
    assert(t.subrange(4, 6) =~= pad_left(dec(c.day as nat), 2, '0'));
    assert(time_text(c).len() == 6);
    assert(t.subrange(7, 13) =~= time_text(c));
    assert(t.skip(13) =~= mhz_text(dial_hz) + seq![' '] + dir + seq![' '] + pad_right(mode, 6));
}

proof fn lemma_two_figures(n: nat)
    requires
        n < 100,
    ensures
        pad_left(dec(n), 2, '0').len() == 2,
        dec_value(pad_left(dec(n), 2, '0')) == n,
{
    law_zeros_in_front_do_not_count(n, 2);
    reveal_with_fuel(dec, 3);
}

/// A dial that is not known is written as one of 0 Hz; every dial is at
/// least ten wide, with its point before the last three figures.
pub proof fn law_an_unknown_dial_is_zero(dial_hz: Option<u64>)
    ensures
        mhz_text(None) == mhz_text(Some(0)),
        mhz_text(dial_hz).len() >= 10,
        mhz_text(dial_hz)[mhz_text(dial_hz).len() - 4] == '.',
{
    let hz: nat = match dial_hz {
        Some(hz) => hz as nat,
        None => 0,
    };
    let t = mhz_in(hz, 1000);
    let p = pad_left(dec(t % 1000), 3, '0');
    reveal_with_fuel(dec, 4);
    assert(p.len() == 3);
}

}
