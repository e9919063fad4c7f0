//! The 77-bit message, unpacked.
//!
//! The kinds that are read:
//! - `0.0` free text, `0.1` DXpedition, `0.3`/`0.4` ARRL Field Day,
//!   `0.5` telemetry, `0.6` WSPR;
//! - `1` standard, `2` standard with `/P`;
//! - `3` ARRL RTTY Roundup;
//! - `4` one non-standard call and one hashed call.
//!
//! A hashed callsign reads `<CALL>` when the table knows it and `<...>`
//! when it does not.

use crate::alphabet::{char10, char27, char36, char38, char42, letter_at};
use crate::alphabet::{chr10, chr27, chr36, chr38, chr42, letter};
use crate::bits::field;
use crate::bits::{read_bits, read_bits_wide};
use crate::msg::callsign::is_standard_callsign;
use crate::msg::callsign::standard_call;
use crate::msg::hash_table::CallsignHashTable;
use crate::msg::hash_table::{find10, find12, find22, table_empty, table_insert, TableView};
use crate::radix::digits;
use crate::text::{chars_of, dec_padded, has_prefix, string_of, trimmed};
use crate::text::{dec, pad_left, starts_with, trim};
use vstd::prelude::*;

verus! {

/// Tokens below this are words and CQ forms; 22-bit hashes follow.
pub const NTOKENS: u32 = 2_063_592;

/// Number of 22-bit hashes.
pub const MAX22: u32 = 4_194_304;

/// Grid field values up to this are locators; reports follow.
pub const MAX_GRID4: u32 = 32_400;

// ── Reports and callsign tokens ─────────────────────────────────────────────

/// A signal report: an optional `R`, the sign, and at least two digits.
pub open spec fn report_text(isnr: int, ir: int) -> Seq<char> {
    (if ir == 1 {
        "R"@
    } else {
        ""@
    }) + (if isnr >= 0 {
        "+"@
    } else {
        "-"@
    }) + pad_left(
        dec(if isnr >= 0 {
            isnr as nat
        } else {
            (-isnr) as nat
        }),
        2,
        '0',
    )
}

/// Render a signal report. Both signs come out with two digits: `-08`, `+08`.
pub fn fmt_report(isnr: i32, ir: u8) -> (r: String)
    requires
        isnr > i32::MIN,
    ensures
        r@ == report_text(isnr as int, ir as int),
{
    let mut r: String = if ir == 1 {
        "R".to_owned()
    } else {
        "".to_owned()
    };
    let n: u64 = if isnr >= 0 {
        isnr as u64
    } else {
        (-isnr) as u64
    };
    r.append(if isnr >= 0 {
        "+"
    } else {
        "-"
    });
    let d = dec_padded(n, 2, '0');
    r.append(d.as_str());
    r
}

/// Four places of the directional CQ, untrimmed.
pub open spec fn direction(m: nat) -> Seq<char> {
    seq![chr27(m / 19683), chr27(m / 729 % 27), chr27(m / 27 % 27), chr27(m % 27)]
}

/// The six places of a standard callsign, untrimmed.
pub open spec fn call6(m: nat) -> Seq<char> {
    seq![
        chr38(m / 7085880),
        chr36(m / 196830 % 36),
        chr10(m / 19683 % 10),
        chr27(m / 729 % 27),
        chr27(m / 27 % 27),
        chr27(m % 27),
    ]
}

/// What a 28-bit token says, when no hash is known.
pub open spec fn token(n: nat) -> Seq<char> {
    if n == 0 {
        "DE"@
    } else if n == 1 {
        "QRZ"@
    } else if n == 2 {
        "CQ"@
    } else if n <= 1002 {
        "CQ "@ + pad_left(dec((n - 3) as nat), 3, '0')
    } else if n < NTOKENS {
        if (n - 1003) / 19683 >= 27 {
            "<?>"@
        } else {
            "CQ "@ + trim(direction((n - 1003) as nat))
        }
    } else if n < NTOKENS + MAX22 {
        "<...>"@
    } else if (n - NTOKENS - MAX22) / 7085880 >= 37 {
        "?????"@
    } else {
        trim(call6((n - NTOKENS - MAX22) as nat))
    }
}

/// What a 28-bit token says, with a table of hashes at hand.
pub open spec fn token_with(n: nat, t: TableView) -> Seq<char> {
    if NTOKENS <= n < NTOKENS + MAX22 {
        match find22(t, (n - NTOKENS) as u32) {
            Some(call) => "<"@ + call + ">"@,
            None => "<...>"@,
        }
    } else {
        token(n)
    }
}

/// Decode a 28-bit callsign token: a callsign, `DE`, `QRZ`, `CQ`, `CQ NNN`,
/// `CQ XXXX`, or `<...>` for a 22-bit hash.
pub fn unpack28(n28: u32) -> (r: String)
    ensures
        r@ == token(n28 as nat),
{
    if n28 < NTOKENS {
        if n28 == 0 {
            return "DE".to_owned();
        } else if n28 == 1 {
            return "QRZ".to_owned();
        } else if n28 == 2 {
            return "CQ".to_owned();
        }
        let mut r: String = "CQ ".to_owned();
        if n28 <= 1002 {
            let d = dec_padded((n28 - 3) as u64, 3, '0');
            r.append(d.as_str());
            return r;
        }
        let m: u32 = n28 - 1003;
        let i1: u32 = m / 19683;
        if i1 >= 27 {
            return "<?>".to_owned();
        }
        let places: [char; 4] = [
            char27(i1),
            char27(m / 729 % 27),
            char27(m / 27 % 27),
            char27(m % 27),
        ];
        assert(places@ =~= direction(m as nat));
        let t = trimmed(places.as_slice());
        let s = string_of(t.as_slice());
        r.append(s.as_str());
        return r;
    }
    let n: u32 = n28 - NTOKENS;
    if n < MAX22 {
        return "<...>".to_owned();
    }
    let m: u32 = n - MAX22;
    let i1: u32 = m / 7085880;
    if i1 >= 37 {
        return "?????".to_owned();
    }
    let places: [char; 6] = [
        char38(i1),
        char36(m / 196830 % 36),
        char10(m / 19683 % 10),
        char27(m / 729 % 27),
        char27(m / 27 % 27),
        char27(m % 27),
    ];
    assert(places@ =~= call6(m as nat));
    let t = trimmed(places.as_slice());
    string_of(t.as_slice())
}

/// `<CALL>`.
fn bracketed(call: &str) -> (r: String)
    ensures
        r@ == "<"@ + call@ + ">"@,
{
    let mut r: String = "<".to_owned();
    r.append(call);
    r.append(">");
    r
}

/// [`unpack28`] with hashes looked up.
fn unpack28_h(n28: u32, ht: &CallsignHashTable) -> (r: String)
    requires
        ht.wf(),
    ensures
        r@ == token_with(n28 as nat, ht@),
{
    if n28 >= NTOKENS && n28 - NTOKENS < MAX22 {
        match ht.lookup22(n28 - NTOKENS) {
            Some(call) => bracketed(call),
            None => "<...>".to_owned(),
        }
    } else {
        unpack28(n28)
    }
}

/// What a short hash says.
pub open spec fn hashed_text(known: Option<Seq<char>>) -> Seq<char> {
    match known {
        Some(call) => "<"@ + call + ">"@,
        None => "<...>"@,
    }
}

fn resolve_hash12(n12: u32, ht: &CallsignHashTable) -> (r: String)
    requires
        ht.wf(),
    ensures
        r@ == hashed_text(find12(ht@, n12)),
{
    match ht.lookup12(n12) {
        Some(call) => bracketed(call),
        None => "<...>".to_owned(),
    }
}

fn resolve_hash10(n10: u32, ht: &CallsignHashTable) -> (r: String)
    requires
        ht.wf(),
    ensures
        r@ == hashed_text(find10(ht@, n10)),
{
    match ht.lookup10(n10) {
        Some(call) => bracketed(call),
        None => "<...>".to_owned(),
    }
}

// ── Grids, powers, prefixes ─────────────────────────────────────────────────

/// The power field of a WSPR message in dBm: ten thirds, rounded, at most 60.
pub open spec fn dbm(raw: nat) -> Option<nat> {
    if (20 * raw + 3) / 6 > 60 {
        None
    } else {
        Some(((20 * raw + 3) / 6) as nat)
    }
}

fn wspr_dbm(raw: u32) -> (r: Option<u32>)
    requires
        raw < 32,
    ensures
        match r {
            Some(d) => dbm(raw as nat) == Some(d as nat),
            None => dbm(raw as nat) is None,
        },
{
    let d: u32 = (20 * raw + 3) / 6;
    if d > 60 {
        None
    } else {
        Some(d)
    }
}

/// Base-36 digits without leading zeros.
pub open spec fn base36(n: nat) -> Seq<char>
    decreases n,
{
    if n < 36 {
        seq![chr36(n)]
    } else {
        base36(n / 36).push(chr36(n % 36))
    }
}

fn base36_of(n: u32) -> (r: Vec<char>)
    ensures
        r@ == base36(n as nat),
    decreases n,
{
    let mut r: Vec<char> = if n < 36 {
        Vec::new()
    } else {
        base36_of(n / 36)
    };
    r.push(char36(n % 36));
    assert(n < 36 ==> r@ =~= base36(n as nat));
    r
}

/// A call with the add-on of a WSPR message: a base-36 prefix below `36^3`,
/// a suffix of up to three characters above it.
pub open spec fn with_add_on(npfx: nat, call: Seq<char>) -> Option<Seq<char>> {
    let n = (npfx - 46656) as nat;
    if npfx < 46656 {
        Some(base36(npfx) + "/"@ + call)
    } else if n <= 35 {
        Some(call + "/"@ + seq![chr36(n)])
    } else if n <= 1295 {
        Some(call + "/"@ + seq![chr36(n / 36), chr36(n % 36)])
    } else if n <= 12959 {
        Some(call + "/"@ + seq![chr36(n / 360), chr36(n / 10 % 36), chr36(n % 10)])
    } else {
        None
    }
}

fn wspr_prefix_suffix(npfx: u32, call: &str) -> (r: Option<String>)
    ensures
        match r {
            Some(s) => with_add_on(npfx as nat, call@) == Some(s@),
            None => with_add_on(npfx as nat, call@) is None,
        },
{
    if npfx < 46656 {
        let p = base36_of(npfx);
        let mut r = string_of(p.as_slice());
        r.append("/");
        r.append(call);
        return Some(r);
    }
    let n: u32 = npfx - 46656;
    let mut sfx: Vec<char> = Vec::new();
    if n <= 35 {
        sfx.push(char36(n));
        assert(sfx@ =~= seq![chr36(n as nat)]);
    } else if n <= 1295 {
        sfx.push(char36(n / 36));
        sfx.push(char36(n % 36));
        assert(sfx@ =~= seq![chr36(n as nat / 36), chr36(n as nat % 36)]);
    } else if n <= 12959 {
        sfx.push(char36(n / 360));
        sfx.push(char36(n / 10 % 36));
        sfx.push(char36(n % 10));
        assert(sfx@ =~= seq![
            chr36(n as nat / 360),
            chr36(n as nat / 10 % 36),
            chr36(n as nat % 10),
        ]);
    } else {
        return None;
    }
    let mut r: String = call.to_owned();
    r.append("/");
    let s = string_of(sfx.as_slice());
    r.append(s.as_str());
    Some(r)
}

/// A four-character locator: two letters `A`–`R`, two digits.
pub open spec fn grid4(n: nat) -> Option<Seq<char>> {
    if n >= 32400 {
        None
    } else {
        Some(seq![letter(n / 1800), letter(n / 100 % 18), chr10(n / 10 % 10), chr10(n % 10)])
    }
}

fn to_grid4(n: u32) -> (r: Option<String>)
    ensures
        match r {
            Some(s) => grid4(n as nat) == Some(s@),
            None => grid4(n as nat) is None,
        },
{
    if n >= 32400 {
        return None;
    }
    let g: [char; 4] = [
        letter_at(n / 1800),
        letter_at(n / 100 % 18),
        char10(n / 10 % 10),
        char10(n % 10),
    ];
    assert(g@ =~= seq![
        letter(n as nat / 1800),
        letter(n as nat / 100 % 18),
        chr10(n as nat / 10 % 10),
        chr10(n as nat % 10),
    ]);
    Some(string_of(g.as_slice()))
}

/// A six-character locator; four characters when both subsquare places hold
/// the value past the last letter used, 24.
pub open spec fn grid6(n: nat) -> Option<Seq<char>> {
    let head = seq![
        letter(n / 1125000),
        letter(n / 62500 % 18),
        chr10(n / 6250 % 10),
        chr10(n / 625 % 10),
    ];
    if n / 1125000 > 17 {
        None
    } else if n % 625 == 624 {
        Some(head)
    } else {
        Some(head + seq![letter(n / 25 % 25), letter(n % 25)])
    }
}

fn to_grid6(n: u32) -> (r: Option<String>)
    ensures
        match r {
            Some(s) => grid6(n as nat) == Some(s@),
            None => grid6(n as nat) is None,
        },
{
    let j1: u32 = n / 1125000;
    if j1 > 17 {
        return None;
    }
    let mut g: Vec<char> = Vec::new();
    g.push(letter_at(j1));
    g.push(letter_at(n / 62500 % 18));
    g.push(char10(n / 6250 % 10));
    g.push(char10(n / 625 % 10));
    let ghost head = g@;
    assert(head =~= seq![
        letter(n as nat / 1125000),
        letter(n as nat / 62500 % 18),
        chr10(n as nat / 6250 % 10),
        chr10(n as nat / 625 % 10),
    ]);
    let j5: u32 = n / 25 % 25;
    let j6: u32 = n % 25;
    if j5 != 24 || j6 != 24 {
        g.push(letter_at(j5));
        g.push(letter_at(j6));
        assert(g@ =~= head + seq![letter(n as nat / 25 % 25), letter(n as nat % 25)]);
    }
    assert(n % 625 == 25 * j5 + j6);
    Some(string_of(g.as_slice()))
}

// ── Texts in one number ─────────────────────────────────────────────────────

/// Thirteen base-42 places.
pub open spec fn text13(n: nat) -> Seq<char> {
    Seq::new(13, |i: int| chr42(digits(n, 42, 13)[i]))
}

/// Eleven base-38 places.
pub open spec fn text11(n: nat) -> Seq<char> {
    Seq::new(11, |i: int| chr38(digits(n, 38, 11)[i]))
}

/// Six hexadecimal places.
pub open spec fn hex6(n: nat) -> Seq<char> {
    Seq::new(6, |i: int| chr36(digits(n, 16, 6)[i]))
}

pub open spec fn strip_zeros(s: Seq<char>) -> Seq<char>
    decreases s.len(),
{
    if s.len() > 0 && s[0] == '0' {
        strip_zeros(s.skip(1))
    } else {
        s
    }
}

fn places13(n: u128) -> (r: Vec<char>)
    ensures
        r@ == text13(n as nat),
{
    let mut v: u128 = n;
    let mut out: [char; 13] = [' '; 13];
    let mut k: usize = 13;
    let ghost d = digits(n as nat, 42, 13);
    proof {
        crate::radix::lemma_digits_in_base(n as nat, 42, 13);
        assert(d.subrange(0, 13) =~= d);
    }
    while k > 0
        invariant
            k <= 13,
            d == digits(n as nat, 42, 13),
            d.len() == 13,
            d.subrange(0, k as int) == digits(v as nat, 42, k as nat),
            forall|i: int| k <= i < 13 ==> #[trigger] out@[i] == chr42(d[i]),
        decreases k,
    {
        proof {
            let p = digits(v as nat / 42, 42, (k - 1) as nat);
            crate::radix::lemma_digits_len(v as nat / 42, 42, (k - 1) as nat);
            assert(d.subrange(0, k as int) == p.push(v as nat % 42));
            assert(d[k - 1] == d.subrange(0, k as int)[k - 1]);
            assert(d.subrange(0, k - 1) =~= d.subrange(0, k as int).drop_last());
            assert(p.push(v as nat % 42).drop_last() =~= p);
        }
        k -= 1;
        out[k] = char42((v % 42) as u32);
        v = v / 42;
    }
    let r = vstd::slice::slice_to_vec(out.as_slice());
    assert(r@ =~= text13(n as nat));
    r
}

fn places11(n: u128) -> (r: Vec<char>)
    ensures
        r@ == text11(n as nat),
{
    let mut v: u128 = n;
    let mut out: [char; 11] = [' '; 11];
    let mut k: usize = 11;
    let ghost d = digits(n as nat, 38, 11);
    proof {
        crate::radix::lemma_digits_in_base(n as nat, 38, 11);
        assert(d.subrange(0, 11) =~= d);
    }
    while k > 0
        invariant
            k <= 11,
            d == digits(n as nat, 38, 11),
            d.len() == 11,
            d.subrange(0, k as int) == digits(v as nat, 38, k as nat),
            forall|i: int| k <= i < 11 ==> #[trigger] out@[i] == chr38(d[i]),
        decreases k,
    {
        proof {
            let p = digits(v as nat / 38, 38, (k - 1) as nat);
            crate::radix::lemma_digits_len(v as nat / 38, 38, (k - 1) as nat);
            assert(d.subrange(0, k as int) == p.push(v as nat % 38));
            assert(d[k - 1] == d.subrange(0, k as int)[k - 1]);
            assert(d.subrange(0, k - 1) =~= d.subrange(0, k as int).drop_last());
            assert(p.push(v as nat % 38).drop_last() =~= p);
        }
        k -= 1;
        out[k] = char38((v % 38) as u32);
        v = v / 38;
    }
    let r = vstd::slice::slice_to_vec(out.as_slice());
    assert(r@ =~= text11(n as nat));
    r
}

fn push_hex6(out: &mut Vec<char>, n: u32)
    ensures
        final(out)@ == old(out)@ + hex6(n as nat),
{
    let n1: u32 = n / 16;
    let n2: u32 = n1 / 16;
    let n3: u32 = n2 / 16;
    let n4: u32 = n3 / 16;
    let n5: u32 = n4 / 16;
    out.push(char36(n5 % 16));
    out.push(char36(n4 % 16));
    out.push(char36(n3 % 16));
    out.push(char36(n2 % 16));
    out.push(char36(n1 % 16));
    out.push(char36(n % 16));
    proof {
        reveal_with_fuel(digits, 7);
        let d = digits(n as nat, 16, 6);
        assert(d =~= seq![
            n5 as nat % 16,
            n4 as nat % 16,
            n3 as nat % 16,
            n2 as nat % 16,
            n1 as nat % 16,
            n as nat % 16,
        ]);
        assert(out@ =~= old(out)@ + hex6(n as nat));
    }
}

/// A free-text payload.
pub open spec fn free_text(msg: Seq<u8>) -> Seq<char> {
    trim(text13(field(msg, 0, 71)))
}

fn unpack_free_text(msg: &[u8]) -> (r: String)
    requires
        msg.len() >= 77,
    ensures
        r@ == free_text(msg@),
{
    let n: u128 = read_bits_wide(msg, 0, 71);
    let p = places13(n);
    let t = trimmed(p.as_slice());
    string_of(t.as_slice())
}

/// The non-standard callsign of a type 4 message.
pub open spec fn long_call(msg: Seq<u8>) -> Seq<char> {
    trim(text11(field(msg, 12, 58)))
}

fn unpack_long_call(msg: &[u8]) -> (r: String)
    requires
        msg.len() >= 77,
    ensures
        r@ == long_call(msg@),
{
    let n: u128 = read_bits_wide(msg, 12, 58);
    let p = places11(n);
    let t = trimmed(p.as_slice());
    string_of(t.as_slice())
}

// ── The message kinds ───────────────────────────────────────────────────────

/// What an `Option<String>` says.
pub open spec fn text_of(r: Option<String>) -> Option<Seq<char>> {
    match r {
        Some(s) => Some(s@),
        None => None,
    }
}

/// `CALL1 RR73; CALL2 <CALL3> REPORT`. Words are not callsigns here.
pub open spec fn dxpedition(msg: Seq<u8>, t: TableView) -> Option<Seq<char>> {
    let a = field(msg, 0, 28);
    let b = field(msg, 28, 28);
    if a <= 2 || b <= 2 {
        None
    } else {
        Some(
            token_with(a, t) + " RR73; "@ + token_with(b, t) + " "@ + hashed_text(
                find10(t, field(msg, 56, 10) as u32),
            ) + " "@ + report_text(2 * field(msg, 66, 5) - 30, 0),
        )
    }
}

fn unpack_dxpedition(msg: &[u8], ht: &CallsignHashTable) -> (r: Option<String>)
    requires
        msg.len() >= 77,
        ht.wf(),
    ensures
        text_of(r) == dxpedition(msg@, ht@),
{
    let n28a: u32 = read_bits(msg, 0, 28);
    let n28b: u32 = read_bits(msg, 28, 28);
    let n10: u32 = read_bits(msg, 56, 10);
    let n5: u32 = read_bits(msg, 66, 5);
    proof {
        crate::bits::lemma_pow2_values();
    }
    if n28a <= 2 || n28b <= 2 {
        return None;
    }
    let mut r = unpack28_h(n28a, ht);
    r.append(" RR73; ");
    let c2 = unpack28_h(n28b, ht);
    r.append(c2.as_str());
    r.append(" ");
    let c3 = resolve_hash10(n10, ht);
    r.append(c3.as_str());
    r.append(" ");
    let crpt = fmt_report(2 * (n5 as i32) - 30, 0);
    r.append(crpt.as_str());
    Some(r)
}

/// `CALL1 CALL2 [FD]`. Words are not callsigns here.
pub open spec fn field_day(msg: Seq<u8>, t: TableView) -> Option<Seq<char>> {
    let a = field(msg, 0, 28);
    let b = field(msg, 28, 28);
    if a <= 2 || b <= 2 {
        None
    } else {
        Some(token_with(a, t) + " "@ + token_with(b, t) + " [FD]"@)
    }
}

fn unpack_field_day(msg: &[u8], ht: &CallsignHashTable) -> (r: Option<String>)
    requires
        msg.len() >= 77,
        ht.wf(),
    ensures
        text_of(r) == field_day(msg@, ht@),
{
    let n28a: u32 = read_bits(msg, 0, 28);
    let n28b: u32 = read_bits(msg, 28, 28);
    if n28a <= 2 || n28b <= 2 {
        return None;
    }
    let mut r = unpack28_h(n28a, ht);
    r.append(" ");
    let c2 = unpack28_h(n28b, ht);
    r.append(c2.as_str());
    r.append(" [FD]");
    Some(r)
}

/// 71 bits in hexadecimal, leading zeros left out.
pub open spec fn telemetry(msg: Seq<u8>) -> Seq<char> {
    strip_zeros(hex6(field(msg, 0, 23)) + hex6(field(msg, 23, 24)) + hex6(field(msg, 47, 24)))
}

fn unpack_telemetry(msg: &[u8]) -> (r: String)
    requires
        msg.len() >= 77,
    ensures
        r@ == telemetry(msg@),
{
    let mut h: Vec<char> = Vec::new();
    push_hex6(&mut h, read_bits(msg, 0, 23));
    assert(h@ =~= hex6(field(msg@, 0, 23)));
    push_hex6(&mut h, read_bits(msg, 23, 24));
    push_hex6(&mut h, read_bits(msg, 47, 24));
    let mut i: usize = 0;
    assert(h@.skip(0) =~= h@);
    while i < h.len() && h[i] == '0'
        invariant
            i <= h.len(),
            strip_zeros(h@) == strip_zeros(h@.skip(i as int)),
        decreases h.len() - i,
    {
        assert(h@.skip(i as int).skip(1) =~= h@.skip(i + 1));
        i += 1;
    }
    let t = vstd::slice::slice_subrange(h.as_slice(), i, h.len());
    assert(t@ =~= h@.skip(i as int));
    string_of(t)
}

/// A WSPR message: call, locator and power; call with an add-on and power;
/// or hashed call and locator.
pub open spec fn wspr(msg: Seq<u8>, t: TableView) -> Option<Seq<char>> {
    let (j48, j49, j50) = (msg[47] % 2, msg[48] % 2, msg[49] % 2);
    if j50 == 1 {
        match (
            dbm(field(msg, 44, 5)),
            with_add_on(field(msg, 28, 16), token_with(field(msg, 0, 28), t)),
        ) {
            (Some(p), Some(call)) => Some(call + " "@ + dec(p)),
            _ => None,
        }
    } else if j49 == 0 {
        match (dbm(field(msg, 43, 5)), grid4(field(msg, 28, 15))) {
            (Some(p), Some(grid)) => Some(
                token_with(field(msg, 0, 28), t) + " "@ + grid + " "@ + dec(p),
            ),
            _ => None,
        }
    } else if j48 == 0 {
        match grid6(field(msg, 22, 25)) {
            Some(grid) => Some(
                token_with((field(msg, 0, 22) + NTOKENS) as nat, t) + " "@ + grid,
            ),
            None => None,
        }
    } else {
        None
    }
}

fn unpack_wspr(msg: &[u8], ht: &CallsignHashTable) -> (r: Option<String>)
    requires
        msg.len() >= 77,
        ht.wf(),
    ensures
        text_of(r) == wspr(msg@, ht@),
{
    proof {
        crate::bits::lemma_pow2_values();
    }
    if msg[49] % 2 == 1 {
        let p: u32 = match wspr_dbm(read_bits(msg, 44, 5)) {
            Some(p) => p,
            None => {
                return None;
            },
        };
        let call = unpack28_h(read_bits(msg, 0, 28), ht);
        let mut r = match wspr_prefix_suffix(read_bits(msg, 28, 16), call.as_str()) {
            Some(r) => r,
            None => {
                return None;
            },
        };
        r.append(" ");
        let d = dec_padded(p as u64, 0, ' ');
        r.append(d.as_str());
        Some(r)
    } else if msg[48] % 2 == 0 {
        let p: u32 = match wspr_dbm(read_bits(msg, 43, 5)) {
            Some(p) => p,
            None => {
                return None;
            },
        };
        let grid = match to_grid4(read_bits(msg, 28, 15)) {
            Some(g) => g,
            None => {
                return None;
            },
        };
        let mut r = unpack28_h(read_bits(msg, 0, 28), ht);
        r.append(" ");
        r.append(grid.as_str());
        r.append(" ");
        let d = dec_padded(p as u64, 0, ' ');
        r.append(d.as_str());
        Some(r)
    } else if msg[47] % 2 == 0 {
        let grid = match to_grid6(read_bits(msg, 22, 25)) {
            Some(g) => g,
            None => {
                return None;
            },
        };
        let n22: u32 = read_bits(msg, 0, 22);
        let mut r = unpack28_h(n22 + NTOKENS, ht);
        r.append(" ");
        r.append(grid.as_str());
        Some(r)
    } else {
        None
    }
}

/// A callsign with the suffix of its flag bit. A hash or a CQ takes none.
pub open spec fn flagged(call: Seq<char>, flag: bool, suffix: Seq<char>, cq_too: bool) -> Seq<
    char,
> {
    if flag && !starts_with(call, "<"@) && (cq_too || !starts_with(call, "CQ"@)) {
        call + suffix
    } else {
        call
    }
}

/// The third field of a standard message: a locator, `R` and a locator,
/// nothing, `RRR`, `RR73`, `73`, or a signal report. A CQ takes a locator or
/// nothing.
pub open spec fn standard_report(igrid: nat, ir: int, cq: bool) -> Option<Seq<char>> {
    if igrid <= MAX_GRID4 {
        if cq && ir == 1 {
            None
        } else {
            match grid4(igrid) {
                Some(g) => Some(
                    if ir == 0 {
                        g
                    } else {
                        "R "@ + g
                    },
                ),
                None => None,
            }
        }
    } else {
        let n = igrid - MAX_GRID4;
        if cq && n >= 2 {
            None
        } else if n == 1 {
            Some(""@)
        } else if n == 2 {
            Some("RRR"@)
        } else if n == 3 {
            Some("RR73"@)
        } else if n == 4 {
            Some("73"@)
        } else {
            Some(
                report_text(
                    if n - 35 > 50 {
                        n - 136
                    } else {
                        n - 35
                    },
                    ir,
                ),
            )
        }
    }
}

pub open spec fn is_cq(call: Seq<char>) -> bool {
    call == "CQ"@ || starts_with(call, "CQ "@)
}

/// A standard message, types 1 and 2: `CALL1 CALL2 REPORT`.
pub open spec fn standard(msg: Seq<u8>, t: TableView, suffix: Seq<char>) -> Option<Seq<char>> {
    let c1 = flagged(token_with(field(msg, 0, 28), t), msg[28] % 2 == 1, suffix, false);
    let c2 = flagged(token_with(field(msg, 29, 28), t), msg[57] % 2 == 1, suffix, true);
    match standard_report(field(msg, 59, 15), (msg[58] % 2) as int, is_cq(c1)) {
        Some(report) => Some(
            if report.len() == 0 {
                c1 + " "@ + c2
            } else {
                c1 + " "@ + c2 + " "@ + report
            },
        ),
        None => None,
    }
}

fn str_starts(s: &String, p: &str) -> (r: bool)
    ensures
        r == starts_with(s@, p@),
{
    let c = chars_of(s.as_str());
    has_prefix(c.as_slice(), p)
}

fn add_flag(call: &mut String, flag: bool, suffix: &str, cq_too: bool)
    ensures
        final(call)@ == flagged(old(call)@, flag, suffix@, cq_too),
{
    if flag && !str_starts(call, "<") && (cq_too || !str_starts(call, "CQ")) {
        call.append(suffix);
    }
}

fn unpack_standard_report(igrid: u32, ir: u8, cq: bool) -> (r: Option<String>)
    requires
        igrid < 32768,
        ir <= 1,
    ensures
        text_of(r) == standard_report(igrid as nat, ir as int, cq),
{
    if igrid <= MAX_GRID4 {
        if cq && ir == 1 {
            return None;
        }
        match to_grid4(igrid) {
            Some(g) => {
                if ir == 0 {
                    Some(g)
                } else {
                    let mut r: String = "R ".to_owned();
                    r.append(g.as_str());
                    Some(r)
                }
            },
            None => None,
        }
    } else {
        let n: u32 = igrid - MAX_GRID4;
        if cq && n >= 2 {
            return None;
        }
        if n == 1 {
            Some("".to_owned())
        } else if n == 2 {
            Some("RRR".to_owned())
        } else if n == 3 {
            Some("RR73".to_owned())
        } else if n == 4 {
            Some("73".to_owned())
        } else {
            let mut isnr: i32 = n as i32 - 35;
            if isnr > 50 {
                isnr = isnr - 101;
            }
            Some(fmt_report(isnr, ir))
        }
    }
}

fn unpack_standard(msg: &[u8], ht: &CallsignHashTable, suffix: &str) -> (r: Option<String>)
    requires
        msg.len() >= 77,
        ht.wf(),
    ensures
        text_of(r) == standard(msg@, ht@, suffix@),
{
    proof {
        crate::bits::lemma_pow2_values();
    }
    let mut c1 = unpack28_h(read_bits(msg, 0, 28), ht);
    let mut c2 = unpack28_h(read_bits(msg, 29, 28), ht);
    add_flag(&mut c1, msg[28] % 2 == 1, suffix, false);
    add_flag(&mut c2, msg[57] % 2 == 1, suffix, true);
    let cq_word = chars_of(c1.as_str());
    let cq = crate::text::is_str(cq_word.as_slice(), "CQ") || str_starts(&c1, "CQ ");
    let igrid: u32 = read_bits(msg, 59, 15);
    match unpack_standard_report(igrid, msg[58] % 2, cq) {
        Some(report) => {
            let mut r = c1;
            r.append(" ");
            r.append(c2.as_str());
            if !report.as_str().is_empty() {
                r.append(" ");
                r.append(report.as_str());
            }
            Some(r)
        },
        None => None,
    }
}

/// The RTTY Roundup multipliers: states, provinces and countries, then
/// `X01`–`X99`.
pub open spec fn section(k: nat) -> Seq<char> {
    if k == 1 {
        "AL"@
    } else if k == 2 {
        "AK"@
    } else if k == 3 {
        "AZ"@
    } else if k == 4 {
        "AR"@
    } else if k == 5 {
        "CA"@
    } else if k == 6 {
        "CO"@
    } else if k == 7 {
        "CT"@
    } else if k == 8 {
        "DE"@
    } else if k == 9 {
        "FL"@
    } else if k == 10 {
        "GA"@
    } else if k == 11 {
        "HI"@
    } else if k == 12 {
        "ID"@
    } else if k == 13 {
        "IL"@
    } else if k == 14 {
        "IN"@
    } else if k == 15 {
        "IA"@
    } else if k == 16 {
        "KS"@
    } else if k == 17 {
        "KY"@
    } else if k == 18 {
        "LA"@
    } else if k == 19 {
        "ME"@
    } else if k == 20 {
        "MD"@
    } else if k == 21 {
        "MA"@
    } else if k == 22 {
        "MI"@
    } else if k == 23 {
        "MN"@
    } else if k == 24 {
        "MS"@
    } else if k == 25 {
        "MO"@
    } else if k == 26 {
        "MT"@
    } else if k == 27 {
        "NE"@
    } else if k == 28 {
        "NV"@
    } else if k == 29 {
        "NH"@
    } else if k == 30 {
        "NJ"@
    } else if k == 31 {
        "NM"@
    } else if k == 32 {
        "NY"@
    } else if k == 33 {
        "NC"@
    } else if k == 34 {
        "ND"@
    } else if k == 35 {
        "OH"@
    } else if k == 36 {
        "OK"@
    } else if k == 37 {
        "OR"@
    } else if k == 38 {
        "PA"@
    } else if k == 39 {
        "RI"@
    } else if k == 40 {
        "SC"@
    } else if k == 41 {
        "SD"@
    } else if k == 42 {
        "TN"@
    } else if k == 43 {
        "TX"@
    } else if k == 44 {
        "UT"@
    } else if k == 45 {
        "VT"@
    } else if k == 46 {
        "VA"@
    } else if k == 47 {
        "WA"@
    } else if k == 48 {
        "WV"@
    } else if k == 49 {
        "WI"@
    } else if k == 50 {
        "WY"@
    } else if k == 51 {
        "NB"@
    } else if k == 52 {
        "NS"@
    } else if k == 53 {
        "QC"@
    } else if k == 54 {
        "ON"@
    } else if k == 55 {
        "MB"@
    } else if k == 56 {
        "SK"@
    } else if k == 57 {
        "AB"@
    } else if k == 58 {
        "BC"@
    } else if k == 59 {
        "NWT"@
    } else if k == 60 {
        "NF"@
    } else if k == 61 {
        "LB"@
    } else if k == 62 {
        "NU"@
    } else if k == 63 {
        "YT"@
    } else if k == 64 {
        "PEI"@
    } else if k == 65 {
        "DC"@
    } else if k == 66 {
        "DR"@
    } else if k == 67 {
        "FR"@
    } else if k == 68 {
        "GD"@
    } else if k == 69 {
        "GR"@
    } else if k == 70 {
        "OV"@
    } else if k == 71 {
        "ZH"@
    } else if k == 72 {
        "ZL"@
    } else {
        "X"@ + pad_left(dec((k - 72) as nat), 2, '0')
    }
}

fn section_name(k: u32) -> (r: String)
    requires
        1 <= k <= 171,
    ensures
        r@ == section(k as nat),
{
    if k > 72 {
        let mut r: String = "X".to_owned();
        let d = dec_padded((k - 72) as u64, 2, '0');
        r.append(d.as_str());
        return r;
    }
    let name: &str = match k {
        1 => "AL",
        2 => "AK",
        3 => "AZ",
        4 => "AR",
        5 => "CA",
        6 => "CO",
        7 => "CT",
        8 => "DE",
        9 => "FL",
        10 => "GA",
        11 => "HI",
        12 => "ID",
        13 => "IL",
        14 => "IN",
        15 => "IA",
        16 => "KS",
        17 => "KY",
        18 => "LA",
        19 => "ME",
        20 => "MD",
        21 => "MA",
        22 => "MI",
        23 => "MN",
        24 => "MS",
        25 => "MO",
        26 => "MT",
        27 => "NE",
        28 => "NV",
        29 => "NH",
        30 => "NJ",
        31 => "NM",
        32 => "NY",
        33 => "NC",
        34 => "ND",
        35 => "OH",
        36 => "OK",
        37 => "OR",
        38 => "PA",
        39 => "RI",
        40 => "SC",
        41 => "SD",
        42 => "TN",
        43 => "TX",
        44 => "UT",
        45 => "VT",
        46 => "VA",
        47 => "WA",
        48 => "WV",
        49 => "WI",
        50 => "WY",
        51 => "NB",
        52 => "NS",
        53 => "QC",
        54 => "ON",
        55 => "MB",
        56 => "SK",
        57 => "AB",
        58 => "BC",
        59 => "NWT",
        60 => "NF",
        61 => "LB",
        62 => "NU",
        63 => "YT",
        64 => "PEI",
        65 => "DC",
        66 => "DR",
        67 => "FR",
        68 => "GD",
        69 => "GR",
        70 => "OV",
        71 => "ZH",
        _ => "ZL",
    };
    name.to_owned()
}

/// ARRL RTTY Roundup: `[TU; ]CALL1 CALL2 [R ]RST EXCHANGE`, or
/// `CALL1 CALL2 [RTTY]` when the exchange field holds none.
pub open spec fn rtty(msg: Seq<u8>, t: TableView) -> Seq<char> {
    let c1 = token_with(field(msg, 1, 28), t);
    let c2 = token_with(field(msg, 29, 28), t);
    let n = field(msg, 61, 13);
    if n == 0 || n == 8000 || n > 8171 {
        c1 + " "@ + c2 + " [RTTY]"@
    } else {
        (if msg[0] % 2 == 1 {
            "TU; "@
        } else {
            ""@
        }) + c1 + " "@ + c2 + " "@ + (if msg[57] % 2 == 1 {
            "R "@
        } else {
            ""@
        }) + "5"@ + dec((field(msg, 58, 3) + 2) as nat) + "9 "@ + (if n > 8000 {
            section((n - 8000) as nat)
        } else {
            pad_left(dec(n), 4, '0')
        })
    }
}

fn unpack_rtty(msg: &[u8], ht: &CallsignHashTable) -> (r: String)
    requires
        msg.len() >= 77,
        ht.wf(),
    ensures
        r@ == rtty(msg@, ht@),
{
    proof {
        crate::bits::lemma_pow2_values();
    }
    let c1 = unpack28_h(read_bits(msg, 1, 28), ht);
    let c2 = unpack28_h(read_bits(msg, 29, 28), ht);
    let irpt: u32 = read_bits(msg, 58, 3);
    let nexch: u32 = read_bits(msg, 61, 13);
    let exch = if nexch > 8000 && nexch - 8000 <= 171 {
        section_name(nexch - 8000)
    } else if 1 <= nexch && nexch <= 7999 {
        dec_padded(nexch as u64, 4, '0')
    } else {
        let mut r = c1;
        r.append(" ");
        r.append(c2.as_str());
        r.append(" [RTTY]");
        return r;
    };
    let mut r: String = if msg[0] % 2 == 1 {
        "TU; ".to_owned()
    } else {
        "".to_owned()
    };
    r.append(c1.as_str());
    r.append(" ");
    r.append(c2.as_str());
    r.append(" ");
    r.append(if msg[57] % 2 == 1 {
        "R "
    } else {
        ""
    });
    r.append("5");
    let d = dec_padded((irpt + 2) as u64, 0, ' ');
    r.append(d.as_str());
    r.append("9 ");
    r.append(exch.as_str());
    r
}

/// A message with a non-standard callsign: `CQ CALL`, or the call and a
/// hashed one in either order and `RRR`, `RR73`, `73` or nothing.
pub open spec fn nonstandard(msg: Seq<u8>, t: TableView) -> Seq<char> {
    let long = long_call(msg);
    let hashed = hashed_text(find12(t, field(msg, 0, 12) as u32));
    let nrpt = field(msg, 71, 2);
    if msg[73] % 2 == 1 {
        "CQ "@ + long
    } else {
        (if msg[70] % 2 == 0 {
            hashed + " "@ + long
        } else {
            long + " "@ + hashed
        }) + (if nrpt == 0 {
            ""@
        } else if nrpt == 1 {
            " RRR"@
        } else if nrpt == 2 {
            " RR73"@
        } else {
            " 73"@
        })
    }
}

fn unpack_nonstandard(msg: &[u8], ht: &CallsignHashTable) -> (r: String)
    requires
        msg.len() >= 77,
        ht.wf(),
    ensures
        r@ == nonstandard(msg@, ht@),
{
    let long = unpack_long_call(msg);
    if msg[73] % 2 == 1 {
        let mut r: String = "CQ ".to_owned();
        r.append(long.as_str());
        return r;
    }
    let n12: u32 = read_bits(msg, 0, 12);
    let nrpt: u32 = read_bits(msg, 71, 2);
    let hashed = resolve_hash12(n12, ht);
    let mut r: String = if msg[70] % 2 == 0 {
        let mut h = hashed;
        h.append(" ");
        h.append(long.as_str());
        h
    } else {
        let mut l = long;
        l.append(" ");
        l.append(hashed.as_str());
        l
    };
    r.append(if nrpt == 0 {
        ""
    } else if nrpt == 1 {
        " RRR"
    } else if nrpt == 2 {
        " RR73"
    } else {
        " 73"
    });
    r
}

// ── The whole message ───────────────────────────────────────────────────────

/// What a message says, before the last check.
pub open spec fn body(msg: Seq<u8>, t: TableView) -> Option<Seq<char>> {
    let n3 = field(msg, 71, 3);
    let i3 = field(msg, 74, 3);
    if i3 == 0 && n3 == 0 {
        if free_text(msg).len() == 0 {
            None
        } else {
            Some(free_text(msg))
        }
    } else if i3 == 0 && n3 == 1 {
        dxpedition(msg, t)
    } else if i3 == 0 && (n3 == 3 || n3 == 4) {
        field_day(msg, t)
    } else if i3 == 0 && n3 == 5 {
        Some(telemetry(msg))
    } else if i3 == 0 && n3 == 6 {
        wspr(msg, t)
    } else if i3 == 1 {
        standard(msg, t, "/R"@)
    } else if i3 == 2 {
        standard(msg, t, "/P"@)
    } else if i3 == 3 {
        Some(rtty(msg, t))
    } else if i3 == 4 {
        Some(nonstandard(msg, t))
    } else {
        None
    }
}

fn unpack77_body(msg: &[u8], ht: &CallsignHashTable) -> (r: Option<String>)
    requires
        msg.len() >= 77,
        ht.wf(),
    ensures
        text_of(r) == body(msg@, ht@),
{
    let n3: u32 = read_bits(msg, 71, 3);
    let i3: u32 = read_bits(msg, 74, 3);
    match i3 {
        0 => match n3 {
            0 => {
                let text = unpack_free_text(msg);
                if text.as_str().is_empty() {
                    None
                } else {
                    Some(text)
                }
            },
            1 => unpack_dxpedition(msg, ht),
            3 | 4 => unpack_field_day(msg, ht),
            5 => Some(unpack_telemetry(msg)),
            6 => unpack_wspr(msg, ht),
            _ => None,
        },
        1 => unpack_standard(msg, ht, "/R"),
        2 => unpack_standard(msg, ht, "/P"),
        3 => Some(unpack_rtty(msg, ht)),
        4 => Some(unpack_nonstandard(msg, ht)),
        _ => None,
    }
}

/// What a message says. A CQ to a hashed call says nothing: no message can
/// have introduced the hash.
pub open spec fn message(msg: Seq<u8>, t: TableView) -> Option<Seq<char>> {
    match body(msg, t) {
        Some(text) => if starts_with(text, "CQ <"@) {
            None
        } else {
            Some(text)
        },
        None => None,
    }
}

/// Decode a 77-bit message, resolving hashed callsigns against a table.
pub fn unpack77_with_hash(msg: &[u8], ht: &CallsignHashTable) -> (r: Option<String>)
    requires
        msg.len() >= 77,
        ht.wf(),
    ensures
        text_of(r) == message(msg@, ht@),
{
    match unpack77_body(msg, ht) {
        Some(text) => {
            if str_starts(&text, "CQ <") {
                None
            } else {
                Some(text)
            }
        },
        None => None,
    }
}

/// Decode a 77-bit message; hashed callsigns read `<...>`.
///
/// `None` when the kind is not one that is read or the fields do not fit
/// together.
pub fn unpack77(msg: &[u8]) -> (r: Option<String>)
    requires
        msg.len() >= 77,
    ensures
        text_of(r) == message(msg@, table_empty(false)),
{
    unpack77_with_hash(msg, &CallsignHashTable::new())
}

/// The table after the token has been learnt, if it is a standard callsign.
pub open spec fn learn_token(t: TableView, n28: nat) -> TableView {
    if standard_call(token(n28)) {
        table_insert(t, token(n28))
    } else {
        t
    }
}

/// The table after the callsigns of a message have been learnt.
pub open spec fn registered(msg: Seq<u8>, t: TableView) -> TableView {
    let n3 = field(msg, 71, 3);
    let i3 = field(msg, 74, 3);
    if msg.len() != 77 {
        t
    } else if i3 == 0 && (n3 == 1 || n3 == 3 || n3 == 4) {
        learn_token(learn_token(t, field(msg, 0, 28)), field(msg, 28, 28))
    } else if i3 == 1 || i3 == 2 {
        learn_token(learn_token(t, field(msg, 0, 28)), field(msg, 29, 28))
    } else if i3 == 3 {
        learn_token(learn_token(t, field(msg, 1, 28)), field(msg, 29, 28))
    } else if i3 == 4 && long_call(msg).len() >= 2 {
        table_insert(t, long_call(msg))
    } else {
        t
    }
}

fn learn_std(n28: u32, ht: &mut CallsignHashTable)
    requires
        old(ht).wf(),
    ensures
        final(ht).wf(),
        final(ht)@ == learn_token(old(ht)@, n28 as nat),
{
    let call = unpack28(n28);
    if is_standard_callsign(call.as_str()) {
        ht.insert(call.as_str());
    }
}

/// Learn the callsigns a message carries: the standard ones of its 28-bit
/// fields, and the non-standard one of a type 4 message.
pub fn register_callsigns(msg: &[u8], ht: &mut CallsignHashTable)
    requires
        old(ht).wf(),
    ensures
        final(ht).wf(),
        final(ht)@ == registered(msg@, old(ht)@),
{
    if msg.len() != 77 {
        return;
    }
    let n3: u32 = read_bits(msg, 71, 3);
    let i3: u32 = read_bits(msg, 74, 3);
    if i3 == 0 {
        if n3 == 1 || n3 == 3 || n3 == 4 {
            learn_std(read_bits(msg, 0, 28), ht);
            learn_std(read_bits(msg, 28, 28), ht);
        }
    } else if i3 == 1 || i3 == 2 {
        learn_std(read_bits(msg, 0, 28), ht);
        learn_std(read_bits(msg, 29, 28), ht);
    } else if i3 == 3 {
        learn_std(read_bits(msg, 1, 28), ht);
        learn_std(read_bits(msg, 29, 28), ht);
    } else if i3 == 4 {
        let long = unpack_long_call(msg);
        let c = chars_of(long.as_str());
        if c.len() >= 2 {
            ht.insert(long.as_str());
        }
    }
}

/// Decode a message against the table, then learn its callsigns.
///
/// In this order: a message never resolves a hash against a callsign that
/// it introduces itself.
pub fn unpack77_learn(msg: &[u8], ht: &mut CallsignHashTable) -> (r: Option<String>)
    requires
        msg.len() >= 77,
        old(ht).wf(),
    ensures
        text_of(r) == message(msg@, old(ht)@),
        final(ht).wf(),
        final(ht)@ == registered(msg@, old(ht)@),
{
    let text = unpack77_with_hash(msg, ht);
    register_callsigns(msg, ht);
    text
}

}
