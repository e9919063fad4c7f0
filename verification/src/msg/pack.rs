//! The 77-bit message, packed.

use crate::alphabet::{idx10, idx27, idx36, idx37, idx38, idx42};
use crate::alphabet::{index10, index27, index36, index37, index38, index42};
use crate::bits::with_field;
use crate::bits::write_bits;
use crate::msg::callsign::all_upper;
use crate::msg::hash_table::hash_bits;
use crate::msg::hash_table::ihashcall;
use crate::msg::wsjt77::{MAX22, MAX_GRID4, NTOKENS};
use crate::radix::{in_base, value};
use crate::text::{
    all_ascii, ascii_upper, chars_of, digit, has_prefix, is_str, read_signed, read_unsigned,
    trimmed, upper_letter, upper_of,
};
use crate::text::{
    is_ascii_text, is_digit, is_upper, parse_signed, parse_unsigned, starts_with, to_upper, trim,
    upper_text,
};
use vstd::arithmetic::power::pow;
use vstd::prelude::*;
use vstd::utf8::encode_utf8;

verus! {

// ── Callsign tokens ─────────────────────────────────────────────────────────

/// The character at place `i` of a text padded with spaces on the right, in
/// upper case.
pub open spec fn place(c: Seq<char>, i: int) -> char {
    if 0 <= i < c.len() {
        to_upper(c[i])
    } else {
        ' '
    }
}

/// A callsign laid out over six places so that the third is a digit: as it
/// is, or moved one place to the right, which leaves room for five
/// characters.
pub open spec fn layout6(c: Seq<char>) -> Option<Seq<char>> {
    if !is_ascii_text(c) || c.len() == 0 || c.len() > 6 {
        None
    } else if c.len() >= 3 && is_digit(c[2]) {
        Some(Seq::new(6, |i: int| place(c, i)))
    } else if 2 <= c.len() <= 5 && is_digit(c[1]) {
        Some(Seq::new(6, |i: int| place(c, i - 1)))
    } else {
        None
    }
}

/// The number of a six-place callsign.
pub open spec fn index6(b: Seq<char>) -> Option<nat> {
    match (idx37(b[0]), idx36(b[1]), idx10(b[2]), idx27(b[3]), idx27(b[4]), idx27(b[5])) {
        (Some(i1), Some(i2), Some(i3), Some(i4), Some(i5), Some(i6)) => Some(
            ((((i1 * 36 + i2) * 10 + i3) * 27 + i4) * 27 + i5) * 27 + i6,
        ),
        _ => None,
    }
}

pub open spec fn standard_token(c: Seq<char>) -> Option<nat> {
    match layout6(c) {
        Some(b) => match index6(b) {
            Some(n) => Some((NTOKENS + MAX22 + n) as nat),
            None => None,
        },
        None => None,
    }
}

/// The index of place `i` of a directional CQ.
pub open spec fn direction_index(s: Seq<char>, i: int) -> nat {
    if 0 <= i < s.len() {
        (s[i] as u32 - 64) as nat
    } else {
        0
    }
}

/// `NNN`, or one to four upper-case letters.
pub open spec fn cq_token(s: Seq<char>) -> Option<nat> {
    match parse_unsigned(s, 999) {
        Some(n) => Some((3 + n) as nat),
        None => if s.len() <= 4 && all_upper(s) {
            Some(
                1003 + ((direction_index(s, 0) * 27 + direction_index(s, 1)) * 27 + direction_index(
                    s,
                    2,
                )) * 27 + direction_index(s, 3),
            )
        } else {
            None
        },
    }
}

/// The token of a callsign, of `DE`, `QRZ` or `CQ`, or of a CQ with a number
/// or a direction.
pub open spec fn token_of(call: Seq<char>) -> Option<nat> {
    let c = trim(call);
    if c == "DE"@ {
        Some(0)
    } else if c == "QRZ"@ {
        Some(1)
    } else if c == "CQ"@ {
        Some(2)
    } else if starts_with(c, "CQ "@) && trim(c.skip(3)).len() > 0 {
        cq_token(trim(c.skip(3)))
    } else {
        standard_token(c)
    }
}

/// What a packed number says.
pub open spec fn number(r: Option<u32>) -> Option<nat> {
    match r {
        Some(n) => Some(n as nat),
        None => None,
    }
}

pub proof fn lemma_index6_bound(b: Seq<char>)
    ensures
        index6(b) matches Some(n) ==> n < 262177560,
{
    if index6(b) is Some {
        crate::alphabet::lemma_idx37(b[0]);
        crate::alphabet::lemma_idx36(b[1]);
        crate::alphabet::lemma_idx10(b[2]);
        crate::alphabet::lemma_idx27(b[3]);
        crate::alphabet::lemma_idx27(b[4]);
        crate::alphabet::lemma_idx27(b[5]);
    }
}

fn pack_places(b: &[char; 6]) -> (r: Option<u32>)
    ensures
        number(r) == index6(b@),
        r matches Some(n) ==> n < 262177560,
{
    proof {
        lemma_index6_bound(b@);
    }
    match (
        index37(b[0]),
        index36(b[1]),
        index10(b[2]),
        index27(b[3]),
        index27(b[4]),
        index27(b[5]),
    ) {
        (Some(i1), Some(i2), Some(i3), Some(i4), Some(i5), Some(i6)) => Some(
            ((((i1 * 36 + i2) * 10 + i3) * 27 + i4) * 27 + i5) * 27 + i6,
        ),
        _ => None,
    }
}

fn pack_standard(c: &[char]) -> (r: Option<u32>)
    ensures
        number(r) == standard_token(c@),
{
    if !all_ascii(c) || c.len() == 0 || c.len() > 6 {
        return None;
    }
    let mut b: [char; 6] = [' '; 6];
    let shift: usize = if c.len() >= 3 && digit(c[2]) {
        0
    } else if c.len() >= 2 && c.len() <= 5 && digit(c[1]) {
        1
    } else {
        return None;
    };
    let mut i: usize = 0;
    while i < c.len()
        invariant
            i <= c.len(),
            c.len() + shift <= 6,
            shift <= 1,
            forall|j: int|
                0 <= j < 6 ==> #[trigger] b@[j] == if j < i + shift {
                    place(c@, j - shift)
                } else {
                    ' '
                },
        decreases c.len() - i,
    {
        b[i + shift] = ascii_upper(c[i]);
        i += 1;
    }
    assert(layout6(c@) is Some);
    assert(b@ =~= layout6(c@)->0);
    match pack_places(&b) {
        Some(n) => Some(NTOKENS + MAX22 + n),
        None => None,
    }
}

fn direction_at(s: &[char], i: usize) -> (r: u32)
    requires
        all_upper(s@),
    ensures
        r == direction_index(s@, i as int),
        r < 27,
{
    if i < s.len() {
        assert(is_upper(s@[i as int]));
        s[i] as u32 - 64
    } else {
        0
    }
}

fn pack_cq(s: &[char]) -> (r: Option<u32>)
    ensures
        number(r) == cq_token(s@),
        r matches Some(n) ==> n < NTOKENS,
{
    if let Some(n) = read_unsigned(s, 999) {
        return Some(3 + n);
    }
    if s.len() > 4 {
        return None;
    }
    let mut i: usize = 0;
    while i < s.len()
        invariant
            i <= s.len() <= 4,
            parse_unsigned(s@, 999) is None,
            forall|j: int| 0 <= j < i ==> is_upper(#[trigger] s@[j]),
        decreases s.len() - i,
    {
        if !upper_letter(s[i]) {
            assert(!is_upper(s@[i as int]));
            return None;
        }
        i += 1;
    }
    let i1: u32 = direction_at(s, 0);
    let i2: u32 = direction_at(s, 1);
    let i3: u32 = direction_at(s, 2);
    let i4: u32 = direction_at(s, 3);
    Some(1003 + ((i1 * 27 + i2) * 27 + i3) * 27 + i4)
}

/// Pack a callsign into its 28-bit token.
///
/// `None` when it holds characters outside the alphabets or does not fit
/// the six places of a standard callsign.
pub fn pack28(call: &str) -> (r: Option<u32>)
    ensures
        number(r) == token_of(call@),
        r matches Some(n) ==> n < 0x1000_0000,
{
    let all = chars_of(call);
    let c = trimmed(all.as_slice());
    if is_str(c.as_slice(), "DE") {
        return Some(0);
    }
    if is_str(c.as_slice(), "QRZ") {
        return Some(1);
    }
    if is_str(c.as_slice(), "CQ") {
        return Some(2);
    }
    if has_prefix(c.as_slice(), "CQ ") {
        proof {
            reveal_strlit("CQ ");
        }
        let t = vstd::slice::slice_subrange(c.as_slice(), 3, c.len());
        assert(t@ =~= c@.skip(3));
        let s = trimmed(t);
        if s.len() > 0 {
            return pack_cq(s.as_slice());
        }
    }
    let r = pack_standard(c.as_slice());
    proof {
        lemma_standard_token_bound(c@);
    }
    r
}

/// The tokens of standard callsigns end where 28 bits do.
pub proof fn lemma_standard_token_bound(c: Seq<char>)
    ensures
        standard_token(c) matches Some(n) ==> NTOKENS + MAX22 <= n < 0x1000_0000,
{
    if layout6(c) is Some {
        lemma_index6_bound(layout6(c)->0);
    }
}

// ── Grids and reports ───────────────────────────────────────────────────────

/// `A`–`R` in either case.
pub open spec fn field_letter(c: char) -> bool {
    'A' <= to_upper(c) <= 'R'
}

/// The index of a four-character locator.
pub open spec fn grid_index(g: Seq<char>) -> Option<nat> {
    if g.len() == 4 && field_letter(g[0]) && field_letter(g[1]) && is_digit(g[2]) && is_digit(
        g[3],
    ) {
        Some(
            ((((to_upper(g[0]) as u32 - 65) * 18 + (to_upper(g[1]) as u32 - 65)) * 10 + (g[2] as u32
                - 48)) * 10 + (g[3] as u32 - 48)) as nat,
        )
    } else {
        None
    }
}

fn pack_grid_chars(g: &[char]) -> (r: Option<u32>)
    ensures
        number(r) == grid_index(g@),
        r matches Some(n) ==> n < MAX_GRID4,
{
    if g.len() != 4 {
        return None;
    }
    let a: char = ascii_upper(g[0]);
    let b: char = ascii_upper(g[1]);
    if !('A' <= a && a <= 'R' && 'A' <= b && b <= 'R' && digit(g[2]) && digit(g[3])) {
        return None;
    }
    let j1: u32 = a as u32 - 65;
    let j2: u32 = b as u32 - 65;
    let j3: u32 = g[2] as u32 - 48;
    let j4: u32 = g[3] as u32 - 48;
    Some(((j1 * 18 + j2) * 10 + j3) * 10 + j4)
}

/// Pack a four-character locator into its 15-bit index.
pub fn pack_grid4(grid: &str) -> (r: Option<u32>)
    ensures
        number(r) == grid_index(grid@),
        r matches Some(n) ==> n < MAX_GRID4,
{
    let g = chars_of(grid);
    pack_grid_chars(g.as_slice())
}

/// The grid field and the `R` bit of a third field: nothing, `RRR`, `RR73`,
/// `73`, a locator, or a report from -50 to 49 with or without an `R`. The
/// reports below -30 follow the one of 49, where they meet no other field.
pub open spec fn report_fields(report: Seq<char>) -> Option<(nat, nat)> {
    let r = trim(report);
    if r.len() == 0 {
        Some(((MAX_GRID4 + 1) as nat, 0))
    } else if r == "RRR"@ {
        Some(((MAX_GRID4 + 2) as nat, 0))
    } else if r == "RR73"@ {
        Some(((MAX_GRID4 + 3) as nat, 0))
    } else if r == "73"@ {
        Some(((MAX_GRID4 + 4) as nat, 0))
    } else if grid_index(r) is Some {
        Some((grid_index(r)->0, 0))
    } else {
        let roger = r[0] == 'R';
        match parse_signed(
            if roger {
                r.skip(1)
            } else {
                r
            },
        ) {
            Some(snr) => if -50 <= snr <= 49 {
                Some(
                    (
                        (MAX_GRID4 + (if snr < -30 {
                            snr + 136
                        } else {
                            snr + 35
                        })) as nat,
                        if roger {
                            1
                        } else {
                            0
                        },
                    ),
                )
            } else {
                None
            },
            None => None,
        }
    }
}

fn pack_report(report: &str) -> (r: Option<(u32, u8)>)
    ensures
        match r {
            Some(p) => report_fields(report@) == Some((p.0 as nat, p.1 as nat)) && p.0 < 32768
                && p.1 <= 1,
            None => report_fields(report@) is None,
        },
{
    let all = chars_of(report);
    let r = trimmed(all.as_slice());
    if r.len() == 0 {
        return Some((MAX_GRID4 + 1, 0));
    }
    if is_str(r.as_slice(), "RRR") {
        return Some((MAX_GRID4 + 2, 0));
    }
    if is_str(r.as_slice(), "RR73") {
        return Some((MAX_GRID4 + 3, 0));
    }
    if is_str(r.as_slice(), "73") {
        return Some((MAX_GRID4 + 4, 0));
    }
    if let Some(g) = pack_grid_chars(r.as_slice()) {
        return Some((g, 0));
    }
    let roger = r[0] == 'R';
    let num: &[char] = if roger {
        vstd::slice::slice_subrange(r.as_slice(), 1, r.len())
    } else {
        r.as_slice()
    };
    proof {
        if roger {
            assert(num@ =~= r@.skip(1));
        }
    }
    match read_signed(num) {
        Some(snr) => {
            if snr < -50 || snr > 49 {
                return None;
            }
            let isnr: i32 = if snr < -30 {
                snr + 136
            } else {
                snr + 35
            };
            Some((MAX_GRID4 + isnr as u32, if roger {
                1
            } else {
                0
            }))
        },
        None => None,
    }
}

// ── Messages ────────────────────────────────────────────────────────────────

pub open spec fn blank() -> Seq<u8> {
    Seq::new(77, |i: int| 0u8)
}

/// The bits of a packed message.
pub open spec fn bits_of(r: Option<[u8; 77]>) -> Option<Seq<u8>> {
    match r {
        Some(m) => Some(m@),
        None => None,
    }
}

/// A type 1 message.
pub open spec fn standard_bits(a: nat, b: nat, ir: nat, igrid: nat) -> Seq<u8> {
    let m = with_field(blank(), 0, 28, a);
    let m = with_field(m, 29, 28, b);
    let m = with_field(m, 58, 1, ir);
    let m = with_field(m, 59, 15, igrid);
    with_field(m, 74, 3, 1)
}

fn build_standard(a: u32, b: u32, ir: u8, igrid: u32) -> (m: [u8; 77])
    ensures
        m@ == standard_bits(a as nat, b as nat, ir as nat, igrid as nat),
{
    let mut m: [u8; 77] = [0u8; 77];
    assert(m@ =~= blank());
    write_bits(&mut m, 0, 28, a as u128);
    write_bits(&mut m, 29, 28, b as u128);
    write_bits(&mut m, 58, 1, ir as u128);
    write_bits(&mut m, 59, 15, igrid as u128);
    write_bits(&mut m, 74, 3, 1);
    m
}

/// `CALL1 CALL2 GRID`.
pub open spec fn packed_type1(call1: Seq<char>, call2: Seq<char>, grid: Seq<char>) -> Option<
    Seq<u8>,
> {
    match (token_of(call1), token_of(call2), grid_index(grid)) {
        (Some(a), Some(b), Some(g)) => Some(standard_bits(a, b, 0, g)),
        _ => None,
    }
}

/// Pack a standard message with a locator.
///
/// `None` unless both callsigns have tokens and the locator is one.
pub fn pack77_type1(call1: &str, call2: &str, grid: &str) -> (r: Option<[u8; 77]>)
    ensures
        bits_of(r) == packed_type1(call1@, call2@, grid@),
{
    match (pack28(call1), pack28(call2), pack_grid4(grid)) {
        (Some(a), Some(b), Some(g)) => Some(build_standard(a, b, 0, g)),
        _ => None,
    }
}

/// `CALL1 CALL2 REPORT`.
pub open spec fn packed(call1: Seq<char>, call2: Seq<char>, report: Seq<char>) -> Option<Seq<u8>> {
    match (token_of(call1), token_of(call2), report_fields(report)) {
        (Some(a), Some(b), Some(f)) => Some(standard_bits(a, b, f.1, f.0)),
        _ => None,
    }
}

/// Pack a standard message with any third field: a locator (`PM95`), a
/// report (`-12`, `+05`), a rogered report (`R-12`), `RRR`, `RR73`, `73`, or
/// nothing.
pub fn pack77(call1: &str, call2: &str, report: &str) -> (r: Option<[u8; 77]>)
    ensures
        bits_of(r) == packed(call1@, call2@, report@),
{
    match (pack28(call1), pack28(call2), pack_report(report)) {
        (Some(a), Some(b), Some(f)) => Some(build_standard(a, b, f.1, f.0)),
        _ => None,
    }
}

pub proof fn lemma_pow_values()
    ensures
        pow(38, 11) == 238572050223552512,
        pow(42, 13) == 1265437718438866624512,
{
    assert(pow(38, 5) == 79235168 && pow(38, 6) == 3010936384) by {
        reveal_with_fuel(pow, 7);
    }
    vstd::arithmetic::power::lemma_pow_adds(38, 5, 6);
    assert(pow(42, 6) == 5489031744 && pow(42, 7) == 230539333248) by {
        reveal_with_fuel(pow, 8);
    }
    vstd::arithmetic::power::lemma_pow_adds(42, 6, 7);
}

/// Every character stands in the base-38 alphabet.
pub open spec fn in_38(s: Seq<char>) -> bool {
    forall|i: int| 0 <= i < s.len() ==> idx38(#[trigger] s[i]) is Some
}

/// The eleven places of a text padded with spaces on the left.
pub open spec fn long_digits(s: Seq<char>) -> Seq<nat> {
    Seq::new(
        11,
        |i: int|
            if i < 11 - s.len() {
                0
            } else {
                idx38(s[i - (11 - s.len())])->0
            },
    )
}

/// A type 4 message.
pub open spec fn long_bits(n12: nat, n58: nat, iflip: nat, nrpt: nat, icq: nat) -> Seq<u8> {
    let m = with_field(blank(), 0, 12, n12);
    let m = with_field(m, 12, 58, n58);
    let m = with_field(m, 70, 1, iflip);
    let m = with_field(m, 71, 2, nrpt);
    let m = with_field(m, 73, 1, icq);
    with_field(m, 74, 3, 4)
}

pub open spec fn short_report(report: Seq<char>) -> Option<nat> {
    let r = trim(report);
    if r == ""@ {
        Some(0)
    } else if r == "RRR"@ {
        Some(1)
    } else if r == "RR73"@ {
        Some(2)
    } else if r == "73"@ {
        Some(3)
    } else {
        None
    }
}

/// One non-standard callsign of 1 to 11 characters and a hash of the other,
/// or a CQ. The hash comes first when the other call has a token.
pub open spec fn packed_type4(
    nonstd: Seq<char>,
    std_call: Seq<char>,
    report: Seq<char>,
    is_cq: bool,
) -> Option<Seq<u8>> {
    let s = upper_text(trim(nonstd));
    if s.len() == 0 || s.len() > 11 || !in_38(s) {
        None
    } else {
        match short_report(report) {
            Some(nrpt) => Some(
                long_bits(
                    if is_cq {
                        0
                    } else {
                        hash_bits(encode_utf8(std_call), 12)
                    },
                    value(long_digits(s), 38),
                    if is_cq || token_of(std_call) is Some {
                        0
                    } else {
                        1
                    },
                    nrpt,
                    if is_cq {
                        1
                    } else {
                        0
                    },
                ),
            ),
            None => None,
        }
    }
}

pub proof fn lemma_long_digits(s: Seq<char>)
    requires
        s.len() <= 11,
        in_38(s),
    ensures
        in_base(long_digits(s), 38),
        value(long_digits(s), 38) < 288230376151711744,
{
    let d = long_digits(s);
    assert forall|i: int| 0 <= i < d.len() implies #[trigger] d[i] < 38 by {
        if i >= 11 - s.len() {
            assert(idx38(s[i - (11 - s.len())]) is Some);
            crate::alphabet::lemma_idx38(s[i - (11 - s.len())]);
        }
    }
    crate::radix::lemma_value_bound(d, 38);
    lemma_pow_values();
}

/// The base-38 number of a callsign, if every character is in the alphabet.
fn long_number(s: &[char]) -> (r: Option<u64>)
    requires
        s.len() <= 11,
    ensures
        match r {
            Some(n) => in_38(s@) && n == value(long_digits(s@), 38) && n < 288230376151711744,
            None => !in_38(s@),
        },
{
    let mut n: u64 = 0;
    let mut i: usize = 0;
    let ghost d = long_digits(s@);
    let pad: usize = 11 - s.len();
    proof {
        lemma_zero_prefix(d, pad as int);
    }
    while i < s.len()
        invariant
            i <= s.len() <= 11,
            pad == 11 - s.len(),
            d == long_digits(s@),
            n == value(d.take(pad + i), 38),
            forall|j: int| 0 <= j < i ==> idx38(#[trigger] s@[j]) is Some,
        decreases s.len() - i,
    {
        match index38(s[i]) {
            Some(k) => {
                proof {
                    let h = d.take(pad + i);
                    assert(in_base(h, 38)) by {
                        assert forall|j: int| 0 <= j < h.len() implies #[trigger] h[j] < 38 by {
                            if j >= pad {
                                crate::alphabet::lemma_idx38(s@[j - pad]);
                            }
                        }
                    }
                    crate::radix::lemma_value_bound(h, 38);
                    vstd::arithmetic::power::lemma_pow_increases(38, h.len(), 11);
                    lemma_pow_values();
                    assert(d.take(pad + i + 1).drop_last() =~= h);
                }
                n = n * 38 + k as u64;
            },
            None => {
                assert(idx38(s@[i as int]) is None);
                return None;
            },
        }
        i += 1;
    }
    proof {
        assert(d.take(11) =~= d);
        lemma_long_digits(s@);
    }
    Some(n)
}

proof fn lemma_zero_prefix(d: Seq<nat>, k: int)
    requires
        0 <= k <= d.len(),
        forall|i: int| 0 <= i < k ==> #[trigger] d[i] == 0,
    ensures
        value(d.take(k), 38) == 0,
    decreases k,
{
    if k > 0 {
        lemma_zero_prefix(d, k - 1);
        assert(d.take(k).drop_last() =~= d.take(k - 1));
    }
}

/// Pack a message with a non-standard callsign.
///
/// - `nonstd`: 1 to 11 characters, letters, digits, `/` and inner spaces;
/// - `std_call`: the other station, sent as a 12-bit hash (not read for a
///   CQ);
/// - `report`: nothing, `RRR`, `RR73` or `73`;
/// - `is_cq`: send `CQ nonstd`.
pub fn pack77_type4(nonstd: &str, std_call: &str, report: &str, is_cq: bool) -> (r: Option<
    [u8; 77],
>)
    ensures
        bits_of(r) == packed_type4(nonstd@, std_call@, report@, is_cq),
{
    let all = chars_of(nonstd);
    let t = trimmed(all.as_slice());
    let s = upper_of(t.as_slice());
    if s.len() == 0 || s.len() > 11 {
        return None;
    }
    let n58: u64 = match long_number(s.as_slice()) {
        Some(n) => n,
        None => {
            return None;
        },
    };
    let n12: u32 = if is_cq {
        0
    } else {
        ihashcall(std_call, 12)
    };
    let rep = chars_of(report);
    let rt = trimmed(rep.as_slice());
    let nrpt: u32 = if is_str(rt.as_slice(), "") {
        0
    } else if is_str(rt.as_slice(), "RRR") {
        1
    } else if is_str(rt.as_slice(), "RR73") {
        2
    } else if is_str(rt.as_slice(), "73") {
        3
    } else {
        return None;
    };
    let iflip: u8 = if is_cq || pack28(std_call).is_some() {
        0
    } else {
        1
    };
    let icq: u8 = if is_cq {
        1
    } else {
        0
    };
    let mut m: [u8; 77] = [0u8; 77];
    assert(m@ =~= blank());
    write_bits(&mut m, 0, 12, n12 as u128);
    write_bits(&mut m, 12, 58, n58 as u128);
    write_bits(&mut m, 70, 1, iflip as u128);
    write_bits(&mut m, 71, 2, nrpt as u128);
    write_bits(&mut m, 73, 1, icq as u128);
    write_bits(&mut m, 74, 3, 4);
    Some(m)
}

/// Every character stands in the free-text alphabet.
pub open spec fn in_42(s: Seq<char>) -> bool {
    forall|i: int| 0 <= i < s.len() ==> idx42(#[trigger] s[i]) is Some
}

/// The thirteen places of a text padded with spaces on the right.
pub open spec fn text_digits(s: Seq<char>) -> Seq<nat> {
    Seq::new(
        13,
        |i: int|
            if i < s.len() {
                idx42(s[i])->0
            } else {
                0
            },
    )
}

/// Up to thirteen characters of the free-text alphabet, case ignored.
pub open spec fn packed_text(text: Seq<char>) -> Option<Seq<u8>> {
    let s = upper_text(text);
    if s.len() == 0 || s.len() > 13 || !in_42(s) {
        None
    } else {
        Some(with_field(blank(), 0, 71, value(text_digits(s), 42)))
    }
}

pub proof fn lemma_text_digits(s: Seq<char>)
    requires
        s.len() <= 13,
        in_42(s),
    ensures
        in_base(text_digits(s), 42),
        value(text_digits(s), 42) < 1265437718438866624512,
{
    let d = text_digits(s);
    assert forall|i: int| 0 <= i < d.len() implies #[trigger] d[i] < 42 by {
        if i < s.len() {
            assert(idx42(s[i]) is Some);
            crate::alphabet::lemma_idx42(s[i]);
        }
    }
    crate::radix::lemma_value_bound(d, 42);
    lemma_pow_values();
}

/// Pack a free-text message of up to thirteen characters: letters, digits,
/// space and `+-./?`.
pub fn pack77_free_text(text: &str) -> (r: Option<[u8; 77]>)
    ensures
        bits_of(r) == packed_text(text@),
{
    let all = chars_of(text);
    let s = upper_of(all.as_slice());
    if s.len() == 0 || s.len() > 13 {
        return None;
    }
    let ghost d = text_digits(s@);
    let mut n: u128 = 0;
    let mut i: usize = 0;
    assert(d.take(0) =~= Seq::<nat>::empty());
    while i < 13
        invariant
            i <= 13,
            1 <= s.len() <= 13,
            s@ == upper_text(text@),
            d == text_digits(s@),
            n == value(d.take(i as int), 42),
            forall|j: int| 0 <= j < i && j < s.len() ==> idx42(#[trigger] s@[j]) is Some,
        decreases 13 - i,
    {
        let mut k: u32 = 0;
        if i < s.len() {
            match index42(s[i]) {
                Some(x) => {
                    k = x;
                },
                None => {
                    assert(idx42(s@[i as int]) is None);
                    return None;
                },
            }
        }
        proof {
            let h = d.take(i as int);
            assert(in_base(h, 42)) by {
                assert forall|j: int| 0 <= j < h.len() implies #[trigger] h[j] < 42 by {
                    if j < s.len() {
                        crate::alphabet::lemma_idx42(s@[j]);
                    }
                }
            }
            crate::radix::lemma_value_bound(h, 42);
            vstd::arithmetic::power::lemma_pow_increases(42, h.len(), 13);
            lemma_pow_values();
            assert(d.take(i + 1).drop_last() =~= h);
        }
        n = n * 42 + k as u128;
        i += 1;
    }
    assert(d.take(13) =~= d);
    let mut m: [u8; 77] = [0u8; 77];
    assert(m@ =~= blank());
    write_bits(&mut m, 0, 71, n);
    Some(m)
}

}
