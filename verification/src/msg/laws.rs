//! Packing and unpacking undo each other.

use crate::alphabet::{chr10, idx27, idx38};
use crate::bits::{bits, field, with_field};
use crate::msg::callsign::all_upper;
use crate::msg::hash_table::{hash_bits, find12, TableView};
use crate::msg::pack::{
    blank, cq_token, direction_index, grid_index, in_38, index6, layout6, long_bits, long_digits,
    packed, packed_text, packed_type1, packed_type4, place, report_fields, short_report, standard_bits,
    standard_token, text_digits, token_of,
};
use crate::msg::wsjt77::{
    body, call6, direction, grid4, hashed_text, is_cq, message, report_text, standard,
    standard_report, text11, text13, token, token_with, MAX_GRID4,
};
use crate::radix::{digits, value};
use crate::text::{
    all_digits, dec, dec_value, is_digit, is_upper, is_white, pad_left, parse_signed,
    parse_unsigned, starts_with, to_upper, trim, trim_end, trim_start, upper_text,
};
use vstd::prelude::*;
use vstd::utf8::encode_utf8;

verus! {

// ── Trimming ────────────────────────────────────────────────────────────────

pub open spec fn spaces(n: nat) -> Seq<char> {
    Seq::new(n, |i: int| ' ')
}

/// No white space at either end.
pub open spec fn tight(s: Seq<char>) -> bool {
    s.len() > 0 ==> !is_white(s[0]) && !is_white(s.last())
}

proof fn lemma_trim_start_spaces(n: nat, s: Seq<char>)
    requires
        s.len() > 0 ==> !is_white(s[0]),
    ensures
        trim_start(spaces(n) + s) == s,
    decreases n,
{
    let x = spaces(n) + s;
    if n == 0 {
        assert(x =~= s);
    } else {
        assert(x[0] == ' ');
        assert(x.skip(1) =~= spaces((n - 1) as nat) + s);
        lemma_trim_start_spaces((n - 1) as nat, s);
    }
}

proof fn lemma_trim_end_spaces(s: Seq<char>, n: nat)
    requires
        s.len() > 0 ==> !is_white(s.last()),
    ensures
        trim_end(s + spaces(n)) == s,
    decreases n,
{
    let x = s + spaces(n);
    if n == 0 {
        assert(x =~= s);
    } else {
        assert(x.last() == ' ');
        assert(x.drop_last() =~= s + spaces((n - 1) as nat));
        lemma_trim_end_spaces(s, (n - 1) as nat);
    }
}

/// Spaces around a tight text are what trimming removes.
pub proof fn lemma_trim_padded(a: nat, s: Seq<char>, b: nat)
    requires
        tight(s),
        s.len() > 0,
    ensures
        trim(spaces(a) + s + spaces(b)) == s,
{
    assert(spaces(a) + s + spaces(b) =~= spaces(a) + (s + spaces(b)));
    lemma_trim_start_spaces(a, s + spaces(b));
    lemma_trim_end_spaces(s, b);
}

// ── Tokens ──────────────────────────────────────────────────────────────────

/// The six places read back from their number.
pub proof fn lemma_call6_of_index6(b: Seq<char>)
    requires
        b.len() == 6,
        index6(b) is Some,
    ensures
        call6(index6(b)->0) == b,
        index6(b)->0 / 7085880 < 37,
{
    crate::alphabet::lemma_idx37(b[0]);
    crate::alphabet::lemma_idx36(b[1]);
    crate::alphabet::lemma_idx10(b[2]);
    crate::alphabet::lemma_idx27(b[3]);
    crate::alphabet::lemma_idx27(b[4]);
    crate::alphabet::lemma_idx27(b[5]);
    let i1 = crate::alphabet::idx37(b[0])->0;
    let i2 = crate::alphabet::idx36(b[1])->0;
    let i3 = crate::alphabet::idx10(b[2])->0;
    let i4 = idx27(b[3])->0;
    let i5 = idx27(b[4])->0;
    let i6 = idx27(b[5])->0;
    let m = index6(b)->0;
    assert(m == i1 * 7085880 + i2 * 196830 + i3 * 19683 + i4 * 729 + i5 * 27 + i6);
    assert(m / 7085880 == i1);
    assert(m / 196830 == i1 * 36 + i2);
    assert(m / 19683 == (i1 * 36 + i2) * 10 + i3);
    assert(m / 729 == ((i1 * 36 + i2) * 10 + i3) * 27 + i4);
    assert(m / 27 == (((i1 * 36 + i2) * 10 + i3) * 27 + i4) * 27 + i5);
    assert(call6(m) =~= b);
}

proof fn lemma_upper_tight(c: Seq<char>)
    requires
        tight(c),
    ensures
        tight(upper_text(c)),
{
    if c.len() > 0 {
        assert(upper_text(c)[0] == to_upper(c[0]));
        assert(upper_text(c).last() == to_upper(c.last()));
    }
}

/// A standard callsign is read back from its token, in upper case.
pub proof fn law_standard_token_reads_back(c: Seq<char>)
    requires
        tight(c),
        standard_token(c) is Some,
    ensures
        token(standard_token(c)->0) == upper_text(c),
{
    let b = layout6(c)->0;
    let u = upper_text(c);
    crate::msg::pack::lemma_standard_token_bound(c);
    lemma_call6_of_index6(b);
    lemma_upper_tight(c);
    if c.len() >= 3 && is_digit(c[2]) {
        assert(b =~= spaces(0) + u + spaces((6 - c.len()) as nat));
        lemma_trim_padded(0, u, (6 - c.len()) as nat);
    } else {
        assert(b =~= spaces(1) + u + spaces((5 - c.len()) as nat));
        lemma_trim_padded(1, u, (5 - c.len()) as nat);
    }
}

/// A directional CQ is read back from its token.
pub proof fn law_directional_cq_reads_back(s: Seq<char>)
    requires
        1 <= s.len() <= 4,
        all_upper(s),
    ensures
        cq_token(s) is Some,
        token(cq_token(s)->0) == "CQ "@ + s,
{
    assert(is_upper(s[0]));
    assert(parse_unsigned(s, 999) is None) by {
        let t = if s.len() > 1 && s[0] == '+' {
            s.skip(1)
        } else {
            s
        };
        assert(!is_digit(t[0]));
    }
    let i1 = direction_index(s, 0);
    let i2 = direction_index(s, 1);
    let i3 = direction_index(s, 2);
    let i4 = direction_index(s, 3);
    assert(s.len() > 1 ==> is_upper(s[1]));
    assert(s.len() > 2 ==> is_upper(s[2]));
    assert(s.len() > 3 ==> is_upper(s[3]));
    let n = cq_token(s)->0;
    let m = (n - 1003) as nat;
    assert(m == i1 * 19683 + i2 * 729 + i3 * 27 + i4);
    assert(m / 19683 == i1);
    assert(m / 729 == i1 * 27 + i2);
    assert(m / 27 == (i1 * 27 + i2) * 27 + i3);
    assert(direction(m) =~= spaces(0) + s + spaces((4 - s.len()) as nat));
    assert(is_upper(s.last()));
    lemma_trim_padded(0, s, (4 - s.len()) as nat);
}

/// The three-digit decimal of a number below a thousand.
proof fn lemma_pad3(n: nat)
    requires
        n < 1000,
    ensures
        pad_left(dec(n), 3, '0') == seq![chr10(n / 100), chr10(n / 10 % 10), chr10(n % 10)],
{
    reveal_with_fuel(dec, 4);
    assert(n >= 100 ==> n / 10 / 10 == n / 100);
    assert(pad_left(dec(n), 3, '0') =~= seq![chr10(n / 100), chr10(n / 10 % 10), chr10(n % 10)]);
}

proof fn lemma_pad2(n: nat)
    requires
        n < 100,
    ensures
        pad_left(dec(n), 2, '0') == seq![chr10(n / 10), chr10(n % 10)],
{
    reveal_with_fuel(dec, 3);
    assert(pad_left(dec(n), 2, '0') =~= seq![chr10(n / 10), chr10(n % 10)]);
}

/// A numbered CQ is read back from its token.
pub proof fn law_numbered_cq_reads_back(s: Seq<char>)
    requires
        s.len() == 3,
        is_digit(s[0]),
        is_digit(s[1]),
        is_digit(s[2]),
    ensures
        cq_token(s) is Some,
        token(cq_token(s)->0) == "CQ "@ + s,
{
    let d = Seq::new(s.len(), |i: int| (s[i] as u32 - 48) as nat);
    reveal_with_fuel(value, 4);
    assert(d.drop_last().drop_last().drop_last() =~= Seq::<nat>::empty());
    assert(value(d, 10) == d[0] * 100 + d[1] * 10 + d[2]);
    let n = dec_value(s);
    assert(parse_unsigned(s, 999) == Some(n));
    lemma_pad3(n);
    assert(n / 100 == d[0] && n / 10 % 10 == d[1] && n % 10 == d[2]);
    assert(pad_left(dec(n), 3, '0') =~= s);
}

// ── Grids and reports ───────────────────────────────────────────────────────

/// A locator is read back from its index, in upper case.
pub proof fn law_grid_reads_back(g: Seq<char>)
    requires
        grid_index(g) is Some,
    ensures
        grid_index(g)->0 < MAX_GRID4,
        grid4(grid_index(g)->0) == Some(upper_text(g)),
{
    let n = grid_index(g)->0;
    let j1 = (to_upper(g[0]) as u32 - 65) as nat;
    let j2 = (to_upper(g[1]) as u32 - 65) as nat;
    let j3 = (g[2] as u32 - 48) as nat;
    let j4 = (g[3] as u32 - 48) as nat;
    assert(n == j1 * 1800 + j2 * 100 + j3 * 10 + j4);
    assert(n / 1800 == j1 && n / 100 % 18 == j2 && n / 10 % 10 == j3 && n % 10 == j4);
    assert(grid4(n)->0 =~= upper_text(g));
}

/// A signal report as it is written: an optional `R`, a sign, two digits.
pub open spec fn written_report(r: Seq<char>) -> bool {
    let k = if r.len() > 0 && r[0] == 'R' {
        1int
    } else {
        0
    };
    &&& r.len() == k + 3
    &&& r[k] == '+' || r[k] == '-'
    &&& is_digit(r[k + 1])
    &&& is_digit(r[k + 2])
}

/// The number of a written report.
pub open spec fn report_value(r: Seq<char>) -> int {
    let n = (r[r.len() - 2] as u32 - 48) * 10 + (r[r.len() - 1] as u32 - 48);
    if r[r.len() - 3] == '-' {
        -n
    } else {
        n
    }
}

proof fn lemma_two_digits(s: Seq<char>)
    requires
        s.len() == 2,
        is_digit(s[0]),
        is_digit(s[1]),
    ensures
        crate::text::all_digits(s),
        dec_value(s) == (s[0] as u32 - 48) * 10 + (s[1] as u32 - 48),
{
    let d = Seq::new(s.len(), |i: int| (s[i] as u32 - 48) as nat);
    reveal_with_fuel(value, 3);
    assert(d.drop_last().drop_last() =~= Seq::<nat>::empty());
}

/// A written report is what its number is written as.
pub proof fn lemma_report_of_written(r: Seq<char>)
    requires
        written_report(r),
        report_value(r) == 0 ==> r[r.len() - 3] == '+',
    ensures
        -99 <= report_value(r) <= 99,
        report_text(
            report_value(r),
            if r[0] == 'R' {
                1
            } else {
                0
            },
        ) == r,
{
    reveal_strlit("R");
    reveal_strlit("+");
    reveal_strlit("-");
    reveal_strlit("");
    let k = if r[0] == 'R' {
        1int
    } else {
        0
    };
    let v = report_value(r);
    let n = if v >= 0 {
        v as nat
    } else {
        (-v) as nat
    };
    lemma_pad2(n);
    assert(pad_left(dec(n), 2, '0') =~= seq![r[k + 1], r[k + 2]]);
    assert(report_text(v, k) =~= r);
}

/// A report from -50 to +49, written with its sign and two digits, is read
/// back from its fields. (`-00` reads back as `+00`.)
pub proof fn law_report_reads_back(r: Seq<char>)
    requires
        written_report(r),
        -50 <= report_value(r) <= 49,
        report_value(r) == 0 ==> r[r.len() - 3] == '+',
    ensures
        report_fields(r) is Some,
        (report_fields(r)->0).0 < 32768,
        (report_fields(r)->0).1 < 2,
        standard_report((report_fields(r)->0).0, (report_fields(r)->0).1 as int, false) == Some(r),
{
    reveal_strlit("RRR");
    reveal_strlit("RR73");
    reveal_strlit("73");
    reveal_strlit("R");
    reveal_strlit("+");
    reveal_strlit("-");
    reveal_strlit("");
    let k = if r[0] == 'R' {
        1int
    } else {
        0
    };
    crate::text::lemma_trim_tight(r);
    assert(grid_index(r) is None);
    assert("RRR"@[1] == 'R');
    assert("RR73"@[1] == 'R');
    assert("73"@.len() == 2);
    let num = r.skip(k);
    assert(k == 0 ==> num =~= r);
    let d2 = num.skip(1);
    assert(d2 =~= seq![r[k + 1], r[k + 2]]);
    lemma_two_digits(d2);
    let v = report_value(r);
    assert(parse_signed(num) == Some(v));
    let n = if v >= 0 {
        v as nat
    } else {
        (-v) as nat
    };
    lemma_pad2(n);
    assert(pad_left(dec(n), 2, '0') =~= d2);
    let f = report_fields(r)->0;
    assert(f.0 == MAX_GRID4 + (if v < -30 {
        v + 136
    } else {
        v + 35
    }));
    assert(report_text(v, f.1 as int) =~= r);
}

// ── Standard messages ───────────────────────────────────────────────────────

proof fn lemma_bit(msg: Seq<u8>, i: int)
    requires
        0 <= i < msg.len(),
    ensures
        field(msg, i, 1) == msg[i] % 2,
{
    let b = bits(msg.subrange(i, i + 1));
    assert(b.drop_last() =~= Seq::<nat>::empty());
    reveal_with_fuel(value, 2);
    assert(b.last() == (msg[i] % 2) as nat);
}

/// The fields of a type 1 message are the ones it was built from.
pub proof fn lemma_standard_fields(a: nat, b: nat, ir: nat, igrid: nat)
    requires
        a < 0x1000_0000,
        b < 0x1000_0000,
        ir < 2,
        igrid < 32768,
    ensures
        ({
            let m = standard_bits(a, b, ir, igrid);
            &&& m.len() == 77
            &&& field(m, 0, 28) == a
            &&& field(m, 29, 28) == b
            &&& m[28] % 2 == 0
            &&& m[57] % 2 == 0
            &&& m[58] % 2 == ir
            &&& field(m, 59, 15) == igrid
            &&& field(m, 74, 3) == 1
        }),
{
    crate::bits::lemma_pow2_values();
    let m0 = blank();
    let m1 = with_field(m0, 0, 28, a);
    let m2 = with_field(m1, 29, 28, b);
    let m3 = with_field(m2, 58, 1, ir);
    let m4 = with_field(m3, 59, 15, igrid);
    let m5 = with_field(m4, 74, 3, 1);
    crate::bits::lemma_field_of_with_field(m0, 0, 28, a);
    crate::bits::lemma_field_elsewhere(m1, 29, 28, b, 0, 28);
    crate::bits::lemma_field_elsewhere(m2, 58, 1, ir, 0, 28);
    crate::bits::lemma_field_elsewhere(m3, 59, 15, igrid, 0, 28);
    crate::bits::lemma_field_elsewhere(m4, 74, 3, 1, 0, 28);
    crate::bits::lemma_field_of_with_field(m1, 29, 28, b);
    crate::bits::lemma_field_elsewhere(m2, 58, 1, ir, 29, 28);
    crate::bits::lemma_field_elsewhere(m3, 59, 15, igrid, 29, 28);
    crate::bits::lemma_field_elsewhere(m4, 74, 3, 1, 29, 28);
    crate::bits::lemma_field_of_with_field(m2, 58, 1, ir);
    crate::bits::lemma_field_elsewhere(m3, 59, 15, igrid, 58, 1);
    crate::bits::lemma_field_elsewhere(m4, 74, 3, 1, 58, 1);
    lemma_bit(m5, 58);
    crate::bits::lemma_field_of_with_field(m3, 59, 15, igrid);
    crate::bits::lemma_field_elsewhere(m4, 74, 3, 1, 59, 15);
    crate::bits::lemma_field_of_with_field(m4, 74, 3, 1);
    assert(m5[28] == 0u8);
    assert(m5[57] == 0u8);
}

/// What a packed standard message says, field by field.
pub proof fn law_standard_message_fields(a: nat, b: nat, ir: nat, igrid: nat, t: TableView)
    requires
        a < 0x1000_0000,
        b < 0x1000_0000,
        ir < 2,
        igrid < 32768,
    ensures
        body(standard_bits(a, b, ir, igrid), t) == match standard_report(
            igrid,
            ir as int,
            is_cq(token_with(a, t)),
        ) {
            Some(report) => Some(
                if report.len() == 0 {
                    token_with(a, t) + " "@ + token_with(b, t)
                } else {
                    token_with(a, t) + " "@ + token_with(b, t) + " "@ + report
                },
            ),
            None => None,
        },
{
    lemma_standard_fields(a, b, ir, igrid);
}

/// A callsign in upper case that has a token.
pub open spec fn plain_call(c: Seq<char>) -> bool {
    tight(c) && standard_token(c) is Some && upper_text(c) == c
}

pub proof fn lemma_plain_call(c: Seq<char>, t: TableView)
    requires
        plain_call(c),
    ensures
        token_of(c) == standard_token(c),
        standard_token(c)->0 < 0x1000_0000,
        token_with(standard_token(c)->0, t) == c,
        !is_cq(c),
        c.len() >= 2,
        c[0] != '<',
        is_digit(c[1]) || (c.len() >= 3 && is_digit(c[2])),
{
    reveal_strlit("DE");
    reveal_strlit("QRZ");
    reveal_strlit("CQ");
    reveal_strlit("CQ ");
    crate::text::lemma_trim_tight(c);
    crate::msg::pack::lemma_standard_token_bound(c);
    law_standard_token_reads_back(c);
    assert("DE"@[1] == 'E');
    assert("QRZ"@[1] == 'R' && "QRZ"@[2] == 'Z');
    assert("CQ"@[1] == 'Q');
    if starts_with(c, "CQ "@) {
        assert(c.take(3)[1] == 'Q' && c.take(3)[2] == ' ');
    }
    let b = layout6(c)->0;
    lemma_call6_of_index6(b);
    assert(upper_text(c)[0] == to_upper(c[0]));
    if is_digit(c[1]) && !(c.len() >= 3 && is_digit(c[2])) {
        assert(b[1] == to_upper(c[0]));
        crate::alphabet::lemma_idx36(b[1]);
    } else {
        assert(b[0] == to_upper(c[0]));
        crate::alphabet::lemma_idx37(b[0]);
    }
}

/// A third field other than nothing, written as it is read.
pub open spec fn plain_report(r: Seq<char>) -> bool {
    ||| r == "RRR"@
    ||| r == "RR73"@
    ||| r == "73"@
    ||| grid_index(r) is Some && upper_text(r) == r && r != "RR73"@
    ||| written_report(r) && -50 <= report_value(r) <= 49 && (report_value(r) == 0
        ==> r[r.len() - 3] == '+')
}

proof fn lemma_plain_report(r: Seq<char>)
    requires
        plain_report(r),
    ensures
        report_fields(r) is Some,
        (report_fields(r)->0).0 < 32768,
        (report_fields(r)->0).1 < 2,
        standard_report((report_fields(r)->0).0, (report_fields(r)->0).1 as int, false) == Some(r),
        r.len() > 0,
{
    reveal_strlit("RRR");
    reveal_strlit("RR73");
    reveal_strlit("73");
    if r == "RRR"@ || r == "RR73"@ || r == "73"@ {
        crate::text::lemma_trim_tight(r);
        assert("RRR"@.len() == 3 && "RR73"@.len() == 4 && "73"@.len() == 2);
    } else if grid_index(r) is Some {
        crate::text::lemma_trim_tight(r);
        assert("RRR"@.len() == 3 && "73"@.len() == 2);
        law_grid_reads_back(r);
    } else {
        law_report_reads_back(r);
    }
}

proof fn lemma_not_cq_hash(c1: Seq<char>, rest: Seq<char>)
    requires
        c1.len() >= 2,
        is_digit(c1[1]) || (c1.len() >= 3 && is_digit(c1[2])),
    ensures
        !starts_with(c1 + rest, "CQ <"@),
{
    reveal_strlit("CQ <");
    let x = c1 + rest;
    if starts_with(x, "CQ <"@) {
        assert(x.take(4)[1] == 'Q' && x.take(4)[2] == ' ');
        assert(x[1] == c1[1]);
        if c1.len() >= 3 {
            assert(x[2] == c1[2]);
        }
    }
}

/// A message of two callsigns and a report, packed and unpacked, is the
/// message again.
#[verifier::spinoff_prover]
#[verifier::rlimit(40)]
pub proof fn law_standard_message_reads_back(
    c1: Seq<char>,
    c2: Seq<char>,
    r: Seq<char>,
    t: TableView,
)
    requires
        plain_call(c1),
        plain_call(c2),
        plain_report(r),
    ensures
        packed(c1, c2, r) is Some,
        message(packed(c1, c2, r)->0, t) == Some(c1 + " "@ + c2 + " "@ + r),
{
    lemma_plain_call(c1, t);
    lemma_plain_call(c2, t);
    lemma_plain_report(r);
    let f = report_fields(r)->0;
    law_standard_message_fields(standard_token(c1)->0, standard_token(c2)->0, f.1, f.0, t);
    assert(c1 + " "@ + c2 + " "@ + r =~= c1 + (" "@ + c2 + " "@ + r));
    lemma_not_cq_hash(c1, " "@ + c2 + " "@ + r);
}

/// A message of two callsigns alone, packed and unpacked, is the message
/// again.
#[verifier::spinoff_prover]
#[verifier::rlimit(40)]
pub proof fn law_bare_message_reads_back(c1: Seq<char>, c2: Seq<char>, t: TableView)
    requires
        plain_call(c1),
        plain_call(c2),
    ensures
        packed(c1, c2, ""@) is Some,
        message(packed(c1, c2, ""@)->0, t) == Some(c1 + " "@ + c2),
{
    reveal_strlit("");
    lemma_plain_call(c1, t);
    lemma_plain_call(c2, t);
    assert(trim(""@).len() == 0);
    law_standard_message_fields(
        standard_token(c1)->0,
        standard_token(c2)->0,
        0,
        (MAX_GRID4 + 1) as nat,
        t,
    );
    assert(c1 + " "@ + c2 =~= c1 + (" "@ + c2));
    lemma_not_cq_hash(c1, " "@ + c2);
}

/// A CQ with a locator, packed and unpacked, is the CQ again.
#[verifier::spinoff_prover]
#[verifier::rlimit(40)]
pub proof fn law_cq_reads_back(c2: Seq<char>, g: Seq<char>, t: TableView)
    requires
        plain_call(c2),
        grid_index(g) is Some,
        upper_text(g) == g,
        g != "RR73"@,
    ensures
        packed("CQ"@, c2, g) is Some,
        message(packed("CQ"@, c2, g)->0, t) == Some("CQ"@ + " "@ + c2 + " "@ + g),
{
    reveal_strlit("CQ");
    reveal_strlit("DE");
    reveal_strlit("QRZ");
    reveal_strlit("CQ <");
    reveal_strlit(" ");
    lemma_plain_call(c2, t);
    lemma_plain_report(g);
    crate::text::lemma_trim_tight("CQ"@);
    crate::text::lemma_trim_tight(g);
    assert("CQ"@[0] == 'C' && "DE"@[0] == 'D');
    assert(token_of("CQ"@) == Some(2nat));
    reveal_strlit("RRR");
    reveal_strlit("73");
    assert("RRR"@.len() == 3 && "73"@.len() == 2);
    law_grid_reads_back(g);
    law_standard_message_fields(2, standard_token(c2)->0, 0, grid_index(g)->0, t);
    let x = "CQ"@ + " "@ + c2 + " "@ + g;
    if starts_with(x, "CQ <"@) {
        assert(x.take(4)[3] == '<');
        assert(x[3] == c2[0]);
    }
}

/// No message that is read begins as a CQ to a hashed callsign.
pub proof fn law_no_cq_to_a_hash(msg: Seq<u8>, t: TableView)
    ensures
        message(msg, t) matches Some(text) ==> !starts_with(text, "CQ <"@),
{
}

/// A CQ carries a locator or nothing: no `R`, no report, no `RRR`.
pub proof fn law_cq_carries_no_report(igrid: nat, ir: int)
    requires
        standard_report(igrid, ir, true) is Some,
    ensures
        standard_report(igrid, ir, true) == Some(""@) || (ir != 1 && igrid < MAX_GRID4 && (ir == 0
            ==> standard_report(igrid, ir, true) == grid4(igrid))),
{
}

// ── Free text ───────────────────────────────────────────────────────────────

proof fn lemma_zero_bits(n: nat)
    requires
        n <= 77,
    ensures
        value(bits(Seq::new(n, |i: int| 0u8)), 2) == 0,
    decreases n,
{
    let z = bits(Seq::new(n, |i: int| 0u8));
    if n > 0 {
        lemma_zero_bits((n - 1) as nat);
        assert(z.drop_last() =~= bits(Seq::new((n - 1) as nat, |i: int| 0u8)));
    }
}

/// Free text, packed and unpacked, is the text in upper case without the
/// spaces around it; blank text is no message.
pub proof fn law_free_text_reads_back(text: Seq<char>, t: TableView)
    requires
        packed_text(text) is Some,
    ensures
        ({
            let u = trim(upper_text(text));
            message(packed_text(text)->0, t) == if u.len() == 0 || starts_with(u, "CQ <"@) {
                None
            } else {
                Some(u)
            }
        }),
{
    let s = upper_text(text);
    let d = text_digits(s);
    let n = value(d, 42);
    let m = packed_text(text)->0;
    crate::msg::pack::lemma_text_digits(s);
    crate::bits::lemma_pow2_values();
    crate::bits::lemma_field_of_with_field(blank(), 0, 71, n);
    crate::bits::lemma_field_elsewhere(blank(), 0, 71, n, 71, 3);
    crate::bits::lemma_field_elsewhere(blank(), 0, 71, n, 74, 3);
    assert(blank().subrange(71, 74) =~= Seq::new(3, |i: int| 0u8));
    assert(blank().subrange(74, 77) =~= Seq::new(3, |i: int| 0u8));
    lemma_zero_bits(3);
    crate::radix::lemma_digits_of_value(d, 42);
    let x = text13(n);
    assert(x =~= s + spaces((13 - s.len()) as nat)) by {
        assert forall|i: int| 0 <= i < 13 implies x[i] == (s + spaces((13 - s.len()) as nat))[i] by {
            if i < s.len() {
                crate::alphabet::lemma_idx42(s[i]);
            }
        }
    }
    lemma_trim_trailing(s, (13 - s.len()) as nat);
}

/// Trailing spaces make no difference to trimming.
proof fn lemma_trim_trailing(s: Seq<char>, n: nat)
    ensures
        trim(s + spaces(n)) == trim(s),
    decreases s.len(),
{
    if s.len() == 0 {
        assert(s + spaces(n) =~= spaces(n) + Seq::<char>::empty());
        lemma_trim_start_spaces(n, Seq::<char>::empty());
        assert(s =~= Seq::<char>::empty());
    } else if is_white(s[0]) {
        assert((s + spaces(n)).skip(1) =~= s.skip(1) + spaces(n));
        assert((s + spaces(n))[0] == s[0]);
        lemma_trim_trailing(s.skip(1), n);
    } else {
        assert((s + spaces(n))[0] == s[0]);
        assert(trim_start(s + spaces(n)) == s + spaces(n));
        lemma_trim_end_more(s, n);
    }
}

proof fn lemma_trim_end_more(s: Seq<char>, n: nat)
    ensures
        trim_end(s + spaces(n)) == trim_end(s),
    decreases n,
{
    let x = s + spaces(n);
    if n == 0 {
        assert(x =~= s);
    } else {
        assert(x.last() == ' ');
        assert(x.drop_last() =~= s + spaces((n - 1) as nat));
        lemma_trim_end_more(s, (n - 1) as nat);
    }
}

// ── Non-standard callsigns ──────────────────────────────────────────────────

proof fn lemma_long_fields(n12: nat, n58: nat, iflip: nat, nrpt: nat, icq: nat)
    requires
        n12 < 4096,
        n58 < 288230376151711744,
        iflip < 2,
        nrpt < 4,
        icq < 2,
    ensures
        ({
            let m = long_bits(n12, n58, iflip, nrpt, icq);
            &&& m.len() == 77
            &&& field(m, 0, 12) == n12
            &&& field(m, 12, 58) == n58
            &&& m[70] % 2 == iflip
            &&& field(m, 71, 2) == nrpt
            &&& m[73] % 2 == icq
            &&& field(m, 74, 3) == 4
        }),
{
    crate::bits::lemma_pow2_values();
    let m0 = blank();
    let m1 = with_field(m0, 0, 12, n12);
    let m2 = with_field(m1, 12, 58, n58);
    let m3 = with_field(m2, 70, 1, iflip);
    let m4 = with_field(m3, 71, 2, nrpt);
    let m5 = with_field(m4, 73, 1, icq);
    let m6 = with_field(m5, 74, 3, 4);
    crate::bits::lemma_field_of_with_field(m0, 0, 12, n12);
    crate::bits::lemma_field_elsewhere(m1, 12, 58, n58, 0, 12);
    crate::bits::lemma_field_elsewhere(m2, 70, 1, iflip, 0, 12);
    crate::bits::lemma_field_elsewhere(m3, 71, 2, nrpt, 0, 12);
    crate::bits::lemma_field_elsewhere(m4, 73, 1, icq, 0, 12);
    crate::bits::lemma_field_elsewhere(m5, 74, 3, 4, 0, 12);
    crate::bits::lemma_field_of_with_field(m1, 12, 58, n58);
    crate::bits::lemma_field_elsewhere(m2, 70, 1, iflip, 12, 58);
    crate::bits::lemma_field_elsewhere(m3, 71, 2, nrpt, 12, 58);
    crate::bits::lemma_field_elsewhere(m4, 73, 1, icq, 12, 58);
    crate::bits::lemma_field_elsewhere(m5, 74, 3, 4, 12, 58);
    crate::bits::lemma_field_of_with_field(m2, 70, 1, iflip);
    crate::bits::lemma_field_elsewhere(m3, 71, 2, nrpt, 70, 1);
    crate::bits::lemma_field_elsewhere(m4, 73, 1, icq, 70, 1);
    crate::bits::lemma_field_elsewhere(m5, 74, 3, 4, 70, 1);
    crate::bits::lemma_field_of_with_field(m3, 71, 2, nrpt);
    crate::bits::lemma_field_elsewhere(m4, 73, 1, icq, 71, 2);
    crate::bits::lemma_field_elsewhere(m5, 74, 3, 4, 71, 2);
    crate::bits::lemma_field_of_with_field(m4, 73, 1, icq);
    crate::bits::lemma_field_elsewhere(m5, 74, 3, 4, 73, 1);
    crate::bits::lemma_field_of_with_field(m5, 74, 3, 4);
    lemma_bit(m6, 70);
    lemma_bit(m6, 73);
}

/// A non-standard callsign is read back from its base-38 number.
pub proof fn law_long_call_reads_back(s: Seq<char>)
    requires
        1 <= s.len() <= 11,
        in_38(s),
        tight(s),
    ensures
        trim(text11(value(long_digits(s), 38))) == s,
{
    let d = long_digits(s);
    crate::msg::pack::lemma_long_digits(s);
    crate::radix::lemma_digits_of_value(d, 38);
    let x = text11(value(d, 38));
    let k = (11 - s.len()) as nat;
    assert(x =~= spaces(k) + s + spaces(0)) by {
        assert forall|i: int| 0 <= i < 11 implies x[i] == (spaces(k) + s + spaces(0))[i] by {
            if i >= k {
                assert(idx38(s[i - k]) is Some);
                crate::alphabet::lemma_idx38(s[i - k]);
            }
        }
    }
    lemma_trim_padded(k, s, 0);
}

/// `CQ` and a non-standard callsign, packed and unpacked, is the same again.
pub proof fn law_long_cq_reads_back(s: Seq<char>, other: Seq<char>, t: TableView)
    requires
        1 <= s.len() <= 11,
        in_38(s),
        tight(s),
        upper_text(s) == s,
    ensures
        packed_type4(s, other, ""@, true) is Some,
        message(packed_type4(s, other, ""@, true)->0, t) == Some("CQ "@ + s),
{
    reveal_strlit("");
    reveal_strlit("CQ ");
    reveal_strlit("CQ <");
    crate::text::lemma_trim_tight(s);
    assert(trim(""@) == ""@);
    crate::msg::pack::lemma_long_digits(s);
    lemma_long_fields(0, value(long_digits(s), 38), 0, 0, 1);
    law_long_call_reads_back(s);
    let x = "CQ "@ + s;
    if starts_with(x, "CQ <"@) {
        assert(x.take(4)[3] == '<');
        assert(x[3] == s[0]);
        assert(idx38(s[0]) is Some);
    }
}

/// A message between a non-standard and a standard callsign names the first
/// in full and the second by what its 12-bit hash resolves to.
pub proof fn law_long_message_reads_back(
    s: Seq<char>,
    other: Seq<char>,
    report: Seq<char>,
    t: TableView,
)
    requires
        1 <= s.len() <= 11,
        in_38(s),
        tight(s),
        upper_text(s) == s,
        token_of(other) is Some,
        report == ""@ || report == "RRR"@ || report == "RR73"@ || report == "73"@,
    ensures
        packed_type4(s, other, report, false) is Some,
        body(packed_type4(s, other, report, false)->0, t) == Some(
            hashed_text(find12(t, hash_bits(encode_utf8(other), 12) as u32)) + " "@ + s + (
            if report.len() == 0 {
                ""@
            } else {
                " "@ + report
            }),
        ),
{
    reveal_strlit("");
    reveal_strlit(" ");
    reveal_strlit("RRR");
    reveal_strlit("RR73");
    reveal_strlit("73");
    reveal_strlit(" RRR");
    reveal_strlit(" RR73");
    reveal_strlit(" 73");
    crate::text::lemma_trim_tight(s);
    crate::text::lemma_trim_tight(report);
    assert("RRR"@.len() == 3 && "RR73"@.len() == 4 && "73"@.len() == 2 && ""@.len() == 0);
    crate::msg::hash_table::lemma_hash_bits_bound(encode_utf8(other), 12);
    vstd::arithmetic::power2::lemma2_to64();
    crate::msg::pack::lemma_long_digits(s);
    lemma_long_fields(
        hash_bits(encode_utf8(other), 12),
        value(long_digits(s), 38),
        0,
        short_report(report)->0,
        0,
    );
    law_long_call_reads_back(s);
    assert(" RRR"@ =~= " "@ + "RRR"@);
    assert(" RR73"@ =~= " "@ + "RR73"@);
    assert(" 73"@ =~= " "@ + "73"@);
}

// ── Packing ─────────────────────────────────────────────────────────────────

/// A message of two callsigns and a locator, packed and unpacked, is the
/// message again.
#[verifier::spinoff_prover]
pub proof fn law_locator_message_reads_back(
    c1: Seq<char>,
    c2: Seq<char>,
    g: Seq<char>,
    t: TableView,
)
    requires
        plain_call(c1),
        plain_call(c2),
        grid_index(g) is Some,
        upper_text(g) == g,
    ensures
        packed_type1(c1, c2, g) is Some,
        message(packed_type1(c1, c2, g)->0, t) == Some(c1 + " "@ + c2 + " "@ + g),
{
    lemma_plain_call(c1, t);
    lemma_plain_call(c2, t);
    law_grid_reads_back(g);
    law_standard_message_fields(
        standard_token(c1)->0,
        standard_token(c2)->0,
        0,
        grid_index(g)->0,
        t,
    );
    let m = packed_type1(c1, c2, g)->0;
    let text = c1 + " "@ + c2 + " "@ + g;
    assert(g.len() == 4);
    assert(standard_report(grid_index(g)->0, 0, false) == Some(g));
    assert(body(m, t) == Some(text));
    let tail = text.skip(c1.len() as int);
    assert(text =~= c1 + tail);
    lemma_not_cq_hash(c1, tail);
}

/// The same with a CQ in front.
pub proof fn law_locator_cq_reads_back(c2: Seq<char>, g: Seq<char>, t: TableView)
    requires
        plain_call(c2),
        grid_index(g) is Some,
        upper_text(g) == g,
    ensures
        packed_type1("CQ"@, c2, g) is Some,
        message(packed_type1("CQ"@, c2, g)->0, t) == Some("CQ"@ + " "@ + c2 + " "@ + g),
{
    reveal_strlit("CQ");
    reveal_strlit("DE");
    reveal_strlit("QRZ");
    reveal_strlit("CQ <");
    reveal_strlit(" ");
    lemma_plain_call(c2, t);
    crate::text::lemma_trim_tight("CQ"@);
    assert("CQ"@[0] == 'C' && "DE"@[0] == 'D');
    assert(token_of("CQ"@) == Some(2nat));
    law_grid_reads_back(g);
    law_standard_message_fields(2, standard_token(c2)->0, 0, grid_index(g)->0, t);
    let x = "CQ"@ + " "@ + c2 + " "@ + g;
    if starts_with(x, "CQ <"@) {
        assert(x.take(4)[3] == '<');
        assert(x[3] == c2[0]);
    }
}

/// Letters in lower case pack as those in upper case.
pub proof fn law_case_does_not_matter(c: Seq<char>, g: Seq<char>)
    ensures
        standard_token(upper_text(c)) == standard_token(c),
        grid_index(upper_text(g)) == grid_index(g),
{
    let u = upper_text(c);
    assert forall|i: int| 0 <= i < c.len() implies #[trigger] u[i] == to_upper(c[i]) by {}
    assert(crate::text::is_ascii_text(u) == crate::text::is_ascii_text(c)) by {
        if crate::text::is_ascii_text(u) {
            assert forall|i: int| 0 <= i < c.len() implies (#[trigger] c[i] as u32) < 128 by {
                assert((u[i] as u32) < 128);
            }
        }
    }
    assert forall|i: int| place(u, i) == #[trigger] place(c, i) by {}
    if layout6(c) is Some {
        assert(layout6(u) is Some);
        assert(layout6(u)->0 =~= layout6(c)->0);
    } else {
        assert(layout6(u) is None);
    }
}

/// Every callsign of the standard shapes has a token: two letters or digits,
/// a digit and up to three letters, or one letter or digit, a digit and up to
/// three letters.
pub proof fn law_standard_shapes_have_tokens(c: Seq<char>)
    requires
        ({
            let k = if c.len() >= 3 && is_digit(c[2]) {
                2int
            } else {
                1
            };
            &&& k < c.len() <= k + 4
            &&& is_digit(c[k])
            &&& forall|i: int| 0 <= i < k ==> is_digit(#[trigger] c[i]) || is_upper(c[i])
            &&& forall|i: int| k < i < c.len() ==> is_upper(#[trigger] c[i])
        }),
    ensures
        standard_token(c) is Some,
{
    assert forall|i: int| 0 <= i < c.len() implies (#[trigger] c[i] as u32) < 128 by {
        if c.len() >= 3 && is_digit(c[2]) {
            assert(i < 2 || i == 2 || is_upper(c[i]));
        } else {
            assert(i < 1 || i == 1 || is_upper(c[i]));
        }
    }
    let b = layout6(c)->0;
    assert(layout6(c) is Some);
    if c.len() >= 3 && is_digit(c[2]) {
        assert(is_digit(c[0]) || is_upper(c[0]));
        assert(is_digit(c[1]) || is_upper(c[1]));
        assert(c.len() > 3 ==> is_upper(c[3]));
        assert(c.len() > 4 ==> is_upper(c[4]));
        assert(c.len() > 5 ==> is_upper(c[5]));
    } else {
        assert(is_digit(c[0]) || is_upper(c[0]));
        assert(c.len() > 2 ==> is_upper(c[2]));
        assert(c.len() > 3 ==> is_upper(c[3]));
        assert(c.len() > 4 ==> is_upper(c[4]));
    }
    assert(b[0] == place(c, 0) || b[0] == place(c, -1));
}

/// Free text of one to thirteen characters of its alphabet is packed, in
/// either case; no other text is.
pub proof fn law_free_text_is_packed(s: Seq<char>)
    ensures
        packed_text(s) is Some <==> 1 <= s.len() <= 13 && forall|i: int|
            0 <= i < s.len() ==> #[trigger] in_free_text(s[i]),
{
    let u = upper_text(s);
    if 1 <= s.len() <= 13 && (forall|i: int| 0 <= i < s.len() ==> #[trigger] in_free_text(s[i])) {
        assert forall|i: int| 0 <= i < u.len() implies crate::alphabet::idx42(
            #[trigger] u[i],
        ) is Some by {
            assert(in_free_text(s[i]));
        }
    }
    if packed_text(s) is Some {
        assert forall|i: int| 0 <= i < s.len() implies #[trigger] in_free_text(s[i]) by {
            assert(crate::alphabet::idx42(u[i]) is Some);
        }
    }
}

/// A character that free text can hold.
pub open spec fn in_free_text(c: char) -> bool {
    ||| crate::text::is_alnum(c)
    ||| c == ' ' || c == '+' || c == '-' || c == '.' || c == '/' || c == '?'
}

/// Short free text is filled up with spaces on the right, and the last of
/// the thirteen characters counts one.
pub proof fn law_free_text_fills_up(s: Seq<char>, a: char, b: char)
    requires
        s.len() == 12,
        packed_text(s.push(a)) is Some,
        packed_text(s.push(b)) is Some,
    ensures
        packed_text(s) == packed_text(s.push(' ')),
        value(text_digits(upper_text(s.push(a))), 42) - value(
            text_digits(upper_text(s.push(b))),
            42,
        ) == crate::alphabet::idx42(to_upper(a))->0 - crate::alphabet::idx42(to_upper(b))->0,
        field(packed_text(s.push(a))->0, 0, 71) == value(text_digits(upper_text(s.push(a))), 42),
{
    let (x, y) = (upper_text(s.push(a)), upper_text(s.push(b)));
    let (d, e) = (text_digits(x), text_digits(y));
    assert(d.drop_last() =~= e.drop_last());
    assert(x[12] == to_upper(a) && y[12] == to_upper(b));
    let (u, v) = (upper_text(s), upper_text(s.push(' ')));
    assert(v =~= u.push(' '));
    assert(text_digits(u) =~= text_digits(v));
    assert(crate::msg::pack::in_42(u) == crate::msg::pack::in_42(v)) by {
        if crate::msg::pack::in_42(u) {
            assert forall|i: int| 0 <= i < v.len() implies crate::alphabet::idx42(
                #[trigger] v[i],
            ) is Some by {
                if i < 12 {
                    assert(v[i] == u[i]);
                    assert(crate::alphabet::idx42(u[i]) is Some);
                }
            }
        } else if crate::msg::pack::in_42(v) {
            assert forall|i: int| 0 <= i < u.len() implies crate::alphabet::idx42(
                #[trigger] u[i],
            ) is Some by {
                assert(v[i] == u[i]);
            }
        }
    }
    crate::msg::pack::lemma_text_digits(x);
    crate::bits::lemma_pow2_values();
    crate::bits::lemma_field_of_with_field(blank(), 0, 71, value(d, 42));
}

/// A non-standard callsign is packed only with an answer that the message
/// can carry, and only if it has one to eleven characters of its alphabet.
pub proof fn law_long_messages_are_limited(
    s: Seq<char>,
    other: Seq<char>,
    report: Seq<char>,
    cq: bool,
)
    ensures
        packed_type4(s, other, report, cq) is Some <==> 1 <= trim(s).len() <= 11 && in_38(
            upper_text(trim(s)),
        ) && (trim(report) == ""@ || trim(report) == "RRR"@ || trim(report) == "RR73"@ || trim(
            report,
        ) == "73"@),
{
}

/// A message between two callsigns of which the second has no token either
/// puts the callsign in full first.
pub proof fn law_long_message_without_a_token(
    s: Seq<char>,
    other: Seq<char>,
    report: Seq<char>,
    t: TableView,
)
    requires
        1 <= s.len() <= 11,
        in_38(s),
        tight(s),
        upper_text(s) == s,
        token_of(other) is None,
        report == ""@ || report == "RRR"@ || report == "RR73"@ || report == "73"@,
    ensures
        packed_type4(s, other, report, false) is Some,
        body(packed_type4(s, other, report, false)->0, t) == Some(
            s + " "@ + hashed_text(find12(t, hash_bits(encode_utf8(other), 12) as u32)) + (
            if report.len() == 0 {
                ""@
            } else {
                " "@ + report
            }),
        ),
{
    reveal_strlit("");
    reveal_strlit(" ");
    reveal_strlit("RRR");
    reveal_strlit("RR73");
    reveal_strlit("73");
    reveal_strlit(" RRR");
    reveal_strlit(" RR73");
    reveal_strlit(" 73");
    crate::text::lemma_trim_tight(s);
    crate::text::lemma_trim_tight(report);
    assert("RRR"@.len() == 3 && "RR73"@.len() == 4 && "73"@.len() == 2 && ""@.len() == 0);
    crate::msg::hash_table::lemma_hash_bits_bound(encode_utf8(other), 12);
    vstd::arithmetic::power2::lemma2_to64();
    crate::msg::pack::lemma_long_digits(s);
    lemma_long_fields(
        hash_bits(encode_utf8(other), 12),
        value(long_digits(s), 38),
        1,
        short_report(report)->0,
        0,
    );
    law_long_call_reads_back(s);
    assert(" RRR"@ =~= " "@ + "RRR"@);
    assert(" RR73"@ =~= " "@ + "RR73"@);
    assert(" 73"@ =~= " "@ + "73"@);
}

/// Behind a CQ a number to 999 has its own token, three above itself, and so
/// has a word of one to four capitals, above all of those; nothing else does.
pub proof fn law_only_numbers_and_directions_follow_a_cq(s: Seq<char>)
    requires
        s.len() > 0,
    ensures
        all_digits(s) && dec_value(s) <= 999 ==> cq_token(s) == Some((3 + dec_value(s)) as nat),
        all_digits(s) && dec_value(s) > 999 ==> cq_token(s) is None,
        (forall|i: int| 0 <= i < s.len() ==> 'A' <= #[trigger] s[i] <= 'Z') ==> (cq_token(s) is Some)
            == (s.len() <= 4),
        is_upper(s[0]) && cq_token(s) is Some ==> 1003 < cq_token(s)->0 <= 532_443,
        (forall|i: int| 0 <= i < s.len() ==> !is_digit(#[trigger] s[i])) && (exists|i: int|
            0 <= i < s.len() && !('A' <= #[trigger] s[i] <= 'Z')) ==> cq_token(s) is None,
{
    if all_digits(s) {
        assert(is_digit(s[0]));
    }
    if is_upper(s[0]) {
        assert(!is_digit(s[0]));
        if cq_token(s) is Some {
            assert(all_upper(s));
            if s.len() > 1 {
                assert(is_upper(s[1]));
            }
            if s.len() > 2 {
                assert(is_upper(s[2]));
            }
            if s.len() > 3 {
                assert(is_upper(s[3]));
            }
        }
    }
    if forall|i: int| 0 <= i < s.len() ==> 'A' <= #[trigger] s[i] <= 'Z' {
        assert(is_upper(s[0]));
        assert forall|i: int| 0 <= i < s.len() implies is_upper(#[trigger] s[i]) by {
            assert('A' <= s[i] <= 'Z');
        }
    }
    if (forall|i: int| 0 <= i < s.len() ==> !is_digit(#[trigger] s[i])) && (exists|i: int|
        0 <= i < s.len() && !('A' <= #[trigger] s[i] <= 'Z')) {
        let k = choose|k: int| 0 <= k < s.len() && !('A' <= #[trigger] s[k] <= 'Z');
        assert(!is_upper(s[k]));
        assert(!is_digit(s[0]));
        if s.len() > 1 {
            assert(!is_digit(s[1]));
            assert(s.skip(1)[0] == s[1]);
            assert(!all_digits(s.skip(1)));
        }
        assert(!all_digits(s));
    }
}

}
