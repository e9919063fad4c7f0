//! What the fields of a message say, kind by kind.
//!
//! A message is taken apart here by its bits alone: which bits hold which
//! number, and what text that number stands for.

use crate::bits::field;
use crate::msg::callsign::{all_upper, separates, standard_call, standard_form};
use crate::msg::hash_table::{find10, find12, find22, table_insert, TableView};
use crate::msg::laws::{
    lemma_report_of_written, lemma_trim_padded, plain_call, report_value, spaces, tight,
    written_report,
};
use crate::msg::laws::law_standard_token_reads_back;
use crate::msg::pack::{layout6, standard_token};
use crate::msg::wsjt77::{
    body, flagged, grid4, grid6, hashed_text, is_cq, message, registered, rtty, section, standard,
    standard_report, token, token_with, MAX22, MAX_GRID4, NTOKENS,
};
use crate::text::{
    all_digits, dec, dec_value, is_digit, is_upper, pad_left, starts_with, to_upper, trim,
    upper_text,
};
use vstd::arithmetic::div_mod::lemma_fundamental_div_mod_converse;
use vstd::prelude::*;

verus! {

// ── Words and callsigns ─────────────────────────────────────────────────────

/// The callsign in a 28-bit field: one that has a token, or one that is known
/// by its 22-bit hash, in brackets.
pub open spec fn names(n: nat, w: Seq<char>, t: TableView) -> bool {
    ||| plain_call(w) && standard_token(w) == Some(n)
    ||| 2_063_592 <= n < 2_063_592 + 4_194_304 && match find22(t, (n - 2_063_592) as u32) {
        Some(call) => w == seq!['<'] + call + seq!['>'],
        None => w == seq!['<', '.', '.', '.', '>'],
    }
}

/// A callsign known by its hash.
pub open spec fn bracketed(w: Seq<char>) -> bool {
    w.len() > 0 && w[0] == '<'
}

proof fn lemma_names(n: nat, w: Seq<char>, t: TableView)
    requires
        names(n, w, t),
    ensures
        token_with(n, t) == w,
        n > 2,
        w.len() >= 2,
        bracketed(w) == starts_with(w, "<"@),
        bracketed(w) || is_digit(w[1]) || (w.len() >= 3 && is_digit(w[2])),
        !is_cq(w),
{
    reveal_strlit("<");
    reveal_strlit(">");
    reveal_strlit("<...>");
    reveal_strlit("CQ");
    reveal_strlit("CQ ");
    if plain_call(w) && standard_token(w) == Some(n) {
        crate::msg::laws::lemma_plain_call(w, t);
        if starts_with(w, "<"@) {
            assert(w.take(1)[0] == '<');
        }
    } else {
        assert("<"@ =~= seq!['<']);
        assert(">"@ =~= seq!['>']);
        assert("<...>"@ =~= seq!['<', '.', '.', '.', '>']);
        assert(w[0] == '<');
        assert(w.take(1) =~= "<"@);
        if starts_with(w, "CQ "@) {
            assert(w.take(3)[0] == 'C');
        }
        assert("CQ"@[0] == 'C');
    }
}

proof fn lemma_not_cq_hash(n: nat, w: Seq<char>, t: TableView, rest: Seq<char>)
    requires
        names(n, w, t),
    ensures
        !starts_with(w + rest, "CQ <"@),
{
    lemma_names(n, w, t);
    reveal_strlit("CQ <");
    let x = w + rest;
    if starts_with(x, "CQ <"@) {
        assert(x.take(4)[0] == 'C' && x.take(4)[1] == 'Q' && x.take(4)[2] == ' ');
        assert(x[0] == w[0] && x[1] == w[1]);
        if w.len() >= 3 {
            assert(x[2] == w[2]);
        }
    }
}

/// The words, the 22-bit hashes and the standard callsigns fill the 28-bit
/// numbers without a gap.
pub proof fn law_tokens_fill_their_field()
    ensures
        MAX22 == 0x40_0000,
        NTOKENS + MAX22 + 37 * 36 * 10 * 27 * 27 * 27 == 0x1000_0000,
        MAX_GRID4 == 18 * 18 * 10 * 10,
{
}

/// The place that a character has among space, the digits and the letters.
pub open spec fn rank37(c: char) -> int {
    if c == ' ' {
        0
    } else if is_digit(c) {
        c as u32 - '0' as u32 + 1
    } else {
        c as u32 - 'A' as u32 + 11
    }
}

/// How far apart the tokens of two callsigns of six characters are: each
/// place weighs as many as the places after it have room for.
pub proof fn law_token_places_have_weights(b: Seq<char>, c: Seq<char>)
    requires
        b.len() == 6,
        c.len() == 6,
        standard_token(b) is Some,
        standard_token(c) is Some,
        upper_text(b) == b,
        upper_text(c) == c,
        all_upper(b.skip(3)),
        all_upper(c.skip(3)),
    ensures
        standard_token(b)->0 - standard_token(c)->0 == 7085880 * (rank37(b[0]) - rank37(c[0]))
            + 196830 * (rank37(b[1]) - rank37(c[1])) + 19683 * (rank37(b[2]) - rank37(c[2])) + 729
            * (b[3] as u32 - c[3] as u32) + 27 * (b[4] as u32 - c[4] as u32) + (b[5] as u32
            - c[5] as u32),
        7085880 == 36 * 10 * 27 * 27 * 27,
{
    lemma_six(b);
    lemma_six(c);
    assert(is_upper(b.skip(3)[0]) && is_upper(b.skip(3)[1]) && is_upper(b.skip(3)[2]));
    assert(is_upper(c.skip(3)[0]) && is_upper(c.skip(3)[1]) && is_upper(c.skip(3)[2]));
}

proof fn lemma_six(b: Seq<char>)
    requires
        b.len() == 6,
        standard_token(b) is Some,
        upper_text(b) == b,
    ensures
        is_digit(b[2]),
        is_upper(b[3]) || b[3] == ' ',
        standard_token(b)->0 == 2_063_592 + 4_194_304 + 7085880 * rank37(b[0]) + 196830 * (rank37(
            b[1],
        ) - 1) + 19683 * (rank37(b[2]) - 1) + 729 * (if b[3] == ' ' {
            0
        } else {
            b[3] as u32 - 64
        }) + 27 * (if b[4] == ' ' {
            0
        } else {
            b[4] as u32 - 64
        }) + (if b[5] == ' ' {
            0
        } else {
            b[5] as u32 - 64
        }),
{
    let l = layout6(b)->0;
    assert(l =~= b) by {
        assert forall|i: int| 0 <= i < 6 implies l[i] == b[i] by {
            assert(upper_text(b)[i] == to_upper(b[i]));
        }
    }
}


// ── Standard messages ───────────────────────────────────────────────────────

/// A locator written in upper case, and the number of its square.
pub open spec fn locator(g: Seq<char>, n: nat) -> bool {
    &&& g.len() == 4
    &&& 'A' <= g[0] <= 'R'
    &&& 'A' <= g[1] <= 'R'
    &&& is_digit(g[2])
    &&& is_digit(g[3])
    &&& n == 1800 * (g[0] as u32 - 'A' as u32) + 100 * (g[1] as u32 - 'A' as u32) + 10 * (g[2] as u32
        - '0' as u32) + (g[3] as u32 - '0' as u32)
}

proof fn lemma_locator(g: Seq<char>, n: nat)
    requires
        locator(g, n),
    ensures
        n < 32400,
        grid4(n) == Some(g),
{
    assert(upper_text(g) =~= g);
    assert(crate::msg::pack::grid_index(g) == Some(n));
    crate::msg::laws::law_grid_reads_back(g);
}

/// The third field: a locator, with or without an `R`, nothing, one of the
/// three answers, or a report.
pub open spec fn third(n: nat, roger: bool, r: Seq<char>) -> bool {
    ||| n == 32401 && r.len() == 0
    ||| n == 32402 && r == "RRR"@
    ||| n == 32403 && r == "RR73"@
    ||| n == 32404 && r == "73"@
    ||| !roger && locator(r, n)
    ||| roger && r.len() == 6 && r[0] == 'R' && r[1] == ' ' && locator(r.skip(2), n)
    ||| {
        &&& written_report(r)
        &&& -50 <= report_value(r) <= 49
        &&& report_value(r) == 0 ==> r[r.len() - 3] == '+'
        &&& roger == (r[0] == 'R')
        &&& n == 32435 + report_value(r) + (if report_value(r) < -30 {
            101int
        } else {
            0
        })
    }
}

proof fn lemma_third(n: nat, ir: int, r: Seq<char>)
    requires
        ir == 0 || ir == 1,
        third(n, ir == 1, r),
    ensures
        standard_report(n, ir, false) == Some(r),
{
    reveal_strlit("");
    reveal_strlit("RRR");
    reveal_strlit("RR73");
    reveal_strlit("73");
    reveal_strlit("R ");
    if n == 32401 && r.len() == 0 {
        assert(r =~= ""@);
    } else if n > 32401 && n <= 32404 {
    } else if ir == 0 && locator(r, n) {
        lemma_locator(r, n);
    } else if ir == 1 && r.len() == 6 && r[0] == 'R' && r[1] == ' ' && locator(r.skip(2), n) {
        lemma_locator(r.skip(2), n);
        assert("R "@ + r.skip(2) =~= r);
    } else {
        lemma_report_of_written(r);
    }
}

/// The suffix of a standard message: `/R` for type 1, `/P` for type 2.
pub open spec fn suffix_of(kind: nat) -> Seq<char> {
    if kind == 1 {
        seq!['/', 'R']
    } else {
        seq!['/', 'P']
    }
}

/// A callsign with the suffix if its flag is set; one known by its hash takes
/// none.
pub open spec fn marked(w: Seq<char>, flag: bool, kind: nat) -> Seq<char> {
    if flag && !bracketed(w) {
        w + suffix_of(kind)
    } else {
        w
    }
}

/// Two words, and a third field if there is one.
pub open spec fn said(a: Seq<char>, b: Seq<char>, r: Seq<char>) -> Seq<char> {
    if r.len() == 0 {
        a + seq![' '] + b
    } else {
        a + seq![' '] + b + seq![' '] + r
    }
}

proof fn lemma_suffixes()
    ensures
        suffix_of(1) == "/R"@,
        suffix_of(2) == "/P"@,
        " "@ == seq![' '],
{
    reveal_strlit("/R");
    reveal_strlit("/P");
    reveal_strlit(" ");
    assert("/R"@ =~= seq!['/', 'R']);
    assert("/P"@ =~= seq!['/', 'P']);
    assert(" "@ =~= seq![' ']);
}

/// The two callsigns of a standard message, each with the suffix exactly when
/// its own flag is set: bit 28 is the first one's, bit 57 the second one's.
#[verifier::spinoff_prover]
pub proof fn law_flags_go_with_their_call(
    msg: Seq<u8>,
    c1: Seq<char>,
    c2: Seq<char>,
    r: Seq<char>,
    t: TableView,
)
    requires
        msg.len() >= 77,
        field(msg, 74, 3) == 1 || field(msg, 74, 3) == 2,
        names(field(msg, 0, 28), c1, t),
        names(field(msg, 29, 28), c2, t),
        third(field(msg, 59, 15), msg[58] % 2 == 1, r),
        !starts_with(c1, "CQ"@),
    ensures
        message(msg, t) == Some(
            said(
                marked(c1, msg[28] % 2 == 1, field(msg, 74, 3)),
                marked(c2, msg[57] % 2 == 1, field(msg, 74, 3)),
                r,
            ),
        ),
{
    let kind = field(msg, 74, 3);
    lemma_suffixes();
    lemma_names(field(msg, 0, 28), c1, t);
    lemma_names(field(msg, 29, 28), c2, t);
    lemma_third(field(msg, 59, 15), (msg[58] % 2) as int, r);
    let a = marked(c1, msg[28] % 2 == 1, kind);
    let b = marked(c2, msg[57] % 2 == 1, kind);
    assert(a == flagged(c1, msg[28] % 2 == 1, suffix_of(kind), false));
    assert(b == flagged(c2, msg[57] % 2 == 1, suffix_of(kind), true));
    lemma_marked_is_no_cq(c1, msg[28] % 2 == 1, kind);
    let text = said(a, b, r);
    assert(body(msg, t) == standard(msg, t, suffix_of(kind)));
    assert(standard(msg, t, suffix_of(kind)) == Some(text));
    let tail = text.skip(c1.len() as int);
    assert(text =~= c1 + tail);
    lemma_not_cq_hash(field(msg, 0, 28), c1, t, tail);
}

proof fn lemma_marked_is_no_cq(c: Seq<char>, flag: bool, kind: nat)
    requires
        !starts_with(c, "CQ"@),
        !is_cq(c),
        c.len() >= 2,
    ensures
        !is_cq(marked(c, flag, kind)),
{
    reveal_strlit("CQ");
    reveal_strlit("CQ ");
    let a = marked(c, flag, kind);
    if is_cq(a) && a != c {
        assert(a[0] == c[0] && a[1] == c[1]);
        if starts_with(a, "CQ "@) {
            assert(a.take(3)[0] == 'C' && a.take(3)[1] == 'Q');
        }
        assert(c.take(2) =~= "CQ"@);
    }
}

/// What a CQ is called to: the number of its 28-bit field.
pub open spec fn cq_number(n: nat, w: Seq<char>) -> bool {
    ||| n == 2 && w == seq!['C', 'Q']
    ||| {
        &&& w.len() == 6
        &&& w.take(3) == seq!['C', 'Q', ' ']
        &&& all_digits(w.skip(3))
        &&& n == 3 + dec_value(w.skip(3))
    }
    ||| {
        &&& 4 <= w.len() <= 7
        &&& w.take(3) == seq!['C', 'Q', ' ']
        &&& all_upper(w.skip(3))
        &&& n == 1003 + 19683 * place27(w, 3) + 729 * place27(w, 4) + 27 * place27(w, 5) + place27(
            w,
            6,
        )
    }
}

/// A letter's place in the alphabet; 0 past the end.
pub open spec fn place27(w: Seq<char>, i: int) -> int {
    if i < w.len() {
        w[i] as u32 - 'A' as u32 + 1
    } else {
        0
    }
}

proof fn lemma_cq_number(n: nat, w: Seq<char>, t: TableView)
    requires
        cq_number(n, w),
    ensures
        token_with(n, t) == w,
        is_cq(w),
        starts_with(w, "CQ"@),
        w.len() >= 2,
        w[0] == 'C',
        w[1] == 'Q',
        w.len() > 2 ==> w.len() > 3 && (is_digit(w[3]) || is_upper(w[3])),
{
    reveal_strlit("CQ");
    reveal_strlit("CQ ");
    assert("CQ"@ =~= seq!['C', 'Q']);
    assert("CQ "@ =~= seq!['C', 'Q', ' ']);
    if n == 2 && w == seq!['C', 'Q'] {
        assert(w.take(2) =~= "CQ"@);
    } else {
        assert(w[0] == w.take(3)[0] && w[1] == w.take(3)[1] && w[2] == w.take(3)[2]);
        assert(w.take(2) =~= "CQ"@);
        let s = w.skip(3);
        assert(w =~= "CQ "@ + s);
        assert(s[0] == w[3]);
        if all_digits(s) && w.len() == 6 {
            assert(is_digit(s[0]) && is_digit(s[1]) && is_digit(s[2]));
            crate::msg::laws::law_numbered_cq_reads_back(s);
            assert(crate::msg::pack::cq_token(s) == Some(n)) by {
                assert(dec_value(s) <= 999) by {
                    reveal_with_fuel(crate::radix::value, 4);
                    let d = Seq::new(s.len(), |i: int| (s[i] as u32 - 48) as nat);
                    assert(d.drop_last().drop_last().drop_last() =~= Seq::<nat>::empty());
                    assert(crate::radix::value(d, 10) == d[0] * 100 + d[1] * 10 + d[2]);
                }
            }
        } else {
            assert(is_upper(s[0]));
            crate::msg::laws::law_directional_cq_reads_back(s);
            assert forall|i: int| 0 <= i < s.len() implies #[trigger] s[i] == w[i + 3] by {}
            assert(s.len() > 1 ==> is_upper(s[1]));
            assert(s.len() > 2 ==> is_upper(s[2]));
            assert(s.len() > 3 ==> is_upper(s[3]));
            assert(crate::msg::pack::cq_token(s) == Some(n)) by {
                let u = if s.len() > 1 && s[0] == '+' {
                    s.skip(1)
                } else {
                    s
                };
                assert(!is_digit(u[0]));
                assert(crate::text::parse_unsigned(s, 999) is None);
                assert(crate::msg::pack::direction_index(s, 0) == place27(w, 3));
                assert(crate::msg::pack::direction_index(s, 1) == place27(w, 4));
                assert(crate::msg::pack::direction_index(s, 2) == place27(w, 5));
                assert(crate::msg::pack::direction_index(s, 3) == place27(w, 6));
            }
        }
        assert(n < NTOKENS);
    }
}

/// A CQ, plain, numbered or directed, takes no suffix itself; who calls takes
/// the suffix when bit 57 is set; a locator or nothing follows.
pub proof fn law_cq_names_the_caller(
    msg: Seq<u8>,
    w: Seq<char>,
    c2: Seq<char>,
    g: Seq<char>,
    t: TableView,
)
    requires
        msg.len() >= 77,
        field(msg, 74, 3) == 1 || field(msg, 74, 3) == 2,
        cq_number(field(msg, 0, 28), w),
        names(field(msg, 29, 28), c2, t),
        !bracketed(c2),
        g.len() == 0 && field(msg, 59, 15) == 32401 || msg[58] % 2 == 0 && locator(
            g,
            field(msg, 59, 15),
        ),
    ensures
        message(msg, t) == Some(said(w, marked(c2, msg[57] % 2 == 1, field(msg, 74, 3)), g)),
{
    let kind = field(msg, 74, 3);
    lemma_suffixes();
    lemma_cq_number(field(msg, 0, 28), w, t);
    lemma_names(field(msg, 29, 28), c2, t);
    reveal_strlit("");
    reveal_strlit("CQ <");
    let b = marked(c2, msg[57] % 2 == 1, kind);
    assert(b == flagged(c2, msg[57] % 2 == 1, suffix_of(kind), true));
    if g.len() == 0 {
        assert(g =~= ""@);
    } else {
        lemma_locator(g, field(msg, 59, 15));
    }
    let text = said(w, b, g);
    assert(body(msg, t) == Some(text));
    if starts_with(text, "CQ <"@) {
        assert(text.take(4)[2] == ' ' && text.take(4)[3] == '<');
        if w.len() > 2 {
            assert(text[3] == w[3]);
        } else {
            assert(text[3] == b[0]);
            assert(b[0] == c2[0]);
        }
    }
}

/// A CQ says nothing if it is from a hashed callsign, or carries an `R`, an
/// answer or a report.
pub proof fn law_no_other_cq(msg: Seq<u8>, w: Seq<char>, c2: Seq<char>, t: TableView)
    requires
        msg.len() >= 77,
        field(msg, 74, 3) == 1 || field(msg, 74, 3) == 2,
        cq_number(field(msg, 0, 28), w),
        names(field(msg, 29, 28), c2, t),
        bracketed(c2) && w.len() == 2 || msg[58] % 2 == 1 && field(msg, 59, 15) <= 32400 || field(
            msg,
            59,
            15,
        ) >= 32402,
    ensures
        message(msg, t) is None,
{
    lemma_suffixes();
    lemma_cq_number(field(msg, 0, 28), w, t);
    lemma_names(field(msg, 29, 28), c2, t);
    reveal_strlit("CQ <");
    if field(msg, 59, 15) < 32402 && !(msg[58] % 2 == 1 && field(msg, 59, 15) <= 32400) {
        match body(msg, t) {
            Some(text) => {
                assert(text[0] == 'C' && text[1] == 'Q' && text[2] == ' ' && text[3] == '<');
                assert(text.take(4) =~= "CQ <"@);
            },
            None => {},
        }
    }
}

/// `DE` and `QRZ` stand first as a callsign does.
pub proof fn law_words_stand_first(
    msg: Seq<u8>,
    c2: Seq<char>,
    r: Seq<char>,
    t: TableView,
)
    requires
        msg.len() >= 77,
        field(msg, 74, 3) == 1 || field(msg, 74, 3) == 2,
        field(msg, 0, 28) <= 1,
        msg[28] % 2 == 0,
        names(field(msg, 29, 28), c2, t),
        third(field(msg, 59, 15), msg[58] % 2 == 1, r),
    ensures
        message(msg, t) == Some(
            said(
                if field(msg, 0, 28) == 0 {
                    seq!['D', 'E']
                } else {
                    seq!['Q', 'R', 'Z']
                },
                marked(c2, msg[57] % 2 == 1, field(msg, 74, 3)),
                r,
            ),
        ),
{
    lemma_suffixes();
    reveal_strlit("DE");
    reveal_strlit("QRZ");
    reveal_strlit("CQ");
    reveal_strlit("CQ ");
    reveal_strlit("CQ <");
    assert("DE"@ =~= seq!['D', 'E']);
    assert("QRZ"@ =~= seq!['Q', 'R', 'Z']);
    let kind = field(msg, 74, 3);
    lemma_names(field(msg, 29, 28), c2, t);
    lemma_third(field(msg, 59, 15), (msg[58] % 2) as int, r);
    let a = token_with(field(msg, 0, 28), t);
    let b = marked(c2, msg[57] % 2 == 1, kind);
    assert(b == flagged(c2, msg[57] % 2 == 1, suffix_of(kind), true));
    assert("CQ"@[0] == 'C');
    if starts_with(a, "CQ "@) {
        assert(a.take(3)[0] == 'C');
    }
    let text = said(a, b, r);
    assert(body(msg, t) == Some(text));
    if starts_with(text, "CQ <"@) {
        assert(text.take(4)[0] == 'C');
    }
}

// ── Other kinds ─────────────────────────────────────────────────────────────

/// A callsign known by one of the short hashes, in brackets.
pub open spec fn in_brackets(known: Option<Seq<char>>) -> Seq<char> {
    match known {
        Some(call) => seq!['<'] + call + seq!['>'],
        None => seq!['<', '.', '.', '.', '>'],
    }
}

proof fn lemma_in_brackets(known: Option<Seq<char>>)
    ensures
        hashed_text(known) == in_brackets(known),
{
    reveal_strlit("<");
    reveal_strlit(">");
    reveal_strlit("<...>");
    assert("<"@ =~= seq!['<']);
    assert(">"@ =~= seq!['>']);
    assert("<...>"@ =~= seq!['<', '.', '.', '.', '>']);
}

/// A DXpedition message ends one contact and answers the next: the first
/// callsign gets `RR73;`, the second the report, and the 10-bit hash says who
/// sends it. Reports go from -30 in steps of two.
pub proof fn law_dxpedition_names_three(
    msg: Seq<u8>,
    c1: Seq<char>,
    c2: Seq<char>,
    r: Seq<char>,
    t: TableView,
)
    requires
        msg.len() >= 77,
        field(msg, 74, 3) == 0,
        field(msg, 71, 3) == 1,
        names(field(msg, 0, 28), c1, t),
        names(field(msg, 28, 28), c2, t),
        written_report(r),
        r[0] != 'R',
        report_value(r) == 0 ==> r[0] == '+',
        report_value(r) + 30 == 2 * field(msg, 66, 5),
    ensures
        message(msg, t) == Some(
            c1 + " RR73; "@ + c2 + seq![' '] + in_brackets(find10(t, field(msg, 56, 10) as u32))
                + seq![' '] + r,
        ),
{
    lemma_suffixes();
    lemma_names(field(msg, 0, 28), c1, t);
    lemma_names(field(msg, 28, 28), c2, t);
    lemma_report_of_written(r);
    lemma_in_brackets(find10(t, field(msg, 56, 10) as u32));
    let text = c1 + " RR73; "@ + c2 + seq![' '] + in_brackets(
        find10(t, field(msg, 56, 10) as u32),
    ) + seq![' '] + r;
    assert(body(msg, t) == Some(text));
    let tail = text.skip(c1.len() as int);
    assert(text =~= c1 + tail);
    lemma_not_cq_hash(field(msg, 0, 28), c1, t, tail);
}

/// A Field Day message names two callsigns.
pub proof fn law_field_day_names_two(
    msg: Seq<u8>,
    c1: Seq<char>,
    c2: Seq<char>,
    t: TableView,
)
    requires
        msg.len() >= 77,
        field(msg, 74, 3) == 0,
        field(msg, 71, 3) == 3 || field(msg, 71, 3) == 4,
        names(field(msg, 0, 28), c1, t),
        names(field(msg, 28, 28), c2, t),
    ensures
        message(msg, t) == Some(c1 + seq![' '] + c2 + " [FD]"@),
{
    lemma_suffixes();
    lemma_names(field(msg, 0, 28), c1, t);
    lemma_names(field(msg, 28, 28), c2, t);
    let text = c1 + seq![' '] + c2 + " [FD]"@;
    assert(body(msg, t) == Some(text));
    let tail = text.skip(c1.len() as int);
    assert(text =~= c1 + tail);
    lemma_not_cq_hash(field(msg, 0, 28), c1, t, tail);
}

/// `DE`, `QRZ` and `CQ` have no place in either.
pub proof fn law_contests_have_no_words(msg: Seq<u8>, t: TableView)
    requires
        msg.len() >= 77,
        field(msg, 74, 3) == 0,
        field(msg, 71, 3) == 1 || field(msg, 71, 3) == 3 || field(msg, 71, 3) == 4,
        field(msg, 0, 28) <= 2 || field(msg, 28, 28) <= 2,
    ensures
        message(msg, t) is None,
{
}

/// The kinds that are not read say nothing.
pub proof fn law_other_kinds_say_nothing(msg: Seq<u8>, t: TableView)
    requires
        msg.len() >= 77,
        field(msg, 74, 3) >= 5 || field(msg, 74, 3) == 0 && (field(msg, 71, 3) == 2 || field(
            msg,
            71,
            3,
        ) == 7),
    ensures
        message(msg, t) is None,
{
}

/// The number that upper-case hexadecimal digits stand for.
pub open spec fn upper_hex_value(s: Seq<char>) -> nat
    decreases s.len(),
{
    if s.len() == 0 {
        0
    } else {
        16 * upper_hex_value(s.drop_last()) + (if is_digit(s.last()) {
            s.last() as u32 - '0' as u32
        } else {
            s.last() as u32 - 'A' as u32 + 10
        }) as nat
    }
}

pub open spec fn upper_hex(s: Seq<char>) -> bool {
    forall|i: int| 0 <= i < s.len() ==> is_digit(#[trigger] s[i]) || 'A' <= s[i] <= 'F'
}

proof fn lemma_hex_join(a: Seq<char>, b: Seq<char>)
    ensures
        upper_hex_value(a + b) == upper_hex_value(a) * vstd::arithmetic::power::pow(16, b.len())
            + upper_hex_value(b),
    decreases b.len(),
{
    reveal(vstd::arithmetic::power::pow);
    if b.len() == 0 {
        assert(a + b =~= a);
    } else {
        let c = b.drop_last();
        assert((a + b).drop_last() =~= a + c);
        lemma_hex_join(a, c);
        let p = vstd::arithmetic::power::pow(16, c.len());
        let v = upper_hex_value(a) as int;
        assert(16 * (v * p) == v * (16 * p)) by (nonlinear_arith);
    }
}

proof fn lemma_hex6(n: nat)
    requires
        n < 0x100_0000,
    ensures
        crate::msg::wsjt77::hex6(n).len() == 6,
        upper_hex(crate::msg::wsjt77::hex6(n)),
        upper_hex_value(crate::msg::wsjt77::hex6(n)) == n,
{
    let h = crate::msg::wsjt77::hex6(n);
    let d = crate::radix::digits(n, 16, 6);
    crate::radix::lemma_digits_in_base(n, 16, 6);
    vstd::arithmetic::power::lemma_pow_adds(16, 3, 3);
    assert(vstd::arithmetic::power::pow(16, 3) == 4096) by {
        reveal_with_fuel(vstd::arithmetic::power::pow, 4);
    }
    crate::radix::lemma_value_of_digits(n, 16, 6);
    assert forall|i: int| 0 <= i < h.len() implies is_digit(#[trigger] h[i]) || 'A' <= h[i]
        <= 'F' by {
        assert(d[i] < 16);
    }
    lemma_hex_digits(d, h);
}

proof fn lemma_hex_digits(d: Seq<nat>, h: Seq<char>)
    requires
        d.len() == h.len(),
        crate::radix::in_base(d, 16),
        forall|i: int| 0 <= i < d.len() ==> #[trigger] h[i] == crate::alphabet::chr36(d[i]),
    ensures
        upper_hex_value(h) == crate::radix::value(d, 16),
    decreases d.len(),
{
    if d.len() > 0 {
        let e = d.drop_last();
        let g = h.drop_last();
        assert forall|i: int| 0 <= i < e.len() implies #[trigger] e[i] < 16 by {
            assert(d[i] < 16);
        }
        assert forall|i: int| 0 <= i < e.len() implies #[trigger] g[i] == crate::alphabet::chr36(
            e[i],
        ) by {
            assert(h[i] == crate::alphabet::chr36(d[i]));
        }
        lemma_hex_digits(e, g);
        assert(d[d.len() - 1] < 16);
        assert(h[d.len() - 1] == crate::alphabet::chr36(d[d.len() - 1]));
    }
}

proof fn lemma_strip(s: Seq<char>)
    requires
        upper_hex(s),
    ensures
        upper_hex(crate::msg::wsjt77::strip_zeros(s)),
        upper_hex_value(crate::msg::wsjt77::strip_zeros(s)) == upper_hex_value(s),
        crate::msg::wsjt77::strip_zeros(s).len() > 0 ==> crate::msg::wsjt77::strip_zeros(s)[0]
            != '0',
    decreases s.len(),
{
    if s.len() > 0 && s[0] == '0' {
        let u = s.skip(1);
        assert forall|i: int| 0 <= i < u.len() implies is_digit(#[trigger] u[i]) || 'A' <= u[i]
            <= 'F' by {
            assert(u[i] == s[i + 1]);
        }
        lemma_strip(u);
        let z = seq!['0'];
        assert(s =~= z + u);
        lemma_hex_join(z, u);
        assert(z.drop_last() =~= Seq::<char>::empty());
        assert(upper_hex_value(z) == 0) by {
            assert(upper_hex_value(z.drop_last()) == 0);
        }
        assert(0 * vstd::arithmetic::power::pow(16, u.len()) == 0);
    }
}

/// Telemetry is the 71 bits as one hexadecimal number, without leading zeros.
pub proof fn law_telemetry_is_its_bits(msg: Seq<u8>, t: TableView)
    requires
        msg.len() >= 77,
        field(msg, 74, 3) == 0,
        field(msg, 71, 3) == 5,
    ensures
        message(msg, t) is Some,
        ({
            let text = message(msg, t)->0;
            &&& upper_hex(text)
            &&& upper_hex_value(text) == field(msg, 0, 71)
            &&& text.len() > 0 ==> text[0] != '0'
        }),
{
    crate::bits::lemma_pow2_values();
    crate::bits::lemma_field_bound(msg, 0, 23);
    crate::bits::lemma_field_bound(msg, 23, 24);
    crate::bits::lemma_field_bound(msg, 47, 24);
    let (f, g, k) = (field(msg, 0, 23), field(msg, 23, 24), field(msg, 47, 24));
    lemma_hex6(f);
    lemma_hex6(g);
    lemma_hex6(k);
    let (a, b, c) = (
        crate::msg::wsjt77::hex6(f),
        crate::msg::wsjt77::hex6(g),
        crate::msg::wsjt77::hex6(k),
    );
    lemma_hex_join(a, b);
    lemma_hex_join(a + b, c);
    assert(vstd::arithmetic::power::pow(16, 6) == 0x100_0000) by {
        assert(vstd::arithmetic::power::pow(16, 3) == 4096) by {
            reveal_with_fuel(vstd::arithmetic::power::pow, 4);
        }
        vstd::arithmetic::power::lemma_pow_adds(16, 3, 3);
    }
    crate::bits::law_fields_join(msg, 0, 23, 24);
    crate::bits::law_fields_join(msg, 0, 47, 24);
    let all = a + b + c;
    assert forall|i: int| 0 <= i < all.len() implies is_digit(#[trigger] all[i]) || 'A' <= all[i]
        <= 'F' by {
        if i < 6 {
            assert(all[i] == a[i]);
        } else if i < 12 {
            assert(all[i] == b[i - 6]);
        } else {
            assert(all[i] == c[i - 12]);
        }
    }
    lemma_strip(all);
    reveal_strlit("CQ <");
    let text = body(msg, t)->0;
    if starts_with(text, "CQ <"@) {
        assert(text.take(4)[1] == 'Q');
        assert(text[1] == 'Q');
    }
}

/// The power nearest to ten thirds of the field, in whole decibels.
pub open spec fn power_of(raw: nat, d: nat) -> bool {
    -1 <= 3 * d - 10 * raw <= 1
}

/// A WSPR message with bits 48 and 49 clear: callsign, locator and power. A
/// power above 60 dBm or a locator past the last says nothing.
pub proof fn law_wspr_plain(
    msg: Seq<u8>,
    c: Seq<char>,
    g: Seq<char>,
    d: nat,
    t: TableView,
)
    requires
        msg.len() >= 77,
        field(msg, 74, 3) == 0,
        field(msg, 71, 3) == 6,
        msg[49] % 2 == 0,
        msg[48] % 2 == 0,
        names(field(msg, 0, 28), c, t),
        locator(g, field(msg, 28, 15)),
        power_of(field(msg, 43, 5), d),
    ensures
        message(msg, t) == (if d <= 60 {
            Some(c + seq![' '] + g + seq![' '] + dec(d))
        } else {
            None
        }),
{
    lemma_suffixes();
    lemma_names(field(msg, 0, 28), c, t);
    lemma_locator(g, field(msg, 28, 15));
    let text = c + seq![' '] + g + seq![' '] + dec(d);
    if d <= 60 {
        assert(body(msg, t) == Some(text));
        let tail = text.skip(c.len() as int);
        assert(text =~= c + tail);
        lemma_not_cq_hash(field(msg, 0, 28), c, t, tail);
    }
}

/// The number that digits and upper-case letters stand for in base 36.
pub open spec fn base36_value(s: Seq<char>) -> nat
    decreases s.len(),
{
    if s.len() == 0 {
        0
    } else {
        36 * base36_value(s.drop_last()) + (if is_digit(s.last()) {
            s.last() as u32 - '0' as u32
        } else {
            s.last() as u32 - 'A' as u32 + 10
        }) as nat
    }
}

pub open spec fn base36_text(s: Seq<char>) -> bool {
    s.len() > 0 && forall|i: int| 0 <= i < s.len() ==> is_digit(#[trigger] s[i]) || is_upper(s[i])
}

proof fn lemma_base36(p: Seq<char>)
    requires
        base36_text(p),
        p.len() == 1 || p[0] != '0',
    ensures
        crate::msg::wsjt77::base36(base36_value(p)) == p,
        p.len() > 1 ==> base36_value(p) >= 36,
    decreases p.len(),
{
    let q = p.drop_last();
    let x = p.last();
    assert(is_digit(p[p.len() - 1]) || is_upper(p[p.len() - 1]));
    let d = (if is_digit(x) {
        x as u32 - '0' as u32
    } else {
        x as u32 - 'A' as u32 + 10
    }) as nat;
    assert(d < 36 && crate::alphabet::chr36(d) == x);
    if p.len() == 1 {
        assert(base36_value(q) == 0);
        assert(crate::msg::wsjt77::base36(d) =~= p);
    } else {
        assert forall|i: int| 0 <= i < q.len() implies is_digit(#[trigger] q[i]) || is_upper(
            q[i],
        ) by {
            assert(q[i] == p[i]);
        }
        assert(q[0] == p[0]);
        lemma_base36(q);
        if q.len() == 1 {
            assert(q.drop_last() =~= Seq::<char>::empty());
            assert(base36_value(q.drop_last()) == 0);
            assert(base36_value(q) > 0);
        }
        let n = base36_value(p);
        assert(n / 36 == base36_value(q) && n % 36 == d);
        assert(crate::msg::wsjt77::base36(n) =~= p);
    }
}

/// A WSPR message with bit 49 set: a callsign with a prefix, whose number in
/// base 36 the 16-bit field holds, and a power.
pub proof fn law_wspr_prefix(
    msg: Seq<u8>,
    c: Seq<char>,
    p: Seq<char>,
    d: nat,
    t: TableView,
)
    requires
        msg.len() >= 77,
        field(msg, 74, 3) == 0,
        field(msg, 71, 3) == 6,
        msg[49] % 2 == 1,
        names(field(msg, 0, 28), c, t),
        base36_text(p),
        p.len() == 1 || p[0] != '0',
        base36_value(p) == field(msg, 28, 16),
        field(msg, 28, 16) < 36 * 36 * 36,
        power_of(field(msg, 44, 5), d),
    ensures
        message(msg, t) == (if d <= 60 {
            Some(p + seq!['/'] + c + seq![' '] + dec(d))
        } else {
            None
        }),
{
    lemma_suffixes();
    reveal_strlit("/");
    reveal_strlit("CQ <");
    assert("/"@ =~= seq!['/']);
    lemma_names(field(msg, 0, 28), c, t);
    lemma_base36(p);
    let text = p + seq!['/'] + c + seq![' '] + dec(d);
    if d <= 60 {
        assert(body(msg, t) == Some(text));
        if starts_with(text, "CQ <"@) {
            assert(text.take(4)[2] == ' ' && text.take(4)[3] == '<');
            assert(text.take(4)[0] == 'C' && text.take(4)[1] == 'Q');
            if p.len() >= 3 {
                assert(text[2] == p[2]);
                assert(is_digit(p[2]) || is_upper(p[2]));
            } else if p.len() == 2 {
                assert(text[2] == '/');
            } else {
                assert(text[1] == '/');
            }
        }
    }
}

/// The number of a suffix: one character, two, or two and a digit, each kind
/// after the one before it.
pub open spec fn suffix_number(s: Seq<char>) -> nat {
    if s.len() <= 2 {
        base36_value(s)
    } else {
        (10 * base36_value(s.take(2)) + (s[2] as u32 - '0' as u32)) as nat
    }
}

/// What a character counts in base 36.
pub open spec fn digit36(c: char) -> nat {
    (if is_digit(c) {
        c as u32 - '0' as u32
    } else {
        c as u32 - 'A' as u32 + 10
    }) as nat
}

proof fn lemma_digit36(c: char)
    requires
        is_digit(c) || is_upper(c),
    ensures
        digit36(c) < 36,
        crate::alphabet::chr36(digit36(c)) == c,
        digit36(c) == 0 ==> c == '0',
        is_digit(c) == (digit36(c) < 10),
{
}

proof fn lemma_two_places(s: Seq<char>)
    requires
        1 <= s.len() <= 2,
    ensures
        base36_value(s) == (if s.len() == 1 {
            digit36(s[0])
        } else {
            36 * digit36(s[0]) + digit36(s[1])
        }),
{
    reveal_with_fuel(base36_value, 3);
    if s.len() == 1 {
        assert(s.drop_last() =~= Seq::<char>::empty());
    } else {
        assert(s.drop_last().drop_last() =~= Seq::<char>::empty());
        assert(s.drop_last().last() == s[0]);
    }
}

proof fn lemma_suffix(s: Seq<char>, c: Seq<char>)
    requires
        base36_text(s),
        s.len() == 1 || s.len() == 2 && s[0] != '0' || s.len() == 3 && is_digit(s[2])
            && suffix_number(s) >= 36 * 36,
    ensures
        crate::msg::wsjt77::with_add_on((36 * 36 * 36 + suffix_number(s)) as nat, c) == Some(
            c + "/"@ + s,
        ),
{
    let n = suffix_number(s);
    lemma_digit36(s[0]);
    if s.len() == 1 {
        lemma_two_places(s);
        assert(seq![crate::alphabet::chr36(n)] =~= s);
    } else {
        lemma_digit36(s[1]);
        let (x, y) = (digit36(s[0]), digit36(s[1]));
        if s.len() == 2 {
            lemma_two_places(s);
            assert(n == 36 * x + y && n / 36 == x && n % 36 == y);
            assert(seq![crate::alphabet::chr36(n / 36), crate::alphabet::chr36(n % 36)] =~= s);
        } else {
            lemma_digit36(s[2]);
            lemma_two_places(s.take(2));
            let z = digit36(s[2]);
            assert(n == 360 * x + 10 * y + z);
            assert(n / 10 == 36 * x + y && n % 10 == z && n / 360 == x && n / 10 % 36 == y);
            assert(seq![
                crate::alphabet::chr36(n / 360),
                crate::alphabet::chr36(n / 10 % 36),
                crate::alphabet::chr36(n % 10),
            ] =~= s);
        }
    }
}

/// A WSPR message with bit 49 set: a callsign with a suffix, numbered from
/// where the prefixes end, and a power.
pub proof fn law_wspr_suffix(
    msg: Seq<u8>,
    c: Seq<char>,
    s: Seq<char>,
    d: nat,
    t: TableView,
)
    requires
        msg.len() >= 77,
        field(msg, 74, 3) == 0,
        field(msg, 71, 3) == 6,
        msg[49] % 2 == 1,
        names(field(msg, 0, 28), c, t),
        base36_text(s),
        s.len() == 1 || s.len() == 2 && s[0] != '0' || s.len() == 3 && is_digit(s[2])
            && suffix_number(s) >= 36 * 36,
        field(msg, 28, 16) == 36 * 36 * 36 + suffix_number(s),
        power_of(field(msg, 44, 5), d),
    ensures
        message(msg, t) == (if d <= 60 {
            Some(c + seq!['/'] + s + seq![' '] + dec(d))
        } else {
            None
        }),
{
    lemma_suffixes();
    reveal_strlit("/");
    assert("/"@ =~= seq!['/']);
    lemma_names(field(msg, 0, 28), c, t);
    lemma_suffix(s, c);
    let text = c + seq!['/'] + s + seq![' '] + dec(d);
    if d <= 60 {
        assert(body(msg, t) == Some(text));
        let tail = text.skip(c.len() as int);
        assert(text =~= c + tail);
        lemma_not_cq_hash(field(msg, 0, 28), c, t, tail);
    }
}

/// A locator of six characters and its number; the subsquare runs to `Y`, of
/// which the last pair stands for none.
pub open spec fn locator6(g: Seq<char>, n: nat) -> bool {
    &&& g.len() == 6
    &&& 'A' <= g[0] <= 'R'
    &&& 'A' <= g[1] <= 'R'
    &&& is_digit(g[2])
    &&& is_digit(g[3])
    &&& 'A' <= g[4] <= 'Y'
    &&& 'A' <= g[5] <= 'Y'
    &&& n == 1125000 * (g[0] as u32 - 'A' as u32) + 62500 * (g[1] as u32 - 'A' as u32) + 6250 * (
    g[2] as u32 - '0' as u32) + 625 * (g[3] as u32 - '0' as u32) + 25 * (g[4] as u32 - 'A' as u32)
        + (g[5] as u32 - 'A' as u32)
}

proof fn lemma_six_places(n: nat, j1: nat, j2: nat, j3: nat, j4: nat, j5: nat, j6: nat)
    requires
        j2 < 18,
        j3 < 10,
        j4 < 10,
        j5 < 25,
        j6 < 25,
        n == 1125000 * j1 + 62500 * j2 + 6250 * j3 + 625 * j4 + 25 * j5 + j6,
    ensures
        n / 1125000 == j1,
        n / 62500 % 18 == j2,
        n / 6250 % 10 == j3,
        n / 625 % 10 == j4,
        n / 25 % 25 == j5,
        n % 25 == j6,
        n % 625 == 25 * j5 + j6,
{
    let (a, b, c) = (18 * j1 + j2, 10 * (18 * j1 + j2) + j3, 10 * (10 * (18 * j1 + j2) + j3) + j4);
    let d = 25 * c + j5;
    lemma_fundamental_div_mod_converse(n as int, 25, d as int, j6 as int);
    lemma_fundamental_div_mod_converse(d as int, 25, c as int, j5 as int);
    lemma_fundamental_div_mod_converse(n as int, 625, c as int, (25 * j5 + j6) as int);
    lemma_fundamental_div_mod_converse(c as int, 10, b as int, j4 as int);
    lemma_fundamental_div_mod_converse(n as int, 6250, b as int, (625 * j4 + 25 * j5 + j6) as int);
    lemma_fundamental_div_mod_converse(b as int, 10, a as int, j3 as int);
    lemma_fundamental_div_mod_converse(
        n as int,
        62500,
        a as int,
        (6250 * j3 + 625 * j4 + 25 * j5 + j6) as int,
    );
    lemma_fundamental_div_mod_converse(a as int, 18, j1 as int, j2 as int);
    lemma_fundamental_div_mod_converse(
        n as int,
        1125000,
        j1 as int,
        (62500 * j2 + 6250 * j3 + 625 * j4 + 25 * j5 + j6) as int,
    );
}

proof fn lemma_locator6(g: Seq<char>, n: nat)
    requires
        locator6(g, n),
    ensures
        grid6(n) == Some(
            if g[4] == 'Y' && g[5] == 'Y' {
                g.take(4)
            } else {
                g
            },
        ),
{
    lemma_six_places(
        n,
        (g[0] as u32 - 'A' as u32) as nat,
        (g[1] as u32 - 'A' as u32) as nat,
        (g[2] as u32 - '0' as u32) as nat,
        (g[3] as u32 - '0' as u32) as nat,
        (g[4] as u32 - 'A' as u32) as nat,
        (g[5] as u32 - 'A' as u32) as nat,
    );
    let want = if g[4] == 'Y' && g[5] == 'Y' {
        g.take(4)
    } else {
        g
    };
    assert(grid6(n)->0 =~= want);
}

/// A WSPR message with bit 48 set and bits 47 and 49 clear: a callsign by its
/// 22-bit hash and a locator of six characters, or of four.
pub proof fn law_wspr_hashed(msg: Seq<u8>, g: Seq<char>, t: TableView)
    requires
        msg.len() >= 77,
        field(msg, 74, 3) == 0,
        field(msg, 71, 3) == 6,
        msg[49] % 2 == 0,
        msg[48] % 2 == 1,
        msg[47] % 2 == 0,
        locator6(g, field(msg, 22, 25)),
    ensures
        message(msg, t) == Some(
            in_brackets(find22(t, field(msg, 0, 22) as u32)) + seq![' '] + (if g[4] == 'Y' && g[5]
                == 'Y' {
                g.take(4)
            } else {
                g
            }),
        ),
{
    lemma_suffixes();
    let n = field(msg, 22, 25);
    crate::bits::lemma_pow2_values();
    crate::bits::lemma_field_bound(msg, 0, 22);
    lemma_in_brackets(find22(t, field(msg, 0, 22) as u32));
    lemma_locator6(g, n);
    let text = body(msg, t)->0;
    reveal_strlit("CQ <");
    if starts_with(text, "CQ <"@) {
        assert(text.take(4)[0] == 'C');
        assert(text[0] == '<');
    }
}

/// A WSPR message with bits 47 and 48 set and bit 49 clear says nothing.
pub proof fn law_no_other_wspr(msg: Seq<u8>, t: TableView)
    requires
        msg.len() >= 77,
        field(msg, 74, 3) == 0,
        field(msg, 71, 3) == 6,
        msg[49] % 2 == 0,
        msg[48] % 2 == 1,
        msg[47] % 2 == 1,
    ensures
        message(msg, t) is None,
{
}

// ── RTTY Roundup ────────────────────────────────────────────────────────────

/// The states, provinces and countries in the order of their numbers, each in
/// four places.
pub open spec fn multipliers() -> Seq<char> {
    "AL  AK  AZ  AR  CA  CO  CT  DE  FL  GA  HI  ID  IL  IN  IA  KS  KY  LA  ME  MD  MA  MI  MN  MS  MO  MT  NE  NV  NH  NJ  NM  NY  NC  ND  OH  OK  OR  PA  RI  SC  SD  TN  TX  UT  VT  VA  WA  WV  WI  WY  NB  NS  QC  ON  MB  SK  AB  BC  NWT NF  LB  NU  YT  PEI DC  DR  FR  GD  GR  OV  ZH  ZL  "@
}

/// What the exchange of a Roundup message says: a serial number of four
/// digits, a multiplier, or a country by number.
pub open spec fn exchange(n: nat, e: Seq<char>) -> bool {
    ||| 1 <= n <= 7999 && e.len() == 4 && all_digits(e) && dec_value(e) == n
    ||| 8001 <= n <= 8072 && e == trim(multipliers().subrange(4 * (n - 8001), 4 * (n - 8000)))
    ||| 8073 <= n <= 8171 && e.len() == 3 && e[0] == 'X' && all_digits(e.skip(1)) && dec_value(
        e.skip(1),
    ) == n - 8072
}

/// `e` is the one text of `w` digits that stands for `n`.
proof fn lemma_padded_decimal(e: Seq<char>, n: nat, w: nat)
    requires
        e.len() == w,
        all_digits(e),
        dec_value(e) == n,
    ensures
        pad_left(dec(n), w, '0') == e,
    decreases w,
{
    let d = Seq::new(e.len(), |i: int| (e[i] as u32 - 48) as nat);
    assert(is_digit(e[w - 1]));
    reveal_with_fuel(crate::radix::value, 2);
    if w == 1 {
        assert(d.drop_last() =~= Seq::<nat>::empty());
        assert(pad_left(dec(n), w, '0') =~= e);
    } else {
        let f = e.drop_last();
        let g = Seq::new(f.len(), |i: int| (f[i] as u32 - 48) as nat);
        assert(d.drop_last() =~= g);
        assert forall|i: int| 0 <= i < f.len() implies is_digit(#[trigger] f[i]) by {
            assert(is_digit(e[i]));
        }
        let m = dec_value(f);
        assert(n == 10 * m + d.last());
        assert(n / 10 == m && n % 10 == d.last());
        lemma_padded_decimal(f, m, (w - 1) as nat);
        if n < 10 {
            assert(m == 0);
            assert(dec(0) =~= seq!['0']);
            assert(pad_left(dec(n), w, '0') =~= f.push(e.last())) by {
                assert(f =~= pad_left(seq!['0'], (w - 1) as nat, '0'));
            }
        } else {
            assert(dec(n) =~= dec(m).push((n % 10 + 48) as char));
            assert(pad_left(dec(n), w, '0') =~= pad_left(dec(m), (w - 1) as nat, '0').push(
                e.last(),
            ));
        }
        assert(f.push(e.last()) =~= e);
    }
}

/// A Roundup message: `TU;` if bit 0 is set, the two callsigns, `R` if bit 57
/// is set, the report 529 to 599 and the exchange.
#[verifier::spinoff_prover]
#[verifier::rlimit(40)]
pub proof fn law_roundup_reads(
    msg: Seq<u8>,
    c1: Seq<char>,
    c2: Seq<char>,
    e: Seq<char>,
    t: TableView,
)
    requires
        msg.len() >= 77,
        field(msg, 74, 3) == 3,
        names(field(msg, 1, 28), c1, t),
        names(field(msg, 29, 28), c2, t),
        exchange(field(msg, 61, 13), e),
    ensures
        message(msg, t) == Some(
            (if msg[0] % 2 == 1 {
                seq!['T', 'U', ';', ' ']
            } else {
                Seq::empty()
            }) + c1 + seq![' '] + c2 + seq![' '] + (if msg[57] % 2 == 1 {
                seq!['R', ' ']
            } else {
                Seq::empty()
            }) + seq!['5', (field(msg, 58, 3) + 2 + 48) as char, '9', ' '] + e,
        ),
{
    lemma_suffixes();
    lemma_names(field(msg, 1, 28), c1, t);
    lemma_names(field(msg, 29, 28), c2, t);
    let n = field(msg, 61, 13);
    lemma_exchange(n, e);
    crate::bits::lemma_pow2_values();
    crate::bits::lemma_field_bound(msg, 58, 3);
    let k = field(msg, 58, 3) + 2;
    lemma_roundup_parts(k);
    let tu = if msg[0] % 2 == 1 {
        seq!['T', 'U', ';', ' ']
    } else {
        Seq::empty()
    };
    let ro = if msg[57] % 2 == 1 {
        seq!['R', ' ']
    } else {
        Seq::empty()
    };
    let rst = seq!['5', (k + 48) as char, '9', ' '];
    let head = tu + c1 + seq![' '] + c2 + seq![' '] + ro;
    assert(rtty(msg, t) == head + "5"@ + dec(k) + "9 "@ + e);
    assert(head + "5"@ + dec(k) + "9 "@ + e =~= head + ("5"@ + dec(k) + "9 "@) + e);
    let text = head + rst + e;
    if msg[0] % 2 == 1 {
        lemma_thanks(text);
    } else {
        let tail = text.skip(c1.len() as int);
        assert(text =~= c1 + tail);
        lemma_not_cq_hash(field(msg, 1, 28), c1, t, tail);
    }
}

proof fn lemma_thanks(text: Seq<char>)
    requires
        text.len() > 0,
        text[0] == 'T',
    ensures
        !starts_with(text, "CQ <"@),
{
    reveal_strlit("CQ <");
    if starts_with(text, "CQ <"@) {
        assert(text.take(4)[0] == 'C');
    }
}

proof fn lemma_roundup_parts(k: nat)
    requires
        2 <= k <= 9,
    ensures
        "TU; "@ == seq!['T', 'U', ';', ' '],
        "R "@ == seq!['R', ' '],
        ""@ == Seq::<char>::empty(),
        "5"@ + dec(k) + "9 "@ == seq!['5', (k + 48) as char, '9', ' '],
{
    reveal_strlit("TU; ");
    reveal_strlit("R ");
    reveal_strlit("");
    reveal_strlit("5");
    reveal_strlit("9 ");
    assert("TU; "@ =~= seq!['T', 'U', ';', ' ']);
    assert("R "@ =~= seq!['R', ' ']);
    assert(""@ =~= Seq::<char>::empty());
    assert(dec(k) =~= seq![(k + 48) as char]);
    assert("5"@ + dec(k) + "9 "@ =~= seq!['5', (k + 48) as char, '9', ' ']);
}

proof fn lemma_exchange(n: nat, e: Seq<char>)
    requires
        exchange(n, e),
    ensures
        !(n == 0 || n == 8000 || n > 8171),
        e == (if n > 8000 {
            section((n - 8000) as nat)
        } else {
            pad_left(dec(n), 4, '0')
        }),
{
    reveal_strlit("X");
    if n <= 7999 {
        lemma_padded_decimal(e, n, 4);
    } else if n <= 8072 {
        lemma_multiplier((n - 8000) as nat);
    } else {
        lemma_padded_decimal(e.skip(1), (n - 8072) as nat, 2);
        assert("X"@ + e.skip(1) =~= e);
    }
}

/// Without an exchange a Roundup message names its callsigns.
pub proof fn law_roundup_without_exchange(
    msg: Seq<u8>,
    c1: Seq<char>,
    c2: Seq<char>,
    t: TableView,
)
    requires
        msg.len() >= 77,
        field(msg, 74, 3) == 3,
        names(field(msg, 1, 28), c1, t),
        names(field(msg, 29, 28), c2, t),
        field(msg, 61, 13) == 0 || field(msg, 61, 13) == 8000 || field(msg, 61, 13) > 8171,
    ensures
        message(msg, t) == Some(c1 + seq![' '] + c2 + " [RTTY]"@),
{
    lemma_suffixes();
    lemma_names(field(msg, 1, 28), c1, t);
    lemma_names(field(msg, 29, 28), c2, t);
    let text = c1 + seq![' '] + c2 + " [RTTY]"@;
    let tail = text.skip(c1.len() as int);
    assert(text =~= c1 + tail);
    lemma_not_cq_hash(field(msg, 1, 28), c1, t, tail);
}

proof fn lemma_word(s: Seq<char>, a: char, b: char)
    requires
        s == seq![a, b, ' ', ' '],
        is_upper(a),
        is_upper(b),
    ensures
        trim(s) == seq![a, b],
{
    let w = seq![a, b];
    assert(s =~= spaces(0) + w + spaces(2));
    lemma_trim_padded(0, w, 2);
}

proof fn lemma_multiplier_0(k: nat)
    requires
        0 < k <= 12,
    ensures
        section(k) == trim(multipliers().subrange(4 * (k - 1), 4 * k as int)),
{
    reveal_strlit(
        "AL  AK  AZ  AR  CA  CO  CT  DE  FL  GA  HI  ID  IL  IN  IA  KS  KY  LA  ME  MD  MA  MI  MN  MS  MO  MT  NE  NV  NH  NJ  NM  NY  NC  ND  OH  OK  OR  PA  RI  SC  SD  TN  TX  UT  VT  VA  WA  WV  WI  WY  NB  NS  QC  ON  MB  SK  AB  BC  NWT NF  LB  NU  YT  PEI DC  DR  FR  GD  GR  OV  ZH  ZL  ",
    );
    let m = multipliers();
    let w = m.subrange(4 * (k - 1), 4 * k as int);
    if k == 1 {
        reveal_strlit("AL");
        assert(w =~= seq!['A', 'L', ' ', ' ']);
        assert("AL"@ =~= seq!['A', 'L']);
        lemma_word(w, 'A', 'L');
    }
    if k == 2 {
        reveal_strlit("AK");
        assert(w =~= seq!['A', 'K', ' ', ' ']);
        assert("AK"@ =~= seq!['A', 'K']);
        lemma_word(w, 'A', 'K');
    }
    if k == 3 {
        reveal_strlit("AZ");
        assert(w =~= seq!['A', 'Z', ' ', ' ']);
        assert("AZ"@ =~= seq!['A', 'Z']);
        lemma_word(w, 'A', 'Z');
    }
    if k == 4 {
        reveal_strlit("AR");
        assert(w =~= seq!['A', 'R', ' ', ' ']);
        assert("AR"@ =~= seq!['A', 'R']);
        lemma_word(w, 'A', 'R');
    }
    if k == 5 {
        reveal_strlit("CA");
        assert(w =~= seq!['C', 'A', ' ', ' ']);
        assert("CA"@ =~= seq!['C', 'A']);
        lemma_word(w, 'C', 'A');
    }
    if k == 6 {
        reveal_strlit("CO");
        assert(w =~= seq!['C', 'O', ' ', ' ']);
        assert("CO"@ =~= seq!['C', 'O']);
        lemma_word(w, 'C', 'O');
    }
    if k == 7 {
        reveal_strlit("CT");
        assert(w =~= seq!['C', 'T', ' ', ' ']);
        assert("CT"@ =~= seq!['C', 'T']);
        lemma_word(w, 'C', 'T');
    }
    if k == 8 {
        reveal_strlit("DE");
        assert(w =~= seq!['D', 'E', ' ', ' ']);
        assert("DE"@ =~= seq!['D', 'E']);
        lemma_word(w, 'D', 'E');
    }
    if k == 9 {
        reveal_strlit("FL");
        assert(w =~= seq!['F', 'L', ' ', ' ']);
        assert("FL"@ =~= seq!['F', 'L']);
        lemma_word(w, 'F', 'L');
    }
    if k == 10 {
        reveal_strlit("GA");
        assert(w =~= seq!['G', 'A', ' ', ' ']);
        assert("GA"@ =~= seq!['G', 'A']);
        lemma_word(w, 'G', 'A');
    }
    if k == 11 {
        reveal_strlit("HI");
        assert(w =~= seq!['H', 'I', ' ', ' ']);
        assert("HI"@ =~= seq!['H', 'I']);
        lemma_word(w, 'H', 'I');
    }
    if k == 12 {
        reveal_strlit("ID");
        assert(w =~= seq!['I', 'D', ' ', ' ']);
        assert("ID"@ =~= seq!['I', 'D']);
        lemma_word(w, 'I', 'D');
    }
}

proof fn lemma_multiplier_1(k: nat)
    requires
        12 < k <= 24,
    ensures
        section(k) == trim(multipliers().subrange(4 * (k - 1), 4 * k as int)),
{
    reveal_strlit(
        "AL  AK  AZ  AR  CA  CO  CT  DE  FL  GA  HI  ID  IL  IN  IA  KS  KY  LA  ME  MD  MA  MI  MN  MS  MO  MT  NE  NV  NH  NJ  NM  NY  NC  ND  OH  OK  OR  PA  RI  SC  SD  TN  TX  UT  VT  VA  WA  WV  WI  WY  NB  NS  QC  ON  MB  SK  AB  BC  NWT NF  LB  NU  YT  PEI DC  DR  FR  GD  GR  OV  ZH  ZL  ",
    );
    let m = multipliers();
    let w = m.subrange(4 * (k - 1), 4 * k as int);
    if k == 13 {
        reveal_strlit("IL");
        assert(w =~= seq!['I', 'L', ' ', ' ']);
        assert("IL"@ =~= seq!['I', 'L']);
        lemma_word(w, 'I', 'L');
    }
    if k == 14 {
        reveal_strlit("IN");
        assert(w =~= seq!['I', 'N', ' ', ' ']);
        assert("IN"@ =~= seq!['I', 'N']);
        lemma_word(w, 'I', 'N');
    }
    if k == 15 {
        reveal_strlit("IA");
        assert(w =~= seq!['I', 'A', ' ', ' ']);
        assert("IA"@ =~= seq!['I', 'A']);
        lemma_word(w, 'I', 'A');
    }
    if k == 16 {
        reveal_strlit("KS");
        assert(w =~= seq!['K', 'S', ' ', ' ']);
        assert("KS"@ =~= seq!['K', 'S']);
        lemma_word(w, 'K', 'S');
    }
    if k == 17 {
        reveal_strlit("KY");
        assert(w =~= seq!['K', 'Y', ' ', ' ']);
        assert("KY"@ =~= seq!['K', 'Y']);
        lemma_word(w, 'K', 'Y');
    }
    if k == 18 {
        reveal_strlit("LA");
        assert(w =~= seq!['L', 'A', ' ', ' ']);
        assert("LA"@ =~= seq!['L', 'A']);
        lemma_word(w, 'L', 'A');
    }
    if k == 19 {
        reveal_strlit("ME");
        assert(w =~= seq!['M', 'E', ' ', ' ']);
        assert("ME"@ =~= seq!['M', 'E']);
        lemma_word(w, 'M', 'E');
    }
    if k == 20 {
        reveal_strlit("MD");
        assert(w =~= seq!['M', 'D', ' ', ' ']);
        assert("MD"@ =~= seq!['M', 'D']);
        lemma_word(w, 'M', 'D');
    }
    if k == 21 {
        reveal_strlit("MA");
        assert(w =~= seq!['M', 'A', ' ', ' ']);
        assert("MA"@ =~= seq!['M', 'A']);
        lemma_word(w, 'M', 'A');
    }
    if k == 22 {
        reveal_strlit("MI");
        assert(w =~= seq!['M', 'I', ' ', ' ']);
        assert("MI"@ =~= seq!['M', 'I']);
        lemma_word(w, 'M', 'I');
    }
    if k == 23 {
        reveal_strlit("MN");
        assert(w =~= seq!['M', 'N', ' ', ' ']);
        assert("MN"@ =~= seq!['M', 'N']);
        lemma_word(w, 'M', 'N');
    }
    if k == 24 {
        reveal_strlit("MS");
        assert(w =~= seq!['M', 'S', ' ', ' ']);
        assert("MS"@ =~= seq!['M', 'S']);
        lemma_word(w, 'M', 'S');
    }
}

proof fn lemma_multiplier_2(k: nat)
    requires
        24 < k <= 36,
    ensures
        section(k) == trim(multipliers().subrange(4 * (k - 1), 4 * k as int)),
{
    reveal_strlit(
        "AL  AK  AZ  AR  CA  CO  CT  DE  FL  GA  HI  ID  IL  IN  IA  KS  KY  LA  ME  MD  MA  MI  MN  MS  MO  MT  NE  NV  NH  NJ  NM  NY  NC  ND  OH  OK  OR  PA  RI  SC  SD  TN  TX  UT  VT  VA  WA  WV  WI  WY  NB  NS  QC  ON  MB  SK  AB  BC  NWT NF  LB  NU  YT  PEI DC  DR  FR  GD  GR  OV  ZH  ZL  ",
    );
    let m = multipliers();
    let w = m.subrange(4 * (k - 1), 4 * k as int);
    if k == 25 {
        reveal_strlit("MO");
        assert(w =~= seq!['M', 'O', ' ', ' ']);
        assert("MO"@ =~= seq!['M', 'O']);
        lemma_word(w, 'M', 'O');
    }
    if k == 26 {
        reveal_strlit("MT");
        assert(w =~= seq!['M', 'T', ' ', ' ']);
        assert("MT"@ =~= seq!['M', 'T']);
        lemma_word(w, 'M', 'T');
    }
    if k == 27 {
        reveal_strlit("NE");
        assert(w =~= seq!['N', 'E', ' ', ' ']);
        assert("NE"@ =~= seq!['N', 'E']);
        lemma_word(w, 'N', 'E');
    }
    if k == 28 {
        reveal_strlit("NV");
        assert(w =~= seq!['N', 'V', ' ', ' ']);
        assert("NV"@ =~= seq!['N', 'V']);
        lemma_word(w, 'N', 'V');
    }
    if k == 29 {
        reveal_strlit("NH");
        assert(w =~= seq!['N', 'H', ' ', ' ']);
        assert("NH"@ =~= seq!['N', 'H']);
        lemma_word(w, 'N', 'H');
    }
    if k == 30 {
        reveal_strlit("NJ");
        assert(w =~= seq!['N', 'J', ' ', ' ']);
        assert("NJ"@ =~= seq!['N', 'J']);
        lemma_word(w, 'N', 'J');
    }
    if k == 31 {
        reveal_strlit("NM");
        assert(w =~= seq!['N', 'M', ' ', ' ']);
        assert("NM"@ =~= seq!['N', 'M']);
        lemma_word(w, 'N', 'M');
    }
    if k == 32 {
        reveal_strlit("NY");
        assert(w =~= seq!['N', 'Y', ' ', ' ']);
        assert("NY"@ =~= seq!['N', 'Y']);
        lemma_word(w, 'N', 'Y');
    }
    if k == 33 {
        reveal_strlit("NC");
        assert(w =~= seq!['N', 'C', ' ', ' ']);
        assert("NC"@ =~= seq!['N', 'C']);
        lemma_word(w, 'N', 'C');
    }
    if k == 34 {
        reveal_strlit("ND");
        assert(w =~= seq!['N', 'D', ' ', ' ']);
        assert("ND"@ =~= seq!['N', 'D']);
        lemma_word(w, 'N', 'D');
    }
    if k == 35 {
        reveal_strlit("OH");
        assert(w =~= seq!['O', 'H', ' ', ' ']);
        assert("OH"@ =~= seq!['O', 'H']);
        lemma_word(w, 'O', 'H');
    }
    if k == 36 {
        reveal_strlit("OK");
        assert(w =~= seq!['O', 'K', ' ', ' ']);
        assert("OK"@ =~= seq!['O', 'K']);
        lemma_word(w, 'O', 'K');
    }
}

proof fn lemma_multiplier_3(k: nat)
    requires
        36 < k <= 48,
    ensures
        section(k) == trim(multipliers().subrange(4 * (k - 1), 4 * k as int)),
{
    reveal_strlit(
        "AL  AK  AZ  AR  CA  CO  CT  DE  FL  GA  HI  ID  IL  IN  IA  KS  KY  LA  ME  MD  MA  MI  MN  MS  MO  MT  NE  NV  NH  NJ  NM  NY  NC  ND  OH  OK  OR  PA  RI  SC  SD  TN  TX  UT  VT  VA  WA  WV  WI  WY  NB  NS  QC  ON  MB  SK  AB  BC  NWT NF  LB  NU  YT  PEI DC  DR  FR  GD  GR  OV  ZH  ZL  ",
    );
    let m = multipliers();
    let w = m.subrange(4 * (k - 1), 4 * k as int);
    if k == 37 {
        reveal_strlit("OR");
        assert(w =~= seq!['O', 'R', ' ', ' ']);
        assert("OR"@ =~= seq!['O', 'R']);
        lemma_word(w, 'O', 'R');
    }
    if k == 38 {
        reveal_strlit("PA");
        assert(w =~= seq!['P', 'A', ' ', ' ']);
        assert("PA"@ =~= seq!['P', 'A']);
        lemma_word(w, 'P', 'A');
    }
    if k == 39 {
        reveal_strlit("RI");
        assert(w =~= seq!['R', 'I', ' ', ' ']);
        assert("RI"@ =~= seq!['R', 'I']);
        lemma_word(w, 'R', 'I');
    }
    if k == 40 {
        reveal_strlit("SC");
        assert(w =~= seq!['S', 'C', ' ', ' ']);
        assert("SC"@ =~= seq!['S', 'C']);
        lemma_word(w, 'S', 'C');
    }
    if k == 41 {
        reveal_strlit("SD");
        assert(w =~= seq!['S', 'D', ' ', ' ']);
        assert("SD"@ =~= seq!['S', 'D']);
        lemma_word(w, 'S', 'D');
    }
    if k == 42 {
        reveal_strlit("TN");
        assert(w =~= seq!['T', 'N', ' ', ' ']);
        assert("TN"@ =~= seq!['T', 'N']);
        lemma_word(w, 'T', 'N');
    }
    if k == 43 {
        reveal_strlit("TX");
        assert(w =~= seq!['T', 'X', ' ', ' ']);
        assert("TX"@ =~= seq!['T', 'X']);
        lemma_word(w, 'T', 'X');
    }
    if k == 44 {
        reveal_strlit("UT");
        assert(w =~= seq!['U', 'T', ' ', ' ']);
        assert("UT"@ =~= seq!['U', 'T']);
        lemma_word(w, 'U', 'T');
    }
    if k == 45 {
        reveal_strlit("VT");
        assert(w =~= seq!['V', 'T', ' ', ' ']);
        assert("VT"@ =~= seq!['V', 'T']);
        lemma_word(w, 'V', 'T');
    }
    if k == 46 {
        reveal_strlit("VA");
        assert(w =~= seq!['V', 'A', ' ', ' ']);
        assert("VA"@ =~= seq!['V', 'A']);
        lemma_word(w, 'V', 'A');
    }
    if k == 47 {
        reveal_strlit("WA");
        assert(w =~= seq!['W', 'A', ' ', ' ']);
        assert("WA"@ =~= seq!['W', 'A']);
        lemma_word(w, 'W', 'A');
    }
    if k == 48 {
        reveal_strlit("WV");
        assert(w =~= seq!['W', 'V', ' ', ' ']);
        assert("WV"@ =~= seq!['W', 'V']);
        lemma_word(w, 'W', 'V');
    }
}

proof fn lemma_multiplier_4(k: nat)
    requires
        48 < k <= 60,
    ensures
        section(k) == trim(multipliers().subrange(4 * (k - 1), 4 * k as int)),
{
    reveal_strlit(
        "AL  AK  AZ  AR  CA  CO  CT  DE  FL  GA  HI  ID  IL  IN  IA  KS  KY  LA  ME  MD  MA  MI  MN  MS  MO  MT  NE  NV  NH  NJ  NM  NY  NC  ND  OH  OK  OR  PA  RI  SC  SD  TN  TX  UT  VT  VA  WA  WV  WI  WY  NB  NS  QC  ON  MB  SK  AB  BC  NWT NF  LB  NU  YT  PEI DC  DR  FR  GD  GR  OV  ZH  ZL  ",
    );
    let m = multipliers();
    let w = m.subrange(4 * (k - 1), 4 * k as int);
    if k == 49 {
        reveal_strlit("WI");
        assert(w =~= seq!['W', 'I', ' ', ' ']);
        assert("WI"@ =~= seq!['W', 'I']);
        lemma_word(w, 'W', 'I');
    }
    if k == 50 {
        reveal_strlit("WY");
        assert(w =~= seq!['W', 'Y', ' ', ' ']);
        assert("WY"@ =~= seq!['W', 'Y']);
        lemma_word(w, 'W', 'Y');
    }
    if k == 51 {
        reveal_strlit("NB");
        assert(w =~= seq!['N', 'B', ' ', ' ']);
        assert("NB"@ =~= seq!['N', 'B']);
        lemma_word(w, 'N', 'B');
    }
    if k == 52 {
        reveal_strlit("NS");
        assert(w =~= seq!['N', 'S', ' ', ' ']);
        assert("NS"@ =~= seq!['N', 'S']);
        lemma_word(w, 'N', 'S');
    }
    if k == 53 {
        reveal_strlit("QC");
        assert(w =~= seq!['Q', 'C', ' ', ' ']);
        assert("QC"@ =~= seq!['Q', 'C']);
        lemma_word(w, 'Q', 'C');
    }
    if k == 54 {
        reveal_strlit("ON");
        assert(w =~= seq!['O', 'N', ' ', ' ']);
        assert("ON"@ =~= seq!['O', 'N']);
        lemma_word(w, 'O', 'N');
    }
    if k == 55 {
        reveal_strlit("MB");
        assert(w =~= seq!['M', 'B', ' ', ' ']);
        assert("MB"@ =~= seq!['M', 'B']);
        lemma_word(w, 'M', 'B');
    }
    if k == 56 {
        reveal_strlit("SK");
        assert(w =~= seq!['S', 'K', ' ', ' ']);
        assert("SK"@ =~= seq!['S', 'K']);
        lemma_word(w, 'S', 'K');
    }
    if k == 57 {
        reveal_strlit("AB");
        assert(w =~= seq!['A', 'B', ' ', ' ']);
        assert("AB"@ =~= seq!['A', 'B']);
        lemma_word(w, 'A', 'B');
    }
    if k == 58 {
        reveal_strlit("BC");
        assert(w =~= seq!['B', 'C', ' ', ' ']);
        assert("BC"@ =~= seq!['B', 'C']);
        lemma_word(w, 'B', 'C');
    }
    if k == 59 {
        reveal_strlit("NWT");
        assert(w =~= seq!['N', 'W', 'T', ' ']);
        assert("NWT"@ =~= seq!['N', 'W', 'T']);
        assert(w =~= spaces(0) + "NWT"@ + spaces(1));
        lemma_trim_padded(0, "NWT"@, 1);
    }
    if k == 60 {
        reveal_strlit("NF");
        assert(w =~= seq!['N', 'F', ' ', ' ']);
        assert("NF"@ =~= seq!['N', 'F']);
        lemma_word(w, 'N', 'F');
    }
}

proof fn lemma_multiplier_5(k: nat)
    requires
        60 < k <= 72,
    ensures
        section(k) == trim(multipliers().subrange(4 * (k - 1), 4 * k as int)),
{
    reveal_strlit(
        "AL  AK  AZ  AR  CA  CO  CT  DE  FL  GA  HI  ID  IL  IN  IA  KS  KY  LA  ME  MD  MA  MI  MN  MS  MO  MT  NE  NV  NH  NJ  NM  NY  NC  ND  OH  OK  OR  PA  RI  SC  SD  TN  TX  UT  VT  VA  WA  WV  WI  WY  NB  NS  QC  ON  MB  SK  AB  BC  NWT NF  LB  NU  YT  PEI DC  DR  FR  GD  GR  OV  ZH  ZL  ",
    );
    let m = multipliers();
    let w = m.subrange(4 * (k - 1), 4 * k as int);
    if k == 61 {
        reveal_strlit("LB");
        assert(w =~= seq!['L', 'B', ' ', ' ']);
        assert("LB"@ =~= seq!['L', 'B']);
        lemma_word(w, 'L', 'B');
    }
    if k == 62 {
        reveal_strlit("NU");
        assert(w =~= seq!['N', 'U', ' ', ' ']);
        assert("NU"@ =~= seq!['N', 'U']);
        lemma_word(w, 'N', 'U');
    }
    if k == 63 {
        reveal_strlit("YT");
        assert(w =~= seq!['Y', 'T', ' ', ' ']);
        assert("YT"@ =~= seq!['Y', 'T']);
        lemma_word(w, 'Y', 'T');
    }
    if k == 64 {
        reveal_strlit("PEI");
        assert(w =~= seq!['P', 'E', 'I', ' ']);
        assert("PEI"@ =~= seq!['P', 'E', 'I']);
        assert(w =~= spaces(0) + "PEI"@ + spaces(1));
        lemma_trim_padded(0, "PEI"@, 1);
    }
    if k == 65 {
        reveal_strlit("DC");
        assert(w =~= seq!['D', 'C', ' ', ' ']);
        assert("DC"@ =~= seq!['D', 'C']);
        lemma_word(w, 'D', 'C');
    }
    if k == 66 {
        reveal_strlit("DR");
        assert(w =~= seq!['D', 'R', ' ', ' ']);
        assert("DR"@ =~= seq!['D', 'R']);
        lemma_word(w, 'D', 'R');
    }
    if k == 67 {
        reveal_strlit("FR");
        assert(w =~= seq!['F', 'R', ' ', ' ']);
        assert("FR"@ =~= seq!['F', 'R']);
        lemma_word(w, 'F', 'R');
    }
    if k == 68 {
        reveal_strlit("GD");
        assert(w =~= seq!['G', 'D', ' ', ' ']);
        assert("GD"@ =~= seq!['G', 'D']);
        lemma_word(w, 'G', 'D');
    }
    if k == 69 {
        reveal_strlit("GR");
        assert(w =~= seq!['G', 'R', ' ', ' ']);
        assert("GR"@ =~= seq!['G', 'R']);
        lemma_word(w, 'G', 'R');
    }
    if k == 70 {
        reveal_strlit("OV");
        assert(w =~= seq!['O', 'V', ' ', ' ']);
        assert("OV"@ =~= seq!['O', 'V']);
        lemma_word(w, 'O', 'V');
    }
    if k == 71 {
        reveal_strlit("ZH");
        assert(w =~= seq!['Z', 'H', ' ', ' ']);
        assert("ZH"@ =~= seq!['Z', 'H']);
        lemma_word(w, 'Z', 'H');
    }
    if k == 72 {
        reveal_strlit("ZL");
        assert(w =~= seq!['Z', 'L', ' ', ' ']);
        assert("ZL"@ =~= seq!['Z', 'L']);
        lemma_word(w, 'Z', 'L');
    }
}

proof fn lemma_multiplier(k: nat)
    requires
        1 <= k <= 72,
    ensures
        section(k) == trim(multipliers().subrange(4 * (k - 1), 4 * k as int)),
{
    if k <= 12 {
        lemma_multiplier_0(k);
    } else if k <= 24 {
        lemma_multiplier_1(k);
    } else if k <= 36 {
        lemma_multiplier_2(k);
    } else if k <= 48 {
        lemma_multiplier_3(k);
    } else if k <= 60 {
        lemma_multiplier_4(k);
    } else {
        lemma_multiplier_5(k);
    }
}

// ── Non-standard callsigns ──────────────────────────────────────────────────

/// The number of a text in base 38, the last character counting one.
pub open spec fn number38(s: Seq<char>) -> nat
    decreases s.len(),
{
    if s.len() == 0 {
        0
    } else {
        38 * number38(s.drop_last()) + (if s.last() == '/' {
            37
        } else {
            rank37(s.last())
        }) as nat
    }
}

proof fn lemma_number38(s: Seq<char>)
    requires
        s.len() <= 11,
        crate::msg::pack::in_38(s),
    ensures
        crate::radix::value(crate::msg::pack::long_digits(s), 38) == number38(s),
{
    let d = crate::msg::pack::long_digits(s);
    let k = 11 - s.len();
    lemma_leading_zeros(d, k);
    assert(d.take(k) + d.skip(k) =~= d);
    lemma_number38_tail(d, s, k, s.len() as int);
    assert(d.take(11) =~= d);
    assert(s.take(s.len() as int) =~= s);
}

proof fn lemma_leading_zeros(d: Seq<nat>, k: int)
    requires
        0 <= k <= d.len(),
        forall|i: int| 0 <= i < k ==> #[trigger] d[i] == 0,
    ensures
        crate::radix::value(d.take(k), 38) == 0,
    decreases k,
{
    if k > 0 {
        lemma_leading_zeros(d, k - 1);
        assert(d.take(k).drop_last() =~= d.take(k - 1));
    }
}

proof fn lemma_number38_tail(d: Seq<nat>, s: Seq<char>, k: int, n: int)
    requires
        s.len() <= 11,
        crate::msg::pack::in_38(s),
        d == crate::msg::pack::long_digits(s),
        k == 11 - s.len(),
        0 <= n <= s.len(),
    ensures
        crate::radix::value(d.take(k + n), 38) == number38(s.take(n)),
    decreases n,
{
    if n == 0 {
        lemma_leading_zeros(d, k);
        assert(s.take(0) =~= Seq::<char>::empty());
    } else {
        lemma_number38_tail(d, s, k, n - 1);
        assert(d.take(k + n).drop_last() =~= d.take(k + n - 1));
        assert(s.take(n).drop_last() =~= s.take(n - 1));
        assert(s.take(n).last() == s[n - 1]);
        assert(crate::alphabet::idx38(s[n - 1]) is Some);
        assert(d[k + n - 1] == crate::alphabet::idx38(s[n - 1])->0);
    }
}

/// A message with a non-standard callsign, whose number in base 38 stands in
/// bits 12 to 69: a CQ if bit 73 is set; else the callsign of the 12-bit hash
/// comes first unless bit 70 is set, and bits 71 and 72 answer.
pub proof fn law_nonstandard_reads(msg: Seq<u8>, s: Seq<char>, t: TableView)
    requires
        msg.len() >= 77,
        field(msg, 74, 3) == 4,
        1 <= s.len() <= 11,
        crate::msg::pack::in_38(s),
        tight(s),
        field(msg, 12, 58) == number38(s),
    ensures
        ({
            let h = in_brackets(find12(t, field(msg, 0, 12) as u32));
            let answer = if field(msg, 71, 2) == 0 {
                Seq::empty()
            } else if field(msg, 71, 2) == 1 {
                seq![' ', 'R', 'R', 'R']
            } else if field(msg, 71, 2) == 2 {
                seq![' ', 'R', 'R', '7', '3']
            } else {
                seq![' ', '7', '3']
            };
            body(msg, t) == Some(
                if msg[73] % 2 == 1 {
                    seq!['C', 'Q', ' '] + s
                } else if msg[70] % 2 == 0 {
                    h + seq![' '] + s + answer
                } else {
                    s + seq![' '] + h + answer
                },
            )
        }),
        msg[73] % 2 == 1 || msg[70] % 2 == 0 || s.len() > 2 || s[0] != 'C' ==> message(msg, t) == body(
            msg,
            t,
        ),
{
    lemma_suffixes();
    reveal_strlit("");
    reveal_strlit("CQ ");
    reveal_strlit(" RRR");
    reveal_strlit(" RR73");
    reveal_strlit(" 73");
    reveal_strlit("CQ <");
    assert("CQ "@ =~= seq!['C', 'Q', ' ']);
    assert(" RRR"@ =~= seq![' ', 'R', 'R', 'R']);
    assert(" RR73"@ =~= seq![' ', 'R', 'R', '7', '3']);
    assert(" 73"@ =~= seq![' ', '7', '3']);
    assert(""@ =~= Seq::<char>::empty());
    lemma_number38(s);
    crate::msg::laws::law_long_call_reads_back(s);
    lemma_in_brackets(find12(t, field(msg, 0, 12) as u32));
    let text = body(msg, t)->0;
    if starts_with(text, "CQ <"@) {
        let h = text.take(4);
        assert(h[0] == 'C' && h[1] == 'Q' && h[2] == ' ' && h[3] == '<');
        assert(crate::alphabet::idx38(s[0]) is Some);
        if msg[73] % 2 == 1 {
            assert(text[3] == s[0]);
        } else if msg[70] % 2 == 0 {
            assert(text[0] == '<');
        } else {
            assert(text[0] == s[0]);
            if s.len() > 3 {
                assert(text[3] == s[3]);
                assert(crate::alphabet::idx38(s[3]) is Some);
            } else if s.len() == 3 {
                assert(text[2] == s[2]);
                assert(s.last() == ' ');
            }
        }
    }
}

// ── Learning ────────────────────────────────────────────────────────────────

/// The table once a callsign of a message was learnt: only one that is given
/// in full and of the standard form.
pub open spec fn learnt(t: TableView, w: Seq<char>) -> TableView {
    if !bracketed(w) && standard_call(w) {
        table_insert(t, w)
    } else {
        t
    }
}

proof fn lemma_learnt(n: nat, w: Seq<char>, known: TableView, t: TableView)
    requires
        names(n, w, known),
    ensures
        crate::msg::wsjt77::learn_token(t, n) == learnt(t, w),
{
    lemma_names(n, w, known);
    if plain_call(w) && standard_token(w) == Some(n) {
        crate::msg::pack::lemma_standard_token_bound(w);
        law_standard_token_reads_back(w);
        crate::msg::laws::lemma_plain_call(w, known);
    } else {
        reveal_strlit("<...>");
        reveal_strlit("/R");
        reveal_strlit("/P");
        let x = "<...>"@;
        assert(x =~= seq!['<', '.', '.', '.', '>']);
        crate::text::lemma_trim_tight(x);
        assert(trim(x) == x);
        assert(x.skip(3)[0] == '.');
        assert("/R"@[0] == '/' && "/P"@[0] == '/');
        assert(!crate::msg::callsign::portable(x));
        if standard_form(x) {
            let k = choose|k: int| #[trigger]
                separates(x, k) && x.len() - k <= 4 && crate::msg::callsign::standard_prefix(
                    x.take(k),
                );
            assert(is_digit(x[k]));
        }
    }
}

/// The callsigns of a message with two of them are learnt, the first and then
/// the second. In a DXpedition or Field Day message the second starts at bit
/// 28, in the others at bit 29; in a Roundup message the first starts at bit 1.
pub proof fn law_two_callsigns_are_learnt(
    msg: Seq<u8>,
    c1: Seq<char>,
    c2: Seq<char>,
    known: TableView,
    t: TableView,
)
    requires
        msg.len() == 77,
        ({
            let (i3, n3) = (field(msg, 74, 3), field(msg, 71, 3));
            ||| {
                &&& i3 == 0 && (n3 == 1 || n3 == 3 || n3 == 4)
                &&& names(field(msg, 0, 28), c1, known)
                &&& names(field(msg, 28, 28), c2, known)
            }
            ||| {
                &&& i3 == 1 || i3 == 2
                &&& names(field(msg, 0, 28), c1, known)
                &&& names(field(msg, 29, 28), c2, known)
            }
            ||| {
                &&& i3 == 3
                &&& names(field(msg, 1, 28), c1, known)
                &&& names(field(msg, 29, 28), c2, known)
            }
        }),
    ensures
        registered(msg, t) == learnt(learnt(t, c1), c2),
{
    let a = if field(msg, 74, 3) == 3 {
        field(msg, 1, 28)
    } else {
        field(msg, 0, 28)
    };
    let b = if field(msg, 74, 3) == 0 {
        field(msg, 28, 28)
    } else {
        field(msg, 29, 28)
    };
    lemma_learnt(a, c1, known, t);
    lemma_learnt(b, c2, known, learnt(t, c1));
}

/// Who calls CQ is learnt.
pub proof fn law_the_caller_is_learnt(
    msg: Seq<u8>,
    c2: Seq<char>,
    known: TableView,
    t: TableView,
)
    requires
        msg.len() == 77,
        field(msg, 74, 3) == 1 || field(msg, 74, 3) == 2,
        field(msg, 0, 28) <= 2,
        names(field(msg, 29, 28), c2, known),
    ensures
        registered(msg, t) == learnt(t, c2),
{
    lemma_learnt(field(msg, 29, 28), c2, known, t);
    reveal_strlit("DE");
    reveal_strlit("QRZ");
    reveal_strlit("CQ");
    reveal_strlit("/R");
    reveal_strlit("/P");
    let x = token(field(msg, 0, 28));
    crate::text::lemma_trim_tight(x);
    assert("/R"@[0] == '/' && "/P"@[0] == '/');
    assert(x.len() == 2 ==> x.skip(0) =~= x);
    assert(x.len() == 3 ==> x.skip(1)[0] == x[1]);
    assert(!crate::msg::callsign::portable(x));
    if standard_form(x) {
        let k = choose|k: int| #[trigger]
            separates(x, k) && x.len() - k <= 4 && crate::msg::callsign::standard_prefix(
                x.take(k),
            );
        assert(is_digit(x[k]));
    }
}

/// A non-standard callsign of two characters or more is learnt.
pub proof fn law_long_calls_are_learnt(msg: Seq<u8>, s: Seq<char>, t: TableView)
    requires
        msg.len() == 77,
        field(msg, 74, 3) == 4,
        2 <= s.len() <= 11,
        crate::msg::pack::in_38(s),
        tight(s),
        field(msg, 12, 58) == number38(s),
    ensures
        registered(msg, t) == table_insert(t, s),
{
    lemma_number38(s);
    crate::msg::laws::law_long_call_reads_back(s);
}

/// Free text, telemetry, WSPR and the kinds that are not read teach nothing,
/// nor does what is not a message.
pub proof fn law_the_rest_teaches_nothing(msg: Seq<u8>, t: TableView)
    requires
        msg.len() != 77 || field(msg, 74, 3) >= 5 || field(msg, 74, 3) == 0 && (field(msg, 71, 3)
            == 0 || field(msg, 71, 3) == 2 || field(msg, 71, 3) >= 5),
    ensures
        registered(msg, t) == t,
{
}

}
