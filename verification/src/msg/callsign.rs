//! What a callsign looks like, and which decoded texts are worth believing.

use crate::text::{
    alnum, chars_of, digit, has_prefix, has_suffix, has_text, is_str, read_signed,
    split_on, trimmed, upper_letter, words_of,
};
use crate::text::{
    contains_text, ends_with, is_alnum, is_alpha, is_digit, is_upper, is_white,
    law_parts_stand_between_separators, lemma_trim_tight, parse_signed, split, starts_with, texts,
    trim, words,
};
use vstd::prelude::*;

verus! {

/// Place `k` holds the digit that separates prefix from suffix: only
/// upper-case letters follow it.
pub open spec fn separates(b: Seq<char>, k: int) -> bool {
    &&& 0 <= k < b.len()
    &&& is_digit(b[k])
    &&& forall|i: int| k < i < b.len() ==> is_upper(#[trigger] b[i])
}

/// There is at most one separating digit.
pub proof fn lemma_separator_unique(b: Seq<char>, j: int, k: int)
    requires
        separates(b, j),
        separates(b, k),
    ensures
        j == k,
{
    if j < k {
        assert(is_upper(b[k]));
    } else if k < j {
        assert(is_upper(b[j]));
    }
}

/// The part before the separating digit of a standard callsign:
/// `[A-Z]{0,2}`, `[A-Z][0-9]` or `[0-9][A-Z]`.
pub open spec fn standard_prefix(p: Seq<char>) -> bool {
    ||| p.len() == 0
    ||| p.len() == 1 && is_upper(p[0])
    ||| p.len() == 2 && is_upper(p[0]) && is_upper(p[1])
    ||| p.len() == 2 && is_upper(p[0]) && is_digit(p[1])
    ||| p.len() == 2 && is_digit(p[0]) && is_upper(p[1])
}

/// A standard prefix, a digit, and up to three letters.
pub open spec fn standard_form(b: Seq<char>) -> bool {
    exists|k: int| #[trigger] separates(b, k) && b.len() - k <= 4 && standard_prefix(b.take(k))
}

pub open spec fn portable(c: Seq<char>) -> bool {
    ends_with(c, "/R"@) || ends_with(c, "/P"@)
}

/// A standard callsign, with or without `/R` or `/P`.
pub open spec fn standard_call(call: Seq<char>) -> bool {
    let c = trim(call);
    standard_form(
        if portable(c) {
            c.take(c.len() - 2)
        } else {
            c
        },
    )
}

/// One to three letters or digits, at least one a letter; a digit; one to
/// four upper-case letters.
pub open spec fn base_form(b: Seq<char>) -> bool {
    exists|k: int| #[trigger]
        separates(b, k) && 1 <= k <= 3 && 1 <= b.len() - k - 1 <= 4 && (forall|i: int|
            0 <= i < k ==> is_alnum(#[trigger] b[i])) && (exists|i: int|
            0 <= i < k && is_alpha(#[trigger] b[i]))
}

/// One to three letters or digits.
pub open spec fn modifier(a: Seq<char>) -> bool {
    1 <= a.len() <= 3 && forall|i: int| 0 <= i < a.len() ==> is_alnum(#[trigger] a[i])
}

/// A standard callsign, a base callsign, or a base callsign with a modifier
/// or another base callsign on the other side of a `/`.
pub open spec fn valid_call(call: Seq<char>) -> bool {
    let parts = split(call, '/');
    ||| standard_call(call)
    ||| parts.len() == 1 && base_form(parts[0])
    ||| parts.len() == 2 && {
        ||| base_form(parts[0]) && modifier(parts[1])
        ||| modifier(parts[0]) && base_form(parts[1])
        ||| base_form(parts[0]) && base_form(parts[1])
    }
}

/// The letter-and-digit prefixes allocated to amateur stations.
pub open spec fn allocated_prefix(a: char, d: char) -> bool {
    ||| a == 'A' && '2' <= d <= '9'
    ||| a == 'B' && '0' <= d <= '9'
    ||| a == 'C' && '2' <= d <= '9'
    ||| a == 'D' && ('2' <= d <= '4' || '6' <= d <= '9')
    ||| a == 'E' && '2' <= d <= '7'
    ||| a == 'H' && (d == '2' || d == '4' || '6' <= d <= '9')
    ||| a == 'J' && (d == '2' || d == '3' || '5' <= d <= '8')
    ||| a == 'P' && '2' <= d <= '9'
    ||| a == 'S' && (d == '0' || d == '2' || d == '5' || d == '7' || d == '9')
    ||| a == 'T' && '2' <= d <= '8'
    ||| a == 'V' && '2' <= d <= '8'
    ||| a == 'Z' && (d == '2' || d == '3' || d == '6' || d == '8')
}

/// The letters that are amateur prefixes on their own.
pub open spec fn lone_prefix(a: char) -> bool {
    a == 'F' || a == 'G' || a == 'I' || a == 'K' || a == 'M' || a == 'N' || a == 'R' || a == 'W'
}

/// `s` without a `/R` or `/P` at its end.
pub open spec fn without_portable(s: Seq<char>) -> Seq<char> {
    if s.len() >= 2 && s[s.len() - 2] == '/' && (s.last() == 'R' || s.last() == 'P') {
        s.take(s.len() - 2)
    } else {
        s
    }
}

/// The prefix is not one of the two shapes that chance produces: a lone
/// letter, or a letter and a digit, that no station has.
pub open spec fn plausible_prefix(s: Seq<char>) -> bool {
    ||| s.len() < 2
    ||| s.len() > 7
    ||| forall|k: int| #[trigger]
        separates(without_portable(s), k) ==> allocated(without_portable(s), k)
}

/// A prefix of `k` characters that, if it is a lone letter or a letter and a
/// digit, is allocated.
pub open spec fn allocated(b: Seq<char>, k: int) -> bool {
    &&& k == 1 && is_upper(b[0]) ==> lone_prefix(b[0])
    &&& k == 2 && is_upper(b[0]) && is_digit(b[1]) ==> allocated_prefix(b[0], b[1])
}

/// A valid callsign whose base, one side of the `/` if there is one, has a
/// plausible prefix.
pub open spec fn plausible_call(call: Seq<char>) -> bool {
    let parts = split(call, '/');
    valid_call(call) && {
        ||| parts.len() == 1 && plausible_prefix(parts[0])
        ||| parts.len() == 2 && {
            ||| base_form(parts[0]) && plausible_prefix(parts[0])
            ||| base_form(parts[1]) && plausible_prefix(parts[1])
        }
    }
}

/// `[A-Z][A-Z][0-9][0-9]`.
pub open spec fn grid_word(w: Seq<char>) -> bool {
    w.len() == 4 && is_upper(w[0]) && is_upper(w[1]) && is_digit(w[2]) && is_digit(w[3])
}

pub open spec fn all_upper(w: Seq<char>) -> bool {
    forall|i: int| 0 <= i < w.len() ==> is_upper(#[trigger] w[i])
}

/// A word that stands in a message without being a callsign.
pub open spec fn plain_word(ws: Seq<Seq<char>>, idx: int) -> bool {
    let w = ws[idx];
    ||| w == "CQ"@ || w == "DE"@ || w == "QRZ"@ || w == "RRR"@ || w == "RR73"@ || w == "73"@ || w
        == "R"@ || w == "DX"@
    ||| starts_with(w, "CQ"@)
    ||| idx == 1 && ws[0] == "CQ"@ && w.len() <= 4 && all_upper(w)
    ||| starts_with(w, "<"@) && ends_with(w, ">"@)
    ||| starts_with(w, "R+"@)
    ||| starts_with(w, "R-"@)
    ||| (starts_with(w, "+"@) || starts_with(w, "-"@)) && parse_signed(w.skip(1)) is Some
    ||| grid_word(w)
}

/// A contest or DXpedition message, or one whose every word is a plausible
/// callsign or one of the words that are not.
pub open spec fn plausible_text(text: Seq<char>) -> bool {
    let ws = words(text);
    ws.len() > 0 && {
        ||| contains_text(text, "[FD]"@)
        ||| contains_text(text, "[RTTY]"@)
        ||| contains_text(text, "RR73;"@)
        ||| forall|i: int|
            0 <= i < ws.len() ==> #[trigger] plain_word(ws, i) || plausible_call(ws[i])
    }
}

// ── Checks ──────────────────────────────────────────────────────────────────

/// The separating digit, if there is one.
fn separator(b: &[char]) -> (r: Option<usize>)
    ensures
        match r {
            Some(k) => separates(b@, k as int),
            None => forall|k: int| !#[trigger] separates(b@, k),
        },
{
    let mut i: usize = b.len();
    while i > 0
        invariant
            i <= b.len(),
            forall|j: int| i <= j < b.len() ==> is_upper(#[trigger] b@[j]),
        decreases i,
    {
        let c: char = b[i - 1];
        if digit(c) {
            return Some(i - 1);
        }
        if !upper_letter(c) {
            assert forall|k: int| !#[trigger] separates(b@, k) by {
                if separates(b@, k) {
                    if k < i - 1 {
                        assert(is_upper(b@[i - 1]));
                    } else if k > i - 1 {
                        assert(is_upper(b@[k]));
                    }
                }
            }
            return None;
        }
        i -= 1;
    }
    assert forall|k: int| !#[trigger] separates(b@, k) by {
        if separates(b@, k) {
            assert(is_upper(b@[k]));
        }
    }
    None
}

fn check_standard_prefix(p: &[char]) -> (r: bool)
    ensures
        r == standard_prefix(p@),
{
    if p.len() == 0 {
        true
    } else if p.len() == 1 {
        upper_letter(p[0])
    } else if p.len() == 2 {
        (upper_letter(p[0]) && upper_letter(p[1])) || (upper_letter(p[0]) && digit(p[1])) || (digit(
            p[0],
        ) && upper_letter(p[1]))
    } else {
        false
    }
}

fn check_standard_form(b: &[char]) -> (r: bool)
    ensures
        r == standard_form(b@),
{
    match separator(b) {
        Some(k) => {
            let p = vstd::slice::slice_subrange(b, 0, k);
            assert(p@ =~= b@.take(k as int));
            let r = b.len() - k <= 4 && check_standard_prefix(p);
            proof {
                if standard_form(b@) {
                    let j = choose|j: int| #[trigger]
                        separates(b@, j) && b@.len() - j <= 4 && standard_prefix(b@.take(j));
                    lemma_separator_unique(b@, j, k as int);
                }
            }
            r
        },
        None => false,
    }
}

fn standard_chars(c: &[char]) -> (r: bool)
    ensures
        r == standard_call(c@),
{
    let t = trimmed(c);
    if has_suffix(t.as_slice(), "/R") || has_suffix(t.as_slice(), "/P") {
        proof {
            reveal_strlit("/R");
            reveal_strlit("/P");
        }
        let b = vstd::slice::slice_subrange(t.as_slice(), 0, t.len() - 2);
        assert(b@ =~= t@.take(t@.len() - 2));
        check_standard_form(b)
    } else {
        check_standard_form(t.as_slice())
    }
}

/// Whether a callsign has the standard form.
///
/// ```text
/// (part1)(part2)(/R|/P)?
/// part1: [A-Z]{0,2} | [A-Z][0-9] | [0-9][A-Z]
/// part2: [0-9][A-Z]{0,3}
/// ```
pub fn is_standard_callsign(call: &str) -> (r: bool)
    ensures
        r == standard_call(call@),
{
    let c = chars_of(call);
    standard_chars(c.as_slice())
}

/// Whether a text is a callsign without modifiers: prefix, digit, suffix.
fn is_base_callsign(b: &[char]) -> (r: bool)
    ensures
        r == base_form(b@),
{
    match separator(b) {
        Some(k) => {
            proof {
                if base_form(b@) {
                    let j = choose|j: int| #[trigger]
                        separates(b@, j) && 1 <= j <= 3 && 1 <= b@.len() - j - 1 <= 4 && (
                        forall|i: int| 0 <= i < j ==> is_alnum(#[trigger] b@[i])) && (exists|i: int|
                            0 <= i < j && is_alpha(#[trigger] b@[i]));
                    lemma_separator_unique(b@, j, k as int);
                }
            }
            if k < 1 || k > 3 || b.len() - k < 2 || b.len() - k > 5 {
                return false;
            }
            let mut letters = false;
            let mut i: usize = 0;
            while i < k
                invariant
                    i <= k < b.len(),
                    separates(b@, k as int),
                    forall|j: int| 0 <= j < i ==> is_alnum(#[trigger] b@[j]),
                    letters == exists|j: int| 0 <= j < i && is_alpha(#[trigger] b@[j]),
                    base_form(b@) ==> forall|j: int| 0 <= j < k ==> is_alnum(#[trigger] b@[j]),
                decreases k - i,
            {
                if !alnum(b[i]) {
                    assert(!is_alnum(b@[i as int]));
                    return false;
                }
                if !digit(b[i]) {
                    assert(is_alpha(b@[i as int]));
                    letters = true;
                }
                i += 1;
            }
            letters
        },
        None => false,
    }
}

fn is_modifier(a: &[char]) -> (r: bool)
    ensures
        r == modifier(a@),
{
    if a.len() < 1 || a.len() > 3 {
        return false;
    }
    let mut i: usize = 0;
    while i < a.len()
        invariant
            i <= a.len(),
            forall|j: int| 0 <= j < i ==> is_alnum(#[trigger] a@[j]),
        decreases a.len() - i,
    {
        if !alnum(a[i]) {
            assert(!is_alnum(a@[i as int]));
            return false;
        }
        i += 1;
    }
    true
}

fn valid_chars(c: &[char]) -> (r: bool)
    ensures
        r == valid_call(c@),
{
    if standard_chars(c) {
        return true;
    }
    let parts = split_on(c, '/');
    assert(texts(parts@).len() == parts.len());
    if parts.len() == 1 {
        assert(texts(parts@)[0] == parts@[0]@);
        is_base_callsign(parts[0].as_slice())
    } else if parts.len() == 2 {
        assert(texts(parts@)[0] == parts@[0]@);
        assert(texts(parts@)[1] == parts@[1]@);
        let a_base = is_base_callsign(parts[0].as_slice());
        let b_base = is_base_callsign(parts[1].as_slice());
        let a_mod = is_modifier(parts[0].as_slice());
        let b_mod = is_modifier(parts[1].as_slice());
        (a_base && b_mod) || (a_mod && b_base) || (a_base && b_base)
    } else {
        false
    }
}

/// Whether a text is a callsign, standard or not.
///
/// Accepted: a standard callsign; a base callsign such as `3DA0WPX`; and a
/// base callsign with a short modifier or a second base callsign across a
/// `/`, such as `JA1ABC/QRP` or `ZS6/JA1ABC`.
pub fn is_valid_callsign(call: &str) -> (r: bool)
    ensures
        r == valid_call(call@),
{
    let c = chars_of(call);
    valid_chars(c.as_slice())
}

fn is_known_letter_digit_prefix(a: char, d: char) -> (r: bool)
    ensures
        r == allocated_prefix(a, d),
{
    match a {
        'A' | 'C' | 'P' => '2' <= d && d <= '9',
        'B' => '0' <= d && d <= '9',
        'D' => ('2' <= d && d <= '4') || ('6' <= d && d <= '9'),
        'E' => '2' <= d && d <= '7',
        'H' => d == '2' || d == '4' || ('6' <= d && d <= '9'),
        'J' => d == '2' || d == '3' || ('5' <= d && d <= '8'),
        'S' => d == '0' || d == '2' || d == '5' || d == '7' || d == '9',
        'T' | 'V' => '2' <= d && d <= '8',
        'Z' => d == '2' || d == '3' || d == '6' || d == '8',
        _ => false,
    }
}

fn has_plausible_prefix(s: &[char]) -> (r: bool)
    ensures
        r == plausible_prefix(s@),
{
    let n: usize = s.len();
    if n < 2 || n > 7 {
        return true;
    }
    let mut b: &[char] = s;
    if s[n - 2] == '/' && (s[n - 1] == 'R' || s[n - 1] == 'P') {
        b = vstd::slice::slice_subrange(s, 0, n - 2);
    }
    assert(b@ =~= without_portable(s@));
    match separator(b) {
        Some(k) => {
            let r = if k == 1 && upper_letter(b[0]) {
                matches!(b[0], 'F' | 'G' | 'I' | 'K' | 'M' | 'N' | 'R' | 'W')
            } else if k == 2 && upper_letter(b[0]) && digit(b[1]) {
                is_known_letter_digit_prefix(b[0], b[1])
            } else {
                true
            };
            proof {
                assert forall|j: int| #[trigger] separates(b@, j) implies j == k by {
                    lemma_separator_unique(b@, j, k as int);
                }
            }
            r
        },
        None => true,
    }
}

fn plausible_chars(c: &[char]) -> (r: bool)
    ensures
        r == plausible_call(c@),
{
    if !valid_chars(c) {
        return false;
    }
    let parts = split_on(c, '/');
    assert(texts(parts@).len() == parts.len());
    if parts.len() == 1 {
        assert(texts(parts@)[0] == parts@[0]@);
        has_plausible_prefix(parts[0].as_slice())
    } else if parts.len() == 2 {
        assert(texts(parts@)[0] == parts@[0]@);
        assert(texts(parts@)[1] == parts@[1]@);
        let a = is_base_callsign(parts[0].as_slice()) && has_plausible_prefix(parts[0].as_slice());
        let b = is_base_callsign(parts[1].as_slice()) && has_plausible_prefix(parts[1].as_slice());
        a || b
    } else {
        false
    }
}

/// A stricter [`is_valid_callsign`]: the base callsign's prefix must be one
/// that is allocated, where it is a lone letter or a letter and a digit.
pub fn is_plausible_callsign(call: &str) -> (r: bool)
    ensures
        r == plausible_call(call@),
{
    let c = chars_of(call);
    plausible_chars(c.as_slice())
}

fn check_all_upper(w: &[char]) -> (r: bool)
    ensures
        r == all_upper(w@),
{
    let mut i: usize = 0;
    while i < w.len()
        invariant
            i <= w.len(),
            forall|j: int| 0 <= j < i ==> is_upper(#[trigger] w@[j]),
        decreases w.len() - i,
    {
        if !upper_letter(w[i]) {
            assert(!is_upper(w@[i as int]));
            return false;
        }
        i += 1;
    }
    true
}

fn is_fixed_word(w: &[char]) -> (r: bool)
    ensures
        r == (w@ == "CQ"@ || w@ == "DE"@ || w@ == "QRZ"@ || w@ == "RRR"@ || w@ == "RR73"@ || w@
            == "73"@ || w@ == "R"@ || w@ == "DX"@),
{
    is_str(w, "CQ") || is_str(w, "DE") || is_str(w, "QRZ") || is_str(w, "RRR") || is_str(w, "RR73")
        || is_str(w, "73") || is_str(w, "R") || is_str(w, "DX")
}

fn is_signed_word(w: &[char]) -> (r: bool)
    ensures
        r == ((starts_with(w@, "+"@) || starts_with(w@, "-"@)) && parse_signed(
            w@.skip(1),
        ) is Some),
{
    if has_prefix(w, "+") || has_prefix(w, "-") {
        proof {
            reveal_strlit("+");
            reveal_strlit("-");
        }
        let t = vstd::slice::slice_subrange(w, 1, w.len());
        assert(t@ =~= w@.skip(1));
        read_signed(t).is_some()
    } else {
        false
    }
}

fn is_plain_word(ws: &Vec<Vec<char>>, idx: usize) -> (r: bool)
    requires
        idx < ws.len(),
    ensures
        r == plain_word(texts(ws@), idx as int),
{
    let w = ws[idx].as_slice();
    assert(texts(ws@)[idx as int] == w@);
    assert(texts(ws@)[0] == ws@[0]@);
    if is_fixed_word(w) || has_prefix(w, "CQ") {
        return true;
    }
    if idx == 1 && is_str(ws[0].as_slice(), "CQ") && w.len() <= 4 && check_all_upper(w) {
        return true;
    }
    if has_prefix(w, "<") && has_suffix(w, ">") {
        return true;
    }
    if has_prefix(w, "R+") || has_prefix(w, "R-") || is_signed_word(w) {
        return true;
    }
    w.len() == 4 && upper_letter(w[0]) && upper_letter(w[1]) && digit(w[2]) && digit(w[3])
}

/// Whether a decoded message looks like one: every word that should be a
/// callsign is a plausible one.
pub fn is_plausible_message(text: &str) -> (r: bool)
    ensures
        r == plausible_text(text@),
{
    let c = chars_of(text);
    let ws = words_of(c.as_slice());
    assert(texts(ws@).len() == ws.len());
    if ws.len() == 0 {
        return false;
    }
    if has_text(c.as_slice(), "[FD]") || has_text(c.as_slice(), "[RTTY]") || has_text(
        c.as_slice(),
        "RR73;",
    ) {
        return true;
    }
    let mut i: usize = 0;
    while i < ws.len()
        invariant
            i <= ws.len(),
            texts(ws@) == words(text@),
            !contains_text(text@, "[FD]"@),
            !contains_text(text@, "[RTTY]"@),
            !contains_text(text@, "RR73;"@),
            forall|j: int|
                0 <= j < i ==> #[trigger] plain_word(texts(ws@), j) || plausible_call(
                    texts(ws@)[j],
                ),
        decreases ws.len() - i,
    {
        assert(texts(ws@)[i as int] == ws@[i as int]@);
        if !is_plain_word(&ws, i) && !plausible_chars(ws[i].as_slice()) {
            assert(!plain_word(texts(ws@), i as int) && !plausible_call(texts(ws@)[i as int]));
            return false;
        }
        i += 1;
    }
    true
}

// ── Laws ────────────────────────────────────────────────────────────────────

/// Every standard callsign is a valid one.
pub proof fn law_standard_is_valid(call: Seq<char>)
    requires
        standard_call(call),
    ensures
        valid_call(call),
{
}

/// Every plausible callsign is a valid one.
pub proof fn law_plausible_is_valid(call: Seq<char>)
    requires
        plausible_call(call),
    ensures
        valid_call(call),
{
}

/// A standard callsign is at most six characters, with its `/R` or `/P` at
/// most eight, around the white space that surrounds it.
pub proof fn law_standard_is_short(call: Seq<char>)
    requires
        standard_call(call),
    ensures
        1 <= trim(call).len() <= 8,
{
    reveal_strlit("/R");
    reveal_strlit("/P");
    let c = trim(call);
    let b = if portable(c) {
        c.take(c.len() - 2)
    } else {
        c
    };
    let k = choose|k: int| #[trigger]
        separates(b, k) && b.len() - k <= 4 && standard_prefix(b.take(k));
    assert(b.take(k).len() == k);
}

/// A text of a prefix, a digit and a suffix.
pub open spec fn shaped(p: Seq<char>, d: char, s: Seq<char>) -> Seq<char> {
    p + seq![d] + s
}

proof fn lemma_shaped(p: Seq<char>, d: char, s: Seq<char>)
    requires
        is_digit(d),
        all_upper(s),
    ensures
        separates(shaped(p, d, s), p.len() as int),
        shaped(p, d, s).take(p.len() as int) == p,
        shaped(p, d, s).len() == p.len() + 1 + s.len(),
{
    let b = shaped(p, d, s);
    let k = p.len() as int;
    assert(b[k] == d);
    assert forall|i: int| k < i < b.len() implies is_upper(#[trigger] b[i]) by {
        assert(b[i] == s[i - k - 1]);
    }
    assert(b.take(k) =~= p);
}

/// A standard callsign is a digit between a prefix and at most three letters.
/// The prefix is nothing, a letter, or two letters or digits that are not
/// both digits.
pub proof fn law_the_standard_form(p: Seq<char>, d: char, s: Seq<char>)
    requires
        is_digit(d),
        all_upper(s),
    ensures
        standard_form(shaped(p, d, s)) == (s.len() <= 3 && p.len() <= 2 && (forall|i: int|
            0 <= i < p.len() ==> is_upper(#[trigger] p[i]) || is_digit(p[i])) && (p.len() == 0 || (
        exists|i: int| 0 <= i < p.len() && is_upper(#[trigger] p[i])))),
{
    let b = shaped(p, d, s);
    let k = p.len() as int;
    lemma_shaped(p, d, s);
    if standard_form(b) {
        let j = choose|j: int| #[trigger]
            separates(b, j) && b.len() - j <= 4 && standard_prefix(b.take(j));
        lemma_separator_unique(b, j, k);
        if p.len() > 0 {
            assert(is_upper(p[0]) || (p.len() == 2 && is_upper(p[1])));
        }
    }
    if s.len() <= 3 && p.len() <= 2 && (forall|i: int|
        0 <= i < p.len() ==> is_upper(#[trigger] p[i]) || is_digit(p[i])) && (p.len() == 0 || (
    exists|i: int| 0 <= i < p.len() && is_upper(#[trigger] p[i]))) {
        if p.len() > 0 {
            let i = choose|i: int| 0 <= i < p.len() && is_upper(#[trigger] p[i]);
            assert(is_upper(p[0]) || is_digit(p[0]));
            if p.len() == 2 {
                assert(is_upper(p[1]) || is_digit(p[1]));
            }
        }
        assert(standard_prefix(b.take(k)));
    }
}

/// A base callsign is a digit between one to three letters or digits, not all
/// digits, and one to four letters.
pub proof fn law_the_base_form(p: Seq<char>, d: char, s: Seq<char>)
    requires
        is_digit(d),
        all_upper(s),
    ensures
        base_form(shaped(p, d, s)) == (1 <= p.len() <= 3 && 1 <= s.len() <= 4 && (forall|i: int|
            0 <= i < p.len() ==> is_alnum(#[trigger] p[i])) && (exists|i: int|
            0 <= i < p.len() && !is_digit(#[trigger] p[i]))),
{
    let b = shaped(p, d, s);
    let k = p.len() as int;
    lemma_shaped(p, d, s);
    assert forall|i: int| 0 <= i < k implies b[i] == #[trigger] p[i] by {}
    if base_form(b) {
        let j = choose|j: int| #[trigger]
            separates(b, j) && 1 <= j <= 3 && 1 <= b.len() - j - 1 <= 4 && (forall|i: int|
                0 <= i < j ==> is_alnum(#[trigger] b[i])) && (exists|i: int|
                0 <= i < j && is_alpha(#[trigger] b[i]));
        lemma_separator_unique(b, j, k);
        let i = choose|i: int| 0 <= i < k && is_alpha(#[trigger] b[i]);
        assert(!is_digit(p[i]));
        assert forall|i: int| 0 <= i < k implies is_alnum(#[trigger] p[i]) by {
            assert(is_alnum(b[i]));
        }
    }
    if 1 <= p.len() <= 3 && 1 <= s.len() <= 4 && (forall|i: int|
        0 <= i < p.len() ==> is_alnum(#[trigger] p[i])) && (exists|i: int|
        0 <= i < p.len() && !is_digit(#[trigger] p[i])) {
        let i = choose|i: int| 0 <= i < p.len() && !is_digit(#[trigger] p[i]);
        assert(is_alnum(p[i]));
        assert(is_alpha(b[i]));
        assert forall|i: int| 0 <= i < k implies is_alnum(#[trigger] b[i]) by {
            assert(is_alnum(p[i]));
        }
        assert(separates(b, k));
    }
}

/// A callsign without a digit that only letters follow has neither form.
pub proof fn law_a_callsign_has_its_digit(b: Seq<char>)
    requires
        forall|k: int| !#[trigger] separates(b, k),
    ensures
        !standard_form(b),
        !base_form(b),
{
}

/// A `/R` or a `/P` behind a callsign, and white space around it, make no
/// difference to whether it is a standard one.
pub proof fn law_portable_calls_are_standard(b: Seq<char>, sp: char)
    requires
        b.len() > 0,
        !is_white(b[0]) && !is_white(b.last()),
        !(b.len() >= 2 && b[b.len() - 2] == '/' && (b.last() == 'R' || b.last() == 'P')),
        is_white(sp),
    ensures
        standard_call(b) == standard_form(b),
        standard_call(b + seq!['/', 'R']) == standard_form(b),
        standard_call(b + seq!['/', 'P']) == standard_form(b),
        standard_call(seq![sp] + b) == standard_form(b),
        standard_call(b + seq![sp]) == standard_form(b),
{
    reveal_strlit("/R");
    reveal_strlit("/P");
    assert("/R"@ =~= seq!['/', 'R']);
    assert("/P"@ =~= seq!['/', 'P']);
    lemma_trim_tight(b);
    let r = b + seq!['/', 'R'];
    let p = b + seq!['/', 'P'];
    lemma_trim_tight(r);
    lemma_trim_tight(p);
    assert(r.skip(r.len() - 2) =~= seq!['/', 'R']);
    assert(p.skip(p.len() - 2) =~= seq!['/', 'P']);
    assert(r.take(r.len() - 2) =~= b);
    assert(p.take(p.len() - 2) =~= b);
    if b.len() >= 2 {
        let t = b.skip(b.len() - 2);
        assert(t[0] == b[b.len() - 2] && t[1] == b.last());
        assert("/R"@[0] == '/' && "/R"@[1] == 'R' && "/P"@[0] == '/' && "/P"@[1] == 'P');
    }
    assert(!portable(b));
    let front = seq![sp] + b;
    assert(front.skip(1) =~= b);
    let back = b + seq![sp];
    assert(back.drop_last() =~= b);
    reveal_with_fuel(crate::text::trim_start, 2);
    reveal_with_fuel(crate::text::trim_end, 2);
}

/// The digits with which a letter is an allocated prefix.
pub open spec fn open_digits(a: char) -> Seq<char> {
    match a {
        'A' => "23456789"@,
        'B' => "0123456789"@,
        'C' => "23456789"@,
        'D' => "2346789"@,
        'E' => "234567"@,
        'H' => "246789"@,
        'J' => "235678"@,
        'P' => "23456789"@,
        'S' => "02579"@,
        'T' => "2345678"@,
        'V' => "2345678"@,
        'Z' => "2368"@,
        _ => ""@,
    }
}

proof fn lemma_in_text(t: Seq<char>, c: char, i: int)
    requires
        0 <= i < t.len(),
        t[i] == c,
    ensures
        t.contains(c),
{
}

/// A letter and a digit are a prefix just where the digit is one of those
/// allocated to the letter; eight letters are prefixes on their own.
pub proof fn law_prefixes_are_allocated(a: char, d: char)
    requires
        is_digit(d),
    ensures
        allocated_prefix(a, d) == open_digits(a).contains(d),
        lone_prefix(a) == "FGIKMNRW"@.contains(a),
{
    reveal_strlit("23456789");
    reveal_strlit("0123456789");
    reveal_strlit("2346789");
    reveal_strlit("234567");
    reveal_strlit("246789");
    reveal_strlit("235678");
    reveal_strlit("02579");
    reveal_strlit("2345678");
    reveal_strlit("2368");
    reveal_strlit("");
    reveal_strlit("FGIKMNRW");
    let t = open_digits(a);
    if allocated_prefix(a, d) {
        let i: int = if t.len() > 0 && t[0] == d {
            0
        } else if t.len() > 1 && t[1] == d {
            1
        } else if t.len() > 2 && t[2] == d {
            2
        } else if t.len() > 3 && t[3] == d {
            3
        } else if t.len() > 4 && t[4] == d {
            4
        } else if t.len() > 5 && t[5] == d {
            5
        } else if t.len() > 6 && t[6] == d {
            6
        } else if t.len() > 7 && t[7] == d {
            7
        } else if t.len() > 8 && t[8] == d {
            8
        } else {
            9
        };
        lemma_in_text(t, d, i);
    }
    if t.contains(d) {
        let i = choose|i: int| 0 <= i < t.len() && t[i] == d;
        assert(0 <= i < 10);
    }
    let l = "FGIKMNRW"@;
    if lone_prefix(a) {
        let i: int = if a == 'F' {
            0
        } else if a == 'G' {
            1
        } else if a == 'I' {
            2
        } else if a == 'K' {
            3
        } else if a == 'M' {
            4
        } else if a == 'N' {
            5
        } else if a == 'R' {
            6
        } else {
            7
        };
        lemma_in_text(l, a, i);
    }
    if l.contains(a) {
        let i = choose|i: int| 0 <= i < l.len() && l[i] == a;
        assert(0 <= i < 8);
    }
}

/// A callsign of standard shape is believed unless its prefix is a lone
/// letter, or a letter and a digit, that no station has.
pub proof fn law_unknown_prefixes_are_not_believed(p: Seq<char>, d: char, s: Seq<char>)
    requires
        is_digit(d),
        all_upper(s),
        1 <= s.len() <= 3,
        1 <= p.len() <= 2,
        forall|i: int| 0 <= i < p.len() ==> is_upper(#[trigger] p[i]) || is_digit(p[i]),
        exists|i: int| 0 <= i < p.len() && is_upper(#[trigger] p[i]),
    ensures
        p.len() == 1 ==> plausible_call(shaped(p, d, s)) == lone_prefix(p[0]),
        p.len() == 2 && is_upper(p[0]) && is_digit(p[1]) ==> plausible_call(shaped(p, d, s))
            == allocated_prefix(p[0], p[1]),
        p.len() == 2 && is_upper(p[1]) ==> plausible_call(shaped(p, d, s)),
{
    let b = shaped(p, d, s);
    let k = p.len() as int;
    lemma_shaped(p, d, s);
    law_the_standard_form(p, d, s);
    assert forall|i: int| 0 <= i < b.len() implies #[trigger] b[i] != '/' && !is_white(b[i]) by {
        if i < k {
            assert(b[i] == p[i]);
        } else if i > k {
            assert(is_upper(b[i]));
        }
    }
    law_parts_stand_between_separators(b, '/', Seq::empty());
    assert(b[b.len() - 1] == b.last());
    assert(b[0] != '/');
    assert(b[b.len() - 2] != '/');
    law_portable_calls_are_standard(b, ' ');
    assert(standard_call(b));
    assert(without_portable(b) == b);
    assert forall|j: int| #[trigger] separates(b, j) implies j == k by {
        lemma_separator_unique(b, j, k);
    }
    assert(b[0] == p[0]);
    if k == 2 {
        assert(b[1] == p[1]);
    }
    assert(separates(b, k));
    assert(plausible_prefix(b) == allocated(b, k));
}

/// The words of a contact are no callsigns and may stand anywhere; a
/// direction of up to four letters may follow a CQ.
pub proof fn law_contact_words_are_plain(ws: Seq<Seq<char>>, idx: int)
    requires
        0 <= idx < ws.len(),
    ensures
        seq!["CQ"@, "DE"@, "QRZ"@, "RRR"@, "RR73"@, "73"@, "R"@, "DX"@].contains(ws[idx])
            ==> plain_word(ws, idx),
        grid_word(ws[idx]) ==> plain_word(ws, idx),
        ws[idx].len() >= 2 && ws[idx][0] == '<' && ws[idx].last() == '>' ==> plain_word(ws, idx),
        ws[idx].len() >= 2 && ws[idx][0] == 'R' && (ws[idx][1] == '+' || ws[idx][1] == '-')
            ==> plain_word(ws, idx),
        idx == 1 && ws[0] == "CQ"@ && ws[1].len() <= 4 && all_upper(ws[1]) ==> plain_word(ws, idx),
{
    reveal_strlit("<");
    reveal_strlit(">");
    reveal_strlit("R+");
    reveal_strlit("R-");
    let w = ws[idx];
    let l = seq!["CQ"@, "DE"@, "QRZ"@, "RRR"@, "RR73"@, "73"@, "R"@, "DX"@];
    if l.contains(w) {
        let i = choose|i: int| 0 <= i < l.len() && l[i] == w;
        assert(0 <= i < 8);
    }
    if w.len() >= 2 {
        assert("<"@ =~= seq!['<'] && ">"@ =~= seq!['>']);
        assert("R+"@ =~= seq!['R', '+'] && "R-"@ =~= seq!['R', '-']);
        if w[0] == '<' && w.last() == '>' {
            assert(w.take(1) =~= seq!['<']);
            assert(w.skip(w.len() - 1) =~= seq!['>']);
        }
        if w[0] == 'R' && w[1] == '+' {
            assert(w.take(2) =~= seq!['R', '+']);
        }
        if w[0] == 'R' && w[1] == '-' {
            assert(w.take(2) =~= seq!['R', '-']);
        }
    }
}

/// A word of letters alone, but for a direction behind a CQ, is plain only if
/// it is one of a contact's words or starts with `CQ`.
pub proof fn law_other_letters_are_not_plain(ws: Seq<Seq<char>>, idx: int)
    requires
        0 <= idx < ws.len(),
        idx != 1,
        ws[idx].len() > 0,
        all_upper(ws[idx]),
        !starts_with(ws[idx], "CQ"@),
    ensures
        plain_word(ws, idx) == (ws[idx] == "DE"@ || ws[idx] == "QRZ"@ || ws[idx] == "RRR"@
            || ws[idx] == "R"@ || ws[idx] == "DX"@),
{
    reveal_strlit("CQ");
    reveal_strlit("RR73");
    reveal_strlit("73");
    reveal_strlit("<");
    reveal_strlit("R+");
    reveal_strlit("R-");
    reveal_strlit("+");
    reveal_strlit("-");
    let w = ws[idx];
    assert(is_upper(w[0]));
    if w == "CQ"@ {
        assert(w.take(2) =~= "CQ"@);
    }
    if w.len() >= 3 {
        assert(is_upper(w[2]));
    }
    if starts_with(w, "<"@) {
        assert(w.take(1)[0] == w[0] && "<"@[0] == '<');
    }
    if starts_with(w, "+"@) {
        assert(w.take(1)[0] == w[0] && "+"@[0] == '+');
    }
    if starts_with(w, "-"@) {
        assert(w.take(1)[0] == w[0] && "-"@[0] == '-');
    }
    if starts_with(w, "R+"@) {
        assert(w.take(2)[1] == w[1] && "R+"@[1] == '+');
        assert(is_upper(w[1]));
    }
    if starts_with(w, "R-"@) {
        assert(w.take(2)[1] == w[1] && "R-"@[1] == '-');
        assert(is_upper(w[1]));
    }
    assert("RR73"@[2] == '7' && "73"@[0] == '7' && "RR73"@.len() == 4);
}

/// One word that is neither plain nor a believable callsign makes a message
/// unbelievable, unless it is marked as a contest's or a DXpedition's; a
/// message of no words is not believed.
pub proof fn law_one_bad_word_is_enough(text: Seq<char>, i: int)
    requires
        !contains_text(text, "[FD]"@),
        !contains_text(text, "[RTTY]"@),
        !contains_text(text, "RR73;"@),
    ensures
        words(text).len() == 0 ==> !plausible_text(text),
        0 <= i < words(text).len() && !plain_word(words(text), i) && !plausible_call(
            words(text)[i],
        ) ==> !plausible_text(text),
        words(text).len() > 0 && (forall|k: int|
            0 <= k < words(text).len() ==> #[trigger] plain_word(words(text), k)) ==> plausible_text(
            text,
        ),
        words(text).len() > 0 && (forall|k: int|
            0 <= k < words(text).len() ==> plausible_call(#[trigger] words(text)[k]))
            ==> plausible_text(text),
{
}

/// A direction has at most four letters and stands right behind a CQ: a
/// longer word of letters there, or one behind anything else, is plain only
/// if it is one of a contact's words or starts with `CQ`.
pub proof fn law_directions_are_short(ws: Seq<Seq<char>>)
    requires
        ws.len() >= 2,
        all_upper(ws[1]),
        ws[1].len() > 4 || (ws[0] != "CQ"@ && ws[1].len() > 0),
        !starts_with(ws[1], "CQ"@),
    ensures
        plain_word(ws, 1) == (ws[1] == "DE"@ || ws[1] == "QRZ"@ || ws[1] == "RRR"@ || ws[1] == "R"@
            || ws[1] == "DX"@),
{
    let vs = seq![ws[1]];
    law_other_letters_are_not_plain(vs, 0);
}

}
