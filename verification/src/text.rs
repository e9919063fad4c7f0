//! Text as sequences of characters.
//!
//! The message code works on `Vec<char>`: a string is taken apart once,
//! the rules are applied to the characters, and a string is built at the
//! end. Contracts speak of `Seq<char>`, the view of every string.

use crate::radix::value;
use vstd::prelude::*;

verus! {

/// `String::push`: appends one character at the end.
pub assume_specification[ String::push ](s: &mut String, c: char)
    ensures
        final(s)@ == old(s)@.push(c),
;

// ── Characters ──────────────────────────────────────────────────────────────

/// The Unicode `White_Space` property.
pub open spec fn is_white(c: char) -> bool {
    let n = c as u32;
    ||| 0x09 <= n <= 0x0d
    ||| n == 0x20
    ||| n == 0x85
    ||| n == 0xa0
    ||| n == 0x1680
    ||| 0x2000 <= n <= 0x200a
    ||| n == 0x2028
    ||| n == 0x2029
    ||| n == 0x202f
    ||| n == 0x205f
    ||| n == 0x3000
}

pub open spec fn is_digit(c: char) -> bool {
    '0' <= c <= '9'
}

pub open spec fn is_upper(c: char) -> bool {
    'A' <= c <= 'Z'
}

pub open spec fn is_alpha(c: char) -> bool {
    is_upper(c) || 'a' <= c <= 'z'
}

pub open spec fn is_alnum(c: char) -> bool {
    is_alpha(c) || is_digit(c)
}

/// `a`–`z` to `A`–`Z`; everything else unchanged.
pub open spec fn to_upper(c: char) -> char {
    if 'a' <= c <= 'z' {
        (c as u32 - 32) as char
    } else {
        c
    }
}

pub open spec fn is_ascii_text(s: Seq<char>) -> bool {
    forall|i: int| 0 <= i < s.len() ==> (#[trigger] s[i] as u32) < 128
}

pub open spec fn upper_text(s: Seq<char>) -> Seq<char> {
    Seq::new(s.len(), |i: int| to_upper(s[i]))
}

pub fn white(c: char) -> (r: bool)
    ensures
        r == is_white(c),
{
    let n: u32 = c as u32;
    (0x09 <= n && n <= 0x0d) || n == 0x20 || n == 0x85 || n == 0xa0 || n == 0x1680 || (0x2000 <= n
        && n <= 0x200a) || n == 0x2028 || n == 0x2029 || n == 0x202f || n == 0x205f || n == 0x3000
}

pub fn digit(c: char) -> (r: bool)
    ensures
        r == is_digit(c),
{
    '0' <= c && c <= '9'
}

pub fn upper_letter(c: char) -> (r: bool)
    ensures
        r == is_upper(c),
{
    'A' <= c && c <= 'Z'
}

pub fn alnum(c: char) -> (r: bool)
    ensures
        r == is_alnum(c),
{
    upper_letter(c) || ('a' <= c && c <= 'z') || digit(c)
}

pub fn ascii_upper(c: char) -> (r: char)
    ensures
        r == to_upper(c),
{
    if 'a' <= c && c <= 'z' {
        let b: u8 = c as u8;
        (b - 32) as char
    } else {
        c
    }
}

// ── Whole texts ─────────────────────────────────────────────────────────────

/// The characters of a string.
pub fn chars_of(s: &str) -> (v: Vec<char>)
    ensures
        v@ == s@,
{
    let mut v: Vec<char> = Vec::new();
    for c in it: s.chars()
        invariant
            v@ == s@.take(it.index() as int),
            it.seq() == s@,
    {
        v.push(c);
    }
    v
}

/// A string with the given characters.
pub fn string_of(v: &[char]) -> (s: String)
    ensures
        s@ == v@,
{
    let mut s: String = String::new();
    let mut i: usize = 0;
    while i < v.len()
        invariant
            i <= v.len(),
            s@ == v@.take(i as int),
        decreases v.len() - i,
    {
        s.push(v[i]);
        i += 1;
    }
    s
}

/// Whether two texts are the same.
pub fn same(a: &[char], b: &[char]) -> (r: bool)
    ensures
        r == (a@ == b@),
{
    if a.len() != b.len() {
        return false;
    }
    let mut i: usize = 0;
    while i < a.len()
        invariant
            a.len() == b.len(),
            i <= a.len(),
            forall|j: int| 0 <= j < i ==> a@[j] == b@[j],
        decreases a.len() - i,
    {
        if a[i] != b[i] {
            assert(a@[i as int] != b@[i as int]);
            return false;
        }
        i += 1;
    }
    assert(a@ =~= b@);
    true
}

/// Whether a text is the given string.
pub fn is_str(a: &[char], s: &str) -> (r: bool)
    ensures
        r == (a@ == s@),
{
    let b = chars_of(s);
    same(a, b.as_slice())
}

pub open spec fn starts_with(s: Seq<char>, p: Seq<char>) -> bool {
    p.len() <= s.len() && s.take(p.len() as int) == p
}

pub open spec fn ends_with(s: Seq<char>, p: Seq<char>) -> bool {
    p.len() <= s.len() && s.skip(s.len() - p.len()) == p
}

pub fn has_prefix(a: &[char], p: &str) -> (r: bool)
    ensures
        r == starts_with(a@, p@),
{
    let b = chars_of(p);
    if b.len() > a.len() {
        return false;
    }
    let h = vstd::slice::slice_subrange(a, 0, b.len());
    same(h, b.as_slice())
}

pub fn has_suffix(a: &[char], p: &str) -> (r: bool)
    ensures
        r == ends_with(a@, p@),
{
    let b = chars_of(p);
    if b.len() > a.len() {
        return false;
    }
    let h = vstd::slice::slice_subrange(a, a.len() - b.len(), a.len());
    same(h, b.as_slice())
}

/// `needle` occurs somewhere in `s`.
pub open spec fn contains_text(s: Seq<char>, needle: Seq<char>) -> bool {
    exists|i: int|
        0 <= i <= s.len() - needle.len() && #[trigger] s.subrange(i, i + needle.len()) == needle
}

pub fn has_text(a: &[char], needle: &str) -> (r: bool)
    ensures
        r == contains_text(a@, needle@),
{
    let b = chars_of(needle);
    if b.len() > a.len() {
        return false;
    }
    let last: usize = a.len() - b.len();
    let mut i: usize = 0;
    loop
        invariant
            i <= last,
            last + b.len() == a.len(),
            b@ == needle@,
            forall|j: int| 0 <= j < i ==> #[trigger] a@.subrange(j, j + b@.len()) != b@,
        decreases last - i,
    {
        let h = vstd::slice::slice_subrange(a, i, i + b.len());
        if same(h, b.as_slice()) {
            assert(a@.subrange(i as int, i + b@.len()) == needle@);
            return true;
        }
        if i == last {
            return false;
        }
        i += 1;
    }
}

pub fn all_ascii(a: &[char]) -> (r: bool)
    ensures
        r == is_ascii_text(a@),
{
    let mut i: usize = 0;
    while i < a.len()
        invariant
            i <= a.len(),
            forall|j: int| 0 <= j < i ==> (#[trigger] a@[j] as u32) < 128,
        decreases a.len() - i,
    {
        if (a[i] as u32) >= 128 {
            assert(a@[i as int] as u32 >= 128);
            return false;
        }
        i += 1;
    }
    true
}

pub fn upper_of(a: &[char]) -> (r: Vec<char>)
    ensures
        r@ == upper_text(a@),
{
    let mut r: Vec<char> = Vec::new();
    let mut i: usize = 0;
    while i < a.len()
        invariant
            i <= a.len(),
            r@ == upper_text(a@).take(i as int),
        decreases a.len() - i,
    {
        r.push(ascii_upper(a[i]));
        i += 1;
    }
    assert(upper_text(a@).take(a.len() as int) =~= upper_text(a@));
    r
}

// ── Trimming ────────────────────────────────────────────────────────────────

pub open spec fn trim_start(s: Seq<char>) -> Seq<char>
    decreases s.len(),
{
    if s.len() > 0 && is_white(s[0]) {
        trim_start(s.skip(1))
    } else {
        s
    }
}

pub open spec fn trim_end(s: Seq<char>) -> Seq<char>
    decreases s.len(),
{
    if s.len() > 0 && is_white(s.last()) {
        trim_end(s.drop_last())
    } else {
        s
    }
}

/// White space removed from both ends.
pub open spec fn trim(s: Seq<char>) -> Seq<char> {
    trim_end(trim_start(s))
}

pub fn trimmed(a: &[char]) -> (r: Vec<char>)
    ensures
        r@ == trim(a@),
{
    let mut i: usize = 0;
    assert(a@.skip(0) =~= a@);
    while i < a.len() && white(a[i])
        invariant
            i <= a.len(),
            trim_start(a@) == trim_start(a@.skip(i as int)),
        decreases a.len() - i,
    {
        assert(a@.skip(i as int).skip(1) =~= a@.skip(i + 1));
        i += 1;
    }
    let ghost t = a@.skip(i as int);
    assert(trim_start(a@) == t);
    let mut j: usize = a.len();
    assert(t.take((j - i) as int) =~= t);
    while i < j && white(a[j - 1])
        invariant
            i <= j <= a.len(),
            t == a@.skip(i as int),
            trim_end(t) == trim_end(t.take(j - i)),
        decreases j,
    {
        assert(t.take(j - i).drop_last() =~= t.take(j - i - 1));
        assert(t.take(j - i).last() == a@[j - 1]);
        j -= 1;
    }
    if i < j {
        assert(t.take(j - i).last() == a@[j - 1]);
    }
    let r = vstd::slice::slice_to_vec(vstd::slice::slice_subrange(a, i, j));
    assert(r@ =~= t.take(j - i));
    r
}

/// A text with no white space at either end is left alone.
pub proof fn lemma_trim_tight(s: Seq<char>)
    requires
        s.len() > 0 ==> !is_white(s[0]) && !is_white(s.last()),
    ensures
        trim(s) == s,
{
}

// ── Splitting ───────────────────────────────────────────────────────────────

/// Where `c` first stands in `s`; the length of `s` if nowhere.
pub open spec fn find_char(s: Seq<char>, c: char) -> int
    decreases s.len(),
{
    if s.len() == 0 || s[0] == c {
        0
    } else {
        1 + find_char(s.skip(1), c)
    }
}

pub proof fn lemma_find_char(s: Seq<char>, c: char)
    ensures
        0 <= find_char(s, c) <= s.len(),
        find_char(s, c) < s.len() ==> s[find_char(s, c)] == c,
        forall|i: int| 0 <= i < find_char(s, c) ==> #[trigger] s[i] != c,
    decreases s.len(),
{
    if s.len() > 0 && s[0] != c {
        lemma_find_char(s.skip(1), c);
        assert forall|i: int| 0 <= i < find_char(s, c) implies #[trigger] s[i] != c by {
            if i > 0 {
                assert(s.skip(1)[i - 1] == s[i]);
            }
        }
    }
}

pub proof fn lemma_find_char_is(s: Seq<char>, c: char, p: int)
    requires
        0 <= p <= s.len(),
        p < s.len() ==> s[p] == c,
        forall|i: int| 0 <= i < p ==> #[trigger] s[i] != c,
    ensures
        find_char(s, c) == p,
{
    lemma_find_char(s, c);
    let q = find_char(s, c);
    if q < p {
        assert(s[q] != c);
    } else if p < q {
        assert(s[p] != c);
    }
}

/// The parts of `s` between the occurrences of `c`.
pub open spec fn split(s: Seq<char>, c: char) -> Seq<Seq<char>>
    decreases s.len(),
    via split_decreases
{
    let k = find_char(s, c);
    if k < s.len() {
        seq![s.take(k)] + split(s.skip(k + 1), c)
    } else {
        seq![s]
    }
}

#[via_fn]
proof fn split_decreases(s: Seq<char>, c: char) {
    lemma_find_char(s, c);
}

/// The texts of a list of character vectors.
pub open spec fn texts(v: Seq<Vec<char>>) -> Seq<Seq<char>> {
    Seq::new(v.len(), |i: int| v[i]@)
}

pub fn find_in(a: &[char], c: char) -> (k: usize)
    ensures
        k == find_char(a@, c),
        k <= a.len(),
{
    let mut k: usize = 0;
    while k < a.len() && a[k] != c
        invariant
            k <= a.len(),
            forall|i: int| 0 <= i < k ==> #[trigger] a@[i] != c,
        decreases a.len() - k,
    {
        k += 1;
    }
    proof {
        lemma_find_char_is(a@, c, k as int);
    }
    k
}

pub fn split_on(a: &[char], c: char) -> (r: Vec<Vec<char>>)
    ensures
        texts(r@) == split(a@, c),
        r.len() > 0,
{
    let mut r: Vec<Vec<char>> = Vec::new();
    let mut rest: &[char] = a;
    assert(texts(r@) + split(a@, c) =~= split(a@, c));
    loop
        invariant
            texts(r@) + split(rest@, c) == split(a@, c),
        decreases rest.len(),
    {
        let k: usize = find_in(rest, c);
        let ghost r0 = texts(r@);
        let part = vstd::slice::slice_to_vec(vstd::slice::slice_subrange(rest, 0, k));
        if k == rest.len() {
            assert(part@ =~= rest@);
            r.push(part);
            assert(texts(r@) =~= r0.push(rest@));
            assert(r0 + seq![rest@] =~= r0.push(rest@));
            return r;
        }
        r.push(part);
        assert(part@ =~= rest@.take(k as int));
        assert(texts(r@) =~= r0.push(part@));
        let next = vstd::slice::slice_subrange(rest, k + 1, rest.len());
        assert(next@ =~= rest@.skip(k + 1));
        assert(r0.push(part@) + split(next@, c) =~= r0 + (seq![part@] + split(next@, c)));
        rest = next;
    }
}

/// How many characters of `s` stand before its first white space.
pub open spec fn word_len(s: Seq<char>) -> int
    decreases s.len(),
{
    if s.len() == 0 || is_white(s[0]) {
        0
    } else {
        1 + word_len(s.skip(1))
    }
}

pub proof fn lemma_word_len(s: Seq<char>)
    ensures
        0 <= word_len(s) <= s.len(),
    decreases s.len(),
{
    if s.len() > 0 && !is_white(s[0]) {
        lemma_word_len(s.skip(1));
    }
}

pub proof fn lemma_trim_start_len(s: Seq<char>)
    ensures
        trim_start(s).len() <= s.len(),
        trim_start(s).len() > 0 ==> !is_white(trim_start(s)[0]),
    decreases s.len(),
{
    if s.len() > 0 && is_white(s[0]) {
        lemma_trim_start_len(s.skip(1));
    }
}

/// The words of `s`: what white space separates.
pub open spec fn words(s: Seq<char>) -> Seq<Seq<char>>
    decreases s.len(),
    via words_decreases
{
    let t = trim_start(s);
    if t.len() == 0 {
        Seq::empty()
    } else {
        seq![t.take(word_len(t))] + words(t.skip(word_len(t)))
    }
}

#[via_fn]
proof fn words_decreases(s: Seq<char>) {
    let t = trim_start(s);
    lemma_trim_start_len(s);
    lemma_word_len(t);
    if t.len() > 0 {
        lemma_word_len(t.skip(1));
    }
}

pub fn words_of(a: &[char]) -> (r: Vec<Vec<char>>)
    ensures
        texts(r@) == words(a@),
{
    let mut r: Vec<Vec<char>> = Vec::new();
    let mut i: usize = 0;
    assert(a@.skip(0) =~= a@);
    assert(texts(r@) + words(a@) =~= words(a@));
    loop
        invariant
            i <= a.len(),
            texts(r@) + words(a@.skip(i as int)) == words(a@),
        decreases a.len() - i,
    {
        let ghost s0 = a@.skip(i as int);
        let ghost i0 = i;
        while i < a.len() && white(a[i])
            invariant
                i0 <= i <= a.len(),
                trim_start(s0) == trim_start(a@.skip(i as int)),
            decreases a.len() - i,
        {
            assert(a@.skip(i as int).skip(1) =~= a@.skip(i + 1));
            i += 1;
        }
        let ghost t = a@.skip(i as int);
        assert(trim_start(s0) == t);
        if i == a.len() {
            assert(words(s0) =~= Seq::<Seq<char>>::empty());
            assert(texts(r@) + Seq::<Seq<char>>::empty() =~= texts(r@));
            return r;
        }
        let start: usize = i;
        while i < a.len() && !white(a[i])
            invariant
                start <= i <= a.len(),
                t == a@.skip(start as int),
                word_len(t) == (i - start) + word_len(a@.skip(i as int)),
            decreases a.len() - i,
        {
            assert(a@.skip(i as int).skip(1) =~= a@.skip(i + 1));
            i += 1;
        }
        assert(word_len(t) == i - start);
        let w = vstd::slice::slice_to_vec(vstd::slice::slice_subrange(a, start, i));
        let ghost r0 = texts(r@);
        assert(w@ =~= t.take(word_len(t)));
        assert(t.skip(word_len(t)) =~= a@.skip(i as int));
        r.push(w);
        assert(texts(r@) =~= r0.push(w@));
        assert(r0.push(w@) + words(a@.skip(i as int)) =~= r0 + (seq![w@] + words(
            a@.skip(i as int),
        )));
        assert(i > start) by {
            lemma_word_len(t.skip(1));
        }
    }
}

// ── Numbers ─────────────────────────────────────────────────────────────────

pub open spec fn all_digits(s: Seq<char>) -> bool {
    s.len() > 0 && forall|i: int| 0 <= i < s.len() ==> is_digit(#[trigger] s[i])
}

/// The number a run of decimal digits stands for.
pub open spec fn dec_value(s: Seq<char>) -> nat {
    value(Seq::new(s.len(), |i: int| (s[i] as u32 - 48) as nat), 10)
}

/// Decimal digits without leading zeros.
pub open spec fn dec(n: nat) -> Seq<char>
    decreases n,
{
    if n < 10 {
        seq![(n + 48) as char]
    } else {
        dec(n / 10).push((n % 10 + 48) as char)
    }
}

/// `s` with `fill` in front, up to `w` characters.
pub open spec fn pad_left(s: Seq<char>, w: nat, fill: char) -> Seq<char> {
    if s.len() < w {
        Seq::new((w - s.len()) as nat, |i: int| fill) + s
    } else {
        s
    }
}

/// An optional `+`, then digits; at most `max`.
pub open spec fn parse_unsigned(s: Seq<char>, max: nat) -> Option<nat> {
    let t = if s.len() > 1 && s[0] == '+' {
        s.skip(1)
    } else {
        s
    };
    if all_digits(t) && dec_value(t) <= max {
        Some(dec_value(t))
    } else {
        None
    }
}

/// An optional `+` or `-`, then digits, in the range of a 32-bit integer.
pub open spec fn parse_signed(s: Seq<char>) -> Option<int> {
    let neg = s.len() > 1 && s[0] == '-';
    let t = if neg || (s.len() > 1 && s[0] == '+') {
        s.skip(1)
    } else {
        s
    };
    if all_digits(t) && dec_value(t) <= (if neg {
        0x8000_0000nat
    } else {
        0x7fff_ffffnat
    }) {
        Some(if neg {
            -(dec_value(t) as int)
        } else {
            dec_value(t) as int
        })
    } else {
        None
    }
}

/// The value of a run of digits, if it is one and at most `max`.
pub fn digits_value(a: &[char], max: u32) -> (r: Option<u32>)
    ensures
        match r {
            Some(n) => all_digits(a@) && dec_value(a@) == n && n <= max,
            None => !(all_digits(a@) && dec_value(a@) <= max),
        },
{
    if a.len() == 0 {
        return None;
    }
    let ghost d = Seq::new(a@.len(), |i: int| (a@[i] as u32 - 48) as nat);
    let mut n: u64 = 0;
    let mut i: usize = 0;
    assert(d.take(0) =~= Seq::<nat>::empty());
    while i < a.len()
        invariant
            i <= a.len(),
            d == Seq::new(a@.len(), |i: int| (a@[i] as u32 - 48) as nat),
            n == value(d.take(i as int), 10),
            n <= max,
            forall|j: int| 0 <= j < i ==> is_digit(#[trigger] a@[j]),
        decreases a.len() - i,
    {
        if !digit(a[i]) {
            assert(!is_digit(a@[i as int]));
            return None;
        }
        proof {
            assert(d.take(i + 1).drop_last() =~= d.take(i as int));
        }
        n = n * 10 + (a[i] as u32 - 48) as u64;
        i += 1;
        if n > max as u64 {
            proof {
                if all_digits(a@) {
                    lemma_value_prefix(d, i as int, 10);
                }
            }
            return None;
        }
    }
    assert(d.take(d.len() as int) =~= d);
    Some(n as u32)
}

/// Further digits do not make a number smaller.
proof fn lemma_value_prefix(d: Seq<nat>, i: int, b: nat)
    requires
        0 <= i <= d.len(),
        b >= 1,
    ensures
        value(d.take(i), b) <= value(d, b),
    decreases d.len() - i,
{
    if i < d.len() {
        assert(d.take(i + 1).drop_last() =~= d.take(i));
        let v = value(d.take(i), b);
        assert(v <= v * b + d[i]) by (nonlinear_arith)
            requires
                b >= 1,
                v >= 0,
                d[i] >= 0,
        ;
        lemma_value_prefix(d, i + 1, b);
    } else {
        assert(d.take(i) =~= d);
    }
}

pub fn read_unsigned(a: &[char], max: u32) -> (r: Option<u32>)
    ensures
        match r {
            Some(n) => parse_unsigned(a@, max as nat) == Some(n as nat),
            None => parse_unsigned(a@, max as nat) is None,
        },
{
    if a.len() > 1 && a[0] == '+' {
        let t = vstd::slice::slice_subrange(a, 1, a.len());
        assert(t@ =~= a@.skip(1));
        digits_value(t, max)
    } else {
        digits_value(a, max)
    }
}

pub fn read_signed(a: &[char]) -> (r: Option<i32>)
    ensures
        match r {
            Some(n) => parse_signed(a@) == Some(n as int),
            None => parse_signed(a@) is None,
        },
{
    if a.len() > 1 && a[0] == '-' {
        let t = vstd::slice::slice_subrange(a, 1, a.len());
        assert(t@ =~= a@.skip(1));
        match digits_value(t, 0x8000_0000) {
            Some(n) => Some((-(n as i64)) as i32),
            None => None,
        }
    } else if a.len() > 1 && a[0] == '+' {
        let t = vstd::slice::slice_subrange(a, 1, a.len());
        assert(t@ =~= a@.skip(1));
        match digits_value(t, 0x7fff_ffff) {
            Some(n) => Some(n as i32),
            None => None,
        }
    } else {
        match digits_value(a, 0x7fff_ffff) {
            Some(n) => Some(n as i32),
            None => None,
        }
    }
}

/// The decimal digits of `n`.
pub fn dec_of(n: u128) -> (r: Vec<char>)
    ensures
        r@ == dec(n as nat),
    decreases n,
{
    let mut r: Vec<char> = if n < 10 {
        Vec::new()
    } else {
        dec_of(n / 10)
    };
    r.push(((n % 10) as u8 + 48) as char);
    assert(n < 10 ==> r@ =~= dec(n as nat));
    r
}

/// The decimal digits of `n` with `fill` in front, up to `w` characters.
pub fn dec_padded(n: u64, w: usize, fill: char) -> (s: String)
    ensures
        s@ == pad_left(dec(n as nat), w as nat, fill),
{
    let d = dec_of(n as u128);
    padded_left(d.as_slice(), w, fill)
}

/// `s` with `fill` in front, up to `w` characters.
pub fn padded_left(a: &[char], w: usize, fill: char) -> (s: String)
    ensures
        s@ == pad_left(a@, w as nat, fill),
{
    let mut s: String = String::new();
    let mut k: usize = a.len();
    while k < w
        invariant
            a.len() <= k,
            k <= w || k == a.len(),
            s@ == Seq::new((k - a.len()) as nat, |i: int| fill),
        decreases w - k,
    {
        s.push(fill);
        k += 1;
        assert(s@ =~= Seq::new((k - a.len()) as nat, |i: int| fill));
    }
    let t = string_of(a);
    s.append(t.as_str());
    assert(s@ =~= pad_left(a@, w as nat, fill));
    s
}

/// `s` with spaces after it, up to `w` characters.
pub open spec fn pad_right(s: Seq<char>, w: nat) -> Seq<char> {
    if s.len() < w {
        s + Seq::new((w - s.len()) as nat, |i: int| ' ')
    } else {
        s
    }
}

pub fn padded_right(a: &[char], w: usize) -> (s: String)
    ensures
        s@ == pad_right(a@, w as nat),
{
    let mut s = string_of(a);
    let mut k: usize = a.len();
    while k < w
        invariant
            a.len() <= k,
            k <= w || k == a.len(),
            s@ == a@ + Seq::new((k - a.len()) as nat, |i: int| ' '),
        decreases w - k,
    {
        s.push(' ');
        k += 1;
        assert(s@ =~= a@ + Seq::new((k - a.len()) as nat, |i: int| ' '));
    }
    assert(s@ =~= pad_right(a@, w as nat));
    s
}

/// A decimal number with its sign when it is negative.
pub open spec fn signed_dec(n: int) -> Seq<char> {
    if n < 0 {
        seq!['-'] + dec((-n) as nat)
    } else {
        dec(n as nat)
    }
}

pub fn signed_dec_of(n: i64) -> (r: Vec<char>)
    ensures
        r@ == signed_dec(n as int),
{
    if n < 0 {
        let mut r: Vec<char> = Vec::new();
        r.push('-');
        let mut d = dec_of((-(n as i128)) as u128);
        r.append(&mut d);
        assert(r@ =~= signed_dec(n as int));
        r
    } else {
        dec_of(n as u128)
    }
}

/// White space removed from the end.
pub fn trimmed_end(a: &[char]) -> (r: Vec<char>)
    ensures
        r@ == trim_end(a@),
{
    let mut j: usize = a.len();
    assert(a@.take(j as int) =~= a@);
    while 0 < j && white(a[j - 1])
        invariant
            j <= a.len(),
            trim_end(a@) == trim_end(a@.take(j as int)),
        decreases j,
    {
        assert(a@.take(j as int).drop_last() =~= a@.take(j - 1));
        j -= 1;
    }
    let r = vstd::slice::slice_to_vec(vstd::slice::slice_subrange(a, 0, j));
    assert(r@ =~= a@.take(j as int));
    r
}

/// A hexadecimal digit, in lower case.
pub open spec fn hex_digit(n: nat) -> char {
    if n < 10 {
        (n + 48) as char
    } else {
        (n + 87) as char
    }
}

/// A number in hexadecimal, without leading zeros.
pub open spec fn hex(n: nat) -> Seq<char>
    decreases n,
{
    if n < 16 {
        seq![hex_digit(n)]
    } else {
        hex(n / 16).push(hex_digit(n % 16))
    }
}

pub fn hex_of(n: u32) -> (r: Vec<char>)
    ensures
        r@ == hex(n as nat),
    decreases n,
{
    let d: u8 = (n % 16) as u8;
    let c: char = if d < 10 {
        (d + 48) as char
    } else {
        (d + 87) as char
    };
    let mut r: Vec<char> = if n < 16 {
        Vec::new()
    } else {
        hex_of(n / 16)
    };
    r.push(c);
    assert(r@ =~= hex(n as nat));
    r
}

/// Appends a decimal number.
pub fn add_dec(s: &mut String, n: u64)
    ensures
        final(s)@ == old(s)@ + dec(n as nat),
{
    let d = string_of(dec_of(n as u128).as_slice());
    s.append(d.as_str());
}

/// Appends a decimal number with its sign when it is negative.
pub fn add_signed(s: &mut String, n: i64)
    ensures
        final(s)@ == old(s)@ + signed_dec(n as int),
{
    let d = string_of(signed_dec_of(n).as_slice());
    s.append(d.as_str());
}

/// A byte as `0x` and two hexadecimal digits.
pub open spec fn hex_byte(n: u8) -> Seq<char> {
    "0x"@ + pad_left(hex(n as nat), 2, '0')
}

pub fn add_hex_byte(s: &mut String, n: u8)
    ensures
        final(s)@ == old(s)@ + hex_byte(n),
{
    let h = padded_left(hex_of(n as u32).as_slice(), 2, '0');
    s.append("0x");
    s.append(h.as_str());
    assert(s@ =~= old(s)@ + hex_byte(n));
}

// ── Laws ────────────────────────────────────────────────────────────────────

/// A number written in decimal is read as that number; it is all digits, and
/// none but zero starts with a `0`.
pub proof fn law_decimal_reads_back(n: nat)
    ensures
        all_digits(dec(n)),
        dec_value(dec(n)) == n,
        n > 0 ==> dec(n)[0] != '0',
    decreases n,
{
    let s = dec(n);
    let d = Seq::new(s.len(), |i: int| (s[i] as u32 - 48) as nat);
    reveal_with_fuel(value, 2);
    if n < 10 {
        assert(d.drop_last() =~= Seq::<nat>::empty());
        assert(d.last() == n);
    } else {
        law_decimal_reads_back(n / 10);
        let t = dec(n / 10);
        let e = Seq::new(t.len(), |i: int| (t[i] as u32 - 48) as nat);
        assert(d.drop_last() =~= e);
        assert(d.last() == n % 10);
        assert forall|i: int| 0 <= i < s.len() implies is_digit(#[trigger] s[i]) by {
            if i < t.len() {
                assert(s[i] == t[i]);
            }
        }
    }
}

/// Filling up on the left keeps the text at the right end and fills only to
/// the width.
pub proof fn law_padding_on_the_left(s: Seq<char>, w: nat, fill: char)
    ensures
        pad_left(s, w, fill).len() == (if s.len() < w {
            w
        } else {
            s.len()
        }),
        ends_with(pad_left(s, w, fill), s),
        forall|i: int|
            0 <= i < pad_left(s, w, fill).len() - s.len() ==> #[trigger] pad_left(s, w, fill)[i]
                == fill,
{
    let p = pad_left(s, w, fill);
    assert(p.skip(p.len() - s.len()) =~= s);
}

/// Filling up on the right keeps the text at the left end.
pub proof fn law_padding_on_the_right(s: Seq<char>, w: nat)
    ensures
        pad_right(s, w).len() == (if s.len() < w {
            w
        } else {
            s.len()
        }),
        starts_with(pad_right(s, w), s),
        forall|i: int| s.len() <= i < pad_right(s, w).len() ==> #[trigger] pad_right(s, w)[i] == ' ',
{
    let p = pad_right(s, w);
    assert(p.take(s.len() as int) =~= s);
}

/// The number that lower-case hexadecimal digits stand for.
pub open spec fn hex_value(s: Seq<char>) -> nat
    decreases s.len(),
{
    if s.len() == 0 {
        0
    } else {
        16 * hex_value(s.drop_last()) + (if is_digit(s.last()) {
            s.last() as u32 - 0x30
        } else {
            s.last() as u32 - 0x61 + 10
        }) as nat
    }
}

/// A number written in hexadecimal is read as that number, in digits and
/// `a` to `f`, and none but zero starts with a `0`.
pub proof fn law_hexadecimal_reads_back(n: nat)
    ensures
        hex(n).len() > 0,
        hex_value(hex(n)) == n,
        forall|i: int|
            0 <= i < hex(n).len() ==> is_digit(#[trigger] hex(n)[i]) || 'a' <= hex(n)[i] <= 'f',
        n > 0 ==> hex(n)[0] != '0',
    decreases n,
{
    let s = hex(n);
    if n < 16 {
        assert(s.drop_last() =~= Seq::<char>::empty());
        assert(hex_value(s.drop_last()) == 0);
    } else {
        law_hexadecimal_reads_back(n / 16);
        let t = hex(n / 16);
        assert(s.drop_last() =~= t);
        assert forall|i: int| 0 <= i < s.len() implies is_digit(#[trigger] s[i]) || 'a' <= s[i]
            <= 'f' by {
            if i < t.len() {
                assert(s[i] == t[i]);
            }
        }
    }
}

/// Trimming takes white space off both ends and nothing else.
pub proof fn law_trimming_takes_white_space(s: Seq<char>)
    ensures
        trim(s).len() > 0 ==> !is_white(trim(s)[0]) && !is_white(trim(s).last()),
        exists|a: int|
            0 <= a && a + trim(s).len() <= s.len() && #[trigger] s.subrange(
                a,
                a + trim(s).len(),
            ) == trim(s) && (forall|i: int|
                0 <= i < s.len() && !(a <= i < a + trim(s).len()) ==> is_white(#[trigger] s[i])),
{
    let t = trim_start(s);
    let a = s.len() - t.len();
    lemma_trim_start_is_a_tail(s);
    lemma_trim_end_is_a_head(t);
    let r = trim(s);
    lemma_trim_start_len(s);
    assert(s.subrange(a, a + r.len()) =~= r) by {
        assert forall|i: int| 0 <= i < r.len() implies s.subrange(a, a + r.len())[i] == r[i] by {
            assert(t.take(r.len() as int)[i] == r[i]);
            assert(s.skip(a)[i] == t[i]);
        }
    }
    assert forall|i: int| 0 <= i < s.len() && !(a <= i < a + r.len()) implies is_white(
        #[trigger] s[i],
    ) by {
        if i >= a {
            assert(s.skip(a)[i - a] == t[i - a]);
        }
    }
    if r.len() > 0 {
        assert(t.take(r.len() as int)[0] == r[0]);
    }
}

proof fn lemma_trim_start_is_a_tail(s: Seq<char>)
    ensures
        trim_start(s).len() <= s.len(),
        s.skip(s.len() - trim_start(s).len()) == trim_start(s),
        forall|i: int| 0 <= i < s.len() - trim_start(s).len() ==> is_white(#[trigger] s[i]),
    decreases s.len(),
{
    if s.len() > 0 && is_white(s[0]) {
        let u = s.skip(1);
        lemma_trim_start_is_a_tail(u);
        assert(u.skip(u.len() - trim_start(u).len()) =~= s.skip(s.len() - trim_start(s).len()));
        assert forall|i: int| 0 <= i < s.len() - trim_start(s).len() implies is_white(
            #[trigger] s[i],
        ) by {
            if i > 0 {
                assert(u[i - 1] == s[i]);
            }
        }
    } else {
        assert(s.skip(0) =~= s);
    }
}

proof fn lemma_trim_end_is_a_head(s: Seq<char>)
    ensures
        trim_end(s).len() <= s.len(),
        s.take(trim_end(s).len() as int) == trim_end(s),
        forall|i: int| trim_end(s).len() <= i < s.len() ==> is_white(#[trigger] s[i]),
        trim_end(s).len() > 0 ==> !is_white(trim_end(s).last()),
    decreases s.len(),
{
    if s.len() > 0 && is_white(s.last()) {
        let u = s.drop_last();
        lemma_trim_end_is_a_head(u);
        assert(u.take(trim_end(u).len() as int) =~= s.take(trim_end(s).len() as int));
        assert forall|i: int| trim_end(s).len() <= i < s.len() implies is_white(
            #[trigger] s[i],
        ) by {
            if i < s.len() - 1 {
                assert(u[i] == s[i]);
            }
        }
    } else {
        assert(s.take(s.len() as int) =~= s);
    }
}

/// A text without white space.
pub open spec fn unbroken(w: Seq<char>) -> bool {
    w.len() > 0 && forall|i: int| 0 <= i < w.len() ==> !is_white(#[trigger] w[i])
}

proof fn lemma_word_len_is(w: Seq<char>, rest: Seq<char>)
    requires
        forall|i: int| 0 <= i < w.len() ==> !is_white(#[trigger] w[i]),
        rest.len() > 0 ==> is_white(rest[0]),
    ensures
        word_len(w + rest) == w.len(),
    decreases w.len(),
{
    let s = w + rest;
    if w.len() > 0 {
        let v = w.skip(1);
        assert forall|i: int| 0 <= i < v.len() implies !is_white(#[trigger] v[i]) by {
            assert(v[i] == w[i + 1]);
        }
        assert(s.skip(1) =~= v + rest);
        assert(s[0] == w[0]);
        lemma_word_len_is(v, rest);
    } else {
        assert(s =~= rest);
    }
}

/// White space separates words and is no part of them: a word in front of
/// some is the first, and the words behind it follow; white space in front
/// changes nothing, and a text without a word has none.
pub proof fn law_white_space_separates_words(w: Seq<char>, sp: char, rest: Seq<char>)
    requires
        unbroken(w),
        is_white(sp),
    ensures
        words(w + seq![sp] + rest) == seq![w] + words(rest),
        words(seq![sp] + rest) == words(rest),
        words(w) == seq![w],
        words(Seq::empty()).len() == 0,
{
    let tail = seq![sp] + rest;
    let s = w + seq![sp] + rest;
    assert(s =~= w + tail);
    assert(s[0] == w[0]);
    lemma_word_len_is(w, tail);
    assert(trim_start(s) == s);
    assert(s.take(w.len() as int) =~= w);
    assert(s.skip(w.len() as int) =~= tail);
    assert(words(s) == seq![w] + words(tail));
    assert(tail.skip(1) =~= rest);
    assert(trim_start(tail) == trim_start(rest));
    let none = Seq::<char>::empty();
    lemma_word_len_is(w, none);
    assert(w + none =~= w);
    assert(w.take(w.len() as int) =~= w);
    assert(w.skip(w.len() as int) =~= none);
    assert(words(none) =~= Seq::<Seq<char>>::empty());
    assert(words(w) =~= seq![w]);
}

/// Parts are what stands between separators: the first ends at the first one
/// and the others follow it; without a separator there is one part, the
/// whole.
pub proof fn law_parts_stand_between_separators(a: Seq<char>, c: char, b: Seq<char>)
    requires
        forall|i: int| 0 <= i < a.len() ==> #[trigger] a[i] != c,
    ensures
        split(a + seq![c] + b, c) == seq![a] + split(b, c),
        split(a, c) == seq![a],
{
    let s = a + seq![c] + b;
    let n = a.len() as int;
    assert forall|i: int| 0 <= i < n implies #[trigger] s[i] != c by {
        assert(s[i] == a[i]);
    }
    lemma_find_char_is(s, c, n);
    lemma_find_char_is(a, c, n);
    assert(s.take(n) =~= a);
    assert(s.skip(n + 1) =~= b);
}

/// A signed number reads back as itself, with a `+` or without.
pub proof fn law_signed_numbers_read_back(n: int)
    requires
        -0x8000_0000 <= n <= 0x7fff_ffff,
    ensures
        parse_signed(signed_dec(n)) == Some(n),
        n >= 0 ==> parse_signed(seq!['+'] + dec(n as nat)) == Some(n),
        n >= 0 ==> parse_unsigned(dec(n as nat), 0x7fff_ffff) == Some(n as nat),
{
    let m = (if n < 0 {
        -n
    } else {
        n
    }) as nat;
    let d = dec(m);
    law_decimal_reads_back(m);
    assert(is_digit(d[0]));
    assert((seq!['-'] + d).skip(1) =~= d);
    assert((seq!['+'] + d).skip(1) =~= d);
}

/// Letters become their capitals, place by place; nothing else changes.
pub proof fn law_capitals(s: Seq<char>, i: int)
    requires
        0 <= i < s.len(),
    ensures
        upper_text(s).len() == s.len(),
        'a' <= s[i] <= 'z' ==> 'A' <= upper_text(s)[i] <= 'Z' && upper_text(s)[i] as int
            - 'A' as int == s[i] as int - 'a' as int,
        !('a' <= s[i] <= 'z') ==> upper_text(s)[i] == s[i],
        upper_text(upper_text(s)) == upper_text(s),
{
    assert(upper_text(upper_text(s)) =~= upper_text(s));
}

/// Zeros in front do not change what a number is read as.
pub proof fn law_zeros_in_front_do_not_count(n: nat, w: nat)
    ensures
        all_digits(pad_left(dec(n), w, '0')),
        dec_value(pad_left(dec(n), w, '0')) == n,
{
    law_decimal_reads_back(n);
    let d = dec(n);
    if d.len() < w {
        let z = Seq::new((w - d.len()) as nat, |i: int| '0');
        lemma_zeros(z, d);
        let s = z + d;
        assert forall|i: int| 0 <= i < s.len() implies is_digit(#[trigger] s[i]) by {
            if i >= z.len() {
                assert(s[i] == d[i - z.len()]);
            }
        }
    }
}

proof fn lemma_zeros(z: Seq<char>, d: Seq<char>)
    requires
        forall|i: int| 0 <= i < z.len() ==> #[trigger] z[i] == '0',
    ensures
        dec_value(z + d) == dec_value(d),
    decreases z.len() + d.len(),
{
    let s = z + d;
    let v = Seq::new(s.len(), |i: int| (s[i] as u32 - 48) as nat);
    let u = Seq::new(d.len(), |i: int| (d[i] as u32 - 48) as nat);
    if d.len() > 0 {
        let e = d.drop_last();
        lemma_zeros(z, e);
        let t = z + e;
        assert(v.drop_last() =~= Seq::new(t.len(), |i: int| (t[i] as u32 - 48) as nat));
        assert(u.drop_last() =~= Seq::new(e.len(), |i: int| (e[i] as u32 - 48) as nat));
    } else if z.len() > 0 {
        let y = z.drop_last();
        lemma_zeros(y, d);
        let t = y + d;
        assert(v.drop_last() =~= Seq::new(t.len(), |i: int| (t[i] as u32 - 48) as nat));
        assert(v.last() == 0);
        assert(u =~= Seq::<nat>::empty());
    } else {
        assert(s =~= d);
    }
}

}
