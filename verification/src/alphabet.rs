//! The character sets of the 77-bit message, as numberings.
//!
//! Each set is a pair of functions: the index of a character, if it is in
//! the set, and the character at an index.

use crate::text::{is_digit, is_upper};
use vstd::prelude::*;

verus! {

/// Space, `0`–`9`, `A`–`Z`, `/`: every place of a non-standard callsign.
pub open spec fn idx38(c: char) -> Option<nat> {
    if c == ' ' {
        Some(0)
    } else if is_digit(c) {
        Some((c as u32 - 47) as nat)
    } else if is_upper(c) {
        Some((c as u32 - 54) as nat)
    } else if c == '/' {
        Some(37)
    } else {
        None
    }
}

pub open spec fn chr38(i: nat) -> char {
    if i == 0 {
        ' '
    } else if i <= 10 {
        (i + 47) as char
    } else if i <= 36 {
        (i + 54) as char
    } else {
        '/'
    }
}

/// Space, `0`–`9`, `A`–`Z`: the first place of a standard callsign.
pub open spec fn idx37(c: char) -> Option<nat> {
    if c == '/' {
        None
    } else {
        idx38(c)
    }
}

/// `0`–`9`, `A`–`Z`: the second place of a callsign, and prefixes.
pub open spec fn idx36(c: char) -> Option<nat> {
    if is_digit(c) {
        Some((c as u32 - 48) as nat)
    } else if is_upper(c) {
        Some((c as u32 - 55) as nat)
    } else {
        None
    }
}

pub open spec fn chr36(i: nat) -> char {
    if i <= 9 {
        (i + 48) as char
    } else {
        (i + 55) as char
    }
}

/// `0`–`9`: the third place of a callsign.
pub open spec fn idx10(c: char) -> Option<nat> {
    if is_digit(c) {
        Some((c as u32 - 48) as nat)
    } else {
        None
    }
}

pub open spec fn chr10(i: nat) -> char {
    (i + 48) as char
}

/// Space, `A`–`Z`: the last three places of a callsign.
pub open spec fn idx27(c: char) -> Option<nat> {
    if c == ' ' {
        Some(0)
    } else if is_upper(c) {
        Some((c as u32 - 64) as nat)
    } else {
        None
    }
}

pub open spec fn chr27(i: nat) -> char {
    if i == 0 {
        ' '
    } else {
        (i + 64) as char
    }
}

/// Space, `0`–`9`, `A`–`Z`, `+-./?`: free text.
pub open spec fn idx42(c: char) -> Option<nat> {
    if c == '+' {
        Some(37)
    } else if c == '-' {
        Some(38)
    } else if c == '.' {
        Some(39)
    } else if c == '/' {
        Some(40)
    } else if c == '?' {
        Some(41)
    } else {
        idx38(c)
    }
}

pub open spec fn chr42(i: nat) -> char {
    if i <= 36 {
        chr38(i)
    } else if i == 37 {
        '+'
    } else if i == 38 {
        '-'
    } else if i == 39 {
        '.'
    } else if i == 40 {
        '/'
    } else {
        '?'
    }
}

/// Upper-case letter number `i`, from `A`.
pub open spec fn letter(i: nat) -> char {
    (i + 65) as char
}

// Index and character undo each other.

pub proof fn lemma_idx38(c: char)
    requires
        idx38(c) is Some,
    ensures
        idx38(c)->0 < 38,
        chr38(idx38(c)->0) == c,
{
}

pub proof fn lemma_idx37(c: char)
    requires
        idx37(c) is Some,
    ensures
        idx37(c)->0 < 37,
        chr38(idx37(c)->0) == c,
{
}

pub proof fn lemma_idx36(c: char)
    requires
        idx36(c) is Some,
    ensures
        idx36(c)->0 < 36,
        chr36(idx36(c)->0) == c,
{
}

pub proof fn lemma_idx10(c: char)
    requires
        idx10(c) is Some,
    ensures
        idx10(c)->0 < 10,
        chr10(idx10(c)->0) == c,
{
}

pub proof fn lemma_idx27(c: char)
    requires
        idx27(c) is Some,
    ensures
        idx27(c)->0 < 27,
        chr27(idx27(c)->0) == c,
{
}

pub proof fn lemma_idx42(c: char)
    requires
        idx42(c) is Some,
    ensures
        idx42(c)->0 < 42,
        chr42(idx42(c)->0) == c,
{
}

/// What an index function returns, for an exec result.
pub open spec fn as_index(r: Option<u32>) -> Option<nat> {
    match r {
        Some(i) => Some(i as nat),
        None => None,
    }
}

pub fn index38(c: char) -> (r: Option<u32>)
    ensures
        as_index(r) == idx38(c),
        r is Some ==> r->0 < 38,
{
    if c == ' ' {
        Some(0)
    } else if '0' <= c && c <= '9' {
        Some(c as u32 - 47)
    } else if 'A' <= c && c <= 'Z' {
        Some(c as u32 - 54)
    } else if c == '/' {
        Some(37)
    } else {
        None
    }
}

pub fn index37(c: char) -> (r: Option<u32>)
    ensures
        as_index(r) == idx37(c),
        r is Some ==> r->0 < 37,
{
    if c == '/' {
        None
    } else {
        index38(c)
    }
}

pub fn char38(i: u32) -> (c: char)
    requires
        i < 38,
    ensures
        c == chr38(i as nat),
{
    if i == 0 {
        ' '
    } else if i <= 10 {
        (i as u8 + 47) as char
    } else if i <= 36 {
        (i as u8 + 54) as char
    } else {
        '/'
    }
}

pub fn index36(c: char) -> (r: Option<u32>)
    ensures
        as_index(r) == idx36(c),
        r is Some ==> r->0 < 36,
{
    if '0' <= c && c <= '9' {
        Some(c as u32 - 48)
    } else if 'A' <= c && c <= 'Z' {
        Some(c as u32 - 55)
    } else {
        None
    }
}

pub fn char36(i: u32) -> (c: char)
    requires
        i < 36,
    ensures
        c == chr36(i as nat),
{
    if i <= 9 {
        (i as u8 + 48) as char
    } else {
        (i as u8 + 55) as char
    }
}

pub fn index10(c: char) -> (r: Option<u32>)
    ensures
        as_index(r) == idx10(c),
        r is Some ==> r->0 < 10,
{
    if '0' <= c && c <= '9' {
        Some(c as u32 - 48)
    } else {
        None
    }
}

pub fn char10(i: u32) -> (c: char)
    requires
        i < 10,
    ensures
        c == chr10(i as nat),
{
    (i as u8 + 48) as char
}

pub fn index27(c: char) -> (r: Option<u32>)
    ensures
        as_index(r) == idx27(c),
        r is Some ==> r->0 < 27,
{
    if c == ' ' {
        Some(0)
    } else if 'A' <= c && c <= 'Z' {
        Some(c as u32 - 64)
    } else {
        None
    }
}

pub fn char27(i: u32) -> (c: char)
    requires
        i < 27,
    ensures
        c == chr27(i as nat),
{
    if i == 0 {
        ' '
    } else {
        (i as u8 + 64) as char
    }
}

pub fn index42(c: char) -> (r: Option<u32>)
    ensures
        as_index(r) == idx42(c),
        r is Some ==> r->0 < 42,
{
    if c == '+' {
        Some(37)
    } else if c == '-' {
        Some(38)
    } else if c == '.' {
        Some(39)
    } else if c == '/' {
        Some(40)
    } else if c == '?' {
        Some(41)
    } else {
        index38(c)
    }
}

pub fn char42(i: u32) -> (c: char)
    requires
        i < 42,
    ensures
        c == chr42(i as nat),
{
    if i <= 36 {
        char38(i)
    } else if i == 37 {
        '+'
    } else if i == 38 {
        '-'
    } else if i == 39 {
        '.'
    } else if i == 40 {
        '/'
    } else {
        '?'
    }
}

pub fn letter_at(i: u32) -> (c: char)
    requires
        i < 26,
    ensures
        c == letter(i as nat),
{
    (i as u8 + 65) as char
}

// ── Laws ────────────────────────────────────────────────────────────────────

/// Each index stands where the alphabet, written out, has its character:
/// nothing else is in the set.
pub open spec fn numbers(alphabet: Seq<char>, c: char, i: Option<nat>) -> bool {
    match i {
        Some(n) => n < alphabet.len() && alphabet[n as int] == c,
        None => forall|k: int| 0 <= k < alphabet.len() ==> #[trigger] alphabet[k] != c,
    }
}

/// Where the characters of the longest alphabet stand.
proof fn lemma_free_text_alphabet()
    ensures
        ({
            let a = " 0123456789ABCDEFGHIJKLMNOPQRSTUVWXYZ+-./?"@;
            &&& a.len() == 42
            &&& a[0] == ' '
            &&& forall|k: int| 1 <= k <= 10 ==> #[trigger] a[k] == (k + 47) as char
            &&& forall|k: int| 11 <= k <= 36 ==> #[trigger] a[k] == (k + 54) as char
            &&& a[37] == '+' && a[38] == '-' && a[39] == '.' && a[40] == '/' && a[41] == '?'
        }),
{
    reveal_strlit(" 0123456789ABCDEFGHIJKLMNOPQRSTUVWXYZ+-./?");
}

proof fn lemma_call_alphabet()
    ensures
        ({
            let a = " 0123456789ABCDEFGHIJKLMNOPQRSTUVWXYZ/"@;
            &&& a.len() == 38
            &&& a[0] == ' '
            &&& forall|k: int| 1 <= k <= 10 ==> #[trigger] a[k] == (k + 47) as char
            &&& forall|k: int| 11 <= k <= 36 ==> #[trigger] a[k] == (k + 54) as char
            &&& a[37] == '/'
        }),
{
    reveal_strlit(" 0123456789ABCDEFGHIJKLMNOPQRSTUVWXYZ/");
}

/// Free text counts its characters in this order.
pub proof fn law_free_text_alphabet(c: char)
    ensures
        numbers(" 0123456789ABCDEFGHIJKLMNOPQRSTUVWXYZ+-./?"@, c, idx42(c)),
{
    lemma_free_text_alphabet();
    let a = " 0123456789ABCDEFGHIJKLMNOPQRSTUVWXYZ+-./?"@;
    match idx42(c) {
        Some(n) => {
            assert(a[n as int] == c);
        },
        None => {
            assert forall|k: int| 0 <= k < a.len() implies #[trigger] a[k] != c by {
                assert(1 <= k <= 36 ==> is_digit(a[k]) || is_upper(a[k]));
            }
        },
    }
}

/// Non-standard callsigns and their hashes count in this one.
pub proof fn law_callsign_alphabet(c: char)
    ensures
        numbers(" 0123456789ABCDEFGHIJKLMNOPQRSTUVWXYZ/"@, c, idx38(c)),
{
    lemma_call_alphabet();
    let a = " 0123456789ABCDEFGHIJKLMNOPQRSTUVWXYZ/"@;
    match idx38(c) {
        Some(n) => {
            assert(a[n as int] == c);
        },
        None => {
            assert forall|k: int| 0 <= k < a.len() implies #[trigger] a[k] != c by {
                assert(1 <= k <= 36 ==> is_digit(a[k]) || is_upper(a[k]));
            }
        },
    }
}

}
