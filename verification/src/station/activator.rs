//! The CQ side of a contact, for unattended portable operation.
//!
//! The station calls CQ, answers whoever calls, logs each completed contact
//! and stops after a set number of them. It never calls another station
//! first. [`Activator::decide`] is called once per own transmit period with
//! the messages addressed to this station since the last call, and says what
//! to send and what to log.
//!
//! - The reply is a function of the caller's latest message, not of a state
//!   counter: a caller who repeats is answered again.
//! - A contact is logged when RR73 is sent.
//! - Callers with a later-stage message are picked first, then the
//!   strongest.
//! - A partner who goes quiet is dropped after [`Config::give_up_periods`]
//!   periods; if they call again, they are answered from wherever their
//!   message says the exchange is.

use crate::fixed::{
    text13_new, text16_new, text40_new, text4_str, text6_new, text_clone, text_push, text_push_str,
    text_str, text_try_from, vec_clear, vec_push, vec_remove, vec_set, vec_slice, Items,
};
use crate::fixed::{lemma_ascii_bytes, text13, text16, text4, text40, text6, Text};
use crate::msg::wsjt77::fmt_report;
use crate::msg::wsjt77::report_text;
use crate::text::{
    chars_of, dec_padded, digit, has_prefix, is_str, same, split_on, string_of, trimmed, upper_of,
};
use crate::text::{
    dec, is_digit, pad_left, split, starts_with, texts, to_upper, trim, upper_text,
};
use vstd::prelude::*;
use vstd::utf8::encode_utf8;

verus! {

/// Callsign buffer: 11 characters and room for a `/P`.
pub type Call = heapless::String<13>;

// ── Upper case ──────────────────────────────────────────────────────────────

/// What `char::to_uppercase` yields.
pub uninterp spec fn unicode_upper(c: char) -> Seq<char>;

/// `char::to_uppercase`: the upper-case mapping of a character, which is a
/// function of the character alone; for ASCII the letter's own.
#[verifier::external_body]
fn upper_chars(c: char) -> (r: Vec<char>)
    ensures
        r@ == unicode_upper(c),
        (c as u32) < 128 ==> r@ == seq![to_upper(c)],
{
    c.to_uppercase().collect()
}

/// `acc` and as many characters of `rest` as fit `n` bytes; what does not
/// fit ends it.
pub open spec fn fill(acc: Seq<char>, rest: Seq<char>, n: nat) -> (Seq<char>, bool)
    decreases rest.len(),
{
    if rest.len() == 0 {
        (acc, true)
    } else if encode_utf8(acc).len() + encode_utf8(seq![rest[0]]).len() <= n {
        fill(acc.push(rest[0]), rest.skip(1), n)
    } else {
        (acc, false)
    }
}

/// `acc` and the upper case of `rest`, as far as it fits `n` bytes.
pub open spec fn fill_upper(acc: Seq<char>, rest: Seq<char>, n: nat) -> Seq<char>
    decreases rest.len(),
{
    if rest.len() == 0 {
        acc
    } else {
        let (a, whole) = fill(acc, unicode_upper(rest[0]), n);
        if whole {
            fill_upper(a, rest.skip(1), n)
        } else {
            a
        }
    }
}

/// A text in upper case, cut to `n` bytes.
pub open spec fn upper_cut(s: Seq<char>, n: nat) -> Seq<char> {
    fill_upper(Seq::empty(), s, n)
}

fn fill_from<const N: usize>(out: &mut heapless::String<N>, cs: &[char]) -> (whole: bool)
    where heapless::String<N>: Text,
    ensures
        (final(out).chars(), whole) == fill(old(out).chars(), cs@, N as nat),
{
    let mut i: usize = 0;
    assert(cs@.skip(0) =~= cs@);
    while i < cs.len()
        invariant
            i <= cs.len(),
            fill(out.chars(), cs@.skip(i as int), N as nat) == fill(
                old(out).chars(),
                cs@,
                N as nat,
            ),
        decreases cs.len() - i,
    {
        assert(cs@.skip(i as int).skip(1) =~= cs@.skip(i + 1));
        if !text_push(out, cs[i]) {
            return false;
        }
        i += 1;
    }
    true
}

fn upper<const N: usize>(out: heapless::String<N>, s: &[char]) -> (r: heapless::String<N>)
    where heapless::String<N>: Text,
    requires
        out.chars() == Seq::<char>::empty(),
    ensures
        r.chars() == upper_cut(s@, N as nat),
{
    let mut r = out;
    let mut i: usize = 0;
    assert(s@.skip(0) =~= s@);
    while i < s.len()
        invariant
            i <= s.len(),
            fill_upper(r.chars(), s@.skip(i as int), N as nat) == upper_cut(s@, N as nat),
        decreases s.len() - i,
    {
        assert(s@.skip(i as int).skip(1) =~= s@.skip(i + 1));
        let u = upper_chars(s[i]);
        if !fill_from(&mut r, u.as_slice()) {
            return r;
        }
        i += 1;
    }
    r
}

// ── Settings ────────────────────────────────────────────────────────────────

/// What follows `CQ` in the call.
#[derive(Debug, PartialEq, Eq)]
pub enum CqModifier {
    /// `CQ MYCALL GRID`.
    Plain,
    /// `CQ SOTA`, `CQ POTA`, `CQ DX` …: one to four letters.
    Token(heapless::String<4>),
    /// `CQ 001` … `CQ 999`.
    Number(u16),
    /// Up to 13 characters of free text, sent instead of a structured CQ.
    FreeText(heapless::String<13>),
}

pub enum CqView {
    Plain,
    Token(Seq<char>),
    Number(u16),
    FreeText(Seq<char>),
}

impl View for CqModifier {
    type V = CqView;

    open spec fn view(&self) -> CqView {
        match self {
            CqModifier::Plain => CqView::Plain,
            CqModifier::Token(t) => CqView::Token(text4(*t)),
            CqModifier::Number(n) => CqView::Number(*n),
            CqModifier::FreeText(t) => CqView::FreeText(text13(*t)),
        }
    }
}

impl Clone for CqModifier {
    fn clone(&self) -> (r: Self)
        ensures
            r@ == self@,
    {
        match self {
            CqModifier::Plain => CqModifier::Plain,
            CqModifier::Token(t) => CqModifier::Token(text_clone(t)),
            CqModifier::Number(n) => CqModifier::Number(*n),
            CqModifier::FreeText(t) => CqModifier::FreeText(text_clone(t)),
        }
    }
}

/// Operator settings for one activation.
#[derive(Debug)]
pub struct Config {
    pub my_call: Call,
    pub my_grid: heapless::String<6>,
    pub cq: CqModifier,
    /// Stop after this many logged contacts. 0 = never stop.
    pub target_qsos: u16,
    /// Own periods a partner may stay silent before being dropped.
    pub give_up_periods: u8,
    /// After the target is reached, periods during which a logged partner
    /// who repeats a rogered report still gets RR73.
    pub grace_periods: u8,
    /// Stop calling after this many CQs in a row with nobody calling.
    /// 0 = never.
    pub idle_stop_periods: u16,
}

pub struct ConfigView {
    pub my_call: Seq<char>,
    pub my_grid: Seq<char>,
    pub cq: CqView,
    pub target_qsos: u16,
    pub give_up_periods: u8,
    pub grace_periods: u8,
    pub idle_stop_periods: u16,
}

impl View for Config {
    type V = ConfigView;

    open spec fn view(&self) -> ConfigView {
        ConfigView {
            my_call: text13(self.my_call),
            my_grid: text6(self.my_grid),
            cq: self.cq@,
            target_qsos: self.target_qsos,
            give_up_periods: self.give_up_periods,
            grace_periods: self.grace_periods,
            idle_stop_periods: self.idle_stop_periods,
        }
    }
}

impl Clone for Config {
    fn clone(&self) -> (r: Self)
        ensures
            r@ == self@,
    {
        Config {
            my_call: text_clone(&self.my_call),
            my_grid: text_clone(&self.my_grid),
            cq: self.cq.clone(),
            target_qsos: self.target_qsos,
            give_up_periods: self.give_up_periods,
            grace_periods: self.grace_periods,
            idle_stop_periods: self.idle_stop_periods,
        }
    }
}

impl Config {
    pub fn new(my_call: &str, my_grid: &str) -> (r: Self)
        ensures
            r@ == (ConfigView {
                my_call: upper_cut(my_call@, 13),
                my_grid: upper_cut(my_grid@, 6),
                cq: CqView::Plain,
                target_qsos: 0,
                give_up_periods: 2,
                grace_periods: 2,
                idle_stop_periods: 0,
            }),
    {
        let c = chars_of(my_call);
        let g = chars_of(my_grid);
        Config {
            my_call: upper(text13_new(), c.as_slice()),
            my_grid: upper(text6_new(), g.as_slice()),
            cq: CqModifier::Plain,
            target_qsos: 0,
            give_up_periods: 2,
            grace_periods: 2,
            idle_stop_periods: 0,
        }
    }
}

// ── Messages heard ──────────────────────────────────────────────────────────

/// The exchange field of a message addressed to this station.
#[derive(Debug, PartialEq, Eq)]
pub enum Exchange {
    /// `MYCALL DX` with nothing after it.
    Bare,
    Grid(heapless::String<6>),
    Report(i8),
    RReport(i8),
    Rrr,
    Rr73,
    S73,
}

pub enum ExchangeView {
    Bare,
    Grid(Seq<char>),
    Report(i8),
    RReport(i8),
    Rrr,
    Rr73,
    S73,
}

impl View for Exchange {
    type V = ExchangeView;

    open spec fn view(&self) -> ExchangeView {
        match self {
            Exchange::Bare => ExchangeView::Bare,
            Exchange::Grid(g) => ExchangeView::Grid(text6(*g)),
            Exchange::Report(r) => ExchangeView::Report(*r),
            Exchange::RReport(r) => ExchangeView::RReport(*r),
            Exchange::Rrr => ExchangeView::Rrr,
            Exchange::Rr73 => ExchangeView::Rr73,
            Exchange::S73 => ExchangeView::S73,
        }
    }
}

impl Clone for Exchange {
    fn clone(&self) -> (r: Self)
        ensures
            r@ == self@,
    {
        match self {
            Exchange::Bare => Exchange::Bare,
            Exchange::Grid(g) => Exchange::Grid(text_clone(g)),
            Exchange::Report(r) => Exchange::Report(*r),
            Exchange::RReport(r) => Exchange::RReport(*r),
            Exchange::Rrr => Exchange::Rrr,
            Exchange::Rr73 => Exchange::Rr73,
            Exchange::S73 => Exchange::S73,
        }
    }
}

/// A sign and two digits.
pub open spec fn report_number(s: Seq<char>) -> Option<i8> {
    if s.len() == 3 && (s[0] == '+' || s[0] == '-') && is_digit(s[1]) && is_digit(s[2]) {
        let v = (s[1] as u32 - 48) * 10 + (s[2] as u32 - 48);
        Some(
            (if s[0] == '-' {
                -v
            } else {
                v
            }) as i8,
        )
    } else {
        None
    }
}

/// Two letters `A`–`R` and two digits, other than `RR73`.
pub open spec fn is_locator(s: Seq<char>) -> bool {
    s.len() == 4 && 'A' <= s[0] <= 'R' && 'A' <= s[1] <= 'R' && is_digit(s[2]) && is_digit(s[3])
        && s != "RR73"@
}

/// What the third field of a message says.
pub open spec fn exchange_of(field: Seq<char>) -> Option<ExchangeView> {
    let f = trim(field);
    if f.len() == 0 {
        Some(ExchangeView::Bare)
    } else if f == "RRR"@ {
        Some(ExchangeView::Rrr)
    } else if f == "RR73"@ {
        Some(ExchangeView::Rr73)
    } else if f == "73"@ {
        Some(ExchangeView::S73)
    } else if f[0] == 'R' && report_number(f.skip(1)) is Some {
        Some(ExchangeView::RReport(report_number(f.skip(1))->0))
    } else if report_number(f) is Some {
        Some(ExchangeView::Report(report_number(f)->0))
    } else if is_locator(f) {
        Some(ExchangeView::Grid(f))
    } else {
        None
    }
}

fn parse_report(s: &[char]) -> (r: Option<i8>)
    ensures
        r == report_number(s@),
{
    if s.len() != 3 || !(s[0] == '+' || s[0] == '-') || !digit(s[1]) || !digit(s[2]) {
        return None;
    }
    let v: i8 = ((s[1] as u32 - 48) * 10 + (s[2] as u32 - 48)) as i8;
    Some(if s[0] == '-' {
        -v
    } else {
        v
    })
}

fn is_grid4(s: &[char]) -> (r: bool)
    ensures
        r == is_locator(s@),
{
    s.len() == 4 && 'A' <= s[0] && s[0] <= 'R' && 'A' <= s[1] && s[1] <= 'R' && digit(s[2])
        && digit(s[3]) && !is_str(s, "RR73")
}

/// How far along the exchange a message is.
pub open spec fn stage(e: ExchangeView) -> int {
    match e {
        ExchangeView::Bare => 0,
        ExchangeView::Grid(_) => 0,
        ExchangeView::Report(_) => 1,
        ExchangeView::RReport(_) => 2,
        ExchangeView::Rrr => 2,
        ExchangeView::Rr73 => 2,
        ExchangeView::S73 => 3,
    }
}

/// What an exec exchange says.
pub open spec fn exchange_view(r: Option<Exchange>) -> Option<ExchangeView> {
    match r {
        Some(e) => Some(e@),
        None => None,
    }
}

impl Exchange {
    /// Parse the third field of a standard message. `None` for anything an
    /// activator has no reply to.
    pub fn parse(field: &str) -> (r: Option<Self>)
        ensures
            exchange_view(r) == exchange_of(field@),
    {
        let all = chars_of(field);
        let f = trimmed(all.as_slice());
        if f.len() == 0 {
            return Some(Exchange::Bare);
        }
        if is_str(f.as_slice(), "RRR") {
            return Some(Exchange::Rrr);
        }
        if is_str(f.as_slice(), "RR73") {
            return Some(Exchange::Rr73);
        }
        if is_str(f.as_slice(), "73") {
            return Some(Exchange::S73);
        }
        if f[0] == 'R' {
            let t = vstd::slice::slice_subrange(f.as_slice(), 1, f.len());
            assert(t@ =~= f@.skip(1));
            if let Some(v) = parse_report(t) {
                return Some(Exchange::RReport(v));
            }
        }
        if let Some(v) = parse_report(f.as_slice()) {
            return Some(Exchange::Report(v));
        }
        if is_grid4(f.as_slice()) {
            let s = string_of(f.as_slice());
            proof {
                lemma_ascii_bytes(f@);
            }
            return match text_try_from(s.as_str()) {
                Some(g) => Some(Exchange::Grid(g)),
                None => None,
            };
        }
        None
    }

    fn stage(&self) -> (r: u8)
        ensures
            r == stage(self@),
    {
        match self {
            Exchange::Bare | Exchange::Grid(_) => 0,
            Exchange::Report(_) => 1,
            Exchange::RReport(_) | Exchange::Rrr | Exchange::Rr73 => 2,
            Exchange::S73 => 3,
        }
    }

    fn is_s73(&self) -> (r: bool)
        ensures
            r == (self@ is S73),
    {
        match self {
            Exchange::S73 => true,
            _ => false,
        }
    }
}

/// One decoded message addressed to this station.
#[derive(Debug, PartialEq, Eq)]
pub struct Heard {
    pub from: Call,
    pub exchange: Exchange,
    pub snr: i8,
}

pub struct HeardView {
    pub from: Seq<char>,
    pub exchange: ExchangeView,
    pub snr: i8,
}

impl View for Heard {
    type V = HeardView;

    open spec fn view(&self) -> HeardView {
        HeardView { from: text13(self.from), exchange: self.exchange@, snr: self.snr }
    }
}

impl Clone for Heard {
    fn clone(&self) -> (r: Self)
        ensures
            r@ == self@,
    {
        Heard { from: text_clone(&self.from), exchange: self.exchange.clone(), snr: self.snr }
    }
}

/// The callsign inside brackets, or as it is; nothing for an unresolved one.
pub open spec fn bare_call(call: Seq<char>) -> Option<Seq<char>> {
    let t = trim(call);
    let c = if t.len() >= 2 && t[0] == '<' && t.last() == '>' {
        t.subrange(1, t.len() - 1)
    } else {
        t
    };
    if c.len() == 0 || c == "..."@ {
        None
    } else {
        Some(c)
    }
}

fn strip_hash(call: &str) -> (r: Option<Vec<char>>)
    ensures
        match r {
            Some(c) => bare_call(call@) == Some(c@),
            None => bare_call(call@) is None,
        },
{
    let all = chars_of(call);
    let t = trimmed(all.as_slice());
    let n: usize = t.len();
    let c = if n >= 2 && t[0] == '<' && t[n - 1] == '>' {
        vstd::slice::slice_to_vec(vstd::slice::slice_subrange(t.as_slice(), 1, n - 1))
    } else {
        t
    };
    if c.len() == 0 || is_str(c.as_slice(), "...") {
        None
    } else {
        Some(c)
    }
}

/// The longest of the first `n` parts, by bytes; the last of several.
pub open spec fn longest(parts: Seq<Seq<char>>, n: int) -> Seq<char>
    decreases n,
{
    if n <= 1 {
        parts[0]
    } else {
        let best = longest(parts, n - 1);
        if encode_utf8(parts[n - 1]).len() >= encode_utf8(best).len() {
            parts[n - 1]
        } else {
            best
        }
    }
}

/// The base callsign: the longest part between slashes.
pub open spec fn base_call(call: Seq<char>) -> Seq<char> {
    longest(split(call, '/'), split(call, '/').len() as int)
}

fn byte_len(c: &[char]) -> (n: usize)
    ensures
        n == encode_utf8(c@).len(),
{
    let s = string_of(c);
    s.as_str().as_bytes().len()
}

fn base(call: &[char]) -> (r: Vec<char>)
    ensures
        r@ == base_call(call@),
{
    let parts = split_on(call, '/');
    let mut best: usize = 0;
    let mut i: usize = 1;
    assert(texts(parts@)[0] == parts@[0]@);
    while i < parts.len()
        invariant
            1 <= i <= parts.len(),
            best < i,
            parts@[best as int]@ == longest(texts(parts@), i as int),
        decreases parts.len() - i,
    {
        assert(texts(parts@)[i as int] == parts@[i as int]@);
        if byte_len(parts[i].as_slice()) >= byte_len(parts[best].as_slice()) {
            best = i;
        }
        i += 1;
    }
    vstd::slice::slice_to_vec(parts[best].as_slice())
}

/// The same station, whatever the case and the portable part.
pub open spec fn same_station(a: Seq<char>, b: Seq<char>) -> bool {
    upper_text(base_call(a)) == upper_text(base_call(b))
}

fn same_base(a: &[char], b: &[char]) -> (r: bool)
    ensures
        r == same_station(a@, b@),
{
    let x = base(a);
    let y = base(b);
    let ux = upper_of(x.as_slice());
    let uy = upper_of(y.as_slice());
    same(ux.as_slice(), uy.as_slice())
}

/// What a decoded message says to this station.
pub open spec fn heard_of(
    my_call: Seq<char>,
    call1: Seq<char>,
    call2: Seq<char>,
    exchange: Seq<char>,
    snr: i8,
) -> Option<HeardView> {
    match (bare_call(call1), bare_call(call2), exchange_of(exchange)) {
        (Some(to), Some(from), Some(e)) => if same_station(to, my_call) && !same_station(
            from,
            my_call,
        ) && !starts_with(from, "CQ"@) {
            Some(HeardView { from: upper_cut(from, 13), exchange: e, snr })
        } else {
            None
        },
        _ => None,
    }
}

pub open spec fn heard_view(r: Option<Heard>) -> Option<HeardView> {
    match r {
        Some(h) => Some(h@),
        None => None,
    }
}

impl Heard {
    /// From a decoded message's fields. `None` unless it is addressed to
    /// `my_call`, comes from a resolved callsign, and carries an exchange an
    /// activator answers.
    ///
    /// Hashed calls arrive as `<CALL>` when resolved and `<...>` when not.
    /// Addressing compares base calls, so a caller who writes `JL1NIE` still
    /// reaches `JL1NIE/P`.
    pub fn parse(my_call: &str, call1: &str, call2: &str, exchange: &str, snr: i8) -> (r: Option<
        Self,
    >)
        ensures
            heard_view(r) == heard_of(my_call@, call1@, call2@, exchange@, snr),
    {
        let to = match strip_hash(call1) {
            Some(c) => c,
            None => {
                return None;
            },
        };
        let from = match strip_hash(call2) {
            Some(c) => c,
            None => {
                return None;
            },
        };
        let me = chars_of(my_call);
        if !same_base(to.as_slice(), me.as_slice()) || same_base(from.as_slice(), me.as_slice())
            || has_prefix(from.as_slice(), "CQ") {
            return None;
        }
        match Exchange::parse(exchange) {
            Some(e) => Some(
                Heard { from: upper(text13_new(), from.as_slice()), exchange: e, snr },
            ),
            None => None,
        }
    }
}

// ── Messages sent ───────────────────────────────────────────────────────────

/// What to transmit.
#[derive(Debug, PartialEq, Eq)]
pub enum TxMsg {
    Cq,
    /// `TO MYCALL EXCHANGE`.
    Std { to: Call, exchange: heapless::String<6> },
}

pub enum TxView {
    Cq,
    Std { to: Seq<char>, exchange: Seq<char> },
}

impl View for TxMsg {
    type V = TxView;

    open spec fn view(&self) -> TxView {
        match self {
            TxMsg::Cq => TxView::Cq,
            TxMsg::Std { to, exchange } => TxView::Std {
                to: text13(*to),
                exchange: text6(*exchange),
            },
        }
    }
}

impl Clone for TxMsg {
    fn clone(&self) -> (r: Self)
        ensures
            r@ == self@,
    {
        match self {
            TxMsg::Cq => TxMsg::Cq,
            TxMsg::Std { to, exchange } => TxMsg::Std {
                to: text_clone(to),
                exchange: text_clone(exchange),
            },
        }
    }
}

/// `a` with `b` appended, when it fits `n` bytes.
pub open spec fn joined(a: Seq<char>, b: Seq<char>, n: nat) -> Seq<char> {
    if encode_utf8(a).len() + encode_utf8(b).len() <= n {
        a + b
    } else {
        a
    }
}

/// The first field of a CQ.
pub open spec fn cq_field(cq: CqView) -> Seq<char> {
    match cq {
        CqView::Plain => "CQ"@,
        CqView::Token(t) => "CQ "@ + t,
        CqView::Number(n) => "CQ "@ + pad_left(dec((n % 1000) as nat), 3, '0'),
        CqView::FreeText(t) => t,
    }
}

/// The three fields of a message, or free text alone.
pub open spec fn tx_fields(m: TxView, cfg: ConfigView) -> (Seq<char>, Seq<char>, Seq<char>) {
    match m {
        TxView::Std { to, exchange } => (to, cfg.my_call, exchange),
        TxView::Cq => if cfg.cq is FreeText {
            (cq_field(cfg.cq), Seq::empty(), Seq::empty())
        } else {
            (cq_field(cfg.cq), cfg.my_call, cfg.my_grid)
        },
    }
}

/// `s`, a space when both are there, and `part`.
pub open spec fn spaced(s: Seq<char>, part: Seq<char>) -> Seq<char> {
    if part.len() == 0 {
        s
    } else if s.len() == 0 {
        joined(s, part, 40)
    } else {
        joined(joined(s, seq![' '], 40), part, 40)
    }
}

/// The message as it would read on air, cut to forty bytes.
pub open spec fn tx_text(m: TxView, cfg: ConfigView) -> Seq<char> {
    let f = tx_fields(m, cfg);
    spaced(spaced(spaced(Seq::empty(), f.0), f.1), f.2)
}

proof fn lemma_empty_bytes()
    ensures
        encode_utf8(Seq::<char>::empty()).len() == 0,
{
    lemma_ascii_bytes(Seq::<char>::empty());
}

/// Three decimal digits.
proof fn lemma_three_digits(n: nat)
    requires
        n < 1000,
    ensures
        pad_left(dec(n), 3, '0').len() == 3,
        encode_utf8(pad_left(dec(n), 3, '0')).len() == 3,
{
    reveal_with_fuel(dec, 4);
    lemma_ascii_bytes(pad_left(dec(n), 3, '0'));
}

impl TxMsg {
    /// The three standard-message fields or, for a free-text CQ, the text
    /// and two empty ones.
    pub fn fields(&self, cfg: &Config) -> (r: (heapless::String<16>, Call, heapless::String<13>))
        ensures
            (text16(r.0), text13(r.1), text13(r.2)) == tx_fields(self@, cfg@),
    {
        let mut c1 = text16_new();
        let mut c3 = text13_new();
        proof {
            lemma_empty_bytes();
        }
        match self {
            TxMsg::Cq => {
                match &cfg.cq {
                    CqModifier::FreeText(t) => {
                        let ts = text_str(t);
                        text_push_str(&mut c1, ts);
                        assert(text16(c1) =~= text13(*t));
                        return (c1, text13_new(), c3);
                    },
                    CqModifier::Plain => {
                        proof {
                            reveal_strlit("CQ");
                            lemma_ascii_bytes("CQ"@);
                        }
                        text_push_str(&mut c1, "CQ");
                        assert(text16(c1) =~= "CQ"@);
                    },
                    CqModifier::Token(t) => {
                        proof {
                            reveal_strlit("CQ ");
                            lemma_ascii_bytes("CQ "@);
                        }
                        text_push_str(&mut c1, "CQ ");
                        assert(text16(c1) =~= "CQ "@);
                        let ts = text4_str(t);
                        text_push_str(&mut c1, ts);
                    },
                    CqModifier::Number(n) => {
                        proof {
                            reveal_strlit("CQ ");
                            lemma_ascii_bytes("CQ "@);
                            lemma_three_digits((*n % 1000) as nat);
                        }
                        text_push_str(&mut c1, "CQ ");
                        assert(text16(c1) =~= "CQ "@);
                        let d = dec_padded((*n % 1000) as u64, 3, '0');
                        text_push_str(&mut c1, d.as_str());
                    },
                }
            },
            TxMsg::Std { to, exchange } => {
                let ts = text_str(to);
                text_push_str(&mut c1, ts);
                assert(text16(c1) =~= text13(*to));
                let es = text_str(exchange);
                text_push_str(&mut c3, es);
                assert(text13(c3) =~= text6(*exchange));
                return (c1, text_clone(&cfg.my_call), c3);
            },
        }
        let gs = text_str(&cfg.my_grid);
        text_push_str(&mut c3, gs);
        assert(text13(c3) =~= text6(cfg.my_grid));
        (c1, text_clone(&cfg.my_call), c3)
    }

    /// The message as it would read on air.
    pub fn text(&self, cfg: &Config) -> (r: heapless::String<40>)
        ensures
            text40(r) == tx_text(self@, cfg@),
    {
        let (a, b, c) = self.fields(cfg);
        let mut s = text40_new();
        add_part(&mut s, text_str(&a));
        add_part(&mut s, text_str(&b));
        add_part(&mut s, text_str(&c));
        s
    }
}

fn add_part(s: &mut heapless::String<40>, part: &str)
    ensures
        text40(*final(s)) == spaced(text40(*old(s)), part@),
{
    if part.is_empty() {
        return;
    }
    let empty = text_str(s).is_empty();
    if !empty {
        assert(text40(*s).push(' ') =~= text40(*s) + seq![' ']);
        text_push(s, ' ');
    }
    text_push_str(s, part);
}

/// `TO MYCALL EXCHANGE`, when both parts fit.
fn std_msg(to: &str, exchange: &str) -> (r: Option<TxMsg>)
    ensures
        encode_utf8(to@).len() <= 13 && encode_utf8(exchange@).len() <= 6 ==> r is Some && r->0@
            == (TxView::Std { to: to@, exchange: exchange@ }),
{
    match (text_try_from(to), text_try_from(exchange)) {
        (Some(to), Some(exchange)) => Some(TxMsg::Std { to, exchange }),
        _ => None,
    }
}

/// A report kept to what a message can carry.
pub open spec fn clamped(snr: int) -> int {
    if snr < -50 {
        -50
    } else if snr > 49 {
        49
    } else {
        snr
    }
}

fn clamp_report(snr: i8) -> (r: i8)
    ensures
        r == clamped(snr as int),
{
    if snr < -50 {
        -50
    } else if snr > 49 {
        49
    } else {
        snr
    }
}

/// `-07`, `+03`, or with `R` in front.
pub open spec fn report_field(snr: int, roger: bool) -> Seq<char> {
    report_text(
        clamped(snr),
        if roger {
            1
        } else {
            0
        },
    )
}

proof fn lemma_report_bytes(snr: int, roger: bool)
    ensures
        encode_utf8(report_field(snr, roger)).len() <= 6,
{
    reveal_strlit("R");
    reveal_strlit("");
    reveal_strlit("+");
    reveal_strlit("-");
    reveal_with_fuel(dec, 3);
    lemma_ascii_bytes(report_field(snr, roger));
}

fn report(snr: i8, roger: bool) -> (r: String)
    ensures
        r@ == report_field(snr as int, roger),
        encode_utf8(r@).len() <= 6,
{
    proof {
        lemma_report_bytes(snr as int, roger);
    }
    fmt_report(
        clamp_report(snr) as i32,
        if roger {
            1
        } else {
            0
        },
    )
}

// ── State ───────────────────────────────────────────────────────────────────

/// A completed contact, logged when RR73 was sent.
#[derive(Debug, PartialEq, Eq)]
pub struct QsoRecord {
    pub call: Call,
    /// Empty when the caller started with a report.
    pub grid: heapless::String<6>,
    pub rst_sent: i8,
    /// `None` when the caller's report never reached us.
    pub rst_rcvd: Option<i8>,
    /// Own-period index the caller was first answered in, and the one RR73
    /// was sent in.
    pub on_period: u32,
    pub off_period: u32,
}

pub struct QsoView {
    pub call: Seq<char>,
    pub grid: Seq<char>,
    pub rst_sent: i8,
    pub rst_rcvd: Option<i8>,
    pub on_period: u32,
    pub off_period: u32,
}

impl View for QsoRecord {
    type V = QsoView;

    open spec fn view(&self) -> QsoView {
        QsoView {
            call: text13(self.call),
            grid: text6(self.grid),
            rst_sent: self.rst_sent,
            rst_rcvd: self.rst_rcvd,
            on_period: self.on_period,
            off_period: self.off_period,
        }
    }
}

impl Clone for QsoRecord {
    fn clone(&self) -> (r: Self)
        ensures
            r@ == self@,
    {
        QsoRecord {
            call: text_clone(&self.call),
            grid: text_clone(&self.grid),
            rst_sent: self.rst_sent,
            rst_rcvd: self.rst_rcvd,
            on_period: self.on_period,
            off_period: self.off_period,
        }
    }
}

#[derive(Debug, Clone, Copy, PartialEq, Eq, Structural)]
pub enum Phase {
    /// Not transmitting.
    Stopped,
    Cq,
    Working,
    /// Target reached; only answering logged partners who repeat.
    Done,
}

/// What one decision produced.
#[derive(Debug, PartialEq, Eq)]
pub struct Decision {
    pub tx: Option<TxMsg>,
    pub logged: Option<QsoRecord>,
    pub phase: Phase,
    pub logged_total: u16,
}

impl Clone for Decision {
    fn clone(&self) -> (r: Self)
        ensures
            tx_view(r.tx) == tx_view(self.tx),
            log_view(r.logged) == log_view(self.logged),
            r.phase == self.phase,
            r.logged_total == self.logged_total,
    {
        Decision {
            tx: match &self.tx {
                Some(m) => Some(m.clone()),
                None => None,
            },
            logged: match &self.logged {
                Some(q) => Some(q.clone()),
                None => None,
            },
            phase: self.phase,
            logged_total: self.logged_total,
        }
    }
}

/// The station being worked.
#[derive(Debug)]
pub struct Partner {
    call: Call,
    grid: heapless::String<6>,
    rst_sent: i8,
    rst_rcvd: Option<i8>,
    first_period: u32,
    last_heard: u32,
    last_tx: TxMsg,
}

pub struct PartnerView {
    pub call: Seq<char>,
    pub grid: Seq<char>,
    pub rst_sent: i8,
    pub rst_rcvd: Option<i8>,
    pub first_period: u32,
    pub last_heard: u32,
    pub last_tx: TxView,
}

impl View for Partner {
    type V = PartnerView;

    closed spec fn view(&self) -> PartnerView {
        PartnerView {
            call: text13(self.call),
            grid: text6(self.grid),
            rst_sent: self.rst_sent,
            rst_rcvd: self.rst_rcvd,
            first_period: self.first_period,
            last_heard: self.last_heard,
            last_tx: self.last_tx@,
        }
    }
}

/// A partner logged recently: answered again, without a second log, if they
/// repeat, and counted anew if they start over.
#[derive(Debug)]
pub struct Recent {
    call: Call,
    period: u32,
}

pub struct RecentView {
    pub call: Seq<char>,
    pub period: u32,
}

impl View for Recent {
    type V = RecentView;

    closed spec fn view(&self) -> RecentView {
        RecentView { call: text13(self.call), period: self.period }
    }
}

/// Callers waiting while another contact is under way.
pub const PENDING_MAX: usize = 8;

/// Own periods a waiting caller stays eligible.
pub const PENDING_TTL: u32 = 2;

/// Own periods a logged partner stays in the no-second-log window.
pub const RECENT_TTL: u32 = 4;

/// Logged partners remembered.
pub const RECENT_MAX: usize = 16;

/// Partners dropped for going quiet, remembered so that one who comes back
/// is logged with the reports of the first attempt.
pub const DROPPED_MAX: usize = 4;

/// Callers one choice is made from.
pub const POOL_MAX: usize = 24;

/// The callers waiting, with the period each was last heard in.
pub uninterp spec fn pending_items(v: heapless::Vec<(Heard, u32), 8>) -> Seq<(Heard, u32)>;

/// The partners logged recently.
pub uninterp spec fn recent_items(v: heapless::Vec<Recent, 16>) -> Seq<Recent>;

/// The partners dropped.
pub uninterp spec fn dropped_items(v: heapless::Vec<Partner, 4>) -> Seq<Partner>;

/// The callers to choose from.
pub uninterp spec fn pool_items(v: heapless::Vec<Heard, 24>) -> Seq<Heard>;

impl Items<(Heard, u32)> for heapless::Vec<(Heard, u32), 8> {
    open spec fn items(&self) -> Seq<(Heard, u32)> {
        pending_items(*self)
    }
}

impl Items<Recent> for heapless::Vec<Recent, 16> {
    open spec fn items(&self) -> Seq<Recent> {
        recent_items(*self)
    }
}

impl Items<Partner> for heapless::Vec<Partner, 4> {
    open spec fn items(&self) -> Seq<Partner> {
        dropped_items(*self)
    }
}

impl Items<Heard> for heapless::Vec<Heard, 24> {
    open spec fn items(&self) -> Seq<Heard> {
        pool_items(*self)
    }
}

/// `heapless::Vec::new`: nobody is waiting.
#[verifier::external_body]
fn pending_new() -> (v: heapless::Vec<(Heard, u32), 8>)
    ensures
        pending_items(v) == Seq::<(Heard, u32)>::empty(),
{
    heapless::Vec::new()
}

/// `heapless::Vec::new`: nobody was logged.
#[verifier::external_body]
fn recent_new() -> (v: heapless::Vec<Recent, 16>)
    ensures
        recent_items(v) == Seq::<Recent>::empty(),
{
    heapless::Vec::new()
}

/// `heapless::Vec::new`: nobody was dropped.
#[verifier::external_body]
fn dropped_new() -> (v: heapless::Vec<Partner, 4>)
    ensures
        dropped_items(v) == Seq::<Partner>::empty(),
{
    heapless::Vec::new()
}

/// `heapless::Vec::new`: nobody to choose from.
#[verifier::external_body]
fn pool_new() -> (v: heapless::Vec<Heard, 24>)
    ensures
        pool_items(v) == Seq::<Heard>::empty(),
{
    heapless::Vec::new()
}

pub open spec fn heards(s: Seq<Heard>) -> Seq<HeardView> {
    Seq::new(s.len(), |i: int| s[i]@)
}

pub open spec fn waiters(s: Seq<(Heard, u32)>) -> Seq<(HeardView, u32)> {
    Seq::new(s.len(), |i: int| (s[i].0@, s[i].1))
}

pub open spec fn recents(s: Seq<Recent>) -> Seq<RecentView> {
    Seq::new(s.len(), |i: int| s[i]@)
}

pub open spec fn partners(s: Seq<Partner>) -> Seq<PartnerView> {
    Seq::new(s.len(), |i: int| s[i]@)
}

/// The state machine.
pub struct Activator {
    cfg: Config,
    phase: Phase,
    partner: Option<Partner>,
    pending: heapless::Vec<(Heard, u32), 8>,
    recent: heapless::Vec<Recent, 16>,
    dropped: heapless::Vec<Partner, 4>,
    logged: u16,
    idle: u16,
    done_at: u32,
}

pub struct ActView {
    pub cfg: ConfigView,
    pub phase: Phase,
    pub partner: Option<PartnerView>,
    pub pending: Seq<(HeardView, u32)>,
    pub recent: Seq<RecentView>,
    pub dropped: Seq<PartnerView>,
    pub logged: u16,
    pub idle: u16,
    pub done_at: u32,
}

pub open spec fn partner_view(p: Option<Partner>) -> Option<PartnerView> {
    match p {
        Some(p) => Some(p@),
        None => None,
    }
}

impl View for Activator {
    type V = ActView;

    closed spec fn view(&self) -> ActView {
        ActView {
            cfg: self.cfg@,
            phase: self.phase,
            partner: partner_view(self.partner),
            pending: waiters(pending_items(self.pending)),
            recent: recents(recent_items(self.recent)),
            dropped: partners(dropped_items(self.dropped)),
            logged: self.logged,
            idle: self.idle,
            done_at: self.done_at,
        }
    }
}

// ── The rules ───────────────────────────────────────────────────────────────

/// Own periods since `then`; none before it.
pub open spec fn since(now: u32, then: u32) -> int {
    if now >= then {
        now - then
    } else {
        0
    }
}

/// A waiting caller was heard recently enough.
pub open spec fn waits_at(period: u32) -> spec_fn((HeardView, u32)) -> bool {
    |x: (HeardView, u32)| since(period, x.1) <= PENDING_TTL
}

/// A waiting caller is not `call`.
pub open spec fn waiter_other_than(call: Seq<char>) -> spec_fn((HeardView, u32)) -> bool {
    |x: (HeardView, u32)| x.0.from != call
}

/// A partner was logged recently enough.
pub open spec fn recent_in(period: u32) -> spec_fn(RecentView) -> bool {
    |x: RecentView| since(period, x.period) <= RECENT_TTL
}

/// A logged partner is not `call`.
pub open spec fn recent_other_than(call: Seq<char>) -> spec_fn(RecentView) -> bool {
    |x: RecentView| x.call != call
}

/// A message wants an answer.
pub open spec fn wants_answer() -> spec_fn(HeardView) -> bool {
    |h: HeardView| !(h.exchange is S73)
}

/// The waiting callers that are still eligible.
pub open spec fn still_waiting(p: Seq<(HeardView, u32)>, period: u32) -> Seq<(HeardView, u32)> {
    p.filter(waits_at(period))
}

/// The waiting callers other than `call`.
pub open spec fn without_waiter(p: Seq<(HeardView, u32)>, call: Seq<char>) -> Seq<
    (HeardView, u32),
> {
    p.filter(waiter_other_than(call))
}

/// The logged partners that are still in the window.
pub open spec fn still_recent(r: Seq<RecentView>, period: u32) -> Seq<RecentView> {
    r.filter(recent_in(period))
}

/// The logged partners other than `call`.
pub open spec fn without_recent(r: Seq<RecentView>, call: Seq<char>) -> Seq<RecentView> {
    r.filter(recent_other_than(call))
}

/// Where `call` first stands among the logged partners; their number if
/// nowhere.
pub open spec fn recent_at(r: Seq<RecentView>, call: Seq<char>) -> int
    decreases r.len(),
{
    if r.len() == 0 || r[0].call == call {
        0
    } else {
        1 + recent_at(r.skip(1), call)
    }
}

/// Where `call` first stands among the dropped partners; their number if
/// nowhere.
pub open spec fn dropped_at(d: Seq<PartnerView>, call: Seq<char>) -> int
    decreases d.len(),
{
    if d.len() == 0 || d[0].call == call {
        0
    } else {
        1 + dropped_at(d.skip(1), call)
    }
}

/// Where `call` first stands among the waiting callers; their number if
/// nowhere.
pub open spec fn waiter_at(p: Seq<(HeardView, u32)>, call: Seq<char>) -> int
    decreases p.len(),
{
    if p.len() == 0 || p[0].0.from == call {
        0
    } else {
        1 + waiter_at(p.skip(1), call)
    }
}

/// `a` is at least as good a caller as `b`: further along, or as far and at
/// least as strong.
pub open spec fn at_least(a: HeardView, b: HeardView) -> bool {
    stage(a.exchange) > stage(b.exchange) || (stage(a.exchange) == stage(b.exchange) && a.snr
        >= b.snr)
}

/// The most advanced message from `call`; the last of several.
pub open spec fn best_of(heard: Seq<HeardView>, call: Seq<char>) -> Option<HeardView>
    decreases heard.len(),
{
    if heard.len() == 0 {
        None
    } else {
        let b = best_of(heard.drop_last(), call);
        let x = heard.last();
        if x.from == call && (b is None || stage(x.exchange) >= stage(b->0.exchange)) {
            Some(x)
        } else {
            b
        }
    }
}

/// Somebody in the pool is `call`.
pub open spec fn in_pool(pool: Seq<HeardView>, call: Seq<char>) -> bool {
    exists|i: int| 0 <= i < pool.len() && (#[trigger] pool[i]).from == call
}

/// The pool with the waiting callers that are not in it yet, as far as there
/// is room.
pub open spec fn with_waiters(pool: Seq<HeardView>, p: Seq<(HeardView, u32)>) -> Seq<HeardView>
    decreases p.len(),
{
    if p.len() == 0 {
        pool
    } else {
        let q = with_waiters(pool, p.drop_last());
        let h = p.last().0;
        if in_pool(q, h.from) || q.len() >= POOL_MAX {
            q
        } else {
            q.push(h)
        }
    }
}

/// Who can be answered: this period's callers, then the waiting ones. A 73
/// needs no answer.
pub open spec fn candidates(heard: Seq<HeardView>, p: Seq<(HeardView, u32)>) -> Seq<HeardView> {
    let first = if heard.len() <= POOL_MAX {
        heard
    } else {
        heard.take(POOL_MAX as int)
    };
    with_waiters(first, p).filter(wants_answer())
}

/// The best of the candidates; the last of several.
pub open spec fn best_candidate(c: Seq<HeardView>) -> Option<HeardView>
    decreases c.len(),
{
    if c.len() == 0 {
        None
    } else {
        let b = best_candidate(c.drop_last());
        if b is None || at_least(c.last(), b->0) {
            Some(c.last())
        } else {
            b
        }
    }
}

/// The weakest of the first `n` waiting callers; the first of several.
pub open spec fn weakest(p: Seq<(HeardView, u32)>, n: int) -> int
    decreases n,
{
    if n <= 1 {
        0
    } else {
        let b = weakest(p, n - 1);
        if at_least(p[n - 1].0, p[b].0) {
            b
        } else {
            n - 1
        }
    }
}

/// One message put among the waiting callers: in the place of an earlier one
/// from the same station, at the end, or, when there is no room, in the
/// place of the weakest if it is better.
pub open spec fn queue_one(
    p: Seq<(HeardView, u32)>,
    h: HeardView,
    period: u32,
    except: Seq<char>,
) -> Seq<(HeardView, u32)> {
    let k = waiter_at(p, h.from);
    if h.from == except || h.exchange is S73 {
        p
    } else if k < p.len() {
        p.update(k, (h, period))
    } else if p.len() < PENDING_MAX {
        p.push((h, period))
    } else {
        let w = weakest(p, p.len() as int);
        if at_least(p[w].0, h) {
            p
        } else {
            p.update(w, (h, period))
        }
    }
}

pub open spec fn queue_all(
    p: Seq<(HeardView, u32)>,
    heard: Seq<HeardView>,
    period: u32,
    except: Seq<char>,
) -> Seq<(HeardView, u32)>
    decreases heard.len(),
{
    if heard.len() == 0 {
        p
    } else {
        queue_one(queue_all(p, heard.drop_last(), period, except), heard.last(), period, except)
    }
}

/// The contact with the partner is over: logged once, the partner retired,
/// the activation done when the target is reached.
pub open spec fn finished(s: ActView, p: PartnerView, period: u32) -> (ActView, Option<QsoView>) {
    let k = recent_at(s.recent, p.call);
    let fresh = k >= s.recent.len();
    let logged = if fresh && s.logged < u16::MAX {
        (s.logged + 1) as u16
    } else {
        s.logged
    };
    let recent = if !fresh {
        s.recent.update(k, RecentView { call: p.call, period })
    } else if s.recent.len() >= RECENT_MAX {
        s.recent.remove(0).push(RecentView { call: p.call, period })
    } else {
        s.recent.push(RecentView { call: p.call, period })
    };
    let done = s.cfg.target_qsos > 0 && logged >= s.cfg.target_qsos;
    (
        ActView {
            partner: None,
            recent,
            logged,
            phase: if done {
                Phase::Done
            } else {
                Phase::Cq
            },
            done_at: if done {
                period
            } else {
                s.done_at
            },
            ..s
        },
        if fresh {
            Some(
                QsoView {
                    call: p.call,
                    grid: p.grid,
                    rst_sent: p.rst_sent,
                    rst_rcvd: p.rst_rcvd,
                    on_period: p.first_period,
                    off_period: period,
                },
            )
        } else {
            None
        },
    )
}

/// The partner that a message makes: the one being worked, one dropped
/// earlier, or a new one.
pub open spec fn partner_for(s: ActView, period: u32, h: HeardView) -> (Seq<PartnerView>, PartnerView) {
    let k = dropped_at(s.dropped, h.from);
    if s.partner is Some && s.partner->0.call == h.from {
        (s.dropped, PartnerView { last_heard: period, ..s.partner->0 })
    } else if k < s.dropped.len() {
        (s.dropped.remove(k), PartnerView { last_heard: period, ..s.dropped[k] })
    } else {
        (
            s.dropped,
            PartnerView {
                call: h.from,
                grid: Seq::empty(),
                rst_sent: clamped(h.snr as int) as i8,
                rst_rcvd: None,
                first_period: period,
                last_heard: period,
                last_tx: TxView::Cq,
            },
        )
    }
}

/// A partner still being worked, with the message last sent.
pub open spec fn working(s: ActView, p: PartnerView, tx: TxView) -> ActView {
    ActView {
        partner: Some(PartnerView { last_tx: tx, ..p }),
        phase: if s.phase == Phase::Cq {
            Phase::Working
        } else {
            s.phase
        },
        ..s
    }
}

/// The reply to a message: the state after it, what is logged, and what is
/// sent.
pub open spec fn replied(s: ActView, period: u32, h: HeardView) -> (
    ActView,
    Option<QsoView>,
    Option<TxView>,
) {
    let (dropped, p) = partner_for(s, period, h);
    let s = ActView { dropped, ..s };
    match h.exchange {
        ExchangeView::Bare => {
            let p = PartnerView { rst_sent: clamped(h.snr as int) as i8, ..p };
            let tx = TxView::Std { to: h.from, exchange: report_field(p.rst_sent as int, false) };
            (
                working(ActView { recent: without_recent(s.recent, h.from), ..s }, p, tx),
                None,
                Some(tx),
            )
        },
        ExchangeView::Grid(g) => {
            let p = PartnerView { grid: g, rst_sent: clamped(h.snr as int) as i8, ..p };
            let tx = TxView::Std { to: h.from, exchange: report_field(p.rst_sent as int, false) };
            (
                working(ActView { recent: without_recent(s.recent, h.from), ..s }, p, tx),
                None,
                Some(tx),
            )
        },
        ExchangeView::Report(r) => {
            let p = PartnerView { rst_rcvd: Some(r), ..p };
            let tx = TxView::Std { to: h.from, exchange: report_field(p.rst_sent as int, true) };
            (
                working(ActView { recent: without_recent(s.recent, h.from), ..s }, p, tx),
                None,
                Some(tx),
            )
        },
        ExchangeView::RReport(r) => {
            let p = PartnerView { rst_rcvd: Some(r), ..p };
            let f = finished(s, p, period);
            (f.0, f.1, Some(TxView::Std { to: h.from, exchange: "RR73"@ }))
        },
        ExchangeView::Rrr => {
            let f = finished(s, p, period);
            (f.0, f.1, Some(TxView::Std { to: h.from, exchange: "73"@ }))
        },
        ExchangeView::Rr73 => {
            let f = finished(s, p, period);
            (f.0, f.1, Some(TxView::Std { to: h.from, exchange: "73"@ }))
        },
        ExchangeView::S73 => (ActView { partner: None, ..s }, None, None),
    }
}

/// A CQ, or silence when nobody has called for long enough.
pub open spec fn called_cq(s: ActView) -> (ActView, Option<TxView>) {
    let idle = if s.idle < u16::MAX {
        (s.idle + 1) as u16
    } else {
        s.idle
    };
    if s.cfg.idle_stop_periods > 0 && idle > s.cfg.idle_stop_periods {
        (ActView { phase: Phase::Stopped, idle, ..s }, None)
    } else {
        (ActView { phase: Phase::Cq, idle, ..s }, Some(TxView::Cq))
    }
}

/// The best caller answered, or a CQ.
pub open spec fn next_or_cq(s: ActView, period: u32, heard: Seq<HeardView>) -> (
    ActView,
    Option<QsoView>,
    Option<TxView>,
) {
    match best_candidate(candidates(heard, s.pending)) {
        Some(h) => {
            let s = ActView { pending: without_waiter(s.pending, h.from), ..s };
            let (s, logged, tx) = replied(s, period, h);
            let s = ActView { pending: queue_all(s.pending, heard, period, h.from), idle: 0, ..s };
            (s, logged, tx)
        },
        None => {
            let (s, tx) = called_cq(s);
            (s, None, tx)
        },
    }
}

/// The partner given up for going quiet.
pub open spec fn given_up(s: ActView, p: PartnerView) -> ActView {
    let d = if s.dropped.len() >= DROPPED_MAX {
        s.dropped.remove(0)
    } else {
        s.dropped
    };
    ActView { partner: None, dropped: d.push(p), ..s }
}

/// A decision while calling or working: the partner first, then whoever
/// else.
pub open spec fn active(s: ActView, period: u32, heard: Seq<HeardView>) -> (
    ActView,
    Option<QsoView>,
    Option<TxView>,
) {
    let s = ActView {
        pending: still_waiting(s.pending, period),
        recent: still_recent(s.recent, period),
        ..s
    };
    match s.partner {
        Some(p) => match best_of(heard, p.call) {
            Some(h) => {
                let (s1, logged, tx) = replied(s, period, h);
                let s2 = ActView { pending: queue_all(s1.pending, heard, period, p.call), ..s1 };
                if tx is Some {
                    (s2, logged, tx)
                } else {
                    next_or_cq(s2, period, Seq::empty())
                }
            },
            None => if since(period, p.last_heard) < s.cfg.give_up_periods {
                (
                    ActView { pending: queue_all(s.pending, heard, period, p.call), ..s },
                    None,
                    Some(p.last_tx),
                )
            } else {
                next_or_cq(given_up(s, p), period, heard)
            },
        },
        None => next_or_cq(s, period, heard),
    }
}

/// The first logged partner who repeats a rogered report.
pub open spec fn repeated(recent: Seq<RecentView>, heard: Seq<HeardView>) -> Option<Seq<char>>
    decreases heard.len(),
{
    if heard.len() == 0 {
        None
    } else if heard[0].exchange is RReport && recent_at(recent, heard[0].from) < recent.len() {
        Some(heard[0].from)
    } else {
        repeated(recent, heard.skip(1))
    }
}

/// A decision after the target was reached.
pub open spec fn done(s: ActView, period: u32, heard: Seq<HeardView>) -> (ActView, Option<TxView>) {
    if since(period, s.done_at) > s.cfg.grace_periods {
        (ActView { phase: Phase::Stopped, ..s }, None)
    } else {
        (
            s,
            match repeated(s.recent, heard) {
                Some(to) => Some(TxView::Std { to, exchange: "RR73"@ }),
                None => None,
            },
        )
    }
}

/// One decision: the state after it, what is logged, and what is sent.
pub open spec fn decided(s: ActView, period: u32, heard: Seq<HeardView>) -> (
    ActView,
    Option<QsoView>,
    Option<TxView>,
) {
    match s.phase {
        Phase::Stopped => (s, None, None),
        Phase::Done => {
            let (s, tx) = done(s, period, heard);
            (s, None, tx)
        },
        Phase::Cq => active(s, period, heard),
        Phase::Working => active(s, period, heard),
    }
}

// ── Lists ───────────────────────────────────────────────────────────────────

proof fn lemma_filter_step<A>(s: Seq<A>, k: int, p: spec_fn(A) -> bool)
    requires
        0 <= k < s.len(),
    ensures
        s.take(k + 1).filter(p) == if p(s[k]) {
            s.take(k).filter(p).push(s[k])
        } else {
            s.take(k).filter(p)
        },
{
    reveal(Seq::filter);
    assert(s.take(k + 1).drop_last() =~= s.take(k));
    assert(s.take(k + 1).last() == s[k]);
}

proof fn lemma_filter_start<A>(s: Seq<A>, p: spec_fn(A) -> bool)
    ensures
        s.take(0).filter(p) == Seq::<A>::empty(),
        s.take(0).filter(p) + s.skip(0) == s,
{
    reveal(Seq::filter);
    assert(s.take(0) =~= Seq::<A>::empty());
    assert(s.take(0).filter(p) + s.skip(0) =~= s);
}

/// What filtering keeps grows along the list, and keeping or removing the
/// next item is what it does.
proof fn lemma_filter_next<A>(s: Seq<A>, k: int, p: spec_fn(A) -> bool)
    requires
        0 <= k < s.len(),
    ensures
        (s.take(k).filter(p) + s.skip(k))[s.take(k).filter(p).len() as int] == s[k],
        p(s[k]) ==> s.take(k + 1).filter(p) + s.skip(k + 1) == s.take(k).filter(p) + s.skip(k),
        p(s[k]) ==> s.take(k + 1).filter(p).len() == s.take(k).filter(p).len() + 1,
        !p(s[k]) ==> s.take(k + 1).filter(p) + s.skip(k + 1) == (s.take(k).filter(p) + s.skip(
            k,
        )).remove(s.take(k).filter(p).len() as int),
        !p(s[k]) ==> s.take(k + 1).filter(p).len() == s.take(k).filter(p).len(),
{
    lemma_filter_step(s, k, p);
    let f = s.take(k).filter(p);
    let l = f + s.skip(k);
    assert(l[f.len() as int] == s[k]);
    if p(s[k]) {
        assert(f.push(s[k]) + s.skip(k + 1) =~= l);
    } else {
        assert(f + s.skip(k + 1) =~= l.remove(f.len() as int));
    }
}

proof fn lemma_filter_end<A>(s: Seq<A>, k: int, p: spec_fn(A) -> bool)
    requires
        0 <= k <= s.len(),
        (s.take(k).filter(p) + s.skip(k)).len() == s.take(k).filter(p).len(),
    ensures
        s.take(k).filter(p) + s.skip(k) == s.filter(p),
        k == s.len(),
{
    assert(s.take(k) =~= s);
    assert(s.take(k).filter(p) + s.skip(k) =~= s.filter(p));
}

fn is_since(now: u32, then: u32, limit: u32) -> (r: bool)
    ensures
        r == (since(now, then) <= limit),
{
    now < then || now - then <= limit
}

fn expire_pending(v: &mut heapless::Vec<(Heard, u32), 8>, period: u32)
    ensures
        waiters(pending_items(*final(v))) == still_waiting(
            waiters(pending_items(*old(v))),
            period,
        ),
{
    let ghost w = waiters(pending_items(*v));
    let ghost p = waits_at(period);
    let ghost mut k: int = 0;
    let mut i: usize = 0;
    proof {
        lemma_filter_start(w, p);
    }
    while i < vec_slice(v).len()
        invariant
            0 <= k <= w.len(),
            p == waits_at(period),
            waiters(pending_items(*v)) == w.take(k).filter(p) + w.skip(k),
            i == w.take(k).filter(p).len(),
            i <= pending_items(*v).len(),
        decreases w.len() - k,
    {
        proof {
            lemma_filter_next(w, k, p);
            assert(waiters(pending_items(*v))[i as int] == w[k]);
        }
        let keep = is_since(period, vec_slice(v)[i].1, PENDING_TTL);
        assert(keep == p(w[k]));
        if keep {
            i += 1;
        } else {
            let ghost before = pending_items(*v);
            let _x = vec_remove(v, i);
            assert(waiters(pending_items(*v)) =~= waiters(before).remove(i as int));
        }
        proof {
            k = k + 1;
        }
    }
    proof {
        lemma_filter_end(w, k, p);
    }
}

/// Whether two fixed texts are the same.
fn same_call(a: &Call, b: &Call) -> (r: bool)
    ensures
        r == (text13(*a) == text13(*b)),
{
    let x = chars_of(text_str(a));
    let y = chars_of(text_str(b));
    same(x.as_slice(), y.as_slice())
}

fn remove_pending(v: &mut heapless::Vec<(Heard, u32), 8>, call: &Call)
    ensures
        waiters(pending_items(*final(v))) == without_waiter(
            waiters(pending_items(*old(v))),
            text13(*call),
        ),
{
    let ghost w = waiters(pending_items(*v));
    let ghost p = waiter_other_than(text13(*call));
    let ghost mut k: int = 0;
    let mut i: usize = 0;
    proof {
        lemma_filter_start(w, p);
    }
    while i < vec_slice(v).len()
        invariant
            0 <= k <= w.len(),
            p == waiter_other_than(text13(*call)),
            waiters(pending_items(*v)) == w.take(k).filter(p) + w.skip(k),
            i == w.take(k).filter(p).len(),
            i <= pending_items(*v).len(),
        decreases w.len() - k,
    {
        proof {
            lemma_filter_next(w, k, p);
            assert(waiters(pending_items(*v))[i as int] == w[k]);
        }
        let keep = !same_call(&vec_slice(v)[i].0.from, call);
        assert(keep == p(w[k]));
        if keep {
            i += 1;
        } else {
            let ghost before = pending_items(*v);
            let _x = vec_remove(v, i);
            assert(waiters(pending_items(*v)) =~= waiters(before).remove(i as int));
        }
        proof {
            k = k + 1;
        }
    }
    proof {
        lemma_filter_end(w, k, p);
    }
}

fn expire_recent(v: &mut heapless::Vec<Recent, 16>, period: u32)
    ensures
        recents(recent_items(*final(v))) == still_recent(recents(recent_items(*old(v))), period),
{
    let ghost w = recents(recent_items(*v));
    let ghost p = recent_in(period);
    let ghost mut k: int = 0;
    let mut i: usize = 0;
    proof {
        lemma_filter_start(w, p);
    }
    while i < vec_slice(v).len()
        invariant
            0 <= k <= w.len(),
            p == recent_in(period),
            recents(recent_items(*v)) == w.take(k).filter(p) + w.skip(k),
            i == w.take(k).filter(p).len(),
            i <= recent_items(*v).len(),
        decreases w.len() - k,
    {
        proof {
            lemma_filter_next(w, k, p);
            assert(recents(recent_items(*v))[i as int] == w[k]);
        }
        let keep = is_since(period, vec_slice(v)[i].period, RECENT_TTL);
        assert(keep == p(w[k]));
        if keep {
            i += 1;
        } else {
            let ghost before = recent_items(*v);
            let _x = vec_remove(v, i);
            assert(recents(recent_items(*v)) =~= recents(before).remove(i as int));
        }
        proof {
            k = k + 1;
        }
    }
    proof {
        lemma_filter_end(w, k, p);
    }
}

fn remove_recent(v: &mut heapless::Vec<Recent, 16>, call: &Call)
    ensures
        recents(recent_items(*final(v))) == without_recent(
            recents(recent_items(*old(v))),
            text13(*call),
        ),
{
    let ghost w = recents(recent_items(*v));
    let ghost p = recent_other_than(text13(*call));
    let ghost mut k: int = 0;
    let mut i: usize = 0;
    proof {
        lemma_filter_start(w, p);
    }
    while i < vec_slice(v).len()
        invariant
            0 <= k <= w.len(),
            p == recent_other_than(text13(*call)),
            recents(recent_items(*v)) == w.take(k).filter(p) + w.skip(k),
            i == w.take(k).filter(p).len(),
            i <= recent_items(*v).len(),
        decreases w.len() - k,
    {
        proof {
            lemma_filter_next(w, k, p);
            assert(recents(recent_items(*v))[i as int] == w[k]);
        }
        let keep = !same_call(&vec_slice(v)[i].call, call);
        assert(keep == p(w[k]));
        if keep {
            i += 1;
        } else {
            let ghost before = recent_items(*v);
            let _x = vec_remove(v, i);
            assert(recents(recent_items(*v)) =~= recents(before).remove(i as int));
        }
        proof {
            k = k + 1;
        }
    }
    proof {
        lemma_filter_end(w, k, p);
    }
}

fn drop_s73(v: &mut heapless::Vec<Heard, 24>)
    ensures
        heards(pool_items(*final(v))) == heards(pool_items(*old(v))).filter(wants_answer()),
{
    let ghost w = heards(pool_items(*v));
    let ghost p = wants_answer();
    let ghost mut k: int = 0;
    let mut i: usize = 0;
    proof {
        lemma_filter_start(w, p);
    }
    while i < vec_slice(v).len()
        invariant
            0 <= k <= w.len(),
            p == wants_answer(),
            heards(pool_items(*v)) == w.take(k).filter(p) + w.skip(k),
            i == w.take(k).filter(p).len(),
            i <= pool_items(*v).len(),
        decreases w.len() - k,
    {
        proof {
            lemma_filter_next(w, k, p);
            assert(heards(pool_items(*v))[i as int] == w[k]);
        }
        let keep = !vec_slice(v)[i].exchange.is_s73();
        assert(keep == p(w[k]));
        if keep {
            i += 1;
        } else {
            let ghost before = pool_items(*v);
            let _x = vec_remove(v, i);
            assert(heards(pool_items(*v)) =~= heards(before).remove(i as int));
        }
        proof {
            k = k + 1;
        }
    }
    proof {
        lemma_filter_end(w, k, p);
    }
}

proof fn lemma_recent_at(r: Seq<RecentView>, call: Seq<char>, k: int)
    requires
        0 <= k <= r.len(),
        k < r.len() ==> r[k].call == call,
        forall|i: int| 0 <= i < k ==> (#[trigger] r[i]).call != call,
    ensures
        recent_at(r, call) == k,
    decreases r.len(),
{
    if k > 0 {
        let t = r.skip(1);
        assert(r[0].call != call);
        assert forall|i: int| 0 <= i < k - 1 implies (#[trigger] t[i]).call != call by {
            assert(r[i + 1] == t[i]);
        }
        if k < r.len() {
            assert(t[k - 1] == r[k]);
        }
        lemma_recent_at(t, call, k - 1);
    }
}

proof fn lemma_dropped_at(d: Seq<PartnerView>, call: Seq<char>, k: int)
    requires
        0 <= k <= d.len(),
        k < d.len() ==> d[k].call == call,
        forall|i: int| 0 <= i < k ==> (#[trigger] d[i]).call != call,
    ensures
        dropped_at(d, call) == k,
    decreases d.len(),
{
    if k > 0 {
        let t = d.skip(1);
        assert(d[0].call != call);
        assert forall|i: int| 0 <= i < k - 1 implies (#[trigger] t[i]).call != call by {
            assert(d[i + 1] == t[i]);
        }
        if k < d.len() {
            assert(t[k - 1] == d[k]);
        }
        lemma_dropped_at(t, call, k - 1);
    }
}

proof fn lemma_waiter_at(p: Seq<(HeardView, u32)>, call: Seq<char>, k: int)
    requires
        0 <= k <= p.len(),
        k < p.len() ==> p[k].0.from == call,
        forall|i: int| 0 <= i < k ==> (#[trigger] p[i]).0.from != call,
    ensures
        waiter_at(p, call) == k,
    decreases p.len(),
{
    if k > 0 {
        let t = p.skip(1);
        assert(p[0].0.from != call);
        assert forall|i: int| 0 <= i < k - 1 implies (#[trigger] t[i]).0.from != call by {
            assert(p[i + 1] == t[i]);
        }
        if k < p.len() {
            assert(t[k - 1] == p[k]);
        }
        lemma_waiter_at(t, call, k - 1);
    }
}

fn find_recent(v: &heapless::Vec<Recent, 16>, call: &Call) -> (k: usize)
    ensures
        k == recent_at(recents(recent_items(*v)), text13(*call)),
        k <= recent_items(*v).len(),
        recent_items(*v).len() <= 16,
{
    let s = vec_slice(v);
    let ghost r = recents(s@);
    let mut k: usize = 0;
    while k < s.len() && !same_call(&s[k].call, call)
        invariant
            k <= s.len(),
            r == recents(s@),
            forall|i: int| 0 <= i < k ==> (#[trigger] r[i]).call != text13(*call),
        decreases s.len() - k,
    {
        assert(r[k as int] == s@[k as int]@);
        k += 1;
    }
    proof {
        if k < s.len() {
            assert(r[k as int] == s@[k as int]@);
        }
        lemma_recent_at(r, text13(*call), k as int);
    }
    k
}

fn find_dropped(v: &heapless::Vec<Partner, 4>, call: &Call) -> (k: usize)
    ensures
        k == dropped_at(partners(dropped_items(*v)), text13(*call)),
        k <= dropped_items(*v).len(),
{
    let s = vec_slice(v);
    let ghost d = partners(s@);
    let mut k: usize = 0;
    while k < s.len() && !same_call(&s[k].call, call)
        invariant
            k <= s.len(),
            d == partners(s@),
            forall|i: int| 0 <= i < k ==> (#[trigger] d[i]).call != text13(*call),
        decreases s.len() - k,
    {
        assert(d[k as int] == s@[k as int]@);
        k += 1;
    }
    proof {
        if k < s.len() {
            assert(d[k as int] == s@[k as int]@);
        }
        lemma_dropped_at(d, text13(*call), k as int);
    }
    k
}

fn find_waiter(v: &heapless::Vec<(Heard, u32), 8>, call: &Call) -> (k: usize)
    ensures
        k == waiter_at(waiters(pending_items(*v)), text13(*call)),
        k <= pending_items(*v).len(),
{
    let s = vec_slice(v);
    let ghost w = waiters(s@);
    let mut k: usize = 0;
    while k < s.len() && !same_call(&s[k].0.from, call)
        invariant
            k <= s.len(),
            w == waiters(s@),
            forall|i: int| 0 <= i < k ==> (#[trigger] w[i]).0.from != text13(*call),
        decreases s.len() - k,
    {
        assert(w[k as int] == (s@[k as int].0@, s@[k as int].1));
        k += 1;
    }
    proof {
        if k < s.len() {
            assert(w[k as int] == (s@[k as int].0@, s@[k as int].1));
        }
        lemma_waiter_at(w, text13(*call), k as int);
    }
    k
}

fn is_at_least(a: &Heard, b: &Heard) -> (r: bool)
    ensures
        r == at_least(a@, b@),
{
    let x: u8 = a.exchange.stage();
    let y: u8 = b.exchange.stage();
    x > y || (x == y && a.snr >= b.snr)
}

/// The most advanced message from `call`.
fn best_from(heard: &[Heard], call: &Call) -> (r: Option<usize>)
    ensures
        match r {
            Some(i) => i < heard.len() && best_of(heards(heard@), text13(*call)) == Some(
                heard@[i as int]@,
            ) && heard@[i as int]@.from == text13(*call),
            None => best_of(heards(heard@), text13(*call)) is None,
        },
{
    let mut best: Option<usize> = None;
    let mut i: usize = 0;
    let ghost h = heards(heard@);
    assert(h.take(0) =~= Seq::<HeardView>::empty());
    while i < heard.len()
        invariant
            i <= heard.len(),
            h == heards(heard@),
            match best {
                Some(b) => b < i && best_of(h.take(i as int), text13(*call)) == Some(
                    heard@[b as int]@,
                ) && heard@[b as int]@.from == text13(*call),
                None => best_of(h.take(i as int), text13(*call)) is None,
            },
        decreases heard.len() - i,
    {
        proof {
            assert(h.take(i + 1).drop_last() =~= h.take(i as int));
            assert(h.take(i + 1).last() == heard@[i as int]@);
        }
        if same_call(&heard[i].from, call) {
            match best {
                Some(b) => {
                    if heard[i].exchange.stage() >= heard[b].exchange.stage() {
                        best = Some(i);
                    }
                },
                None => {
                    best = Some(i);
                },
            }
        }
        i += 1;
    }
    assert(h.take(h.len() as int) =~= h);
    best
}

/// Who can be answered.
fn build_pool(heard: &[Heard], pending: &heapless::Vec<(Heard, u32), 8>) -> (pool: heapless::Vec<
    Heard,
    24,
>)
    ensures
        heards(pool_items(pool)) == candidates(heards(heard@), waiters(pending_items(*pending))),
{
    let mut pool = pool_new();
    let ghost h = heards(heard@);
    let mut i: usize = 0;
    assert(heards(pool_items(pool)) =~= h.take(0));
    while i < heard.len()
        invariant
            i <= heard.len(),
            h == heards(heard@),
            heards(pool_items(pool)) == h.take(
                if i <= POOL_MAX {
                    i as int
                } else {
                    POOL_MAX as int
                },
            ),
        decreases heard.len() - i,
    {
        let x = heard[i].clone();
        let ghost before = pool_items(pool);
        assert(heards(before).len() == before.len());
        let ok = vec_push(&mut pool, x);
        proof {
            if ok {
                assert(heards(pool_items(pool)) =~= heards(before).push(heard@[i as int]@));
                assert(heards(pool_items(pool)) =~= h.take(i + 1));
            }
        }
        i += 1;
    }
    let ghost first = heards(pool_items(pool));
    assert(first =~= if h.len() <= POOL_MAX {
        h
    } else {
        h.take(POOL_MAX as int)
    });
    let waiting = vec_slice(pending);
    let ghost w = waiters(waiting@);
    let mut k: usize = 0;
    assert(w.take(0) =~= Seq::<(HeardView, u32)>::empty());
    while k < waiting.len()
        invariant
            k <= waiting.len(),
            w == waiters(waiting@),
            heards(pool_items(pool)) == with_waiters(first, w.take(k as int)),
        decreases waiting.len() - k,
    {
        proof {
            assert(w.take(k + 1).drop_last() =~= w.take(k as int));
            assert(w.take(k + 1).last() == (waiting@[k as int].0@, waiting@[k as int].1));
        }
        if !pool_has(&pool, &waiting[k].0.from) {
            let x = waiting[k].0.clone();
            let ghost before = pool_items(pool);
            let ghost xv = x@;
            assert(heards(before).len() == before.len());
            let ok = vec_push(&mut pool, x);
            proof {
                if ok {
                    assert(heards(pool_items(pool)) =~= heards(before).push(xv));
                }
            }
        }
        k += 1;
    }
    assert(w.take(w.len() as int) =~= w);
    drop_s73(&mut pool);
    pool
}

fn pool_has(pool: &heapless::Vec<Heard, 24>, call: &Call) -> (r: bool)
    ensures
        r == in_pool(heards(pool_items(*pool)), text13(*call)),
{
    let s = vec_slice(pool);
    let ghost h = heards(s@);
    let mut i: usize = 0;
    while i < s.len()
        invariant
            i <= s.len(),
            s@ == pool_items(*pool),
            h == heards(s@),
            forall|j: int| 0 <= j < i ==> (#[trigger] h[j]).from != text13(*call),
        decreases s.len() - i,
    {
        assert(h[i as int] == s@[i as int]@);
        if same_call(&s[i].from, call) {
            return true;
        }
        i += 1;
    }
    false
}

/// The best of the candidates.
fn pick(pool: &heapless::Vec<Heard, 24>) -> (r: Option<Heard>)
    ensures
        heard_view(r) == best_candidate(heards(pool_items(*pool))),
{
    let s = vec_slice(pool);
    let ghost h = heards(s@);
    if s.len() == 0 {
        return None;
    }
    let mut best: usize = 0;
    let mut i: usize = 1;
    proof {
        assert(h.take(1).last() == s@[0]@);
        assert(h.take(1).drop_last() =~= Seq::<HeardView>::empty());
        assert(best_candidate(h.take(1).drop_last()) is None);
    }
    while i < s.len()
        invariant
            1 <= i <= s.len(),
            best < i,
            h == heards(s@),
            best_candidate(h.take(i as int)) == Some(s@[best as int]@),
        decreases s.len() - i,
    {
        proof {
            assert(h.take(i + 1).drop_last() =~= h.take(i as int));
            assert(h.take(i + 1).last() == s@[i as int]@);
        }
        if is_at_least(&s[i], &s[best]) {
            best = i;
        }
        i += 1;
    }
    assert(h.take(h.len() as int) =~= h);
    Some(s[best].clone())
}

fn weakest_of(s: &[(Heard, u32)]) -> (r: usize)
    requires
        s.len() > 0,
    ensures
        r < s.len(),
        r == weakest(waiters(s@), s@.len() as int),
{
    let ghost w = waiters(s@);
    let mut b: usize = 0;
    let mut i: usize = 1;
    while i < s.len()
        invariant
            1 <= i <= s.len(),
            b < i,
            w == waiters(s@),
            b == weakest(w, i as int),
        decreases s.len() - i,
    {
        assert(w[i as int].0 == s@[i as int].0@);
        assert(w[b as int].0 == s@[b as int].0@);
        if !is_at_least(&s[i].0, &s[b].0) {
            b = i;
        }
        i += 1;
    }
    b
}

fn queue_heard(v: &mut heapless::Vec<(Heard, u32), 8>, h: &Heard, period: u32, except: &Call)
    ensures
        waiters(pending_items(*final(v))) == queue_one(
            waiters(pending_items(*old(v))),
            h@,
            period,
            text13(*except),
        ),
{
    if same_call(&h.from, except) || h.exchange.is_s73() {
        return;
    }
    let ghost w = waiters(pending_items(*v));
    let n: usize = vec_slice(v).len();
    let k: usize = find_waiter(v, &h.from);
    if k < n {
        vec_set(v, k, (h.clone(), period));
        assert(waiters(pending_items(*v)) =~= w.update(k as int, (h@, period)));
        return;
    }
    if vec_push(v, (h.clone(), period)) {
        assert(waiters(pending_items(*v)) =~= w.push((h@, period)));
        return;
    }
    let b: usize = weakest_of(vec_slice(v));
    let keep = is_at_least(&vec_slice(v)[b].0, h);
    assert(w[b as int].0 == pending_items(*v)[b as int].0@);
    if !keep {
        vec_set(v, b, (h.clone(), period));
        assert(waiters(pending_items(*v)) =~= w.update(b as int, (h@, period)));
    }
}

/// The messages of everybody but `except`, put among the waiting callers.
fn queue_others(
    v: &mut heapless::Vec<(Heard, u32), 8>,
    heard: &[Heard],
    period: u32,
    except: &Call,
)
    ensures
        waiters(pending_items(*final(v))) == queue_all(
            waiters(pending_items(*old(v))),
            heards(heard@),
            period,
            text13(*except),
        ),
{
    let ghost w = waiters(pending_items(*v));
    let ghost h = heards(heard@);
    let mut i: usize = 0;
    assert(h.take(0) =~= Seq::<HeardView>::empty());
    while i < heard.len()
        invariant
            i <= heard.len(),
            h == heards(heard@),
            waiters(pending_items(*v)) == queue_all(w, h.take(i as int), period, text13(*except)),
        decreases heard.len() - i,
    {
        proof {
            assert(h.take(i + 1).drop_last() =~= h.take(i as int));
            assert(h.take(i + 1).last() == heard@[i as int]@);
        }
        queue_heard(v, &heard[i], period, except);
        i += 1;
    }
    assert(h.take(h.len() as int) =~= h);
}

// ── The state machine ───────────────────────────────────────────────────────

pub open spec fn tx_view(r: Option<TxMsg>) -> Option<TxView> {
    match r {
        Some(t) => Some(t@),
        None => None,
    }
}

pub open spec fn log_view(r: Option<QsoRecord>) -> Option<QsoView> {
    match r {
        Some(q) => Some(q@),
        None => None,
    }
}

/// A short exchange fits its field.
proof fn lemma_short_exchanges()
    ensures
        encode_utf8("RR73"@).len() <= 6,
        encode_utf8("73"@).len() <= 6,
{
    reveal_strlit("RR73");
    reveal_strlit("73");
    lemma_ascii_bytes("RR73"@);
    lemma_ascii_bytes("73"@);
}

impl Activator {
    pub fn new(cfg: Config) -> (r: Self)
        ensures
            r@ == (ActView {
                cfg: cfg@,
                phase: Phase::Stopped,
                partner: None,
                pending: Seq::empty(),
                recent: Seq::empty(),
                dropped: Seq::empty(),
                logged: 0,
                idle: 0,
                done_at: 0,
            }),
    {
        let r = Activator {
            cfg,
            phase: Phase::Stopped,
            partner: None,
            pending: pending_new(),
            recent: recent_new(),
            dropped: dropped_new(),
            logged: 0,
            idle: 0,
            done_at: 0,
        };
        proof {
            assert(r@.pending =~= Seq::<(HeardView, u32)>::empty());
            assert(r@.recent =~= Seq::<RecentView>::empty());
            assert(r@.dropped =~= Seq::<PartnerView>::empty());
        }
        r
    }

    pub fn config(&self) -> (r: &Config)
        ensures
            r@ == self@.cfg,
    {
        &self.cfg
    }

    pub fn phase(&self) -> (r: Phase)
        ensures
            r == self@.phase,
    {
        self.phase
    }

    pub fn logged(&self) -> (r: u16)
        ensures
            r == self@.logged,
    {
        self.logged
    }

    /// The call being worked, if any.
    pub fn partner(&self) -> (r: Option<&str>)
        ensures
            match r {
                Some(call) => self@.partner is Some && call@ == self@.partner->0.call,
                None => self@.partner is None,
            },
    {
        match &self.partner {
            Some(p) => Some(text_str(&p.call)),
            None => None,
        }
    }

    /// Begin an activation: CQ from the next decision on. The logged count
    /// restarts.
    pub fn start(&mut self)
        ensures
            final(self)@ == (ActView {
                phase: Phase::Cq,
                partner: None,
                pending: Seq::empty(),
                recent: Seq::empty(),
                dropped: Seq::empty(),
                logged: 0,
                idle: 0,
                ..old(self)@
            }),
    {
        self.phase = Phase::Cq;
        self.partner = None;
        vec_clear(&mut self.pending);
        vec_clear(&mut self.recent);
        vec_clear(&mut self.dropped);
        self.logged = 0;
        self.idle = 0;
        proof {
            assert(self@.pending =~= Seq::<(HeardView, u32)>::empty());
            assert(self@.recent =~= Seq::<RecentView>::empty());
            assert(self@.dropped =~= Seq::<PartnerView>::empty());
        }
    }

    /// Stop transmitting.
    pub fn stop(&mut self)
        ensures
            final(self)@ == (ActView {
                phase: Phase::Stopped,
                partner: None,
                pending: Seq::empty(),
                ..old(self)@
            }),
    {
        self.phase = Phase::Stopped;
        self.partner = None;
        vec_clear(&mut self.pending);
        proof {
            assert(self@.pending =~= Seq::<(HeardView, u32)>::empty());
        }
    }

    /// RR73 or 73 is going out: log once, retire the partner, and stop at
    /// the target.
    fn finish(&mut self, p: Partner, period: u32) -> (r: Option<QsoRecord>)
        ensures
            (final(self)@, log_view(r)) == finished(old(self)@, p@, period),
    {
        let ghost r0 = self@.recent;
        self.partner = None;
        let k: usize = find_recent(&self.recent, &p.call);
        let n: usize = vec_slice(&self.recent).len();
        let mut out: Option<QsoRecord> = None;
        if k >= n {
            out = Some(
                QsoRecord {
                    call: text_clone(&p.call),
                    grid: text_clone(&p.grid),
                    rst_sent: p.rst_sent,
                    rst_rcvd: p.rst_rcvd,
                    on_period: p.first_period,
                    off_period: period,
                },
            );
            if self.logged < u16::MAX {
                self.logged = self.logged + 1;
            }
            if n >= RECENT_MAX {
                let ghost before = recent_items(self.recent);
                let _x = vec_remove(&mut self.recent, 0);
                assert(recents(recent_items(self.recent)) =~= recents(before).remove(0));
            }
            let ghost before = recent_items(self.recent);
            let entry = Recent { call: text_clone(&p.call), period };
            let ghost ev = entry@;
            let _ok = vec_push(&mut self.recent, entry);
            assert(recents(recent_items(self.recent)) =~= recents(before).push(ev));
        } else {
            let ghost before = recent_items(self.recent);
            let entry = Recent { call: text_clone(&p.call), period };
            let ghost ev = entry@;
            vec_set(&mut self.recent, k, entry);
            assert(recents(recent_items(self.recent)) =~= recents(before).update(k as int, ev));
        }
        self.phase = Phase::Cq;
        if self.cfg.target_qsos > 0 && self.logged >= self.cfg.target_qsos {
            self.phase = Phase::Done;
            self.done_at = period;
        }
        out
    }

    /// The partner a message makes, taken out of the state.
    fn take_partner(&mut self, period: u32, h: &Heard) -> (r: Partner)
        ensures
            ({
                let (dropped, p) = partner_for(old(self)@, period, h@);
                &&& r@ == p
                &&& final(self)@ == (ActView { dropped, partner: None, ..old(self)@ })
            }),
    {
        if let Some(mut p) = self.partner.take() {
            if same_call(&p.call, &h.from) {
                p.last_heard = period;
                return p;
            }
        }
        let k: usize = find_dropped(&self.dropped, &h.from);
        if k < vec_slice(&self.dropped).len() {
            let ghost before = dropped_items(self.dropped);
            let mut p = vec_remove(&mut self.dropped, k);
            assert(partners(dropped_items(self.dropped)) =~= partners(before).remove(k as int));
            p.last_heard = period;
            return p;
        }
        Partner {
            call: text_clone(&h.from),
            grid: text6_new(),
            rst_sent: clamp_report(h.snr),
            rst_rcvd: None,
            first_period: period,
            last_heard: period,
            last_tx: TxMsg::Cq,
        }
    }

    /// The contact goes on: the partner with the message last sent.
    fn keep_working(&mut self, p: Partner, tx: &TxMsg)
        ensures
            final(self)@ == working(old(self)@, p@, tx@),
    {
        let mut q = p;
        q.last_tx = tx.clone();
        self.partner = Some(q);
        if self.phase == Phase::Cq {
            self.phase = Phase::Working;
        }
    }

    /// The reply to a message.
    fn reply(&mut self, period: u32, h: &Heard) -> (r: (Option<QsoRecord>, Option<TxMsg>))
        ensures
            (final(self)@, log_view(r.0), tx_view(r.1)) == replied(old(self)@, period, h@),
    {
        let rst: i8 = clamp_report(h.snr);
        let mut p = self.take_partner(period, h);
        let to = text_str(&h.from);
        proof {
            lemma_short_exchanges();
        }
        match &h.exchange {
            Exchange::Bare | Exchange::Grid(_) => {
                if let Exchange::Grid(g) = &h.exchange {
                    p.grid = text_clone(g);
                }
                remove_recent(&mut self.recent, &h.from);
                p.rst_sent = rst;
                let e = report(p.rst_sent, false);
                let tx = std_msg(to, e.as_str());
                if let Some(t) = &tx {
                    self.keep_working(p, t);
                }
                (None, tx)
            },
            Exchange::Report(v) => {
                remove_recent(&mut self.recent, &h.from);
                p.rst_rcvd = Some(*v);
                let e = report(p.rst_sent, true);
                let tx = std_msg(to, e.as_str());
                if let Some(t) = &tx {
                    self.keep_working(p, t);
                }
                (None, tx)
            },
            Exchange::RReport(v) => {
                p.rst_rcvd = Some(*v);
                let tx = std_msg(to, "RR73");
                let logged = self.finish(p, period);
                (logged, tx)
            },
            Exchange::Rrr | Exchange::Rr73 => {
                let tx = std_msg(to, "73");
                let logged = self.finish(p, period);
                (logged, tx)
            },
            Exchange::S73 => (None, None),
        }
    }

    fn cq(&mut self) -> (r: Option<TxMsg>)
        ensures
            (final(self)@, tx_view(r)) == called_cq(old(self)@),
    {
        self.phase = Phase::Cq;
        if self.idle < u16::MAX {
            self.idle = self.idle + 1;
        }
        if self.cfg.idle_stop_periods > 0 && self.idle > self.cfg.idle_stop_periods {
            self.phase = Phase::Stopped;
            return None;
        }
        Some(TxMsg::Cq)
    }

    /// Answer the best of this period's callers and the waiting ones, or
    /// call CQ.
    fn next_caller_or_cq(&mut self, period: u32, heard: &[Heard]) -> (r: (
        Option<QsoRecord>,
        Option<TxMsg>,
    ))
        ensures
            (final(self)@, log_view(r.0), tx_view(r.1)) == next_or_cq(
                old(self)@,
                period,
                heards(heard@),
            ),
    {
        let pool = build_pool(heard, &self.pending);
        match pick(&pool) {
            Some(h) => {
                remove_pending(&mut self.pending, &h.from);
                let r = self.reply(period, &h);
                queue_others(&mut self.pending, heard, period, &h.from);
                self.idle = 0;
                r
            },
            None => {
                let tx = self.cq();
                (None, tx)
            },
        }
    }

    fn decide_active(&mut self, period: u32, heard: &[Heard]) -> (r: (
        Option<QsoRecord>,
        Option<TxMsg>,
    ))
        ensures
            (final(self)@, log_view(r.0), tx_view(r.1)) == active(
                old(self)@,
                period,
                heards(heard@),
            ),
    {
        expire_pending(&mut self.pending, period);
        expire_recent(&mut self.recent, period);
        let ghost s = self@;
        let call = match &self.partner {
            Some(p) => text_clone(&p.call),
            None => {
                return self.next_caller_or_cq(period, heard);
            },
        };
        if let Some(i) = best_from(heard, &call) {
            let (logged, tx) = self.reply(period, &heard[i]);
            queue_others(&mut self.pending, heard, period, &call);
            if tx.is_some() {
                return (logged, tx);
            }
            let nobody: [Heard; 0] = [];
            assert(heards(nobody@) =~= Seq::<HeardView>::empty());
            return self.next_caller_or_cq(period, nobody.as_slice());
        }
        if let Some(p) = self.partner.take() {
            let quiet = is_quiet(period, p.last_heard, self.cfg.give_up_periods);
            if !quiet {
                let tx = p.last_tx.clone();
                self.partner = Some(p);
                queue_others(&mut self.pending, heard, period, &call);
                return (None, Some(tx));
            }
            if vec_slice(&self.dropped).len() >= DROPPED_MAX {
                let ghost before = dropped_items(self.dropped);
                let _x = vec_remove(&mut self.dropped, 0);
                assert(partners(dropped_items(self.dropped)) =~= partners(before).remove(0));
            }
            let ghost before = dropped_items(self.dropped);
            let ghost pv = p@;
            let _ok = vec_push(&mut self.dropped, p);
            assert(partners(dropped_items(self.dropped)) =~= partners(before).push(pv));
        }
        self.next_caller_or_cq(period, heard)
    }

    /// Target reached: no new contacts, but a logged partner who repeats a
    /// rogered report still gets RR73 for a while.
    fn decide_done(&mut self, period: u32, heard: &[Heard]) -> (r: Option<TxMsg>)
        ensures
            (final(self)@, tx_view(r)) == done(old(self)@, period, heards(heard@)),
    {
        if !is_since(period, self.done_at, self.cfg.grace_periods as u32) {
            self.phase = Phase::Stopped;
            return None;
        }
        let ghost h = heards(heard@);
        let mut i: usize = 0;
        assert(h.skip(0) =~= h);
        while i < heard.len()
            invariant
                i <= heard.len(),
                h == heards(heard@),
                self@ == old(self)@,
                repeated(self@.recent, h) == repeated(self@.recent, h.skip(i as int)),
                since(period, self@.done_at) <= self@.cfg.grace_periods,
            decreases heard.len() - i,
        {
            proof {
                assert(h.skip(i as int)[0] == heard@[i as int]@);
                assert(h.skip(i as int).skip(1) =~= h.skip(i + 1));
            }
            let rogered = match &heard[i].exchange {
                Exchange::RReport(_) => true,
                _ => false,
            };
            let k: usize = find_recent(&self.recent, &heard[i].from);
            if rogered && k < vec_slice(&self.recent).len() {
                proof {
                    lemma_short_exchanges();
                }
                return std_msg(text_str(&heard[i].from), "RR73");
            }
            i += 1;
        }
        None
    }

    /// Decide what to send in own period `period`, given every message
    /// addressed to this station decoded since the last call.
    pub fn decide(&mut self, period: u32, heard: &[Heard]) -> (r: Decision)
        ensures
            (final(self)@, log_view(r.logged), tx_view(r.tx)) == decided(
                old(self)@,
                period,
                heards(heard@),
            ),
            r.phase == final(self)@.phase,
            r.logged_total == final(self)@.logged,
    {
        let (logged, tx) = match self.phase {
            Phase::Stopped => (None, None),
            Phase::Done => (None, self.decide_done(period, heard)),
            Phase::Cq | Phase::Working => self.decide_active(period, heard),
        };
        Decision { tx, logged, phase: self.phase, logged_total: self.logged }
    }
}

fn is_quiet(period: u32, last_heard: u32, give_up: u8) -> (r: bool)
    ensures
        r == (since(period, last_heard) >= give_up),
{
    if period >= last_heard {
        period - last_heard >= give_up as u32
    } else {
        give_up == 0
    }
}

}
