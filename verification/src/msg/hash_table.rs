//! Callsign hash table for resolving `<...>` placeholders.
//!
//! Messages name a station by one of three hashes of its callsign:
//! - **22-bit** — packed inside a 28-bit callsign token;
//! - **12-bit** — messages with one non-standard call;
//! - **10-bit** — DXpedition messages.
//!
//! The table is filled as callsigns are decoded and answers what a later
//! hash stands for. The 10- and 12-bit tables are indexed by the hash, a
//! collision overwriting; the 22-bit table keeps the thousand most recently
//! heard, most recent first.

use crate::alphabet::idx38;
use crate::alphabet::index38;
use crate::radix::value;
use crate::text::{ascii_upper, chars_of, has_prefix, is_str, string_of, trimmed};
use crate::text::{ends_with, starts_with, to_upper, trim};
use vstd::arithmetic::power2::pow2;
use vstd::prelude::*;
use vstd::utf8::{decode_utf8, encode_utf8, valid_utf8};

verus! {

/// Multiplier of the multiplicative hash.
pub const HASH_MAGIC: u64 = 47_055_833_459;

/// Most entries the 22-bit table holds.
pub const MAX_HASH22: usize = 1000;

/// Slots in the 10-bit table: the whole key space.
pub const N_HASH10: usize = 1024;

/// Slots in the 12-bit table: the whole key space.
pub const N_HASH12: usize = 4096;

/// `core::str::from_utf8`: the text with these bytes, or nothing when they
/// are not well-formed UTF-8.
#[verifier::external_body]
fn utf8_str(b: &[u8]) -> (r: Option<&str>)
    ensures
        match r {
            Some(s) => valid_utf8(b@) && s@ == decode_utf8(b@),
            None => !valid_utf8(b@),
        },
{
    core::str::from_utf8(b).ok()
}

// ── The hash ────────────────────────────────────────────────────────────────

/// The base-38 digit of place `i` of an eleven-place callsign: spaces after
/// the end, and zero for what the alphabet does not hold.
pub open spec fn hash_digit(b: Seq<u8>, i: int) -> nat {
    if 0 <= i < b.len() {
        match idx38(to_upper(b[i] as char)) {
            Some(j) => j,
            None => 0,
        }
    } else {
        0
    }
}

/// The first eleven places of `b` as a base-38 number.
pub open spec fn hash_number(b: Seq<u8>) -> nat {
    value(Seq::new(11, |i: int| hash_digit(b, i)), 38)
}

/// The top `m` bits of the 64-bit product, kept to 32 bits.
pub open spec fn hash_bits(b: Seq<u8>, m: nat) -> nat {
    ((hash_number(b) * HASH_MAGIC) as nat % 0x1_0000_0000_0000_0000 / pow2((64 - m) as nat))
        % 0x1_0000_0000
}

proof fn lemma_prefix_value(d: Seq<nat>, i: int)
    requires
        0 <= i < d.len(),
    ensures
        value(d.take(i + 1), 38) == value(d.take(i), 38) * 38 + d[i],
{
    assert(d.take(i + 1).drop_last() =~= d.take(i));
}

/// The callsign hash at a bit width: 10, 12 or 22 for the tables.
///
/// The callsign stands at the left of 11 places, with spaces after it, and
/// is taken as a base-38 number and multiplied; the hash is the top `m` bits
/// of the 64-bit product.
///
/// With the spaces in front, callsigns that differ only at their end would
/// share their hashes: the last places weigh too little to reach the top
/// bits.
pub fn ihashcall(call: &str, m: u32) -> (r: u32)
    requires
        1 <= m <= 64,
    ensures
        r == hash_bits(encode_utf8(call@), m as nat),
        m <= 32 ==> r < pow2(m as nat),
{
    let bytes = call.as_bytes();
    let ghost d = Seq::new(11, |i: int| hash_digit(bytes@, i));
    let mut n64: u64 = 0;
    let mut i: usize = 0;
    let mut cap: u64 = 1;
    proof {
        assert(d.take(0) =~= Seq::<nat>::empty());
    }
    while i < 11
        invariant
            i <= 11,
            d == Seq::new(11, |i: int| hash_digit(bytes@, i)),
            n64 == value(d.take(i as int), 38),
            n64 < cap,
            i == 0 ==> cap == 1,
            i == 1 ==> cap == 38,
            i == 2 ==> cap == 1444,
            i == 3 ==> cap == 54872,
            i == 4 ==> cap == 2085136,
            i == 5 ==> cap == 79235168,
            i == 6 ==> cap == 3010936384,
            i == 7 ==> cap == 114415582592,
            i == 8 ==> cap == 4347792138496,
            i == 9 ==> cap == 165216101262848,
            i == 10 ==> cap == 6278211847988224,
            i == 11 ==> cap == 238572050223552512,
        decreases 11 - i,
    {
        let mut j: u32 = 0;
        if i < bytes.len() {
            if let Some(k) = index38(ascii_upper(bytes[i] as char)) {
                j = k;
            }
        }
        assert(d[i as int] == j);
        proof {
            lemma_prefix_value(d, i as int);
        }
        n64 = n64 * 38 + j as u64;
        cap = cap * 38;
        i += 1;
    }
    assert(d.take(11) =~= d);
    let hash64: u64 = n64.wrapping_mul(HASH_MAGIC);
    let s: u64 = (64 - m) as u64;
    let top: u64 = hash64 >> s;
    proof {
        vstd::bits::lemma_u64_shr_is_div(hash64, s);
        assert(top as u32 == top % 0x1_0000_0000) by (bit_vector);
        if m <= 32 {
            vstd::arithmetic::power2::lemma_pow2_adds(m as nat, (64 - m) as nat);
            vstd::arithmetic::power2::lemma2_to64_rest();
            vstd::arithmetic::power2::lemma_pow2_pos((64 - m) as nat);
            let p = pow2((64 - m) as nat) as int;
            let q = pow2(m as nat) as int;
            assert(top < q) by (nonlinear_arith)
                requires
                    p > 0,
                    top == hash64 as int / p,
                    hash64 < q * p,
            ;
            vstd::arithmetic::power2::lemma2_to64();
            if m < 32 {
                vstd::arithmetic::power2::lemma_pow2_strictly_increases(m as nat, 32);
            }
        }
    }
    top as u32
}

/// Spaces after a callsign, up to eleven places, make no difference to its
/// hash.
pub proof fn law_spaces_after_do_not_show(b: Seq<u8>, n: nat, m: nat)
    requires
        b.len() + n <= 11,
    ensures
        hash_bits(b + Seq::new(n, |i: int| 0x20u8), m) == hash_bits(b, m),
{
    let c = b + Seq::new(n, |i: int| 0x20u8);
    assert(to_upper(0x20u8 as char) == ' ');
    assert(Seq::new(11, |i: int| hash_digit(c, i)) =~= Seq::new(11, |i: int| hash_digit(b, i)));
}

// ── Stored callsigns ────────────────────────────────────────────────────────

/// One stored callsign: thirteen bytes, the rest zero.
#[derive(Debug, Clone, Copy)]
pub struct Call13(pub [u8; 13]);

/// Thirteen zero bytes: nothing stored.
pub open spec fn empty_entry() -> Seq<u8> {
    Seq::new(13, |i: int| 0u8)
}

/// The first thirteen bytes of `b`, zeros after them.
pub open spec fn entry_of(b: Seq<u8>) -> Seq<u8> {
    Seq::new(
        13,
        |i: int|
            if i < b.len() {
                b[i]
            } else {
                0u8
            },
    )
}

/// What stands before the first zero byte.
pub open spec fn before_nul(e: Seq<u8>) -> Seq<u8>
    decreases e.len(),
{
    if e.len() == 0 || e[0] == 0 {
        Seq::empty()
    } else {
        seq![e[0]] + before_nul(e.skip(1))
    }
}

/// The text of an entry; empty when its bytes are not well-formed UTF-8.
pub open spec fn entry_text(e: Seq<u8>) -> Seq<char> {
    if valid_utf8(before_nul(e)) {
        decode_utf8(before_nul(e))
    } else {
        Seq::empty()
    }
}

impl Call13 {
    pub fn empty() -> (r: Call13)
        ensures
            r.0@ == empty_entry(),
    {
        let r = Call13([0u8; 13]);
        assert(r.0@ =~= empty_entry());
        r
    }

    fn from_bytes(b: &[u8]) -> (r: Call13)
        ensures
            r.0@ == entry_of(b@),
    {
        let mut out: [u8; 13] = [0u8; 13];
        let mut i: usize = 0;
        while i < 13 && i < b.len()
            invariant
                i <= 13,
                i <= b.len(),
                forall|j: int|
                    0 <= j < 13 ==> #[trigger] out@[j] == if j < i {
                        b@[j]
                    } else {
                        0u8
                    },
            decreases 13 - i,
        {
            out[i] = b[i];
            i += 1;
        }
        assert(out@ =~= entry_of(b@));
        Call13(out)
    }

    pub fn is_empty(&self) -> (r: bool)
        ensures
            r == (self.0@[0] == 0),
    {
        self.0[0] == 0
    }

    pub fn as_str(&self) -> (r: &str)
        ensures
            r@ == entry_text(self.0@),
    {
        let mut n: usize = 0;
        let ghost e = self.0@;
        proof {
            assert(e.take(0) =~= Seq::<u8>::empty());
            assert(e.skip(0) =~= e);
        }
        while n < 13 && self.0[n] != 0
            invariant
                n <= 13,
                e == self.0@,
                e.len() == 13,
                before_nul(e) == e.take(n as int) + before_nul(e.skip(n as int)),
            decreases 13 - n,
        {
            proof {
                assert(e.skip(n as int).skip(1) =~= e.skip(n + 1));
                assert(e.take(n as int) + (seq![e[n as int]] + before_nul(e.skip(n + 1)))
                    =~= e.take(n + 1) + before_nul(e.skip(n + 1)));
            }
            n += 1;
        }
        assert(before_nul(e) =~= e.take(n as int));
        let head = vstd::slice::slice_subrange(self.0.as_slice(), 0, n);
        assert(head@ =~= before_nul(e));
        match utf8_str(head) {
            Some(s) => s,
            None => {
                proof {
                    reveal_strlit("");
                }
                assert(""@ =~= Seq::<char>::empty());
                ""
            },
        }
    }
}

// ── The table ───────────────────────────────────────────────────────────────

/// What a table holds: both indexed tables slot by slot, and the 22-bit
/// table from the most recent entry on.
pub struct TableView {
    pub allocated: bool,
    pub t10: Seq<Seq<u8>>,
    pub t12: Seq<Seq<u8>>,
    pub lru: Seq<(u32, Seq<u8>)>,
}

/// Callsigns by hash.
///
/// A new table holds no memory; the blocks are allocated by the first
/// insertion.
#[derive(Debug)]
pub struct CallsignHashTable {
    pub calls10: Option<Vec<Call13>>,
    pub calls12: Option<Vec<Call13>>,
    pub calls22: Option<Vec<Call13>>,
    pub hash22: Option<Vec<u32>>,
    pub n22: usize,
}

pub open spec fn slots(t: Option<Vec<Call13>>, n: nat) -> Seq<Seq<u8>> {
    match t {
        Some(v) => Seq::new(n, |i: int| v@[i].0@),
        None => Seq::new(n, |i: int| empty_entry()),
    }
}

pub open spec fn pairs(h: Option<Vec<u32>>, c: Option<Vec<Call13>>, n: nat) -> Seq<
    (u32, Seq<u8>),
> {
    match (h, c) {
        (Some(h), Some(c)) => Seq::new(n, |i: int| (h@[i], c@[i].0@)),
        _ => Seq::empty(),
    }
}

impl View for CallsignHashTable {
    type V = TableView;

    open spec fn view(&self) -> TableView {
        TableView {
            allocated: self.calls10 is Some,
            t10: slots(self.calls10, N_HASH10 as nat),
            t12: slots(self.calls12, N_HASH12 as nat),
            lru: pairs(self.hash22, self.calls22, self.n22 as nat),
        }
    }
}

/// No two entries share a hash.
pub open spec fn distinct_hashes(l: Seq<(u32, Seq<u8>)>) -> bool {
    forall|i: int, j: int| 0 <= i < j < l.len() ==> #[trigger] l[i].0 != #[trigger] l[j].0
}

/// Where hash `h` first stands in the list; its length if nowhere.
pub open spec fn position(l: Seq<(u32, Seq<u8>)>, h: u32) -> int
    decreases l.len(),
{
    if l.len() == 0 || l[0].0 == h {
        0
    } else {
        1 + position(l.skip(1), h)
    }
}

/// `(h, e)` in front; the entry it replaces, or the oldest when the list is
/// full, is gone.
pub open spec fn lru_insert(l: Seq<(u32, Seq<u8>)>, h: u32, e: Seq<u8>) -> Seq<(u32, Seq<u8>)> {
    let p = position(l, h);
    if p < l.len() {
        seq![(h, e)] + l.remove(p)
    } else if l.len() < MAX_HASH22 {
        seq![(h, e)] + l
    } else {
        seq![(h, e)] + l.drop_last()
    }
}

/// The callsign that is stored for `call`: brackets and a `/R` or `/P`
/// suffix removed.
pub open spec fn stored_call(call: Seq<char>) -> Seq<char> {
    let c = trim(call);
    let c = if c.len() > 0 && c[0] == '<' {
        c.skip(1)
    } else {
        c
    };
    let c = if c.len() > 0 && c.last() == '>' {
        c.drop_last()
    } else {
        c
    };
    if ends_with(c, seq!['/', 'R']) || ends_with(c, seq!['/', 'P']) {
        c.take(c.len() - 2)
    } else {
        c
    }
}

/// Whether a callsign is one to keep: at least two bytes, not an unresolved
/// hash, not a CQ.
pub open spec fn storable(base: Seq<char>) -> bool {
    encode_utf8(base).len() >= 2 && base != seq!['.', '.', '.'] && !starts_with(
        base,
        seq!['C', 'Q'],
    )
}

/// The table after `call` has been registered.
pub open spec fn table_insert(t: TableView, call: Seq<char>) -> TableView {
    let base = stored_call(call);
    if storable(base) {
        let b = encode_utf8(base);
        let e = entry_of(b);
        TableView {
            allocated: true,
            t10: t.t10.update(hash_bits(b, 10) as int, e),
            t12: t.t12.update(hash_bits(b, 12) as int, e),
            lru: lru_insert(t.lru, hash_bits(b, 22) as u32, e),
        }
    } else {
        t
    }
}

pub open spec fn table_empty(allocated: bool) -> TableView {
    TableView {
        allocated,
        t10: Seq::new(N_HASH10 as nat, |i: int| empty_entry()),
        t12: Seq::new(N_HASH12 as nat, |i: int| empty_entry()),
        lru: Seq::empty(),
    }
}

pub open spec fn slot_text(t: Seq<Seq<u8>>, n: int) -> Option<Seq<char>> {
    if n < t.len() && t[n][0] != 0 {
        Some(entry_text(t[n]))
    } else {
        None
    }
}

pub open spec fn find10(t: TableView, n: u32) -> Option<Seq<char>> {
    slot_text(t.t10, n as int)
}

pub open spec fn find12(t: TableView, n: u32) -> Option<Seq<char>> {
    slot_text(t.t12, n as int)
}

pub open spec fn find22(t: TableView, n: u32) -> Option<Seq<char>> {
    let p = position(t.lru, n);
    if p < t.lru.len() {
        Some(entry_text(t.lru[p].1))
    } else {
        None
    }
}

/// The text of an answer.
pub open spec fn answer(r: Option<&str>) -> Option<Seq<char>> {
    match r {
        Some(s) => Some(s@),
        None => None,
    }
}

pub proof fn lemma_position(l: Seq<(u32, Seq<u8>)>, h: u32)
    ensures
        0 <= position(l, h) <= l.len(),
        position(l, h) < l.len() ==> l[position(l, h)].0 == h,
        forall|i: int| 0 <= i < position(l, h) ==> #[trigger] l[i].0 != h,
    decreases l.len(),
{
    if l.len() > 0 && l[0].0 != h {
        lemma_position(l.skip(1), h);
        let p = position(l.skip(1), h);
        if p < l.len() - 1 {
            assert(l.skip(1)[p] == l[p + 1]);
        }
        assert forall|i: int| 0 <= i < position(l, h) implies #[trigger] l[i].0 != h by {
            if i > 0 {
                assert(l.skip(1)[i - 1] == l[i]);
            }
        }
    }
}

/// An index with hash `h` and none before it is the position of `h`.
pub proof fn lemma_position_is(l: Seq<(u32, Seq<u8>)>, h: u32, p: int)
    requires
        0 <= p <= l.len(),
        p < l.len() ==> l[p].0 == h,
        forall|i: int| 0 <= i < p ==> #[trigger] l[i].0 != h,
    ensures
        position(l, h) == p,
{
    lemma_position(l, h);
    let q = position(l, h);
    if q < p {
        assert(l[q].0 != h);
    } else if p < q {
        assert(l[p].0 != h);
    }
}

/// The 22-bit table keeps each hash once.
pub proof fn lemma_lru_distinct(l: Seq<(u32, Seq<u8>)>, h: u32, e: Seq<u8>)
    requires
        distinct_hashes(l),
        l.len() <= MAX_HASH22,
    ensures
        distinct_hashes(lru_insert(l, h, e)),
        lru_insert(l, h, e).len() <= MAX_HASH22,
{
    let p = position(l, h);
    let r = lru_insert(l, h, e);
    lemma_position(l, h);
    assert forall|i: int, j: int| 0 <= i < j < r.len() implies #[trigger] r[i].0
        != #[trigger] r[j].0 by {
        let jj = if j - 1 < p {
            j - 1
        } else {
            j
        };
        assert(l[jj].0 == r[j].0);
        if i > 0 {
            let ii = if i - 1 < p {
                i - 1
            } else {
                i
            };
            assert(l[ii].0 == r[i].0);
        }
    }
}

/// The callsign to store for a decoded one.
fn call_to_store(call: &str) -> (r: Vec<char>)
    ensures
        r@ == stored_call(call@),
{
    let all = chars_of(call);
    let t = trimmed(all.as_slice());
    let mut c: &[char] = t.as_slice();
    if c.len() > 0 && c[0] == '<' {
        c = vstd::slice::slice_subrange(c, 1, c.len());
    }
    let ghost c1 = c@;
    assert(c1 =~= if trim(call@).len() > 0 && trim(call@)[0] == '<' {
        trim(call@).skip(1)
    } else {
        trim(call@)
    });
    if c.len() > 0 && c[c.len() - 1] == '>' {
        c = vstd::slice::slice_subrange(c, 0, c.len() - 1);
    }
    let ghost c2 = c@;
    assert(c2 =~= if c1.len() > 0 && c1.last() == '>' {
        c1.drop_last()
    } else {
        c1
    });
    let n: usize = c.len();
    let mut suffixed = false;
    if n >= 2 && c[n - 2] == '/' && (c[n - 1] == 'R' || c[n - 1] == 'P') {
        suffixed = true;
    }
    proof {
        if n >= 2 {
            assert(c2.skip(n - 2) =~= seq![c2[n - 2], c2[n - 1]]);
            assert(c2.skip(n - 2)[0] == c2[n - 2] && c2.skip(n - 2)[1] == c2[n - 1]);
            assert(seq!['/', 'R'][0] == '/' && seq!['/', 'R'][1] == 'R');
            assert(seq!['/', 'P'][0] == '/' && seq!['/', 'P'][1] == 'P');
        }
        assert(suffixed == (ends_with(c2, seq!['/', 'R']) || ends_with(c2, seq!['/', 'P'])));
    }
    if suffixed {
        c = vstd::slice::slice_subrange(c, 0, n - 2);
    }
    let r = vstd::slice::slice_to_vec(c);
    assert(r@ =~= stored_call(call@));
    r
}

/// Empty every slot.
fn wipe(v: &mut Vec<Call13>)
    ensures
        final(v).len() == old(v).len(),
        forall|i: int| 0 <= i < final(v).len() ==> #[trigger] final(v)@[i].0@ == empty_entry(),
{
    let e = Call13::empty();
    let mut i: usize = 0;
    while i < v.len()
        invariant
            i <= v.len(),
            v.len() == old(v).len(),
            e.0@ == empty_entry(),
            forall|j: int| 0 <= j < i ==> #[trigger] v@[j].0@ == empty_entry(),
        decreases v.len() - i,
    {
        v.set(i, e);
        i += 1;
    }
}

impl CallsignHashTable {
    /// The blocks are all there or none is, each of its size, and the
    /// 22-bit table holds each hash once.
    pub open spec fn wf(&self) -> bool {
        &&& self.calls10 is Some == self.calls12 is Some
        &&& self.calls10 is Some == self.calls22 is Some
        &&& self.calls10 is Some == self.hash22 is Some
        &&& self.calls10 matches Some(v) ==> v.len() == N_HASH10
        &&& self.calls12 matches Some(v) ==> v.len() == N_HASH12
        &&& self.calls22 matches Some(v) ==> v.len() == MAX_HASH22
        &&& self.hash22 matches Some(v) ==> v.len() == MAX_HASH22
        &&& self.n22 <= MAX_HASH22
        &&& self.calls10 is None ==> self.n22 == 0
        &&& distinct_hashes(self@.lru)
    }

    /// An empty table. Allocates nothing.
    pub fn new() -> (r: Self)
        ensures
            r.wf(),
            r@ == table_empty(false),
    {
        let r = CallsignHashTable {
            calls10: None,
            calls12: None,
            calls22: None,
            hash22: None,
            n22: 0,
        };
        assert(r@.t10 =~= table_empty(false).t10);
        assert(r@.t12 =~= table_empty(false).t12);
        assert(r@.lru =~= Seq::empty());
        r
    }

    /// Allocate the blocks, if they are not there yet.
    fn ensure(&mut self)
        requires
            old(self).wf(),
        ensures
            final(self).wf(),
            final(self).calls10 is Some,
            final(self).n22 == old(self).n22,
            final(self)@ == (TableView { allocated: true, ..old(self)@ }),
    {
        if self.calls10.is_none() {
            let e = Call13::empty();
            self.calls10 = Some(vec![e; N_HASH10]);
            self.calls12 = Some(vec![e; N_HASH12]);
            self.calls22 = Some(vec![e; MAX_HASH22]);
            self.hash22 = Some(vec![0u32; MAX_HASH22]);
        }
        proof {
            assert(self@.t10 =~= old(self)@.t10);
            assert(self@.t12 =~= old(self)@.t12);
            assert(self@.lru =~= old(self)@.lru);
        }
    }

    /// Put `(n22, entry)` in front of the 22-bit table.
    fn remember22(&mut self, n22: u32, entry: Call13)
        requires
            old(self).wf(),
            old(self).calls10 is Some,
        ensures
            final(self).wf(),
            final(self)@ == (TableView {
                lru: lru_insert(old(self)@.lru, n22, entry.0@),
                ..old(self)@
            }),
    {
        let ghost lru0 = self@.lru;
        let mut hashes = self.hash22.take().unwrap();
        let mut calls = self.calls22.take().unwrap();
        let mut pos: usize = 0;
        while pos < self.n22 && hashes[pos] != n22
            invariant
                pos <= self.n22,
                self.n22 <= MAX_HASH22,
                hashes.len() == MAX_HASH22,
                lru0.len() == self.n22,
                forall|i: int| 0 <= i < self.n22 ==> #[trigger] lru0[i].0 == hashes@[i],
                forall|i: int| 0 <= i < pos ==> #[trigger] lru0[i].0 != n22,
            decreases self.n22 - pos,
        {
            pos += 1;
        }
        proof {
            lemma_position_is(lru0, n22, pos as int);
        }
        if pos == self.n22 {
            if self.n22 < MAX_HASH22 {
                self.n22 = self.n22 + 1;
            } else {
                pos = MAX_HASH22 - 1;
            }
        }
        hashes.remove(pos);
        hashes.insert(0, n22);
        calls.remove(pos);
        calls.insert(0, entry);
        self.hash22 = Some(hashes);
        self.calls22 = Some(calls);
        proof {
            let want = lru_insert(lru0, n22, entry.0@);
            assert(self@.lru =~= want);
            assert(self@.t10 =~= old(self)@.t10);
            assert(self@.t12 =~= old(self)@.t12);
            lemma_lru_distinct(lru0, n22, entry.0@);
        }
    }

    /// Register a decoded callsign in all three tables.
    ///
    /// Brackets and a `/R` or `/P` suffix are removed first. Nothing is
    /// registered for fewer than two bytes, an unresolved `...`, or a CQ.
    pub fn insert(&mut self, call: &str)
        requires
            old(self).wf(),
        ensures
            final(self).wf(),
            final(self)@ == table_insert(old(self)@, call@),
    {
        let c = call_to_store(call);
        let base = string_of(c.as_slice());
        let bytes = base.as_str().as_bytes();
        let dots = is_str(c.as_slice(), "...");
        let cq = has_prefix(c.as_slice(), "CQ");
        proof {
            reveal_strlit("...");
            reveal_strlit("CQ");
            assert("..."@ =~= seq!['.', '.', '.']);
            assert("CQ"@ =~= seq!['C', 'Q']);
        }
        if bytes.len() < 2 || dots || cq {
            return;
        }
        let n10: u32 = ihashcall(base.as_str(), 10);
        let n12: u32 = ihashcall(base.as_str(), 12);
        let n22: u32 = ihashcall(base.as_str(), 22);
        proof {
            vstd::arithmetic::power2::lemma2_to64();
        }
        let entry = Call13::from_bytes(bytes);
        self.ensure();
        let mut c10 = self.calls10.take().unwrap();
        c10.set(n10 as usize, entry);
        self.calls10 = Some(c10);
        let mut c12 = self.calls12.take().unwrap();
        c12.set(n12 as usize, entry);
        self.calls12 = Some(c12);
        proof {
            let want = table_insert(old(self)@, call@);
            assert(self@.t10 =~= want.t10);
            assert(self@.t12 =~= want.t12);
            assert(self@.lru =~= old(self)@.lru);
        }
        self.remember22(n22, entry);
    }

    /// The callsign of a 10-bit hash, if one is known.
    pub fn lookup10(&self, n10: u32) -> (r: Option<&str>)
        requires
            self.wf(),
        ensures
            answer(r) == find10(self@, n10),
    {
        match &self.calls10 {
            Some(t) => {
                if (n10 as usize) < t.len() && !t[n10 as usize].is_empty() {
                    Some(t[n10 as usize].as_str())
                } else {
                    None
                }
            },
            None => None,
        }
    }

    /// The callsign of a 12-bit hash, if one is known.
    pub fn lookup12(&self, n12: u32) -> (r: Option<&str>)
        requires
            self.wf(),
        ensures
            answer(r) == find12(self@, n12),
    {
        match &self.calls12 {
            Some(t) => {
                if (n12 as usize) < t.len() && !t[n12 as usize].is_empty() {
                    Some(t[n12 as usize].as_str())
                } else {
                    None
                }
            },
            None => None,
        }
    }

    /// The callsign of a 22-bit hash, if one is known, without brackets.
    pub fn lookup22(&self, n22: u32) -> (r: Option<&str>)
        requires
            self.wf(),
        ensures
            answer(r) == find22(self@, n22),
    {
        match (&self.hash22, &self.calls22) {
            (Some(hashes), Some(calls)) => {
                let mut pos: usize = 0;
                while pos < self.n22 && hashes[pos] != n22
                    invariant
                        pos <= self.n22,
                        self.n22 <= MAX_HASH22,
                        hashes.len() == MAX_HASH22,
                        self@.lru.len() == self.n22,
                        forall|i: int|
                            0 <= i < self.n22 ==> #[trigger] self@.lru[i].0 == hashes@[i],
                        forall|i: int| 0 <= i < pos ==> #[trigger] self@.lru[i].0 != n22,
                    decreases self.n22 - pos,
                {
                    pos += 1;
                }
                proof {
                    lemma_position_is(self@.lru, n22, pos as int);
                }
                if pos < self.n22 {
                    Some(calls[pos].as_str())
                } else {
                    None
                }
            },
            _ => None,
        }
    }

    /// Forget every entry, keeping the blocks.
    pub fn clear(&mut self)
        requires
            old(self).wf(),
        ensures
            final(self).wf(),
            final(self)@ == table_empty(old(self)@.allocated),
    {
        if let Some(t) = &mut self.calls10 {
            wipe(t);
        }
        if let Some(t) = &mut self.calls12 {
            wipe(t);
        }
        if let Some(t) = &mut self.calls22 {
            wipe(t);
        }
        self.n22 = 0;
        proof {
            let want = table_empty(old(self)@.allocated);
            assert(self@.t10 =~= want.t10);
            assert(self@.t12 =~= want.t12);
            assert(self@.lru =~= want.lru);
        }
    }

    /// Number of entries in the 22-bit table.
    pub fn len22(&self) -> (r: usize)
        requires
            self.wf(),
        ensures
            r == self@.lru.len(),
            r <= MAX_HASH22,
    {
        self.n22
    }
}

fn copied<T: Copy>(v: &Option<Vec<T>>) -> (r: Option<Vec<T>>)
    ensures
        match *v {
            Some(x) => r is Some && r->0@ == x@,
            None => r is None,
        },
{
    match v {
        Some(x) => Some(vstd::slice::slice_to_vec(x.as_slice())),
        None => None,
    }
}

impl Clone for CallsignHashTable {
    fn clone(&self) -> (r: Self)
        ensures
            r@ == self@,
            self.wf() ==> r.wf(),
    {
        let r = CallsignHashTable {
            calls10: copied(&self.calls10),
            calls12: copied(&self.calls12),
            calls22: copied(&self.calls22),
            hash22: copied(&self.hash22),
            n22: self.n22,
        };
        proof {
            assert(r@.t10 =~= self@.t10);
            assert(r@.t12 =~= self@.t12);
            assert(r@.lru =~= self@.lru);
        }
        r
    }
}

impl Default for CallsignHashTable {
    fn default() -> (r: Self)
        ensures
            r.wf(),
            r@ == table_empty(false),
    {
        CallsignHashTable::new()
    }
}

// ── Laws ────────────────────────────────────────────────────────────────────

proof fn lemma_before_nul(b: Seq<u8>, z: Seq<u8>)
    requires
        forall|i: int| 0 <= i < b.len() ==> #[trigger] b[i] != 0,
        z.len() > 0 ==> z[0] == 0,
    ensures
        before_nul(b + z) == b,
    decreases b.len(),
{
    if b.len() == 0 {
        assert(b + z =~= z);
        assert(before_nul(z) =~= b);
    } else {
        let t = b.skip(1);
        assert forall|i: int| 0 <= i < t.len() implies #[trigger] t[i] != 0 by {
            assert(b[i + 1] != 0);
        }
        lemma_before_nul(t, z);
        assert((b + z).skip(1) =~= t + z);
        assert((b + z)[0] == b[0]);
        assert(seq![b[0]] + t =~= b);
    }
}

/// A callsign of up to thirteen bytes, none of them zero, is stored whole.
pub proof fn law_entry_keeps_the_call(base: Seq<char>)
    requires
        encode_utf8(base).len() <= 13,
        forall|i: int| 0 <= i < encode_utf8(base).len() ==> #[trigger] encode_utf8(base)[i] != 0,
    ensures
        entry_text(entry_of(encode_utf8(base))) == base,
{
    let b = encode_utf8(base);
    let z = Seq::new((13 - b.len()) as nat, |i: int| 0u8);
    assert(entry_of(b) =~= b + z);
    lemma_before_nul(b, z);
    vstd::utf8::encode_utf8_valid_utf8(base);
    vstd::utf8::encode_utf8_decode_utf8(base);
}

/// A callsign that was just registered is what all three of its hashes
/// resolve to.
pub proof fn law_insert_then_lookup(t: TableView, call: Seq<char>)
    requires
        t.t10.len() == N_HASH10,
        t.t12.len() == N_HASH12,
        storable(stored_call(call)),
        encode_utf8(stored_call(call)).len() <= 13,
        forall|i: int|
            0 <= i < encode_utf8(stored_call(call)).len() ==> #[trigger] encode_utf8(
                stored_call(call),
            )[i] != 0,
    ensures
        ({
            let base = stored_call(call);
            let b = encode_utf8(base);
            let r = table_insert(t, call);
            &&& find10(r, hash_bits(b, 10) as u32) == Some(base)
            &&& find12(r, hash_bits(b, 12) as u32) == Some(base)
            &&& find22(r, hash_bits(b, 22) as u32) == Some(base)
        }),
{
    let base = stored_call(call);
    let b = encode_utf8(base);
    let r = table_insert(t, call);
    law_entry_keeps_the_call(base);
    lemma_hash_bits_bound(b, 10);
    lemma_hash_bits_bound(b, 12);
    vstd::arithmetic::power2::lemma2_to64();
    assert(entry_of(b)[0] == b[0]);
    assert(r.lru[0] == (hash_bits(b, 22) as u32, entry_of(b)));
    lemma_position_is(r.lru, hash_bits(b, 22) as u32, 0);
}

pub proof fn lemma_hash_bits_bound(b: Seq<u8>, m: nat)
    requires
        1 <= m <= 32,
    ensures
        hash_bits(b, m) < pow2(m),
{
    let h = (hash_number(b) * HASH_MAGIC) as nat % 0x1_0000_0000_0000_0000;
    let p = pow2((64 - m) as nat) as int;
    let q = pow2(m) as int;
    vstd::arithmetic::power2::lemma_pow2_adds(m, (64 - m) as nat);
    vstd::arithmetic::power2::lemma2_to64_rest();
    vstd::arithmetic::power2::lemma2_to64();
    vstd::arithmetic::power2::lemma_pow2_pos((64 - m) as nat);
    let top = h as int / p;
    assert(0 <= top < q) by (nonlinear_arith)
        requires
            p > 0,
            top == h as int / p,
            0 <= h < q * p,
    ;
    if m < 32 {
        vstd::arithmetic::power2::lemma_pow2_strictly_increases(m, 32);
    }
}

/// Whether registering a callsign takes the oldest entry's room: its hash is
/// new and the table full.
pub open spec fn makes_room(t: TableView, call: Seq<char>) -> bool {
    let base = stored_call(call);
    &&& storable(base)
    &&& t.lru.len() == MAX_HASH22
    &&& position(t.lru, hash_bits(encode_utf8(base), 22) as u32) == t.lru.len()
}

/// Registering a callsign leaves what another 22-bit hash resolves to as it
/// was, but for the oldest entry of a full table when a new hash needs its
/// room.
pub proof fn law_insert_keeps_the_others(t: TableView, call: Seq<char>, h: u32)
    requires
        distinct_hashes(t.lru),
        t.lru.len() <= MAX_HASH22,
        storable(stored_call(call)) ==> h as nat != hash_bits(
            encode_utf8(stored_call(call)),
            22,
        ),
        makes_room(t, call) ==> t.lru.last().0 != h,
    ensures
        find22(table_insert(t, call), h) == find22(t, h),
{
    let base = stored_call(call);
    if storable(base) {
        let b = encode_utf8(base);
        let n = hash_bits(b, 22) as u32;
        lemma_hash_bits_bound(b, 22);
        vstd::arithmetic::power2::lemma2_to64();
        let r = table_insert(t, call).lru;
        let p = position(t.lru, h);
        let k = position(t.lru, n);
        lemma_position(t.lru, h);
        lemma_position(t.lru, n);
        let q = if p < k { p + 1 } else { p };
        if p < t.lru.len() {
            assert(p != k);
            assert(r[q] == t.lru[p]);
            assert forall|i: int| 0 <= i < q implies #[trigger] r[i].0 != h by {
                if i > 0 {
                    let ii = if i - 1 < k { i - 1 } else { i };
                    assert(r[i] == t.lru[ii]);
                }
            }
            lemma_position_is(r, h, q);
        } else {
            assert forall|i: int| 0 <= i < r.len() implies #[trigger] r[i].0 != h by {
                if i > 0 {
                    let ii = if i - 1 < k { i - 1 } else { i };
                    assert(r[i] == t.lru[ii]);
                }
            }
            lemma_position_is(r, h, r.len() as int);
        }
    }
}

/// A callsign whose hash is already known does not make the table grow; a
/// new one adds one entry until the table is full, and then the table stays
/// full.
pub proof fn law_lru_growth(t: TableView, call: Seq<char>)
    requires
        t.lru.len() <= MAX_HASH22,
        storable(stored_call(call)),
    ensures
        ({
            let n = hash_bits(encode_utf8(stored_call(call)), 22) as u32;
            let after = table_insert(t, call).lru.len();
            &&& position(t.lru, n) < t.lru.len() ==> after == t.lru.len()
            &&& position(t.lru, n) == t.lru.len() && t.lru.len() < MAX_HASH22 ==> after
                == t.lru.len() + 1
            &&& t.lru.len() == MAX_HASH22 ==> after == MAX_HASH22
        }),
{
    let n = hash_bits(encode_utf8(stored_call(call)), 22) as u32;
    lemma_position(t.lru, n);
}

/// A new hash in a full table costs exactly the oldest entry: that one is no
/// longer answered, every other one as before.
pub proof fn law_a_full_table_forgets_its_oldest(t: TableView, call: Seq<char>)
    requires
        distinct_hashes(t.lru),
        makes_room(t, call),
    ensures
        ({
            let n = hash_bits(encode_utf8(stored_call(call)), 22) as u32;
            let r = table_insert(t, call);
            &&& find22(r, t.lru.last().0) is None
            &&& r.lru.skip(1) == t.lru.drop_last()
            &&& forall|h: u32|
                h != n && h != t.lru.last().0 ==> #[trigger] find22(r, h) == find22(t, h)
        }),
{
    let b = encode_utf8(stored_call(call));
    let n = hash_bits(b, 22) as u32;
    let r = table_insert(t, call);
    let old_h = t.lru.last().0;
    lemma_hash_bits_bound(b, 22);
    vstd::arithmetic::power2::lemma2_to64();
    lemma_position(t.lru, n);
    assert(r.lru.skip(1) =~= t.lru.drop_last());
    assert(t.lru[MAX_HASH22 - 1].0 != n);
    assert forall|i: int| 0 <= i < r.lru.len() implies #[trigger] r.lru[i].0 != old_h by {
        if i > 0 {
            assert(r.lru[i] == t.lru[i - 1]);
        }
    }
    lemma_position_is(r.lru, old_h, r.lru.len() as int);
    assert forall|h: u32| h != n && h != old_h implies #[trigger] find22(r, h) == find22(
        t,
        h,
    ) by {
        law_insert_keeps_the_others(t, call, h);
    }
}

/// An empty table, new or cleared, answers nothing.
pub proof fn law_empty_answers_nothing(allocated: bool, n: u32)
    ensures
        find10(table_empty(allocated), n) is None,
        find12(table_empty(allocated), n) is None,
        find22(table_empty(allocated), n) is None,
{
}

/// The shorter hashes of a callsign are the first bits of the longer ones.
pub proof fn law_shorter_hashes_are_the_front_of_longer_ones(b: Seq<u8>)
    ensures
        hash_bits(b, 12) / 4 == hash_bits(b, 10),
        hash_bits(b, 22) / 0x400 == hash_bits(b, 12),
        hash_bits(b, 22) / 0x1000 == hash_bits(b, 10),
{
    lemma_top_bits(b, 10);
    lemma_top_bits(b, 12);
    lemma_top_bits(b, 22);
    vstd::arithmetic::power2::lemma2_to64();
    vstd::arithmetic::power2::lemma_pow2_adds(42, 10);
    vstd::arithmetic::power2::lemma_pow2_adds(42, 12);
    vstd::arithmetic::power2::lemma_pow2_adds(52, 2);
    vstd::arithmetic::power2::lemma_pow2_pos(42);
    vstd::arithmetic::power2::lemma_pow2_pos(52);
    let h = (hash_number(b) * HASH_MAGIC) as nat % 0x1_0000_0000_0000_0000;
    vstd::arithmetic::div_mod::lemma_div_denominator(h as int, pow2(42) as int, 0x400);
    vstd::arithmetic::div_mod::lemma_div_denominator(h as int, pow2(42) as int, 0x1000);
    vstd::arithmetic::div_mod::lemma_div_denominator(h as int, pow2(52) as int, 4);
}

proof fn lemma_top_bits(b: Seq<u8>, m: nat)
    requires
        1 <= m <= 32,
    ensures
        hash_bits(b, m) == (hash_number(b) * HASH_MAGIC) as nat % 0x1_0000_0000_0000_0000 / pow2(
            (64 - m) as nat,
        ),
{
    let h = (hash_number(b) * HASH_MAGIC) as nat % 0x1_0000_0000_0000_0000;
    let p = pow2((64 - m) as nat) as int;
    let q = pow2(m) as int;
    vstd::arithmetic::power2::lemma_pow2_adds(m, (64 - m) as nat);
    vstd::arithmetic::power2::lemma2_to64_rest();
    vstd::arithmetic::power2::lemma2_to64();
    vstd::arithmetic::power2::lemma_pow2_pos((64 - m) as nat);
    let top = h as int / p;
    assert(0 <= top < q) by (nonlinear_arith)
        requires
            p > 0,
            top == h as int / p,
            0 <= h < q * p,
    ;
    if m < 32 {
        vstd::arithmetic::power2::lemma_pow2_strictly_increases(m, 32);
    }
    vstd::arithmetic::div_mod::lemma_small_mod(top as nat, 0x1_0000_0000);
}

/// Case makes no difference to a hash.
pub proof fn law_case_does_not_show_in_a_hash(a: Seq<u8>, b: Seq<u8>, m: nat)
    requires
        a.len() == b.len(),
        forall|i: int| 0 <= i < a.len() ==> to_upper(#[trigger] a[i] as char) == to_upper(b[i] as char),
    ensures
        hash_bits(a, m) == hash_bits(b, m),
{
    assert forall|i: int| 0 <= i < 11 implies #[trigger] hash_digit(a, i) == hash_digit(b, i) by {
        if i < a.len() {
            assert(to_upper(a[i] as char) == to_upper(b[i] as char));
        }
    }
    assert(Seq::new(11, |i: int| hash_digit(a, i)) =~= Seq::new(11, |i: int| hash_digit(b, i)));
}

/// A callsign with nothing to take off is stored as it is; brackets around
/// it, and a `/R` or `/P` behind it, are not stored.
pub proof fn law_brackets_and_portables_are_not_stored(c: Seq<char>)
    requires
        c.len() > 0,
        !crate::text::is_white(c[0]) && !crate::text::is_white(c.last()),
        c[0] != '<',
        c.last() != '>',
        !(c.len() >= 2 && c[c.len() - 2] == '/' && (c.last() == 'R' || c.last() == 'P')),
    ensures
        stored_call(c) == c,
        stored_call(seq!['<'] + c + seq!['>']) == c,
        stored_call(c + seq!['/', 'R']) == c,
        stored_call(c + seq!['/', 'P']) == c,
        stored_call(seq!['<'] + c + seq!['/', 'P'] + seq!['>']) == c,
{
    lemma_no_portable(c);
    crate::text::lemma_trim_tight(c);
    let d = seq!['<'] + c + seq!['>'];
    crate::text::lemma_trim_tight(d);
    assert(d.skip(1).drop_last() =~= c);
    let r = c + seq!['/', 'R'];
    crate::text::lemma_trim_tight(r);
    assert(r.skip(r.len() - 2) =~= seq!['/', 'R']);
    assert(r.take(r.len() - 2) =~= c);
    let p = c + seq!['/', 'P'];
    crate::text::lemma_trim_tight(p);
    assert(p.skip(p.len() - 2) =~= seq!['/', 'P']);
    assert(p.take(p.len() - 2) =~= c);
    let e = seq!['<'] + c + seq!['/', 'P'] + seq!['>'];
    crate::text::lemma_trim_tight(e);
    assert(e.skip(1).drop_last() =~= p);
}

proof fn lemma_no_portable(c: Seq<char>)
    requires
        !(c.len() >= 2 && c[c.len() - 2] == '/' && (c.last() == 'R' || c.last() == 'P')),
    ensures
        !ends_with(c, seq!['/', 'R']),
        !ends_with(c, seq!['/', 'P']),
{
    if c.len() >= 2 {
        let t = c.skip(c.len() - 2);
        assert(t[0] == c[c.len() - 2] && t[1] == c.last());
        assert(seq!['/', 'R'][0] == '/' && seq!['/', 'R'][1] == 'R');
        assert(seq!['/', 'P'][0] == '/' && seq!['/', 'P'][1] == 'P');
    }
}

/// An unresolved hash, a CQ and a single character are not registered.
pub proof fn law_no_callsign_is_not_registered(t: TableView, call: Seq<char>)
    requires
        ({
            let c = stored_call(call);
            c == seq!['.', '.', '.'] || (c.len() >= 2 && c[0] == 'C' && c[1] == 'Q') || encode_utf8(
                c,
            ).len() < 2
        }),
    ensures
        table_insert(t, call) == t,
{
    let c = stored_call(call);
    if c.len() >= 2 && c[0] == 'C' && c[1] == 'Q' {
        assert(c.take(2) =~= seq!['C', 'Q']);
    }
}

/// What is registered comes first in the list, and the others keep their
/// order behind it, without an earlier entry of the same hash. The slots of
/// other hashes stay as they were.
pub proof fn law_the_newest_comes_first(t: TableView, call: Seq<char>, k: int, n: u32)
    requires
        t.t10.len() == N_HASH10,
        t.t12.len() == N_HASH12,
        t.lru.len() <= MAX_HASH22,
        storable(stored_call(call)),
    ensures
        ({
            let b = encode_utf8(stored_call(call));
            let h = hash_bits(b, 22) as u32;
            let r = table_insert(t, call);
            &&& r.lru.len() > 0 && r.lru[0] == (h, entry_of(b))
            &&& 0 <= k < t.lru.len() && t.lru[k].0 == h && (forall|i: int|
                0 <= i < k ==> (#[trigger] t.lru[i]).0 != h) ==> r.lru.skip(1) == t.lru.take(k)
                + t.lru.skip(k + 1)
            &&& t.lru.len() < MAX_HASH22 && (forall|i: int|
                0 <= i < t.lru.len() ==> (#[trigger] t.lru[i]).0 != h) ==> r.lru.skip(1) == t.lru
            &&& n != hash_bits(b, 10) ==> find10(r, n) == find10(t, n)
            &&& n != hash_bits(b, 12) ==> find12(r, n) == find12(t, n)
        }),
{
    let b = encode_utf8(stored_call(call));
    let h = hash_bits(b, 22) as u32;
    let r = table_insert(t, call);
    lemma_position(t.lru, h);
    lemma_hash_bits_bound(b, 10);
    lemma_hash_bits_bound(b, 12);
    vstd::arithmetic::power2::lemma2_to64();
    if 0 <= k < t.lru.len() && t.lru[k].0 == h && (forall|i: int|
        0 <= i < k ==> (#[trigger] t.lru[i]).0 != h) {
        lemma_position_is(t.lru, h, k);
        assert(r.lru.skip(1) =~= t.lru.take(k) + t.lru.skip(k + 1));
    }
    if t.lru.len() < MAX_HASH22 && (forall|i: int|
        0 <= i < t.lru.len() ==> (#[trigger] t.lru[i]).0 != h) {
        lemma_position_is(t.lru, h, t.lru.len() as int);
        assert(r.lru.skip(1) =~= t.lru);
    }
}

/// Every other text of two bytes or more is registered.
pub proof fn law_callsigns_are_registered(t: TableView, call: Seq<char>)
    requires
        ({
            let c = stored_call(call);
            c != seq!['.', '.', '.'] && !(c.len() >= 2 && c[0] == 'C' && c[1] == 'Q')
                && encode_utf8(c).len() >= 2
        }),
    ensures
        ({
            let b = encode_utf8(stored_call(call));
            let r = table_insert(t, call);
            r.allocated && r.lru.len() > 0 && r.lru[0] == (hash_bits(b, 22) as u32, entry_of(b))
        }),
{
    let c = stored_call(call);
    if starts_with(c, seq!['C', 'Q']) {
        assert(c.take(2)[0] == 'C' && c.take(2)[1] == 'Q');
    }
}

}
