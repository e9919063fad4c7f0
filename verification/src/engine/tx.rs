//! From message bits to tones.
//!
//! A frame is a row of symbols: blocks of fixed tones by which a receiver
//! finds it, and data symbols in the gaps between them. A data symbol takes
//! a few bits of the codeword and sends the tone that the Gray map has for
//! them.

use vstd::arithmetic::power2::pow2;
use vstd::prelude::*;

verus! {

// ── Layout ──────────────────────────────────────────────────────────────────

/// A block of fixed tones.
#[derive(Debug)]
pub struct SyncBlock {
    pub start_symbol: u32,
    pub pattern: Vec<u8>,
}

pub struct BlockView {
    pub start: nat,
    pub pattern: Seq<u8>,
}

impl View for SyncBlock {
    type V = BlockView;

    open spec fn view(&self) -> BlockView {
        BlockView { start: self.start_symbol as nat, pattern: self.pattern@ }
    }
}

/// How a protocol lays its frame out.
#[derive(Debug)]
pub struct Layout {
    pub n_symbols: u32,
    pub bits_per_symbol: u32,
    pub gray_map: Vec<u8>,
    pub sync_blocks: Vec<SyncBlock>,
    /// Channel bit `j` carries the codeword bit of this index.
    pub interleave: Option<Vec<u16>>,
    /// Message bits are added to these before the checksum.
    pub scramble: Option<Vec<u8>>,
    /// Bits that the code takes.
    pub info_bits: usize,
}

pub struct FrameView {
    pub n: nat,
    pub bits: nat,
    pub gray: Seq<u8>,
    pub blocks: Seq<BlockView>,
    pub interleave: Option<Seq<u16>>,
    pub scramble: Option<Seq<u8>>,
    pub info_bits: nat,
}

pub open spec fn block_views(v: Seq<SyncBlock>) -> Seq<BlockView> {
    v.map_values(|b: SyncBlock| b@)
}

impl View for Layout {
    type V = FrameView;

    open spec fn view(&self) -> FrameView {
        FrameView {
            n: self.n_symbols as nat,
            bits: self.bits_per_symbol as nat,
            gray: self.gray_map@,
            blocks: block_views(self.sync_blocks@),
            interleave: match self.interleave {
                Some(t) => Some(t@),
                None => None,
            },
            scramble: match self.scramble {
                Some(t) => Some(t@),
                None => None,
            },
            info_bits: self.info_bits as nat,
        }
    }
}

/// The end of a block.
pub open spec fn end(b: BlockView) -> int {
    b.start + b.pattern.len() as int
}

/// The blocks stand in order, apart from each other and inside the frame.
pub open spec fn blocks_ok(f: FrameView) -> bool {
    &&& forall|i: int| 0 <= i < f.blocks.len() ==> end(#[trigger] f.blocks[i]) <= f.n
    &&& forall|i: int, j: int|
        0 <= i < j < f.blocks.len() ==> end(#[trigger] f.blocks[i]) <= (#[trigger] f.blocks[j]).start
}

/// The fixed tone at a symbol, if there is one.
pub open spec fn sync_tone(blocks: Seq<BlockView>, s: int) -> Option<u8>
    decreases blocks.len(),
{
    if blocks.len() == 0 {
        None
    } else {
        let b = blocks.last();
        if b.start <= s < end(b) {
            Some(b.pattern[s - b.start])
        } else {
            sync_tone(blocks.drop_last(), s)
        }
    }
}

/// Symbols of a block before `s`.
pub open spec fn before(b: BlockView, s: int) -> int {
    if s <= b.start {
        0
    } else if s >= end(b) {
        b.pattern.len() as int
    } else {
        s - b.start
    }
}

/// Fixed symbols before `s`.
pub open spec fn sync_before(blocks: Seq<BlockView>, s: int) -> int
    decreases blocks.len(),
{
    if blocks.len() == 0 {
        0
    } else {
        sync_before(blocks.drop_last(), s) + before(blocks.last(), s)
    }
}

/// The number of the data symbol at `s`, counted from 0.
pub open spec fn data_index(f: FrameView, s: int) -> int {
    s - sync_before(f.blocks, s)
}

/// Data symbols in the frame.
pub open spec fn data_symbols(f: FrameView) -> int {
    f.n - sync_before(f.blocks, f.n as int)
}

// ── Chunks ──────────────────────────────────────────────────────────────────

/// The stretch of data from `a` to `b`, if there is any.
pub open spec fn gap(a: int, b: int) -> Seq<(int, int)> {
    if b > a {
        seq![(a, b - a)]
    } else {
        Seq::empty()
    }
}

/// The stretches of data before block `i`.
pub open spec fn chunks_before(blocks: Seq<BlockView>, i: int) -> Seq<(int, int)>
    decreases i,
{
    if i <= 0 {
        gap(0, blocks[0].start as int)
    } else {
        chunks_before(blocks, i - 1) + gap(end(blocks[i - 1]), blocks[i].start as int)
    }
}

/// The stretches of data in a frame, each as its first symbol and its
/// length: before the first block, between the blocks, after the last.
pub open spec fn chunks(f: FrameView) -> Seq<(int, int)> {
    if f.blocks.len() == 0 {
        gap(0, f.n as int)
    } else {
        chunks_before(f.blocks, f.blocks.len() - 1) + gap(end(f.blocks.last()), f.n as int)
    }
}

pub open spec fn as_ints(v: Seq<(usize, usize)>) -> Seq<(int, int)> {
    v.map_values(|c: (usize, usize)| (c.0 as int, c.1 as int))
}

/// A protocol: its layout, its checksum and its code.
pub trait Protocol: Sized {
    fn layout() -> Layout;

    /// The information bits with the checksum filled in, where the message
    /// codec has one for so many bits.
    fn append_crc(info: Vec<u8>) -> Option<Vec<u8>>;

    /// The codeword of information bits.
    fn encode(info: &Vec<u8>) -> Vec<u8>;
}

/// A layout that a protocol gives.
pub open spec fn laid_out<P: Protocol>(l: Layout) -> bool {
    call_ensures(P::layout, (), l)
}

/// A codeword that a protocol gives to information bits.
pub open spec fn coded<P: Protocol>(info: Vec<u8>, cw: Vec<u8>) -> bool {
    call_ensures(P::encode, (&info,), cw)
}

/// What a protocol's checksum makes of information bits.
pub open spec fn checked<P: Protocol>(info: Vec<u8>, full: Option<Vec<u8>>) -> bool {
    call_ensures(P::append_crc, (info,), full)
}

fn add_gap(out: &mut Vec<(usize, usize)>, a: usize, b: usize)
    ensures
        as_ints(final(out)@) == as_ints(old(out)@) + gap(a as int, b as int),
{
    let ghost o = out@;
    if b > a {
        out.push((a, b - a));
    }
    assert(as_ints(out@) =~= as_ints(o) + gap(a as int, b as int));
}

/// The stretches of data of a layout.
pub fn chunks_of(l: &Layout) -> (r: Vec<(usize, usize)>)
    requires
        forall|i: int| 0 <= i < l@.blocks.len() ==> end(#[trigger] l@.blocks[i]) <= usize::MAX,
    ensures
        as_ints(r@) == chunks(l@),
{
    let n: usize = l.n_symbols as usize;
    let mut out: Vec<(usize, usize)> = Vec::new();
    let k: usize = l.sync_blocks.len();
    let ghost blocks = l@.blocks;
    assert(as_ints(out@) =~= Seq::<(int, int)>::empty());
    assert(Seq::<(int, int)>::empty() + gap(0, n as int) =~= gap(0, n as int));
    if k == 0 {
        add_gap(&mut out, 0, n);
        return out;
    }
    assert(blocks[0] == l.sync_blocks@[0]@);
    add_gap(&mut out, 0, l.sync_blocks[0].start_symbol as usize);
    assert(Seq::<(int, int)>::empty() + gap(0, blocks[0].start as int) =~= gap(
        0,
        blocks[0].start as int,
    ));
    let mut i: usize = 0;
    while i + 1 < k
        invariant
            i < k,
            k == l.sync_blocks@.len(),
            blocks == block_views(l.sync_blocks@),
            forall|j: int| 0 <= j < blocks.len() ==> end(#[trigger] blocks[j]) <= usize::MAX,
            as_ints(out@) == chunks_before(blocks, i as int),
        decreases k - i,
    {
        assert(blocks[i as int] == l.sync_blocks@[i as int]@);
        assert(blocks[i + 1] == l.sync_blocks@[i + 1]@);
        let after: usize = l.sync_blocks[i].start_symbol as usize + l.sync_blocks[i].pattern.len();
        let next: usize = l.sync_blocks[i + 1].start_symbol as usize;
        add_gap(&mut out, after, next);
        i += 1;
    }
    assert(blocks[k - 1] == l.sync_blocks@[k - 1]@);
    let after: usize = l.sync_blocks[k - 1].start_symbol as usize + l.sync_blocks[k
        - 1].pattern.len();
    add_gap(&mut out, after, n);
    out
}

/// Every stretch of data of a protocol's frame, in order: the first symbol
/// and the number of symbols.
pub fn data_chunks<P: Protocol>() -> (r: Vec<(usize, usize)>)
    requires
        call_requires(P::layout, ()),
        forall|l: Layout, i: int|
            #[trigger] laid_out::<P>(l) && 0 <= i < l@.blocks.len() ==> end(
                #[trigger] l@.blocks[i],
            ) <= usize::MAX,
    ensures
        exists|l: Layout| #[trigger] laid_out::<P>(l) && as_ints(r@) == chunks(l@),
{
    let l = P::layout();
    assert(laid_out::<P>(l));
    chunks_of(&l)
}

// ── What the chunks are ─────────────────────────────────────────────────────

/// Symbols in the first `c` stretches.
pub open spec fn symbols_in(list: Seq<(int, int)>, c: int) -> int
    decreases c,
{
    if c <= 0 {
        0
    } else {
        symbols_in(list, c - 1) + list[c - 1].1
    }
}

/// The end of the stretch before `c`, or the start of the frame.
pub open spec fn prev_end(list: Seq<(int, int)>, c: int) -> int {
    if c <= 0 {
        0
    } else {
        list[c - 1].0 + list[c - 1].1
    }
}

/// A stretch holds data only, follows the one before it with nothing but
/// fixed symbols between them, and the symbols before it are counted right.
pub open spec fn chunk_ok(f: FrameView, list: Seq<(int, int)>, c: int) -> bool {
    let (start, len) = list[c];
    &&& prev_end(list, c) <= start
    &&& len > 0
    &&& forall|s: int| prev_end(list, c) <= s < start ==> (#[trigger] sync_tone(f.blocks, s)) is Some
    &&& forall|s: int|
        start <= s < start + len ==> (#[trigger] sync_tone(f.blocks, s)) is None && sync_before(
            f.blocks,
            s,
        ) == sync_before(f.blocks, start)
    &&& symbols_in(list, c) == start - sync_before(f.blocks, start)
}

/// The stretches account for the frame up to `upto`.
pub open spec fn covers(f: FrameView, list: Seq<(int, int)>, upto: int) -> bool {
    let last = prev_end(list, list.len() as int);
    &&& forall|c: int| 0 <= c < list.len() ==> #[trigger] chunk_ok(f, list, c)
    &&& last <= upto
    &&& forall|s: int| last <= s < upto ==> (#[trigger] sync_tone(f.blocks, s)) is Some
    &&& symbols_in(list, list.len() as int) == upto - sync_before(f.blocks, upto)
}

proof fn lemma_sync_at(f: FrameView, i: int, s: int)
    requires
        blocks_ok(f),
        0 <= i < f.blocks.len(),
        f.blocks[i].start <= s < end(f.blocks[i]),
    ensures
        sync_tone(f.blocks, s) == Some(f.blocks[i].pattern[s - f.blocks[i].start]),
{
    lemma_sync_at_prefix(f, f.blocks.len() as int, i, s);
    assert(f.blocks.take(f.blocks.len() as int) =~= f.blocks);
}

proof fn lemma_sync_at_prefix(f: FrameView, m: int, i: int, s: int)
    requires
        blocks_ok(f),
        0 <= i < m <= f.blocks.len(),
        f.blocks[i].start <= s < end(f.blocks[i]),
    ensures
        sync_tone(f.blocks.take(m), s) == Some(f.blocks[i].pattern[s - f.blocks[i].start]),
    decreases m,
{
    let p = f.blocks.take(m);
    assert(p.last() == f.blocks[m - 1]);
    assert(p.drop_last() =~= f.blocks.take(m - 1));
    if i < m - 1 {
        lemma_sync_at_prefix(f, m - 1, i, s);
    }
}

/// Between block `i - 1` and block `i` there is no fixed tone, and all
/// fixed symbols before are those of the first `i` blocks.
proof fn lemma_between(f: FrameView, m: int, i: int, s: int)
    requires
        blocks_ok(f),
        0 <= i <= m <= f.blocks.len(),
        i > 0 ==> end(f.blocks[i - 1]) <= s,
        i < m ==> s < f.blocks[i].start,
        s >= 0,
    ensures
        sync_tone(f.blocks.take(m), s) is None,
        sync_before(f.blocks.take(m), s) == block_symbols(f.blocks, i),
    decreases m,
{
    let p = f.blocks.take(m);
    if m > 0 {
        assert(p.last() == f.blocks[m - 1]);
        assert(p.drop_last() =~= f.blocks.take(m - 1));
        if i < m {
            assert(i < m - 1 ==> end(f.blocks[i]) <= f.blocks[m - 1].start);
            lemma_between(f, m - 1, i, s);
        } else {
            if i - 1 > 0 {
                assert(end(f.blocks[i - 2]) <= f.blocks[i - 1].start);
            }
            lemma_between(f, m - 1, i - 1, s);
        }
    }
}

/// Symbols of the first `i` blocks.
pub open spec fn block_symbols(blocks: Seq<BlockView>, i: int) -> int
    decreases i,
{
    if i <= 0 {
        0
    } else {
        block_symbols(blocks, i - 1) + blocks[i - 1].pattern.len()
    }
}

/// At the end of block `i - 1`, or anywhere up to the start of block `i`.
proof fn lemma_before_block(f: FrameView, i: int, s: int)
    requires
        blocks_ok(f),
        0 <= i <= f.blocks.len(),
        i > 0 ==> end(f.blocks[i - 1]) <= s,
        i < f.blocks.len() ==> s <= f.blocks[i].start,
        s >= 0,
    ensures
        sync_before(f.blocks, s) == block_symbols(f.blocks, i),
{
    lemma_count_prefix(f, f.blocks.len() as int, i, s);
    assert(f.blocks.take(f.blocks.len() as int) =~= f.blocks);
}

proof fn lemma_count_prefix(f: FrameView, m: int, i: int, s: int)
    requires
        blocks_ok(f),
        0 <= i <= m <= f.blocks.len(),
        i > 0 ==> end(f.blocks[i - 1]) <= s,
        i < m ==> s <= f.blocks[i].start,
        s >= 0,
    ensures
        sync_before(f.blocks.take(m), s) == block_symbols(f.blocks, i),
    decreases m,
{
    let p = f.blocks.take(m);
    if m > 0 {
        assert(p.last() == f.blocks[m - 1]);
        assert(p.drop_last() =~= f.blocks.take(m - 1));
        if i < m {
            assert(i < m - 1 ==> end(f.blocks[i]) <= f.blocks[m - 1].start);
            lemma_count_prefix(f, m - 1, i, s);
        } else {
            if i - 1 > 0 {
                assert(end(f.blocks[i - 2]) <= f.blocks[i - 1].start);
            }
            lemma_count_prefix(f, m - 1, i - 1, s);
        }
    }
}

/// Data from `a` to `b`, between block `i - 1` and block `i`.
proof fn lemma_cover_gap(f: FrameView, list: Seq<(int, int)>, i: int, a: int, b: int)
    requires
        blocks_ok(f),
        0 <= i <= f.blocks.len(),
        0 <= a <= b,
        a == if i > 0 {
            end(f.blocks[i - 1])
        } else {
            0
        },
        i < f.blocks.len() ==> b == f.blocks[i].start,
        covers(f, list, a),
    ensures
        covers(f, list + gap(a, b), b),
{
    let l2 = list + gap(a, b);
    let m = f.blocks.len() as int;
    assert(f.blocks.take(m) =~= f.blocks);
    if b > a {
        assert forall|s: int| a <= s < b implies (#[trigger] sync_tone(f.blocks, s)) is None
            && sync_before(f.blocks, s) == block_symbols(f.blocks, i) by {
            lemma_between(f, m, i, s);
        }
        lemma_before_block(f, i, a);
        lemma_before_block(f, i, b);
        let k = list.len() as int;
        assert(l2 =~= list.push((a, b - a)));
        lemma_symbols_prefix(list, l2, k);
        assert forall|c: int| 0 <= c < l2.len() implies #[trigger] chunk_ok(f, l2, c) by {
            if c < k {
                assert(chunk_ok(f, list, c));
                assert(prev_end(l2, c) == prev_end(list, c));
                lemma_symbols_prefix(list, l2, c);
            } else {
                assert(prev_end(l2, c) == prev_end(list, k));
            }
        }
    } else {
        assert(l2 =~= list);
    }
}

/// The fixed symbols of block `i`.
proof fn lemma_cover_block(f: FrameView, list: Seq<(int, int)>, i: int)
    requires
        blocks_ok(f),
        0 <= i < f.blocks.len(),
        covers(f, list, f.blocks[i].start as int),
    ensures
        covers(f, list, end(f.blocks[i])),
{
    let a = f.blocks[i].start as int;
    let b = end(f.blocks[i]);
    assert forall|s: int| a <= s < b implies (#[trigger] sync_tone(f.blocks, s)) is Some by {
        lemma_sync_at(f, i, s);
    }
    if i > 0 {
        assert(end(f.blocks[i - 1]) <= f.blocks[i].start);
    }
    if i + 1 < f.blocks.len() {
        assert(end(f.blocks[i]) <= f.blocks[i + 1].start);
    }
    lemma_before_block(f, i, a);
    lemma_before_block(f, i + 1, b);
}

proof fn lemma_symbols_prefix(a: Seq<(int, int)>, b: Seq<(int, int)>, c: int)
    requires
        0 <= c <= a.len() <= b.len(),
        forall|i: int| 0 <= i < a.len() ==> a[i] == #[trigger] b[i],
    ensures
        symbols_in(a, c) == symbols_in(b, c),
    decreases c,
{
    if c > 0 {
        lemma_symbols_prefix(a, b, c - 1);
        assert(a[c - 1] == b[c - 1]);
    }
}

proof fn lemma_cover_before(f: FrameView, i: int)
    requires
        blocks_ok(f),
        0 <= i < f.blocks.len(),
    ensures
        covers(f, chunks_before(f.blocks, i), f.blocks[i].start as int),
    decreases i,
{
    if i > 0 {
        lemma_cover_before(f, i - 1);
        lemma_cover_block(f, chunks_before(f.blocks, i - 1), i - 1);
        assert(end(f.blocks[i - 1]) <= f.blocks[i].start);
        lemma_cover_gap(
            f,
            chunks_before(f.blocks, i - 1),
            i,
            end(f.blocks[i - 1]),
            f.blocks[i].start as int,
        );
    } else {
        let e = Seq::<(int, int)>::empty();
        lemma_before_block(f, 0, 0);
        assert(covers(f, e, 0));
        lemma_cover_gap(f, e, 0, 0, f.blocks[0].start as int);
        assert(e + gap(0, f.blocks[0].start as int) =~= chunks_before(f.blocks, 0));
    }
}

/// The stretches of data are exactly the symbols without a fixed tone, in
/// order, and together as many as the frame has data symbols.
pub proof fn law_chunks_are_the_data(f: FrameView)
    requires
        blocks_ok(f),
    ensures
        covers(f, chunks(f), f.n as int),
        symbols_in(chunks(f), chunks(f).len() as int) == data_symbols(f),
{
    let k = f.blocks.len() as int;
    if k == 0 {
        let e = Seq::<(int, int)>::empty();
        assert(covers(f, e, 0));
        lemma_cover_gap(f, e, 0, 0, f.n as int);
        assert(e + gap(0, f.n as int) =~= chunks(f));
    } else {
        lemma_cover_before(f, k - 1);
        let list = chunks_before(f.blocks, k - 1);
        lemma_cover_block(f, list, k - 1);
        lemma_cover_gap(f, list, k, end(f.blocks[k - 1]), f.n as int);
    }
}

// ── Tones ───────────────────────────────────────────────────────────────────

/// The codeword bit that channel bit `j` carries.
pub open spec fn bit_index(f: FrameView, j: int) -> int {
    match f.interleave {
        Some(table) => table[j] as int,
        None => j,
    }
}

/// The number made by `k` channel bits from `j` on, the highest first.
pub open spec fn bits_value(f: FrameView, cw: Seq<u8>, j: int, k: int) -> int
    decreases k,
{
    if k <= 0 {
        0
    } else {
        2 * bits_value(f, cw, j, k - 1) + cw[bit_index(f, j + k - 1)] as int % 2
    }
}

/// The tone at a symbol: the fixed one, or the Gray map's for the symbol's
/// bits.
pub open spec fn tone_at(f: FrameView, cw: Seq<u8>, s: int) -> u8 {
    match sync_tone(f.blocks, s) {
        Some(t) => t,
        None => f.gray[bits_value(f, cw, data_index(f, s) * f.bits, f.bits as int)],
    }
}

/// The tones of a codeword.
pub open spec fn tones(f: FrameView, cw: Seq<u8>) -> Seq<u8> {
    Seq::new(f.n, |s: int| tone_at(f, cw, s))
}

/// Channel bits of a frame.
pub open spec fn channel_bits(f: FrameView) -> int {
    data_symbols(f) * f.bits
}

/// The layout makes sense, and the codeword has the bits that it names.
pub open spec fn sendable(f: FrameView, cw_len: int) -> bool {
    &&& blocks_ok(f)
    &&& f.bits <= 8
    &&& f.gray.len() >= pow2(f.bits)
    &&& match f.interleave {
        Some(table) => channel_bits(f) <= table.len() && forall|j: int|
            0 <= j < channel_bits(f) ==> #[trigger] table[j] < cw_len,
        None => channel_bits(f) <= cw_len,
    }
}

proof fn lemma_bits_bound(f: FrameView, cw: Seq<u8>, j: int, k: int)
    requires
        0 <= k <= 8,
    ensures
        0 <= bits_value(f, cw, j, k) < pow2(k as nat),
        pow2(k as nat) <= 256,
    decreases k,
{
    vstd::arithmetic::power2::lemma2_to64();
    if k > 0 {
        lemma_bits_bound(f, cw, j, k - 1);
        vstd::arithmetic::power2::lemma_pow2_unfold(k as nat);
        if k > 1 {
            vstd::arithmetic::power2::lemma_pow2_strictly_increases((k - 1) as nat, 8);
        }
        if k < 8 {
            vstd::arithmetic::power2::lemma_pow2_strictly_increases(k as nat, 8);
        }
    }
}

/// The number made by the bits of one symbol.
fn symbol_value(l: &Layout, cw: &[u8], j: usize) -> (r: usize)
    requires
        l@.bits <= 8,
        j + l@.bits <= usize::MAX,
        forall|k: int|
            j <= k < j + l@.bits ==> 0 <= #[trigger] bit_index(l@, k) < cw.len() && (
            l@.interleave matches Some(t) ==> k < t.len()),
    ensures
        r == bits_value(l@, cw@, j as int, l@.bits as int),
        r < pow2(l@.bits),
{
    let bps: usize = l.bits_per_symbol as usize;
    let mut v: usize = 0;
    let mut k: usize = 0;
    while k < bps
        invariant
            k <= bps <= 8,
            bps == l@.bits,
            j + bps <= usize::MAX,
            forall|k: int|
                j <= k < j + bps ==> 0 <= #[trigger] bit_index(l@, k) < cw.len() && (
                l@.interleave matches Some(t) ==> k < t.len()),
            v == bits_value(l@, cw@, j as int, k as int),
        decreases bps - k,
    {
        proof {
            lemma_bits_bound(l@, cw@, j as int, k as int);
            assert(0 <= bit_index(l@, j + k) < cw.len());
        }
        let idx: usize = match &l.interleave {
            Some(table) => table[j + k] as usize,
            None => j + k,
        };
        v = 2 * v + (cw[idx] % 2) as usize;
        k += 1;
    }
    proof {
        lemma_bits_bound(l@, cw@, j as int, bps as int);
    }
    v
}

/// All fixed tones written, data symbols left at 0.
fn sync_frame(l: &Layout) -> (r: Vec<u8>)
    requires
        blocks_ok(l@),
    ensures
        r@.len() == l@.n,
        forall|s: int|
            0 <= s < l@.n ==> #[trigger] r@[s] == (match sync_tone(l@.blocks, s) {
                Some(t) => t,
                None => 0,
            }),
{
    let n: usize = l.n_symbols as usize;
    let mut out: Vec<u8> = Vec::new();
    let mut i: usize = 0;
    while i < n
        invariant
            i <= n,
            out@.len() == i,
            forall|s: int| 0 <= s < i ==> #[trigger] out@[s] == 0,
        decreases n - i,
    {
        out.push(0);
        i += 1;
    }
    let ghost blocks = l@.blocks;
    let mut b: usize = 0;
    assert(blocks.take(0) =~= Seq::<BlockView>::empty());
    while b < l.sync_blocks.len()
        invariant
            b <= l.sync_blocks@.len(),
            n == l@.n,
            blocks == l@.blocks,
            blocks_ok(l@),
            out@.len() == n,
            forall|s: int|
                0 <= s < n ==> #[trigger] out@[s] == (match sync_tone(blocks.take(b as int), s) {
                    Some(t) => t,
                    None => 0,
                }),
        decreases l.sync_blocks@.len() - b,
    {
        let ghost blk = blocks[b as int];
        assert(blk == l.sync_blocks@[b as int]@);
        assert(end(blk) <= n);
        let start: usize = l.sync_blocks[b].start_symbol as usize;
        let len: usize = l.sync_blocks[b].pattern.len();
        let ghost base = out@;
        let mut j: usize = 0;
        while j < len
            invariant
                b < l.sync_blocks@.len(),
                blk == l.sync_blocks@[b as int]@,
                start == blk.start,
                len == blk.pattern.len(),
                start + len <= n,
                j <= len,
                out@.len() == n,
                base.len() == n,
                forall|s: int|
                    0 <= s < n ==> #[trigger] out@[s] == (if start <= s < start + j {
                        blk.pattern[s - start]
                    } else {
                        base[s]
                    }),
            decreases len - j,
        {
            out.set(start + j, l.sync_blocks[b].pattern[j]);
            j += 1;
        }
        proof {
            assert(blocks.take(b + 1).last() == blk);
            assert(blocks.take(b + 1).drop_last() =~= blocks.take(b as int));
        }
        b += 1;
    }
    assert(blocks.take(blocks.len() as int) =~= blocks);
    out
}

/// The tones of a codeword under a layout.
pub fn tones_of(l: &Layout, cw: &[u8]) -> (r: Vec<u8>)
    requires
        sendable(l@, cw.len() as int),
    ensures
        r@ == tones(l@, cw@),
{
    let ghost f = l@;
    let _available: usize = match &l.interleave {
        Some(table) => table.len(),
        None => cw.len(),
    };
    assert(channel_bits(f) <= _available);
    let mut out = sync_frame(l);
    let bps: usize = l.bits_per_symbol as usize;
    let list = chunks_of(l);
    let ghost ch = as_ints(list@);
    proof {
        law_chunks_are_the_data(f);
    }
    let mut c: usize = 0;
    let mut offset: usize = 0;
    while c < list.len()
        invariant
            c <= list@.len(),
            f == l@,
            bps == f.bits,
            sendable(f, cw@.len() as int),
            channel_bits(f) <= usize::MAX,
            ch == as_ints(list@),
            ch == chunks(f),
            covers(f, ch, f.n as int),
            out@.len() == f.n,
            offset == symbols_in(ch, c as int) * bps,
            forall|s: int|
                0 <= s < f.n ==> #[trigger] out@[s] == (if s < prev_end(ch, c as int)
                    || sync_tone(f.blocks, s) is Some {
                    tone_at(f, cw@, s)
                } else {
                    0
                }),
        decreases list@.len() - c,
    {
        let (start, len) = list[c];
        proof {
            assert(ch[c as int] == (start as int, len as int));
            assert(chunk_ok(f, ch, c as int));
            lemma_symbols_grow(f, ch, c + 1);
            lemma_symbols_nonneg(f, ch, c as int);
            assert(symbols_in(ch, c + 1) == symbols_in(ch, c as int) + len);
        }
        let ghost base = symbols_in(ch, c as int);
        assert((base + len) * bps == base * bps + len * bps) by (nonlinear_arith);
        assert((base + len) * bps <= channel_bits(f)) by (nonlinear_arith)
            requires
                base + len <= data_symbols(f),
                channel_bits(f) == data_symbols(f) * bps,
                bps >= 0,
        ;
        assert(start + len <= f.n) by {
            lemma_chunk_inside(f, ch, c as int);
        }
        let mut k: usize = 0;
        while k < len
            invariant
                k <= len,
                f == l@,
                bps == f.bits,
                sendable(f, cw@.len() as int),
                channel_bits(f) <= usize::MAX,
                c < ch.len(),
                ch[c as int] == (start as int, len as int),
                chunk_ok(f, ch, c as int),
                start + len <= f.n,
                base == symbols_in(ch, c as int),
                base >= 0,
                offset == base * bps,
                (base + len) * bps <= channel_bits(f),
                (base + len) * bps == base * bps + len * bps,
                out@.len() == f.n,
                forall|s: int|
                    0 <= s < f.n ==> #[trigger] out@[s] == (if s < prev_end(ch, c as int) || (start
                        <= s < start + k) || sync_tone(f.blocks, s) is Some {
                        tone_at(f, cw@, s)
                    } else {
                        0
                    }),
            decreases len - k,
        {
            proof {
                assert(k * bps + bps <= len * bps) by (nonlinear_arith)
                    requires
                        k + 1 <= len,
                        bps >= 0,
                ;
                assert(base * bps >= 0) by (nonlinear_arith)
                    requires
                        base >= 0,
                        bps >= 0,
                ;
                assert(k * bps >= 0) by (nonlinear_arith)
                    requires
                        k >= 0,
                        bps >= 0,
                ;
                assert((base + k) * bps == base * bps + k * bps) by (nonlinear_arith);
                assert(sync_tone(f.blocks, start + k) is None);
                assert(data_index(f, start + k) == base + k);
                let j = base * bps + k * bps;
                assert forall|i: int| j <= i < j + f.bits implies 0 <= #[trigger] bit_index(f, i)
                    < cw.len() && (f.interleave matches Some(t) ==> i < t.len()) by {
                    match f.interleave {
                        Some(t) => {
                            assert(t[i] < cw.len());
                        },
                        None => {},
                    }
                }
            }
            let v: usize = symbol_value(l, cw, offset + k * bps);
            out.set(start + k, l.gray_map[v]);
            k += 1;
        }
        proof {
            assert forall|s: int| 0 <= s < f.n implies #[trigger] out@[s] == (if s < prev_end(
                ch,
                c + 1,
            ) || sync_tone(f.blocks, s) is Some {
                tone_at(f, cw@, s)
            } else {
                0
            }) by {
                assert(prev_end(ch, c + 1) == start + len);
                if prev_end(ch, c as int) <= s < start {
                    assert(sync_tone(f.blocks, s) is Some);
                }
            }
        }
        offset = offset + len * bps;
        c += 1;
    }
    proof {
        assert forall|s: int| 0 <= s < f.n implies #[trigger] out@[s] == tone_at(f, cw@, s) by {
            if s >= prev_end(ch, ch.len() as int) {
                assert(sync_tone(f.blocks, s) is Some);
            }
        }
        assert(out@ =~= tones(f, cw@));
    }
    out
}

proof fn lemma_symbols_grow(f: FrameView, list: Seq<(int, int)>, c: int)
    requires
        covers(f, list, f.n as int),
        0 <= c <= list.len(),
    ensures
        0 <= symbols_in(list, c) <= symbols_in(list, list.len() as int),
    decreases list.len() - c,
{
    lemma_symbols_nonneg(f, list, c);
    if c < list.len() {
        lemma_symbols_grow(f, list, c + 1);
        assert(chunk_ok(f, list, c));
    }
}

proof fn lemma_symbols_nonneg(f: FrameView, list: Seq<(int, int)>, c: int)
    requires
        covers(f, list, f.n as int),
        0 <= c <= list.len(),
    ensures
        0 <= symbols_in(list, c),
    decreases c,
{
    if c > 0 {
        lemma_symbols_nonneg(f, list, c - 1);
        assert(chunk_ok(f, list, c - 1));
    }
}

proof fn lemma_chunk_inside(f: FrameView, list: Seq<(int, int)>, c: int)
    requires
        covers(f, list, f.n as int),
        0 <= c < list.len(),
    ensures
        list[c].0 + list[c].1 <= f.n,
    decreases list.len() - c,
{
    if c + 1 < list.len() {
        lemma_chunk_inside(f, list, c + 1);
        assert(chunk_ok(f, list, c + 1));
    }
}

/// The tones of a codeword: the fixed blocks in their places, and the data
/// symbols from the codeword's bits through the Gray map.
pub fn codeword_to_itone<P: Protocol>(cw: &[u8]) -> (r: Vec<u8>)
    requires
        call_requires(P::layout, ()),
        forall|l: Layout| #[trigger] laid_out::<P>(l) ==> sendable(l@, cw.len() as int),
    ensures
        exists|l: Layout| #[trigger] laid_out::<P>(l) && r@ == tones(l@, cw@),
{
    let l = P::layout();
    assert(laid_out::<P>(l));
    tones_of(&l, cw)
}

/// The tones of information bits.
pub fn info_to_tones<P: Protocol>(info: &Vec<u8>) -> (r: Vec<u8>)
    requires
        call_requires(P::layout, ()),
        call_requires(P::encode, (info,)),
        forall|l: Layout, cw: Vec<u8>| #[trigger]
            laid_out::<P>(l) && #[trigger] coded::<P>(*info, cw) ==> sendable(
                l@,
                cw@.len() as int,
            ),
    ensures
        exists|l: Layout, cw: Vec<u8>| #[trigger]
            laid_out::<P>(l) && #[trigger] coded::<P>(*info, cw) && r@ == tones(l@, cw@),
{
    let l = P::layout();
    let cw = P::encode(info);
    assert(laid_out::<P>(l) && coded::<P>(*info, cw));
    tones_of(&l, cw.as_slice())
}

/// The message in front of zeros, scrambled where the protocol does.
pub open spec fn info_of(f: FrameView, message: Seq<u8>) -> Seq<u8> {
    Seq::new(
        f.info_bits,
        |i: int|
            if i >= 77 {
                0u8
            } else {
                match f.scramble {
                    Some(r) => if i < r.len() {
                        ((message[i] + r[i]) % 2) as u8
                    } else {
                        message[i]
                    },
                    None => message[i],
                }
            },
    )
}

/// The message in front of zeros, scrambled where the layout says so.
pub fn message_info(l: &Layout, message77: &[u8; 77]) -> (r: Vec<u8>)
    requires
        l@.info_bits >= 77,
    ensures
        r@ == info_of(l@, message77@),
{
    let mut info: Vec<u8> = Vec::new();
    let mut i: usize = 0;
    let k: usize = l.info_bits;
    while i < k
        invariant
            i <= k,
            k == l@.info_bits,
            k >= 77,
            info@.len() == i,
            forall|j: int| 0 <= j < i ==> #[trigger] info@[j] == info_of(l@, message77@)[j],
        decreases k - i,
    {
        let bit: u8 = if i >= 77 {
            0
        } else {
            match &l.scramble {
                Some(r) => {
                    if i < r.len() {
                        ((message77[i] as u16 + r[i] as u16) % 2) as u8
                    } else {
                        message77[i]
                    }
                },
                None => message77[i],
            }
        };
        info.push(bit);
        i += 1;
    }
    assert(info@ =~= info_of(l@, message77@));
    info
}

/// The tones of a 77-bit message: scrambled where the protocol does, then
/// the checksum, then the code, then the tones. The checksum is over the
/// scrambled bits, so that a receiver checks before it unscrambles.
pub fn message_to_tones<P: Protocol>(message77: &[u8; 77]) -> (r: Vec<u8>)
    requires
        call_requires(P::layout, ()),
        forall|info: Vec<u8>| call_requires(P::append_crc, (info,)),
        forall|info: &Vec<u8>| call_requires(P::encode, (info,)),
        forall|l: Layout| #[trigger]
            laid_out::<P>(l) ==> l@.info_bits >= 77 && (forall|info: Vec<u8>, full| #[trigger]
                checked::<P>(info, full) && info@ == info_of(l@, message77@) ==> full is Some)
                && (forall|full: Vec<u8>, cw: Vec<u8>| #[trigger]
                coded::<P>(full, cw) ==> sendable(l@, cw@.len() as int)),
    ensures
        exists|l: Layout, info: Vec<u8>, full: Vec<u8>, cw: Vec<u8>|
            sent_as::<P>(l, info, full, cw) && info@ == info_of(l@, message77@) && r@ == tones(
                l@,
                cw@,
            ),
{
    let l = P::layout();
    assert(laid_out::<P>(l));
    let info = message_info(&l, message77);
    let ghost plain = info;
    let made = P::append_crc(info);
    assert(checked::<P>(plain, made));
    match made {
        Some(full) => {
            let cw = P::encode(&full);
            assert(coded::<P>(full, cw));
            assert(sent_as::<P>(l, plain, full, cw));
            tones_of(&l, cw.as_slice())
        },
        None => Vec::new(),
    }
}

/// The steps from information bits to a codeword.
pub open spec fn sent_as<P: Protocol>(
    l: Layout,
    info: Vec<u8>,
    full: Vec<u8>,
    cw: Vec<u8>,
) -> bool {
    laid_out::<P>(l) && checked::<P>(info, Some(full)) && coded::<P>(full, cw)
}

/// A frame has a tone for every symbol, and its fixed blocks carry their
/// patterns whatever the codeword is.
pub proof fn law_fixed_tones_stand(f: FrameView, cw: Seq<u8>, i: int, k: int)
    requires
        blocks_ok(f),
        0 <= i < f.blocks.len(),
        0 <= k < f.blocks[i].pattern.len(),
    ensures
        tones(f, cw).len() == f.n,
        tones(f, cw)[f.blocks[i].start + k] == f.blocks[i].pattern[k],
{
    assert(end(f.blocks[i]) <= f.n);
    lemma_sync_at(f, i, f.blocks[i].start + k);
}

/// Every tone is below `limit` if the fixed ones and the Gray map are.
pub proof fn law_tones_in_range(f: FrameView, cw: Seq<u8>, limit: int, s: int)
    requires
        sendable(f, cw.len() as int),
        forall|i: int| 0 <= i < f.gray.len() ==> #[trigger] f.gray[i] < limit,
        forall|t: int| (#[trigger] sync_tone(f.blocks, t)) matches Some(x) ==> x < limit,
        0 <= s < f.n,
    ensures
        tones(f, cw)[s] < limit,
{
    if sync_tone(f.blocks, s) is None {
        lemma_bits_bound(f, cw, data_index(f, s) * f.bits, f.bits as int);
    }
}

/// The bits of a symbol are channel bits in a row, the first weighing most.
pub proof fn law_the_first_bit_weighs_most(f: FrameView, cw: Seq<u8>, j: int)
    ensures
        bits_value(f, cw, j, 1) == cw[bit_index(f, j)] as int % 2,
        bits_value(f, cw, j, 2) == 2 * (cw[bit_index(f, j)] as int % 2) + cw[bit_index(f, j + 1)]
            as int % 2,
        bits_value(f, cw, j, 3) == 4 * (cw[bit_index(f, j)] as int % 2) + 2 * (cw[bit_index(
            f,
            j + 1,
        )] as int % 2) + cw[bit_index(f, j + 2)] as int % 2,
{
    reveal_with_fuel(bits_value, 4);
}

/// A longer row of bits is the shorter one doubled for each bit behind it.
pub proof fn law_bits_join(f: FrameView, cw: Seq<u8>, j: int, k: nat, n: nat)
    ensures
        bits_value(f, cw, j, (k + n) as int) == bits_value(f, cw, j, k as int) * pow2(n)
            + bits_value(f, cw, j + k, n as int),
    decreases n,
{
    vstd::arithmetic::power2::lemma2_to64();
    let a = bits_value(f, cw, j, k as int);
    let q = pow2(n) as int;
    if n > 0 {
        let m = (n - 1) as nat;
        law_bits_join(f, cw, j, k, m);
        vstd::arithmetic::power2::lemma_pow2_unfold(n);
        let p = pow2(m) as int;
        assert(a * q == 2 * (a * p)) by (nonlinear_arith)
            requires
                q == 2 * p,
        ;
        assert(j + (k + n) - 1 == (j + k) + n - 1);
        assert(bits_value(f, cw, j, (k + n) as int) == 2 * bits_value(f, cw, j, (k + m) as int)
            + cw[bit_index(f, j + (k + n) - 1)] as int % 2);
    } else {
        assert(a * q == a) by (nonlinear_arith)
            requires
                q == 1,
        ;
    }
}

/// The data goes out in turn: the symbol `t` places into a stretch sends the
/// bits after those of all data symbols before it, through the Gray map.
pub proof fn law_data_goes_out_in_turn(f: FrameView, cw: Seq<u8>, c: int, t: int)
    requires
        blocks_ok(f),
        0 <= c < chunks(f).len(),
        0 <= t < chunks(f)[c].1,
    ensures
        ({
            let s = chunks(f)[c].0 + t;
            let k = symbols_in(chunks(f), c) + t;
            &&& 0 <= s < f.n
            &&& tones(f, cw)[s] == f.gray[bits_value(f, cw, k * f.bits, f.bits as int)]
        }),
{
    law_chunks_are_the_data(f);
    let list = chunks(f);
    assert(chunk_ok(f, list, c));
    let s = list[c].0 + t;
    assert(sync_tone(f.blocks, s) is None);
    assert(sync_before(f.blocks, s) == sync_before(f.blocks, list[c].0));
    lemma_chunk_ends(f, list, c);
    lemma_chunk_starts(f, list, c);
}

proof fn lemma_chunk_ends(f: FrameView, list: Seq<(int, int)>, c: int)
    requires
        covers(f, list, f.n as int),
        0 <= c < list.len(),
    ensures
        list[c].0 + list[c].1 <= f.n,
    decreases list.len() - c,
{
    if c + 1 < list.len() {
        assert(chunk_ok(f, list, c + 1));
        lemma_chunk_ends(f, list, c + 1);
    }
}

proof fn lemma_chunk_starts(f: FrameView, list: Seq<(int, int)>, c: int)
    requires
        covers(f, list, f.n as int),
        0 <= c < list.len(),
    ensures
        0 <= list[c].0,
    decreases c,
{
    assert(chunk_ok(f, list, c));
    if c > 0 {
        assert(chunk_ok(f, list, c - 1));
        lemma_chunk_starts(f, list, c - 1);
    }
}

/// Without a table channel bits are codeword bits in order; with one, each is
/// the bit that the table names.
pub proof fn law_the_interleaver_names_the_bits(f: FrameView, j: int)
    ensures
        f.interleave is None ==> bit_index(f, j) == j,
        f.interleave matches Some(t) ==> bit_index(f, j) == t[j],
{
}

/// A message comes back from what is sent: scrambling it a second time gives
/// its bits again, and what follows the message is zero.
pub proof fn law_scrambling_undoes_itself(f: FrameView, message: Seq<u8>, i: int)
    requires
        message.len() == 77,
        forall|k: int| 0 <= k < 77 ==> #[trigger] message[k] < 2,
        0 <= i < f.info_bits,
        f.info_bits >= 77,
    ensures
        info_of(f, message).len() == f.info_bits,
        i >= 77 ==> info_of(f, message)[i] == 0,
        i < 77 && f.scramble is None ==> info_of(f, message)[i] == message[i],
        i < 77 ==> (f.scramble matches Some(r) ==> i < r.len() ==> (info_of(f, message)[i] + r[i])
            % 2 == message[i]),
        i < 77 ==> (f.scramble matches Some(r) ==> i >= r.len() ==> info_of(f, message)[i]
            == message[i]),
{
    if i < 77 {
        assert(message[i] < 2);
    }
}

}
