//! Dial-frequency presets, one table per receiver, and their paging.

use crate::text::chars_of;
use crate::text::is_str;
use vstd::prelude::*;

verus! {

/// One row of a table: what the page draws, and the dial it sets.
#[derive(Clone, Copy, Debug, PartialEq, Eq)]
pub struct FreqPreset {
    pub label: &'static str,
    pub hz: u32,
}

/// Label and dial.
pub open spec fn rows(t: Seq<FreqPreset>) -> Seq<(Seq<char>, u32)> {
    Seq::new(t.len(), |i: int| (t[i].label@, t[i].hz))
}

/// The FT8 channels; those labelled `JA` are the Japanese ones.
pub open spec fn ft8_rows() -> Seq<(Seq<char>, u32)> {
    seq![
        ("160m JA  1.908"@, 1_908_000u32),
        ("80m JA   3.531"@, 3_531_000u32),
        ("80m      3.573"@, 3_573_000u32),
        ("40m JA   7.041"@, 7_041_000u32),
        ("40m      7.074"@, 7_074_000u32),
        ("30m     10.136"@, 10_136_000u32),
        ("20m     14.074"@, 14_074_000u32),
        ("17m     18.100"@, 18_100_000u32),
        ("15m     21.074"@, 21_074_000u32),
        ("12m     24.915"@, 24_915_000u32),
        ("10m     28.074"@, 28_074_000u32),
        ("6m      50.313"@, 50_313_000u32),
        ("2m JA  144.460"@, 144_460_000u32),
    ]
}

/// The FT8 channels; those labelled `JA` are the Japanese ones.
pub fn ft8() -> (t: Vec<FreqPreset>)
    ensures
        rows(t@) == ft8_rows(),
{
    let t: Vec<FreqPreset> = vec![
        FreqPreset { label: "160m JA  1.908", hz: 1_908_000 },
        FreqPreset { label: "80m JA   3.531", hz: 3_531_000 },
        FreqPreset { label: "80m      3.573", hz: 3_573_000 },
        FreqPreset { label: "40m JA   7.041", hz: 7_041_000 },
        FreqPreset { label: "40m      7.074", hz: 7_074_000 },
        FreqPreset { label: "30m     10.136", hz: 10_136_000 },
        FreqPreset { label: "20m     14.074", hz: 14_074_000 },
        FreqPreset { label: "17m     18.100", hz: 18_100_000 },
        FreqPreset { label: "15m     21.074", hz: 21_074_000 },
        FreqPreset { label: "12m     24.915", hz: 24_915_000 },
        FreqPreset { label: "10m     28.074", hz: 28_074_000 },
        FreqPreset { label: "6m      50.313", hz: 50_313_000 },
        FreqPreset { label: "2m JA  144.460", hz: 144_460_000 },
    ];
    assert(rows(t@) =~= ft8_rows());
    t
}

/// The FT4 channels.
pub open spec fn ft4_rows() -> Seq<(Seq<char>, u32)> {
    seq![
        ("80m      3.575"@, 3_575_000u32),
        ("40m      7.0475"@, 7_047_500u32),
        ("30m     10.140"@, 10_140_000u32),
        ("20m     14.080"@, 14_080_000u32),
        ("17m     18.104"@, 18_104_000u32),
        ("15m     21.140"@, 21_140_000u32),
        ("12m     24.919"@, 24_919_000u32),
        ("10m     28.180"@, 28_180_000u32),
        ("6m      50.318"@, 50_318_000u32),
    ]
}

/// The FT4 channels.
pub fn ft4() -> (t: Vec<FreqPreset>)
    ensures
        rows(t@) == ft4_rows(),
{
    let t: Vec<FreqPreset> = vec![
        FreqPreset { label: "80m      3.575", hz: 3_575_000 },
        FreqPreset { label: "40m      7.0475", hz: 7_047_500 },
        FreqPreset { label: "30m     10.140", hz: 10_140_000 },
        FreqPreset { label: "20m     14.080", hz: 14_080_000 },
        FreqPreset { label: "17m     18.104", hz: 18_104_000 },
        FreqPreset { label: "15m     21.140", hz: 21_140_000 },
        FreqPreset { label: "12m     24.919", hz: 24_919_000 },
        FreqPreset { label: "10m     28.180", hz: 28_180_000 },
        FreqPreset { label: "6m      50.318", hz: 50_318_000 },
    ];
    assert(rows(t@) =~= ft4_rows());
    t
}

/// The WSPR channels.
pub open spec fn wspr_rows() -> Seq<(Seq<char>, u32)> {
    seq![
        ("160m     1.8366"@, 1_836_600u32),
        ("80m      3.5686"@, 3_568_600u32),
        ("60m      5.3647"@, 5_364_700u32),
        ("40m      7.0386"@, 7_038_600u32),
        ("30m     10.1387"@, 10_138_700u32),
        ("20m     14.0956"@, 14_095_600u32),
        ("17m     18.1046"@, 18_104_600u32),
        ("15m     21.0946"@, 21_094_600u32),
        ("12m     24.9246"@, 24_924_600u32),
        ("10m     28.1246"@, 28_124_600u32),
        ("6m      50.293"@, 50_293_000u32),
        ("2m     144.489"@, 144_489_000u32),
    ]
}

/// The WSPR channels.
pub fn wspr() -> (t: Vec<FreqPreset>)
    ensures
        rows(t@) == wspr_rows(),
{
    let t: Vec<FreqPreset> = vec![
        FreqPreset { label: "160m     1.8366", hz: 1_836_600 },
        FreqPreset { label: "80m      3.5686", hz: 3_568_600 },
        FreqPreset { label: "60m      5.3647", hz: 5_364_700 },
        FreqPreset { label: "40m      7.0386", hz: 7_038_600 },
        FreqPreset { label: "30m     10.1387", hz: 10_138_700 },
        FreqPreset { label: "20m     14.0956", hz: 14_095_600 },
        FreqPreset { label: "17m     18.1046", hz: 18_104_600 },
        FreqPreset { label: "15m     21.0946", hz: 21_094_600 },
        FreqPreset { label: "12m     24.9246", hz: 24_924_600 },
        FreqPreset { label: "10m     28.1246", hz: 28_124_600 },
        FreqPreset { label: "6m      50.293", hz: 50_293_000 },
        FreqPreset { label: "2m     144.489", hz: 144_489_000 },
    ];
    assert(rows(t@) =~= wspr_rows());
    t
}

/// The FST4 channels: none has been agreed.
pub fn fst4() -> (t: Vec<FreqPreset>)
    ensures
        t@.len() == 0,
{
    Vec::new()
}

/// The table a receiver shows, by the name the picker gives it.
pub open spec fn table_for(name: Seq<char>) -> Seq<(Seq<char>, u32)> {
    if name == "FT8"@ {
        ft8_rows()
    } else if name == "FT4"@ {
        ft4_rows()
    } else if name == "WSPR"@ {
        wspr_rows()
    } else {
        Seq::empty()
    }
}

/// Which table a receiver shows. Empty for anything without one.
pub fn for_mode(name: &str) -> (t: Vec<FreqPreset>)
    ensures
        rows(t@) == table_for(name@),
{
    let c = chars_of(name);
    if is_str(c.as_slice(), "FT8") {
        ft8()
    } else if is_str(c.as_slice(), "FT4") {
        ft4()
    } else if is_str(c.as_slice(), "WSPR") {
        wspr()
    } else {
        let t = fst4();
        assert(rows(t@) =~= Seq::empty());
        t
    }
}

/// Within a table the dials ascend.
pub proof fn law_dials_ascend(name: Seq<char>, i: int, j: int)
    requires
        0 <= i < j < table_for(name).len(),
    ensures
        table_for(name)[i].1 < table_for(name)[j].1,
{
}

// ── Paging ──────────────────────────────────────────────────────────────────

/// One screenful of a table on a widget with `rows` bands.
///
/// A table that fits is shown whole. One that does not gives the last band
/// to a NEXT row and shows `rows - 1` presets per page; NEXT past the last
/// page wraps to the first.
#[derive(Clone, Copy, Debug, PartialEq, Eq, Structural)]
pub struct Page {
    /// Index of the first preset on this page.
    pub start: usize,
    /// Presets on this page.
    pub count: usize,
    /// Whether the row after them is NEXT.
    pub has_next: bool,
    /// 1-based, for the header.
    pub number: usize,
    pub of: usize,
}

/// How many pages of `per` a table of `len` takes.
pub open spec fn pages(len: int, per: int) -> int {
    (len + per - 1) / per
}

/// What a page is.
pub open spec fn is_page(p: Page, len: int, rows: int, index: int) -> bool {
    if len <= rows {
        p.start == 0 && p.count == len && !p.has_next && p.number == 1 && p.of == 1
    } else {
        let per = rows - 1;
        let k = index % pages(len, per);
        &&& p.start == k * per
        &&& p.count == if len - k * per < per {
            len - k * per
        } else {
            per
        }
        &&& p.has_next
        &&& p.number == k + 1
        &&& p.of == pages(len, per)
    }
}

proof fn lemma_pages(len: int, per: int, k: int)
    requires
        len > 0,
        per > 0,
        0 <= k < pages(len, per),
    ensures
        0 <= k * per < len,
        k == pages(len, per) - 1 ==> len <= k * per + per,
        k < pages(len, per) - 1 ==> k * per + per < len,
        pages(len, per) <= len,
{
    let n = pages(len, per);
    let x = len + per - 1;
    assert(n * per <= x && x < n * per + per) by (nonlinear_arith)
        requires
            per > 0,
            n == x / per,
    ;
    assert(k * per + per <= n * per) by (nonlinear_arith)
        requires
            per > 0,
            k + 1 <= n,
    ;
    assert(k == n - 1 ==> k * per + per == n * per) by (nonlinear_arith);
    assert(k < n - 1 ==> k * per + 2 * per <= n * per) by (nonlinear_arith)
        requires
            per > 0,
    ;
    assert(k * per >= 0) by (nonlinear_arith)
        requires
            per > 0,
            k >= 0,
    ;
    assert(n <= len) by (nonlinear_arith)
        requires
            per > 0,
            len > 0,
            n * per <= len + per - 1,
    ;
}

/// The page with the given index, counted on past the last one.
pub fn page(len: usize, rows: usize, index: usize) -> (p: Page)
    requires
        len <= rows || rows >= 2,
    ensures
        is_page(p, len as int, rows as int, index as int),
{
    if len <= rows {
        return Page { start: 0, count: len, has_next: false, number: 1, of: 1 };
    }
    let per: usize = rows - 1;
    let whole: usize = len / per;
    let rest: usize = len % per;
    proof {
        let (l, p, w, r) = (len as int, per as int, whole as int, rest as int);
        assert(pages(l, p) == if r == 0 {
            w
        } else {
            w + 1
        } && w <= l && (r > 0 ==> w < l)) by (nonlinear_arith)
            requires
                p > 0,
                l > 0,
                w == l / p,
                r == l % p,
                pages(l, p) == (l + p - 1) / p,
        ;
        assert(pages(l, p) >= 1) by (nonlinear_arith)
            requires
                p > 0,
                l > 0,
                pages(l, p) == (l + p - 1) / p,
        ;
    }
    let of: usize = if rest == 0 {
        whole
    } else {
        whole + 1
    };
    let k: usize = index % of;
    proof {
        lemma_pages(len as int, per as int, k as int);
    }
    let start: usize = k * per;
    let count: usize = if len - start < per {
        len - start
    } else {
        per
    };
    Page { start, count, has_next: true, number: k + 1, of }
}

/// Consecutive pages show consecutive presets, the first page from the
/// start and the last page to the end; after it the first comes again.
pub proof fn law_pages_cover_the_table(len: int, rows: int, k: int, p: Page, q: Page)
    requires
        rows >= 2,
        rows < len,
        0 <= k < pages(len, rows - 1),
        is_page(p, len, rows, k),
        is_page(q, len, rows, k + 1),
    ensures
        k == 0 ==> p.start == 0,
        k < pages(len, rows - 1) - 1 ==> q.start == p.start + p.count,
        k == pages(len, rows - 1) - 1 ==> p.start + p.count == len && q.start == 0,
{
    let per = rows - 1;
    let n = pages(len, per);
    lemma_pages(len, per, k);
    assert(k % n == k) by (nonlinear_arith)
        requires
            0 <= k < n,
    ;
    if k < n - 1 {
        assert((k + 1) % n == k + 1) by (nonlinear_arith)
            requires
                0 <= k + 1 < n,
        ;
        assert((k + 1) * per == k * per + per) by (nonlinear_arith);
    } else {
        assert((k + 1) % n == 0) by (nonlinear_arith)
            requires
                k + 1 == n,
                n > 0,
        ;
    }
    assert(k == 0 ==> k * per == 0) by (nonlinear_arith);
}

// ── What a label says ───────────────────────────────────────────────────────

/// A digit's number; anything else counts nothing.
pub open spec fn figure(c: char) -> int {
    if '0' <= c <= '9' {
        c as int - '0' as int
    } else {
        0
    }
}

/// The dial that a label shows: megahertz around the point in its eleventh
/// place.
pub open spec fn shown_hz(l: Seq<char>) -> int {
    1_000_000 * (100 * figure(l[7]) + 10 * figure(l[8]) + figure(l[9])) + 100_000 * figure(l[11])
        + 10_000 * figure(l[12]) + 1_000 * figure(l[13]) + (if l.len() > 14 {
        100 * figure(l[14])
    } else {
        0
    })
}

/// The metres that a label begins with.
pub open spec fn shown_metres(l: Seq<char>) -> int {
    if l[1] == 'm' {
        figure(l[0])
    } else if l[2] == 'm' {
        10 * figure(l[0]) + figure(l[1])
    } else {
        100 * figure(l[0]) + 10 * figure(l[1]) + figure(l[2])
    }
}

/// A row whose label shows its dial, and a band of about its wavelength.
pub open spec fn is_labelled(row: (Seq<char>, u32)) -> bool {
    &&& 14 <= row.0.len() <= 15
    &&& row.0[10] == '.'
    &&& shown_hz(row.0) == row.1
    &&& 280_000_000 <= shown_metres(row.0) * row.1 <= 322_000_000
}

proof fn lemma_ft8_labelled(i: int)
    requires
        0 <= i < ft8_rows().len(),
    ensures
        is_labelled(ft8_rows()[i]),
{
    reveal_strlit("160m JA  1.908");
    reveal_strlit("80m JA   3.531");
    reveal_strlit("80m      3.573");
    reveal_strlit("40m JA   7.041");
    reveal_strlit("40m      7.074");
    reveal_strlit("30m     10.136");
    reveal_strlit("20m     14.074");
    reveal_strlit("17m     18.100");
    reveal_strlit("15m     21.074");
    reveal_strlit("12m     24.915");
    reveal_strlit("10m     28.074");
    reveal_strlit("6m      50.313");
    reveal_strlit("2m JA  144.460");
}

proof fn lemma_ft4_labelled(i: int)
    requires
        0 <= i < ft4_rows().len(),
    ensures
        is_labelled(ft4_rows()[i]),
{
    reveal_strlit("80m      3.575");
    reveal_strlit("40m      7.0475");
    reveal_strlit("30m     10.140");
    reveal_strlit("20m     14.080");
    reveal_strlit("17m     18.104");
    reveal_strlit("15m     21.140");
    reveal_strlit("12m     24.919");
    reveal_strlit("10m     28.180");
    reveal_strlit("6m      50.318");
}

proof fn lemma_wspr_labelled(i: int)
    requires
        0 <= i < wspr_rows().len(),
    ensures
        is_labelled(wspr_rows()[i]),
{
    reveal_strlit("160m     1.8366");
    reveal_strlit("80m      3.5686");
    reveal_strlit("60m      5.3647");
    reveal_strlit("40m      7.0386");
    reveal_strlit("30m     10.1387");
    reveal_strlit("20m     14.0956");
    reveal_strlit("17m     18.1046");
    reveal_strlit("15m     21.0946");
    reveal_strlit("12m     24.9246");
    reveal_strlit("10m     28.1246");
    reveal_strlit("6m      50.293");
    reveal_strlit("2m     144.489");
}

/// A label shows the dial that its row sets, to the last figure, after the
/// band that the dial is in.
pub proof fn law_labels_show_their_dials(name: Seq<char>, i: int)
    requires
        0 <= i < table_for(name).len(),
    ensures
        14 <= table_for(name)[i].0.len() <= 15,
        table_for(name)[i].0[10] == '.',
        shown_hz(table_for(name)[i].0) == table_for(name)[i].1,
        280_000_000 <= shown_metres(table_for(name)[i].0) * table_for(name)[i].1 <= 322_000_000,
{
    if name == "FT8"@ {
        lemma_ft8_labelled(i);
    } else if name == "FT4"@ {
        lemma_ft4_labelled(i);
    } else {
        lemma_wspr_labelled(i);
    }
}

/// Each receiver has its own channels: in kilohertz for FT8, in half
/// kilohertz for FT4 and in tenths of one for WSPR.
pub proof fn law_receivers_have_their_channels(i: int)
    ensures
        0 <= i < 13 ==> table_for("FT8"@)[i].1 == 1_000 * seq![
            1_908int,
            3_531,
            3_573,
            7_041,
            7_074,
            10_136,
            14_074,
            18_100,
            21_074,
            24_915,
            28_074,
            50_313,
            144_460,
        ][i],
        0 <= i < 9 ==> table_for("FT4"@)[i].1 == 500 * seq![
            7_150int,
            14_095,
            20_280,
            28_160,
            36_208,
            42_280,
            49_838,
            56_360,
            100_636,
        ][i],
        0 <= i < 12 ==> table_for("WSPR"@)[i].1 == 100 * seq![
            18_366int,
            35_686,
            53_647,
            70_386,
            101_387,
            140_956,
            181_046,
            210_946,
            249_246,
            281_246,
            502_930,
            1_444_890,
        ][i],
        table_for("FT8"@).len() == 13,
        table_for("FT4"@).len() == 9,
        table_for("WSPR"@).len() == 12,
        table_for("FST4"@).len() == 0,
{
    reveal_strlit("FT8");
    reveal_strlit("FT4");
    reveal_strlit("WSPR");
    reveal_strlit("FST4");
    assert("FT8"@[2] == '8' && "FT4"@[2] == '4');
    assert("WSPR"@[0] == 'W' && "FST4"@[0] == 'F' && "FT8"@[0] == 'F' && "FT4"@[0] == 'F');
    assert("FST4"@.len() == 4 && "FT8"@.len() == 3 && "FT4"@.len() == 3);
}

}
