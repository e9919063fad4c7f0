//! The waterfall: rows of palette indices, newest at the bottom.

use embedded_graphics::pixelcolor::raw::{RawData, RawU16};
use embedded_graphics::pixelcolor::Rgb565;
use vstd::prelude::*;

verus! {

pub const ORIGIN_Y: i32 = 14;

pub const HEIGHT: u32 = 100;

/// Columns of a row. Narrow panels draw the leading ones.
pub const WIDTH: u32 = 240;

/// Rows kept.
pub const WF_DEPTH: usize = 100;

/// Dash period of the slot rule, in pixels. Dashed, so that the row under
/// it can still be read.
pub const SLOT_MARK_DASH: usize = 6;

/// A row: palette indices.
pub type WfLine = [u8; 240];

/// A colour of five, six and five bits.
#[derive(Debug, Clone, Copy, PartialEq, Eq, Structural)]
pub struct Rgb {
    pub r: u8,
    pub g: u8,
    pub b: u8,
}

/// Channels kept to their bits, red first.
pub open spec fn packed565(c: Rgb) -> int {
    (c.r as int % 32) * 2048 + (c.g as int % 64) * 32 + c.b as int % 32
}

/// `Rgb565::new` and its `RawU16`: the channels packed into 16 bits as red,
/// green, blue, each cut to its width.
#[verifier::external_body]
fn rgb565_word(c: Rgb) -> (r: u16)
    ensures
        r == packed565(c),
{
    RawU16::from(Rgb565::new(c.r, c.g, c.b)).into_inner()
}

/// The palette: black, blue, cyan, green, yellow, orange, red, white.
pub open spec fn shade(i: int) -> Rgb {
    if i == 0 {
        Rgb { r: 0, g: 0, b: 0 }
    } else if i == 1 {
        Rgb { r: 0, g: 0, b: 6 }
    } else if i == 2 {
        Rgb { r: 0, g: 0, b: 12 }
    } else if i == 3 {
        Rgb { r: 0, g: 4, b: 18 }
    } else if i == 4 {
        Rgb { r: 0, g: 12, b: 24 }
    } else if i == 5 {
        Rgb { r: 0, g: 24, b: 24 }
    } else if i == 6 {
        Rgb { r: 0, g: 36, b: 16 }
    } else if i == 7 {
        Rgb { r: 0, g: 48, b: 0 }
    } else if i == 8 {
        Rgb { r: 8, g: 56, b: 0 }
    } else if i == 9 {
        Rgb { r: 16, g: 60, b: 0 }
    } else if i == 10 {
        Rgb { r: 24, g: 60, b: 0 }
    } else if i == 11 {
        Rgb { r: 31, g: 56, b: 0 }
    } else if i == 12 {
        Rgb { r: 31, g: 40, b: 0 }
    } else if i == 13 {
        Rgb { r: 31, g: 24, b: 0 }
    } else if i == 14 {
        Rgb { r: 31, g: 8, b: 0 }
    } else {
        Rgb { r: 31, g: 31, b: 31 }
    }
}

/// The palette's entry for an index; only its low four bits count.
pub fn palette(i: u8) -> (r: Rgb)
    ensures
        r == shade(i as int % 16),
{
    let k: u8 = i % 16;
    if k == 0 {
        Rgb { r: 0, g: 0, b: 0 }
    } else if k == 1 {
        Rgb { r: 0, g: 0, b: 6 }
    } else if k == 2 {
        Rgb { r: 0, g: 0, b: 12 }
    } else if k == 3 {
        Rgb { r: 0, g: 4, b: 18 }
    } else if k == 4 {
        Rgb { r: 0, g: 12, b: 24 }
    } else if k == 5 {
        Rgb { r: 0, g: 24, b: 24 }
    } else if k == 6 {
        Rgb { r: 0, g: 36, b: 16 }
    } else if k == 7 {
        Rgb { r: 0, g: 48, b: 0 }
    } else if k == 8 {
        Rgb { r: 8, g: 56, b: 0 }
    } else if k == 9 {
        Rgb { r: 16, g: 60, b: 0 }
    } else if k == 10 {
        Rgb { r: 24, g: 60, b: 0 }
    } else if k == 11 {
        Rgb { r: 31, g: 56, b: 0 }
    } else if k == 12 {
        Rgb { r: 31, g: 40, b: 0 }
    } else if k == 13 {
        Rgb { r: 31, g: 24, b: 0 }
    } else if k == 14 {
        Rgb { r: 31, g: 8, b: 0 }
    } else {
        Rgb { r: 31, g: 31, b: 31 }
    }
}

/// The colour of the slot rule.
pub open spec fn mark_colour() -> Rgb {
    Rgb { r: 31, g: 0, b: 0 }
}

/// A pixel of a row: the rule's dashes over the palette; a row that is not
/// there is black.
pub open spec fn pixel(line: Option<Seq<u8>>, marked: bool, col: int) -> Rgb {
    match line {
        Some(l) => if marked && (col % SLOT_MARK_DASH as int) < SLOT_MARK_DASH / 2 {
            mark_colour()
        } else {
            shade(l[col] as int % 16)
        },
        None => shade(0),
    }
}

fn pixel_of(line: Option<&WfLine>, marked: bool, col: usize) -> (r: Rgb)
    requires
        col < WIDTH,
    ensures
        r == pixel(line_view(line), marked, col as int),
{
    match line {
        Some(l) => {
            if marked && col % SLOT_MARK_DASH < SLOT_MARK_DASH / 2 {
                Rgb { r: 31, g: 0, b: 0 }
            } else {
                palette(l[col])
            }
        },
        None => palette(0),
    }
}

pub open spec fn line_view(line: Option<&WfLine>) -> Option<Seq<u8>> {
    match line {
        Some(l) => Some(l@),
        None => None,
    }
}

/// Columns drawn.
pub open spec fn drawn_width(width: int) -> int {
    if width < WIDTH {
        width
    } else {
        WIDTH as int
    }
}

/// One row as the panel takes it: 16 bits a pixel, high byte first, into
/// `out`. `None` is a blank row.
pub fn row_rgb565_be(line: Option<&WfLine>, marked: bool, width: usize, out: &mut [u8])
    requires
        old(out)@.len() >= 2 * drawn_width(width as int),
    ensures
        final(out)@.len() == old(out)@.len(),
        forall|i: int|
            0 <= i < drawn_width(width as int) ==> #[trigger] final(out)@[2 * i] == packed565(
                pixel(line_view(line), marked, i),
            ) / 256 && final(out)@[2 * i + 1] == packed565(pixel(line_view(line), marked, i)) % 256,
        forall|k: int|
            2 * drawn_width(width as int) <= k < old(out)@.len() ==> #[trigger] final(out)@[k]
                == old(out)@[k],
{
    let w: usize = if width < WIDTH as usize {
        width
    } else {
        WIDTH as usize
    };
    let ghost o0 = out@;
    let mut col: usize = 0;
    while col < w
        invariant
            col <= w <= WIDTH,
            w == drawn_width(width as int),
            out@.len() == o0.len(),
            o0.len() >= 2 * w,
            forall|i: int|
                0 <= i < col ==> #[trigger] out@[2 * i] == packed565(
                    pixel(line_view(line), marked, i),
                ) / 256 && out@[2 * i + 1] == packed565(pixel(line_view(line), marked, i)) % 256,
            forall|k: int| 2 * w <= k < o0.len() ==> #[trigger] out@[k] == o0[k],
        decreases w - col,
    {
        let v: u16 = rgb565_word(pixel_of(line, marked, col));
        out[2 * col] = (v / 256) as u8;
        out[2 * col + 1] = (v % 256) as u8;
        col += 1;
    }
}

/// The last [`WF_DEPTH`] lines stand at the bottom; the row `row` from the
/// top is the line of this index, or none.
pub open spec fn line_at_row(n_lines: int, row: int) -> Option<int> {
    let n = if n_lines < WF_DEPTH {
        n_lines
    } else {
        WF_DEPTH as int
    };
    if row < WF_DEPTH - n {
        None
    } else {
        Some(n_lines - WF_DEPTH + row)
    }
}

/// A pixel of the waterfall. Marks that do not match the lines mark nothing.
pub open spec fn frame_pixel(
    lines: Seq<&WfLine>,
    marks: Seq<bool>,
    row: int,
    col: int,
) -> Rgb {
    match line_at_row(lines.len() as int, row) {
        Some(k) => pixel(Some(lines[k]@), marks.len() == lines.len() && marks[k], col),
        None => pixel(None, false, col),
    }
}

/// The waterfall, row by row from the top, of `lines` (oldest first), with a
/// rule across every marked one.
pub fn render_marked(lines: &[&WfLine], marks: &[bool], width: u32) -> (r: Vec<Rgb>)
    ensures
        r@.len() == HEIGHT * drawn_width(width as int),
        forall|row: int, col: int|
            0 <= row < HEIGHT && 0 <= col < drawn_width(width as int)
                ==> #[trigger] r@[row * drawn_width(width as int) + col] == frame_pixel(
                lines@,
                marks@,
                row,
                col,
            ),
{
    let w: usize = if width < WIDTH {
        width as usize
    } else {
        WIDTH as usize
    };
    let n: usize = if lines.len() < WF_DEPTH {
        lines.len()
    } else {
        WF_DEPTH
    };
    let ruled = marks.len() == lines.len();
    let mut out: Vec<Rgb> = Vec::new();
    let mut row: usize = 0;
    while row < HEIGHT as usize
        invariant
            row <= HEIGHT,
            w == drawn_width(width as int),
            w <= WIDTH,
            ruled == (marks@.len() == lines@.len()),
            n == (if lines@.len() < WF_DEPTH {
                lines@.len() as int
            } else {
                WF_DEPTH as int
            }),
            lines@.len() <= usize::MAX,
            out@.len() == row * w,
            forall|a: int, b: int|
                0 <= a < row && 0 <= b < w ==> #[trigger] out@[a * w + b] == frame_pixel(
                    lines@,
                    marks@,
                    a,
                    b,
                ),
        decreases HEIGHT - row,
    {
        let blank = row < WF_DEPTH - n;
        let k: usize = if blank {
            0
        } else {
            lines.len() - n + (row - (WF_DEPTH - n))
        };
        let line: Option<&WfLine> = if blank {
            None
        } else {
            Some(lines[k])
        };
        let marked = !blank && ruled && marks[k];
        let ghost before = out@;
        let mut col: usize = 0;
        while col < w
            invariant
                col <= w <= WIDTH,
                before.len() == row * w,
                out@.len() == row * w + col,
                forall|i: int| 0 <= i < before.len() ==> #[trigger] out@[i] == before[i],
                forall|b: int|
                    0 <= b < col ==> #[trigger] out@[row * w + b] == pixel(
                        line_view(line),
                        marked,
                        b,
                    ),
            decreases w - col,
        {
            let p = pixel_of(line, marked, col);
            out.push(p);
            col += 1;
        }
        proof {
            assert((row + 1) * w == row * w + w) by (nonlinear_arith);
            assert forall|a: int, b: int| 0 <= a < row + 1 && 0 <= b < w implies #[trigger] out@[a
                * w + b] == frame_pixel(lines@, marks@, a, b) by {
                if a < row {
                    assert(a * w + b < row * w && a * w + b >= 0) by (nonlinear_arith)
                        requires
                            0 <= a < row,
                            0 <= b < w,
                    ;
                    assert(out@[a * w + b] == before[a * w + b]);
                } else {
                    assert(out@[row * w + b] == pixel(line_view(line), marked, b));
                }
            }
        }
        row += 1;
    }
    out
}

/// The waterfall without rules.
pub fn render(lines: &[&WfLine], width: u32) -> (r: Vec<Rgb>)
    ensures
        r@.len() == HEIGHT * drawn_width(width as int),
        forall|row: int, col: int|
            0 <= row < HEIGHT && 0 <= col < drawn_width(width as int)
                ==> #[trigger] r@[row * drawn_width(width as int) + col] == (match line_at_row(
                lines@.len() as int,
                row,
            ) {
                Some(k) => shade(lines@[k]@[col] as int % 16),
                None => shade(0),
            }),
{
    let none: [bool; 0] = [];
    let r = render_marked(lines, none.as_slice(), width);
    r
}

/// The newest line is the bottom row, the one before it above, and so on.
pub proof fn law_newest_is_at_the_bottom(n_lines: int, age: int)
    requires
        0 <= age < n_lines,
        age < WF_DEPTH,
    ensures
        line_at_row(n_lines, HEIGHT - 1 - age) == Some(n_lines - 1 - age),
{
}

/// The rule leaves every other three pixels of its row as they are.
pub proof fn law_the_rule_is_dashed(line: Seq<u8>, col: int)
    requires
        0 <= col,
    ensures
        col % 6 >= 3 ==> pixel(Some(line), true, col) == pixel(Some(line), false, col),
        col % 6 < 3 ==> pixel(Some(line), true, col) == mark_colour(),
{
}

/// A packed colour gives its channels back: red in the highest five bits,
/// green in six, blue in the lowest five.
pub proof fn law_packed_colours_unpack(c: Rgb)
    requires
        c.r < 32,
        c.g < 64,
        c.b < 32,
    ensures
        0 <= packed565(c) < 0x1_0000,
        packed565(c) / 2048 == c.r,
        packed565(c) / 32 % 64 == c.g,
        packed565(c) % 32 == c.b,
{
    let (r, g, b) = (c.r as int, c.g as int, c.b as int);
    let x = packed565(c);
    assert(r % 32 == r && g % 64 == g && b % 32 == b);
    assert(x == 2048 * r + 32 * g + b);
    vstd::arithmetic::div_mod::lemma_fundamental_div_mod_converse(x, 2048, r, 32 * g + b);
    vstd::arithmetic::div_mod::lemma_fundamental_div_mod_converse(x, 32, 64 * r + g, b);
    vstd::arithmetic::div_mod::lemma_fundamental_div_mod_converse(64 * r + g, 64, r, g);
}

/// The palette goes from black through blue, green and red to white; green
/// has twice the steps of the others.
pub proof fn law_the_palette_warms_up(i: int)
    requires
        0 <= i < 16,
    ensures
        shade(i).r == seq![0int, 0, 0, 0, 0, 0, 0, 0, 8, 16, 24, 31, 31, 31, 31, 31][i],
        shade(i).g == seq![0int, 0, 0, 4, 12, 24, 36, 48, 56, 60, 60, 56, 40, 24, 8, 31][i],
        shade(i).b == seq![0int, 6, 12, 18, 24, 24, 16, 0, 0, 0, 0, 0, 0, 0, 0, 31][i],
        i + 1 < 16 ==> shade(i).r <= shade(i + 1).r,
{
}

/// Without a mark a pixel is the palette's entry for its index, of which the
/// lowest four bits count; a row that is not there is black, and so is every
/// row above the oldest line.
pub proof fn law_pixels_are_palette_entries(
    line: Seq<u8>,
    col: int,
    n_lines: int,
    row: int,
    marked: bool,
)
    requires
        0 <= n_lines,
        0 <= row < 100,
    ensures
        pixel(Some(line), false, col) == shade(line[col] as int % 16),
        pixel(None, marked, col) == (Rgb { r: 0, g: 0, b: 0 }),
        mark_colour() == (Rgb { r: 31, g: 0, b: 0 }),
        (line_at_row(n_lines, row) is None) == (n_lines + row < 100),
{
}

/// Marks that match the lines one for one are drawn across theirs; others
/// mark nothing.
pub proof fn law_marks_go_with_their_lines(
    lines: Seq<&WfLine>,
    marks: Seq<bool>,
    age: int,
    col: int,
)
    requires
        0 <= age < lines.len(),
        age < 100,
        0 <= col < 240,
    ensures
        ({
            let k = lines.len() - 1 - age;
            frame_pixel(lines, marks, 99 - age, col) == (if marks.len() == lines.len() && marks[k]
                && col % 6 < 3 {
                mark_colour()
            } else {
                shade(lines[k]@[col] as int % 16)
            })
        }),
{
}

}
