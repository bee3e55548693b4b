//! Writing display sets, rather than reading them.
//!
//! A DVD's own subtitle format has no stream type a transport stream can
//! carry, so the picture is taken out of one and put into the other. What is
//! converted is a picture and a palette, and both formats hold exactly that:
//! an index per pixel, run-length coded, and a table of colours. Neither is
//! resampled and neither loses a pixel.
use crate::bytes::{be16_bytes, put};
use crate::pgs::{held_models, packed, packed_bytes, Held, HeldModel, END, EPOCH_START, PCS, WDS};
use crate::time::{in_reach, later};
use vstd::prelude::*;
use vstd::slice::slice_subrange;

verus! {

/// Where on the screen a subtitle is drawn: from the left, from the top, and
/// how wide and how tall.
pub type Window = (u16, u16, u16, u16);

/// A palette entry: what the disc drew with.
pub const PDS: u8 = 0x14;

/// The picture itself.
pub const ODS: u8 = 0x15;

/// How far in front of the moment it is shown a display set is handed over,
/// so a decoder has it ready: sixty thousandths of a second.
pub const LEAD: i64 = 42_336_000;

/// One picture to put on the screen.
pub struct Picture<'a> {
    /// Where it goes, from the top left of the screen.
    pub x: u16,
    pub y: u16,
    pub width: u16,
    pub height: u16,
    /// One byte per pixel, rows first, `width` of them to a row.
    pub indices: &'a [u8],
    /// What each of those bytes means: red, green, blue, and how opaque.
    pub palette: &'a [(u8, u8, u8, u8)],
}

/// The eleven bytes every composition opens with, and the object it puts up
/// where there is one.
pub open spec fn composition_bytes(
    screen: (u16, u16),
    number: u16,
    state: u8,
    place: Option<(u16, u16)>,
) -> Seq<u8> {
    be16_bytes(screen.0 as int) + be16_bytes(screen.1 as int) + seq![0x10u8] + be16_bytes(
        number as int,
    ) + seq![state, 0x00, 0x00] + match place {
        None => seq![0u8],
        Some((x, y)) => seq![1u8, 0x00, 0x00, 0x00, 0x00] + be16_bytes(x as int) + be16_bytes(
            y as int,
        ),
    }
}

/// Append a sixteen-bit number, most significant byte first.
fn put_be16(out: &mut Vec<u8>, v: u16)
    ensures
        final(out)@ == old(out)@ + be16_bytes(v as int),
{
    out.push((v / 256) as u8);
    out.push((v % 256) as u8);
    assert(out@ =~= old(out)@ + be16_bytes(v as int));
}

/// The eleven bytes every composition opens with, and the object it puts up
/// where there is one.
fn composition(screen: (u16, u16), number: u16, state: u8, place: Option<(u16, u16)>) -> (out:
    Vec<u8>)
    ensures
        out@ == composition_bytes(screen, number, state, place),
{
    let mut out: Vec<u8> = Vec::with_capacity(19);
    put_be16(&mut out, screen.0);
    put_be16(&mut out, screen.1);
    // The rate the pictures under it arrive at, which a composition states
    // and nothing here varies.
    out.push(0x10);
    put_be16(&mut out, number);
    out.push(state);
    out.push(0x00);
    out.push(0x00);
    match place {
        None => out.push(0),
        Some((x, y)) => {
            out.push(1);
            out.push(0x00);
            out.push(0x00);
            out.push(0x00);
            out.push(0x00);
            put_be16(&mut out, x);
            put_be16(&mut out, y);
        },
    }
    assert(out@ =~= composition_bytes(screen, number, state, place));
    out
}

/// One window, which is all a subtitle needs.
pub open spec fn window_bytes(w: Window) -> Seq<u8> {
    seq![1u8, 0] + be16_bytes(w.0 as int) + be16_bytes(w.1 as int) + be16_bytes(w.2 as int)
        + be16_bytes(w.3 as int)
}

/// One window, which is all a subtitle needs.
fn windows(w: Window) -> (out: Vec<u8>)
    ensures
        out@ == window_bytes(w),
{
    let mut out: Vec<u8> = Vec::with_capacity(10);
    out.push(1);
    out.push(0);
    put_be16(&mut out, w.0);
    put_be16(&mut out, w.1);
    put_be16(&mut out, w.2);
    put_be16(&mut out, w.3);
    assert(out@ =~= window_bytes(w));
    out
}

/// One colour as luma, two colour differences and an opacity, each rounded to
/// the nearest: the conversion television has used since colour, in
/// thousandths.
pub open spec fn colour_bytes(i: int, c: (u8, u8, u8, u8)) -> Seq<u8> {
    seq![
        i as u8,
        ((16_000 + 257 * c.0 + 504 * c.1 + 98 * c.2 + 500) / 1000) as u8,
        ((128_000 + 439 * c.0 - 368 * c.1 - 71 * c.2 + 500) / 1000) as u8,
        ((128_000 - 148 * c.0 - 291 * c.1 + 439 * c.2 + 500) / 1000) as u8,
        c.3,
    ]
}

/// The first `n` colours, in order.
pub open spec fn colours_bytes(colours: Seq<(u8, u8, u8, u8)>, n: int) -> Seq<u8>
    decreases n,
{
    if n <= 0 {
        Seq::empty()
    } else {
        colours_bytes(colours, n - 1) + colour_bytes(n - 1, colours[n - 1])
    }
}

/// How many colours a palette has room for.
pub open spec fn palette_size(colours: Seq<(u8, u8, u8, u8)>) -> int {
    if colours.len() < 255 {
        colours.len() as int
    } else {
        255
    }
}

/// Palette nought, version nought, and the colours.
pub open spec fn palette_bytes(colours: Seq<(u8, u8, u8, u8)>) -> Seq<u8> {
    seq![0u8, 0] + colours_bytes(colours, palette_size(colours))
}

/// The colours, as luma, two colour differences and an opacity.
///
/// Entries that are fully transparent are written anyway: a decoder reads the
/// table by index, and a gap in it is a colour that means nothing.
fn palette(colours: &[(u8, u8, u8, u8)]) -> (out: Vec<u8>)
    ensures
        out@ == palette_bytes(colours@),
{
    let mut out: Vec<u8> = Vec::new();
    out.push(0x00);
    out.push(0x00);
    let n: usize = if colours.len() < 255 {
        colours.len()
    } else {
        255
    };
    let mut i: usize = 0;
    while i < n
        invariant
            i <= n <= 255,
            n <= colours@.len(),
            out@ =~= seq![0u8, 0] + colours_bytes(colours@, i as int),
        decreases n - i,
    {
        let (r, g, b, a): (u8, u8, u8, u8) = colours[i];
        let (red, green, blue): (i32, i32, i32) = (r as i32, g as i32, b as i32);
        let ghost before = out@;
        out.push(i as u8);
        out.push(((16_000 + 257 * red + 504 * green + 98 * blue + 500) / 1000) as u8);
        out.push(((128_000 + 439 * red - 368 * green - 71 * blue + 500) / 1000) as u8);
        out.push(((128_000 - 148 * red - 291 * green + 439 * blue + 500) / 1000) as u8);
        out.push(a);
        assert(out@ =~= before + colour_bytes(i as int, colours@[i as int]));
        i += 1;
    }
    out
}

/// One run of a colour, of at most 0x3FFF pixels, the shortest way it can be
/// written: a pixel or two of a colour is that colour's own byte, and
/// everything else is an escape, a length, and the colour unless it is the
/// transparent nought.
pub open spec fn chunk_bytes(colour: u8, n: int) -> Seq<u8> {
    if colour != 0 && n == 1 {
        seq![colour]
    } else if colour != 0 && n == 2 {
        seq![colour, colour]
    } else if colour == 0 && n <= 0x3F {
        seq![0u8, n as u8]
    } else if colour == 0 {
        seq![0u8, (0x40 + n / 256) as u8, (n % 256) as u8]
    } else if n <= 0x3F {
        seq![0u8, (0x80 + n) as u8, colour]
    } else {
        seq![0u8, (0xC0 + n / 256) as u8, (n % 256) as u8, colour]
    }
}

/// A run of a colour, in as many pieces as its length takes.
pub open spec fn run_bytes(colour: u8, run: int) -> Seq<u8>
    decreases run,
{
    if run <= 0 {
        Seq::empty()
    } else {
        let take = if run < 0x3FFF {
            run
        } else {
            0x3FFF
        };
        chunk_bytes(colour, take) + run_bytes(colour, run - take)
    }
}

/// How far the colour at `at` runs, from `i` on.
pub open spec fn run_end(line: Seq<u8>, colour: u8, i: int) -> int
    decreases line.len() - i,
{
    if i < 0 || i >= line.len() || line[i] != colour {
        i
    } else {
        run_end(line, colour, i + 1)
    }
}

/// A run goes no further than its line, and is all of one colour.
proof fn lemma_run_end(line: Seq<u8>, colour: u8, i: int)
    requires
        0 <= i <= line.len(),
    ensures
        i <= run_end(line, colour, i) <= line.len(),
        forall|k: int| i <= k < run_end(line, colour, i) ==> line[k] == colour,
    decreases line.len() - i,
{
    if i < line.len() && line[i] == colour {
        lemma_run_end(line, colour, i + 1);
    }
}

/// One row, from `at` on.
pub open spec fn line_bytes(line: Seq<u8>, at: int) -> Seq<u8>
    decreases line.len() - at,
{
    if at < 0 || at >= line.len() {
        Seq::empty()
    } else {
        let end = run_end(line, line[at], at + 1);
        if end <= at || end > line.len() {
            Seq::empty()
        } else {
            run_bytes(line[at], end - at) + line_bytes(line, end)
        }
    }
}

/// A picture, a row at a time from `row` on, each ended by the escape twice.
/// A row the picture does not have ends it.
pub open spec fn picture_bytes(indices: Seq<u8>, width: int, height: int, row: int) -> Seq<u8>
    decreases height - row,
{
    if row >= height || row * width + width > indices.len() {
        Seq::empty()
    } else {
        line_bytes(indices.subrange(row * width, row * width + width), 0) + seq![0u8, 0]
            + picture_bytes(indices, width, height, row + 1)
    }
}

/// Write one run of a colour.
pub fn write_run(out: &mut Vec<u8>, colour: u8, run: usize)
    ensures
        final(out)@ == old(out)@ + run_bytes(colour, run as int),
{
    let ghost start = out@;
    let mut left: usize = run;
    while left > 0
        invariant
            left <= run,
            start + run_bytes(colour, run as int) =~= out@ + run_bytes(colour, left as int),
        decreases left,
    {
        let n: usize = if left < 0x3FFF {
            left
        } else {
            0x3FFF
        };
        let ghost before = out@;
        if colour != 0 && n <= 2 {
            // Two of a colour cost two bytes either way; written plainly they
            // cost nothing to read.
            out.push(colour);
            if n == 2 {
                out.push(colour);
            }
        } else if colour == 0 && n <= 0x3F {
            out.push(0x00);
            out.push(n as u8);
        } else if colour == 0 {
            out.push(0x00);
            out.push(0x40 + (n / 256) as u8);
            out.push((n % 256) as u8);
        } else if n <= 0x3F {
            out.push(0x00);
            out.push(0x80 + n as u8);
            out.push(colour);
        } else {
            out.push(0x00);
            out.push(0xC0 + (n / 256) as u8);
            out.push((n % 256) as u8);
            out.push(colour);
        }
        assert(out@ =~= before + chunk_bytes(colour, n as int));
        left = left - n;
    }
}

/// Run-length code one picture, a row at a time.
pub fn rle(indices: &[u8], width: usize, height: usize) -> (out: Vec<u8>)
    requires
        width * height <= usize::MAX,
    ensures
        out@ == picture_bytes(indices@, width as int, height as int, 0),
{
    let mut out: Vec<u8> = Vec::new();
    let mut row: usize = 0;
    while row < height
        invariant_except_break
            width * height <= usize::MAX,
            row <= height,
            picture_bytes(indices@, width as int, height as int, 0) =~= out@ + picture_bytes(
                indices@,
                width as int,
                height as int,
                row as int,
            ),
        ensures
            picture_bytes(indices@, width as int, height as int, 0) =~= out@,
        decreases height - row,
    {
        assert(row * width + width <= width * height) by (nonlinear_arith)
            requires
                0 <= row < height,
                width >= 0,
        ;
        let start: usize = row * width;
        if indices.len() < start + width {
            break;
        }
        let line: &[u8] = slice_subrange(indices, start, start + width);
        let ghost before = out@;
        let mut at: usize = 0;
        while at < width
            invariant
                line@.len() == width,
                at <= width,
                before + line_bytes(line@, 0) =~= out@ + line_bytes(line@, at as int),
            decreases width - at,
        {
            let colour: u8 = line[at];
            let mut end: usize = at + 1;
            while end < width && line[end] == colour
                invariant
                    line@.len() == width,
                    at < end <= width,
                    run_end(line@, colour, at + 1) == run_end(line@, colour, end as int),
                decreases width - end,
            {
                end += 1;
            }
            write_run(&mut out, colour, end - at);
            at = end;
        }
        out.push(0x00);
        out.push(0x00);
        row += 1;
    }
    out
}

/// The byte at `i`, or nought past the end.
pub open spec fn code_byte(d: Seq<u8>, i: int) -> u8 {
    if 0 <= i < d.len() {
        d[i]
    } else {
        0
    }
}

/// What is left behind the first `n`.
pub open spec fn left_after(d: Seq<u8>, n: int) -> Seq<u8> {
    if n <= d.len() {
        d.skip(n)
    } else {
        Seq::empty()
    }
}

/// A picture with `n` pixels of a row that starts at `base` painted from `x`
/// on, as far as the row goes.
pub open spec fn painted(
    out: Seq<u8>,
    base: int,
    width: int,
    x: int,
    n: int,
    colour: u8,
) -> Seq<u8> {
    Seq::new(
        out.len(),
        |i: int|
            if base + x <= i < base + x + n && i < base + width {
                colour
            } else {
                out[i]
            },
    )
}

/// Where a row has reached after `n` more pixels.
pub open spec fn across(x: int, n: int, width: int) -> int {
    if x + n < width {
        x + n
    } else {
        width
    }
}

/// One code: a colour, how many pixels of it, and how many bytes it took.
pub struct Code {
    pub colour: u8,
    pub run: int,
    pub step: int,
}

/// The code at the front; not asked of the escape that ends a row.
pub open spec fn code_at(d: Seq<u8>) -> Code {
    let b = code_byte(d, 1);
    if d[0] != 0 {
        Code { colour: d[0], run: 1, step: 1 }
    } else if b < 0x40 {
        Code { colour: 0, run: b as int, step: 2 }
    } else if b < 0x80 {
        Code { colour: 0, run: (b % 64) * 256 + code_byte(d, 2), step: 3 }
    } else if b < 0xC0 {
        Code { colour: code_byte(d, 2), run: (b % 64) as int, step: 3 }
    } else {
        Code { colour: code_byte(d, 3), run: (b % 64) * 256 + code_byte(d, 2), step: 4 }
    }
}

/// A picture read back from where the codes have reached.
pub open spec fn read_from(
    d: Seq<u8>,
    x: int,
    y: int,
    width: int,
    height: int,
    out: Seq<u8>,
) -> Seq<u8>
    decreases d.len(),
{
    if d.len() == 0 || y >= height {
        out
    } else if d[0] == 0 && code_byte(d, 1) == 0 {
        read_from(left_after(d, 2), 0, y + 1, width, height, out)
    } else {
        let c = code_at(d);
        read_from(
            left_after(d, c.step),
            across(x, c.run, width),
            y,
            width,
            height,
            painted(out, y * width, width, x, c.run, c.colour),
        )
    }
}

/// A blank picture.
pub open spec fn blank_picture(n: int) -> Seq<u8> {
    Seq::new(n as nat, |i: int| 0u8)
}

/// Read a run-length coded picture back.
pub fn unrle(data: &[u8], width: usize, height: usize) -> (out: Vec<u8>)
    requires
        width * height <= usize::MAX,
    ensures
        out@ == read_from(
            data@,
            0,
            0,
            width as int,
            height as int,
            blank_picture(width * height),
        ),
{
    let size: usize = width * height;
    let mut out: Vec<u8> = Vec::new();
    out.resize(size, 0);
    assert(out@ =~= blank_picture(width * height));
    let mut at: usize = 0;
    let mut x: usize = 0;
    let mut y: usize = 0;
    let ghost all = read_from(
        data@,
        0,
        0,
        width as int,
        height as int,
        blank_picture(width * height),
    );
    assert(data@.skip(0) =~= data@);
    while at < data.len() && y < height
        invariant
            size == width * height,
            size <= usize::MAX,
            out@.len() == size,
            x <= width,
            at <= data@.len(),
            all == read_from(
                data@.skip(at as int),
                x as int,
                y as int,
                width as int,
                height as int,
                out@,
            ),
        decreases data@.len() - at,
    {
        let ghost d = data@.skip(at as int);
        let room: usize = data.len() - at;
        let b: u8 = if room > 1 {
            data[at + 1]
        } else {
            0
        };
        let b2: u8 = if room > 2 {
            data[at + 2]
        } else {
            0
        };
        let b3: u8 = if room > 3 {
            data[at + 3]
        } else {
            0
        };
        if data[at] == 0 && b == 0 {
            let step: usize = if room > 2 {
                2
            } else {
                room
            };
            assert(data@.skip(at + step) =~= left_after(d, 2));
            y += 1;
            x = 0;
            at += step;
            continue;
        }
        let (colour, run, long): (u8, usize, usize) = if data[at] != 0 {
            (data[at], 1, 1)
        } else if b < 0x40 {
            (0, b as usize, 2)
        } else if b < 0x80 {
            (0, (b % 64) as usize * 256 + b2 as usize, 3)
        } else if b < 0xC0 {
            (b2, (b % 64) as usize, 3)
        } else {
            (b3, (b % 64) as usize * 256 + b2 as usize, 4)
        };
        let ghost c = code_at(d);
        assert(c.colour == colour && c.run == run && c.step == long);
        let step: usize = if room > long {
            long
        } else {
            room
        };
        assert(data@.skip(at + step) =~= left_after(d, c.step));
        assert(y * width + width <= size) by (nonlinear_arith)
            requires
                0 <= y < height,
                size == width * height,
                width >= 0,
        ;
        let base: usize = y * width;
        let stop: usize = if width - x > run {
            x + run
        } else {
            width
        };
        let ghost before = out@;
        let mut k: usize = x;
        while k < stop
            invariant
                x <= k <= stop <= width,
                base + width <= size,
                out@.len() == size,
                before.len() == size,
                forall|i: int|
                    0 <= i < size ==> out@[i] == (if base + x <= i < base + k {
                        colour
                    } else {
                        before[i]
                    }),
            decreases stop - k,
        {
            out.set(base + k, colour);
            k += 1;
        }
        assert(out@ =~= painted(before, base as int, width as int, x as int, run as int, colour));
        x = stop;
        at += step;
    }
    out
}

/// Painting in two goes is painting in one.
proof fn lemma_paint_on(
    out: Seq<u8>,
    base: int,
    width: int,
    x: int,
    n: int,
    m: int,
    colour: u8,
)
    requires
        0 <= x <= width,
        0 <= n,
        0 <= m,
    ensures
        painted(
            painted(out, base, width, x, n, colour),
            base,
            width,
            across(x, n, width),
            m,
            colour,
        ) == painted(out, base, width, x, n + m, colour),
{
    assert(painted(
        painted(out, base, width, x, n, colour),
        base,
        width,
        across(x, n, width),
        m,
        colour,
    ) =~= painted(out, base, width, x, n + m, colour));
}

/// One piece of a run reads back as that many pixels of its colour.
proof fn lemma_chunk_reads(
    colour: u8,
    n: int,
    rest: Seq<u8>,
    x: int,
    y: int,
    width: int,
    height: int,
    out: Seq<u8>,
)
    requires
        1 <= n <= 0x3FFF,
        0 <= x <= width,
        y < height,
    ensures
        read_from(chunk_bytes(colour, n) + rest, x, y, width, height, out) == read_from(
            rest,
            across(x, n, width),
            y,
            width,
            height,
            painted(out, y * width, width, x, n, colour),
        ),
{
    let chunk = chunk_bytes(colour, n);
    let d = chunk + rest;
    assert(d.len() > 0);
    if colour != 0 && n == 2 {
        let tail = seq![colour] + rest;
        assert(left_after(d, 1) =~= tail);
        assert(left_after(tail, 1) =~= rest);
        assert(d[0] == colour);
        assert(tail[0] == colour);
        lemma_paint_on(out, y * width, width, x, 1, 1, colour);
        assert(across(across(x, 1, width), 1, width) == across(x, 2, width));
        let once = painted(out, y * width, width, x, 1, colour);
        assert(read_from(d, x, y, width, height, out) == read_from(
            tail,
            across(x, 1, width),
            y,
            width,
            height,
            once,
        ));
    } else {
        assert(left_after(d, chunk.len() as int) =~= rest);
        assert forall|i: int| 0 <= i < chunk.len() implies d[i] == chunk[i] by {}
        if chunk.len() > 1 {
            assert(code_byte(d, 1) == chunk[1]);
        }
        if chunk.len() > 2 {
            assert(code_byte(d, 2) == chunk[2]);
        }
        if chunk.len() > 3 {
            assert(code_byte(d, 3) == chunk[3]);
        }
        let c = code_at(d);
        assert(c.colour == colour && c.run == n && c.step == chunk.len());
    }
}

/// A run reads back as its pixels.
proof fn lemma_run_reads(
    colour: u8,
    run: int,
    rest: Seq<u8>,
    x: int,
    y: int,
    width: int,
    height: int,
    out: Seq<u8>,
)
    requires
        0 <= run,
        0 <= x <= width,
        y < height,
    ensures
        read_from(run_bytes(colour, run) + rest, x, y, width, height, out) == read_from(
            rest,
            across(x, run, width),
            y,
            width,
            height,
            painted(out, y * width, width, x, run, colour),
        ),
    decreases run,
{
    if run == 0 {
        assert(run_bytes(colour, run) + rest =~= rest);
        assert(painted(out, y * width, width, x, 0, colour) =~= out);
    } else {
        let take = if run < 0x3FFF {
            run
        } else {
            0x3FFF
        };
        let more = run_bytes(colour, run - take);
        assert(run_bytes(colour, run) + rest =~= chunk_bytes(colour, take) + (more + rest));
        lemma_chunk_reads(colour, take, more + rest, x, y, width, height, out);
        let once = painted(out, y * width, width, x, take, colour);
        lemma_run_reads(
            colour,
            run - take,
            rest,
            across(x, take, width),
            y,
            width,
            height,
            once,
        );
        lemma_paint_on(out, y * width, width, x, take, run - take, colour);
        assert(across(across(x, take, width), run - take, width) == across(x, run, width));
    }
}

/// A picture with a row from `x` on written over it.
pub open spec fn with_row(out: Seq<u8>, base: int, line: Seq<u8>, x: int) -> Seq<u8> {
    Seq::new(
        out.len(),
        |i: int|
            if base + x <= i < base + line.len() {
                line[i - base]
            } else {
                out[i]
            },
    )
}

/// A row reads back as its pixels.
proof fn lemma_line_reads(
    line: Seq<u8>,
    at: int,
    rest: Seq<u8>,
    y: int,
    height: int,
    out: Seq<u8>,
)
    requires
        0 <= at <= line.len(),
        y < height,
    ensures
        read_from(line_bytes(line, at) + rest, at, y, line.len() as int, height, out) == read_from(
            rest,
            line.len() as int,
            y,
            line.len() as int,
            height,
            with_row(out, y * line.len(), line, at),
        ),
    decreases line.len() - at,
{
    let width = line.len() as int;
    if at == line.len() {
        assert(line_bytes(line, at) + rest =~= rest);
        assert(with_row(out, y * width, line, at) =~= out);
    } else {
        let colour = line[at];
        lemma_run_end(line, colour, at + 1);
        let end = run_end(line, colour, at + 1);
        let more = line_bytes(line, end);
        assert(line_bytes(line, at) + rest =~= run_bytes(colour, end - at) + (more + rest));
        lemma_run_reads(colour, end - at, more + rest, at, y, width, height, out);
        let once = painted(out, y * width, width, at, end - at, colour);
        lemma_line_reads(line, end, rest, y, height, once);
        assert(with_row(once, y * width, line, end) =~= with_row(out, y * width, line, at));
    }
}

/// A picture of so many rows and columns, read from `row` on, with every row
/// before it in place.
proof fn lemma_picture_reads(
    indices: Seq<u8>,
    width: int,
    height: int,
    row: int,
    out: Seq<u8>,
)
    requires
        0 <= row <= height,
        0 <= width,
        indices.len() >= width * height,
        out.len() == width * height,
        forall|i: int| 0 <= i < row * width ==> out[i] == indices[i],
    ensures
        read_from(
            picture_bytes(indices, width, height, row),
            0,
            row,
            width,
            height,
            out,
        ) == indices.take(width * height),
    decreases height - row,
{
    if row >= height {
        assert(row * width == width * height) by (nonlinear_arith)
            requires
                row == height,
        ;
        assert(out =~= indices.take(width * height));
    } else {
        assert(row * width + width <= width * height && (row + 1) * width == row * width + width
            && 0 <= row * width) by (nonlinear_arith)
            requires
                0 <= row < height,
                width >= 0,
        ;
        let line = indices.subrange(row * width, row * width + width);
        let more = picture_bytes(indices, width, height, row + 1);
        let rest = seq![0u8, 0] + more;
        assert(picture_bytes(indices, width, height, row) =~= line_bytes(line, 0) + rest);
        lemma_line_reads(line, 0, rest, row, height, out);
        let next = with_row(out, row * width, line, 0);
        assert(left_after(rest, 2) =~= more);
        assert(rest[0] == 0 && rest[1] == 0);
        assert(read_from(rest, width, row, width, height, next) == read_from(
            more,
            0,
            row + 1,
            width,
            height,
            next,
        ));
        assert forall|i: int| 0 <= i < (row + 1) * width implies next[i] == indices[i] by {
            if i >= row * width {
                assert(next[i] == line[i - row * width]);
            }
        }
        lemma_picture_reads(indices, width, height, row + 1, next);
    }
}

/// A picture written as runs reads back as the same pixels.
pub proof fn law_a_picture_survives_being_written(indices: Seq<u8>, width: int, height: int)
    requires
        0 <= width,
        0 <= height,
        indices.len() >= width * height,
    ensures
        read_from(
            picture_bytes(indices, width, height, 0),
            0,
            0,
            width,
            height,
            blank_picture(width * height),
        ) == indices.take(width * height),
{
    assert(0 <= width * height) by (nonlinear_arith)
        requires
            0 <= width,
            0 <= height,
    ;
    lemma_picture_reads(indices, width, height, 0, blank_picture(width * height));
}

/// What an object segment has room for behind what every one of them opens
/// with.
pub const ROOM: usize = 0xFFE0;

/// How much of an object the next segment takes.
pub open spec fn object_take(rest: Seq<u8>, first: bool) -> int {
    let room: int = if first {
        ROOM - 11
    } else {
        ROOM - 7
    };
    if rest.len() < room {
        rest.len() as int
    } else {
        room
    }
}

/// One segment of an object: which piece of it this is, and in the first the
/// length of the whole and its shape.
pub open spec fn object_segment(
    rest: Seq<u8>,
    first: bool,
    whole: int,
    width: u16,
    height: u16,
) -> Seq<u8> {
    let take = object_take(rest, first);
    let last = take == rest.len();
    seq![
        0u8,
        0,
        0,
        if first && last {
            0xC0
        } else if first {
            0x80
        } else if last {
            0x40
        } else {
            0x00
        },
    ] + (if first {
        seq![
            (whole / 0x1_0000 % 256) as u8,
            (whole / 0x100 % 256) as u8,
            (whole % 256) as u8,
        ] + be16_bytes(width as int) + be16_bytes(height as int)
    } else {
        Seq::empty()
    }) + rest.take(take)
}

/// An object in as many segments as it takes.
pub open spec fn object_segments(
    rest: Seq<u8>,
    first: bool,
    whole: int,
    width: u16,
    height: u16,
) -> Seq<Seq<u8>>
    decreases rest.len(), (if first { 1int } else { 0 }),
{
    if !first && rest.len() == 0 {
        Seq::empty()
    } else {
        seq![object_segment(rest, first, whole, width, height)] + object_segments(
            rest.skip(object_take(rest, first)),
            false,
            whole,
            width,
            height,
        )
    }
}

/// The picture as object segments.
pub open spec fn objects_of(indices: Seq<u8>, width: u16, height: u16) -> Seq<Seq<u8>> {
    let data = picture_bytes(indices, width as int, height as int, 0);
    object_segments(data, true, (data.len() + 4) as int, width, height)
}

/// The picture, run-length coded, in as many segments as it takes.
///
/// One is the ordinary answer. The split is here because the format's length
/// field is sixteen bits and a full-screen picture of noise would not fit.
fn objects(picture: &Picture) -> (out: Vec<Vec<u8>>)
    ensures
        crate::bytes::contents(out@) == objects_of(
            picture.indices@,
            picture.width,
            picture.height,
        ),
{
    assert(picture.width * picture.height <= 0xFFFF_FFFF) by (nonlinear_arith)
        requires
            0 <= picture.width <= 0xFFFF,
            0 <= picture.height <= 0xFFFF,
    ;
    let data: Vec<u8> = rle(picture.indices, picture.width as usize, picture.height as usize);
    // Three bytes are all the field has, so three bytes are all that is kept.
    let whole: usize = (data.len() % 0x100_0000 + 4) % 0x100_0000;
    let ghost total = data@.len() + 4;
    assert(whole == total % 0x100_0000);
    assert(whole / 0x1_0000 == total / 0x1_0000 % 256 && whole / 0x100 % 256 == total / 0x100 % 256
        && whole % 256 == total % 256) by {
        lemma_three_bytes(total as int);
    }
    let mut out: Vec<Vec<u8>> = Vec::new();
    let mut at: usize = 0;
    let mut first: bool = true;
    let ghost all = objects_of(picture.indices@, picture.width, picture.height);
    assert(crate::bytes::contents(out@) =~= Seq::empty());
    assert(data@.skip(0) =~= data@);
    while first || at < data.len()
        invariant
            at <= data@.len(),
            total == data@.len() + 4,
            whole / 0x1_0000 == total / 0x1_0000 % 256,
            whole / 0x100 % 256 == total / 0x100 % 256,
            whole % 256 == total % 256,
            whole < 0x100_0000,
            all =~= crate::bytes::contents(out@) + object_segments(
                data@.skip(at as int),
                first,
                total as int,
                picture.width,
                picture.height,
            ),
        decreases data@.len() - at, (if first { 1int } else { 0 }),
    {
        let ghost rest = data@.skip(at as int);
        let left: usize = data.len() - at;
        let room: usize = if first {
            ROOM - 11
        } else {
            ROOM - 7
        };
        let take: usize = if left < room {
            left
        } else {
            room
        };
        let last: bool = take == left;
        let mut seg: Vec<u8> = Vec::new();
        seg.push(0);
        seg.push(0);
        seg.push(0);
        seg.push(
            if first && last {
                0xC0
            } else if first {
                0x80
            } else if last {
                0x40
            } else {
                0x00
            },
        );
        if first {
            seg.push((whole / 0x1_0000) as u8);
            seg.push((whole / 0x100 % 256) as u8);
            seg.push((whole % 256) as u8);
            put_be16(&mut seg, picture.width);
            put_be16(&mut seg, picture.height);
        }
        let part: &[u8] = slice_subrange(data.as_slice(), at, at + take);
        put(&mut seg, part);
        assert(part@ =~= rest.take(take as int));
        assert(seg@ =~= object_segment(
            rest,
            first,
            total as int,
            picture.width,
            picture.height,
        ));
        let ghost before = crate::bytes::contents(out@);
        let ghost made = seg@;
        out.push(seg);
        assert(crate::bytes::contents(out@) =~= before.push(made));
        at += take;
        assert(data@.skip(at as int) =~= rest.skip(take as int));
        first = false;
    }
    out
}

/// Three bytes of a number are the bytes of what three bytes can hold of it.
proof fn lemma_three_bytes(n: int)
    requires
        0 <= n,
    ensures
        n % 0x100_0000 / 0x1_0000 == n / 0x1_0000 % 256,
        n % 0x100_0000 / 0x100 % 256 == n / 0x100 % 256,
        n % 0x100_0000 % 256 == n % 256,
{
    let q = n / 0x100_0000;
    let r = n % 0x100_0000;
    assert(n == q * 0x100_0000 + r);
    assert(n / 0x1_0000 == q * 256 + r / 0x1_0000);
    assert(n / 0x100 == q * 0x1_0000 + r / 0x100);
}

/// A packet decoded at one instant and shown at another.
pub open spec fn timed(dts: int, pts: int, kind: u8, body: Seq<u8>) -> HeldModel {
    HeldModel { pts, dts, data: packed_bytes(kind, body) }
}

/// When a set shown at `at` is handed over.
pub open spec fn handed_over(at: int) -> int {
    later(at - LEAD, 0)
}

/// The object packets of a set.
pub open spec fn object_packets(dts: int, objects: Seq<Seq<u8>>) -> Seq<HeldModel> {
    objects.map_values(|o: Seq<u8>| timed(dts, dts, ODS, o))
}

/// The display set that puts a picture up.
pub open spec fn drawn(
    screen: (u16, u16),
    number: u16,
    at: int,
    window: Window,
    indices: Seq<u8>,
    palette: Seq<(u8, u8, u8, u8)>,
) -> Seq<HeldModel> {
    let dts = handed_over(at);
    seq![
        timed(
            dts,
            at,
            PCS,
            composition_bytes(screen, number, EPOCH_START, Some((window.0, window.1))),
        ),
        timed(dts, dts, WDS, window_bytes(window)),
        timed(dts, dts, PDS, palette_bytes(palette)),
    ] + object_packets(dts, objects_of(indices, window.2, window.3)) + seq![
        timed(dts, dts, END, Seq::empty()),
    ]
}

/// The display set that takes a picture down again.
pub open spec fn erased(screen: (u16, u16), number: u16, at: int, window: Window) -> Seq<
    HeldModel,
> {
    seq![
        timed(at, at, PCS, composition_bytes(screen, number, 0x00, None)),
        timed(at, at, WDS, window_bytes(window)),
        timed(at, at, END, Seq::empty()),
    ]
}

fn held(dts: i64, pts: i64, kind: u8, body: &[u8]) -> (h: Held)
    ensures
        h@ == timed(dts as int, pts as int, kind, body@),
{
    Held { pts, dts, data: packed(kind, body) }
}

/// The window a picture is drawn in.
pub open spec fn window_of(p: Picture) -> Window {
    (p.x, p.y, p.width, p.height)
}

/// The display set that puts `picture` up at `at`, on a screen of `screen`.
///
/// Five segments, which is what a disc sends: the composition, the window it
/// draws inside, the palette, the picture, and the end. The composition opens
/// an epoch, because a converted subtitle stands on nothing that came before
/// it.
pub fn draw(screen: (u16, u16), number: u16, at: i64, picture: &Picture) -> (out: Vec<Held>)
    requires
        in_reach(at as int),
    ensures
        held_models(out@) == drawn(
            screen,
            number,
            at as int,
            window_of(*picture),
            picture.indices@,
            picture.palette@,
        ),
{
    let dts: i64 = if at > LEAD {
        at - LEAD
    } else {
        0
    };
    let window: Window = (picture.x, picture.y, picture.width, picture.height);
    let opening: Vec<u8> = composition(screen, number, EPOCH_START, Some((picture.x, picture.y)));
    let frame: Vec<u8> = windows(window);
    let colours: Vec<u8> = palette(picture.palette);
    let nothing: Vec<u8> = Vec::new();
    assert(nothing@ =~= Seq::empty());
    let pieces: Vec<Vec<u8>> = objects(picture);
    let ghost objs = crate::bytes::contents(pieces@);
    let mut out: Vec<Held> = Vec::new();
    out.push(held(dts, at, PCS, opening.as_slice()));
    out.push(held(dts, dts, WDS, frame.as_slice()));
    out.push(held(dts, dts, PDS, colours.as_slice()));
    let ghost head = held_models(out@);
    assert(head =~= seq![
        timed(dts as int, at as int, PCS, opening@),
        timed(dts as int, dts as int, WDS, frame@),
        timed(dts as int, dts as int, PDS, colours@),
    ]);
    let mut i: usize = 0;
    while i < pieces.len()
        invariant
            i <= pieces@.len(),
            objs == crate::bytes::contents(pieces@),
            held_models(out@) =~= head + object_packets(dts as int, objs.take(i as int)),
        decreases pieces@.len() - i,
    {
        assert(objs[i as int] == pieces@[i as int]@);
        let ghost before = held_models(out@);
        let one: Held = held(dts, dts, ODS, pieces[i].as_slice());
        let ghost model = one@;
        out.push(one);
        assert(held_models(out@) =~= before.push(model));
        assert(object_packets(dts as int, objs.take(i + 1)) =~= object_packets(
            dts as int,
            objs.take(i as int),
        ).push(model));
        i += 1;
    }
    assert(objs.take(i as int) =~= objs);
    let ghost before = held_models(out@);
    out.push(held(dts, dts, END, nothing.as_slice()));
    assert(held_models(out@) =~= before.push(timed(dts as int, dts as int, END, Seq::empty())));
    assert(held_models(out@) =~= drawn(
        screen,
        number,
        at as int,
        window,
        picture.indices@,
        picture.palette@,
    ));
    out
}

/// The display set that takes it down again: a composition with no objects in
/// it, and the window it is clearing.
pub fn erase(screen: (u16, u16), number: u16, at: i64, window: Window) -> (out: Vec<Held>)
    ensures
        held_models(out@) == erased(screen, number, at as int, window),
{
    let opening: Vec<u8> = composition(screen, number, 0x00, None);
    let frame: Vec<u8> = windows(window);
    let nothing: Vec<u8> = Vec::new();
    assert(nothing@ =~= Seq::empty());
    let mut out: Vec<Held> = Vec::new();
    out.push(held(at, at, PCS, opening.as_slice()));
    out.push(held(at, at, WDS, frame.as_slice()));
    out.push(held(at, at, END, nothing.as_slice()));
    assert(held_models(out@) =~= erased(screen, number, at as int, window));
    out
}

/// The state a converted stream is in, so that one subtitle replaces the last
/// and the last is taken down when a range ends.
#[derive(Debug)]
pub struct Composer {
    /// The last composition number. A disc counts these up across the whole
    /// recording and so does this.
    number: u16,
    /// The window the standing picture is drawn in, and when it should come
    /// down, where that was said.
    standing: Option<(Window, Option<i64>)>,
}

/// What a [`Composer`] holds.
pub struct ComposerModel {
    pub number: u16,
    pub standing: Option<(Window, Option<i64>)>,
}

impl View for Composer {
    type V = ComposerModel;

    closed spec fn view(&self) -> ComposerModel {
        ComposerModel { number: self.number, standing: self.standing }
    }
}

/// The number after this one.
pub open spec fn counted_on(number: u16) -> u16 {
    ((number + 1) % 0x1_0000) as u16
}

/// What taking down whatever is standing comes to, at the moment it was due
/// or at `at`, whichever comes first.
pub open spec fn down(c: ComposerModel, screen: (u16, u16), at: i64) -> (
    ComposerModel,
    Seq<HeldModel>,
) {
    match c.standing {
        None => (c, Seq::empty()),
        Some((window, until)) => {
            let number = counted_on(c.number);
            let when = match until {
                Some(u) => if u < at {
                    u
                } else {
                    at
                },
                None => at,
            };
            (
                ComposerModel { number, standing: None },
                erased(screen, number, when as int, window),
            )
        },
    }
}

/// What has to come down before a picture shown at `at`: the one that is up,
/// where it says when it goes and that is no later. Otherwise the new
/// composition replaces it.
pub open spec fn down_before(c: ComposerModel, screen: (u16, u16), at: i64) -> (
    ComposerModel,
    Seq<HeldModel>,
) {
    match c.standing {
        Some((_, Some(until))) => if until <= at {
            down(c, screen, until)
        } else {
            (ComposerModel { standing: None, ..c }, Seq::empty())
        },
        _ => (ComposerModel { standing: None, ..c }, Seq::empty()),
    }
}

impl Default for Composer {
    fn default() -> (c: Composer)
        ensures
            c@ == (ComposerModel { number: 0, standing: None }),
    {
        Composer { number: 0, standing: None }
    }
}

impl Composer {
    fn count(&mut self)
        ensures
            final(self)@ == (ComposerModel {
                number: counted_on(old(self)@.number),
                ..old(self)@
            }),
    {
        self.number = if self.number == 0xFFFF {
            0
        } else {
            self.number + 1
        };
    }

    /// Put a picture up at `at`, taking down whatever was there if its time
    /// has come. `until` is when this one should go.
    pub fn show(
        &mut self,
        screen: (u16, u16),
        at: i64,
        until: Option<i64>,
        picture: &Picture,
    ) -> (out: Vec<Held>)
        requires
            in_reach(at as int),
        ensures
            ({
                let (c, gone) = down_before(old(self)@, screen, at);
                let number = counted_on(c.number);
                &&& final(self)@ == (ComposerModel {
                    number,
                    standing: Some((window_of(*picture), until)),
                })
                &&& held_models(out@) == gone + drawn(
                    screen,
                    number,
                    at as int,
                    window_of(*picture),
                    picture.indices@,
                    picture.palette@,
                )
            }),
    {
        let mut out: Vec<Held> = self.take_down_before(screen, at);
        self.count();
        let mut set: Vec<Held> = draw(screen, self.number, at, picture);
        let ghost gone = held_models(out@);
        let ghost up = held_models(set@);
        out.append(&mut set);
        assert(held_models(out@) =~= gone + up);
        self.standing = Some(((picture.x, picture.y, picture.width, picture.height), until));
        out
    }

    /// Take down whatever is standing, at the moment it was due or at `at`,
    /// whichever comes first.
    pub fn take_down(&mut self, screen: (u16, u16), at: i64) -> (out: Vec<Held>)
        ensures
            final(self)@ == down(old(self)@, screen, at).0,
            held_models(out@) == down(old(self)@, screen, at).1,
    {
        match self.standing {
            None => {
                let out: Vec<Held> = Vec::new();
                assert(held_models(out@) =~= Seq::empty());
                out
            },
            Some((window, until)) => {
                self.standing = None;
                self.count();
                let when: i64 = match until {
                    Some(u) => if u < at {
                        u
                    } else {
                        at
                    },
                    None => at,
                };
                erase(screen, self.number, when, window)
            },
        }
    }

    /// Whether anything is on screen.
    pub fn standing(&self) -> (r: bool)
        ensures
            r == (self@.standing is Some),
    {
        self.standing.is_some()
    }

    fn take_down_before(&mut self, screen: (u16, u16), at: i64) -> (out: Vec<Held>)
        ensures
            final(self)@ == down_before(old(self)@, screen, at).0,
            held_models(out@) == down_before(old(self)@, screen, at).1,
    {
        if let Some((_, Some(until))) = self.standing {
            if until <= at {
                return self.take_down(screen, until);
            }
        }
        self.standing = None;
        let out: Vec<Held> = Vec::new();
        assert(held_models(out@) =~= Seq::empty());
        out
    }
}

} // verus!
