//! What a proxy is encoded as.
use crate::chars::{
    chars_of, put_text, same_text, split_at, split_chars, string_of, texts, trim,
    trimmed,
};
use crate::decimal::{read_unsigned, unsigned_value};
use crate::recording::Ratio;
use crate::time::{round_div, rounded, SECOND};
use vstd::prelude::*;

verus! {

/// Default width. The picture on screen is what this has to hold up at: the
/// preview asks for the stage's own pixels, so a proxy narrower than the stage
/// is a soft picture however well it is encoded. Not the stage's full width
/// because the build has to be paid for at the moment the file is opened, and
/// past here the wait starts growing faster than the picture improves.
pub const WIDTH: u32 = 1280;

/// The ceiling on the picture, whatever is asked for.
///
/// Past this there is nothing left for the timeline to show. It is a ceiling
/// on the whole picture rather than on the width alone -- 4:3 material 1920
/// across would be 1440 lines tall -- so the width comes down until the height
/// fits inside it too.
pub const MAX_WIDTH: u32 = 1920;

pub const MAX_HEIGHT: u32 = 1080;

/// Default quality, in thousandths of x264's CRF units -- see
/// [`ProxyOptions::quality`].
pub const QUALITY: i64 = 22_000;

/// The encoders to try when none is named. Hardware first, and `mpeg4` is the
/// fallback that is always there in any libavcodec build.
pub const ENCODERS: [&'static str; 6] = [
    "h264_nvenc",
    "h264_videotoolbox",
    "h264_amf",
    "h264_qsv",
    "libx264",
    "mpeg4",
];

/// What the encoders to try are called.
pub open spec fn usual() -> Seq<Seq<char>> {
    ENCODERS@.map_values(|name: &'static str| name@)
}

/// What a proxy is made by.
#[derive(Debug)]
pub struct ProxyOptions {
    /// Width in square pixels. The height follows from the source's aspect
    /// ratio, so 1440x1080 broadcast material comes out 16:9.
    pub width: u32,
    /// How good the picture has to be, in thousandths of x264's CRF units --
    /// lower is better, and 18 to 24 units is the useful span. Every encoder
    /// is given the nearest thing it has to a constant-quality mode and this
    /// number mapped onto its own scale, so the knob means the same thing
    /// whichever one takes the job.
    ///
    /// Constant quality rather than a bit rate, because the proxy is a scratch
    /// file on local disk: it is worth exactly what it looks like and nothing
    /// else.
    pub quality: i64,
    /// A bit rate to hold to instead, for an encoder with no constant-quality
    /// mode at all.
    pub bit_rate: Option<usize>,
    /// Encoders to try, in order; the first that opens is used.
    pub encoders: Vec<String>,
    /// Longest run without a keyframe. Only a backstop: the source's own
    /// access points are keyframes here whatever this says.
    pub max_gop: i64,
}

/// What names hold.
pub open spec fn names(list: Seq<String>) -> Seq<Seq<char>> {
    list.map_values(|s: String| s@)
}

/// The encoders to try: those named, with a comma between them, or the usual
/// ones where none is.
pub open spec fn encoders_for(asked: Option<Seq<char>>) -> Seq<Seq<char>> {
    match asked {
        Some(s) => if trimmed(s).len() > 0 {
            split_at(s, ',').map_values(|part: Seq<char>| trimmed(part))
        } else {
            usual()
        },
        None => usual(),
    }
}

/// What a text that may not be there holds.
pub open spec fn said(s: Option<&str>) -> Option<Seq<char>> {
    match s {
        Some(s) => Some(s@),
        None => None,
    }
}

fn usual_encoders() -> (out: Vec<String>)
    ensures
        names(out@) == usual(),
{
    let all: [&'static str; 6] = ENCODERS;
    let mut out: Vec<String> = Vec::new();
    let mut k: usize = 0;
    while k < 6
        invariant
            k <= 6,
            all == ENCODERS,
            names(out@) =~= usual().take(k as int),
        decreases 6 - k,
    {
        let chars: Vec<char> = chars_of(all[k]);
        let ghost before = out@;
        out.push(string_of(chars.as_slice()));
        assert(names(out@) =~= names(before).push(all@[k as int]@));
        k += 1;
    }
    assert(usual().take(6) =~= usual());
    out
}

fn encoders(asked: Option<&str>) -> (out: Vec<String>)
    ensures
        names(out@) == encoders_for(said(asked)),
{
    match asked {
        None => usual_encoders(),
        Some(s) => {
            let chars: Vec<char> = chars_of(s);
            if trim(chars.as_slice()).len() == 0 {
                return usual_encoders();
            }
            let parts: Vec<Vec<char>> = split_chars(chars.as_slice(), ',');
            let ghost wanted = split_at(s@, ',').map_values(|part: Seq<char>| trimmed(part));
            let mut out: Vec<String> = Vec::new();
            let mut i: usize = 0;
            while i < parts.len()
                invariant
                    i <= parts@.len(),
                    texts(parts@) == split_at(s@, ','),
                    wanted == split_at(s@, ',').map_values(|part: Seq<char>| trimmed(part)),
                    names(out@) =~= wanted.take(i as int),
                decreases parts@.len() - i,
            {
                assert(texts(parts@)[i as int] == parts@[i as int]@);
                let part: Vec<char> = trim(parts[i].as_slice());
                let ghost before = out@;
                out.push(string_of(part.as_slice()));
                assert(names(out@) =~= names(before).push(part@));
                assert(wanted[i as int] == part@);
                i += 1;
            }
            assert(texts(parts@).len() == parts@.len());
            assert(names(out@) =~= wanted);
            out
        },
    }
}

/// The width asked for, where it is a number that fits; the usual one where it
/// is not.
pub open spec fn width_for(asked: Option<Seq<char>>) -> int {
    match asked {
        Some(s) => match unsigned_value(trimmed(s)) {
            Some(n) => if n <= u32::MAX {
                n
            } else {
                WIDTH as int
            },
            None => WIDTH as int,
        },
        None => WIDTH as int,
    }
}

/// What a proxy is made by, given what the environment asks for: a width, a
/// quality and encoders.
pub fn settled(
    width: Option<&str>,
    quality: Option<i64>,
    encoder: Option<&str>,
) -> (r: ProxyOptions)
    ensures
        r.width == width_for(said(width)),
        r.quality == (match quality {
            Some(q) => q,
            None => QUALITY,
        }),
        r.bit_rate is None,
        names(r.encoders@) == encoders_for(said(encoder)),
        r.max_gop == 2 * SECOND,
{
    let wide: u32 = match width {
        None => WIDTH,
        Some(s) => {
            let chars: Vec<char> = chars_of(s);
            let inner: Vec<char> = trim(chars.as_slice());
            match read_unsigned(inner.as_slice()) {
                Some(n) => if n <= u32::MAX as u64 {
                    n as u32
                } else {
                    WIDTH
                },
                None => WIDTH,
            }
        },
    };
    ProxyOptions {
        width: wide,
        quality: match quality {
            Some(q) => q,
            None => QUALITY,
        },
        bit_rate: None,
        encoders: encoders(encoder),
        max_gop: 2 * SECOND,
    }
}

/// How wide a sample is against how tall, and never under a hundredth.
pub open spec fn shape(sar: Ratio) -> Ratio {
    if sar.den == 0 || 100 * sar.num < sar.den {
        Ratio { num: 1, den: 100 }
    } else {
        sar
    }
}

/// As much of a number as 32 bits hold.
pub open spec fn held(v: int) -> int {
    if v > u32::MAX {
        u32::MAX as int
    } else {
        v
    }
}

/// A number, or the least it may be.
pub open spec fn at_least(v: int, least: int) -> int {
    if v > least {
        v
    } else {
        least
    }
}

/// A number, or the even one under it.
pub open spec fn even(v: int) -> int {
    v / 2 * 2
}

/// How tall a picture is in square pixels, so wide.
pub open spec fn height_for(w: int, pw: int, ph: int, sar: Ratio) -> int {
    even(at_least(held(rounded(w * ph * sar.den, pw * sar.num)), 90))
}

/// How wide a proxy is to begin with: as asked, and no wider than the picture
/// is worth in square pixels, nor than the ceiling.
pub open spec fn first_width(pw: int, sar: Ratio, asked: int) -> int {
    let native = at_least(held(rounded(pw * sar.num, sar.den as int)), 160);
    let least = if asked < native {
        asked
    } else {
        native
    };
    even(
        if least < 160 {
            160
        } else if least > MAX_WIDTH {
            MAX_WIDTH as int
        } else {
            least
        },
    )
}

/// The width and the height of a proxy.
pub open spec fn size_of_proxy(pw: int, ph: int, sar: Ratio, asked: int) -> (int, int) {
    let s = shape(sar);
    let w = first_width(pw, s, asked);
    let h = height_for(w, pw, ph, s);
    if h > MAX_HEIGHT {
        let narrow = even(at_least(rounded(w * MAX_HEIGHT, h), 160));
        let tall = height_for(narrow, pw, ph, s);
        (
            narrow,
            if tall < MAX_HEIGHT {
                tall
            } else {
                MAX_HEIGHT as int
            },
        )
    } else {
        (w, h)
    }
}

/// A product of two is no larger than that of the largest they can be.
proof fn lemma_product(a: int, b: int, x: int, y: int)
    by (nonlinear_arith)
    requires
        0 <= a <= x,
        0 <= b <= y,
    ensures
        0 <= a * b <= x * y,
{
}

fn height(w: u32, pw: u32, ph: u32, sar: Ratio) -> (r: u32)
    requires
        w <= MAX_WIDTH,
        pw > 0,
        sar.num > 0,
        sar.den > 0,
    ensures
        r == height_for(w as int, pw as int, ph as int, sar),
        r >= 90,
{
    proof {
        lemma_product(w as int, ph as int, 0x1000, 0xFFFF_FFFF);
        lemma_product(w * ph, sar.den as int, 0xFFF_FFFF_F000, 0xFFFF_FFFF);
        lemma_product(pw as int, sar.num as int, 0xFFFF_FFFF, 0xFFFF_FFFF);
        assert(pw * sar.num >= 1) by (nonlinear_arith)
            requires
                pw >= 1,
                sar.num >= 1,
        ;
    }
    let v: i128 = round_div(
        (w as i128) * (ph as i128) * (sar.den as i128),
        (pw as i128) * (sar.num as i128),
    );
    proof {
        let (a, b) = (w * ph * sar.den, pw * sar.num);
        assert((2 * a + b) / (2 * b) >= 0) by (nonlinear_arith)
            requires
                a >= 0,
                b >= 1,
        ;
    }
    let all: u32 = if v > u32::MAX as i128 {
        u32::MAX
    } else {
        v as u32
    };
    let least: u32 = if all > 90 {
        all
    } else {
        90
    };
    least / 2 * 2
}

/// What size a proxy is, given the picture's own, the shape of its samples and
/// the width asked for.
///
/// Square pixels: broadcast 1440x1080 is 16:9 on screen, and a proxy that
/// ignored that would hand the timeline a squashed picture. And what the
/// recording is worth in square pixels is not its coded width: 1440 samples
/// across shown at 16:9 need 1920 to keep all 1080 of their lines.
pub fn sizes(pw: u32, ph: u32, sar: Ratio, asked: u32) -> (r: (u32, u32))
    requires
        pw > 0,
    ensures
        (r.0 as int, r.1 as int) == size_of_proxy(pw as int, ph as int, sar, asked as int),
{
    let s: Ratio = if sar.den == 0 || 100 * (sar.num as u64) < sar.den as u64 {
        Ratio { num: 1, den: 100 }
    } else {
        sar
    };
    assert(s == shape(sar));
    proof {
        lemma_product(pw as int, s.num as int, 0xFFFF_FFFF, 0xFFFF_FFFF);
        let (a, b) = (pw * s.num, s.den as int);
        assert((2 * a + b) / (2 * b) >= 0) by (nonlinear_arith)
            requires
                a >= 0,
                b >= 1,
        ;
    }
    let worth: i128 = round_div((pw as i128) * (s.num as i128), s.den as i128);
    let own: u32 = if worth > u32::MAX as i128 {
        u32::MAX
    } else {
        worth as u32
    };
    let native: u32 = if own > 160 {
        own
    } else {
        160
    };
    let least: u32 = if asked < native {
        asked
    } else {
        native
    };
    let clamped: u32 = if least < 160 {
        160
    } else if least > MAX_WIDTH {
        MAX_WIDTH
    } else {
        least
    };
    let width: u32 = clamped / 2 * 2;
    assert(width == first_width(pw as int, s, asked as int));
    let tall: u32 = height(width, pw, ph, s);
    if tall > MAX_HEIGHT {
        // Taller than 16:9, so the height is what binds: take the width back
        // down to the one whose picture fits.
        let v: i128 = round_div((width as i128) * (MAX_HEIGHT as i128), tall as i128);
        proof {
            let (a, b) = (width * MAX_HEIGHT, tall as int);
            assert(0 <= (2 * a + b) / (2 * b) <= width) by (nonlinear_arith)
                requires
                    a == width * 1080,
                    b > 1080,
                    0 <= width,
            ;
        }
        let fits: u32 = v as u32;
        let narrow: u32 = (if fits > 160 {
            fits
        } else {
            160
        }) / 2 * 2;
        let short: u32 = height(narrow, pw, ph, s);
        return (
            narrow,
            if short < MAX_HEIGHT {
                short
            } else {
                MAX_HEIGHT
            },
        );
    }
    (width, tall)
}

/// A proxy is never larger than the ceiling, is never too small to look at,
/// and is even both ways.
pub proof fn law_a_proxy_fits(pw: int, ph: int, sar: Ratio, asked: int)
    requires
        0 < pw <= u32::MAX,
        0 <= ph <= u32::MAX,
        0 <= asked <= u32::MAX,
    ensures
        ({
            let (w, h) = size_of_proxy(pw, ph, sar, asked);
            160 <= w <= MAX_WIDTH && 90 <= h <= MAX_HEIGHT && w % 2 == 0 && h % 2 == 0
        }),
{
    let s = shape(sar);
    let w = first_width(pw, s, asked);
    let h = height_for(w, pw, ph, s);
    assert(160 <= w <= MAX_WIDTH);
    if h > MAX_HEIGHT {
        let (a, b) = (w * MAX_HEIGHT, h);
        assert(0 <= (2 * a + b) / (2 * b) <= w) by (nonlinear_arith)
            requires
                a == w * 1080,
                b > 1080,
                0 <= w,
        ;
        assert(a >= 0);
    }
}

/// How many pictures may go by without a keyframe: as many as the longest run
/// takes, from one to six hundred.
pub open spec fn gop_of(rate: Ratio, max_gop: int) -> int {
    let r = crate::recording::counted_rate(rate);
    let many = rounded(r.num * max_gop, r.den * SECOND);
    if many < 1 {
        1
    } else if many > 600 {
        600
    } else {
        many
    }
}

/// How many pictures may go by without a keyframe.
pub fn gop(rate: Ratio, max_gop: i64) -> (r: u32)
    requires
        crate::time::in_reach(max_gop as int),
    ensures
        r == gop_of(rate, max_gop as int),
{
    let by: Ratio = if rate.num > 0 && rate.den > 0 {
        rate
    } else {
        Ratio { num: 30, den: 1 }
    };
    proof {
        assert(-0x400_0000_0000_0000 * 0xFFFF_FFFF <= by.num * max_gop <= 0x400_0000_0000_0000
            * 0xFFFF_FFFF) by (nonlinear_arith)
            requires
                -0x400_0000_0000_0000 <= max_gop <= 0x400_0000_0000_0000,
                0 <= by.num <= 0xFFFF_FFFF,
        ;
        assert(0 < by.den * SECOND <= 0xFFFF_FFFF * SECOND);
    }
    let over: i128 = (by.den as i128) * (SECOND as i128);
    let many: i128 = round_div(
        (by.num as i128) * (max_gop as i128),
        over,
    );
    if many < 1 {
        1
    } else if many > 600 {
        600
    } else {
        many as u32
    }
}

/// The tick pictures are handed to the encoder on.
///
/// MPEG-4 part 2 states its own time base in the bitstream in 16 bits, so a
/// transport stream's 90kHz tick is more than it can say and its encoder
/// refuses to open at all. 60kHz divides the 90kHz one evenly for the
/// timestamps broadcast material actually uses, and is under a microsecond out
/// for any it does not.
pub fn encoder_base(base: Ratio) -> (r: Ratio)
    ensures
        r == (if base.den > 65535 || base.den == 0 {
            Ratio { num: 1, den: 60000 }
        } else {
            base
        }),
{
    if base.den > 65535 || base.den == 0 {
        Ratio { num: 1, den: 60000 }
    } else {
        base
    }
}

/// Whether an encoder counts quality in the MPEG family's steps.
pub open spec fn counts_in_steps(name: Seq<char>) -> bool {
    name == "mpeg4"@ || name == "mpeg2video"@ || name == "mjpeg"@
}

/// A number held between two others.
pub open spec fn between(v: int, least: int, most: int) -> int {
    if v < least {
        least
    } else if v > most {
        most
    } else {
        v
    }
}

/// One quality number, on the scale the named encoder actually has.
pub open spec fn quality_on(name: Seq<char>, crf: int) -> int {
    if counts_in_steps(name) {
        between(crf / 4, 1_000, 31_000)
    } else {
        between(crf, 0, 51_000)
    }
}

/// One quality number, on the scale the named encoder actually has, in
/// thousandths of it.
///
/// x264's CRF is the scale it is quoted in, because it is the one with a
/// published meaning. The MPEG family's qscale runs 1..31 over roughly the
/// same useful span in a quarter of the steps, and NVENC's and QSV's constant
/// quantiser sit close enough to CRF to pass it straight through.
pub fn quality_for(name: &str, crf: i64) -> (r: i64)
    ensures
        r == quality_on(name@, crf as int),
{
    if same_text(name, "mpeg4") || same_text(name, "mpeg2video") || same_text(name, "mjpeg") {
        if crf < 4_000 {
            1_000
        } else if crf / 4 > 31_000 {
            31_000
        } else {
            crf / 4
        }
    } else if crf < 0 {
        0
    } else if crf > 51_000 {
        51_000
    } else {
        crf
    }
}

/// How an encoder is told what quality is wanted.
#[derive(Debug, Clone, Copy, PartialEq, Eq, Structural)]
pub enum Lever {
    /// As x264's own number, with one decimal.
    Crf,
    /// As a constant quantiser, under `qp`.
    Qp,
    /// As a whole number, under `global_quality`.
    Global,
    /// As a constant quantiser for both kinds of picture, under `qp_i` and
    /// `qp_p`.
    QpBoth,
    /// By libavcodec's own lever: `global_quality` as a quantiser, with the
    /// flag that says so.
    Scale,
}

/// How an encoder is told what quality is wanted.
pub open spec fn lever_of(name: Seq<char>) -> Lever {
    if name == "libx264"@ {
        Lever::Crf
    } else if name == "h264_nvenc"@ {
        Lever::Qp
    } else if name == "h264_qsv"@ {
        Lever::Global
    } else if name == "h264_amf"@ {
        Lever::QpBoth
    } else {
        Lever::Scale
    }
}

/// What else an encoder is told, by name and value.
///
/// Left to itself an encoder puts keyframes where *it* sees a cut, and the
/// proxy's entry points would then no longer be the recording's. x264 is told
/// only not to place keyframes of its own; the forced ones must stay IDRs,
/// since MP4 marks a sample as a sync sample only when it is one. And it is
/// told to be quick: what the slower presets buy is bits, and a proxy is a
/// scratch file.
pub open spec fn told_to(name: Seq<char>) -> Seq<(Seq<char>, Seq<char>)> {
    if name == "libx264"@ {
        seq![("preset"@, "ultrafast"@), ("x264-params"@, "scenecut=0"@)]
    } else if name == "h264_nvenc"@ {
        seq![("preset"@, "p1"@), ("tune"@, "ull"@), ("rc"@, "constqp"@)]
    } else if name == "h264_qsv"@ {
        seq![("preset"@, "veryfast"@)]
    } else if name == "h264_amf"@ {
        seq![("quality"@, "speed"@), ("rc"@, "cqp"@)]
    } else if name == "mpeg4"@ || name == "mpeg2video"@ {
        seq![("sc_threshold"@, "1000000000"@)]
    } else if name == "h264_videotoolbox"@ {
        seq![("realtime"@, "1"@)]
    } else {
        Seq::empty()
    }
}

/// What pairs of texts hold.
pub open spec fn pairs(list: Seq<(&'static str, &'static str)>) -> Seq<(Seq<char>, Seq<char>)> {
    list.map_values(|p: (&'static str, &'static str)| (p.0@, p.1@))
}

/// How an encoder is told what quality is wanted, and what else it is told.
pub fn encoder_settings(name: &str) -> (r: (Lever, Vec<(&'static str, &'static str)>))
    ensures
        r.0 == lever_of(name@),
        pairs(r.1@) == told_to(name@),
{
    proof {
        reveal_strlit("libx264");
        reveal_strlit("h264_nvenc");
        reveal_strlit("h264_qsv");
        reveal_strlit("h264_amf");
        reveal_strlit("mpeg4");
        reveal_strlit("mpeg2video");
        reveal_strlit("h264_videotoolbox");
        assert("libx264"@[0] == 'l' && "h264_nvenc"@[5] == 'n' && "h264_qsv"@[5] == 'q'
            && "h264_amf"@[5] == 'a' && "mpeg4"@[0] == 'm' && "mpeg2video"@[0] == 'm'
            && "h264_videotoolbox"@[5] == 'v');
        assert("libx264"@.len() == 7 && "h264_nvenc"@.len() == 10 && "h264_qsv"@.len() == 8
            && "h264_amf"@.len() == 8 && "mpeg4"@.len() == 5 && "mpeg2video"@.len() == 10
            && "h264_videotoolbox"@.len() == 17);
    }
    let mut out: Vec<(&'static str, &'static str)> = Vec::new();
    let lever: Lever;
    if same_text(name, "libx264") {
        out.push(("preset", "ultrafast"));
        out.push(("x264-params", "scenecut=0"));
        lever = Lever::Crf;
    } else if same_text(name, "h264_nvenc") {
        out.push(("preset", "p1"));
        out.push(("tune", "ull"));
        out.push(("rc", "constqp"));
        lever = Lever::Qp;
    } else if same_text(name, "h264_qsv") {
        out.push(("preset", "veryfast"));
        lever = Lever::Global;
    } else if same_text(name, "h264_amf") {
        out.push(("quality", "speed"));
        out.push(("rc", "cqp"));
        lever = Lever::QpBoth;
    } else {
        if same_text(name, "mpeg4") || same_text(name, "mpeg2video") {
            out.push(("sc_threshold", "1000000000"));
        } else if same_text(name, "h264_videotoolbox") {
            out.push(("realtime", "1"));
        }
        lever = Lever::Scale;
    }
    assert(pairs(out@) =~= told_to(name@));
    (lever, out)
}

/// What is said of the encoders from the `i`th on that would not take a
/// picture, and why each would not.
pub open spec fn refusals(tried: Seq<(Seq<char>, Seq<char>)>, n: int) -> Seq<char>
    decreases n,
{
    if n <= 0 {
        Seq::empty()
    } else {
        refusals(tried, n - 1) + (if n > 1 {
            ", "@
        } else {
            Seq::empty()
        }) + tried[n - 1].0 + " ("@ + tried[n - 1].1 + ")"@
    }
}

/// What pairs of texts hold.
pub open spec fn held_pairs(list: Seq<(String, String)>) -> Seq<(Seq<char>, Seq<char>)> {
    list.map_values(|p: (String, String)| (p.0@, p.1@))
}

/// What is said where no encoder would take a picture.
pub fn none_would(tried: &[(String, String)]) -> (r: String)
    ensures
        r@ == "no proxy encoder would take a picture -- tried "@ + refusals(
            held_pairs(tried@),
            tried@.len() as int,
        ),
{
    let ghost all = held_pairs(tried@);
    let mut out: Vec<char> = Vec::new();
    put_text(&mut out, "no proxy encoder would take a picture -- tried ");
    let ghost head = "no proxy encoder would take a picture -- tried "@;
    assert(out@ =~= head);
    let mut i: usize = 0;
    while i < tried.len()
        invariant
            i <= tried@.len(),
            all == held_pairs(tried@),
            out@ =~= head + refusals(all, i as int),
        decreases tried@.len() - i,
    {
        assert(all[i as int] == (tried@[i as int].0@, tried@[i as int].1@));
        if i > 0 {
            put_text(&mut out, ", ");
        }
        put_text(&mut out, tried[i].0.as_str());
        put_text(&mut out, " (");
        put_text(&mut out, tried[i].1.as_str());
        put_text(&mut out, ")");
        i += 1;
    }
    string_of(out.as_slice())
}

} // verus!
