//! Finding the station logo, and the stretches where it is missing.
//!
//! Japanese broadcasters keep a small translucent logo in one corner during
//! the programme and take it down for the commercials. That makes it a
//! second, independent read on where a break is -- one that does not care
//! whether the junctions happened to be silent.
//!
//! No logo library is needed. The logo is the only thing in its corner that
//! never moves, so averaging a few thousand frames leaves it standing while
//! the pictures behind it blur away; high-pass filtering that average is the
//! template. Scoring a moment is then a correlation against it.
pub mod chosen;
pub mod cluster;
pub mod marked;
pub mod missing;
pub mod score;
pub mod template;
pub mod watch;

use crate::chars::{chars_of, put_chars, string_of};
use crate::decimal::{decimal, put_decimal};
use crate::logo::score::{Scorer, WHOLE};
use crate::logo::template::{
    template, Averages, Corner, Template, PICTURES_MAX, REGION_MAX,
};
use crate::logo::watch::{found, intervals_from, Found};
use crate::rank::{at_place, ranked};
use crate::recording::index::Source;
use crate::time::{in_reach, round_div, rounded, HAIR, SECOND};
use vstd::prelude::*;

verus! {

/// How a logo is looked for. Lengths are in ticks, and a correlation is in
/// millionths.
#[derive(Debug, Clone, Copy, PartialEq, Eq, Structural)]
pub struct LogoOptions {
    /// Correlation above which the logo counts as present.
    pub present: i64,
    /// ...and below which it counts as gone. The gap is hysteresis.
    pub absent: i64,
    /// Ignore absences shorter than this; a commercial break never is.
    pub min_absent: i64,
    /// ...but a channel's own animated ident is, and a subscription channel
    /// drops one into a programme where the terrestrial broadcast had its
    /// commercials. An absence at least this long is reported separately as
    /// [`Logo::brief`], for the caller to keep where a junction stands in it.
    ///
    /// Not simply a smaller `min_absent`: a programme's own full-screen
    /// caption card takes the corner as thoroughly as an ident does, and
    /// what tells them apart is the sound -- which runs through a caption
    /// card and stops for an insert.
    pub min_insert: i64,
    /// ...except at the two ends. An absence that runs off the start or the
    /// end of the recording is not a break at all -- it is the recorder
    /// having begun before the programme did, or stopped after it ended --
    /// and those are routinely only a few seconds long.
    pub min_edge_absent: i64,
    /// How long the logo must stay up before an absence counts as over.
    /// Shorter than the window the scores were smoothed over, a return
    /// cannot register at full height anyway, so it is not evidence of one.
    pub min_present: i64,
    /// A run of commercials is long. If the absences found are mostly short,
    /// what is being tracked is not a logo.
    pub typical_break: i64,
    /// More absences than a broadcast could plausibly contain means the
    /// signal is noise.
    pub max_breaks: usize,
    /// How long a stretch of samples is averaged before scoring, to wash out
    /// the picture behind the logo. Too short and the content still shows
    /// through.
    pub window_seconds: i64,
    /// How many pixels the template keeps. A station logo is small, so a
    /// fixed count focuses on it however large the search region is -- a
    /// percentage of a big region is mostly the noise around it.
    pub mask_pixels: usize,
    /// How many cores the decode may have. Zero, the default, is all of them.
    pub threads: usize,
}

impl Default for LogoOptions {
    fn default() -> (r: LogoOptions)
        ensures
            r.present == 50_000,
            r.absent == 20_000,
            r.min_absent == 20 * SECOND,
            r.min_insert == 7 * SECOND / 4,
            r.min_edge_absent == SECOND,
            r.min_present == 5 * SECOND,
            r.typical_break == 30 * SECOND,
            r.max_breaks == 12,
            r.window_seconds == 5 * SECOND,
            r.mask_pixels == 500,
            r.threads == 0,
    {
        LogoOptions {
            present: 50_000,
            absent: 20_000,
            min_absent: 20 * SECOND,
            min_insert: 7 * SECOND / 4,
            min_edge_absent: SECOND,
            min_present: 5 * SECOND,
            typical_break: 30 * SECOND,
            max_breaks: 12,
            window_seconds: 5 * SECOND,
            mask_pixels: 500,
            threads: 0,
        }
    }
}

/// How strongly a template stands out: the squares of how far its pixels do,
/// over how many there are of them and how often each was counted.
#[derive(Debug, Clone, Copy, PartialEq, Eq, Structural)]
pub struct Strength {
    pub energy: u128,
    pub over: u128,
}

/// A station logo, and where it is missing.
#[derive(Debug)]
pub struct Logo {
    pub corner: Corner,
    /// How strongly the template stands out.
    pub strength: Strength,
    /// Stretches where the logo is not on screen.
    pub absent: Vec<(i64, i64)>,
    /// The stretches that fell short of [`LogoOptions::min_absent`] but
    /// reach [`LogoOptions::min_insert`].
    ///
    /// A few seconds of corner with no logo in it is either a channel ident
    /// dropped into the programme or the programme's own full-screen caption
    /// card, and **nothing in the corner tells them apart**. A card carries
    /// the logo -- drawn grey on black rather than over the picture -- and
    /// the correlation still falls to nought on it, because the template was
    /// built from the logo as it is drawn over a picture. The caller decides,
    /// and on something else.
    pub brief: Vec<(i64, i64)>,
}

/// Nothing in any corner behaved like a station logo.
///
/// Not every broadcaster shows one -- several subscription channels do not --
/// and a detector that returns its best guess regardless would hand back
/// noise. Saying so lets the caller fall back to the silences alone.
#[derive(Debug, Clone, Copy, PartialEq, Eq, Structural)]
pub struct NoLogo;

/// Why no logo was found.
#[derive(Debug, Clone, Copy, PartialEq, Eq, Structural)]
pub enum LogoError {
    /// The frame is too small to look for one.
    TooSmall,
    /// So many key pictures are too few.
    TooFew(u64),
    /// Nothing behaved like one.
    Nothing(NoLogo),
}

impl LogoError {
    /// What is said about it.
    pub open spec fn text(self) -> Seq<char> {
        match self {
            LogoError::TooSmall => "frame too small to look for a logo"@,
            LogoError::TooFew(count) => "only "@ + decimal(count as nat)
                + " key frames; not enough to find a logo"@,
            LogoError::Nothing(_) => "no station logo found"@,
        }
    }

    /// What is said about it.
    pub fn message(&self) -> (r: String)
        ensures
            r@ == self.text(),
    {
        let mut out: Vec<char> = Vec::new();
        match self {
            LogoError::TooSmall => {
                put_chars(&mut out, chars_of("frame too small to look for a logo").as_slice());
            },
            LogoError::TooFew(count) => {
                put_chars(&mut out, chars_of("only ").as_slice());
                put_decimal(&mut out, *count);
                put_chars(
                    &mut out,
                    chars_of(" key frames; not enough to find a logo").as_slice(),
                );
            },
            LogoError::Nothing(_) => {
                put_chars(&mut out, chars_of("no station logo found").as_slice());
            },
        }
        assert(out@ =~= self.text());
        string_of(out.as_slice())
    }
}

/// How large the corner is that a logo is looked for in: a quarter of the
/// width and a fifth of the height, in even numbers. A frame whose corners
/// come out under sixteen either way is too small to look in.
pub fn corner_size(w: usize, h: usize) -> (r: Result<(usize, usize), LogoError>)
    ensures
        r is Ok <==> w / 4 / 2 * 2 >= 16 && h / 5 / 2 * 2 >= 16,
        r matches Ok(s) ==> s.0 == w / 4 / 2 * 2 && s.1 == h / 5 / 2 * 2,
        r matches Err(e) ==> e == LogoError::TooSmall,
{
    let (cw, ch): (usize, usize) = (w / 4 / 2 * 2, h / 5 / 2 * 2);
    if cw < 16 || ch < 16 {
        return Err(LogoError::TooSmall);
    }
    Ok((cw, ch))
}

/// Which entry pictures a walk is to decode.
#[derive(Debug)]
pub enum Reach {
    /// Every one of them, reading the recording from end to end.
    Whole,
    /// `each` of them from every one of these instants.
    Stretches { from: Vec<i64>, each: usize },
}

/// How many entry pictures the template is built from, where the recording
/// holds enough more than that to be worth not reading.
///
/// The template is an average, and an average of a couple of thousand
/// broadcast pictures has the picture behind the logo blurred away already:
/// it is the *number* of pictures that does that and not the share of the
/// recording they came from.
pub const TEMPLATE_PICTURES: usize = 1800;

/// ...taken in this many runs spread across the recording, rather than one
/// picture in every N.
///
/// What is being saved is the reading, and on a share that is the whole of
/// what this pass costs. A run of packets is read at the share's speed and a
/// scattered sample at its seek time, so the sample is contiguous where it
/// can be and spread where it matters: a template drawn from one stretch of
/// a recording has whatever was on screen during that stretch standing as
/// still as the logo.
pub const TEMPLATE_STRETCHES: usize = 24;

/// Whether every entry point says what byte it starts at.
pub open spec fn all_placed(src: Source) -> bool {
    forall|i: int| 0 <= i < src.points@.len() ==> (#[trigger] src.points@[i]).pos >= 0
}

/// Whether a recording is sampled rather than read from end to end.
pub open spec fn is_sampled(src: Source, byte_seek_off: bool) -> bool {
    src.byte_seekable && !byte_seek_off && src.points@.len() >= 2 * TEMPLATE_PICTURES
        && src.duration > 0 && all_placed(src)
}

/// Where the template's pass is to read, given what the recording holds.
///
/// Reading end to end wherever the saving would be small: a recording with
/// twice the sample in it saves half a read, and one with barely more than
/// the sample saves nothing and pays for the seeks. And only where every
/// entry point says what byte it starts at, which is what the seek is made
/// of: an index that does not carry them would place no run at all and the
/// pass would come back with nothing to build a template from, which reads
/// from outside as a recording with no logo. The switch that turns byte seeks
/// off for a measurement turns them off here too.
pub fn template_reach(src: &Source, byte_seek_off: bool) -> (r: Reach)
    ensures
        r is Whole <==> !is_sampled(*src, byte_seek_off),
        r matches Reach::Stretches { from, each } ==> {
            &&& each == (TEMPLATE_PICTURES + TEMPLATE_STRETCHES - 1) / TEMPLATE_STRETCHES as int
            &&& from@.len() == TEMPLATE_STRETCHES
            &&& forall|k: int|
                0 <= k < TEMPLATE_STRETCHES ==> #[trigger] from@[k] == src.duration * k
                    / TEMPLATE_STRETCHES as int
        },
{
    if !src.byte_seekable || byte_seek_off || src.points.len() < TEMPLATE_PICTURES * 2
        || src.duration <= 0 {
        return Reach::Whole;
    }
    let mut i: usize = 0;
    while i < src.points.len()
        invariant
            i <= src.points@.len(),
            forall|k: int| 0 <= k < i ==> (#[trigger] src.points@[k]).pos >= 0,
        decreases src.points@.len() - i,
    {
        if src.points[i].pos < 0 {
            assert(!all_placed(*src));
            return Reach::Whole;
        }
        i += 1;
    }
    let mut from: Vec<i64> = Vec::new();
    let mut k: usize = 0;
    while k < TEMPLATE_STRETCHES
        invariant
            k <= TEMPLATE_STRETCHES,
            src.duration > 0,
            from@.len() == k,
            forall|j: int|
                0 <= j < k ==> #[trigger] from@[j] == src.duration * j / TEMPLATE_STRETCHES as int,
        decreases TEMPLATE_STRETCHES - k,
    {
        assert(0 <= src.duration * k <= src.duration * 24) by (nonlinear_arith)
            requires
                0 < src.duration,
                0 <= k <= 24,
        ;
        let at: i128 = (src.duration as i128) * (k as i128) / (TEMPLATE_STRETCHES as i128);
        from.push(at as i64);
        k += 1;
    }
    Reach::Stretches {
        from,
        each: (TEMPLATE_PICTURES + TEMPLATE_STRETCHES - 1) / TEMPLATE_STRETCHES,
    }
}

/// Where the score of a corner has to be for the logo to count as up, and
/// under what it counts as gone.
///
/// From the recording itself: how boldly a logo reads varies by channel, but
/// the programme always dominates the runtime, so the median score is a
/// reliable stand-in for "logo present". Two fifths of it is up, and under
/// three twentieths is gone; neither is ever less than a hundredth and four
/// thousandths of a whole likeness.
pub open spec fn limits(scores: Seq<i64>) -> (int, int) {
    let median = if scores.len() == 0 {
        0
    } else {
        at_place(scores, (scores.len() / 2) as int)
    };
    let (up, down) = ((2 * median + 4) / 5, (3 * median + 19) / 20);
    (
        if up > 10_000 {
            up
        } else {
            10_000
        },
        if down > 4_000 {
            down
        } else {
            4_000
        },
    )
}

/// Where the score of a corner has to be for the logo to count as up, and
/// under what it counts as gone.
pub fn thresholds(scores: &[i64]) -> (r: (i64, i64))
    requires
        forall|i: int| 0 <= i < scores@.len() ==> -WHOLE <= #[trigger] scores@[i] <= WHOLE,
    ensures
        (r.0 as int, r.1 as int) == limits(scores@),
{
    let median: i64 = if scores.len() == 0 {
        0
    } else {
        ranked(scores, scores.len() / 2)
    };
    if median <= 0 {
        return (10_000, 4_000);
    }
    let (up, down): (i64, i64) = ((2 * median + 4) / 5, (3 * median + 19) / 20);
    (
        if up > 10_000 {
            up
        } else {
            10_000
        },
        if down > 4_000 {
            down
        } else {
            4_000
        },
    )
}

/// How many pictures a moment is averaged over: as many as the window takes at
/// the gap half of them stand at, which is a microsecond at least, and from two
/// to sixty-four.
pub open spec fn window_of(gaps: Seq<i64>, window: int) -> int {
    let half = if gaps.len() == 0 {
        (SECOND / 2) as int
    } else {
        at_place(gaps, (gaps.len() / 2) as int)
    };
    let many = if half > HAIR {
        rounded(window, half)
    } else {
        rounded(window * 1_000_000, SECOND as int)
    };
    if many < 2 {
        2
    } else if many > 64 {
        64
    } else {
        many
    }
}

/// How many pictures a moment is averaged over.
///
/// Key pictures are not evenly spaced, so the window is sized from what they
/// actually turned out to be. The median stands up to a sampled pass: the
/// jumps between one run and the next are two dozen gaps out of eighteen
/// hundred.
pub fn ring_len(gaps: &[i64], window: i64) -> (r: usize)
    ensures
        r == window_of(gaps@, window as int),
        2 <= r <= 64,
{
    let half: i64 = if gaps.len() == 0 {
        SECOND / 2
    } else {
        ranked(gaps, gaps.len() / 2)
    };
    let many: i128 = if half > HAIR {
        round_div(window as i128, half as i128)
    } else {
        round_div(window as i128 * 1_000_000, SECOND as i128)
    };
    if many < 2 {
        2
    } else if many > 64 {
        64
    } else {
        many as usize
    }
}

/// What the scores of one corner come to.
#[derive(Debug)]
pub struct Reading {
    pub absent: Vec<(i64, i64)>,
    pub brief: Vec<(i64, i64)>,
    /// How often the state changed.
    pub transitions: usize,
    /// How many of the moments the corner read as carrying its mark.
    pub present: usize,
}

/// How many scores reach this.
pub open spec fn reaching(scores: Seq<i64>, least: int) -> nat
    decreases scores.len(),
{
    if scores.len() == 0 {
        0
    } else {
        reaching(scores.drop_last(), least) + (if scores.last() >= least {
            1nat
        } else {
            0
        })
    }
}

/// What the scores of one corner say.
pub open spec fn read_corner(times: Seq<i64>, scores: Seq<i64>, opts: LogoOptions) -> Found {
    let (up, down) = limits(scores);
    found(times, scores, up, down, opts)
}

/// How many of the moments a corner reads as carrying its mark.
pub open spec fn up_for(scores: Seq<i64>) -> nat {
    reaching(scores, limits(scores).0)
}

/// How long stretches are.
pub open spec fn lengths(s: Seq<(i64, i64)>) -> Seq<i64> {
    s.map_values(|x: (i64, i64)| (x.1 - x.0) as i64)
}

/// Whether a corner behaves like a station logo: on for most of the
/// recording, and gone only a handful of times, for as long as a run of
/// commercials is. Short flickering gaps mean the template latched onto moving
/// picture instead.
pub open spec fn plausible(times: Seq<i64>, scores: Seq<i64>, opts: LogoOptions) -> bool {
    let gone = read_corner(times, scores, opts).absent;
    &&& scores.len() > 0 && 2 * up_for(scores) >= scores.len()
    &&& gone.len() <= opts.max_breaks
    &&& gone.len() == 0 || at_place(lengths(gone), (gone.len() / 2) as int) >= opts.typical_break
}

/// Whether one corner is the steadier: fewer state changes, and where two are
/// equally steady, the one that is on for more of the recording. The tie is
/// not hypothetical: a terrestrial recording whose station logo sits top right
/// also carries programme branding bottom left, and the branding can flip
/// state exactly as often as the logo does.
pub open spec fn steadier(times: Seq<i64>, a: Seq<i64>, b: Seq<i64>, opts: LogoOptions) -> bool {
    let (x, y) = (read_corner(times, a, opts), read_corner(times, b, opts));
    x.transitions < y.transitions || (x.transitions == y.transitions && up_for(a) > up_for(b))
}

/// Which of the first `n` corners behaves most like a station logo.
pub open spec fn steadiest(
    times: Seq<i64>,
    scores: Seq<Vec<i64>>,
    opts: LogoOptions,
    n: int,
) -> Option<int>
    decreases n,
{
    if n <= 0 {
        None
    } else {
        let best = steadiest(times, scores, opts, n - 1);
        if plausible(times, scores[n - 1]@, opts) && (best is None || steadier(
            times,
            scores[n - 1]@,
            scores[best->0]@,
            opts,
        )) {
            Some(n - 1)
        } else {
            best
        }
    }
}

fn count_reaching(scores: &[i64], least: i64) -> (n: usize)
    ensures
        n == reaching(scores@, least as int),
        n <= scores@.len(),
{
    let mut n: usize = 0;
    let mut i: usize = 0;
    while i < scores.len()
        invariant
            i <= scores@.len(),
            n <= i,
            n == reaching(scores@.take(i as int), least as int),
        decreases scores@.len() - i,
    {
        assert(scores@.take(i + 1).drop_last() =~= scores@.take(i as int));
        if scores[i] >= least {
            n += 1;
        }
        i += 1;
    }
    assert(scores@.take(i as int) =~= scores@);
    n
}

/// Whether times and scores are of one pass over a recording.
pub open spec fn of_one_pass(times: Seq<i64>, scores: Seq<i64>) -> bool {
    &&& times.len() == scores.len()
    &&& scores.len() <= usize::MAX / 2
    &&& forall|i: int| 0 <= i < times.len() ==> in_reach(#[trigger] times[i] as int)
    &&& forall|i: int| 0 <= i < scores.len() ==> -WHOLE <= #[trigger] scores[i] <= WHOLE
}

/// What the scores of one corner come to, where it behaves like a station
/// logo.
pub fn reading_of(times: &[i64], scores: &[i64], opts: &LogoOptions) -> (r: Option<Reading>)
    requires
        of_one_pass(times@, scores@),
        in_reach(opts.window_seconds as int),
    ensures
        r is Some <==> plausible(times@, scores@, *opts),
        r matches Some(x) ==> {
            &&& (Found { absent: x.absent@, brief: x.brief@, transitions: x.transitions as int })
                == read_corner(times@, scores@, *opts)
            &&& x.present == up_for(scores@)
        },
{
    let (up, down): (i64, i64) = thresholds(scores);
    let (absent, brief, transitions): (Vec<(i64, i64)>, Vec<(i64, i64)>, usize) = intervals_from(
        times,
        scores,
        up,
        down,
        opts,
    );
    let present: usize = count_reaching(scores, up);
    let ghost gone = read_corner(times@, scores@, *opts).absent;
    assert(absent@ == gone);
    if scores.len() == 0 || 2 * present < scores.len() || absent.len() > opts.max_breaks {
        return None;
    }
    if absent.len() > 0 {
        let mut long: Vec<i64> = Vec::new();
        let mut i: usize = 0;
        while i < absent.len()
            invariant
                i <= absent@.len(),
                forall|k: int|
                    0 <= k < absent@.len() ==> {
                        let s: (i64, i64) = #[trigger] absent@[k];
                        -0x800_0000_0000_0000 <= s.0 <= 0x800_0000_0000_0000 && in_reach(s.1 as int)
                    },
                long@ =~= lengths(absent@).take(i as int),
            decreases absent@.len() - i,
        {
            let (a, b): (i64, i64) = absent[i];
            assert(absent@[i as int] == (a, b));
            long.push(b - a);
            i += 1;
        }
        assert(long@ =~= lengths(gone));
        if ranked(long.as_slice(), absent.len() / 2) < opts.typical_break {
            return None;
        }
    }
    Some(Reading { absent, brief, transitions, present })
}

/// Pick the corner that behaves like a station logo: on for most of the
/// recording, and switching state only a handful of times. Programme branding
/// scores higher but flickers; the logo is steady.
pub fn pick_corner(times: &[i64], scores: &[Vec<i64>], opts: &LogoOptions) -> (r: Option<
    (usize, Reading),
>)
    requires
        scores@.len() == 4,
        forall|k: int| 0 <= k < 4 ==> of_one_pass(times@, (#[trigger] scores@[k])@),
        in_reach(opts.window_seconds as int),
    ensures
        r is Some <==> steadiest(times@, scores@, *opts, 4) is Some,
        r matches Some(p) ==> {
            &&& steadiest(times@, scores@, *opts, 4) == Some(p.0 as int)
            &&& (Found {
                absent: p.1.absent@,
                brief: p.1.brief@,
                transitions: p.1.transitions as int,
            }) == read_corner(times@, scores@[p.0 as int]@, *opts)
            &&& p.1.present == up_for(scores@[p.0 as int]@)
        },
{
    let mut best: Option<(usize, Reading)> = None;
    let mut k: usize = 0;
    while k < 4
        invariant
            k <= 4,
            scores@.len() == 4,
            forall|j: int| 0 <= j < 4 ==> of_one_pass(times@, (#[trigger] scores@[j])@),
            in_reach(opts.window_seconds as int),
            best is Some <==> steadiest(times@, scores@, *opts, k as int) is Some,
            best matches Some(p) ==> {
                &&& p.0 < k
                &&& steadiest(times@, scores@, *opts, k as int) == Some(p.0 as int)
                &&& (Found {
                    absent: p.1.absent@,
                    brief: p.1.brief@,
                    transitions: p.1.transitions as int,
                }) == read_corner(times@, scores@[p.0 as int]@, *opts)
                &&& p.1.present == up_for(scores@[p.0 as int]@)
            },
        decreases 4 - k,
    {
        assert(of_one_pass(times@, scores@[k as int]@));
        if let Some(reading) = reading_of(times, scores[k].as_slice(), opts) {
            let better: bool = match &best {
                None => true,
                Some(p) => reading.transitions < p.1.transitions || (reading.transitions
                    == p.1.transitions && reading.present > p.1.present),
            };
            if better {
                best = Some((k, reading));
            }
        }
        k += 1;
    }
    best
}

/// The second pass: every key picture scored against the templates of all
/// four corners.
pub struct SecondPass {
    pub scorers: Vec<Scorer>,
    pub times: Vec<i64>,
    pub scores: Vec<Vec<i64>>,
    /// How many pictures the templates were built from.
    pub count: u64,
}

impl SecondPass {
    pub open spec fn wf(&self) -> bool {
        &&& self.scorers@.len() == 4
        &&& self.scores@.len() == 4
        &&& 0 < self.count <= PICTURES_MAX
        &&& self.times@.len() <= usize::MAX / 2
        &&& forall|k: int| 0 <= k < 4 ==> (#[trigger] self.scorers@[k]).wf()
        &&& forall|k: int| 0 <= k < 4 ==> of_one_pass(self.times@, (#[trigger] self.scores@[k])@)
    }
}

/// Whether a template is the one a corner's sums make.
pub open spec fn made_from(t: Template, sums: Seq<u64>, w: int, h: int, keep: int) -> bool {
    &&& crate::logo::template::numbers(t.stands_out@) == crate::logo::template::high_passed(
        sums,
        w,
        h,
    )
    &&& t.wf(w, h)
    &&& exists|picked: Seq<usize>|
        crate::logo::template::mask_from(t.stands_out@, w, h, keep, t.mask@, picked)
}

/// From what the first pass added up, what the second scores against: a
/// template for each corner. The strongest is not necessarily the logo:
/// programme branding is often bolder, but it comes and goes.
pub fn second_pass(
    first: &Averages,
    cw: usize,
    ch: usize,
    opts: &LogoOptions,
) -> (r: Result<SecondPass, LogoError>)
    requires
        first.wf(),
        0 < cw,
        ch <= REGION_MAX,
        cw * ch == first.size() <= REGION_MAX,
    ensures
        r is Err <==> first.count < 20,
        r matches Err(e) ==> e == LogoError::TooFew(first.count),
        r matches Ok(s) ==> {
            &&& s.wf()
            &&& s.count == first.count
            &&& s.times@.len() == 0
            &&& forall|k: int|
                0 <= k < 4 ==> {
                    let one: Scorer = #[trigger] s.scorers@[k];
                    &&& one.template.corner == Corner::nth(k)
                    &&& one.width == cw
                    &&& one.height == ch
                    &&& one.ring@.len() == 0
                    &&& one.window == window_of(first.gaps@, opts.window_seconds as int)
                    &&& made_from(
                        one.template,
                        first.sums@[k]@,
                        cw as int,
                        ch as int,
                        opts.mask_pixels as int,
                    )
                }
        },
{
    if first.count < 20 {
        return Err(LogoError::TooFew(first.count));
    }
    let window: usize = ring_len(first.gaps.as_slice(), opts.window_seconds);
    let mut scorers: Vec<Scorer> = Vec::new();
    let mut scores: Vec<Vec<i64>> = Vec::new();
    let times: Vec<i64> = Vec::new();
    let mut k: usize = 0;
    while k < 4
        invariant
            k <= 4,
            first.wf(),
            0 < cw,
            ch <= REGION_MAX,
            cw * ch == first.size() <= REGION_MAX,
            scorers@.len() == k,
            scores@.len() == k,
            window == window_of(first.gaps@, opts.window_seconds as int),
            2 <= window <= 64,
            forall|j: int| 0 <= j < k ==> (#[trigger] scores@[j])@.len() == 0,
            forall|j: int|
                0 <= j < k ==> {
                    let one: Scorer = #[trigger] scorers@[j];
                    &&& one.wf()
                    &&& one.template.corner == Corner::nth(j)
                    &&& one.width == cw
                    &&& one.height == ch
                    &&& one.ring@.len() == 0
                    &&& one.window == window
                    &&& made_from(
                        one.template,
                        first.sums@[j]@,
                        cw as int,
                        ch as int,
                        opts.mask_pixels as int,
                    )
                },
        decreases 4 - k,
    {
        assert(first.sums@[k as int]@.len() == first.size());
        assert forall|i: int| 0 <= i < first.sums@[k as int]@.len() implies #[trigger] first.sums@[k as int]@[i]
            <= 255 * PICTURES_MAX by {
            assert(first.sums@[k as int]@[i] <= 255 * first.count);
        }
        let one: Template = template(
            Corner::at(k),
            first.sums[k].as_slice(),
            cw,
            ch,
            opts.mask_pixels,
        );
        scorers.push(Scorer::new(one, cw, ch, window));
        scores.push(Vec::new());
        k += 1;
    }
    Ok(SecondPass { scorers, times, scores, count: first.count })
}

impl SecondPass {
    /// Score one key picture, given what each corner was sampled at.
    #[verifier::spinoff_prover]
    pub fn take(&mut self, t: i64, samples: Vec<Vec<u8>>)
        requires
            old(self).wf(),
            in_reach(t as int),
            old(self).times@.len() < usize::MAX / 2,
            samples@.len() == 4,
            forall|k: int|
                0 <= k < 4 ==> (#[trigger] samples@[k])@.len() == old(
                    self,
                ).scorers@[k].wanted@.len(),
        ensures
            final(self).wf(),
            final(self).count == old(self).count,
            final(self).times@ == old(self).times@.push(t),
            forall|k: int|
                0 <= k < 4 ==> {
                    let (was, now): (Scorer, Scorer) = (
                        old(self).scorers@[k],
                        #[trigger] final(self).scorers@[k],
                    );
                    &&& now.template == was.template
                    &&& now.width == was.width
                    &&& now.height == was.height
                    &&& now.window == was.window
                    &&& now.wanted == was.wanted
                    &&& now.ring@ == was.held_with(samples@[k])
                },
            forall|k: int|
                0 <= k < 4 ==> (#[trigger] final(self).scores@[k])@ == old(self).scores@[k]@.push(
                    old(self).scorers@[k].score(
                        old(self).scorers@[k].held_with(samples@[k]),
                    ) as i64,
                ),
    {
        let ghost given = samples@;
        let mut left: Vec<Vec<u8>> = samples;
        self.times.push(t);
        let mut k: usize = 0;
        while k < 4
            invariant
                k <= 4,
                old(self).wf(),
                given.len() == 4,
                left@ =~= given.skip(k as int),
                self.scorers@.len() == 4,
                self.scores@.len() == 4,
                self.count == old(self).count,
                self.times@ == old(self).times@.push(t),
                forall|j: int|
                    0 <= j < 4 ==> (#[trigger] given[j])@.len() == old(
                        self,
                    ).scorers@[j].wanted@.len(),
                forall|j: int| k <= j < 4 ==> #[trigger] self.scorers@[j] == old(self).scorers@[j],
                forall|j: int| k <= j < 4 ==> #[trigger] self.scores@[j] == old(self).scores@[j],
                forall|j: int|
                    0 <= j < k ==> {
                        let (was, now): (Scorer, Scorer) = (
                            old(self).scorers@[j],
                            #[trigger] self.scorers@[j],
                        );
                        &&& now.wf()
                        &&& now.template == was.template
                        &&& now.width == was.width
                        &&& now.height == was.height
                        &&& now.window == was.window
                        &&& now.wanted == was.wanted
                        &&& now.ring@ == was.held_with(given[j])
                    },
                forall|j: int|
                    0 <= j < k ==> {
                        let was: Scorer = old(self).scorers@[j];
                        &&& (#[trigger] self.scores@[j])@ == old(self).scores@[j]@.push(
                            was.score(was.held_with(given[j])) as i64,
                        )
                        &&& -WHOLE <= was.score(was.held_with(given[j])) <= WHOLE
                    },
            decreases 4 - k,
        {
            assert(left@[0] == given[k as int]);
            assert(given[k as int]@.len() == old(self).scorers@[k as int].wanted@.len());
            assert(self.scorers@[k as int] == old(self).scorers@[k as int]);
            assert(old(self).scorers@[k as int].wf());
            let sample: Vec<u8> = left.remove(0);
            let ghost was: Scorer = old(self).scorers@[k as int];
            let ghost scores_before = self.scores@;
            let score: i64 = self.scorers[k].take(sample);
            assert(score == was.score(was.held_with(given[k as int])));
            assert(-WHOLE <= was.score(was.held_with(given[k as int])) <= WHOLE);
            assert(self.scores@[k as int] == old(self).scores@[k as int]);
            self.scores[k].push(score);
            assert(self.scores@[k as int]@ == old(self).scores@[k as int]@.push(
                was.score(was.held_with(given[k as int])) as i64,
            ));
            assert forall|j: int| 0 <= j < 4 && j != k implies #[trigger] self.scores@[j]
                == scores_before[j] by {}
            k += 1;
        }
        assert forall|j: int| 0 <= j < 4 implies of_one_pass(
            self.times@,
            (#[trigger] self.scores@[j])@,
        ) by {
            assert(of_one_pass(old(self).times@, old(self).scores@[j]@));
            let was = old(self).scores@[j]@;
            assert forall|i: int| 0 <= i < self.scores@[j]@.len() implies -WHOLE
                <= #[trigger] self.scores@[j]@[i] <= WHOLE by {
                if i < was.len() {
                    assert(self.scores@[j]@[i] == was[i]);
                }
            }
            assert forall|i: int| 0 <= i < self.times@.len() implies in_reach(
                #[trigger] self.times@[i] as int,
            ) by {
                if i < old(self).times@.len() {
                    assert(self.times@[i] == old(self).times@[i]);
                }
            }
        }
    }

    /// What the two passes found.
    pub fn settle(&self, opts: &LogoOptions) -> (r: Result<Logo, LogoError>)
        requires
            self.wf(),
            in_reach(opts.window_seconds as int),
        ensures
            r is Ok <==> steadiest(self.times@, self.scores@, *opts, 4) is Some,
            r matches Err(e) ==> e == LogoError::Nothing(NoLogo),
            r matches Ok(logo) ==> {
                let k = steadiest(self.times@, self.scores@, *opts, 4)->0;
                let one = self.scorers@[k].template;
                let said = read_corner(self.times@, self.scores@[k]@, *opts);
                &&& logo.corner == one.corner
                &&& logo.strength.energy == one.energy
                &&& logo.strength.over == 16 * self.count * self.count * (if one.mask@.len() > 0 {
                    one.mask@.len() as int
                } else {
                    1
                })
                &&& logo.absent@ == said.absent
                &&& logo.brief@ == said.brief
            },
    {
        match pick_corner(self.times.as_slice(), self.scores.as_slice(), opts) {
            None => Err(LogoError::Nothing(NoLogo)),
            Some((k, reading)) => {
                proof {
                    lemma_steadiest_bound(self.times@, self.scores@, *opts, 4);
                }
                let one: &Template = &self.scorers[k].template;
                assert(self.scorers@[k as int].wf());
                let size: usize = if one.mask.len() > 0 {
                    one.mask.len()
                } else {
                    1
                };
                let many: u128 = self.count as u128;
                assert(many * many <= 0x1000_0000_0000) by (nonlinear_arith)
                    requires
                        0 <= many <= 0x40_0000,
                ;
                assert(16 * many * many == 16 * (many * many)) by (nonlinear_arith);
                assert(0 <= 16 * (many * many) * size <= 0x1000_0000_0000_0000_0000) by (nonlinear_arith)
                    requires
                        0 <= many * many <= 0x1000_0000_0000,
                        0 <= size <= 0x40_0000,
                ;
                Ok(
                    Logo {
                        corner: one.corner,
                        strength: Strength {
                            energy: one.energy,
                            over: 16 * many * many * (size as u128),
                        },
                        absent: reading.absent,
                        brief: reading.brief,
                    },
                )
            },
        }
    }
}

proof fn lemma_steadiest_bound(
    times: Seq<i64>,
    scores: Seq<Vec<i64>>,
    opts: LogoOptions,
    n: int,
)
    ensures
        steadiest(times, scores, opts, n) matches Some(k) ==> 0 <= k < n,
    decreases n,
{
    if n > 0 {
        lemma_steadiest_bound(times, scores, opts, n - 1);
    }
}

} // verus!
