//! Live audio for the preview player, straight to the sound card.
//!
//! The video half of playback paces itself against a wall clock, and so does
//! this: both are handed the one instant playback began at, and every sample
//! carries the moment on that clock it is due to be heard.
pub mod heard;
pub mod output;
pub mod ring;

pub use ring::{Bite, Feed, Tally, SLACK};

use crate::sound::lay::truncated;
use crate::time::{in_reach, later, max_time, round_div, rounded, SECOND};
use vstd::prelude::*;

verus! {

/// About a second of interleaved samples -- enough that the video decode
/// sharing the same CPU cannot starve the card between pictures.
pub fn capacity(sample_rate: u32, channels: u16) -> (r: u64)
    ensures
        r == sample_rate * channels,
{
    proof {
        assert(0 <= sample_rate * channels <= 0xFFFF_FFFF * 0xFFFF) by (nonlinear_arith)
            requires
                0 <= sample_rate <= 0xFFFF_FFFF,
                0 <= channels <= 0xFFFF,
        ;
    }
    sample_rate as u64 * channels as u64
}

/// The bits of a gain of one.
pub const FULL_GAIN: u32 = 0x3F80_0000;

/// The bits of a number below nought are those of its magnitude and this.
pub const BELOW_NOUGHT: u32 = 0x8000_0000;

/// Whether some bits are those of no number.
pub open spec fn no_number(bits: u32) -> bool {
    bits % BELOW_NOUGHT > 0x7F80_0000
}

/// The gain held once another is asked for: what is asked for, no less than
/// nought and no more than one. What is no number leaves it where it was.
pub open spec fn gain_after(held: u32, asked: u32) -> u32 {
    if no_number(asked) {
        held
    } else if asked > BELOW_NOUGHT {
        0
    } else if asked < BELOW_NOUGHT && asked > FULL_GAIN {
        FULL_GAIN
    } else {
        asked
    }
}

/// How loud the sound is heard: the bits of a gain from nought to one.
///
/// A multiplier and not a percentage: what a slider's position should mean in
/// loudness is a question about the person looking at it.
#[derive(Debug, Clone, Copy, PartialEq, Eq, Structural)]
pub struct Volume {
    pub gain: u32,
}

impl Default for Volume {
    fn default() -> (r: Volume)
        ensures
            r.gain == FULL_GAIN,
    {
        Volume { gain: FULL_GAIN }
    }
}

impl Volume {
    pub fn new(gain: u32) -> (r: Volume)
        ensures
            r.gain == gain_after(0, gain),
    {
        let mut v: Volume = Volume { gain: 0 };
        v.set(gain);
        v
    }

    /// Set it. Anything that is not a number -- which is what an empty box
    /// arrives as -- leaves it where it was.
    pub fn set(&mut self, gain: u32)
        ensures
            final(self).gain == gain_after(old(self).gain, gain),
    {
        if gain % BELOW_NOUGHT > 0x7F80_0000 {
            return;
        }
        self.gain = if gain > BELOW_NOUGHT {
            0
        } else if gain < BELOW_NOUGHT && gain > FULL_GAIN {
            FULL_GAIN
        } else {
            gain
        };
    }

    pub fn get(&self) -> (r: u32)
        ensures
            r == self.gain,
    {
        self.gain
    }
}

/// How many channels the sound is heard in, where that is fewer than the
/// recording has: 0 for the recording's own.
///
/// What a row is written as, heard before it is written. A 5.1 film that the
/// list has been told to fold into stereo is played folded and metered on two
/// bars, so what the cut editor says about the sound is what the output will
/// hold rather than what the recording held.
#[derive(Debug, Clone, Copy, PartialEq, Eq, Structural)]
pub struct Fold {
    pub channels: u16,
}

impl Default for Fold {
    fn default() -> (r: Fold)
        ensures
            r.channels == 0,
    {
        Fold { channels: 0 }
    }
}

impl Fold {
    pub fn set(&mut self, channels: u16)
        ensures
            final(self).channels == channels,
    {
        self.channels = channels;
    }

    pub fn get(&self) -> (r: u16)
        ensures
            r == self.channels,
    {
        self.channels
    }

    /// How many channels a track of `own` is heard in.
    pub fn of(&self, own: u16) -> (r: u16)
        ensures
            r == (if 0 < self.channels < own {
                self.channels
            } else {
                own
            }),
    {
        if 0 < self.channels && self.channels < own {
            self.channels
        } else {
            own
        }
    }
}

/// As many channels as the meter has room for. Everything broadcast is one,
/// two or six; a recording with more of them is metered on the first eight and
/// the rest are not drawn. See [`Levels`].
pub const METERED: usize = 8;

/// How loud each channel has been since the meter last looked.
///
/// The editor draws a level meter beside the picture, and what it draws has to
/// be *what is being played*: the loudest the recording reached over the
/// stretch of it the sound card has just been handed. The decode end measures
/// each frame as the recording holds it and leaves the answer beside the
/// samples it produced ([`Bite`]); the output end, having handed those samples
/// over, says how many frames' worth went and the peaks behind them are what
/// the meter takes.
///
/// Read destructively: asking empties it. A meter is not a running total but
/// the peak over the moment it is drawing.
///
/// A level is the bits of a 32-bit floating-point magnitude: of two of those,
/// the one with the larger bit pattern is the larger number.
pub struct Levels {
    /// How many of the peaks are being written, which is how many bars the
    /// meter draws. The recording's own channel count.
    pub channels: usize,
    pub peak: Vec<u32>,
}

/// What a meter holds.
pub ghost struct Meter {
    pub channels: int,
    pub peak: Seq<u32>,
}

impl View for Levels {
    type V = Meter;

    open spec fn view(&self) -> Meter {
        Meter { channels: self.channels as int, peak: self.peak@ }
    }
}

/// How many channels of a bite are metered.
pub open spec fn metered(channels: int) -> int {
    if channels < 1 {
        1
    } else if channels > METERED {
        METERED as int
    } else {
        channels
    }
}

/// A meter that has taken a bite.
pub open spec fn with_bite(m: Meter, bite: Bite) -> Meter {
    let n = metered(bite.channels as int);
    Meter {
        channels: n,
        peak: Seq::new(
            m.peak.len(),
            |c: int|
                if c < n && bite.peaks@[c] > m.peak[c] {
                    bite.peaks@[c]
                } else {
                    m.peak[c]
                },
        ),
    }
}

/// A meter that has taken bites.
pub open spec fn eaten_all(m: Meter, bites: Seq<Bite>) -> Meter
    decreases bites.len(),
{
    if bites.len() == 0 {
        m
    } else {
        with_bite(eaten_all(m, bites.drop_last()), bites.last())
    }
}

impl Levels {
    pub open spec fn wf(&self) -> bool {
        self.peak@.len() == METERED && self.channels <= METERED
    }

    /// Nothing heard.
    pub fn new() -> (r: Levels)
        ensures
            r.wf(),
            r.channels == 0,
            forall|c: int| 0 <= c < METERED ==> #[trigger] r.peak@[c] == 0,
    {
        let mut peak: Vec<u32> = Vec::new();
        peak.resize(METERED, 0);
        Levels { channels: 0, peak }
    }

    /// Take a bite the card has just played some of.
    ///
    /// A frame's peak counts in full as soon as any of it has been heard -- it
    /// is a peak, not an average, and a decoded frame is tens of milliseconds,
    /// which is shorter than the meter's own step.
    pub fn eat(&mut self, bite: &Bite)
        requires
            old(self).wf(),
        ensures
            final(self).wf(),
            final(self)@ == with_bite(old(self)@, *bite),
    {
        let channels: usize = if bite.channels < 1 {
            1
        } else if bite.channels > METERED {
            METERED
        } else {
            bite.channels
        };
        let ghost was = self.peak@;
        let mut c: usize = 0;
        while c < channels
            invariant
                c <= channels <= METERED,
                self.peak@.len() == METERED,
                was.len() == METERED,
                forall|k: int|
                    0 <= k < c ==> #[trigger] self.peak@[k] == (if bite.peaks@[k] > was[k] {
                        bite.peaks@[k]
                    } else {
                        was[k]
                    }),
                forall|k: int| c <= k < METERED ==> #[trigger] self.peak@[k] == was[k],
            decreases channels - c,
        {
            if bite.peaks[c] > self.peak[c] {
                self.peak.set(c, bite.peaks[c]);
            }
            c += 1;
        }
        self.channels = channels;
        assert(self.peak@ =~= with_bite(old(self)@, *bite).peak);
    }

    /// What each channel reached since this was last asked, and back to
    /// nothing for the next moment.
    pub fn take(&mut self) -> (out: Vec<u32>)
        requires
            old(self).wf(),
        ensures
            final(self).wf(),
            out@ == old(self).peak@.take(old(self).channels as int),
            final(self).channels == old(self).channels,
            forall|c: int|
                0 <= c < METERED ==> #[trigger] final(self).peak@[c] == (if c
                    < old(self).channels {
                    0
                } else {
                    old(self).peak@[c]
                }),
    {
        let ghost was = self.peak@;
        let mut out: Vec<u32> = Vec::new();
        let mut c: usize = 0;
        while c < self.channels
            invariant
                c <= self.channels <= METERED,
                self.channels == old(self).channels,
                self.peak@.len() == METERED,
                was.len() == METERED,
                out@ =~= was.take(c as int),
                forall|k: int| 0 <= k < c ==> #[trigger] self.peak@[k] == 0,
                forall|k: int| c <= k < METERED ==> #[trigger] self.peak@[k] == was[k],
            decreases self.channels - c,
        {
            out.push(self.peak[c]);
            self.peak.set(c, 0);
            c += 1;
        }
        out
    }

    /// Nothing is playing, so nothing is being heard. Said at both ends of a
    /// run: a meter left holding the last buffer of the last playback is a
    /// meter reporting a sound that stopped.
    pub fn clear(&mut self)
        ensures
            final(self).wf(),
            final(self).channels == 0,
            forall|c: int| 0 <= c < METERED ==> #[trigger] final(self).peak@[c] == 0,
    {
        let mut peak: Vec<u32> = Vec::new();
        peak.resize(METERED, 0);
        self.channels = 0;
        self.peak = peak;
    }
}

/// The loudest of the first `n` samples that are of one channel, of so many
/// interleaved, and of what was there before.
pub open spec fn loudest(data: Seq<u32>, laid: int, channel: int, was: u32, n: int) -> u32
    decreases n,
{
    if n <= 0 {
        was
    } else {
        let before = loudest(data, laid, channel, was, n - 1);
        if (n - 1) % laid == channel && data[n - 1] > before {
            data[n - 1]
        } else {
            before
        }
    }
}

/// Some interleaved samples, each by its magnitude, into the peaks they belong
/// to.
///
/// What the samples are laid out in, and what is metered, are not the same
/// number on a recording with more channels than the meter has bars, and an
/// interleaved frame has to be strided by the layout's count or every bar reads
/// the wrong channel.
pub fn scan(data: &[u32], laid: usize, out: &mut Vec<u32>)
    requires
        laid > 0,
        old(out)@.len() == METERED,
    ensures
        final(out)@.len() == METERED,
        forall|c: int|
            0 <= c < METERED ==> #[trigger] final(out)@[c] == loudest(
                data@,
                laid as int,
                c,
                old(out)@[c],
                data@.len() as int,
            ),
{
    let ghost was = out@;
    let mut i: usize = 0;
    while i < data.len()
        invariant
            i <= data@.len(),
            laid > 0,
            out@.len() == METERED,
            was.len() == METERED,
            forall|c: int|
                0 <= c < METERED ==> #[trigger] out@[c] == loudest(
                    data@,
                    laid as int,
                    c,
                    was[c],
                    i as int,
                ),
        decreases data@.len() - i,
    {
        let c: usize = i % laid;
        if c < METERED && data[i] > out[c] {
            out.set(c, data[i]);
        }
        i += 1;
    }
}

/// The slice of a decoded frame, in samples of each channel, that falls inside
/// a stretch.
pub open spec fn window_in(n: int, rate: u32, t: int, start: int, end: int) -> (int, int) {
    (
        rounded(later(start - t, 0) * rate, SECOND as int),
        if (end - t) * rate < n * SECOND {
            ring::least(rounded((end - t) * rate, SECOND as int), n)
        } else {
            n
        },
    )
}

/// The slice of a decoded frame, in samples-per-channel, that falls inside
/// `[start, end)` of the source clock. `t` is the frame's own presentation
/// time, and `rate` the rate the samples are in by the time they get here --
/// resampling changes how many there are, not how long they last.
pub fn frame_window(n: usize, rate: u32, t: i64, start: i64, end: i64) -> (r: Option<
    (usize, usize),
>)
    requires
        n <= 0xFFFF_FFFF,
        in_reach(t as int),
        in_reach(start as int),
        in_reach(end as int),
    ensures
        ({
            let (lo, hi) = window_in(n as int, rate, t as int, start as int, end as int);
            let outside = t * rate + n * SECOND <= start * rate || t >= end;
            match r {
                None => outside || hi <= lo,
                Some(w) => !outside && lo < hi && w.0 == lo && w.1 == hi,
            }
        }),
{
    let (r, s): (i128, i128) = (rate as i128, SECOND as i128);
    proof {
        lemma_by_rate(t as int, rate);
        lemma_by_rate(start as int, rate);
        lemma_by_rate(end - t, rate);
        lemma_by_rate(later(start - t, 0), rate);
    }
    let dur: i128 = (n as i128) * s;
    if (t as i128) * r + dur <= (start as i128) * r || t >= end {
        return None;
    }
    let before: i64 = max_time(start - t, 0);
    let lo: i128 = round_div((before as i128) * r, s);
    let until: i128 = ((end - t) as i128) * r;
    let hi: i128 = if until < dur {
        let v: i128 = round_div(until, s);
        if v < n as i128 {
            v
        } else {
            n as i128
        }
    } else {
        n as i128
    };
    if hi <= lo {
        return None;
    }
    Some((lo as usize, hi as usize))
}

/// A time by a rate stays within what can be counted.
proof fn lemma_by_rate(t: int, rate: u32)
    requires
        -0x800_0000_0000_0000 <= t <= 0x800_0000_0000_0000,
    ensures
        -0x800_0000_0000_0000 * 0xFFFF_FFFF <= t * rate <= 0x800_0000_0000_0000 * 0xFFFF_FFFF,
{
    assert(-0x800_0000_0000_0000 * 0xFFFF_FFFF <= t * rate <= 0x800_0000_0000_0000 * 0xFFFF_FFFF)
        by (nonlinear_arith)
        requires
            -0x800_0000_0000_0000 <= t <= 0x800_0000_0000_0000,
            0 <= rate <= 0xFFFF_FFFF,
    ;
}

/// How much room a resampled frame needs: as many samples as it makes, rounded
/// up, and a few more.
///
/// Sized here rather than left to the resampler, which asks for room for as
/// many samples as went in -- short by the ratio of the rates whenever the
/// card runs faster than the source.
pub fn resampled_room(samples: u32, from: u32, to: u32) -> (r: u64)
    ensures
        ({
            let by = if from > 0 {
                from as int
            } else {
                1
            };
            r == (samples * to + by - 1) / by + 32
        }),
{
    proof {
        assert(0 <= samples * to <= 0xFFFF_FFFE_0000_0001) by (nonlinear_arith)
            requires
                0 <= samples <= 0xFFFF_FFFF,
                0 <= to <= 0xFFFF_FFFF,
        ;
    }
    let over: u128 = if from > 0 {
        from as u128
    } else {
        1
    };
    let all: u128 = (samples as u128) * (to as u128) + over - 1;
    proof {
        let (a, b) = (all as int, over as int);
        assert(a / b <= 0xFFFF_FFFE_0000_0001) by (nonlinear_arith)
            requires
                a <= 0xFFFF_FFFE_0000_0001 + b - 1,
                b >= 1,
        ;
    }
    (all / over) as u64 + 32
}

/// One range as it is played: where the range opens, from when in the
/// recording it is played and up to when, and when on the output's clock that
/// begins.
#[derive(Debug, Clone, Copy, PartialEq, Eq, Structural)]
pub struct Play {
    pub opens: i64,
    pub start: i64,
    pub end: i64,
    pub here: i64,
}

/// Where the output's clock is once the first `n` ranges are played: each
/// takes up what is asked for of it, however much of it the file turns out to
/// hold.
pub open spec fn clock_after(ranges: Seq<(i64, i64)>, from: int, base: int, n: int) -> int
    decreases n,
{
    if n <= 0 {
        base
    } else {
        let (a, b) = ranges[n - 1];
        let start = later(a as int, from);
        clock_after(ranges, from, base, n - 1) + (if start >= b {
            0
        } else {
            b - start
        })
    }
}

/// The ranges of the first `n` that are played.
pub open spec fn plays(ranges: Seq<(i64, i64)>, from: int, base: int, n: int) -> Seq<Play>
    decreases n,
{
    if n <= 0 {
        Seq::empty()
    } else {
        let (a, b) = ranges[n - 1];
        let start = later(a as int, from);
        if start >= b {
            plays(ranges, from, base, n - 1)
        } else {
            plays(ranges, from, base, n - 1).push(
                Play {
                    opens: a,
                    start: start as i64,
                    end: b,
                    here: clock_after(ranges, from, base, n - 1) as i64,
                },
            )
        }
    }
}

/// What of a part's ranges is played, from an instant on, and where on the
/// output's clock the part after it begins.
pub fn laid_out(ranges: &[(i64, i64)], from: i64, base: i64) -> (r: (Vec<Play>, i64))
    requires
        in_reach(from as int),
        forall|n: int|
            0 <= n <= ranges@.len() ==> -0x1000_0000_0000_0000 <= #[trigger] clock_after(
                ranges@,
                from as int,
                base as int,
                n,
            ) <= 0x1000_0000_0000_0000,
    ensures
        r.0@ == plays(ranges@, from as int, base as int, ranges@.len() as int),
        r.1 == clock_after(ranges@, from as int, base as int, ranges@.len() as int),
{
    let ghost (f, b0) = (from as int, base as int);
    let mut out: Vec<Play> = Vec::new();
    assert(clock_after(ranges@, f, b0, 0) == base);
    let mut at: i64 = base;
    let mut i: usize = 0;
    while i < ranges.len()
        invariant
            i <= ranges@.len(),
            in_reach(from as int),
            f == from,
            b0 == base,
            forall|n: int|
                0 <= n <= ranges@.len() ==> -0x1000_0000_0000_0000 <= #[trigger] clock_after(
                    ranges@,
                    f,
                    b0,
                    n,
                ) <= 0x1000_0000_0000_0000,
            out@ == plays(ranges@, f, b0, i as int),
            at == clock_after(ranges@, f, b0, i as int),
        decreases ranges@.len() - i,
    {
        let (a, b): (i64, i64) = ranges[i];
        let start: i64 = max_time(a, from);
        assert(-0x1000_0000_0000_0000 <= clock_after(ranges@, f, b0, i + 1)
            <= 0x1000_0000_0000_0000);
        if start < b {
            assert(clock_after(ranges@, f, b0, i + 1) == at + (b - start));
            out.push(Play { opens: a, start, end: b, here: at });
            at = at + (b - start);
        }
        i += 1;
    }
    (out, at)
}

/// Where to seek to for an instant, in microseconds: a little early rather
/// than exactly on it. The container's seek is only approximate, and landing
/// late would lose the beginning outright, where landing early just means a
/// moment more gets decoded and trimmed away.
pub fn seek_early(at: i64, margin: i64, start_time: i64) -> (r: i64)
    requires
        in_reach(at as int),
        in_reach(margin as int),
        in_reach(start_time as int),
    ensures
        r == truncated((later(at - margin, 0) + start_time) * 1_000_000, SECOND as int),
{
    crate::preview::micros(max_time(at - margin, 0) + start_time)
}

/// What is done with a frame of a moment being metered.
#[derive(Debug, Clone, Copy, PartialEq, Eq, Structural)]
pub enum Measured {
    /// The moment is over.
    Past,
    /// It is before the moment: seeking lands early on purpose.
    Before,
    /// These of its samples are inside the moment, of each channel.
    Inside(usize, usize),
}

/// The first sample at or after a moment, of so many.
pub open spec fn sample_at(d: int, rate: int, n: int) -> int {
    if d <= 0 {
        0
    } else {
        ring::least((d * rate + SECOND - 1) / (SECOND as int), n)
    }
}

/// What of a decoded frame is inside a moment being metered, from `time` up to
/// `end`. `n` is how many samples it turned into.
///
/// Only the samples inside the moment, not every sample of every frame that
/// overlaps it. A frame of AAC is 21 milliseconds and a picture is 33, so two
/// or three frames reach into one picture's moment and each of them brings
/// sound from either side of it.
pub fn metered_part(
    own: u32,
    n: usize,
    rate: u32,
    t: i64,
    time: i64,
    end: i64,
) -> (r: Measured)
    requires
        n <= 0xFFFF_FFFF,
        in_reach(t as int),
        in_reach(time as int),
        in_reach(end as int),
    ensures
        ({
            let by = if rate > 0 {
                rate as int
            } else {
                1
            };
            r == (if t >= end {
                Measured::Past
            } else if t * by + own * SECOND <= time * by {
                Measured::Before
            } else {
                Measured::Inside(
                    sample_at(time - t, by, n as int) as usize,
                    sample_at(end - t, by, n as int) as usize,
                )
            })
        }),
{
    if t >= end {
        return Measured::Past;
    }
    let counted: u32 = if rate > 0 {
        rate
    } else {
        1
    };
    let over: i128 = counted as i128;
    proof {
        lemma_by_rate(t as int, counted);
        lemma_by_rate(time as int, counted);
    }
    assert(own * SECOND <= 0xFFFF_FFFF * SECOND);
    let long: i128 = (own as i128) * (SECOND as i128);
    if (t as i128) * over + long <= (time as i128) * over {
        return Measured::Before;
    }
    Measured::Inside(sample_from(time - t, counted, n), sample_from(end - t, counted, n))
}

fn sample_from(d: i64, rate: u32, n: usize) -> (r: usize)
    requires
        -0x800_0000_0000_0000 <= d <= 0x800_0000_0000_0000,
        n <= 0xFFFF_FFFF,
    ensures
        r == sample_at(d as int, rate as int, n as int),
{
    if d <= 0 {
        return 0;
    }
    proof {
        lemma_by_rate(d as int, rate);
        assert(d * rate >= 0) by (nonlinear_arith)
            requires
                d >= 0,
                rate >= 0,
        ;
    }
    let v: i128 = ((d as i128) * (rate as i128) + SECOND as i128 - 1) / (SECOND as i128);
    if v < n as i128 {
        v as usize
    } else {
        n
    }
}

} // verus!
