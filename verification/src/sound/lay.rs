//! Laying a range's frames one behind the other.
use crate::recording::Ratio;
use crate::time::{in_reach, later, max_time, round_div, rounded, SECOND};
use vstd::prelude::*;

verus! {

/// When a stamp is, of a clock that ticks at this base.
pub open spec fn clock_time(stamp: int, base: Ratio) -> int {
    rounded(stamp * base.num * SECOND, base.den as int)
}

/// When a stamp is, of a clock that ticks at this base.
pub fn time_of(stamp: i64, base: Ratio) -> (r: i64)
    requires
        base.den > 0,
        in_reach(clock_time(stamp as int, base)),
    ensures
        r == clock_time(stamp as int, base),
{
    proof {
        assert(-0x8000_0000_0000_0000 * 0xFFFF_FFFF <= stamp * base.num <= 0x8000_0000_0000_0000
            * 0xFFFF_FFFF) by (nonlinear_arith)
            requires
                -0x8000_0000_0000_0000 <= stamp <= 0x7FFF_FFFF_FFFF_FFFF,
                0 <= base.num <= 0xFFFF_FFFF,
        ;
    }
    let all: i128 = (stamp as i128) * (base.num as i128);
    assert(all * SECOND == stamp * base.num * SECOND);
    round_div(all * (SECOND as i128), base.den as i128) as i64
}

/// A number over another, what is left over dropped whichever side of nought
/// it is on.
pub open spec fn truncated(a: int, b: int) -> int {
    if a >= 0 {
        a / b
    } else {
        -((-a) / b)
    }
}

/// Where to seek to for a range, in microseconds.
///
/// Half a second before the range, so the frame it opens on has been decoded
/// up to rather than seeked into: a seek in a transport stream lands where it
/// can rather than where it was asked, and an AAC frame decoded straight after
/// one is missing half its window.
pub fn landing(from: i64, start_time: i64) -> (r: i64)
    requires
        in_reach(from as int),
        in_reach(start_time as int),
    ensures
        r == truncated((later(from - SECOND / 2, 0) + start_time) * 1_000_000, SECOND as int),
{
    let at: i128 = (max_time(from - SECOND / 2, 0) + start_time) as i128 * 1_000_000;
    if at >= 0 {
        (at / SECOND as i128) as i64
    } else {
        -(((-at) / SECOND as i128) as i64)
    }
}

/// What is known of a packet that was read.
pub struct PacketFacts {
    /// Whether it is of the track being written.
    pub ours: bool,
    /// When it is, where it is of another stream and says.
    pub elsewhere: Option<i64>,
    /// The stamp it carries.
    pub pts: Option<i64>,
    /// How long it says it is, on the track's own clock; nought where it does
    /// not.
    pub duration: i64,
    /// Where the frame was made again beforehand: the stamp of the frame it
    /// has to follow, where it has to follow one.
    pub patch: Option<Option<i64>>,
}

/// What of a recording a range's frames are read by.
pub struct Taking {
    /// From when to when, on the recording's clock.
    pub range: (i64, i64),
    /// The base the track's stamps count in.
    pub base: Ratio,
    /// When the recording starts.
    pub start_time: i64,
    /// What one of the recording's frames is worth, for a track whose packets
    /// do not say.
    pub frame_secs: Option<i64>,
    /// Whether the track is made again as a whole.
    pub recoding: bool,
}

/// What is done with a packet.
#[derive(Debug, Clone, Copy, PartialEq, Eq, Structural)]
pub enum Turn {
    /// The range is over.
    Stop,
    /// Nothing.
    Pass,
    /// It goes to the encoder, which trims to the sample.
    Recode,
    /// It is written as it is, or as it was made again, at this moment of the
    /// output and for this long.
    Copy { at: i64, dur: i64, patched: bool },
}

/// Where a run of frames has reached.
#[derive(Debug, Clone, Copy, PartialEq, Eq, Structural)]
pub struct Laid {
    /// The stamp of the frame written last.
    pub prev: Option<i64>,
    /// Where the sound has reached.
    ///
    /// Frames are laid end to end: they are whole, so a range's worth of them
    /// is a whole number of frames however the range was chosen, and end to
    /// end is the only arrangement that neither overlaps nor drifts.
    pub written: i64,
}

/// How much longer than the range a picture may be read before the range is
/// taken to be over: leeway for the pictures running a little ahead of their
/// sound.
pub const LEEWAY: i64 = 3_528_000_000;

/// When a packet is, on the recording's clock.
pub open spec fn packet_at(p: PacketFacts, by: Taking) -> int {
    clock_time(p.pts->0 as int, by.base) - by.start_time
}

/// How long a packet is.
pub open spec fn packet_len(p: PacketFacts, by: Taking) -> int {
    if p.duration > 0 {
        clock_time(p.duration as int, by.base)
    } else {
        match by.frame_secs {
            Some(d) => d as int,
            None => 0,
        }
    }
}

/// What is done with a packet, given where the frames have reached.
pub open spec fn turned(p: PacketFacts, by: Taking, l: Laid) -> Turn {
    if !p.ours {
        if p.elsewhere is Some && p.elsewhere->0 >= by.range.1 + LEEWAY {
            Turn::Stop
        } else {
            Turn::Pass
        }
    } else if p.pts is None {
        Turn::Pass
    } else {
        let (t, dur) = (packet_at(p, by), packet_len(p, by));
        if t >= by.range.1 {
            Turn::Stop
        } else if by.recoding {
            if t + 2 * dur > by.range.0 {
                Turn::Recode
            } else {
                Turn::Pass
            }
        } else if 2 * t + dur <= 2 * by.range.0 || dur <= 0 {
            Turn::Pass
        } else {
            Turn::Copy {
                at: l.written,
                dur: dur as i64,
                patched: p.patch is Some && (p.patch->0 is None || p.patch->0 == l.prev),
            }
        }
    }
}

/// Where the frames have reached once a packet has had its turn.
pub open spec fn laid_after(p: PacketFacts, by: Taking, l: Laid) -> Laid {
    match turned(p, by, l) {
        Turn::Copy { at, dur, patched } => Laid { prev: p.pts, written: (at + dur) as i64 },
        _ => l,
    }
}

/// Whether a packet's stamps are ones a recording can have.
pub open spec fn stamps_in_reach(p: PacketFacts, by: Taking) -> bool {
    &&& by.base.den > 0
    &&& in_reach(by.start_time as int)
    &&& in_reach(by.range.0 as int)
    &&& in_reach(by.range.1 as int)
    &&& p.ours && p.pts is Some ==> in_reach(clock_time(p.pts->0 as int, by.base))
    &&& in_reach(packet_len(p, by))
}

impl Laid {
    /// Give one packet its turn.
    ///
    /// The re-encoder is handed every frame the range touches: the window says
    /// where the range really begins and ends, which is inside the frames at
    /// both of them. From the frame before the one the range opens in: the
    /// decoder needs it to decode that one whole, and the window drops it.
    ///
    /// A copy opens on whichever frame sits nearest the range's start, so the
    /// error is at most half a frame either way rather than a whole frame
    /// late. A frame with no length is a frame there is nowhere to put: what
    /// follows would land on top of it. And a frame made again beforehand is
    /// only used where what came before it is what it was made to follow.
    pub fn take(&mut self, p: &PacketFacts, by: &Taking) -> (r: Turn)
        requires
            stamps_in_reach(*p, *by),
            -0x4000_0000_0000_0000 <= old(self).written <= 0x4000_0000_0000_0000,
        ensures
            r == turned(*p, *by, *old(self)),
            *final(self) == laid_after(*p, *by, *old(self)),
    {
        if !p.ours {
            if let Some(t) = p.elsewhere {
                if t >= by.range.1 + LEEWAY {
                    return Turn::Stop;
                }
            }
            return Turn::Pass;
        }
        let pts: i64 = match p.pts {
            None => {
                return Turn::Pass;
            },
            Some(pts) => pts,
        };
        let t: i64 = time_of(pts, by.base) - by.start_time;
        let dur: i64 = if p.duration > 0 {
            time_of(p.duration, by.base)
        } else {
            match by.frame_secs {
                Some(d) => d,
                None => 0,
            }
        };
        if t >= by.range.1 {
            return Turn::Stop;
        }
        if by.recoding {
            if t + 2 * dur > by.range.0 {
                return Turn::Recode;
            }
            return Turn::Pass;
        }
        if 2 * t + dur <= 2 * by.range.0 || dur <= 0 {
            return Turn::Pass;
        }
        let patched: bool = match p.patch {
            None => false,
            Some(None) => true,
            Some(Some(after)) => match self.prev {
                Some(prev) => prev == after,
                None => false,
            },
        };
        let at: i64 = self.written;
        self.prev = Some(pts);
        self.written = at + dur;
        Turn::Copy { at, dur, patched }
    }
}

/// Where the frames have reached once the first `n` packets have had their
/// turn.
pub open spec fn laid_to(all: Seq<PacketFacts>, by: Taking, l: Laid, n: int) -> Laid
    decreases n,
{
    if n <= 0 {
        l
    } else {
        laid_after(all[n - 1], by, laid_to(all, by, l, n - 1))
    }
}

/// What is done with one packet of a run.
pub open spec fn turn_of(all: Seq<PacketFacts>, by: Taking, l: Laid, n: int) -> Turn {
    turned(all[n], by, laid_to(all, by, l, n))
}

/// Whether nothing is copied from one packet of a run up to another.
pub open spec fn none_copied(all: Seq<PacketFacts>, by: Taking, l: Laid, i: int, j: int) -> bool {
    forall|k: int| i <= k < j ==> !(#[trigger] turn_of(all, by, l, k) is Copy)
}

proof fn lemma_nothing_moves(all: Seq<PacketFacts>, by: Taking, l: Laid, i: int, j: int)
    requires
        0 <= i <= j,
        none_copied(all, by, l, i, j),
    ensures
        laid_to(all, by, l, j) == laid_to(all, by, l, i),
    decreases j - i,
{
    if i < j {
        lemma_nothing_moves(all, by, l, i, j - 1);
        assert(!(turn_of(all, by, l, j - 1) is Copy));
    }
}

/// The frames of a run are laid end to end: each one that is copied is put
/// where the one copied before it ends, so they neither overlap nor drift.
pub proof fn law_frames_lie_end_to_end(
    all: Seq<PacketFacts>,
    by: Taking,
    l: Laid,
    i: int,
    j: int,
)
    requires
        0 <= i < j,
        turn_of(all, by, l, i) is Copy,
        turn_of(all, by, l, j) is Copy,
        none_copied(all, by, l, i + 1, j),
        i64::MIN <= turn_of(all, by, l, i)->at + turn_of(all, by, l, i)->dur <= i64::MAX,
    ensures
        turn_of(all, by, l, j)->at == turn_of(all, by, l, i)->at + turn_of(all, by, l, i)->dur,
{
    lemma_nothing_moves(all, by, l, i + 1, j);
    assert(laid_to(all, by, l, i + 1) == laid_after(all[i], by, laid_to(all, by, l, i)));
}

/// A moment on a clock that ticks at this base.
pub open spec fn stamp_of(t: int, base: Ratio) -> int {
    rounded(t * base.den, SECOND * base.num)
}

/// Whether a clock ticks at a base that stamps can be counted in.
pub open spec fn counts(base: Ratio) -> bool {
    base.num > 0 && base.den > 0
}

fn stamp(t: i64, base: Ratio) -> (r: i64)
    requires
        counts(base),
        -0x1000_0000_0000_0000 <= t <= 0x1000_0000_0000_0000,
    ensures
        r == stamp_of(t as int, base),
{
    proof {
        assert(-0x1000_0000_0000_0000 * 0xFFFF_FFFF <= t * base.den <= 0x1000_0000_0000_0000
            * 0xFFFF_FFFF) by (nonlinear_arith)
            requires
                -0x1000_0000_0000_0000 <= t <= 0x1000_0000_0000_0000,
                0 < base.den <= 0xFFFF_FFFF,
        ;
        lemma_stamp_fits(t * base.den, SECOND * base.num);
    }
    let (a, b): (i128, i128) = (
        (t as i128) * (base.den as i128),
        (SECOND as i128) * (base.num as i128),
    );
    round_div(a, b) as i64
}

/// What is counted in a base of no finer than a tick of the smallest one there
/// is stays within what a stamp holds.
pub proof fn lemma_stamp_fits(a: int, b: int)
    requires
        -0x1000_0000_0000_0000 * 0xFFFF_FFFF <= a <= 0x1000_0000_0000_0000 * 0xFFFF_FFFF,
        SECOND <= b,
    ensures
        i64::MIN <= rounded(a, b) <= i64::MAX,
{
    let size = if a >= 0 {
        a
    } else {
        -a
    };
    let q = (2 * size + b) / (2 * b);
    assert(0 <= q <= 0x7FFF_FFFF_FFFF_FFFF) by (nonlinear_arith)
        requires
            q == (2 * size + b) / (2 * b),
            0 <= size <= 0x1000_0000_0000_0000 * 0xFFFF_FFFF,
            b >= 705_600_000,
    ;
}

/// When one of the recording's own frames goes out, and for how long, on the
/// container's clock.
pub fn copied_stamp(at: i64, dur: i64, base: Ratio) -> (r: (i64, i64))
    requires
        counts(base),
        at <= 0x1000_0000_0000_0000,
        -0x1000_0000_0000_0000 <= dur <= 0x1000_0000_0000_0000,
    ensures
        r.0 == stamp_of(later(at as int, 0), base),
        r.1 == stamp_of(dur as int, base),
{
    (stamp(max_time(at, 0), base), stamp(dur, base))
}

/// The rate an encoder's samples are counted at.
pub open spec fn counted_at(rate: u32) -> int {
    if rate > 0 {
        rate as int
    } else {
        1
    }
}

/// When a frame the re-encoder made goes out, on the container's clock, and
/// where the sound has then reached.
///
/// `at` counts the encoder's samples, because that is the clock it keeps. The
/// container keeps whatever time it likes: an MP4 counts in samples, and
/// MPEG-TS insists on 90 kHz.
pub fn encoded_stamp(at: i64, rate: u32, base: Ratio) -> (r: (i64, i64))
    requires
        counts(base),
        i64::MIN <= rounded(at * base.den, counted_at(rate) * base.num) <= i64::MAX,
        i64::MIN <= rounded(at * SECOND, counted_at(rate)) <= i64::MAX,
    ensures
        r.0 == rounded(at * base.den, counted_at(rate) * base.num),
        r.1 == rounded(at * SECOND, counted_at(rate)),
{
    let samples: i128 = if rate > 0 {
        rate as i128
    } else {
        1
    };
    proof {
        assert(-0x8000_0000_0000_0000 * 0xFFFF_FFFF <= at * base.den <= 0x8000_0000_0000_0000
            * 0xFFFF_FFFF) by (nonlinear_arith)
            requires
                -0x8000_0000_0000_0000 <= at <= 0x7FFF_FFFF_FFFF_FFFF,
                0 < base.den <= 0xFFFF_FFFF,
        ;
        assert(1 <= samples * base.num <= 0xFFFF_FFFF * 0xFFFF_FFFF) by (nonlinear_arith)
            requires
                1 <= samples <= 0xFFFF_FFFF,
                1 <= base.num <= 0xFFFF_FFFF,
        ;
    }
    let (a, b): (i128, i128) = (
        (at as i128) * (base.den as i128),
        samples * (base.num as i128),
    );
    (round_div(a, b) as i64, round_div((at as i128) * (SECOND as i128), samples) as i64)
}

} // verus!
