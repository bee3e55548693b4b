//! Single-frame extraction, for scrubbing a timeline.
//!
//! A webview cannot play MPEG-2 in a transport stream, so the picture under
//! the playhead has to be decoded and handed over as an image. What is decided
//! here is which picture that is, and where to read for it.
pub mod glance;
pub mod near;
pub mod strip;

use crate::proxy::encode::{at_least, even, held, shape};
use crate::proxy::{is_entry, passed};
use crate::recording::{AccessPoint, Ratio};
use crate::sound::lay::truncated;
use crate::thumbs::apart;
use crate::time::{in_reach, later, max_time, round_div, rounded, HAIR, SECOND};
use vstd::prelude::*;

verus! {

/// Whether `t` is a random access point, to within half a picture.
pub fn on_point(points: &[AccessPoint], t: i64, fd: i64) -> (r: bool)
    requires
        in_reach(t as int),
        in_reach(fd as int),
        forall|i: int| 0 <= i < points@.len() ==> in_reach((#[trigger] points@[i]).time as int),
    ensures
        r == is_entry(points@, passed(points@, 2 * t - fd, 0), t as int, fd as int),
{
    let mut i: usize = 0;
    while i < points.len() && 2 * points[i].time < 2 * t - fd
        invariant
            i <= points@.len(),
            in_reach(t as int),
            in_reach(fd as int),
            forall|k: int| 0 <= k < points@.len() ==> in_reach((#[trigger] points@[k]).time as int),
            passed(points@, 2 * t - fd, 0) == passed(points@, 2 * t - fd, i as int),
        decreases points@.len() - i,
    {
        i += 1;
    }
    if i < points.len() {
        let p: i64 = points[i].time;
        2 * (if p < t {
            t - p
        } else {
            p - t
        }) <= fd
    } else {
        false
    }
}

/// Of the first `n` access points, when the latest one is that is at or before
/// this; nought where none is.
pub open spec fn entered_by(points: Seq<AccessPoint>, time: int, n: int) -> int
    decreases n,
{
    if n <= 0 {
        0
    } else if points[n - 1].time <= time + HAIR {
        points[n - 1].time as int
    } else {
        entered_by(points, time, n - 1)
    }
}

/// The latest access point at or before `time`, so the decode has references.
///
/// Seeking is to there rather than to the target itself: an open GOP cannot be
/// decoded from anywhere else, and broadcast material is open-GOP throughout.
pub fn entry_before(points: &[AccessPoint], time: i64) -> (r: i64)
    requires
        in_reach(time as int),
    ensures
        r == entered_by(points@, time as int, points@.len() as int),
{
    let mut n: usize = points.len();
    while n > 0
        invariant
            n <= points@.len(),
            in_reach(time as int),
            entered_by(points@, time as int, points@.len() as int) == entered_by(
                points@,
                time as int,
                n as int,
            ),
        decreases n,
    {
        if points[n - 1].time <= time + HAIR {
            return points[n - 1].time;
        }
        n -= 1;
    }
    0
}

/// Where to seek to from before the first access point: as far back as there
/// is.
pub const FRONT: i64 = -0x4000_0000_0000_0000;

/// Where to seek to, in microseconds, to read from an access point, so much
/// earlier.
///
/// Asking for the beginning has to mean the beginning: aiming at the
/// container's own start time lands *past* the file's first entry point, and
/// that is the one place a back-off has nothing earlier to fall back to. The
/// threshold is that first entry point rather than zero, because nothing
/// before it can be decoded anyway.
pub fn walk_target(points: &[AccessPoint], from: i64, margin: i64, start_time: i64) -> (r: i64)
    requires
        in_reach(from as int),
        in_reach(margin as int),
        in_reach(start_time as int),
    ensures
        ({
            let landing = later(from - margin, 0);
            r == (if points@.len() == 0 || landing <= points@[0].time {
                FRONT as int
            } else {
                truncated((landing + start_time) * 1_000_000, SECOND as int)
            })
        }),
{
    let landing: i64 = max_time(from - margin, 0);
    if points.len() == 0 || landing <= points[0].time {
        return FRONT;
    }
    micros(landing + start_time)
}

/// A moment in microseconds, what is left over dropped.
pub(crate) fn micros(t: i64) -> (r: i64)
    requires
        -0x1000_0000_0000_0000 <= t <= 0x1000_0000_0000_0000,
    ensures
        r == truncated(t * 1_000_000, SECOND as int),
{
    let at: i128 = t as i128 * 1_000_000;
    if at >= 0 {
        (at / SECOND as i128) as i64
    } else {
        -(((-at) / SECOND as i128) as i64)
    }
}

/// Whether decoding began late enough to have missed the picture wanted: by
/// more than half of this, or not at all.
pub fn landed_late(first: Option<i64>, wanted: i64, twice_slack: i64) -> (r: bool)
    requires
        in_reach(wanted as int),
        in_reach(twice_slack as int),
        first is Some ==> in_reach(first->0 as int),
    ensures
        r == !(first is Some && 2 * (first->0 - wanted) <= twice_slack),
{
    match first {
        Some(f) => 2 * (f - wanted) > twice_slack,
        None => true,
    }
}

/// The size of a picture's image.
pub open spec fn image_size(pw: int, ph: int, sar: Ratio, width: int) -> (int, int) {
    let s = shape(sar);
    let native = held(rounded(pw * s.num, s.den as int));
    let w = even(
        at_least(
            if width < native {
                width
            } else {
                native
            },
            16,
        ),
    );
    (w, even(at_least(held(rounded(w * ph * s.den, pw * s.num)), 16)))
}

/// What size a picture's image is, given the picture's own, the shape of its
/// samples and the width asked for.
///
/// What the picture is worth is not its coded width: 1440 samples across shown
/// at 16:9 need 1920 to keep all 1080 of its lines, and stopping at 1440 would
/// throw a quarter of them away. Past that there is nothing more to ask for.
pub fn jpeg_size(pw: u32, ph: u32, sar: Ratio, width: u32) -> (r: (u32, u32))
    requires
        pw > 0,
    ensures
        (r.0 as int, r.1 as int) == image_size(pw as int, ph as int, sar, width as int),
{
    let s: Ratio = if sar.den == 0 || 100 * (sar.num as u64) < sar.den as u64 {
        Ratio { num: 1, den: 100 }
    } else {
        sar
    };
    assert(s == shape(sar));
    proof {
        assert(0 <= pw * s.num <= 0xFFFF_FFFF * 0xFFFF_FFFF && 1 <= pw * s.num) by (nonlinear_arith)
            requires
                1 <= pw <= 0xFFFF_FFFF,
                1 <= s.num <= 0xFFFF_FFFF,
        ;
        let (a, b) = (pw * s.num, s.den as int);
        assert((2 * a + b) / (2 * b) >= 0) by (nonlinear_arith)
            requires
                a >= 0,
                b >= 1,
        ;
    }
    let across: i128 = (pw as i128) * (s.num as i128);
    let worth: i128 = round_div(across, s.den as i128);
    let native: u32 = if worth > u32::MAX as i128 {
        u32::MAX
    } else {
        worth as u32
    };
    let least: u32 = if width < native {
        width
    } else {
        native
    };
    let w: u32 = (if least > 16 {
        least
    } else {
        16
    }) / 2 * 2;
    proof {
        assert(0 <= w * ph <= 0xFFFF_FFFF * 0xFFFF_FFFF) by (nonlinear_arith)
            requires
                0 <= w <= 0xFFFF_FFFF,
                0 <= ph <= 0xFFFF_FFFF,
        ;
        assert(0 <= w * ph * s.den <= 0x1FFF_FFFF_FFFF_FFFF_FFFF_FFFF_FFFF_FFFF) by (nonlinear_arith)
            requires
                0 <= w * ph <= 0xFFFF_FFFF * 0xFFFF_FFFF,
                0 <= s.den <= 0xFFFF_FFFF,
        ;
        let (a, b) = (w * ph * s.den, pw * s.num);
        assert((2 * a + b) / (2 * b) >= 0) by (nonlinear_arith)
            requires
                a >= 0,
                b >= 1,
        ;
    }
    let tall: i128 = round_div((w as i128) * (ph as i128) * (s.den as i128), across);
    let own: u32 = if tall > u32::MAX as i128 {
        u32::MAX
    } else {
        tall as u32
    };
    let h: u32 = (if own > 16 {
        own
    } else {
        16
    }) / 2 * 2;
    (w, h)
}

/// What to do with a picture that has just been decoded.
#[derive(Debug, Clone, Copy, PartialEq, Eq, Structural)]
pub enum Pace {
    /// Encode it and hand it over.
    Show,
    /// Let it go by. Costs only the decode, which is the point: dropping has
    /// to be cheaper than showing or playback can never catch up.
    Skip,
    Stop,
}

/// Whether a picture is one of a stretch being played.
#[derive(Debug, Clone, Copy, PartialEq, Eq, Structural)]
pub enum Gate {
    /// The stretch is over.
    Past,
    /// The stretch has not begun.
    Before,
    /// It is one to offer.
    Open,
}

/// Whether a picture is one of a stretch being played.
pub fn gate(t: i64, from: i64, until: i64, fd: i64) -> (r: Gate)
    requires
        in_reach(t as int),
        in_reach(from as int),
        in_reach(until as int),
        in_reach(fd as int),
    ensures
        r == (if 2 * t > 2 * until + fd {
            Gate::Past
        } else if 2 * t < 2 * from - fd {
            Gate::Before
        } else {
            Gate::Open
        }),
{
    if 2 * t > 2 * until + fd {
        Gate::Past
    } else if 2 * t < 2 * from - fd {
        Gate::Before
    } else {
        Gate::Open
    }
}

/// Which of two pictures is the one wanted.
#[derive(Debug, Clone, Copy, PartialEq, Eq, Structural)]
pub enum Straddle {
    /// Neither yet: this one is kept in case the next is further off.
    Keep,
    /// This one.
    This,
    /// The one kept before it.
    Kept,
}

/// Whether the picture wanted has come: it is whichever of the two straddling
/// `time` is nearer -- not "the first one at or after it". Under 2:3 pulldown
/// the pictures are 41.7ms apart inside a 29.97 fps stream, so taking a
/// picture every frame duration to be there picks the wrong side of the gap.
pub fn straddle(kept: Option<i64>, t: i64, time: i64) -> (r: Straddle)
    requires
        in_reach(t as int),
        in_reach(time as int),
        kept is Some ==> in_reach(kept->0 as int),
    ensures
        r == (if t < time - HAIR {
            Straddle::Keep
        } else if kept is Some && apart(time as int, kept->0 as int) < apart(
            t as int,
            time as int,
        ) {
            Straddle::Kept
        } else {
            Straddle::This
        }),
{
    if t < time - HAIR {
        return Straddle::Keep;
    }
    let after: i64 = if t < time {
        time - t
    } else {
        t - time
    };
    match kept {
        Some(p) => {
            let before: i64 = if p < time {
                time - p
            } else {
                p - time
            };
            if before < after {
                Straddle::Kept
            } else {
                Straddle::This
            }
        },
        None => Straddle::This,
    }
}

} // verus!
