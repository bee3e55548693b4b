//! A small stand-in for the recording, decoded once when the file is opened.
//!
//! Scrubbing a broadcast recording is expensive for reasons that have nothing
//! to do with the picture wanted. So the whole thing is decoded once, straight
//! through -- the cheapest way to read it -- and written out small,
//! square-pixel and short-GOP. What the timeline asks about afterwards is
//! answered from that file instead.
//!
//! Two properties make the substitution invisible to everything above:
//!
//!   * **The clock is the same.** Each proxy picture carries its source
//!     picture's presentation time. Proxy time *is* source time.
//!   * **The entry points are the same.** A keyframe is forced at every one
//!     of the source's access points.
pub mod encode;
pub mod marks;

pub use encode::{quality_for, ProxyOptions, MAX_HEIGHT, MAX_WIDTH, QUALITY, WIDTH};
pub use marks::{HeldMarks, Marks};

use crate::cache::{eaten, file_name, key, key_bytes, name_of, SUM_START};
use crate::le::{le_bytes, put_u32, put_u64};
use crate::naming::{retitled, with_extension};
use crate::recording::index::Source;
use crate::recording::AccessPoint;
use crate::time::in_reach;
use vstd::prelude::*;

verus! {

/// Bumped when a change here would make an existing proxy wrong. It goes into
/// the cache key, so old files are simply never looked at again.
pub const VERSION: u32 = 2;

/// What of a proxy's settings changes what the file is: the width and the
/// quality, the latter as the bits of a 64-bit floating-point number.
pub open spec fn made_by(width: u32, quality: u64) -> Seq<u8> {
    le_bytes(width as nat, 4) + le_bytes(quality as nat, 8)
}

/// The name of the file a proxy is kept in, given the recording's path, the
/// last part of it with no ending, its size and when it was last changed.
///
/// Keyed by those, so a re-recorded file under the same name gets a new proxy
/// rather than the old one. The width and the quality are in the key too:
/// changing either changes what the file is, and the old one must not be
/// picked up in its place.
pub fn cache_name(
    path: &str,
    stem: &str,
    size: u64,
    mtime: u64,
    width: u32,
    quality: u64,
) -> (r: String)
    ensures
        r@ == name_of(
            stem@,
            eaten(SUM_START, key_bytes(path@, size, mtime, made_by(width, quality), VERSION)),
            "mp4"@,
        ),
{
    let mut more: Vec<u8> = Vec::new();
    put_u32(&mut more, width);
    put_u64(&mut more, quality);
    assert(more@ =~= made_by(width, quality));
    file_name(stem, key(path, size, mtime, more.as_slice(), VERSION), "mp4")
}

/// Where the picture-kind table for a proxy belongs.
pub fn marks_path(proxy: &str) -> (r: String)
    ensures
        r@ == with_extension(proxy@, "marks"@),
{
    retitled(proxy, "marks")
}

/// Whether a proxy is complete: both files or neither. The marks are written
/// first and the video is only renamed into place once it is whole, so a
/// half-built proxy never looks like a finished one.
pub fn ready(video_is_there: bool, marks_are_there: bool) -> (r: bool)
    ensures
        r == (video_is_there && marks_are_there),
{
    video_is_there && marks_are_there
}

/// By how much a proxy's timeline is moved to put its first picture back where
/// it belongs. Without the marks, the container's own start time is the best
/// guess left -- which is right for a muxer that stored the timestamps as
/// given.
pub open spec fn offset_of(src: Source, first_picture: Option<i64>) -> int {
    match first_picture {
        Some(want) => want - (if src.points@.len() > 0 {
            src.points@[0].time as int
        } else {
            0
        }),
        None => src.start_time as int,
    }
}

/// An entry point, moved.
pub open spec fn moved(p: AccessPoint, by: int) -> AccessPoint {
    AccessPoint {
        time: (p.time + by) as i64,
        lead_start: (p.lead_start + by) as i64,
        ..p
    }
}

/// Put a proxy's clock back on the recording's.
///
/// The pictures were written carrying the recording's own timestamps, but a
/// container has opinions about where a timeline starts: MP4 states a start
/// time of its own, may write an edit list, and may quietly shift everything
/// so that the first sample lands on zero. So the offset is not deduced from
/// the container at all. The recording's time for the proxy's first picture is
/// written down when the proxy is built, and the whole timeline is shifted to
/// put that picture back where it belongs.
pub fn rebased(src: Source, first_picture: Option<i64>) -> (r: Source)
    requires
        in_reach(src.start_time as int),
        in_reach(src.duration as int),
        first_picture is Some ==> in_reach(first_picture->0 as int),
        forall|i: int|
            0 <= i < src.points@.len() ==> in_reach((#[trigger] src.points@[i]).time as int)
                && in_reach(src.points@[i].lead_start as int),
    ensures
        ({
            let by = offset_of(src, first_picture);
            &&& r == (Source {
                points: r.points,
                start_time: (src.start_time - by) as i64,
                duration: (src.duration + by) as i64,
                ..src
            })
            &&& r.points@ =~= src.points@.map_values(|p: AccessPoint| moved(p, by))
        }),
{
    let have: i64 = if src.points.len() > 0 {
        assert(in_reach(src.points@[0].time as int));
        src.points[0].time
    } else {
        0
    };
    let by: i64 = match first_picture {
        Some(want) => want - have,
        None => src.start_time,
    };
    let ghost was = src.points@;
    let ghost given = src;
    let mut out: Source = src;
    let len: usize = out.points.len();
    let mut i: usize = 0;
    while i < len
        invariant
            i <= len,
            len == out.points@.len(),
            was.len() == len,
            -0x800_0000_0000_0000 <= by <= 0x800_0000_0000_0000,
            out == (Source { points: out.points, ..given }),
            forall|k: int|
                0 <= k < was.len() ==> in_reach((#[trigger] was[k]).time as int) && in_reach(
                    was[k].lead_start as int,
                ),
            forall|k: int| 0 <= k < i ==> #[trigger] out.points@[k] == moved(was[k], by as int),
            forall|k: int| i <= k < len ==> #[trigger] out.points@[k] == was[k],
        decreases len - i,
    {
        assert(out.points@[i as int] == was[i as int]);
        let (t, l): (i64, i64) = (out.points[i].time + by, out.points[i].lead_start + by);
        let p: &mut AccessPoint = &mut out.points[i];
        p.time = t;
        p.lead_start = l;
        i += 1;
    }
    // Decoding rebases by the start time, so moving the timeline forward means
    // moving that back by the same amount.
    out.start_time = out.start_time - by;
    // The duration is read as "where the timeline ends", and the timeline no
    // longer starts at zero.
    out.duration = out.duration + by;
    out
}

/// The pictures of a recording on their way to its proxy.
pub struct Pacing {
    pub marks: Marks,
    pub next_point: usize,
}

/// How far past the entry points before a picture a pass is.
pub open spec fn passed(points: Seq<AccessPoint>, twice: int, i: int) -> int
    decreases points.len() - i,
{
    if i < 0 || i >= points.len() {
        i
    } else if 2 * points[i].time < twice {
        passed(points, twice, i + 1)
    } else {
        i
    }
}

/// Whether an entry point is within half a picture of this moment.
pub open spec fn is_entry(points: Seq<AccessPoint>, i: int, t: int, fd: int) -> bool {
    0 <= i < points.len() && 2 * crate::thumbs::apart(points[i].time as int, t) <= fd
}

impl Pacing {
    pub fn new() -> (r: Pacing)
        ensures
            r.marks.times@.len() == 0,
            r.marks.kinds@.len() == 0,
            r.next_point == 0,
    {
        Pacing { marks: Marks { times: Vec::new(), kinds: Vec::new() }, next_point: 0 }
    }

    /// One decoded picture, by when it is and what kind it is: whether the
    /// recording has an access point there. The proxy is given a keyframe
    /// exactly there, and the thumbnail track is built from exactly those
    /// pictures. `None` where the picture is before the container's own start:
    /// it belongs to no moment the rest of the app can name.
    pub fn take(&mut self, t: i64, kind: &str, points: &[AccessPoint], fd: i64) -> (r: Option<bool>)
        requires
            old(self).next_point <= points@.len(),
            in_reach(t as int),
            in_reach(fd as int),
            forall|i: int| 0 <= i < points@.len() ==> in_reach((#[trigger] points@[i]).time as int),
        ensures
            final(self).next_point <= points@.len(),
            t < 0 ==> r is None && *final(self) == *old(self),
            t >= 0 ==> {
                let at = passed(points@, 2 * t - fd, old(self).next_point as int);
                &&& final(self).next_point == at
                &&& r == Some(is_entry(points@, at, t as int, fd as int))
                &&& final(self).marks.times@ == old(self).marks.times@.push(t)
                &&& final(self).marks.kinds@ == old(self).marks.kinds@.push(
                    marks::letter(kind@),
                )
            },
    {
        if t < 0 {
            return None;
        }
        self.marks.push(t, kind);
        let ghost times = self.marks.times@;
        let ghost kinds = self.marks.kinds@;
        let mut i: usize = self.next_point;
        while i < points.len() && 2 * points[i].time < 2 * t - fd
            invariant
                i <= points@.len(),
                in_reach(t as int),
                in_reach(fd as int),
                forall|k: int|
                    0 <= k < points@.len() ==> in_reach((#[trigger] points@[k]).time as int),
                passed(points@, 2 * t - fd, old(self).next_point as int) == passed(
                    points@,
                    2 * t - fd,
                    i as int,
                ),
            decreases points@.len() - i,
        {
            i += 1;
        }
        self.next_point = i;
        let entry: bool = if i < points.len() {
            let p: i64 = points[i].time;
            let away: i64 = if p < t {
                t - p
            } else {
                p - t
            };
            2 * away <= fd
        } else {
            false
        };
        Some(entry)
    }
}

} // verus!
