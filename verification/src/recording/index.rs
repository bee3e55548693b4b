//! A recording put together out of the container's answer and an index of the
//! places a cut can start from.
use crate::recording::outline::Outline;
use crate::recording::{
    picture_time, AccessPoint, AudioInfo, CaptionInfo, DroppedStream, GraphicsInfo, Ratio, Seam,
    SubpictureInfo, VideoInfo,
};
use crate::time::{in_reach, later, max_time, SECOND};
use vstd::prelude::*;

verus! {

/// What a walk over a recording, or a map somebody else made of it, found.
pub struct Index {
    pub points: Vec<AccessPoint>,
    /// Where the pictures end, where the index can say.
    pub end: Option<i64>,
    /// Whether pictures are shown for varying numbers of fields, where it can
    /// say.
    pub pulldown: Option<bool>,
    /// Whether the pictures come at no one rate, where it can say.
    pub variable: Option<bool>,
    /// Bits per second the pictures take, where they were read.
    pub bit_rate: Option<u64>,
    /// Whether it can speak for the leading pictures: whether it came from
    /// the stream itself.
    pub leading_known: bool,
}

/// A recording: what is in it, how long it is, and where a cut can start.
pub struct Source {
    /// The name the recording is known by.
    pub path: String,
    pub video: VideoInfo,
    pub audio: Option<AudioInfo>,
    pub audios: Vec<AudioInfo>,
    pub captions: Vec<CaptionInfo>,
    pub graphics: Vec<GraphicsInfo>,
    pub subpictures: Vec<SubpictureInfo>,
    pub dropped: Vec<DroppedStream>,
    pub duration: i64,
    /// Container start time. MPEG-TS does not begin at zero.
    pub start_time: i64,
    pub points: Vec<AccessPoint>,
    /// Whether the index could speak for the leading pictures.
    pub leading_known: bool,
    /// Which strategy produced the index, for reporting.
    pub index_name: &'static str,
    /// How far before a target to seek. MPEG-TS seeking is byte-position
    /// based and only approximately honours timestamps, so it can land past
    /// the picture that was asked for. The fallback: where the index knows
    /// the byte an access point starts at, no margin is spent.
    pub seek_margin: i64,
    /// Whether a track's `pid` is really a PID.
    pub on_a_ts: bool,
    /// The seams: where a recording that is several stretches of one clip
    /// joined together passes from one stretch to the next. A copy cannot be
    /// carried across one.
    pub joins: Vec<Seam>,
    /// Whether a raw byte offset may be seeked to.
    pub byte_seekable: bool,
}

/// That a recording holds no place a cut could start from.
#[derive(Debug, Clone, Copy, PartialEq, Eq, Structural)]
pub struct NoEntryPoints;

/// A point no earlier than the file begins.
pub open spec fn floored(p: AccessPoint) -> AccessPoint {
    AccessPoint {
        time: later(p.time as int, 0) as i64,
        lead_start: later(p.lead_start as int, 0) as i64,
        ..p
    }
}

/// Put every point where the file begins or after it.
///
/// Times are rebased by the container's start time, and the first picture can
/// land a fraction of a microsecond below zero when the two disagree in the
/// last bit. Nothing can be seeked to before the file begins, and a range
/// clamped to a negative entry point simply fails, so the floor goes in here
/// rather than at every call site.
pub fn floor_points(points: Vec<AccessPoint>) -> (out: Vec<AccessPoint>)
    ensures
        out@ == points@.map_values(|p: AccessPoint| floored(p)),
{
    let mut out: Vec<AccessPoint> = points;
    let mut i: usize = 0;
    while i < out.len()
        invariant
            i <= out@.len(),
            out@.len() == points@.len(),
            forall|k: int| 0 <= k < i ==> #[trigger] out@[k] == floored(points@[k]),
            forall|k: int| i <= k < out@.len() ==> #[trigger] out@[k] == points@[k],
        decreases out@.len() - i,
    {
        let (time, lead): (i64, i64) = (out[i].time, out[i].lead_start);
        let p: &mut AccessPoint = &mut out[i];
        p.time = max_time(time, 0);
        p.lead_start = max_time(lead, 0);
        i += 1;
    }
    assert(out@ =~= points@.map_values(|p: AccessPoint| floored(p)));
    out
}

/// Whether a map the recording did not read for itself is to be held against
/// the pictures it names: asked only of a clip that has seams -- which is a
/// clip a recorder wrote -- and only of an index that did not come from the
/// stream, since a walk cannot disagree with what it read.
pub fn asks_for_mending(leading_known: bool, joins: &[Seam]) -> (r: bool)
    ensures
        r == (!leading_known && joins@.len() > 0),
{
    !leading_known && joins.len() > 0
}

/// What holding a map against the pictures it names came to: the seams and the
/// points as they stand afterwards, and whether any stretch was read for its
/// own.
pub struct Mended {
    pub joins: Vec<Seam>,
    pub points: Vec<AccessPoint>,
    pub any: bool,
}

/// How far before a target to seek: three times as far as points are apart,
/// and never under a second or over thirty.
pub open spec fn seek_margin_of(points: Seq<AccessPoint>) -> int {
    let far = if points.len() < 2 {
        3 * SECOND
    } else {
        3 * (points.last().time - points[0].time) / (points.len() - 1)
    };
    if far < SECOND {
        SECOND as int
    } else if far > 30 * SECOND {
        30 * SECOND
    } else {
        far
    }
}

/// How far before a target to seek; see [`seek_margin_of`].
pub fn seek_margin(points: &[AccessPoint]) -> (r: i64)
    ensures
        r == seek_margin_of(points@),
        SECOND <= r <= 30 * SECOND,
{
    let n: usize = points.len();
    if n < 2 {
        return 3 * SECOND;
    }
    let gap: i128 = points[n - 1].time as i128 - points[0].time as i128;
    if gap < 0 {
        assert(3 * (points@.last().time - points@[0].time) / (points@.len() - 1) < SECOND)
            by (nonlinear_arith)
            requires
                points@.last().time - points@[0].time < 0,
                points@.len() - 1 >= 1,
                SECOND > 0,
        ;
        return SECOND;
    }
    let far: i128 = 3 * gap / (n - 1) as i128;
    if far < SECOND as i128 {
        SECOND
    } else if far > 30 * SECOND as i128 {
        30 * SECOND
    } else {
        far as i64
    }
}

/// The latest of some points.
pub open spec fn latest(points: Seq<AccessPoint>) -> int
    recommends
        points.len() > 0,
    decreases points.len(),
{
    if points.len() <= 1 {
        points[0].time as int
    } else {
        later(latest(points.drop_last()), points.last().time as int)
    }
}

fn latest_point(points: &[AccessPoint]) -> (r: i64)
    requires
        points@.len() > 0,
    ensures
        r == latest(points@),
{
    let mut r: i64 = points[0].time;
    let mut i: usize = 1;
    assert(points@.take(1).len() == 1 && points@.take(1)[0] == points@[0]);
    while i < points.len()
        invariant
            1 <= i <= points@.len(),
            r == latest(points@.take(i as int)),
        decreases points@.len() - i,
    {
        assert(points@.take(i + 1).drop_last() =~= points@.take(i as int));
        r = max_time(r, points[i].time);
        i += 1;
    }
    assert(points@.take(i as int) =~= points@);
    r
}

/// Where the pictures end, going by the index. Taken again off the points
/// where a stretch was mended, because that is what it was taken off the first
/// time: a map with no length in it stands the last entry point up as one, and
/// a mended stretch may have moved which entry point that is.
pub open spec fn pictures_end(
    end: Option<i64>,
    mended: bool,
    points: Seq<AccessPoint>,
    rate: Ratio,
) -> Option<int> {
    match end {
        None => None,
        Some(e) => if mended {
            if points.len() == 0 {
                None
            } else {
                Some(latest(points) + picture_time(rate))
            }
        } else {
            Some(e as int)
        },
    }
}

/// How long a recording is. Only ever longer than the container says, so that
/// a container which knows its own length keeps it: trailing sound after the
/// last picture is part of a recording, and the pictures do not bound it.
pub open spec fn length_of(stated: int, end: Option<int>) -> int {
    match end {
        Some(e) => later(e, stated),
        None => stated,
    }
}

/// The points and the seams a recording is put together with.
pub open spec fn settled(outline: Outline, idx: Index, mended: Option<Mended>) -> (
    Seq<AccessPoint>,
    Seq<Seam>,
    bool,
) {
    let plain = idx.points@.map_values(|p: AccessPoint| floored(p));
    match mended {
        Some(m) => if !idx.leading_known && outline.joins@.len() > 0 {
            (m.points@, m.joins@, m.any)
        } else {
            (plain, outline.joins@, false)
        },
        None => (plain, outline.joins@, false),
    }
}

/// Put a [`Source`] together out of the container's answer and an index, and
/// of what holding the index against the pictures came to where it was held.
pub fn assemble(
    outline: Outline,
    idx: Index,
    mended: Option<Mended>,
    index_name: &'static str,
) -> (r: Result<Source, NoEntryPoints>)
    requires
        forall|i: int|
            0 <= i < settled(outline, idx, mended).0.len() ==> in_reach(
                (#[trigger] settled(outline, idx, mended).0[i]).time as int,
            ),
    ensures
        r is Err <==> idx.points@.len() == 0,
        r is Ok ==> {
            let src = r->Ok_0;
            let (points, joins, any) = settled(outline, idx, mended);
            &&& src.path == outline.path
            &&& src.video == (VideoInfo {
                pulldown: idx.pulldown == Some(true),
                variable_rate: outline.video.variable_rate || idx.variable == Some(true),
                bit_rate: idx.bit_rate,
                ..outline.video
            })
            &&& src.audio == outline.audio
            &&& src.audios == outline.audios
            &&& src.captions == outline.captions
            &&& src.graphics == outline.graphics
            &&& src.subpictures == outline.subpictures
            &&& src.dropped == outline.dropped
            &&& src.start_time == outline.start_time
            &&& src.byte_seekable == outline.byte_seekable
            &&& src.on_a_ts == outline.on_a_ts
            &&& src.points@ == points
            &&& src.joins@ == joins
            &&& src.leading_known == idx.leading_known
            &&& src.index_name == index_name
            &&& src.seek_margin == seek_margin_of(points)
            &&& src.duration == length_of(
                outline.duration as int,
                pictures_end(idx.end, any, points, outline.video.frame_rate),
            )
        },
{
    if idx.points.len() == 0 {
        return Err(NoEntryPoints);
    }
    let ghost whole = settled(outline, idx, mended);
    let held: bool = asks_for_mending(idx.leading_known, outline.joins.as_slice());
    let plain: Vec<AccessPoint> = floor_points(idx.points);
    let (points, joins, any): (Vec<AccessPoint>, Vec<Seam>, bool) = match mended {
        Some(m) => if held {
            (m.points, m.joins, m.any)
        } else {
            (plain, outline.joins, false)
        },
        None => (plain, outline.joins, false),
    };
    assert(whole == (points@, joins@, any));
    let margin: i64 = seek_margin(points.as_slice());
    let end: Option<i64> = match idx.end {
        Some(e) => if any {
            if points.len() == 0 {
                None
            } else {
                let last: i64 = latest_point(points.as_slice());
                proof {
                    lemma_latest(points@);
                }
                Some(last + outline.video.frame_duration())
            }
        } else {
            Some(e)
        },
        None => None,
    };
    let duration: i64 = match end {
        Some(e) => max_time(e, outline.duration),
        None => outline.duration,
    };
    let mut video: VideoInfo = outline.video;
    video.pulldown = match idx.pulldown {
        Some(p) => p,
        None => false,
    };
    video.variable_rate = video.variable_rate || match idx.variable {
        Some(v) => v,
        None => false,
    };
    video.bit_rate = idx.bit_rate;
    Ok(
        Source {
            path: outline.path,
            video,
            audio: outline.audio,
            audios: outline.audios,
            captions: outline.captions,
            graphics: outline.graphics,
            subpictures: outline.subpictures,
            dropped: outline.dropped,
            duration,
            start_time: outline.start_time,
            points,
            leading_known: idx.leading_known,
            index_name,
            seek_margin: margin,
            on_a_ts: outline.on_a_ts,
            joins,
            byte_seekable: outline.byte_seekable,
        },
    )
}

/// The latest of some points is one of them.
proof fn lemma_latest(points: Seq<AccessPoint>)
    requires
        points.len() > 0,
    ensures
        exists|i: int| 0 <= i < points.len() && (#[trigger] points[i]).time == latest(points),
        forall|i: int| 0 <= i < points.len() ==> (#[trigger] points[i]).time <= latest(points),
    decreases points.len(),
{
    if points.len() > 1 {
        let before = points.drop_last();
        lemma_latest(before);
        let i = choose|i: int| 0 <= i < before.len() && (#[trigger] before[i]).time == latest(before);
        assert(points[i] == before[i]);
        assert(points[points.len() - 1] == points.last());
        assert forall|k: int| 0 <= k < points.len() implies (#[trigger] points[k]).time <= latest(
            points,
        ) by {
            if k < before.len() {
                assert(before[k] == points[k]);
            }
        }
    } else {
        assert(points[0].time == latest(points));
    }
}

/// Every point of a recording that was put together off a walk is where the
/// file begins or after it, and none was lost.
pub proof fn law_points_start_where_the_file_does(outline: Outline, idx: Index)
    ensures
        ({
            let (points, joins, _) = settled(outline, idx, None);
            &&& points.len() == idx.points@.len()
            &&& joins == outline.joins@
            &&& forall|i: int|
                0 <= i < points.len() ==> (#[trigger] points[i]).time >= 0 && points[i].lead_start
                    >= 0
        }),
{
}

impl Outline {
    /// The container's answer wearing a [`Source`]'s shape, with no index in
    /// it.
    ///
    /// For the passes that *read* a recording rather than seek about in it --
    /// the captions, the audio, the logo. That is what lets a commercial
    /// detection start on a recording the walk has not finished.
    ///
    /// **Not a `Source` to plan, cut or take an exact picture from.** `points`
    /// being empty is the test.
    pub fn into_source(self) -> (src: Source)
        ensures
            src.path == self.path,
            src.video == self.video,
            src.audio == self.audio,
            src.audios == self.audios,
            src.captions == self.captions,
            src.graphics == self.graphics,
            src.subpictures == self.subpictures,
            src.dropped == self.dropped,
            src.duration == self.duration,
            src.start_time == self.start_time,
            src.byte_seekable == self.byte_seekable,
            src.on_a_ts == self.on_a_ts,
            src.joins == self.joins,
            src.points@.len() == 0,
            !src.leading_known,
            src.index_name@ == "no index"@,
            src.seek_margin == SECOND,
    {
        Source {
            path: self.path,
            video: self.video,
            audio: self.audio,
            audios: self.audios,
            captions: self.captions,
            graphics: self.graphics,
            subpictures: self.subpictures,
            dropped: self.dropped,
            duration: self.duration,
            start_time: self.start_time,
            points: Vec::new(),
            leading_known: false,
            index_name: "no index",
            seek_margin: SECOND,
            on_a_ts: self.on_a_ts,
            joins: self.joins,
            byte_seekable: self.byte_seekable,
        }
    }
}

/// How far into a file to look for its first key picture. Room for a
/// Blu-ray's pictures, which are a megabyte apiece.
pub const HEAD_LIMIT: i64 = 33_554_432;

/// And how many packets, where the demuxer will not say which byte one came
/// from.
pub const HEAD_PACKETS: u64 = 200_000;

/// One packet off the front of a file.
#[derive(Debug, Clone, Copy, PartialEq, Eq, Structural)]
pub struct HeadPacket {
    /// The byte it came from; below nought where that is not known.
    pub position: i64,
    /// Whether it is of the video stream, and marked as a key.
    pub key_picture: bool,
    /// When it is shown, in ticks from where the file begins.
    pub pts: Option<i64>,
}

/// Where the search for the first picture has got to.
#[derive(Debug, Clone, Copy, PartialEq, Eq, Structural)]
pub struct HeadSearch {
    /// The earliest key picture so far.
    pub head: Option<i64>,
    /// How many packets have been looked at.
    pub seen: u64,
}

/// What one more packet makes of the search; `None` where it ends it.
pub open spec fn searched(s: HeadSearch, p: HeadPacket) -> Option<HeadSearch> {
    let seen = (s.seen + 1) as u64;
    if p.position > HEAD_LIMIT || s.seen >= HEAD_PACKETS {
        None
    } else if !p.key_picture || p.pts is None {
        Some(HeadSearch { seen, ..s })
    } else {
        match s.head {
            None => Some(HeadSearch { head: p.pts, seen }),
            Some(t) => if p.pts->0 >= t + SECOND {
                // A second past the first of them is further than any reorder
                // goes.
                None
            } else {
                Some(
                    HeadSearch {
                        head: Some(
                            if p.pts->0 < t {
                                p.pts->0
                            } else {
                                t
                            },
                        ),
                        seen,
                    },
                )
            },
        }
    }
}

/// The search over the packets from the `i`th on.
pub open spec fn search_from(s: HeadSearch, packets: Seq<HeadPacket>, i: int) -> HeadSearch
    decreases packets.len() - i,
{
    if i < 0 || i >= packets.len() {
        s
    } else {
        match searched(s, packets[i]) {
            Some(next) => search_from(next, packets, i + 1),
            None => s,
        }
    }
}

impl HeadSearch {
    pub fn new() -> (s: HeadSearch)
        ensures
            s == (HeadSearch { head: None, seen: 0 }),
    {
        HeadSearch { head: None, seen: 0 }
    }

    /// Take one packet off the front of the file; `false` where the search is
    /// over.
    ///
    /// **The smallest presentation time among the key pictures at the front**,
    /// rather than the first key picture to arrive: the list a walk builds is
    /// sorted by presentation time, and on an open GOP the two are not always
    /// the same packet.
    ///
    /// Bounded at both ends, because the point of it is to be cheap: a stream
    /// whose first key picture is further in than the limit says nothing
    /// rather than reading on.
    pub fn take(&mut self, p: HeadPacket) -> (more: bool)
        requires
            p.pts is Some ==> in_reach(p.pts->0 as int),
            old(self).head is Some ==> in_reach(old(self).head->0 as int),
        ensures
            match searched(*old(self), p) {
                Some(next) => more && *final(self) == next,
                None => !more && *final(self) == *old(self),
            },
            final(self).head is Some ==> in_reach(final(self).head->0 as int),
    {
        if p.position > HEAD_LIMIT || self.seen >= HEAD_PACKETS {
            return false;
        }
        if p.key_picture {
            if let Some(pts) = p.pts {
                match self.head {
                    Some(t) => {
                        if pts >= t + SECOND {
                            return false;
                        }
                        if pts < t {
                            self.head = Some(pts);
                        }
                    },
                    None => {
                        self.head = Some(pts);
                    },
                }
            }
        }
        self.seen = self.seen + 1;
        true
    }

    /// Where the material begins: what the search found, no earlier than the
    /// file begins. Left below it, a mark put down on the head is a mark the
    /// timeline has already closed over.
    pub fn head(&self) -> (r: Option<i64>)
        ensures
            r == (match self.head {
                Some(t) => Some(later(t as int, 0) as i64),
                None => None,
            }),
    {
        match self.head {
            Some(t) => Some(max_time(t, 0)),
            None => None,
        }
    }
}

/// Where the material begins, read off the packets at the front of a file.
pub fn first_picture(packets: &[HeadPacket]) -> (r: Option<i64>)
    requires
        forall|i: int|
            0 <= i < packets@.len() ==> ((#[trigger] packets@[i]).pts is Some ==> in_reach(
                packets@[i].pts->0 as int,
            )),
    ensures
        r == (match search_from(HeadSearch { head: None, seen: 0 }, packets@, 0).head {
            Some(t) => Some(later(t as int, 0) as i64),
            None => None,
        }),
{
    let mut s: HeadSearch = HeadSearch::new();
    let ghost found = search_from(HeadSearch { head: None, seen: 0 }, packets@, 0);
    let mut i: usize = 0;
    while i < packets.len()
        invariant_except_break
            i <= packets@.len(),
            forall|k: int|
                0 <= k < packets@.len() ==> ((#[trigger] packets@[k]).pts is Some ==> in_reach(
                    packets@[k].pts->0 as int,
                )),
            s.head is Some ==> in_reach(s.head->0 as int),
            found == search_from(s, packets@, i as int),
        ensures
            found == s,
        decreases packets@.len() - i,
    {
        if !s.take(packets[i]) {
            break;
        }
        i += 1;
    }
    s.head()
}

} // verus!
