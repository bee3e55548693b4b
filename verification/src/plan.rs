//! Turn a keep-range into a list of copy and re-encode segments.
//!
//! ```text
//! ... I ....... I=========================I ....... I ...
//!       ^t_in   ^k_first                  ^k_term   ^t_out
//!     |<-head->|<--------- body --------->|<-tail->|
//!      re-encode      stream copy          re-encode
//! ```
//!
//! Open GOPs make both ends narrower than they look. A picture that follows
//! an I picture in decode order but presents before it references the GOP
//! before. So the copy may start at `k_first`, but that entry point's own
//! leading pictures cannot come with it; and the copy must stop before
//! `k_term`, so its display coverage ends at `k_term.lead_start`, not at
//! `k_term.time`.
pub mod covering;

use crate::recording::index::Source;
use crate::recording::{counted_rate, picture_time, AccessPoint, Ratio, VideoInfo};
use crate::time::{
    in_reach, later, lemma_rounded_keeps_order, max_time, round_div, rounded, FURTHEST, HAIR,
    SECOND,
};
use vstd::prelude::*;

verus! {

#[derive(Debug, Clone, Copy, PartialEq, Eq, Structural)]
pub enum SegmentKind {
    Copy,
    Reencode,
}

/// The name a kind of segment goes by.
pub open spec fn kind_name(k: SegmentKind) -> Seq<char> {
    match k {
        SegmentKind::Copy => "copy"@,
        SegmentKind::Reencode => "reencode"@,
    }
}

impl SegmentKind {
    pub fn as_str(self) -> (r: &'static str)
        ensures
            r@ == kind_name(self),
    {
        match self {
            SegmentKind::Copy => "copy",
            SegmentKind::Reencode => "reencode",
        }
    }
}

#[derive(Debug, Clone, Copy, PartialEq, Eq, Structural)]
pub struct Segment {
    pub kind: SegmentKind,
    /// Display coverage, inclusive.
    pub start: i64,
    /// Display coverage, exclusive.
    pub end: i64,
    /// Pictures this segment contributes to the output.
    pub frames: u64,
    /// Copy only: presentation time of the access point that ends the copy.
    /// `None` means to the end of the file.
    pub copy_until: Option<i64>,
    /// Re-encode only: start decoding here, then discard forward. Seeking
    /// straight to the first wanted frame can land in a GOP that cannot be
    /// decoded on its own.
    pub seek_from: i64,
}

impl Segment {
    /// How long a segment is shown.
    pub open spec fn length(&self) -> int {
        self.end - self.start
    }

    pub fn duration(&self) -> (r: i64)
        requires
            i64::MIN <= self.length() <= i64::MAX,
        ensures
            r == self.length(),
    {
        self.end - self.start
    }
}

/// What one kept range becomes.
#[derive(Debug, Clone)]
pub struct RangePlan {
    pub t_in: i64,
    pub t_out: i64,
    pub segments: Vec<Segment>,
}

/// What a [`RangePlan`] holds.
pub struct PlanModel {
    pub t_in: int,
    pub t_out: int,
    pub segments: Seq<Segment>,
}

impl View for RangePlan {
    type V = PlanModel;

    open spec fn view(&self) -> PlanModel {
        PlanModel {
            t_in: self.t_in as int,
            t_out: self.t_out as int,
            segments: self.segments@,
        }
    }
}

/// How long the segments of one kind are shown together.
pub open spec fn length_of(segments: Seq<Segment>, kind: SegmentKind) -> int
    decreases segments.len(),
{
    if segments.len() == 0 {
        0
    } else {
        length_of(segments.drop_last(), kind) + if segments.last().kind == kind {
            segments.last().length()
        } else {
            0
        }
    }
}

/// Adding segments never makes the time shorter.
proof fn lemma_length_grows(segments: Seq<Segment>, kind: SegmentKind, k: int)
    requires
        0 <= k <= segments.len(),
        forall|i: int| 0 <= i < segments.len() ==> (#[trigger] segments[i]).length() >= 0,
    ensures
        0 <= length_of(segments.take(k), kind) <= length_of(segments, kind),
    decreases segments.len(),
{
    if k == segments.len() {
        assert(segments.take(k) =~= segments);
        if k > 0 {
            let short = segments.drop_last();
            assert forall|i: int| 0 <= i < short.len() implies (#[trigger] short[i]).length()
                >= 0 by {
                assert(short[i] == segments[i]);
            }
            assert(segments[k - 1].length() >= 0);
            lemma_length_grows(short, kind, k - 1);
            assert(short.take(k - 1) =~= short);
        }
    } else {
        let short = segments.drop_last();
        assert forall|i: int| 0 <= i < short.len() implies (#[trigger] short[i]).length() >= 0 by {
            assert(short[i] == segments[i]);
        }
        assert(segments[segments.len() - 1].length() >= 0);
        lemma_length_grows(short, kind, k);
        assert(short.take(k) =~= segments.take(k));
    }
}

impl RangePlan {
    /// Every segment ends no earlier than it starts, and all of them together
    /// are no longer than a time can say.
    pub open spec fn adds_up(&self, kind: SegmentKind) -> bool {
        &&& forall|i: int|
            0 <= i < self.segments@.len() ==> (#[trigger] self.segments@[i]).length() >= 0
        &&& length_of(self.segments@, kind) <= i64::MAX
    }

    /// How much of the range is copied.
    pub fn copied(&self) -> (r: i64)
        requires
            self.adds_up(SegmentKind::Copy),
        ensures
            r == length_of(self.segments@, SegmentKind::Copy),
    {
        self.sum(SegmentKind::Copy)
    }

    /// How much of the range is made again.
    pub fn reencoded(&self) -> (r: i64)
        requires
            self.adds_up(SegmentKind::Reencode),
        ensures
            r == length_of(self.segments@, SegmentKind::Reencode),
    {
        self.sum(SegmentKind::Reencode)
    }

    fn sum(&self, kind: SegmentKind) -> (r: i64)
        requires
            self.adds_up(kind),
        ensures
            r == length_of(self.segments@, kind),
    {
        let mut total: i64 = 0;
        let mut i: usize = 0;
        while i < self.segments.len()
            invariant
                self.adds_up(kind),
                i <= self.segments@.len(),
                total == length_of(self.segments@.take(i as int), kind),
                0 <= total,
            decreases self.segments@.len() - i,
        {
            let s: Segment = self.segments[i];
            assert(self.segments@.take(i + 1).drop_last() =~= self.segments@.take(i as int));
            proof {
                lemma_length_grows(self.segments@, kind, i + 1);
            }
            if s.kind == kind {
                assert(self.segments@[i as int].length() >= 0);
                assert(total + s.length() <= i64::MAX);
                total = total + s.duration();
            }
            i += 1;
        }
        assert(self.segments@.take(i as int) =~= self.segments@);
        total
    }
}

/// The times of the access points that present no later than `target`, in
/// order, from `i` on.
pub open spec fn entries_before(points: Seq<AccessPoint>, target: int, i: int) -> Seq<i64>
    decreases points.len() - i,
{
    if i < 0 || i >= points.len() {
        Seq::empty()
    } else {
        (if points[i].time <= target + HAIR {
            seq![points[i].time]
        } else {
            Seq::empty()
        }) + entries_before(points, target, i + 1)
    }
}

/// An access point far enough before `target` to decode into it cleanly:
/// `back` before the last one, or the first where there are not so many, or
/// the start of the file where there is none.
pub open spec fn seek_for(points: Seq<AccessPoint>, target: int, back: int) -> int {
    let before = entries_before(points, target, 0);
    if before.len() == 0 {
        0
    } else if before.len() <= back {
        before[0] as int
    } else {
        before[before.len() - 1 - back] as int
    }
}

/// An access point far enough before `target` to decode into it cleanly.
pub fn safe_seek(points: &[AccessPoint], target: i64, back: usize) -> (r: i64)
    requires
        target <= i64::MAX - HAIR,
    ensures
        r == seek_for(points@, target as int, back as int),
{
    let mut before: Vec<i64> = Vec::new();
    let mut i: usize = 0;
    while i < points.len()
        invariant
            i <= points@.len(),
            target <= i64::MAX - HAIR,
            entries_before(points@, target as int, 0) =~= before@ + entries_before(
                points@,
                target as int,
                i as int,
            ),
        decreases points@.len() - i,
    {
        if points[i].time <= target + HAIR {
            before.push(points[i].time);
        }
        i += 1;
    }
    let n: usize = before.len();
    if n == 0 {
        0
    } else if n <= back {
        before[0]
    } else {
        before[n - 1 - back]
    }
}

/// How a range is planned.
#[derive(Debug, Clone, Copy, PartialEq, Eq, Structural)]
pub struct PlanOptions {
    /// Allow open-GOP access points to start a copy when their leading
    /// pictures are droppable.
    pub allow_open_gop: bool,
    /// Shorter copies buy nothing but a seam; re-encode instead.
    pub min_copy: Option<i64>,
    /// How much more of a range to re-encode to reach an entry point a copy
    /// can be joined onto cleanly. Off unless asked for: what it buys is
    /// smaller than what it costs.
    pub clean_join: Option<i64>,
}

impl Default for PlanOptions {
    fn default() -> (o: PlanOptions)
        ensures
            o == (PlanOptions { allow_open_gop: true, min_copy: None, clean_join: None }),
    {
        PlanOptions { allow_open_gop: true, min_copy: None, clean_join: None }
    }
}

/// The shortest copy worth making: two pictures, and half a second at least,
/// unless another length was asked for.
pub open spec fn shortest_copy(asked: Option<i64>, picture: int) -> int {
    match asked {
        Some(t) => t as int,
        None => later(2 * picture, SECOND as int / 2),
    }
}

/// Which picture a time falls on, counted at a rate.
pub open spec fn picture_at(t: int, rate: Ratio) -> int {
    let r = counted_rate(rate);
    rounded(t * r.num, r.den * SECOND)
}

/// How many pictures stand between two times.
pub open spec fn pictures_between(start: int, end: int, rate: Ratio) -> int {
    later(picture_at(end, rate) - picture_at(start, rate), 0)
}

/// Which picture a time falls on.
fn picture_index(t: i64, rate: Ratio) -> (r: i128)
    requires
        in_reach(t as int),
    ensures
        r == picture_at(t as int, rate),
        -0x2000_0000_0000_0000 <= r <= 0x2000_0000_0000_0000,
{
    let (num, den): (u32, u32) = if rate.num > 0 && rate.den > 0 {
        (rate.num, rate.den)
    } else {
        (30, 1)
    };
    assert(-0x400_0000_0000_0000_0000_0000int <= t * num <= 0x400_0000_0000_0000_0000_0000int)
        by (nonlinear_arith)
        requires
            -0x400_0000_0000_0000 <= t <= 0x400_0000_0000_0000,
            0 < num < 0x1_0000_0000,
    ;
    let a: i128 = (t as i128) * (num as i128);
    let b: i128 = (den as i128) * 705_600_000;
    let r: i128 = round_div(a, b);
    proof {
        // No picture is counted that a tick of the clock could not hold.
        lemma_rounded_keeps_order(-0x400_0000_0000_0000_0000_0000int, a as int, b as int);
        lemma_rounded_keeps_order(a as int, 0x400_0000_0000_0000_0000_0000int, b as int);
        lemma_rounded_shrinks(0x400_0000_0000_0000_0000_0000int, b as int);
    }
    r
}

/// The most pictures a time in reach can be counted as.
proof fn lemma_rounded_shrinks(a: int, b: int)
    requires
        a == 0x400_0000_0000_0000_0000_0000int,
        b >= 705_600_000,
    ensures
        rounded(a, b) <= 0x2000_0000_0000_0000,
        rounded(-a, b) >= -0x2000_0000_0000_0000,
{
    let most: int = 0x2000_0000_0000_0000;
    vstd::arithmetic::div_mod::lemma_div_is_ordered(2 * a + b, most * (2 * b), 2 * b);
    vstd::arithmetic::div_mod::lemma_div_by_multiple(most, 2 * b);
}

/// How many pictures stand between two times.
fn pictures(start: i64, end: i64, rate: Ratio) -> (r: u64)
    requires
        in_reach(start as int),
        in_reach(end as int),
    ensures
        r == pictures_between(start as int, end as int, rate),
{
    let n: i128 = picture_index(end, rate) - picture_index(start, rate);
    if n > 0 {
        n as u64
    } else {
        0
    }
}

/// Whether a copy may start at an access point: one with leading pictures
/// only where those can be cut away and such starts are allowed.
pub open spec fn can_start(p: AccessPoint, allow_open: bool) -> bool {
    !p.is_open() || (allow_open && p.droppable)
}

/// The first access point from `i` on that a copy of the range can start at.
pub open spec fn first_entry(
    points: Seq<AccessPoint>,
    from: int,
    to: int,
    allow_open: bool,
    i: int,
) -> Option<int>
    decreases points.len() - i,
{
    if i < 0 || i >= points.len() {
        None
    } else if from <= points[i].time <= to && can_start(points[i], allow_open) {
        Some(i)
    } else {
        first_entry(points, from, to, allow_open, i + 1)
    }
}

/// Where a copy's display coverage ends, and the access point that ends it.
pub struct Stop {
    pub end: int,
    pub until: Option<i64>,
}

/// Whether an access point can end a copy that starts at `start`.
pub open spec fn can_stop(p: AccessPoint, start: int, to: int, allow_open: bool) -> bool {
    (allow_open || !p.is_open()) && p.time > start && p.lead_start <= to
}

/// The furthest a copy can be carried by the first `n` access points, the
/// later one where two reach equally far.
pub open spec fn furthest_stop(
    points: Seq<AccessPoint>,
    start: int,
    to: int,
    allow_open: bool,
    n: int,
) -> Option<Stop>
    decreases n,
{
    if n <= 0 || n > points.len() {
        None
    } else {
        let before = furthest_stop(points, start, to, allow_open, n - 1);
        let p = points[n - 1];
        if can_stop(p, start, to, allow_open) && (before matches Some(b) ==> p.lead_start
            >= b.end) {
            Some(Stop { end: p.lead_start as int, until: Some(p.time) })
        } else {
            before
        }
    }
}

/// The furthest a copy can be carried, with the end of the file to stop at
/// where the range reaches it.
pub open spec fn stop_for(
    points: Seq<AccessPoint>,
    start: int,
    t_out: int,
    duration: int,
    half: int,
    allow_open: bool,
) -> Option<Stop> {
    let inside = furthest_stop(
        points,
        start + half,
        t_out + half,
        allow_open,
        points.len() as int,
    );
    if duration > 0 && t_out >= duration - half && (inside matches Some(s) ==> t_out >= s.end) {
        Some(Stop { end: t_out, until: None })
    } else {
        inside
    }
}

/// A stretch that is made again.
pub open spec fn reencode(start: int, end: int, seek_from: int, rate: Ratio) -> Segment {
    Segment {
        kind: SegmentKind::Reencode,
        start: start as i64,
        end: end as i64,
        frames: pictures_between(start, end, rate) as u64,
        copy_until: None,
        seek_from: seek_from as i64,
    }
}

/// A stretch that is copied.
pub open spec fn copy(start: int, stop: Stop, rate: Ratio) -> Segment {
    Segment {
        kind: SegmentKind::Copy,
        start: start as i64,
        end: stop.end as i64,
        frames: pictures_between(start, stop.end, rate) as u64,
        copy_until: stop.until,
        seek_from: start as i64,
    }
}

/// A stretch that is made again, where there is a picture in it. One with
/// none is not a small piece of work, it is an error further on.
pub open spec fn with_pictures(s: Segment) -> Seq<Segment> {
    if s.frames > 0 {
        seq![s]
    } else {
        Seq::empty()
    }
}

/// A range made again from end to end.
pub open spec fn all_reencoded(
    points: Seq<AccessPoint>,
    t_in: int,
    t_out: int,
    rate: Ratio,
) -> PlanModel {
    PlanModel {
        t_in,
        t_out,
        segments: with_pictures(reencode(t_in, t_out, seek_for(points, t_in, 2), rate)),
    }
}

/// Where a range really starts: not before the first picture that can be
/// decoded.
pub open spec fn start_of(points: Seq<AccessPoint>, t_in: int) -> int {
    later(
        t_in,
        if points.len() > 0 {
            points[0].time as int
        } else {
            0
        },
    )
}

/// A range copied from an entry point to a stop, with what is left at either
/// end made again. A head exists only where a whole picture fits before the
/// entry point, and a tail only where more than half of one is left.
pub open spec fn copied_between(
    points: Seq<AccessPoint>,
    t_in: int,
    t_out: int,
    start: int,
    stop: Stop,
    rate: Ratio,
) -> PlanModel {
    let picture = picture_time(rate);
    let head = start - t_in >= picture;
    let tail = t_out - stop.end > picture / 2;
    PlanModel {
        t_in: if head {
            t_in
        } else {
            start
        },
        t_out: if tail {
            t_out
        } else {
            stop.end
        },
        segments: (if head {
            with_pictures(reencode(t_in, start, seek_for(points, t_in, 2), rate))
        } else {
            Seq::empty()
        }) + seq![copy(start, stop, rate)] + (if tail {
            with_pictures(reencode(stop.end, t_out, seek_for(points, stop.end, 2), rate))
        } else {
            Seq::empty()
        }),
    }
}

/// What one kept range becomes.
pub open spec fn planned(
    rate: Ratio,
    duration: int,
    points: Seq<AccessPoint>,
    asked_in: int,
    t_out: int,
    opts: PlanOptions,
) -> PlanModel {
    let t_in = start_of(points, asked_in);
    let picture = picture_time(rate);
    let half = picture / 2;
    if t_out <= t_in {
        PlanModel { t_in, t_out, segments: Seq::empty() }
    } else {
        match first_entry(points, t_in - half, t_out + half, opts.allow_open_gop, 0) {
            None => all_reencoded(points, t_in, t_out, rate),
            Some(k) => {
                let start = points[k].time as int;
                match stop_for(points, start, t_out, duration, half, opts.allow_open_gop) {
                    None => all_reencoded(points, t_in, t_out, rate),
                    Some(stop) => if stop.end - start < shortest_copy(opts.min_copy, picture) {
                        all_reencoded(points, t_in, t_out, rate)
                    } else {
                        copied_between(points, t_in, t_out, start, stop, rate)
                    },
                }
            },
        }
    }
}

/// Every time of an index is one a recording can have.
pub open spec fn points_in_reach(points: Seq<AccessPoint>) -> bool {
    forall|i: int|
        0 <= i < points.len() ==> in_reach((#[trigger] points[i]).time as int) && in_reach(
            points[i].lead_start as int,
        )
}

/// A picture that is not longer than a recording can be.
pub open spec fn picture_in_reach(rate: Ratio) -> bool {
    picture_time(rate) <= FURTHEST
}

/// The first access point a copy of the range can start at.
fn find_entry(points: &[AccessPoint], from: i64, to: i64, allow_open: bool) -> (r: Option<usize>)
    ensures
        match r {
            Some(k) => first_entry(points@, from as int, to as int, allow_open, 0) == Some(
                k as int,
            ) && k < points@.len(),
            None => first_entry(points@, from as int, to as int, allow_open, 0) is None,
        },
{
    let mut i: usize = 0;
    while i < points.len()
        invariant
            i <= points@.len(),
            first_entry(points@, from as int, to as int, allow_open, 0) == first_entry(
                points@,
                from as int,
                to as int,
                allow_open,
                i as int,
            ),
        decreases points@.len() - i,
    {
        let p: &AccessPoint = &points[i];
        let open: bool = p.open_gop();
        if from <= p.time && p.time <= to && (!open || (allow_open && p.droppable)) {
            return Some(i);
        }
        i += 1;
    }
    None
}

/// The furthest a copy can be carried by the access points.
fn find_stop(points: &[AccessPoint], start: i64, to: i64, allow_open: bool) -> (r: Option<
    (i64, Option<i64>),
>)
    ensures
        match r {
            Some((end, until)) => furthest_stop(
                points@,
                start as int,
                to as int,
                allow_open,
                points@.len() as int,
            ) == Some(Stop { end: end as int, until }) && until is Some,
            None => furthest_stop(
                points@,
                start as int,
                to as int,
                allow_open,
                points@.len() as int,
            ) is None,
        },
        points_in_reach(points@) ==> (r matches Some((end, _)) ==> in_reach(end as int)),
{
    let mut best: Option<(i64, Option<i64>)> = None;
    let mut i: usize = 0;
    while i < points.len()
        invariant
            i <= points@.len(),
            match best {
                Some((end, until)) => furthest_stop(
                    points@,
                    start as int,
                    to as int,
                    allow_open,
                    i as int,
                ) == Some(Stop { end: end as int, until }) && until is Some && (points_in_reach(
                    points@,
                ) ==> in_reach(end as int)),
                None => furthest_stop(points@, start as int, to as int, allow_open, i as int)
                    is None,
            },
        decreases points@.len() - i,
    {
        let p: &AccessPoint = &points[i];
        let open: bool = p.open_gop();
        if (allow_open || !open) && p.time > start && p.lead_start <= to {
            let better: bool = match best {
                Some((end, _)) => p.lead_start >= end,
                None => true,
            };
            if better {
                best = Some((p.lead_start, Some(p.time)));
            }
        }
        i += 1;
    }
    best
}

/// Keep a stretch that is made again where there is a picture in it.
fn push_pictures(segments: &mut Vec<Segment>, s: Segment)
    ensures
        final(segments)@ == old(segments)@ + with_pictures(s),
{
    if s.frames > 0 {
        segments.push(s);
    }
    assert(segments@ =~= old(segments)@ + with_pictures(s));
}

/// Plan one kept range.
///
/// The requested bounds are used as given: a stream's pictures sit at an
/// arbitrary phase, so moving a bound onto a grid can drop the picture that
/// should have ended the range.
pub fn plan_range(
    video: &VideoInfo,
    duration: i64,
    points: &[AccessPoint],
    t_in: i64,
    t_out: i64,
    opts: &PlanOptions,
) -> (plan: RangePlan)
    requires
        in_reach(duration as int),
        in_reach(t_in as int),
        in_reach(t_out as int),
        points_in_reach(points@),
        picture_in_reach(video.frame_rate),
    ensures
        plan@ == planned(
            video.frame_rate,
            duration as int,
            points@,
            t_in as int,
            t_out as int,
            *opts,
        ),
{
    let rate: Ratio = video.frame_rate;
    let mut t_in: i64 = t_in;
    if points.len() > 0 {
        t_in = max_time(t_in, points[0].time);
    } else {
        t_in = max_time(t_in, 0);
    }
    let picture: i64 = video.frame_duration();
    let half: i64 = picture / 2;
    let min_copy: i64 = match opts.min_copy {
        Some(t) => t,
        None => max_time(2 * picture, SECOND / 2),
    };
    let mut segments: Vec<Segment> = Vec::new();
    if t_out <= t_in {
        assert(segments@ =~= Seq::empty());
        return RangePlan { t_in, t_out, segments };
    }
    let entry: Option<usize> = find_entry(
        points,
        t_in - half,
        t_out + half,
        opts.allow_open_gop,
    );
    let mut body: Option<(i64, i64, Option<i64>)> = None;
    if let Some(k) = entry {
        let start: i64 = points[k].time;
        let mut stop: Option<(i64, Option<i64>)> = find_stop(
            points,
            start + half,
            t_out + half,
            opts.allow_open_gop,
        );
        if duration > 0 && t_out >= duration - half {
            let better: bool = match stop {
                Some((end, _)) => t_out >= end,
                None => true,
            };
            if better {
                stop = Some((t_out, None));
            }
        }
        if let Some((end, until)) = stop {
            if end - start >= min_copy {
                body = Some((start, end, until));
            }
        }
    }
    if let Some((start, end, until)) = body {
        let ghost stop = Stop { end: end as int, until };
        let mut effective_in: i64 = start;
        if start - t_in >= picture {
            effective_in = t_in;
            let head: Segment = Segment {
                kind: SegmentKind::Reencode,
                start: t_in,
                end: start,
                frames: pictures(t_in, start, rate),
                copy_until: None,
                seek_from: safe_seek(points, t_in, 2),
            };
            push_pictures(&mut segments, head);
        }
        let ghost after_head = segments@;
        segments.push(
            Segment {
                kind: SegmentKind::Copy,
                start,
                end,
                frames: pictures(start, end, rate),
                copy_until: until,
                seek_from: start,
            },
        );
        let mut effective_out: i64 = end;
        if t_out - end > half {
            effective_out = t_out;
            let tail: Segment = Segment {
                kind: SegmentKind::Reencode,
                start: end,
                end: t_out,
                frames: pictures(end, t_out, rate),
                copy_until: None,
                seek_from: safe_seek(points, end, 2),
            };
            push_pictures(&mut segments, tail);
        }
        assert(segments@ =~= copied_between(
            points@,
            t_in as int,
            t_out as int,
            start as int,
            stop,
            rate,
        ).segments);
        return RangePlan { t_in: effective_in, t_out: effective_out, segments };
    }
    let whole: Segment = Segment {
        kind: SegmentKind::Reencode,
        start: t_in,
        end: t_out,
        frames: pictures(t_in, t_out, rate),
        copy_until: None,
        seek_from: safe_seek(points, t_in, 2),
    };
    push_pictures(&mut segments, whole);
    assert(segments@ =~= with_pictures(whole));
    RangePlan { t_in, t_out, segments }
}

/// Plan every kept range.
pub fn plan(
    video: &VideoInfo,
    duration: i64,
    points: &[AccessPoint],
    ranges: &[(i64, i64)],
    opts: &PlanOptions,
) -> (plans: Vec<RangePlan>)
    requires
        in_reach(duration as int),
        forall|i: int|
            0 <= i < ranges@.len() ==> in_reach((#[trigger] ranges@[i]).0 as int) && in_reach(
                ranges@[i].1 as int,
            ),
        points_in_reach(points@),
        picture_in_reach(video.frame_rate),
    ensures
        plans@.len() == ranges@.len(),
        forall|i: int|
            0 <= i < plans@.len() ==> (#[trigger] plans@[i])@ == planned(
                video.frame_rate,
                duration as int,
                points@,
                ranges@[i].0 as int,
                ranges@[i].1 as int,
                *opts,
            ),
{
    let mut plans: Vec<RangePlan> = Vec::new();
    let mut i: usize = 0;
    while i < ranges.len()
        invariant
            i <= ranges@.len(),
            plans@.len() == i,
            in_reach(duration as int),
            forall|i: int|
                0 <= i < ranges@.len() ==> in_reach((#[trigger] ranges@[i]).0 as int) && in_reach(
                    ranges@[i].1 as int,
                ),
            points_in_reach(points@),
            picture_in_reach(video.frame_rate),
            forall|k: int|
                0 <= k < plans@.len() ==> (#[trigger] plans@[k])@ == planned(
                    video.frame_rate,
                    duration as int,
                    points@,
                    ranges@[k].0 as int,
                    ranges@[k].1 as int,
                    *opts,
                ),
        decreases ranges@.len() - i,
    {
        let (from, to): (i64, i64) = ranges[i];
        plans.push(plan_range(video, duration, points, from, to, opts));
        i += 1;
    }
    plans
}

/// Where a range's copied body could be moved from, where its head is already
/// being made again.
pub open spec fn join_of(plan: PlanModel) -> Option<int> {
    if plan.segments.len() >= 2 && plan.segments[0].kind == SegmentKind::Reencode
        && plan.segments[1].kind == SegmentKind::Copy {
        Some(plan.segments[1].start as int)
    } else {
        None
    }
}

/// How much more of a range may be made again to reach a clean entry point.
pub open spec fn join_budget(opts: PlanOptions) -> Option<int> {
    match opts.clean_join {
        Some(b) => if b > 0 {
            Some(b as int)
        } else {
            None
        },
        None => None,
    }
}

/// The stretch in which a cleaner entry point is to be looked for, where one
/// is wanted at all.
///
/// Only a range whose head is already being re-encoded is moved: a range
/// placed exactly on an entry point is a range that was meant.
pub fn join_wanted(plan: &RangePlan, opts: &PlanOptions) -> (r: Option<(i64, i64)>)
    requires
        join_of(plan@) matches Some(was) ==> (join_budget(*opts) matches Some(b) ==> was + b
            <= i64::MAX),
    ensures
        match r {
            Some((was, until)) => join_of(plan@) == Some(was as int) && join_budget(*opts) == Some(
                until - was,
            ),
            None => join_of(plan@) is None || join_budget(*opts) is None,
        },
{
    match opts.clean_join {
        Some(budget) => {
            if budget > 0 && plan.segments.len() >= 2 && plan.segments[0].kind
                == SegmentKind::Reencode && plan.segments[1].kind == SegmentKind::Copy {
                let was: i64 = plan.segments[1].start;
                Some((was, was + budget))
            } else {
                None
            }
        },
        None => None,
    }
}

/// A plan with the start of its copied body moved onto `clean`, the first
/// entry point within the budget that a copy joins onto cleanly, where that
/// is further on and leaves a copy worth making.
pub open spec fn joined(
    plan: PlanModel,
    clean: Option<i64>,
    rate: Ratio,
    opts: PlanOptions,
) -> PlanModel {
    match (join_of(plan), join_budget(opts), clean) {
        (Some(was), Some(_), Some(clean)) => {
            let head = plan.segments[0];
            let body = plan.segments[1];
            if clean <= was + HAIR || body.end - clean < shortest_copy(
                opts.min_copy,
                picture_time(rate),
            ) {
                plan
            } else {
                PlanModel {
                    segments: plan.segments.update(
                        0,
                        Segment {
                            end: clean,
                            frames: pictures_between(head.start as int, clean as int, rate) as u64,
                            ..head
                        },
                    ).update(
                        1,
                        Segment {
                            start: clean,
                            frames: pictures_between(clean as int, body.end as int, rate) as u64,
                            ..body
                        },
                    ),
                    ..plan
                }
            }
        },
        _ => plan,
    }
}

/// Move the start of a range's copied body onto an entry point that restarts
/// the coded video sequence, re-encoding the little more that takes.
///
/// What this fixes is a picture out of order at the seam, and what it costs
/// is exactness: the stretch between the two entry points stops being copied.
pub fn clean_the_join(
    video: &VideoInfo,
    plan: &mut RangePlan,
    clean: Option<i64>,
    opts: &PlanOptions,
)
    requires
        picture_in_reach(video.frame_rate),
        clean matches Some(t) ==> in_reach(t as int),
        segments_in_reach(old(plan).segments@),
    ensures
        final(plan)@ == joined(old(plan)@, clean, video.frame_rate, *opts),
{
    let rate: Ratio = video.frame_rate;
    let wanted: bool = match opts.clean_join {
        Some(budget) => budget > 0,
        None => false,
    };
    if !wanted || plan.segments.len() < 2 {
        return;
    }
    let head: Segment = plan.segments[0];
    let body: Segment = plan.segments[1];
    if head.kind != SegmentKind::Reencode || body.kind != SegmentKind::Copy {
        return;
    }
    let clean: i64 = match clean {
        Some(t) => t,
        None => return,
    };
    if clean <= body.start + HAIR {
        return;
    }
    let picture: i64 = video.frame_duration();
    let min_copy: i64 = match opts.min_copy {
        Some(t) => t,
        None => max_time(2 * picture, SECOND / 2),
    };
    if body.end - clean < min_copy {
        return;
    }
    plan.segments.set(
        0,
        Segment {
            kind: head.kind,
            start: head.start,
            end: clean,
            frames: pictures(head.start, clean, rate),
            copy_until: head.copy_until,
            seek_from: head.seek_from,
        },
    );
    plan.segments.set(
        1,
        Segment {
            kind: body.kind,
            start: clean,
            end: body.end,
            frames: pictures(clean, body.end, rate),
            copy_until: body.copy_until,
            seek_from: body.seek_from,
        },
    );
    assert(plan.segments@ =~= joined(old(plan)@, Some(clean), rate, *opts).segments);
}

/// Every stretch of a plan starts and ends at a time a recording can have.
pub open spec fn segments_in_reach(segments: Seq<Segment>) -> bool {
    forall|i: int|
        0 <= i < segments.len() ==> in_reach((#[trigger] segments[i]).start as int) && in_reach(
            segments[i].end as int,
        )
}

proof fn lemma_planned_in_reach(
    rate: Ratio,
    duration: int,
    points: Seq<AccessPoint>,
    t_in: int,
    t_out: int,
    opts: PlanOptions,
)
    requires
        points_in_reach(points),
        in_reach(t_in),
        in_reach(t_out),
    ensures
        segments_in_reach(planned(rate, duration, points, t_in, t_out, opts).segments),
{
    let half = picture_time(rate) / 2;
    let from = start_of(points, t_in);
    lemma_entry_can_start(points, from - half, t_out + half, opts.allow_open_gop, 0);
    if let Some(k) = first_entry(points, from - half, t_out + half, opts.allow_open_gop, 0) {
        let start = points[k].time as int;
        lemma_stop_in_reach(
            points,
            start + half,
            t_out + half,
            opts.allow_open_gop,
            points.len() as int,
        );
    }
}

/// As [`plan`], and then moved off the entry points a copy cannot be joined
/// onto cleanly. `clean` says of each range which entry point restarts the
/// coded video sequence, where one within reach does.
///
/// The reading of the recording is what [`plan`] cannot do for itself: which
/// entry points restart the coded video sequence is not in the index, and on
/// a disc the index was never walked at all -- it came off the disc's own
/// table. So this is the entry point for a caller that has read the recording,
/// and [`plan`] stays the arithmetic.
pub fn plan_on(
    src: &Source,
    ranges: &[(i64, i64)],
    clean: &[Option<i64>],
    opts: &PlanOptions,
) -> (plans: Vec<RangePlan>)
    requires
        in_reach(src.duration as int),
        forall|i: int|
            0 <= i < ranges@.len() ==> in_reach((#[trigger] ranges@[i]).0 as int) && in_reach(
                ranges@[i].1 as int,
            ),
        points_in_reach(src.points@),
        picture_in_reach(src.video.frame_rate),
        clean@.len() == ranges@.len(),
        forall|i: int|
            0 <= i < clean@.len() ==> ((#[trigger] clean@[i]) matches Some(t) ==> in_reach(
                t as int,
            )),
    ensures
        plans@.len() == ranges@.len(),
        forall|i: int|
            0 <= i < plans@.len() ==> (#[trigger] plans@[i])@ == joined(
                planned(
                    src.video.frame_rate,
                    src.duration as int,
                    src.points@,
                    ranges@[i].0 as int,
                    ranges@[i].1 as int,
                    *opts,
                ),
                clean@[i],
                src.video.frame_rate,
                *opts,
            ),
{
    let mut plans: Vec<RangePlan> = Vec::new();
    let mut i: usize = 0;
    while i < ranges.len()
        invariant
            i <= ranges@.len(),
            plans@.len() == i,
            in_reach(src.duration as int),
            forall|k: int|
                0 <= k < ranges@.len() ==> in_reach((#[trigger] ranges@[k]).0 as int) && in_reach(
                    ranges@[k].1 as int,
                ),
            points_in_reach(src.points@),
            picture_in_reach(src.video.frame_rate),
            clean@.len() == ranges@.len(),
            forall|k: int|
                0 <= k < clean@.len() ==> ((#[trigger] clean@[k]) matches Some(t) ==> in_reach(
                    t as int,
                )),
            forall|k: int|
                0 <= k < plans@.len() ==> (#[trigger] plans@[k])@ == joined(
                    planned(
                        src.video.frame_rate,
                        src.duration as int,
                        src.points@,
                        ranges@[k].0 as int,
                        ranges@[k].1 as int,
                        *opts,
                    ),
                    clean@[k],
                    src.video.frame_rate,
                    *opts,
                ),
        decreases ranges@.len() - i,
    {
        let (from, to): (i64, i64) = ranges[i];
        let mut one: RangePlan = plan_range(
            &src.video,
            src.duration,
            src.points.as_slice(),
            from,
            to,
            opts,
        );
        proof {
            lemma_planned_in_reach(
                src.video.frame_rate,
                src.duration as int,
                src.points@,
                from as int,
                to as int,
                *opts,
            );
            assert(one@.segments == one.segments@);
        }
        clean_the_join(&src.video, &mut one, clean[i], opts);
        plans.push(one);
        i += 1;
    }
    plans
}

/// Moving a join moves nothing else: the range still opens and closes where it
/// did, it has as many stretches, and what is made again at its head still
/// ends where the copy of it begins.
pub proof fn law_a_moved_join_still_meets(
    plan: PlanModel,
    clean: Option<i64>,
    rate: Ratio,
    opts: PlanOptions,
)
    requires
        plan.segments.len() > 1 ==> plan.segments[0].end == plan.segments[1].start,
    ensures
        ({
            let moved = joined(plan, clean, rate, opts);
            let (was, now) = (plan.segments, moved.segments);
            &&& moved.t_in == plan.t_in && moved.t_out == plan.t_out
            &&& now.len() == was.len()
            &&& now.len() > 1 ==> now[0].end == now[1].start
            &&& now.len() > 0 ==> now[0].start == was[0].start
            &&& now.len() > 1 ==> now[1].end == was[1].end && now[1].start >= was[1].start
            &&& forall|i: int| 2 <= i < now.len() ==> #[trigger] now[i] == was[i]
        }),
{
}

/// The times of the access points between two, from `i` on.
pub open spec fn entries_between(points: Seq<AccessPoint>, from: int, to: int, i: int) -> Seq<i64>
    decreases points.len() - i,
{
    if i < 0 || i >= points.len() {
        Seq::empty()
    } else {
        (if from <= points[i].time <= to {
            seq![points[i].time]
        } else {
            Seq::empty()
        }) + entries_between(points, from, to, i + 1)
    }
}

/// The entry points to be judged, in order, for a copy that may start between
/// `from` and `until`. The first that begins with a picture that restarts the
/// coded sequence is the one; see [`judge`].
pub fn clean_start(
    video: &VideoInfo,
    points: &[AccessPoint],
    from: i64,
    until: i64,
) -> (out: Vec<i64>)
    requires
        in_reach(from as int),
        in_reach(until as int),
        picture_in_reach(video.frame_rate),
    ensures
        out@ == entries_between(
            points@,
            from - picture_time(video.frame_rate) / 2,
            until + picture_time(video.frame_rate) / 2,
            0,
        ),
{
    let half: i64 = video.frame_duration() / 2;
    let low: i64 = from - half;
    let high: i64 = until + half;
    let mut out: Vec<i64> = Vec::new();
    let mut i: usize = 0;
    while i < points.len()
        invariant
            i <= points@.len(),
            entries_between(points@, low as int, high as int, 0) =~= out@ + entries_between(
                points@,
                low as int,
                high as int,
                i as int,
            ),
        decreases points@.len() - i,
    {
        if low <= points[i].time && points[i].time <= high {
            out.push(points[i].time);
        }
        i += 1;
    }
    out
}

/// What a packet read after seeking to an entry point says of it.
#[derive(Debug, Clone, Copy, PartialEq, Eq, Structural)]
pub enum Judged {
    /// The picture asked about: whether it restarts the coded sequence is
    /// what its bytes say.
    Here,
    /// Past the picture asked about: the seek landed late and the point
    /// cannot be judged. Judged as unclean, so that a misread never moves a
    /// boundary.
    Late,
    /// Neither; read on.
    Before,
}

/// Judge one packet of the pictures against the entry point asked about.
pub fn judge(want: i64, t: i64, key: bool, half: i64) -> (r: Judged)
    requires
        in_reach(want as int),
        in_reach(t as int),
        0 <= half <= FURTHEST,
    ensures
        r == (if t > want + half {
            Judged::Late
        } else if key && want - half <= t {
            Judged::Here
        } else {
            Judged::Before
        }),
{
    if t > want + half {
        Judged::Late
    } else if key && want - half <= t {
        Judged::Here
    } else {
        Judged::Before
    }
}

/// No stretch is planned that is made again and has no picture in it.
pub proof fn law_no_empty_stretch_is_planned(
    rate: Ratio,
    duration: int,
    points: Seq<AccessPoint>,
    t_in: int,
    t_out: int,
    opts: PlanOptions,
)
    ensures
        ({
            let segments = planned(rate, duration, points, t_in, t_out, opts).segments;
            forall|i: int|
                0 <= i < segments.len() ==> (#[trigger] segments[i]).kind == SegmentKind::Copy
                    || segments[i].frames > 0
        }),
{
}

/// Where a copy is made it starts on an access point that a copy can start
/// on, and is worth making.
pub proof fn law_a_copy_starts_on_an_entry_point(
    rate: Ratio,
    duration: int,
    points: Seq<AccessPoint>,
    t_in: int,
    t_out: int,
    opts: PlanOptions,
    i: int,
)
    requires
        points_in_reach(points),
        in_reach(t_out),
        0 <= i < planned(rate, duration, points, t_in, t_out, opts).segments.len(),
        planned(rate, duration, points, t_in, t_out, opts).segments[i].kind == SegmentKind::Copy,
    ensures
        ({
            let s = planned(rate, duration, points, t_in, t_out, opts).segments[i];
            &&& exists|k: int|
                0 <= k < points.len() && (#[trigger] points[k]).time == s.start && can_start(
                    points[k],
                    opts.allow_open_gop,
                )
            &&& s.end - s.start >= shortest_copy(opts.min_copy, picture_time(rate))
        }),
{
    let from = start_of(points, t_in) - picture_time(rate) / 2;
    let to = t_out + picture_time(rate) / 2;
    lemma_entry_can_start(points, from, to, opts.allow_open_gop, 0);
    if let Some(k) = first_entry(points, from, to, opts.allow_open_gop, 0) {
        assert(points[k].time == points[k].time);
        let start = points[k].time as int;
        lemma_stop_in_reach(
            points,
            start + picture_time(rate) / 2,
            t_out + picture_time(rate) / 2,
            opts.allow_open_gop,
            points.len() as int,
        );
        assert(start as i64 == start);
        if let Some(stop) = stop_for(
            points,
            start,
            t_out,
            duration,
            picture_time(rate) / 2,
            opts.allow_open_gop,
        ) {
            assert(stop.end as i64 == stop.end);
        }
    }
}

/// An entry point found is one a copy can start on.
pub proof fn lemma_entry_can_start(
    points: Seq<AccessPoint>,
    from: int,
    to: int,
    allow_open: bool,
    i: int,
)
    ensures
        first_entry(points, from, to, allow_open, i) matches Some(k) ==> 0 <= k < points.len()
            && can_start(points[k], allow_open) && from <= points[k].time <= to,
    decreases points.len() - i,
{
    if 0 <= i < points.len() {
        lemma_entry_can_start(points, from, to, allow_open, i + 1);
    }
}

/// A stop found stands where a recording can have a time.
pub proof fn lemma_stop_in_reach(
    points: Seq<AccessPoint>,
    start: int,
    to: int,
    allow_open: bool,
    n: int,
)
    requires
        points_in_reach(points),
    ensures
        furthest_stop(points, start, to, allow_open, n) matches Some(s) ==> in_reach(s.end)
            && s.end <= to,
    decreases n,
{
    if 0 < n <= points.len() {
        lemma_stop_in_reach(points, start, to, allow_open, n - 1);
        assert(in_reach(points[n - 1].lead_start as int));
    }
}

/// The segments of a plan stand in order and meet: each starts where the one
/// before it ends, and all of them are inside the bounds the plan reports.
pub proof fn law_segments_meet(
    rate: Ratio,
    duration: int,
    points: Seq<AccessPoint>,
    t_in: int,
    t_out: int,
    opts: PlanOptions,
)
    requires
        points_in_reach(points),
        in_reach(t_in),
        in_reach(t_out),
        shortest_copy(opts.min_copy, picture_time(rate)) >= 0,
        picture_time(rate) >= 0,
    ensures
        ({
            let plan = planned(rate, duration, points, t_in, t_out, opts);
            let segments = plan.segments;
            &&& forall|i: int|
                0 <= i < segments.len() ==> plan.t_in <= (#[trigger] segments[i]).start
                    <= segments[i].end <= plan.t_out
            &&& segments.len() > 1 ==> segments[0].end == segments[1].start
            &&& segments.len() > 2 ==> segments[1].end == segments[2].start
            &&& segments.len() <= 3
        }),
{
    let half = picture_time(rate) / 2;
    let first = start_of(points, t_in);
    lemma_entry_can_start(points, first - half, t_out + half, opts.allow_open_gop, 0);
    assert(points.len() > 0 ==> in_reach(points[0].time as int));
    if let Some(k) = first_entry(points, first - half, t_out + half, opts.allow_open_gop, 0) {
        let start = points[k].time as int;
        assert(in_reach(start));
        lemma_stop_in_reach(
            points,
            start + half,
            t_out + half,
            opts.allow_open_gop,
            points.len() as int,
        );
        if let Some(stop) = stop_for(points, start, t_out, duration, half, opts.allow_open_gop) {
            assert(in_reach(stop.end));
            assert(stop.end as i64 == stop.end);
        }
        assert(start as i64 == start);
    }
    assert(first as i64 == first);
    assert(t_out as i64 == t_out);
}

/// Whether entry points stand in order, each more than so far behind the one
/// before it, and their leading pictures with them.
pub open spec fn apart(points: Seq<AccessPoint>, gap: int) -> bool {
    forall|a: int, b: int|
        0 <= a < b < points.len() ==> (#[trigger] points[b]).time - (#[trigger] points[a]).time
            > gap && points[b].lead_start - points[a].lead_start > gap
}

/// A range copied from end to end.
pub open spec fn copied_whole(plan: PlanModel, t_in: int, t_out: int) -> bool {
    &&& plan.t_in == t_in
    &&& plan.t_out == t_out
    &&& plan.segments.len() == 1
    &&& plan.segments[0].kind == SegmentKind::Copy
    &&& plan.segments[0].start == t_in
    &&& plan.segments[0].end == t_out
}

/// A range that starts on an entry point a copy can start on and ends where
/// the pictures before another one end has no head and no tail: nothing of it
/// is made again.
pub proof fn law_a_range_between_entry_points_is_copied_whole(
    rate: Ratio,
    duration: int,
    points: Seq<AccessPoint>,
    i: int,
    j: int,
    opts: PlanOptions,
)
    requires
        apart(points, picture_time(rate) / 2),
        0 <= i < j < points.len(),
        can_start(points[i], opts.allow_open_gop),
        opts.allow_open_gop || !points[j].is_open(),
        points[i].time < points[j].lead_start,
        points[j].lead_start - points[i].time >= shortest_copy(opts.min_copy, picture_time(rate)),
    ensures
        copied_whole(
            planned(
                rate,
                duration,
                points,
                points[i].time as int,
                points[j].lead_start as int,
                opts,
            ),
            points[i].time as int,
            points[j].lead_start as int,
        ),
{
    let half = picture_time(rate) / 2;
    let (t_in, t_out) = (points[i].time as int, points[j].lead_start as int);
    assert(start_of(points, t_in) == t_in) by {
        if i > 0 {
            assert(points[i].time - points[0].time > half);
        }
    }
    lemma_entry_is_first(points, half, t_out + half, opts.allow_open_gop, i, 0);
    lemma_stop_is_furthest(points, half, i, j, opts.allow_open_gop, points.len() as int);
}

/// A range that starts on an entry point a copy can start on and runs to the
/// end of the recording is copied from end to end too.
pub proof fn law_a_range_to_the_end_is_copied_whole(
    rate: Ratio,
    duration: int,
    points: Seq<AccessPoint>,
    i: int,
    t_out: int,
    opts: PlanOptions,
)
    requires
        apart(points, picture_time(rate) / 2),
        0 <= i < points.len(),
        can_start(points[i], opts.allow_open_gop),
        in_reach(t_out),
        0 < duration <= t_out,
        points[i].time < t_out,
        forall|k: int| 0 <= k < points.len() ==> (#[trigger] points[k]).lead_start <= t_out,
        t_out - points[i].time >= shortest_copy(opts.min_copy, picture_time(rate)),
    ensures
        copied_whole(
            planned(rate, duration, points, points[i].time as int, t_out, opts),
            points[i].time as int,
            t_out,
        ),
{
    let half = picture_time(rate) / 2;
    let t_in = points[i].time as int;
    assert(start_of(points, t_in) == t_in) by {
        if i > 0 {
            assert(points[i].time - points[0].time > half);
        }
    }
    lemma_entry_is_first(points, half, t_out + half, opts.allow_open_gop, i, 0);
    lemma_stop_is_a_point(
        points,
        t_in + half,
        t_out + half,
        opts.allow_open_gop,
        points.len() as int,
    );
    assert(t_out as i64 == t_out);
}

/// The entry point a range starts on is the first a copy of it can start at.
proof fn lemma_entry_is_first(
    points: Seq<AccessPoint>,
    half: int,
    to: int,
    allow_open: bool,
    i: int,
    k: int,
)
    requires
        apart(points, half),
        0 <= half,
        0 <= k <= i < points.len(),
        can_start(points[i], allow_open),
        points[i].time <= to,
    ensures
        first_entry(points, points[i].time - half, to, allow_open, k) == Some(i),
    decreases i - k,
{
    if k < i {
        assert(points[i].time - points[k].time > half);
        lemma_entry_is_first(points, half, to, allow_open, i, k + 1);
    }
}

/// A stop that is an access point's is where the pictures before it end.
proof fn lemma_stop_is_a_point(
    points: Seq<AccessPoint>,
    start: int,
    to: int,
    allow_open: bool,
    n: int,
)
    ensures
        furthest_stop(points, start, to, allow_open, n) matches Some(s) ==> exists|k: int|
            0 <= k < n && k < points.len() && (#[trigger] points[k]).lead_start == s.end,
    decreases n,
{
    if 0 < n <= points.len() {
        lemma_stop_is_a_point(points, start, to, allow_open, n - 1);
        assert(points[n - 1].lead_start == points[n - 1].lead_start);
    }
}

/// The access point a range ends at is the furthest a copy can be carried to.
proof fn lemma_stop_is_furthest(
    points: Seq<AccessPoint>,
    half: int,
    i: int,
    j: int,
    allow_open: bool,
    n: int,
)
    requires
        apart(points, half),
        0 <= half,
        0 <= i < j < n <= points.len(),
        allow_open || !points[j].is_open(),
    ensures
        furthest_stop(
            points,
            points[i].time + half,
            points[j].lead_start + half,
            allow_open,
            n,
        ) == Some(Stop { end: points[j].lead_start as int, until: Some(points[j].time) }),
    decreases n,
{
    let (start, to) = (points[i].time + half, points[j].lead_start + half);
    if n == j + 1 {
        lemma_stop_is_a_point(points, start, to, allow_open, j);
        assert(points[j].time - points[i].time > half);
        if let Some(s) = furthest_stop(points, start, to, allow_open, j) {
            let k = choose|k: int|
                0 <= k < j && k < points.len() && (#[trigger] points[k]).lead_start == s.end;
            assert(points[j].lead_start - points[k].lead_start > half);
        }
    } else {
        lemma_stop_is_furthest(points, half, i, j, allow_open, n - 1);
        assert(points[n - 1].lead_start - points[j].lead_start > half);
    }
}

} // verus!
