//! What a plan is for: the range that was asked for, all of it, as much of it
//! copied as can be.
use crate::plan::{
    copied_between, entries_before, first_entry, furthest_stop, joined, lemma_entry_can_start,
    lemma_stop_in_reach, length_of, pictures_between, planned, points_in_reach, reencode, seek_for,
    stop_for, with_pictures, PlanModel, PlanOptions, Segment, SegmentKind, Stop,
};
use crate::recording::{picture_time, AccessPoint, Ratio};
use crate::time::{in_reach, lemma_rounded_keeps_order, rounded, HAIR, SECOND};
use vstd::prelude::*;

verus! {

/// Whether a picture is shown for this many whole ticks at a rate. Where no
/// rate is stated thirty are shown a second.
pub open spec fn is_shown_for(rate: Ratio, picture: int) -> bool {
    if rate.num > 0 && rate.den > 0 {
        picture * rate.num <= SECOND * rate.den < (picture + 1) * rate.num
    } else {
        picture * 30 == SECOND
    }
}

/// A picture is shown for as many whole ticks as there are in it.
pub proof fn law_a_picture_is_as_long_as_its_rate_says(rate: Ratio, picture: int)
    ensures
        is_shown_for(rate, picture) <==> picture == picture_time(rate),
{
    if rate.num > 0 && rate.den > 0 {
        let (all, n, p) = (SECOND * rate.den, rate.num as int, picture_time(rate));
        vstd::arithmetic::div_mod::lemma_fundamental_div_mod(all, n);
        assert(p * n == n * p) by (nonlinear_arith);
        assert((p + 1) * n == n * p + n) by (nonlinear_arith);
        assert((picture + 1) * n == picture * n + n) by (nonlinear_arith);
        if is_shown_for(rate, picture) {
            vstd::arithmetic::div_mod::lemma_fundamental_div_mod_converse(
                all,
                n,
                picture,
                all - picture * n,
            );
        }
    }
}

/// Which picture a moment is nearest, counted from nought at a rate.
#[verifier::opaque]
pub open spec fn nearest_picture(t: int, rate: Ratio) -> int {
    if rate.num > 0 && rate.den > 0 {
        rounded(t * rate.num, rate.den * SECOND)
    } else {
        rounded(t * 30, SECOND as int)
    }
}

/// How many pictures stretches are counted to hold.
pub open spec fn pictures_in(segments: Seq<Segment>) -> int
    decreases segments.len(),
{
    if segments.len() == 0 {
        0
    } else {
        pictures_in(segments.drop_last()) + segments.last().frames
    }
}

/// From when on a range can be had: nothing before the first entry point can
/// be decoded.
pub open spec fn had_from(points: Seq<AccessPoint>, t_in: int) -> int {
    if points.len() == 0 {
        if t_in >= 0 {
            t_in
        } else {
            0
        }
    } else if t_in >= points[0].time {
        t_in
    } else {
        points[0].time as int
    }
}

#[verifier::spinoff_prover]
#[verifier::rlimit(60)]
proof fn lemma_pictures_in_order(a: int, b: int, rate: Ratio)
    requires
        a <= b,
    ensures
        nearest_picture(a, rate) <= nearest_picture(b, rate),
        pictures_between(a, b, rate) == nearest_picture(b, rate) - nearest_picture(a, rate),
{
    reveal(nearest_picture);
    let (n, d) = if rate.num > 0 && rate.den > 0 {
        (rate.num as int, rate.den * SECOND)
    } else {
        (30, SECOND as int)
    };
    assert(a * n <= b * n) by (nonlinear_arith)
        requires
            a <= b,
            n > 0,
    ;
    assert(d > 0) by (nonlinear_arith)
        requires
            d == rate.den * 705_600_000 && rate.den > 0 || d == 705_600_000,
    ;
    lemma_rounded_keeps_order(a * n, b * n, d);
}

/// No time a recording can have is counted as more pictures than there are
/// numbers for.
#[verifier::spinoff_prover]
#[verifier::rlimit(60)]
proof fn lemma_pictures_fit(a: int, b: int, rate: Ratio)
    requires
        a <= b,
        -0x800_0000_0000_0000 <= a,
        b <= 0x800_0000_0000_0000,
    ensures
        0 <= pictures_between(a, b, rate) <= u64::MAX,
{
    reveal(nearest_picture);
    lemma_pictures_in_order(a, b, rate);
    let (n, d) = if rate.num > 0 && rate.den > 0 {
        (rate.num as int, rate.den * SECOND)
    } else {
        (30, SECOND as int)
    };
    assert(d >= 705_600_000) by (nonlinear_arith)
        requires
            d == rate.den * 705_600_000 && rate.den > 0 || d == 705_600_000,
    ;
    let most: int = 0x800_0000_0000_0000_0000_0000int;
    assert(-most <= a * n && b * n <= most) by (nonlinear_arith)
        requires
            most == 0x800_0000_0000_0000_0000_0000int,
            -0x800_0000_0000_0000 <= a,
            b <= 0x800_0000_0000_0000,
            0 < n <= 0x1_0000_0000,
    ;
    lemma_rounded_keeps_order(-most, a * n, d);
    lemma_rounded_keeps_order(b * n, most, d);
    let r: int = 0x4000_0000_0000_0000;
    assert(2 * most + d <= r * (2 * d)) by (nonlinear_arith)
        requires
            most == 0x800_0000_0000_0000_0000_0000int,
            r == 0x4000_0000_0000_0000,
            d >= 705_600_000,
    ;
    vstd::arithmetic::div_mod::lemma_div_is_ordered(2 * most + d, r * (2 * d), 2 * d);
    vstd::arithmetic::div_mod::lemma_div_by_multiple(r, 2 * d);
}

/// A plan covers the range that was asked for. It opens where the range can be
/// had from, or less than a picture off where a copy does; it closes where the
/// range does, or no more than half a picture off where a copy does; each
/// stretch goes on where the one before it stopped; and what is left out before
/// the first of them or behind the last is so little that it holds no picture.
#[verifier::spinoff_prover]
#[verifier::rlimit(60)]
pub proof fn law_a_plan_covers_the_range(
    rate: Ratio,
    duration: int,
    points: Seq<AccessPoint>,
    t_in: int,
    t_out: int,
    opts: PlanOptions,
    picture: int,
)
    requires
        points_in_reach(points),
        in_reach(t_in),
        in_reach(t_out),
        is_shown_for(rate, picture),
        picture <= 0x400_0000_0000_0000,
        opts.min_copy matches Some(t) ==> t >= 0,
        had_from(points, t_in) < t_out,
    ensures
        ({
            let plan = planned(rate, duration, points, t_in, t_out, opts);
            let (from, s) = (had_from(points, t_in), plan.segments);
            let (first, last) = (s[0].start as int, s[s.len() - 1].end as int);
            &&& plan.t_in == from || from - picture < plan.t_in < from + picture
            &&& 2 * plan.t_in >= 2 * from - picture
            &&& -picture <= 2 * (plan.t_out - t_out) <= picture
            &&& s.len() == 0 ==> nearest_picture(plan.t_in, rate) == nearest_picture(
                plan.t_out,
                rate,
            )
            &&& s.len() > 0 ==> plan.t_in <= first && nearest_picture(plan.t_in, rate)
                == nearest_picture(first, rate)
            &&& s.len() > 0 ==> last <= plan.t_out && nearest_picture(last, rate)
                == nearest_picture(plan.t_out, rate)
            &&& forall|i: int, j: int|
                0 <= i < s.len() && j == i + 1 && j < s.len() ==> (#[trigger] s[i]).end == (
                #[trigger] s[j]).start
            &&& forall|i: int| 0 <= i < s.len() ==> (#[trigger] s[i]).start <= s[i].end
        }),
{
    law_a_picture_is_as_long_as_its_rate_says(rate, picture);
    lemma_plan_shape(rate, duration, points, t_in, t_out, opts);
    let s = planned(rate, duration, points, t_in, t_out, opts).segments;
    assert forall|i: int| 0 <= i < s.len() implies (#[trigger] s[i]).start <= s[i].end by {
        assert(counted(s[i], rate));
    }
}

/// A plan counts its pictures right: its stretches hold, together, every
/// picture there is between its bounds.
#[verifier::spinoff_prover]
#[verifier::rlimit(60)]
pub proof fn law_a_plan_counts_every_picture(
    rate: Ratio,
    duration: int,
    points: Seq<AccessPoint>,
    t_in: int,
    t_out: int,
    opts: PlanOptions,
)
    requires
        points_in_reach(points),
        in_reach(t_in),
        in_reach(t_out),
        picture_time(rate) <= 0x400_0000_0000_0000,
        opts.min_copy matches Some(t) ==> t >= 0,
        had_from(points, t_in) < t_out,
    ensures
        ({
            let plan = planned(rate, duration, points, t_in, t_out, opts);
            pictures_in(plan.segments) == nearest_picture(plan.t_out, rate) - nearest_picture(
                plan.t_in,
                rate,
            )
        }),
{
    lemma_plan_shape(rate, duration, points, t_in, t_out, opts);
    let plan = planned(rate, duration, points, t_in, t_out, opts);
    lemma_pictures_add_up(plan.segments, plan.t_in, plan.t_out, rate);
}

/// Stretches that are laid out hold, together, every picture there is.
proof fn lemma_pictures_add_up(s: Seq<Segment>, a: int, b: int, rate: Ratio)
    requires
        laid_out(s, a, b, rate),
    ensures
        pictures_in(s) == nearest_picture(b, rate) - nearest_picture(a, rate),
{
    reveal_with_fuel(pictures_in, 4);
    if s.len() == 1 {
        assert(s.drop_last() =~= Seq::empty());
    } else if s.len() == 2 {
        assert(s.drop_last() =~= seq![s[0]]);
        assert(s.drop_last().drop_last() =~= Seq::empty());
    } else if s.len() == 3 {
        assert(s.drop_last() =~= seq![s[0], s[1]]);
        assert(s.drop_last().drop_last() =~= seq![s[0]]);
        assert(s.drop_last().drop_last().drop_last() =~= Seq::empty());
    }
}

/// Whether stretches lie one behind another from one moment to another, and
/// hold every picture there is between the two.
spec fn laid_out(s: Seq<Segment>, a: int, b: int, rate: Ratio) -> bool {
    &&& s.len() <= 3
    &&& s.len() == 0 ==> nearest_picture(a, rate) == nearest_picture(b, rate)
    &&& s.len() > 0 ==> a <= s[0].start && nearest_picture(a, rate) == nearest_picture(
        s[0].start as int,
        rate,
    )
    &&& s.len() > 0 ==> s[s.len() - 1].end <= b && nearest_picture(
        s[s.len() - 1].end as int,
        rate,
    ) == nearest_picture(b, rate)
    &&& s.len() > 1 ==> s[0].end == s[1].start
    &&& s.len() > 2 ==> s[1].end == s[2].start
    &&& forall|i: int| 0 <= i < s.len() ==> counted(#[trigger] s[i], rate)
}

/// Whether a stretch ends no earlier than it starts and holds what it says.
spec fn counted(s: Segment, rate: Ratio) -> bool {
    &&& s.start <= s.end
    &&& s.frames == nearest_picture(s.end as int, rate) - nearest_picture(s.start as int, rate)
}

/// A stretch that is made again is laid out, or holds nothing.
proof fn lemma_made_again(a: int, b: int, seek: int, rate: Ratio)
    requires
        a <= b,
        -0x800_0000_0000_0000 <= a,
        b <= 0x800_0000_0000_0000,
    ensures
        laid_out(with_pictures(reencode(a, b, seek, rate)), a, b, rate),
        with_pictures(reencode(a, b, seek, rate)).len() <= 1,
        with_pictures(reencode(a, b, seek, rate)).len() == 1 ==> {
            let s = with_pictures(reencode(a, b, seek, rate))[0];
            s.start == a && s.end == b
        },
{
    lemma_pictures_in_order(a, b, rate);
    lemma_pictures_fit(a, b, rate);
}

/// A copy with what is made again on either side of it is laid out.
#[verifier::spinoff_prover]
#[verifier::rlimit(60)]
proof fn lemma_copy_laid_out(
    points: Seq<AccessPoint>,
    from: int,
    t_out: int,
    start: int,
    stop: Stop,
    rate: Ratio,
)
    requires
        -0x800_0000_0000_0000 <= from <= 0x800_0000_0000_0000,
        -0x800_0000_0000_0000 <= start <= stop.end,
        stop.end <= 0x800_0000_0000_0000,
        -0x800_0000_0000_0000 <= t_out <= 0x800_0000_0000_0000,
        0 <= picture_time(rate),
    ensures
        ({
            let plan = copied_between(points, from, t_out, start, stop, rate);
            laid_out(plan.segments, plan.t_in, plan.t_out, rate)
        }),
{
    let picture = picture_time(rate);
    let plan = copied_between(points, from, t_out, start, stop, rate);
    let body = crate::plan::copy(start, stop, rate);
    lemma_pictures_in_order(start, stop.end, rate);
    lemma_pictures_fit(start, stop.end, rate);
    assert(counted(body, rate));
    let head = if start - from >= picture {
        lemma_made_again(from, start, seek_for(points, from, 2), rate);
        with_pictures(reencode(from, start, seek_for(points, from, 2), rate))
    } else {
        Seq::empty()
    };
    let tail = if t_out - stop.end > picture / 2 {
        lemma_made_again(stop.end, t_out, seek_for(points, stop.end, 2), rate);
        with_pictures(reencode(stop.end, t_out, seek_for(points, stop.end, 2), rate))
    } else {
        Seq::empty()
    };
    let s = head + seq![body] + tail;
    assert(plan.segments == s);
    assert(head.len() == 1 ==> s[0] == head[0]);
    assert(s[head.len() as int] == body);
    assert(tail.len() == 1 ==> s[head.len() as int + 1] == tail[0]);
}

/// Where the stretches of a plan stand, and how many pictures each holds.
#[verifier::spinoff_prover]
#[verifier::rlimit(40)]
proof fn lemma_plan_shape(
    rate: Ratio,
    duration: int,
    points: Seq<AccessPoint>,
    t_in: int,
    t_out: int,
    opts: PlanOptions,
)
    requires
        points_in_reach(points),
        in_reach(t_in),
        in_reach(t_out),
        0 <= picture_time(rate) <= 0x400_0000_0000_0000,
        opts.min_copy matches Some(t) ==> t >= 0,
        had_from(points, t_in) < t_out,
    ensures
        ({
            let plan = planned(rate, duration, points, t_in, t_out, opts);
            let (from, picture) = (had_from(points, t_in), picture_time(rate));
            &&& plan.t_in == from || from - picture < plan.t_in < from + picture
            &&& 2 * plan.t_in >= 2 * from - picture
            &&& -picture <= 2 * (plan.t_out - t_out) <= picture
            &&& laid_out(plan.segments, plan.t_in, plan.t_out, rate)
        }),
{
    let half = picture_time(rate) / 2;
    let from = had_from(points, t_in);
    assert(points.len() > 0 ==> in_reach(points[0].time as int));
    assert(crate::plan::start_of(points, t_in) == from);
    lemma_made_again(from, t_out, seek_for(points, from, 2), rate);
    lemma_entry_can_start(points, from - half, t_out + half, opts.allow_open_gop, 0);
    if let Some(k) = first_entry(points, from - half, t_out + half, opts.allow_open_gop, 0) {
        let start = points[k].time as int;
        assert(in_reach(start));
        lemma_stop_in_reach(
            points,
            start + half,
            t_out + half,
            opts.allow_open_gop,
            points.len() as int,
        );
        if let Some(stop) = stop_for(points, start, t_out, duration, half, opts.allow_open_gop) {
            if stop.end - start >= crate::plan::shortest_copy(opts.min_copy, picture_time(rate)) {
                lemma_copy_laid_out(points, from, t_out, start, stop, rate);
            }
        }
    }
}

/// Whether entry points stand in order of time.
pub open spec fn in_turn(points: Seq<AccessPoint>) -> bool {
    forall|i: int, j: int|
        0 <= i <= j < points.len() ==> (#[trigger] points[i]).time <= (#[trigger] points[j]).time
}

/// Whether a copy may be made between two entry points: it may start at the
/// first, whose leading pictures it can do without, and end before the leading
/// pictures of the second.
pub open spec fn joins(a: AccessPoint, b: AccessPoint, opts: PlanOptions) -> bool {
    &&& a.lead_indices@.len() == 0 || (opts.allow_open_gop && a.droppable)
    &&& b.lead_indices@.len() == 0 || opts.allow_open_gop
}

/// Whether a stretch is worth copying: as long as was asked for, or two
/// pictures and half a second where nothing was.
pub open spec fn worth_copying(length: int, picture: int, opts: PlanOptions) -> bool {
    match opts.min_copy {
        Some(least) => length >= least,
        None => length >= 2 * picture && 2 * length >= SECOND,
    }
}

/// The first entry point found is no later than any a copy could start at.
proof fn lemma_entry_comes_first(
    points: Seq<AccessPoint>,
    from: int,
    to: int,
    allow_open: bool,
    i: int,
    k: int,
)
    requires
        0 <= k <= i < points.len(),
        from <= points[i].time <= to,
        points[i].lead_indices@.len() == 0 || (allow_open && points[i].droppable),
    ensures
        first_entry(points, from, to, allow_open, k) matches Some(at) && k <= at <= i,
    decreases i - k,
{
    if k < i {
        if !(from <= points[k].time <= to && crate::plan::can_start(points[k], allow_open)) {
            lemma_entry_comes_first(points, from, to, allow_open, i, k + 1);
        }
    }
}

/// A copy is carried at least as far as any entry point lets it be.
proof fn lemma_stop_reaches(
    points: Seq<AccessPoint>,
    start: int,
    to: int,
    allow_open: bool,
    j: int,
    n: int,
)
    requires
        0 <= j < n <= points.len(),
        points[j].lead_indices@.len() == 0 || allow_open,
        points[j].time > start,
        points[j].lead_start <= to,
    ensures
        furthest_stop(points, start, to, allow_open, n) matches Some(s) && s.end
            >= points[j].lead_start,
    decreases n,
{
    if n > j + 1 {
        lemma_stop_reaches(points, start, to, allow_open, j, n - 1);
    }
}

/// The copy a plan is made around, where it is made around one.
#[verifier::spinoff_prover]
#[verifier::rlimit(40)]
proof fn lemma_the_copy(
    rate: Ratio,
    duration: int,
    points: Seq<AccessPoint>,
    t_in: int,
    t_out: int,
    opts: PlanOptions,
)
    requires
        points_in_reach(points),
        in_reach(t_in),
        in_reach(t_out),
        0 <= picture_time(rate) <= 0x400_0000_0000_0000,
        had_from(points, t_in) < t_out,
    ensures
        ({
            let half = picture_time(rate) / 2;
            let from = had_from(points, t_in);
            let s = planned(rate, duration, points, t_in, t_out, opts).segments;
            match first_entry(points, from - half, t_out + half, opts.allow_open_gop, 0) {
                None => forall|i: int|
                    0 <= i < s.len() ==> (#[trigger] s[i]).kind == SegmentKind::Reencode,
                Some(k) => match stop_for(
                    points,
                    points[k].time as int,
                    t_out,
                    duration,
                    half,
                    opts.allow_open_gop,
                ) {
                    None => forall|i: int|
                        0 <= i < s.len() ==> (#[trigger] s[i]).kind == SegmentKind::Reencode,
                    Some(stop) => {
                        &&& forall|i: int|
                            0 <= i < s.len() && (#[trigger] s[i]).kind == SegmentKind::Copy ==> {
                                &&& s[i].start == points[k].time
                                &&& s[i].end == stop.end
                                &&& s[i].copy_until == stop.until
                                &&& s[i].seek_from == points[k].time
                                &&& worth_copying(
                                    stop.end - points[k].time,
                                    picture_time(rate),
                                    opts,
                                )
                            }
                        &&& worth_copying(stop.end - points[k].time, picture_time(rate), opts) ==> (
                        s.len() > 0 && s[0].kind == SegmentKind::Copy) || (s.len() > 1 && s[1].kind
                            == SegmentKind::Copy)
                    },
                },
            }
        }),
{
    let picture = picture_time(rate);
    let half = picture / 2;
    let from = had_from(points, t_in);
    assert(crate::plan::start_of(points, t_in) == from);
    lemma_entry_can_start(points, from - half, t_out + half, opts.allow_open_gop, 0);
    if let Some(k) = first_entry(points, from - half, t_out + half, opts.allow_open_gop, 0) {
        let start = points[k].time as int;
        lemma_stop_in_reach(
            points,
            start + half,
            t_out + half,
            opts.allow_open_gop,
            points.len() as int,
        );
        if let Some(stop) = stop_for(points, start, t_out, duration, half, opts.allow_open_gop) {
            assert(stop.end as i64 == stop.end);
            assert(worth_copying(stop.end - start, picture, opts) == (stop.end - start
                >= crate::plan::shortest_copy(opts.min_copy, picture)));
            if stop.end - start >= crate::plan::shortest_copy(opts.min_copy, picture) {
                let body = crate::plan::copy(start, stop, rate);
                let head = if start - from >= picture {
                    with_pictures(reencode(from, start, seek_for(points, from, 2), rate))
                } else {
                    Seq::empty()
                };
                let tail = if t_out - stop.end > half {
                    with_pictures(reencode(stop.end, t_out, seek_for(points, stop.end, 2), rate))
                } else {
                    Seq::empty()
                };
                let s = head + seq![body] + tail;
                assert(planned(rate, duration, points, t_in, t_out, opts).segments == s);
                assert(head.len() == 1 ==> s[0] == head[0]);
                assert(s[head.len() as int] == body);
                assert(tail.len() == 1 ==> s[head.len() as int + 1] == tail[0]);
            }
        }
    }
}

/// What can be copied is. Of two entry points no more than half a picture
/// outside the range that a copy may be made between, where the stretch from
/// the one to the leading pictures of the other is worth copying, the plan
/// copies all of that stretch.
#[verifier::spinoff_prover]
#[verifier::rlimit(40)]
pub proof fn law_what_can_be_copied_is(
    rate: Ratio,
    duration: int,
    points: Seq<AccessPoint>,
    t_in: int,
    t_out: int,
    opts: PlanOptions,
    picture: int,
    i: int,
    j: int,
)
    requires
        points_in_reach(points),
        in_turn(points),
        in_reach(t_in),
        in_reach(t_out),
        is_shown_for(rate, picture),
        picture <= 0x400_0000_0000_0000,
        had_from(points, t_in) < t_out,
        0 <= i < points.len(),
        0 <= j < points.len(),
        joins(points[i], points[j], opts),
        had_from(points, t_in) - picture / 2 <= points[i].time <= t_out + picture / 2,
        points[i].time + picture / 2 < points[j].time,
        points[j].lead_start <= t_out + picture / 2,
        worth_copying(points[j].lead_start - points[i].time, picture, opts),
    ensures
        ({
            let s = planned(rate, duration, points, t_in, t_out, opts).segments;
            exists|k: int|
                0 <= k < s.len() && (#[trigger] s[k]).kind == SegmentKind::Copy && s[k].start
                    <= points[i].time && points[j].lead_start <= s[k].end
        }),
{
    law_a_picture_is_as_long_as_its_rate_says(rate, picture);
    lemma_the_copy(rate, duration, points, t_in, t_out, opts);
    let half = picture / 2;
    let from = had_from(points, t_in);
    lemma_entry_comes_first(points, from - half, t_out + half, opts.allow_open_gop, i, 0);
    let at = first_entry(points, from - half, t_out + half, opts.allow_open_gop, 0)->0;
    let start = points[at].time as int;
    assert(start <= points[i].time);
    lemma_stop_reaches(
        points,
        start + half,
        t_out + half,
        opts.allow_open_gop,
        j,
        points.len() as int,
    );
    let s = planned(rate, duration, points, t_in, t_out, opts).segments;
    let k: int = if s[0].kind == SegmentKind::Copy {
        0
    } else {
        1
    };
    assert(s[k].kind == SegmentKind::Copy);
}

/// And so is what can be copied up to the end of the recording, of a range that
/// reaches it.
#[verifier::spinoff_prover]
#[verifier::rlimit(60)]
pub proof fn law_what_can_be_copied_to_the_end_is(
    rate: Ratio,
    duration: int,
    points: Seq<AccessPoint>,
    t_in: int,
    t_out: int,
    opts: PlanOptions,
    picture: int,
    i: int,
)
    requires
        points_in_reach(points),
        in_turn(points),
        in_reach(t_in),
        in_reach(t_out),
        is_shown_for(rate, picture),
        picture <= 0x400_0000_0000_0000,
        had_from(points, t_in) < t_out,
        0 < duration <= t_out + picture / 2,
        0 <= i < points.len(),
        points[i].lead_indices@.len() == 0 || (opts.allow_open_gop && points[i].droppable),
        had_from(points, t_in) - picture / 2 <= points[i].time <= t_out + picture / 2,
        worth_copying(t_out - points[i].time, picture, opts),
    ensures
        ({
            let s = planned(rate, duration, points, t_in, t_out, opts).segments;
            exists|k: int|
                0 <= k < s.len() && (#[trigger] s[k]).kind == SegmentKind::Copy && s[k].start
                    <= points[i].time && t_out <= s[k].end
        }),
{
    law_a_picture_is_as_long_as_its_rate_says(rate, picture);
    lemma_the_copy(rate, duration, points, t_in, t_out, opts);
    let half = picture / 2;
    let from = had_from(points, t_in);
    lemma_entry_comes_first(points, from - half, t_out + half, opts.allow_open_gop, i, 0);
    let at = first_entry(points, from - half, t_out + half, opts.allow_open_gop, 0)->0;
    assert(points[at].time <= points[i].time);
    let s = planned(rate, duration, points, t_in, t_out, opts).segments;
    let k: int = if s[0].kind == SegmentKind::Copy {
        0
    } else {
        1
    };
    assert(s[k].kind == SegmentKind::Copy);
}

/// Nothing is copied that cannot be. A copy is of one stretch, read from the
/// entry point it starts on; it ends before the leading pictures of another a
/// copy may be carried up to, which is the one it is read up to, or else at the
/// end of a range that reaches the end of the recording; and it is worth
/// copying.
#[verifier::spinoff_prover]
#[verifier::rlimit(40)]
pub proof fn law_a_copy_runs_between_entry_points(
    rate: Ratio,
    duration: int,
    points: Seq<AccessPoint>,
    t_in: int,
    t_out: int,
    opts: PlanOptions,
    picture: int,
    n: int,
)
    requires
        points_in_reach(points),
        in_reach(t_in),
        in_reach(t_out),
        is_shown_for(rate, picture),
        picture <= 0x400_0000_0000_0000,
        had_from(points, t_in) < t_out,
        0 <= n < planned(rate, duration, points, t_in, t_out, opts).segments.len(),
        planned(rate, duration, points, t_in, t_out, opts).segments[n].kind == SegmentKind::Copy,
    ensures
        ({
            let all = planned(rate, duration, points, t_in, t_out, opts).segments;
            let s = all[n];
            &&& s.seek_from == s.start
            &&& had_from(points, t_in) - picture / 2 <= s.start
            &&& worth_copying(s.end - s.start, picture, opts)
            &&& exists|i: int| #![trigger points[i]] 0 <= i < points.len() && points[i].time == s.start
            &&& match s.copy_until {
                Some(until) => exists|i: int, j: int|
                    #![trigger points[i], points[j]]
                    0 <= i < points.len() && 0 <= j < points.len() && points[i].time == s.start
                        && points[j].time == until && points[j].lead_start == s.end && joins(
                        points[i],
                        points[j],
                        opts,
                    ) && s.start + picture / 2 < until && s.end <= t_out + picture / 2,
                None => s.end == t_out && 0 < duration <= t_out + picture / 2 && exists|i: int|
                    #![trigger points[i]]
                    0 <= i < points.len() && points[i].time == s.start && joins(
                        points[i],
                        points[i],
                        opts,
                    ),
            }
            &&& forall|m: int| 0 <= m < all.len() && (#[trigger] all[m]).kind == SegmentKind::Copy
                ==> all[m].start == s.start && all[m].end == s.end
        }),
{
    law_a_picture_is_as_long_as_its_rate_says(rate, picture);
    lemma_the_copy(rate, duration, points, t_in, t_out, opts);
    let half = picture / 2;
    let from = had_from(points, t_in);
    lemma_entry_can_start(points, from - half, t_out + half, opts.allow_open_gop, 0);
    let all = planned(rate, duration, points, t_in, t_out, opts).segments;
    assert(all[n].kind == SegmentKind::Copy);
    let k = first_entry(points, from - half, t_out + half, opts.allow_open_gop, 0)->0;
    let start = points[k].time as int;
    lemma_stop_stands(
        points,
        start + half,
        t_out + half,
        opts.allow_open_gop,
        points.len() as int,
    );
    let inside = furthest_stop(
        points,
        start + half,
        t_out + half,
        opts.allow_open_gop,
        points.len() as int,
    );
    assert(points[k].time == all[n].start);
    if let Some(stop) = inside {
        let j = choose|j: int|
            0 <= j < points.len() && (#[trigger] points[j]).lead_start == stop.end && stop.until
                == Some(points[j].time) && crate::plan::can_stop(
                points[j],
                start + half,
                t_out + half,
                opts.allow_open_gop,
            );
        if all[n].copy_until is Some {
            assert(joins(points[k], points[j], opts));
        }
    }
    if all[n].copy_until is None {
        assert(joins(points[k], points[k], opts));
    }
}

/// A stop that is an access point's is that access point's.
proof fn lemma_stop_stands(
    points: Seq<AccessPoint>,
    start: int,
    to: int,
    allow_open: bool,
    n: int,
)
    requires
        n <= points.len(),
    ensures
        furthest_stop(points, start, to, allow_open, n) matches Some(s) ==> exists|j: int|
            0 <= j < points.len() && (#[trigger] points[j]).lead_start == s.end && s.until == Some(
                points[j].time,
            ) && crate::plan::can_stop(points[j], start, to, allow_open),
    decreases n,
{
    if 0 < n {
        lemma_stop_stands(points, start, to, allow_open, n - 1);
        assert(points[n - 1].lead_start == points[n - 1].lead_start);
    }
}

/// The entry points no later than a moment, of some that are in order, are the
/// first of them.
proof fn lemma_entries_are_the_first(points: Seq<AccessPoint>, target: int, k: int, n: int)
    requires
        0 <= n <= k + 1 <= points.len(),
        forall|i: int| 0 <= i <= k ==> (#[trigger] points[i]).time <= target + HAIR,
        forall|i: int| k < i < points.len() ==> (#[trigger] points[i]).time > target + HAIR,
    ensures
        entries_before(points, target, n).len() == k + 1 - n,
        forall|i: int|
            0 <= i < k + 1 - n ==> #[trigger] entries_before(points, target, n)[i] == points[n
                + i].time,
    decreases k + 1 - n,
{
    if n <= k {
        lemma_entries_are_the_first(points, target, k, n + 1);
        let rest = entries_before(points, target, n + 1);
        assert(entries_before(points, target, n) == seq![points[n].time] + rest);
    } else {
        lemma_none_left(points, target, n);
    }
}

proof fn lemma_none_left(points: Seq<AccessPoint>, target: int, n: int)
    requires
        0 <= n,
        forall|i: int| n <= i < points.len() ==> (#[trigger] points[i]).time > target + HAIR,
    ensures
        entries_before(points, target, n).len() == 0,
    decreases points.len() - n,
{
    if n < points.len() {
        assert(points[n].time > target + HAIR);
        lemma_none_left(points, target, n + 1);
    }
}

/// Decoding starts so many entry points ahead of the last one that is no later
/// than what is wanted, and at the first where there are not so many.
pub proof fn law_decoding_starts_ahead(points: Seq<AccessPoint>, target: int, back: int, k: int)
    requires
        0 <= back,
        0 <= k < points.len(),
        forall|i: int| 0 <= i <= k ==> (#[trigger] points[i]).time <= target + HAIR,
        forall|i: int| k < i < points.len() ==> (#[trigger] points[i]).time > target + HAIR,
    ensures
        seek_for(points, target, back) == (if k >= back {
            points[k - back].time
        } else {
            points[0].time
        }),
{
    lemma_entries_are_the_first(points, target, k, 0);
}

/// What is made again is decoded from two entry points ahead of the last one
/// before it, so that it is decoded whole, and nothing of it is copied.
#[verifier::spinoff_prover]
#[verifier::rlimit(40)]
pub proof fn law_what_is_made_again_is_decoded_whole(
    rate: Ratio,
    duration: int,
    points: Seq<AccessPoint>,
    t_in: int,
    t_out: int,
    opts: PlanOptions,
    n: int,
    k: int,
)
    requires
        points_in_reach(points),
        in_reach(t_in),
        in_reach(t_out),
        0 <= picture_time(rate) <= 0x400_0000_0000_0000,
        opts.min_copy matches Some(t) ==> t >= 0,
        had_from(points, t_in) < t_out,
        0 <= n < planned(rate, duration, points, t_in, t_out, opts).segments.len(),
        ({
            let s = planned(rate, duration, points, t_in, t_out, opts).segments[n];
            &&& s.kind == SegmentKind::Reencode
            &&& 0 <= k < points.len()
            &&& forall|i: int| 0 <= i <= k ==> (#[trigger] points[i]).time <= s.start + HAIR
            &&& forall|i: int| k < i < points.len() ==> (#[trigger] points[i]).time > s.start + HAIR
        }),
    ensures
        ({
            let s = planned(rate, duration, points, t_in, t_out, opts).segments[n];
            &&& s.copy_until is None
            &&& s.seek_from == (if k >= 2 {
                points[k - 2].time
            } else {
                points[0].time
            })
        }),
{
    let picture = picture_time(rate);
    let half = picture / 2;
    let from = had_from(points, t_in);
    let s = planned(rate, duration, points, t_in, t_out, opts).segments;
    law_decoding_starts_ahead(points, s[n].start as int, 2, k);
    assert(crate::plan::start_of(points, t_in) == from);
    assert(in_reach(points[0].time as int));
    lemma_entry_can_start(points, from - half, t_out + half, opts.allow_open_gop, 0);
    if let Some(k) = first_entry(points, from - half, t_out + half, opts.allow_open_gop, 0) {
        let start = points[k].time as int;
        lemma_stop_in_reach(
            points,
            start + half,
            t_out + half,
            opts.allow_open_gop,
            points.len() as int,
        );
        if let Some(stop) = stop_for(points, start, t_out, duration, half, opts.allow_open_gop) {
            if stop.end - start >= crate::plan::shortest_copy(opts.min_copy, picture) {
                let body = crate::plan::copy(start, stop, rate);
                let head = if start - from >= picture {
                    with_pictures(reencode(from, start, seek_for(points, from, 2), rate))
                } else {
                    Seq::empty()
                };
                let tail = if t_out - stop.end > half {
                    with_pictures(reencode(stop.end, t_out, seek_for(points, stop.end, 2), rate))
                } else {
                    Seq::empty()
                };
                assert(s == head + seq![body] + tail);
                assert(head.len() == 1 ==> s[0] == head[0]);
                assert(s[head.len() as int] == body);
                assert(tail.len() == 1 ==> s[head.len() as int + 1] == tail[0]);
            }
        }
    }
}

/// A join is moved onto a clean entry point exactly where that was asked for,
/// the head is made again already, the clean one is further on, and what is
/// left to copy is worth copying. Then what is made again runs up to it, the
/// copy starts on it, and the pictures are counted again.
#[verifier::spinoff_prover]
#[verifier::rlimit(40)]
pub proof fn law_a_join_is_moved_where_it_is_worth_it(
    plan: PlanModel,
    clean: i64,
    rate: Ratio,
    opts: PlanOptions,
    picture: int,
)
    requires
        plan.segments.len() >= 2,
        is_shown_for(rate, picture),
        in_reach(clean as int),
        in_reach(plan.segments[0].start as int),
        in_reach(plan.segments[1].end as int),
        plan.segments[0].start <= plan.segments[1].start,
        opts.min_copy matches Some(t) ==> t >= 0,
    ensures
        ({
            let (head, body) = (plan.segments[0], plan.segments[1]);
            let now = joined(plan, Some(clean), rate, opts);
            let moves = opts.clean_join is Some && opts.clean_join->0 > 0 && head.kind
                == SegmentKind::Reencode && body.kind == SegmentKind::Copy && clean > body.start
                + HAIR && worth_copying(body.end - clean, picture, opts);
            &&& !moves ==> now == plan
            &&& moves ==> {
                &&& now.segments.len() == plan.segments.len()
                &&& now.segments[0].end == clean && now.segments[1].start == clean
                &&& now.segments[0].start == head.start && now.segments[1].end == body.end
                &&& now.segments[0].kind == head.kind && now.segments[1].kind == body.kind
                &&& now.segments[0].seek_from == head.seek_from
                &&& now.segments[1].copy_until == body.copy_until
                &&& now.segments[0].frames == nearest_picture(clean as int, rate)
                    - nearest_picture(head.start as int, rate)
                &&& now.segments[1].frames == nearest_picture(body.end as int, rate)
                    - nearest_picture(clean as int, rate)
            }
        }),
        joined(plan, None, rate, opts) == plan,
{
    law_a_picture_is_as_long_as_its_rate_says(rate, picture);
    let (head, body) = (plan.segments[0], plan.segments[1]);
    if head.start <= clean {
        lemma_pictures_in_order(head.start as int, clean as int, rate);
        lemma_pictures_fit(head.start as int, clean as int, rate);
    }
    if clean <= body.end {
        lemma_pictures_in_order(clean as int, body.end as int, rate);
        lemma_pictures_fit(clean as int, body.end as int, rate);
    }
    if picture < 0 {
        assert(false) by (nonlinear_arith)
            requires
                picture < 0,
                rate.num > 0 && rate.den > 0 ==> 705_600_000 * rate.den < (picture + 1) * rate.num,
                rate.num == 0 || rate.den == 0 ==> picture * 30 == 705_600_000,
        ;
    }
}

/// What is copied of a plan and what is made again come, together, to all of
/// it.
#[verifier::spinoff_prover]
#[verifier::rlimit(60)]
pub proof fn law_the_two_kinds_make_up_the_plan(s: Seq<Segment>)
    requires
        s.len() > 0,
        forall|i: int, j: int|
            0 <= i < s.len() && j == i + 1 && j < s.len() ==> (#[trigger] s[i]).end == (
            #[trigger] s[j]).start,
    ensures
        length_of(s, SegmentKind::Copy) + length_of(s, SegmentKind::Reencode) == s[s.len() - 1].end
            - s[0].start,
    decreases s.len(),
{
    let less = s.drop_last();
    reveal_with_fuel(length_of, 2);
    if less.len() > 0 {
        assert(less[0] == s[0] && less[less.len() - 1] == s[s.len() - 2]);
        assert forall|i: int, j: int|
            0 <= i < less.len() && j == i + 1 && j < less.len() implies (#[trigger] less[i]).end
            == (#[trigger] less[j]).start by {
            assert(s[i].end == s[j].start);
        }
        law_the_two_kinds_make_up_the_plan(less);
        assert(s[s.len() - 2].end == s[s.len() - 1].start);
    }
}

/// Only what is copied counts as copied.
pub proof fn law_only_copies_are_copied(s: Seq<Segment>, kind: SegmentKind)
    requires
        forall|i: int| 0 <= i < s.len() ==> (#[trigger] s[i]).kind != kind,
    ensures
        length_of(s, kind) == 0,
    decreases s.len(),
{
    if s.len() > 0 {
        assert(s[s.len() - 1].kind != kind);
        assert forall|i: int| 0 <= i < s.drop_last().len() implies (
        #[trigger] s.drop_last()[i]).kind != kind by {
            assert(s[i].kind != kind);
        }
        law_only_copies_are_copied(s.drop_last(), kind);
    }
}

} // verus!
