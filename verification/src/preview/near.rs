//! Which picture is nearest, and which entry point is the last before it.
use crate::preview::glance::{cell_of, landing_at, swept, Landing, Sweep, Swept};
use crate::preview::strip::{
    all_runs, have_after, least_gap, offered, reach_of, repeated, run_from, runs_to, splits, Slots,
};
use crate::preview::entered_by;
use crate::proxy::{is_entry, offset_of, passed};
use crate::recording::index::Source;
use crate::recording::AccessPoint;
use crate::time::SECOND;
use vstd::prelude::*;

verus! {

/// Whether entry points are in order.
pub open spec fn in_line(points: Seq<AccessPoint>) -> bool {
    forall|i: int, j: int|
        0 <= i <= j < points.len() ==> (#[trigger] points[i]).time <= (#[trigger] points[j]).time
}

proof fn lemma_passed(points: Seq<AccessPoint>, twice: int, i: int)
    requires
        0 <= i <= points.len(),
    ensures
        i <= passed(points, twice, i) <= points.len(),
        forall|j: int| i <= j < passed(points, twice, i) ==> 2 * (#[trigger] points[j]).time < twice,
        passed(points, twice, i) < points.len() ==> 2 * points[passed(points, twice, i)].time
            >= twice,
    decreases points.len() - i,
{
    if i < points.len() && 2 * points[i].time < twice {
        lemma_passed(points, twice, i + 1);
    }
}

/// A picture is on an entry point exactly where one is within half a picture of
/// it. Entry points before `from` are those that earlier pictures have gone
/// past.
pub proof fn law_a_picture_is_an_entry_where_one_is_near(
    points: Seq<AccessPoint>,
    t: int,
    fd: int,
    from: int,
)
    requires
        in_line(points),
        0 <= from <= points.len(),
        forall|j: int| 0 <= j < from ==> 2 * (#[trigger] points[j]).time < 2 * t - fd,
    ensures
        is_entry(points, passed(points, 2 * t - fd, from), t, fd) <==> exists|j: int|
            0 <= j < points.len() && -fd <= 2 * ((#[trigger] points[j]).time - t) <= fd,
        forall|j: int|
            0 <= j < passed(points, 2 * t - fd, from) ==> 2 * (#[trigger] points[j]).time < 2 * t
                - fd,
{
    lemma_passed(points, 2 * t - fd, from);
    let k = passed(points, 2 * t - fd, from);
    if exists|j: int| 0 <= j < points.len() && -fd <= 2 * ((#[trigger] points[j]).time - t) <= fd {
        let j = choose|j: int|
            0 <= j < points.len() && -fd <= 2 * ((#[trigger] points[j]).time - t) <= fd;
        if j < k {
            assert(2 * points[j].time < 2 * t - fd);
        }
        assert(points[k].time <= points[j].time);
    }
    if is_entry(points, k, t, fd) {
        assert(-fd <= 2 * (points[k].time - t) <= fd);
    }
}

/// A proxy starts as far into the recording as its first picture is past the
/// first entry point; where that picture is not known, where the recording
/// starts.
pub proof fn law_a_proxy_keeps_the_recordings_time(src: Source, want: i64)
    ensures
        src.points@.len() > 0 ==> offset_of(src, Some(want)) + src.points@[0].time == want,
        src.points@.len() == 0 ==> offset_of(src, Some(want)) == want,
        offset_of(src, None) == src.start_time,
{
}

/// Decoding for a moment starts at the last entry point that is not after it, a
/// rounding apart; at the start of the file where there is none.
pub proof fn law_decoding_starts_at_the_last_entry(points: Seq<AccessPoint>, time: int, n: int, k: int)
    requires
        in_line(points),
        0 <= n <= points.len(),
    ensures
        0 <= k < n && points[k].time <= time + 705 ==> points[k].time <= entered_by(points, time, n)
            <= time + 705 && exists|j: int|
            0 <= j < n && (#[trigger] points[j]).time == entered_by(points, time, n),
        (forall|j: int| 0 <= j < n ==> (#[trigger] points[j]).time > time + 705) ==> entered_by(
            points,
            time,
            n,
        ) == 0,
    decreases n,
{
    if n > 0 {
        if points[n - 1].time <= time + 705 {
            assert(points[n - 1].time == entered_by(points, time, n));
        } else {
            law_decoding_starts_at_the_last_entry(points, time, n - 1, k);
            if 0 <= k < n && points[k].time <= time + 705 {
                let j = choose|j: int|
                    0 <= j < n - 1 && (#[trigger] points[j]).time == entered_by(
                        points,
                        time,
                        n - 1,
                    );
                assert(points[j].time == entered_by(points, time, n));
            }
        }
    }
}

/// The smallest step of a strip is a step, and none is smaller; steps that go
/// back or stand still do not count.
pub proof fn law_the_smallest_step_is_found(times: Seq<i64>, n: int, k: int)
    requires
        0 <= n <= times.len(),
    ensures
        match least_gap(times, n) {
            Some(g) => g > 0 && (exists|i: int|
                0 < i < n && (#[trigger] times[i]) - times[i - 1] == g) && (0 < k < n && times[k]
                > times[k - 1] ==> g <= times[k] - times[k - 1]),
            None => 0 < k < n ==> times[k] <= times[k - 1],
        },
    decreases n,
{
    if n > 1 {
        law_the_smallest_step_is_found(times, n - 1, k);
        if least_gap(times, n) != least_gap(times, n - 1) {
            assert(times[n - 1] - times[n - 2] == least_gap(times, n)->0);
        } else if let Some(g) = least_gap(times, n - 1) {
            let i = choose|i: int| 0 < i < n - 1 && (#[trigger] times[i]) - times[i - 1] == g;
            assert(times[i] - times[i - 1] == g);
        }
    }
}

/// A strip is read in one go where its pictures go forward and no step is a
/// jump; a jump is over two and a half of the smallest steps and half a second,
/// or over two seconds.
pub proof fn law_a_strip_splits_at_a_jump(times: Seq<i64>, i: int, least: int)
    requires
        0 < i < times.len(),
        least_gap(times, times.len() as int) == Some(least),
    ensures
        ({
            let step = times[i] - times[i - 1];
            splits(times, i) == (step < 0 || 2 * step > 4 * SECOND || 2 * step > 5 * least + SECOND)
        }),
{
}

proof fn lemma_run_splits(times: Seq<i64>, i: int, j: int)
    requires
        0 <= i < times.len(),
    ensures
        0 <= run_from(times, i) <= i,
        run_from(times, i) > 0 ==> splits(times, run_from(times, i)),
        run_from(times, i) < j <= i ==> !splits(times, j),
    decreases i,
{
    if i > 0 && !splits(times, i) {
        lemma_run_splits(times, i - 1, j);
    }
}

proof fn lemma_runs_split(times: Seq<i64>, n: int, k: int, j: int)
    requires
        1 <= n <= times.len() <= usize::MAX,
        0 <= k < runs_to(times, n).len(),
    ensures
        ({
            let (a, b) = runs_to(times, n)[k];
            &&& a < b < n
            &&& splits(times, b as int)
            &&& a > 0 ==> splits(times, a as int)
            &&& a < j < b ==> !splits(times, j)
        }),
    decreases n,
{
    if n > 1 {
        if splits(times, n - 1) {
            if k == runs_to(times, n - 1).len() {
                lemma_run_splits(times, n - 2, j);
            } else {
                lemma_runs_split(times, n - 1, k, j);
            }
        } else {
            lemma_runs_split(times, n - 1, k, j);
        }
    }
}

/// A strip is taken apart where it splits, and nowhere else: each part starts
/// where the strip does or at a split, and no split is inside it.
pub proof fn law_the_parts_of_a_strip_hold_no_split(times: Seq<i64>, k: int, j: int)
    requires
        0 < times.len() <= usize::MAX,
        0 <= k < all_runs(times).len(),
    ensures
        ({
            let (a, b) = all_runs(times)[k];
            &&& a > 0 ==> splits(times, a as int)
            &&& a < j < b ==> !splits(times, j)
        }),
{
    let n = times.len() as int;
    if k < runs_to(times, n).len() {
        lemma_runs_split(times, n, k, j);
    } else {
        lemma_run_splits(times, n - 1, j);
    }
}

/// How far two moments are from each other.
pub open spec fn span(a: int, b: int) -> int {
    if a >= b {
        a - b
    } else {
        b - a
    }
}

/// A picture goes into a cell that has none where it is in reach of it, and into
/// one that has another where it is nearer; then the cell has it. No cell is
/// left with one that is further off than it had.
pub proof fn law_a_cell_keeps_the_nearest_picture(s: Slots, t: i64, i: int)
    requires
        s.wf(),
        0 <= i < s.wanted@.len(),
    ensures
        ({
            let want = s.wanted@[i] as int;
            let took = offered(s, t as int)[i];
            let now = have_after(s, t)[i];
            &&& took ==> now == Some(t)
            &&& !took ==> now == s.have@[i]
            &&& s.have@[i] matches Some(h) ==> now is Some && span(now->0 as int, want) <= span(
                h as int,
                want,
            ) && span(now->0 as int, want) <= span(t as int, want)
            &&& s.have@[i] is None ==> took == (span(t as int, want) * s.over <= s.reach)
            &&& s.have@[i] matches Some(h) ==> took == (span(t as int, want) < span(
                h as int,
                want,
            ))
        }),
{
}

/// A picture may be as far from its cell as cells are from each other, or as a
/// picture is long where that is more.
pub proof fn law_a_cell_reaches_to_the_next(wanted: Seq<i64>, fd: int)
    requires
        wanted.len() > 0,
        0 <= fd,
    ensures
        ({
            let (reach, over) = reach_of(wanted, fd);
            &&& over > 0
            &&& wanted.len() == 1 ==> reach == fd * over
            &&& wanted.len() > 1 ==> over == wanted.len() - 1 && reach >= fd * over && reach
                >= wanted.last() - wanted[0] && (reach == fd * over || reach == wanted.last()
                - wanted[0])
        }),
{
    let over = wanted.len() - 1;
    assert(over * fd == fd * over) by (nonlinear_arith);
}

/// A cell shows the one before it again where their pictures are less than half
/// a picture apart.
pub proof fn law_a_cell_repeats_the_one_before(have: Seq<Option<i64>>, fd: int, i: int)
    requires
        0 < i < have.len(),
    ensures
        repeated(have, fd, i) == (have[i] is Some && have[i - 1] is Some && 2 * span(
            have[i]->0 as int,
            have[i - 1]->0 as int,
        ) < fd),
        !repeated(have, fd, 0),
{
}

/// A glance lands inside the recording: at a moment asked for, or as far into
/// it as was asked.
pub proof fn law_a_glance_lands_where_asked(start: int, duration: int, into: i64, at: i64)
    requires
        0 <= duration,
    ensures
        ({
            let landed = landing_at(Landing::Fraction(into), start, duration) - start;
            &&& 0 <= landed <= duration
            &&& 0 <= into <= 1_000_000 ==> landed * 1_000_000 <= duration * into < (landed + 1)
                * 1_000_000
            &&& into > 1_000_000 ==> landed == duration
            &&& into < 0 ==> landed == 0
        }),
        at >= 0 ==> landing_at(Landing::At(at), start, duration) == start + at,
        at < 0 ==> landing_at(Landing::At(at), start, duration) == start,
{
    let part = if into < 0 {
        0
    } else if into > 1_000_000 {
        1_000_000
    } else {
        into as int
    };
    let whole = duration * part;
    assert(0 <= whole <= duration * 1_000_000) by (nonlinear_arith)
        requires
            whole == duration * part,
            0 <= duration,
            0 <= part <= 1_000_000,
    ;
    assert(landing_at(Landing::Fraction(into), start, duration) == start + whole / 1_000_000);
}

/// A sweep keeps a picture inside its stretch that is the first in its cell, as
/// long as it has room; what is past the stretch ends it.
pub proof fn law_a_sweep_keeps_the_first_of_each_cell(s: Sweep, at: int, cell: int)
    requires
        s.wf(),
        cell * s.wide <= (at - s.from) * s.over < (cell + 1) * s.wide,
        i64::MIN <= cell <= i64::MAX,
    ensures
        cell_of(s, at) == cell,
        swept(s, at) == Swept::Past <==> at > s.to + 705,
        swept(s, at) == Swept::Keep || swept(s, at) == Swept::Last <==> s.from - 705 <= at <= s.to
            + 705 && s.held != Some(cell as i64),
        swept(s, at) == Swept::Last ==> s.kept + 1 >= s.most,
        swept(s, at) == Swept::Keep ==> s.kept + 1 < s.most,
{
    let w = s.wide as int;
    let v = (at - s.from) * s.over;
    assert((cell + 1) * w == cell * w + w) by (nonlinear_arith);
    vstd::arithmetic::div_mod::lemma_fundamental_div_mod_converse(v, w, cell, v - cell * w);
}

} // verus!
