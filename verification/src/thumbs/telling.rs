//! What tells one picture from another, and what is made of that.
use crate::logo::template::Luma;
use crate::rank::{at_place, law_one_value_stands_at_a_place, lemma_at_place, stands};
use crate::thumbs::collect::{bar, first_bar, marked, most_scenes, reaching, sizes};
use crate::recording::AccessPoint;
use crate::thumbs::cuts::{entered_before, goes_at, nearest_to, step, strongest_of, Sighting};
use crate::thumbs::{
    all_there, cell, cell_from, cell_sum, cell_until, cells_apart, difference, row_sum,
    signature_of, steps, ThumbOptions, SIG,
};
use vstd::prelude::*;

verus! {

/// How far one number is from another.
pub open spec fn gap(a: int, b: int) -> int {
    if a >= b {
        a - b
    } else {
        b - a
    }
}

proof fn lemma_cells_apart(a: Seq<u8>, b: Seq<u8>, n: int)
    ensures
        0 <= cells_apart(a, b, n) <= 255 * (if n > 0 {
            n
        } else {
            0
        }),
        cells_apart(a, b, n) == cells_apart(b, a, n),
        cells_apart(a, a, n) == 0,
    decreases n,
{
    if n > 0 {
        lemma_cells_apart(a, b, n - 1);
        lemma_cells_apart(a, a, n - 1);
    }
}

proof fn lemma_one_cell(a: Seq<u8>, b: Seq<u8>, k: int, v: u8, n: int)
    requires
        0 <= k < a.len(),
        0 <= n <= a.len(),
    ensures
        cells_apart(a.update(k, v), b, n) == cells_apart(a, b, n) + (if k < n {
            gap(v as int, b[k] as int) - gap(a[k] as int, b[k] as int)
        } else {
            0
        }),
    decreases n,
{
    if n > 0 {
        lemma_one_cell(a, b, k, v, n - 1);
    }
}

/// How different two pictures are is how far apart their cells are, each as
/// much as any other: a picture is no different from itself, it is as different
/// from another as that one is from it, and one cell that moves moves the
/// difference by as much.
pub proof fn law_a_difference_adds_up_over_the_cells(a: Seq<u8>, b: Seq<u8>, k: int, v: u8)
    requires
        a.len() == SIG,
        b.len() == SIG,
        0 <= k < SIG,
    ensures
        difference(a, a) == 0,
        difference(a, b) == difference(b, a),
        0 <= difference(a, b) <= 144 * 255 * 1_000_000,
        difference(a.update(k, v), b) - difference(a, b) == 1_000_000 * (gap(
            v as int,
            b[k] as int,
        ) - gap(a[k] as int, b[k] as int)),
{
    lemma_cells_apart(a, b, SIG as int);
    lemma_one_cell(a, b, k, v, SIG as int);
}

proof fn lemma_row_between(data: Seq<u8>, row: int, x: int, until: int, low: int, high: int)
    requires
        0 <= low <= high,
        forall|i: int| x <= i < until ==> low <= #[trigger] data[row + i] <= high,
    ensures
        low * steps(x, until) <= row_sum(data, row, x, until) <= high * steps(x, until),
    decreases until + 4 - x,
{
    if x < until {
        lemma_row_between(data, row, x + 4, until, low, high);
        assert(steps(x, until) == steps(x + 4, until) + 1);
        assert(low <= data[row + x] <= high);
        let n = steps(x + 4, until);
        assert(low * (n + 1) == low * n + low && high * (n + 1) == high * n + high)
            by (nonlinear_arith);
    }
}

#[verifier::spinoff_prover]
#[verifier::rlimit(60)]
proof fn lemma_rows_between(
    data: Seq<u8>,
    stride: int,
    y: int,
    below: int,
    x: int,
    until: int,
    low: int,
    high: int,
)
    requires
        0 <= low <= high,
        forall|j: int, i: int|
            #![trigger data[j * stride + i]]
            y <= j < below && x <= i < until ==> low <= data[j * stride + i] <= high,
    ensures
        low * (steps(y, below) * steps(x, until)) <= cell_sum(data, stride, y, below, x, until)
            <= high * (steps(y, below) * steps(x, until)),
    decreases below + 4 - y,
{
    if y < below {
        lemma_rows_between(data, stride, y + 4, below, x, until, low, high);
        assert forall|i: int| x <= i < until implies low <= #[trigger] data[y * stride + i]
            <= high by {}
        lemma_row_between(data, y * stride, x, until, low, high);
        assert(steps(y, below) == steps(y + 4, below) + 1);
        let (n, m) = (steps(y + 4, below), steps(x, until));
        assert(low * ((n + 1) * m) == low * (n * m) + low * m && high * ((n + 1) * m) == high * (n
            * m) + high * m) by (nonlinear_arith);
    } else {
        assert(steps(y, below) == 0);
        assert(0 * steps(x, until) == 0 && low * 0 == 0 && high * 0 == 0);
    }
}

/// Each cell of a picture's signature is an average of the pixels in its own
/// part of the picture, a sixteenth of the width and a ninth of the height, and
/// of no others: it is no darker than the darkest of them and no brighter than
/// the brightest.
#[verifier::spinoff_prover]
#[verifier::rlimit(40)]
pub proof fn law_a_cell_is_an_average_of_its_own_pixels(
    frame: Luma,
    k: int,
    low: int,
    high: int,
)
    requires
        0 <= k < 144,
        0 < frame.width,
        0 < frame.height,
        (frame.height - 1) * frame.stride + frame.width <= frame.data@.len(),
        0 <= low <= high <= 255,
        ({
            let (w, h) = (frame.width as int, frame.height as int);
            let (cx, cy) = (k % 16, k / 16);
            forall|y: int, x: int|
                #![trigger frame.data@[y * frame.stride + x]]
                0 <= y < h && 0 <= x < w && (cx * w / 16 <= x && (x < (cx + 1) * w / 16 || x == cx * w
                    / 16)) && (cy * h / 9 <= y && (y < (cy + 1) * h / 9 || y == cy * h / 9))
                    ==> low <= frame.data@[y * frame.stride + x] <= high
        }),
    ensures
        low <= signature_of(frame)[k] <= high,
{
    let (w, h) = (frame.width as int, frame.height as int);
    let (cx, cy) = (k % 16, k / 16);
    let (x0, x1) = (cell_from(cx, w, 16), cell_until(cx, w, 16));
    let (y0, y1) = (cell_from(cy, h, 9), cell_until(cy, h, 9));
    lemma_part(cx, w, 16);
    lemma_part(cy, h, 9);
    assert forall|j: int, i: int|
        #![trigger frame.data@[j * frame.stride + i]]
        y0 <= j < y1 && x0 <= i < x1 implies low <= frame.data@[j * frame.stride + i] <= high by {}
    lemma_rows_between(frame.data@, frame.stride as int, y0, y1, x0, x1, low, high);
    let (n, sum) = (
        steps(y0, y1) * steps(x0, x1),
        cell_sum(frame.data@, frame.stride as int, y0, y1, x0, x1) as int,
    );
    assert(n > 0) by (nonlinear_arith)
        requires
            n == steps(y0, y1) * steps(x0, x1),
            steps(y0, y1) > 0,
            steps(x0, x1) > 0,
    ;
    assert(low <= sum / n <= high) by (nonlinear_arith)
        requires
            n > 0,
            low * n <= sum <= high * n,
    ;
    assert(all_there(frame));
    assert(cell(frame, k) == sum / n);
}

proof fn lemma_part(c: int, size: int, cells: int)
    requires
        0 <= c < cells,
        0 < size,
    ensures
        0 <= c * size / cells < size,
        (c + 1) * size / cells <= size,
        c * size / cells <= (c + 1) * size / cells,
{
    let (a, b) = (c * size / cells, (c + 1) * size / cells);
    assert(0 <= a < size && b <= size && a <= b) by (nonlinear_arith)
        requires
            a == c * size / cells,
            b == (c + 1) * size / cells,
            0 <= c < cells,
            0 < size,
    ;
}

/// The cut found near a moment is one: a picture that differs as much from the
/// one before it as a cut has to. None is found exactly where there is none.
pub proof fn law_the_cut_found_is_a_cut(seen: Seq<Sighting>, at: int, floor: int, n: int)
    requires
        0 <= n <= seen.len(),
    ensures
        match nearest_to(seen, at, floor, n) {
            Some(t) => exists|i: int|
                0 < i < n && (#[trigger] seen[i]).time == t && difference(
                    seen[i - 1].sig@,
                    seen[i].sig@,
                ) >= floor,
            None => forall|i: int|
                0 < i < n ==> difference(seen[i - 1].sig@, (#[trigger] seen[i]).sig@) < floor,
        },
    decreases n,
{
    if n > 1 {
        law_the_cut_found_is_a_cut(seen, at, floor, n - 1);
        if nearest_to(seen, at, floor, n) == Some(seen[n - 1].time) && step(seen, n - 1) >= floor {
            assert(seen[n - 1].time == seen[n - 1].time);
        }
    }
}

/// Of the pictures in a window, none differs more from the one before it than
/// the one a scene is said to start on, and none before that one as much.
#[verifier::spinoff_prover]
#[verifier::rlimit(60)]
pub proof fn law_the_strongest_cut_is_picked(seen: Seq<Sighting>, n: int, i: int)
    requires
        2 <= n <= seen.len(),
        0 < i < n,
    ensures
        ({
            let k = strongest_of(seen, n);
            let there = difference(seen[k - 1].sig@, seen[k].sig@);
            let here = difference(seen[i - 1].sig@, seen[i].sig@);
            0 < k < n && here <= there && (i < k ==> here < there)
        }),
    decreases n,
{
    if n > 2 {
        if i < n - 1 {
            law_the_strongest_cut_is_picked(seen, n - 1, i);
        } else {
            law_the_strongest_cut_is_picked(seen, n - 1, 1);
            let best = strongest_of(seen, n - 1);
            if step(seen, n - 1) > step(seen, best) {
            }
        }
    }
}

/// The scenes are the pictures whose difference reaches the bar, every one of
/// them, in order.
pub proof fn law_every_difference_over_the_bar_is_a_scene(diffs: Seq<(i64, i64)>, bar: int)
    ensures
        marked(diffs, bar) == diffs.filter(|d: (i64, i64)| d.1 >= bar).map_values(
            |d: (i64, i64)| d.0,
        ),
    decreases diffs.len(),
{
    reveal(Seq::filter);
    let over = |d: (i64, i64)| d.1 >= bar;
    let when = |d: (i64, i64)| d.0;
    if diffs.len() > 0 {
        law_every_difference_over_the_bar_is_a_scene(diffs.drop_last(), bar);
        let less = diffs.drop_last().filter(over);
        assert(less.push(diffs.last()).map_values(when) =~= less.map_values(when).push(
            diffs.last().0,
        ));
    }
    assert(marked(diffs, bar) =~= diffs.filter(over).map_values(when));
}

proof fn lemma_reaching(sizes: Seq<i64>, least: int)
    ensures
        reaching(sizes, least) == sizes.filter(|d: i64| d >= least).len(),
    decreases sizes.len(),
{
    reveal(Seq::filter);
    if sizes.len() > 0 {
        lemma_reaching(sizes.drop_last(), least);
    }
}

/// The bar is so many times the middle difference, or the floor where that is
/// more; and it stays there as long as no more pictures reach it than there is
/// room for at the spacing asked. `typical` is the middle one, and `cap` how
/// often the spacing goes into the recording.
#[verifier::spinoff_prover]
#[verifier::rlimit(40)]
pub proof fn law_the_bar_is_over_the_typical_difference(
    sizes: Seq<i64>,
    duration: int,
    opts: ThumbOptions,
    typical: int,
    cap: int,
    first: int,
)
    requires
        sizes.len() > 0,
        stands(sizes, (sizes.len() / 2) as int, typical),
        0 <= typical,
        0 < opts.min_spacing,
        cap * opts.min_spacing <= duration < (cap + 1) * opts.min_spacing || (cap == 1 && duration
            < opts.min_spacing),
        1 <= cap,
        first == (if typical * opts.over_typical / 1_000_000 >= opts.floor {
            typical * opts.over_typical / 1_000_000
        } else {
            opts.floor as int
        }),
    ensures
        sizes.filter(|d: i64| d >= first).len() <= cap ==> bar(sizes, duration, opts) == first,
        sizes.filter(|d: i64| d >= first).len() > cap ==> bar(sizes, duration, opts) > first,
        sizes.filter(|d: i64| d >= bar(sizes, duration, opts)).len() <= cap,
{
    let k = (sizes.len() / 2) as int;
    lemma_at_place(sizes, k);
    law_one_value_stands_at_a_place(sizes, k, typical, at_place(sizes, k));
    assert(first_bar(sizes, opts) == first);
    let s = opts.min_spacing as int;
    if duration >= s {
        assert(duration / s == cap) by {
            assert((cap + 1) * s == cap * s + s) by (nonlinear_arith);
            vstd::arithmetic::div_mod::lemma_fundamental_div_mod_converse(
                duration,
                s,
                cap,
                duration - cap * s,
            );
        }
    } else {
        assert(cap == 1) by (nonlinear_arith)
            requires
                cap * s <= duration || cap == 1,
                duration < s,
                1 <= cap,
                0 < s,
        ;
    }
    assert(most_scenes(duration, s) == Some(cap));
    lemma_reaching(sizes, first);
    lemma_reaching(sizes, bar(sizes, duration, opts));
    let diffs = sizes.map_values(|d: i64| (0i64, d));
    assert(crate::thumbs::collect::sizes(diffs) =~= sizes);
    crate::thumbs::collect::law_scenes_are_not_nearer_than_asked(diffs, duration, opts);
    law_every_difference_over_the_bar_is_a_scene(diffs, bar(sizes, duration, opts));
    crate::thumbs::collect::law_the_bar_is_raised_no_further(sizes, duration, opts);
    lemma_marked_len(diffs, bar(sizes, duration, opts));
    if sizes.filter(|d: i64| d >= first).len() > cap && bar(sizes, duration, opts) == first {
        assert(false);
    }
}

proof fn lemma_marked_len(diffs: Seq<(i64, i64)>, least: int)
    ensures
        marked(diffs, least).len() == reaching(sizes(diffs), least),
    decreases diffs.len(),
{
    if diffs.len() > 0 {
        lemma_marked_len(diffs.drop_last(), least);
        assert(sizes(diffs).drop_last() =~= sizes(diffs.drop_last()));
        assert(sizes(diffs).last() == diffs.last().1);
    }
}

/// A sighting goes behind all that are not later and before all that are, so
/// that what was in order stays so.
pub proof fn law_a_sighting_goes_in_its_place(seen: Seq<Sighting>, time: int, n: int, k: int)
    requires
        forall|i: int, j: int|
            0 <= i <= j < seen.len() ==> (#[trigger] seen[i]).time <= (#[trigger] seen[j]).time,
        0 <= n <= seen.len(),
    ensures
        0 <= goes_at(seen, time, n) <= n,
        0 <= k < goes_at(seen, time, n) ==> seen[k].time <= time,
        goes_at(seen, time, n) <= k < n ==> seen[k].time > time,
    decreases n,
{
    if n > 0 && seen[n - 1].time > time {
        law_a_sighting_goes_in_its_place(seen, time, n - 1, k);
    }
}

/// Looking for a cut starts at the last entry point before the stretch; at the
/// start of the file where there is none.
pub proof fn law_looking_starts_at_the_last_entry(
    points: Seq<AccessPoint>,
    twice: int,
    n: int,
    k: int,
)
    requires
        forall|i: int, j: int|
            0 <= i <= j < points.len() ==> (#[trigger] points[i]).time <= (
            #[trigger] points[j]).time,
        0 <= n <= points.len(),
    ensures
        0 <= k < n && 2 * points[k].time < twice ==> points[k].time <= entered_before(
            points,
            twice,
            n,
        ) && 2 * entered_before(points, twice, n) < twice,
        (forall|j: int| 0 <= j < n ==> 2 * (#[trigger] points[j]).time >= twice)
            ==> entered_before(points, twice, n) == 0,
    decreases n,
{
    if n > 0 && 2 * points[n - 1].time >= twice {
        law_looking_starts_at_the_last_entry(points, twice, n - 1, k);
    }
}

} // verus!
