//! That the stretches reported are the ones the logo is missing from, every one
//! of them.
use crate::logo::watch::{
    begun, brief_ones, every_gone, found, is_brief, is_long, long_ones, since, watched, watched_to,
    Gone, Watch,
};
use crate::logo::LogoOptions;
use crate::rank::in_order;
use crate::time::in_reach;
use vstd::prelude::*;

verus! {

/// What a line of scores is read by.
pub struct Line {
    pub times: Seq<i64>,
    pub scores: Seq<i64>,
    pub present_t: int,
    pub absent_t: int,
    pub opts: LogoOptions,
}

impl Line {
    /// Whether the scores are each of a moment, in order of time, and the logo
    /// is not gone where it is there.
    pub open spec fn sound(self) -> bool {
        &&& self.times.len() == self.scores.len()
        &&& in_order(self.times)
        &&& forall|i: int| 0 <= i < self.times.len() ==> in_reach(#[trigger] self.times[i] as int)
        &&& self.absent_t <= self.present_t
        &&& 0 <= self.opts.window_seconds
        &&& in_reach(self.opts.window_seconds as int)
    }

    /// The scores from one place up to another, that one not with them, are of
    /// a logo that is up.
    pub open spec fn up(self, from: int, to: int) -> bool {
        forall|i: int| from <= i < to ==> (#[trigger] self.scores[i]) >= self.present_t
    }

    /// No return of the logo between two places is held for long enough to be
    /// one.
    pub open spec fn never_held(self, from: int, to: int) -> bool {
        forall|r: int, y: int|
            from <= r <= y < to && self.up(r, y + 1) ==> (#[trigger] self.times[y]) - (
            #[trigger] self.times[r]) < self.opts.min_present
    }

    /// How far the reading has come.
    spec fn at(self, n: int) -> Watch {
        watched_to(self.times, self.scores, self.present_t, self.absent_t, self.opts, n)
    }
}

/// What always holds of a reading.
spec fn steady(c: Line, n: int) -> bool {
    let w = c.at(n);
    &&& w.present ==> !w.at_head
    &&& !w.present ==> w.going is None
    &&& !w.present && w.back is Some ==> n > 0 && w.back->0 <= c.times[n - 1]
}

proof fn lemma_steady(c: Line, n: int)
    requires
        c.sound(),
        0 <= n <= c.times.len(),
    ensures
        steady(c, n),
    decreases n,
{
    if n > 0 {
        lemma_steady(c, n - 1);
        if n > 1 {
            assert(c.times[n - 2] <= c.times[n - 1]);
        }
    }
}

/// A logo that was up for long enough is taken to be up.
#[verifier::spinoff_prover]
#[verifier::rlimit(60)]
proof fn lemma_up(c: Line, i: int, k: int)
    requires
        c.sound(),
        0 <= i < k <= c.times.len(),
        c.up(i, k),
    ensures
        ({
            let w = c.at(k);
            &&& w.present ==> w.going is None
            &&& !w.present ==> w.back is Some && w.back->0 <= c.times[i] && c.times[k - 1]
                - w.back->0 < c.opts.min_present
        }),
    decreases k,
{
    lemma_steady(c, k - 1);
    let w = c.at(k - 1);
    assert(c.scores[k - 1] >= c.present_t);
    assert(c.at(k) == watched(
        w,
        c.times[k - 1],
        c.scores[k - 1] as int,
        c.present_t,
        c.absent_t,
        c.opts,
    ));
    if i < k - 1 {
        lemma_up(c, i, k - 1);
        assert(c.times[i] <= c.times[k - 1]);
    } else if k > 1 {
        assert(c.times[k - 2] <= c.times[k - 1]);
    }
}

/// A score that falls off and has not gone yet.
proof fn lemma_falling(c: Line, i: int, g: int, k: int)
    requires
        c.sound(),
        0 <= i < g <= k <= c.times.len(),
        c.up(i, g),
        c.times[g - 1] - c.times[i] >= c.opts.min_present,
        forall|j: int| g <= j < k ==> c.absent_t <= (#[trigger] c.scores[j]) < c.present_t,
    ensures
        c.at(k).present,
        k == g ==> c.at(k).going is None,
        k > g ==> c.at(k).going == Some(c.times[g]),
    decreases k,
{
    if k == g {
        lemma_up(c, i, g);
    } else {
        lemma_falling(c, i, g, k - 1);
        assert(c.absent_t <= c.scores[k - 1] < c.present_t);
    }
}

/// Where a stretch without the logo starts: where the score fell off, and no
/// further back than the window from where it was gone.
pub open spec fn gone_from(c: Line, fell: int, gone: int) -> int {
    let low = c.times[gone] - c.opts.window_seconds;
    if c.times[fell] >= low {
        c.times[fell] as int
    } else {
        low
    }
}

#[verifier::spinoff_prover]
#[verifier::rlimit(60)]
proof fn lemma_gone(c: Line, i: int, g: int, d: int)
    requires
        c.sound(),
        0 <= i < g <= d < c.times.len(),
        c.up(i, g),
        c.times[g - 1] - c.times[i] >= c.opts.min_present,
        forall|j: int| g <= j < d ==> c.absent_t <= (#[trigger] c.scores[j]) < c.present_t,
        c.scores[d] < c.absent_t,
    ensures
        ({
            let w = c.at(d + 1);
            &&& !w.present && !w.at_head && w.back is None
            &&& w.from == gone_from(c, g, d)
        }),
{
    lemma_falling(c, i, g, d);
    lemma_steady(c, d);
    assert(in_reach(c.times[d] as int) && in_reach(c.times[g] as int));
    assert(c.at(d + 1) == watched(
        c.at(d),
        c.times[d],
        c.scores[d] as int,
        c.present_t,
        c.absent_t,
        c.opts,
    ));
}

/// Whether a reading has not moved on from a stretch without the logo.
spec fn still_gone(c: Line, k: int, f: int, w: Watch) -> bool {
    let now = c.at(k);
    &&& !now.present
    &&& now.from == w.from
    &&& now.at_head == w.at_head
    &&& now.absent == w.absent
    &&& now.back is None ==> k == f || c.scores[k - 1] < c.present_t
    &&& now.back is Some ==> exists|r: int| returned_at(c, f, r, k, now.back->0)
}

/// Whether the logo has been back since one place, at the moment of that.
spec fn returned_at(c: Line, f: int, r: int, k: int, x: i64) -> bool {
    f <= r < k && c.times[r] == x && c.up(r, k) && (r == f || c.scores[r - 1] < c.present_t)
}

#[verifier::spinoff_prover]
#[verifier::rlimit(60)]
proof fn lemma_still_gone(c: Line, f: int, k: int)
    requires
        c.sound(),
        0 <= f <= k <= c.times.len(),
        !c.at(f).present,
        c.at(f).back is None,
        c.never_held(f, k),
    ensures
        still_gone(c, k, f, c.at(f)),
    decreases k - f,
{
    if f < k {
        lemma_still_gone(c, f, k - 1);
        let w = c.at(k - 1);
        let (t, s) = (c.times[k - 1], c.scores[k - 1] as int);
        let now = watched(w, t, s, c.present_t, c.absent_t, c.opts);
        assert(c.at(k) == now);
        if s >= c.present_t {
            let r = if w.back is Some {
                let before = k - 1;
                let r = choose|r: int| returned_at(c, f, r, before, w.back->0);
                assert(c.up(r, k));
                r
            } else {
                assert(c.up(k - 1, k));
                k - 1
            };
            assert(c.times[k - 1] - c.times[r] < c.opts.min_present);
            assert(now.back == Some(since(w.back, t)));
            assert(returned_at(c, f, r, k, c.at(k).back->0));
        }
    }
}

/// What is left once the logo has been back for long enough.
spec fn back_again(c: Line, k: int, b: int, w: Watch) -> bool {
    let now = c.at(k);
    ||| !now.present && now.from == w.from && now.at_head == w.at_head && now.absent == w.absent
        && now.back == Some(c.times[b]) && c.times[k - 1] - c.times[b] < c.opts.min_present
    ||| now.present && now.absent == w.absent.push((w.from, c.times[b], w.at_head))
}

#[verifier::spinoff_prover]
#[verifier::rlimit(60)]
proof fn lemma_back_again(c: Line, f: int, b: int, k: int)
    requires
        c.sound(),
        0 <= f <= b < k <= c.times.len(),
        !c.at(f).present,
        c.at(f).back is None,
        c.never_held(f, b),
        b == f || c.scores[b - 1] < c.present_t,
        c.up(b, k),
    ensures
        back_again(c, k, b, c.at(f)),
    decreases k - b,
{
    let w = c.at(k - 1);
    let (t, s) = (c.times[k - 1], c.scores[k - 1] as int);
    assert(s >= c.present_t);
    assert(c.at(k) == watched(w, t, s, c.present_t, c.absent_t, c.opts));
    if b + 1 < k {
        lemma_back_again(c, f, b, k - 1);
    } else {
        lemma_still_gone(c, f, b);
        if w.back is Some {
            let r = choose|r: int| returned_at(c, f, r, b, w.back->0);
            assert(c.scores[b - 1] >= c.present_t);
        }
    }
}

/// A stretch once told is told for good.
proof fn lemma_told_for_good(c: Line, k: int, n: int, i: int)
    requires
        0 <= k <= n,
        0 <= i < c.at(k).absent.len(),
    ensures
        i < c.at(n).absent.len(),
        c.at(n).absent[i] == c.at(k).absent[i],
    decreases n - k,
{
    if k < n {
        lemma_told_for_good(c, k, n - 1, i);
    }
}

/// A stretch is reported by how long it is.
#[verifier::spinoff_prover]
#[verifier::rlimit(60)]
proof fn lemma_reported(all: Seq<Gone>, opts: LogoOptions, i: int)
    requires
        0 <= i < all.len(),
    ensures
        is_long(all[i], opts) ==> long_ones(all, opts).contains((all[i].0, all[i].1)),
        is_brief(all[i], opts) ==> brief_ones(all, opts).contains((all[i].0, all[i].1)),
    decreases all.len(),
{
    let less = all.drop_last();
    let (a, b) = (long_ones(all, opts), brief_ones(all, opts));
    let (x, y) = (long_ones(less, opts), brief_ones(less, opts));
    let one = (all[i].0, all[i].1);
    if i < all.len() - 1 {
        lemma_reported(less, opts, i);
        if is_long(all[i], opts) {
            let k = choose|k: int| 0 <= k < x.len() && x[k] == one;
            assert(a[k] == one);
        }
        if is_brief(all[i], opts) {
            let k = choose|k: int| 0 <= k < y.len() && y[k] == one;
            assert(b[k] == one);
        }
    } else {
        if is_long(all[i], opts) {
            assert(a[a.len() - 1] == one);
        }
        if is_brief(all[i], opts) {
            assert(b[b.len() - 1] == one);
        }
    }
}

/// What is reported of a stretch: it is a break where it is long enough for
/// one, and brief where it is not and no flicker either.
pub open spec fn reported(c: Line, from: int, to: int, least: int) -> bool {
    let f = found(c.times, c.scores, c.present_t, c.absent_t, c.opts);
    let one = (from as i64, to as i64);
    &&& to - from >= least ==> f.absent.contains(one)
    &&& c.opts.min_insert <= to - from < least ==> f.brief.contains(one)
}

/// Every absence is reported, however long it is. The logo is up from `i` on
/// for long enough to count; its score falls off at `g` and is gone at `d`;
/// it is back at `b` and stays for long enough to count, and no return between
/// was held so long. Then the stretch from where it fell off, or the window
/// before where it was gone if that is later, to where it came back is a break
/// where it is as long as one has to be, and brief where it is not and is still
/// no flicker.
#[verifier::spinoff_prover]
#[verifier::rlimit(60)]
pub proof fn law_every_absence_is_reported(c: Line, i: int, g: int, d: int, b: int, e: int)
    requires
        c.sound(),
        0 <= i < g <= d < b <= e < c.times.len(),
        c.up(i, g),
        c.times[g - 1] - c.times[i] >= c.opts.min_present,
        forall|j: int| g <= j < d ==> c.absent_t <= (#[trigger] c.scores[j]) < c.present_t,
        c.scores[d] < c.absent_t,
        c.never_held(d + 1, b),
        c.scores[b - 1] < c.present_t,
        c.up(b, e + 1),
        c.times[e] - c.times[b] >= c.opts.min_present,
    ensures
        reported(c, gone_from(c, g, d), c.times[b] as int, c.opts.min_absent as int),
{
    let n = c.times.len() as int;
    lemma_gone(c, i, g, d);
    lemma_back_again(c, d + 1, b, e + 1);
    let w = c.at(d + 1);
    let one: Gone = (w.from, c.times[b], false);
    assert(c.at(e + 1).absent == w.absent.push(one));
    let k = w.absent.len() as int;
    assert(c.at(e + 1).absent[k] == one);
    lemma_told_for_good(c, e + 1, n, k);
    let all = every_gone(c.at(n), c.times);
    assert(all[k] == one);
    lemma_reported(all, c.opts, k);
}

/// A recording that opens without the logo is reported as far as it is without
/// it, by the length asked of an end of the recording.
#[verifier::spinoff_prover]
#[verifier::rlimit(60)]
pub proof fn law_an_absence_at_the_head_is_reported(c: Line, b: int, e: int)
    requires
        c.sound(),
        0 < b <= e < c.times.len(),
        c.scores[0] < c.present_t,
        c.never_held(0, b),
        c.scores[b - 1] < c.present_t,
        c.up(b, e + 1),
        c.times[e] - c.times[b] >= c.opts.min_present,
    ensures
        reported(c, c.times[0] as int, c.times[b] as int, c.opts.min_edge_absent as int),
{
    let n = c.times.len() as int;
    let w = c.at(0);
    assert(w == begun(c.times, c.scores, c.present_t));
    lemma_back_again(c, 0, b, e + 1);
    let one: Gone = (c.times[0], c.times[b], true);
    assert(c.at(e + 1).absent == w.absent.push(one));
    assert(c.at(e + 1).absent[0] == one);
    lemma_told_for_good(c, e + 1, n, 0);
    let all = every_gone(c.at(n), c.times);
    assert(all[0] == one);
    lemma_reported(all, c.opts, 0);
}

/// And so is one that closes without it.
#[verifier::spinoff_prover]
#[verifier::rlimit(60)]
pub proof fn law_an_absence_at_the_end_is_reported(c: Line, i: int, g: int, d: int)
    requires
        c.sound(),
        0 <= i < g <= d < c.times.len(),
        c.up(i, g),
        c.times[g - 1] - c.times[i] >= c.opts.min_present,
        forall|j: int| g <= j < d ==> c.absent_t <= (#[trigger] c.scores[j]) < c.present_t,
        c.scores[d] < c.absent_t,
        c.never_held(d + 1, c.times.len() as int),
    ensures
        reported(
            c,
            gone_from(c, g, d),
            c.times[c.times.len() - 1] as int,
            c.opts.min_edge_absent as int,
        ),
{
    let n = c.times.len() as int;
    lemma_gone(c, i, g, d);
    lemma_still_gone(c, d + 1, n);
    let w = c.at(n);
    let all = every_gone(w, c.times);
    let k = w.absent.len() as int;
    assert(all[k] == (w.from, c.times[n - 1], true));
    lemma_reported(all, c.opts, k);
}

/// Where the logo is up from end to end nothing is reported, and nothing
/// changes.
pub proof fn law_nothing_is_missing_where_the_logo_stays_up(c: Line)
    requires
        c.sound(),
        c.scores.len() > 0,
        c.scores[0] >= c.present_t,
        forall|i: int| 0 <= i < c.scores.len() ==> (#[trigger] c.scores[i]) >= c.absent_t,
    ensures
        ({
            let f = found(c.times, c.scores, c.present_t, c.absent_t, c.opts);
            f.absent.len() == 0 && f.brief.len() == 0 && f.transitions == 0
        }),
{
    lemma_stays(c, c.scores.len() as int);
}

proof fn lemma_stays(c: Line, n: int)
    requires
        c.sound(),
        0 <= n <= c.scores.len(),
        c.scores.len() > 0,
        c.scores[0] >= c.present_t,
        forall|i: int| 0 <= i < c.scores.len() ==> (#[trigger] c.scores[i]) >= c.absent_t,
    ensures
        c.at(n).present,
        c.at(n).absent.len() == 0,
        c.at(n).transitions == 0,
    decreases n,
{
    if n > 0 {
        lemma_stays(c, n - 1);
        assert(c.scores[n - 1] >= c.absent_t);
    }
}

/// Whether the logo was missing from one moment to another: gone at `d`, or not
/// there yet where that is the first score; back at `b`, or at the end where
/// that is the last; and not back for long enough to count between.
pub open spec fn was_missing(c: Line, from: i64, to: i64, d: int, b: int) -> bool {
    &&& 0 <= d <= b < c.times.len()
    &&& c.scores[d] < c.absent_t || (d == 0 && c.scores[0] < c.present_t && from == c.times[0])
    &&& c.times[d] - c.opts.window_seconds <= from <= c.times[d]
    &&& to == c.times[b]
    &&& c.scores[b] >= c.present_t || b == c.times.len() - 1
    &&& c.never_held(d, b)
}

/// Whether a stretch runs off an end of the recording.
pub open spec fn at_an_end(c: Line, from: i64, to: i64) -> bool {
    from == c.times[0] || to == c.times[c.times.len() - 1]
}

/// Whether a reading has been without the logo since one place.
spec fn gone_since(c: Line, n: int, d: int) -> bool {
    let w = c.at(n);
    &&& 0 <= d < c.times.len()
    &&& d < n || d == 0
    &&& c.scores[d] < c.absent_t || (d == 0 && c.scores[0] < c.present_t && w.from == c.times[0])
    &&& c.times[d] - c.opts.window_seconds <= w.from <= c.times[d]
    &&& forall|k: int| d < k <= n ==> !(#[trigger] c.at(k)).present
    &&& w.at_head ==> w.from == c.times[0]
    &&& w.back is Some ==> exists|b: int| came_back(c, w.back->0, d, b, n)
}

spec fn came_back(c: Line, x: i64, d: int, b: int, n: int) -> bool {
    d < b < n && c.times[b] == x && c.scores[b] >= c.present_t
}

/// Whether a stretch was told for a reason.
spec fn told_by(c: Line, g: Gone, d: int, b: int, n: int) -> bool {
    &&& 0 <= d < b < n
    &&& c.scores[d] < c.absent_t || (d == 0 && c.scores[0] < c.present_t && g.0 == c.times[0])
    &&& c.times[d] - c.opts.window_seconds <= g.0 <= c.times[d]
    &&& g.1 == c.times[b]
    &&& c.scores[b] >= c.present_t
    &&& forall|k: int| d < k <= b ==> !(#[trigger] c.at(k)).present
    &&& g.2 ==> g.0 == c.times[0]
}

spec fn told(c: Line, g: Gone, n: int) -> bool {
    exists|d: int, b: int| told_by(c, g, d, b, n)
}

spec fn all_told(c: Line, n: int) -> bool {
    &&& forall|i: int| 0 <= i < c.at(n).absent.len() ==> told(c, #[trigger] c.at(n).absent[i], n)
    &&& !c.at(n).present ==> exists|d: int| gone_since(c, n, d)
    &&& c.at(n).present && c.at(n).going is Some ==> n > 0 && c.at(n).going->0 <= c.times[n - 1]
}

#[verifier::spinoff_prover]
#[verifier::rlimit(40)]
proof fn lemma_all_told(c: Line, n: int)
    requires
        c.sound(),
        0 <= n <= c.times.len(),
        c.times.len() > 0,
    ensures
        all_told(c, n),
    decreases n,
{
    if n == 0 {
        if !c.at(0).present {
            assert(gone_since(c, 0, 0));
        }
    } else {
        let m = n - 1;
        lemma_all_told(c, m);
        lemma_steady(c, m);
        let (was, now) = (c.at(m), c.at(n));
        let (t, s) = (c.times[m], c.scores[m] as int);
        assert(now == watched(was, t, s, c.present_t, c.absent_t, c.opts));
        assert(in_reach(t as int));
        if m > 0 {
            assert(c.times[m - 1] <= c.times[m]);
        }
        assert forall|i: int| 0 <= i < was.absent.len() implies told(
            c,
            #[trigger] was.absent[i],
            n,
        ) by {
            assert(told(c, was.absent[i], m));
            let (d, b) = choose|d: int, b: int| told_by(c, was.absent[i], d, b, m);
            assert(told_by(c, was.absent[i], d, b, n));
        }
        if was.present {
            if !now.present {
                assert(gone_since(c, n, m));
            }
            assert(c.at(n).absent == was.absent);
            assert(now.present && now.going is Some ==> now.going->0 <= t);
        } else {
            let d = choose|d: int| gone_since(c, m, d);
            if now.present {
                let x = since(was.back, t);
                let b = if was.back is Some {
                    choose|b: int| came_back(c, was.back->0, d, b, m)
                } else {
                    m
                };
                let one: Gone = (was.from, x, was.at_head);
                assert(now.absent == was.absent.push(one));
                assert(d < b) by {
                    if b == m {
                        assert(c.scores[d] < c.present_t);
                    }
                }
                assert(told_by(c, one, d, b, n));
                assert forall|i: int| 0 <= i < now.absent.len() implies told(
                    c,
                    #[trigger] now.absent[i],
                    n,
                ) by {
                    if i < was.absent.len() {
                        assert(now.absent[i] == was.absent[i]);
                    } else {
                        assert(now.absent[i] == one);
                        assert(told_by(c, now.absent[i], d, b, n));
                    }
                }
            } else {
                assert(now.absent == was.absent);
                if now.back is Some {
                    let b = if was.back is Some {
                        choose|b: int| came_back(c, was.back->0, d, b, m)
                    } else {
                        m
                    };
                    assert(c.scores[d] < c.present_t && s >= c.present_t);
                    assert(came_back(c, now.back->0, d, b, n));
                }
                assert(gone_since(c, n, d));
            }
        }
    }
}

/// Where a reading never took the logo to be up, it was never up for long
/// enough.
proof fn lemma_never_held(c: Line, d: int, b: int)
    requires
        c.sound(),
        0 <= d <= b < c.times.len(),
        c.scores[d] < c.present_t,
        forall|k: int| d < k <= b ==> !(#[trigger] c.at(k)).present,
    ensures
        c.never_held(d, b),
{
    assert forall|r: int, y: int| d <= r <= y < b && c.up(r, y + 1) implies (
    #[trigger] c.times[y]) - (#[trigger] c.times[r]) < c.opts.min_present by {
        lemma_up(c, r, y + 1);
        assert(!c.at(y + 1).present);
    }
}

/// What is reported is one of the stretches told, and of the right length.
#[verifier::spinoff_prover]
#[verifier::rlimit(60)]
proof fn lemma_reported_is_told(all: Seq<Gone>, opts: LogoOptions, k: int)
    ensures
        0 <= k < long_ones(all, opts).len() ==> exists|i: int|
            0 <= i < all.len() && is_long(#[trigger] all[i], opts) && long_ones(all, opts)[k] == (
                all[i].0,
                all[i].1,
            ),
        0 <= k < brief_ones(all, opts).len() ==> exists|i: int|
            0 <= i < all.len() && is_brief(#[trigger] all[i], opts) && brief_ones(all, opts)[k] == (
                all[i].0,
                all[i].1,
            ),
    decreases all.len(),
{
    if all.len() > 0 {
        let less = all.drop_last();
        lemma_reported_is_told(less, opts, k);
        let (a, b) = (long_ones(less, opts), brief_ones(less, opts));
        if 0 <= k < a.len() {
            let i = choose|i: int|
                0 <= i < less.len() && is_long(#[trigger] less[i], opts) && a[k] == (
                    less[i].0,
                    less[i].1,
                );
            assert(all[i] == less[i]);
        } else if k == a.len() && k < long_ones(all, opts).len() {
            assert(is_long(all[all.len() - 1], opts));
        }
        if 0 <= k < b.len() {
            let i = choose|i: int|
                0 <= i < less.len() && is_brief(#[trigger] less[i], opts) && b[k] == (
                    less[i].0,
                    less[i].1,
                );
            assert(all[i] == less[i]);
        } else if k == b.len() && k < brief_ones(all, opts).len() {
            assert(is_brief(all[all.len() - 1], opts));
        }
    }
}

/// Nothing is reported that was not missing, and each stretch stands where its
/// length puts it. One that is reported as a break is as long as one has to be;
/// one that is reported as brief is not, and is no flicker. The length asked of
/// an end of the recording counts only for a stretch that runs off one.
#[verifier::spinoff_prover]
#[verifier::rlimit(40)]
pub proof fn law_nothing_else_is_reported(c: Line, k: int)
    requires
        c.sound(),
    ensures
        ({
            let f = found(c.times, c.scores, c.present_t, c.absent_t, c.opts);
            &&& 0 <= k < f.absent.len() ==> {
                let s = f.absent[k];
                &&& exists|d: int, b: int| was_missing(c, s.0, s.1, d, b)
                &&& s.1 - s.0 >= c.opts.min_absent || (at_an_end(c, s.0, s.1) && s.1 - s.0
                    >= c.opts.min_edge_absent)
            }
            &&& 0 <= k < f.brief.len() ==> {
                let s = f.brief[k];
                &&& exists|d: int, b: int| was_missing(c, s.0, s.1, d, b)
                &&& s.1 - s.0 >= c.opts.min_insert
                &&& s.1 - s.0 < c.opts.min_absent || (at_an_end(c, s.0, s.1) && s.1 - s.0
                    < c.opts.min_edge_absent)
            }
        }),
{
    let n = c.times.len() as int;
    let w = c.at(n);
    let all = every_gone(w, c.times);
    lemma_reported_is_told(all, c.opts, k);
    if n > 0 {
        lemma_all_told(c, n);
        assert forall|i: int| 0 <= i < all.len() implies (exists|d: int, b: int|
            was_missing(c, (#[trigger] all[i]).0, all[i].1, d, b)) && (all[i].2 ==> at_an_end(
            c,
            all[i].0,
            all[i].1,
        )) by {
            if i < w.absent.len() {
                assert(all[i] == w.absent[i]);
                assert(told(c, w.absent[i], n));
                let (d, b) = choose|d: int, b: int| told_by(c, w.absent[i], d, b, n);
                lemma_never_held(c, d, b);
                assert(was_missing(c, all[i].0, all[i].1, d, b));
            } else {
                let d = choose|d: int| gone_since(c, n, d);
                lemma_never_held(c, d, n - 1);
                assert(was_missing(c, all[i].0, all[i].1, d, n - 1));
            }
        }
    }
}

/// How often the state changed does not depend on how long a stretch has to be
/// to be reported; and it is twice for each stretch, less the change that is
/// before the first score or behind the last.
#[verifier::spinoff_prover]
#[verifier::rlimit(60)]
pub proof fn law_every_absence_is_two_changes(c: Line, other: LogoOptions)
    requires
        c.sound(),
        c.scores.len() > 0,
        c.opts.min_absent == i64::MIN,
        c.opts.min_edge_absent == i64::MIN,
        other.min_present == c.opts.min_present,
        other.window_seconds == c.opts.window_seconds,
    ensures
        ({
            let f = found(c.times, c.scores, c.present_t, c.absent_t, c.opts);
            let first: int = if c.scores[0] < c.present_t {
                1
            } else {
                0
            };
            &&& found(c.times, c.scores, c.present_t, c.absent_t, other).transitions
                == f.transitions
            &&& f.transitions + first == 2 * f.absent.len() || f.transitions + first == 2
                * f.absent.len() - 1
        }),
{
    let n = c.scores.len() as int;
    lemma_changes(c, other, n);
    let w = c.at(n);
    let all = every_gone(w, c.times);
    lemma_all_told(c, n);
    assert forall|i: int| 0 <= i < all.len() implies (#[trigger] all[i]).1 - all[i].0
        >= i64::MIN by {
        if i < w.absent.len() {
            assert(all[i] == w.absent[i]);
            assert(told(c, w.absent[i], n));
            let (d, b) = choose|d: int, b: int| told_by(c, w.absent[i], d, b, n);
            assert(in_reach(c.times[d] as int) && in_reach(c.times[b] as int));
        } else {
            let d = choose|d: int| gone_since(c, n, d);
            assert(in_reach(c.times[d] as int) && in_reach(c.times[n - 1] as int));
        }
    }
    lemma_all_long(all, c.opts);
}

#[verifier::spinoff_prover]
#[verifier::rlimit(60)]
proof fn lemma_changes(c: Line, other: LogoOptions, n: int)
    requires
        0 <= n,
        other.min_present == c.opts.min_present,
        other.window_seconds == c.opts.window_seconds,
    ensures
        watched_to(c.times, c.scores, c.present_t, c.absent_t, other, n) == c.at(n),
        ({
            let w = c.at(n);
            let first: int = if c.at(0).present {
                0
            } else {
                1
            };
            let now: int = if w.present {
                0
            } else {
                1
            };
            w.transitions == 2 * w.absent.len() + now - first
        }),
    decreases n,
{
    if n > 0 {
        lemma_changes(c, other, n - 1);
    }
}

proof fn lemma_all_long(all: Seq<Gone>, opts: LogoOptions)
    requires
        opts.min_absent == i64::MIN,
        opts.min_edge_absent == i64::MIN,
    ensures
        long_ones(all, opts).len() <= all.len(),
        (forall|i: int| 0 <= i < all.len() ==> (#[trigger] all[i]).1 - all[i].0 >= i64::MIN)
            ==> long_ones(all, opts).len() == all.len(),
    decreases all.len(),
{
    if all.len() > 0 {
        let less = all.drop_last();
        lemma_all_long(less, opts);
        if forall|i: int| 0 <= i < all.len() ==> (#[trigger] all[i]).1 - all[i].0 >= i64::MIN {
            assert forall|i: int| 0 <= i < less.len() implies (#[trigger] less[i]).1 - less[i].0
                >= i64::MIN by {
                assert(all[i].1 - all[i].0 >= i64::MIN);
            }
            assert(all[all.len() - 1].1 - all[all.len() - 1].0 >= i64::MIN);
        }
    }
}

} // verus!
