//! The stretches where the logo is missing.
use crate::logo::LogoOptions;
use crate::time::{in_reach, later};
use vstd::prelude::*;

verus! {

/// A stretch without the logo, and whether it runs off an end of the
/// recording.
pub type Gone = (i64, i64, bool);

/// How far through the scores a reading of them has come.
pub ghost struct Watch {
    /// Whether the logo is taken to be up.
    pub present: bool,
    /// How often that has changed.
    pub transitions: int,
    /// Whether it has not been up yet.
    pub at_head: bool,
    /// While absent: when it went.
    pub from: i64,
    /// While absent: when the logo first came back, if it has been back ever
    /// since. Going absent needs one sample; coming back needs to be held.
    pub back: Option<i64>,
    /// ...and the mirror of it while present: when the score first fell off,
    /// if it has been down ever since.
    pub going: Option<i64>,
    pub absent: Seq<Gone>,
}

/// Where a reading starts: as the first score has it.
pub open spec fn begun(times: Seq<i64>, scores: Seq<i64>, present_t: int) -> Watch {
    let first = if scores.len() > 0 {
        scores[0] as int
    } else {
        0
    };
    Watch {
        present: first >= present_t,
        transitions: 0,
        at_head: first < present_t,
        from: if times.len() > 0 {
            times[0]
        } else {
            0
        },
        back: None,
        going: None,
        absent: Seq::empty(),
    }
}

/// What `first` is, or this moment where it is nothing yet.
pub open spec fn since(first: Option<i64>, t: i64) -> i64 {
    match first {
        Some(x) => x,
        None => t,
    }
}

/// One more score.
pub open spec fn watched(
    w: Watch,
    t: i64,
    s: int,
    present_t: int,
    absent_t: int,
    opts: LogoOptions,
) -> Watch {
    if w.present {
        let going = if s < present_t {
            Some(since(w.going, t))
        } else {
            None
        };
        if s < absent_t {
            Watch {
                present: false,
                transitions: w.transitions + 1,
                from: match going {
                    Some(x) => later(x as int, t - opts.window_seconds) as i64,
                    None => t,
                },
                back: None,
                going: None,
                ..w
            }
        } else {
            Watch { going, ..w }
        }
    } else if s >= present_t {
        let x = since(w.back, t);
        if t - x >= opts.min_present {
            Watch {
                present: true,
                transitions: w.transitions + 1,
                absent: w.absent.push((w.from, x, w.at_head)),
                at_head: false,
                back: None,
                ..w
            }
        } else {
            Watch { back: Some(x), ..w }
        }
    } else {
        Watch { back: None, ..w }
    }
}

/// A reading as far as the first `n` scores.
pub open spec fn watched_to(
    times: Seq<i64>,
    scores: Seq<i64>,
    present_t: int,
    absent_t: int,
    opts: LogoOptions,
    n: int,
) -> Watch
    decreases n,
{
    if n <= 0 {
        begun(times, scores, present_t)
    } else {
        watched(
            watched_to(times, scores, present_t, absent_t, opts, n - 1),
            times[n - 1],
            scores[n - 1] as int,
            present_t,
            absent_t,
            opts,
        )
    }
}

/// Every stretch without the logo: those that ended, and the one that had not
/// when the recording did.
pub open spec fn every_gone(w: Watch, times: Seq<i64>) -> Seq<Gone> {
    if !w.present && times.len() > 0 {
        w.absent.push((w.from, times.last(), true))
    } else {
        w.absent
    }
}

/// Whether a stretch is long enough to be a break, or the recording's end.
pub open spec fn is_long(g: Gone, opts: LogoOptions) -> bool {
    g.1 - g.0 >= (if g.2 {
        opts.min_edge_absent
    } else {
        opts.min_absent
    })
}

/// Whether a stretch falls short of that, and is still no flicker.
pub open spec fn is_brief(g: Gone, opts: LogoOptions) -> bool {
    !is_long(g, opts) && g.1 - g.0 >= opts.min_insert
}

/// The long stretches.
pub open spec fn long_ones(all: Seq<Gone>, opts: LogoOptions) -> Seq<(i64, i64)>
    decreases all.len(),
{
    if all.len() == 0 {
        Seq::empty()
    } else {
        let rest = long_ones(all.drop_last(), opts);
        if is_long(all.last(), opts) {
            rest.push((all.last().0, all.last().1))
        } else {
            rest
        }
    }
}

/// The brief ones.
pub open spec fn brief_ones(all: Seq<Gone>, opts: LogoOptions) -> Seq<(i64, i64)>
    decreases all.len(),
{
    if all.len() == 0 {
        Seq::empty()
    } else {
        let rest = brief_ones(all.drop_last(), opts);
        if is_brief(all.last(), opts) {
            rest.push((all.last().0, all.last().1))
        } else {
            rest
        }
    }
}

/// The stretches without the logo, by where they start and end, the brief
/// ones beside the long ones, and how often the state changed.
#[verifier::ext_equal]
pub ghost struct Found {
    pub absent: Seq<(i64, i64)>,
    pub brief: Seq<(i64, i64)>,
    pub transitions: int,
}

/// What a line of scores says.
pub open spec fn found(
    times: Seq<i64>,
    scores: Seq<i64>,
    present_t: int,
    absent_t: int,
    opts: LogoOptions,
) -> Found {
    let w = watched_to(times, scores, present_t, absent_t, opts, scores.len() as int);
    let all = every_gone(w, times);
    Found {
        absent: long_ones(all, opts),
        brief: brief_ones(all, opts),
        transitions: w.transitions,
    }
}

/// A reading of the scores, as it goes.
struct Reading {
    present: bool,
    transitions: usize,
    at_head: bool,
    from: i64,
    back: Option<i64>,
    going: Option<i64>,
    absent: Vec<Gone>,
}

impl Reading {
    spec fn model(&self) -> Watch {
        Watch {
            present: self.present,
            transitions: self.transitions as int,
            at_head: self.at_head,
            from: self.from,
            back: self.back,
            going: self.going,
            absent: self.absent@,
        }
    }

    /// Whether the times held are ones a recording can have.
    spec fn wf(&self) -> bool {
        &&& self.back is Some ==> in_reach(self.back->0 as int)
        &&& self.going is Some ==> in_reach(self.going->0 as int)
        &&& -0x800_0000_0000_0000 <= self.from <= 0x800_0000_0000_0000
        &&& forall|k: int|
            0 <= k < self.absent@.len() ==> {
                let g: Gone = #[trigger] self.absent@[k];
                -0x800_0000_0000_0000 <= g.0 <= 0x800_0000_0000_0000 && in_reach(g.1 as int)
            }
    }

    fn take(&mut self, t: i64, s: i64, present_t: i64, absent_t: i64, opts: &LogoOptions)
        requires
            old(self).wf(),
            in_reach(t as int),
            in_reach(opts.window_seconds as int),
            old(self).transitions < usize::MAX,
        ensures
            final(self).wf(),
            final(self).model() == watched(
                old(self).model(),
                t,
                s as int,
                present_t as int,
                absent_t as int,
                *opts,
            ),
    {
        if self.present {
            if s < present_t {
                let since: i64 = match self.going {
                    Some(x) => x,
                    None => t,
                };
                self.going = Some(since);
            } else {
                self.going = None;
            }
            if s < absent_t {
                self.present = false;
                self.transitions = self.transitions + 1;
                // Back no further than the window that was averaged. What is
                // being undone is that average's lag, and a score that has
                // been sliding for half a minute -- a dark scene at the end
                // of a programme -- is not a logo that went half a minute
                // ago. Past the window the correction would be swallowing
                // programme, which is the expensive mistake.
                self.from = match self.going {
                    Some(x) => {
                        let low: i64 = t - opts.window_seconds;
                        if x >= low {
                            x
                        } else {
                            low
                        }
                    },
                    None => t,
                };
                self.going = None;
                self.back = None;
            }
        } else if s >= present_t {
            // An absence ends where the logo returned, not where the return
            // was confirmed -- the wait is only to establish that it was one.
            let since: i64 = match self.back {
                Some(x) => x,
                None => t,
            };
            if t - since >= opts.min_present {
                self.present = true;
                self.transitions = self.transitions + 1;
                self.absent.push((self.from, since, self.at_head));
                self.at_head = false;
                self.back = None;
            } else {
                self.back = Some(since);
            }
        } else {
            self.back = None;
        }
        assert(self.model().absent =~= watched(
            old(self).model(),
            t,
            s as int,
            present_t as int,
            absent_t as int,
            *opts,
        ).absent);
    }
}

/// Turn a score timeline into "logo missing" stretches, with hysteresis so a
/// single dark frame does not end the programme. Also reports how often the
/// state flipped, which is what tells a steady logo from a flickering caption.
///
/// The hysteresis is asymmetric in time as well as in level. Going absent is
/// believed at once, but a return has to be held for
/// [`LogoOptions::min_present`] before it ends the absence: inside a break the
/// correlation occasionally grazes the threshold for a frame or two on a
/// commercial that happens to resemble the template, and splitting one break
/// there produces blocks that overlap.
///
/// **An absence begins where the logo went, not where it was confirmed
/// gone.** The score is an average over the seconds behind it, so it reaches
/// the lower threshold only once most of that window is inside the break.
pub fn intervals_from(
    times: &[i64],
    scores: &[i64],
    present_t: i64,
    absent_t: i64,
    opts: &LogoOptions,
) -> (r: (Vec<(i64, i64)>, Vec<(i64, i64)>, usize))
    requires
        times@.len() == scores@.len(),
        in_reach(opts.window_seconds as int),
        forall|i: int| 0 <= i < times@.len() ==> in_reach(#[trigger] times@[i] as int),
    ensures
        (Found { absent: r.0@, brief: r.1@, transitions: r.2 as int }) == found(
            times@,
            scores@,
            present_t as int,
            absent_t as int,
            *opts,
        ),
        r.2 <= scores@.len(),
        forall|k: int|
            0 <= k < r.0@.len() ==> {
                let s: (i64, i64) = #[trigger] r.0@[k];
                -0x800_0000_0000_0000 <= s.0 <= 0x800_0000_0000_0000 && in_reach(s.1 as int)
            },
{
    let first: i64 = if scores.len() > 0 {
        scores[0]
    } else {
        0
    };
    let mut reading = Reading {
        present: first >= present_t,
        transitions: 0,
        at_head: first < present_t,
        from: if times.len() > 0 {
            times[0]
        } else {
            0
        },
        back: None,
        going: None,
        absent: Vec::new(),
    };
    assert(reading.model().absent =~= begun(times@, scores@, present_t as int).absent);
    let len: usize = scores.len();
    let mut i: usize = 0;
    while i < len
        invariant
            i <= len,
            len == scores@.len(),
            times@.len() == len,
            in_reach(opts.window_seconds as int),
            forall|k: int| 0 <= k < times@.len() ==> in_reach(#[trigger] times@[k] as int),
            reading.wf(),
            reading.transitions <= i,
            reading.model() == watched_to(
                times@,
                scores@,
                present_t as int,
                absent_t as int,
                *opts,
                i as int,
            ),
        decreases len - i,
    {
        reading.take(times[i], scores[i], present_t, absent_t, opts);
        i += 1;
    }
    let ghost w = reading.model();
    let transitions: usize = reading.transitions;
    let present: bool = reading.present;
    let from: i64 = reading.from;
    let mut all: Vec<Gone> = reading.absent;
    if !present && len > 0 {
        all.push((from, times[len - 1], true));
    }
    assert(all@ =~= every_gone(w, times@));
    let mut absent: Vec<(i64, i64)> = Vec::new();
    let mut brief: Vec<(i64, i64)> = Vec::new();
    let mut k: usize = 0;
    while k < all.len()
        invariant
            k <= all@.len(),
            absent@ == long_ones(all@.take(k as int), *opts),
            brief@ == brief_ones(all@.take(k as int), *opts),
            forall|j: int|
                0 <= j < all@.len() ==> {
                    let g: Gone = #[trigger] all@[j];
                    -0x800_0000_0000_0000 <= g.0 <= 0x800_0000_0000_0000 && in_reach(g.1 as int)
                },
            forall|j: int|
                0 <= j < absent@.len() ==> {
                    let s: (i64, i64) = #[trigger] absent@[j];
                    -0x800_0000_0000_0000 <= s.0 <= 0x800_0000_0000_0000 && in_reach(s.1 as int)
                },
        decreases all@.len() - k,
    {
        assert(all@.take(k + 1).drop_last() =~= all@.take(k as int));
        let (a, b, edge): (i64, i64, bool) = all[k];
        assert(all@[k as int] == (a, b, edge));
        let least: i64 = if edge {
            opts.min_edge_absent
        } else {
            opts.min_absent
        };
        // The short ones are handed back beside the long ones rather than
        // thrown away: a few seconds of corner with no logo in it is either a
        // channel ident dropped into the programme or the programme's own
        // caption card. See [`LogoOptions::min_insert`].
        if b - a >= least {
            absent.push((a, b));
        } else if b - a >= opts.min_insert {
            brief.push((a, b));
        }
        k += 1;
    }
    assert(all@.take(k as int) =~= all@);
    (absent, brief, transitions)
}

/// Whether stretches follow one another: each starts no later than it ends,
/// and ends no later than the next starts.
pub open spec fn follow(s: Seq<(i64, i64)>) -> bool {
    &&& forall|i: int| 0 <= i < s.len() ==> (#[trigger] s[i]).0 <= s[i].1
    &&& forall|i: int, j: int| 0 <= i < j < s.len() ==> (#[trigger] s[i]).1 <= (#[trigger] s[j]).0
}

/// Whether the stretches of a reading follow one another.
spec fn gone_follow(s: Seq<Gone>) -> bool {
    &&& forall|i: int| 0 <= i < s.len() ==> (#[trigger] s[i]).0 <= s[i].1
    &&& forall|i: int, j: int| 0 <= i < j < s.len() ==> (#[trigger] s[i]).1 <= (#[trigger] s[j]).0
}

/// Whether none of the stretches ends later than this.
spec fn gone_by(s: Seq<Gone>, t: int) -> bool {
    forall|i: int| 0 <= i < s.len() ==> (#[trigger] s[i]).1 <= t
}

/// What holds of a reading that has come as far as `now`.
spec fn settled(w: Watch, now: int) -> bool {
    &&& gone_follow(w.absent)
    &&& gone_by(w.absent, now)
    &&& !w.present ==> gone_by(w.absent, w.from as int) && w.from <= now
    &&& !w.present ==> w.going is None
    &&& !w.present && w.back is Some ==> w.from <= w.back->0 <= now
    &&& w.present && w.going is Some ==> gone_by(w.absent, w.going->0 as int) && w.going->0 <= now
}

proof fn lemma_settled(
    times: Seq<i64>,
    scores: Seq<i64>,
    present_t: int,
    absent_t: int,
    opts: LogoOptions,
    n: int,
)
    requires
        times.len() == scores.len(),
        0 < n <= times.len(),
        crate::rank::in_order(times),
        0 <= opts.window_seconds,
        in_reach(opts.window_seconds as int),
        forall|i: int| 0 <= i < times.len() ==> in_reach(#[trigger] times[i] as int),
    ensures
        settled(watched_to(times, scores, present_t, absent_t, opts, n), times[n - 1] as int),
    decreases n,
{
    let w = watched_to(times, scores, present_t, absent_t, opts, n - 1);
    if n == 1 {
        assert(w == begun(times, scores, present_t));
        assert(settled(w, times[0] as int));
    } else {
        lemma_settled(times, scores, present_t, absent_t, opts, n - 1);
        assert(times[n - 2] <= times[n - 1]);
    }
    lemma_settled_step(w, times[n - 1], scores[n - 1] as int, present_t, absent_t, opts);
}

proof fn lemma_settled_step(
    w: Watch,
    t: i64,
    s: int,
    present_t: int,
    absent_t: int,
    opts: LogoOptions,
)
    requires
        0 <= opts.window_seconds,
        in_reach(opts.window_seconds as int),
        in_reach(t as int),
        exists|before: int| before <= t && settled(w, before),
    ensures
        settled(watched(w, t, s, present_t, absent_t, opts), t as int),
{
    let before = choose|before: int| before <= t && settled(w, before);
    let after = watched(w, t, s, present_t, absent_t, opts);
    if !w.present && after.present {
        let x = since(w.back, t);
        let one: Gone = (w.from, x, w.at_head);
        assert(after.absent == w.absent.push(one));
        assert forall|i: int, j: int| 0 <= i < j < after.absent.len() implies (
        #[trigger] after.absent[i]).1 <= (#[trigger] after.absent[j]).0 by {
            if j < w.absent.len() {
                assert(w.absent[i].1 <= w.absent[j].0);
            } else {
                assert(w.absent[i].1 <= w.from);
            }
        }
        assert forall|i: int| 0 <= i < after.absent.len() implies (#[trigger] after.absent[i]).1
            <= t by {
            if i < w.absent.len() {
                assert(w.absent[i].1 <= before);
            }
        }
        assert forall|i: int| 0 <= i < after.absent.len() implies (#[trigger] after.absent[i]).0
            <= after.absent[i].1 by {
            if i < w.absent.len() {
                assert(w.absent[i].0 <= w.absent[i].1);
            }
        }
    } else {
        assert(after.absent == w.absent);
        assert forall|i: int| 0 <= i < after.absent.len() implies (#[trigger] after.absent[i]).1
            <= t by {
            assert(w.absent[i].1 <= before);
        }
        if w.present && !after.present {
            assert forall|i: int| 0 <= i < after.absent.len() implies (#[trigger] after.absent[i]).1
                <= after.from by {
                assert(w.absent[i].1 <= before);
            }
        }
    }
}

/// What is left of stretches that follow one another follows one another.
proof fn lemma_long_follow(all: Seq<Gone>, opts: LogoOptions)
    requires
        gone_follow(all),
    ensures
        follow(long_ones(all, opts)),
        forall|k: int|
            0 <= k < long_ones(all, opts).len() ==> exists|i: int|
                0 <= i < all.len() && (#[trigger] all[i]).0 == (#[trigger] long_ones(
                    all,
                    opts,
                )[k]).0 && all[i].1 == long_ones(all, opts)[k].1,
    decreases all.len(),
{
    if all.len() > 0 {
        let less = all.drop_last();
        lemma_long_follow(less, opts);
        let (short, long) = (long_ones(less, opts), long_ones(all, opts));
        assert forall|k: int| 0 <= k < short.len() implies exists|i: int|
            0 <= i < all.len() - 1 && (#[trigger] all[i]).0 == (#[trigger] short[k]).0 && all[i].1
                == short[k].1 by {
            let i = choose|i: int|
                0 <= i < less.len() && (#[trigger] less[i]).0 == short[k].0 && less[i].1
                    == short[k].1;
            assert(all[i] == less[i]);
        }
        assert forall|k: int| 0 <= k < long.len() implies exists|i: int|
            0 <= i < all.len() && (#[trigger] all[i]).0 == (#[trigger] long[k]).0 && all[i].1
                == long[k].1 by {
            if k < short.len() {
                assert(long[k] == short[k]);
            } else {
                assert(all[all.len() - 1].0 == long[k].0);
            }
        }
        if is_long(all.last(), opts) {
            assert forall|i: int, j: int| 0 <= i < j < long.len() implies (#[trigger] long[i]).1
                <= (#[trigger] long[j]).0 by {
                assert(long[i] == short[i]);
                if j < short.len() {
                    assert(long[j] == short[j]);
                } else {
                    let p = choose|p: int|
                        0 <= p < all.len() - 1 && (#[trigger] all[p]).0 == short[i].0 && all[p].1
                            == short[i].1;
                    assert(all[p].1 <= all[all.len() - 1].0);
                }
            }
            assert forall|i: int| 0 <= i < long.len() implies (#[trigger] long[i]).0
                <= long[i].1 by {
                if i < short.len() {
                    assert(long[i] == short[i]);
                } else {
                    assert(all[all.len() - 1].0 <= all[all.len() - 1].1);
                }
            }
        }
    }
}

/// The breaks found never overlap: of a line of scores read in order of time,
/// each stretch without the logo starts no later than it ends, and ends no
/// later than the next one starts.
pub proof fn law_breaks_follow_one_another(
    times: Seq<i64>,
    scores: Seq<i64>,
    present_t: int,
    absent_t: int,
    opts: LogoOptions,
)
    requires
        times.len() == scores.len(),
        crate::rank::in_order(times),
        0 <= opts.window_seconds,
        in_reach(opts.window_seconds as int),
        forall|i: int| 0 <= i < times.len() ==> in_reach(#[trigger] times[i] as int),
    ensures
        follow(found(times, scores, present_t, absent_t, opts).absent),
{
    let w = watched_to(times, scores, present_t, absent_t, opts, scores.len() as int);
    let all = every_gone(w, times);
    if times.len() > 0 {
        lemma_settled(times, scores, present_t, absent_t, opts, times.len() as int);
        assert(times.last() == times[times.len() - 1]);
        if !w.present {
            assert forall|i: int, j: int| 0 <= i < j < all.len() implies (#[trigger] all[i]).1 <= (
            #[trigger] all[j]).0 by {
                if j < w.absent.len() {
                    assert(w.absent[i].1 <= w.absent[j].0);
                } else {
                    assert(w.absent[i].1 <= w.from);
                }
            }
            assert forall|i: int| 0 <= i < all.len() implies (#[trigger] all[i]).0 <= all[i].1 by {
                if i < w.absent.len() {
                    assert(w.absent[i].0 <= w.absent[i].1);
                }
            }
        }
    }
    lemma_long_follow(all, opts);
}

} // verus!
