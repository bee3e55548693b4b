//! The film strip: pictures at exactly the times asked for.
use crate::recording::AccessPoint;
use crate::thumbs::apart;
use crate::time::{in_reach, SECOND};
use vstd::prelude::*;

verus! {

/// The least gap between the first `n` times and the ones before them, where
/// any is later than the one before.
pub open spec fn least_gap(times: Seq<i64>, n: int) -> Option<int>
    decreases n,
{
    if n <= 1 {
        None
    } else {
        let gap = times[n - 1] - times[n - 2];
        match least_gap(times, n - 1) {
            None => if gap > 0 {
                Some(gap)
            } else {
                None
            },
            Some(least) => if 0 < gap < least {
                Some(gap)
            } else {
                Some(least)
            },
        }
    }
}

/// Twice the gap past which a fresh run starts; `None` where none does.
///
/// What counts as a jump has to be read off the request: cells a frame apart
/// and cells two seconds apart are both evenly spaced, and neither should be
/// split. With a ceiling over the top of it, because a run is decoded straight
/// through: past two seconds a seek is cheaper than the pictures it skips.
pub open spec fn twice_jump(times: Seq<i64>) -> Option<int> {
    match least_gap(times, times.len() as int) {
        None => None,
        Some(base) => Some(
            if 5 * base + SECOND < 4 * SECOND {
                5 * base + SECOND
            } else {
                4 * SECOND
            },
        ),
    }
}

/// Whether a fresh run starts at this place.
pub open spec fn splits(times: Seq<i64>, i: int) -> bool {
    times[i] < times[i - 1] || (twice_jump(times) is Some && 2 * (times[i] - times[i - 1])
        > twice_jump(times)->0)
}

/// Where the run that reaches a place started.
pub open spec fn run_from(times: Seq<i64>, i: int) -> int
    decreases i,
{
    if i <= 0 {
        0
    } else if splits(times, i) {
        i
    } else {
        run_from(times, i - 1)
    }
}

/// The runs among the first `n` times that have ended, by where each starts
/// and ends.
pub open spec fn runs_to(times: Seq<i64>, n: int) -> Seq<(usize, usize)>
    decreases n,
{
    if n <= 1 {
        Seq::empty()
    } else if splits(times, n - 1) {
        runs_to(times, n - 1).push((run_from(times, n - 2) as usize, (n - 1) as usize))
    } else {
        runs_to(times, n - 1)
    }
}

/// All the runs.
pub open spec fn all_runs(times: Seq<i64>) -> Seq<(usize, usize)> {
    let n = times.len() as int;
    if n == 0 {
        Seq::empty()
    } else {
        runs_to(times, n).push((run_from(times, n - 1) as usize, n as usize))
    }
}

fn gap_least(times: &[i64]) -> (r: Option<i64>)
    requires
        forall|i: int| 0 <= i < times@.len() ==> in_reach(#[trigger] times@[i] as int),
    ensures
        match r {
            Some(g) => least_gap(times@, times@.len() as int) == Some(g as int) && 0 < g
                <= 0x800_0000_0000_0000,
            None => least_gap(times@, times@.len() as int) is None,
        },
{
    let len: usize = times.len();
    let mut best: Option<i64> = None;
    if len == 0 {
        return None;
    }
    let mut i: usize = 1;
    while i < len
        invariant
            1 <= i <= len,
            len == times@.len(),
            forall|k: int| 0 <= k < times@.len() ==> in_reach(#[trigger] times@[k] as int),
            match best {
                Some(g) => least_gap(times@, i as int) == Some(g as int) && 0 < g
                    <= 0x800_0000_0000_0000,
                None => least_gap(times@, i as int) is None,
            },
        decreases len - i,
    {
        assert(in_reach(times@[i as int] as int) && in_reach(times@[i - 1] as int));
        let gap: i64 = times[i] - times[i - 1];
        match best {
            None => {
                if gap > 0 {
                    best = Some(gap);
                }
            },
            Some(least) => {
                if gap > 0 && gap < least {
                    best = Some(gap);
                }
            },
        }
        i += 1;
    }
    best
}

/// How the times asked for are divided into runs, by where each starts and
/// ends.
///
/// The film strip walks the *edited* timeline, so two neighbouring cells can
/// sit either side of a cut and be minutes apart in the recording. Times that
/// run on contiguously are decoded together -- one seek pays for the lot --
/// and a jump starts a fresh run.
pub fn runs(times: &[i64]) -> (out: Vec<(usize, usize)>)
    requires
        forall|i: int| 0 <= i < times@.len() ==> in_reach(#[trigger] times@[i] as int),
    ensures
        out@ == all_runs(times@),
{
    let len: usize = times.len();
    let mut out: Vec<(usize, usize)> = Vec::new();
    if len == 0 {
        assert(out@ =~= all_runs(times@));
        return out;
    }
    let jump: Option<i64> = match gap_least(times) {
        None => None,
        Some(base) => Some(
            if base < SECOND {
                let wide: i64 = 5 * base + SECOND;
                if wide < 4 * SECOND {
                    wide
                } else {
                    4 * SECOND
                }
            } else {
                4 * SECOND
            },
        ),
    };
    let mut start: usize = 0;
    let mut i: usize = 1;
    while i < len
        invariant
            1 <= i <= len,
            len == times@.len(),
            forall|k: int| 0 <= k < times@.len() ==> in_reach(#[trigger] times@[k] as int),
            match jump {
                Some(j) => twice_jump(times@) == Some(j as int),
                None => twice_jump(times@) is None,
            },
            start < i,
            start == run_from(times@, i - 1),
            out@ =~= runs_to(times@, i as int),
        decreases len - i,
    {
        assert(in_reach(times@[i as int] as int) && in_reach(times@[i - 1] as int));
        let gap: i64 = times[i] - times[i - 1];
        let far: bool = match jump {
            Some(j) => 2 * gap > j,
            None => false,
        };
        if gap < 0 || far {
            out.push((start, i));
            start = i;
        }
        i += 1;
    }
    out.push((start, len));
    assert(out@ =~= all_runs(times@));
    out
}

proof fn lemma_run_from(times: Seq<i64>, i: int)
    requires
        0 <= i,
    ensures
        0 <= run_from(times, i) <= i,
    decreases i,
{
    if i > 0 && !splits(times, i) {
        lemma_run_from(times, i - 1);
    }
}

/// Whether runs follow one another from the first place on: each ends where
/// the next starts.
pub open spec fn contiguous(runs: Seq<(usize, usize)>) -> bool {
    &&& runs.len() > 0 ==> runs[0].0 == 0
    &&& forall|k: int| 0 <= k < runs.len() ==> (#[trigger] runs[k]).0 < runs[k].1
    &&& forall|k: int| 0 < k < runs.len() ==> runs[k - 1].1 == (#[trigger] runs[k]).0
}

proof fn lemma_runs(times: Seq<i64>, n: int)
    requires
        1 <= n <= times.len() <= usize::MAX,
    ensures
        contiguous(runs_to(times, n)),
        runs_to(times, n).len() == 0 ==> run_from(times, n - 1) == 0,
        runs_to(times, n).len() > 0 ==> runs_to(times, n).last().1 == run_from(times, n - 1),
    decreases n,
{
    lemma_run_from(times, n - 1);
    if n > 1 {
        lemma_runs(times, n - 1);
        lemma_run_from(times, n - 2);
        let (was, now) = (runs_to(times, n - 1), runs_to(times, n));
        if splits(times, n - 1) {
            assert forall|k: int| 0 < k < now.len() implies now[k - 1].1 == (#[trigger] now[k]).0 by {
                if k < was.len() {
                    assert(was[k - 1].1 == was[k].0);
                } else {
                    assert(was.last() == was[was.len() - 1]);
                }
            }
            assert forall|k: int| 0 <= k < now.len() implies (#[trigger] now[k]).0 < now[k].1 by {
                if k < was.len() {
                    assert(was[k].0 < was[k].1);
                }
            }
        }
    }
}

/// Every time asked for is in one run, and the runs are in order: they start
/// at the first time, each ends where the next starts, and the last ends with
/// the last time.
pub proof fn law_runs_cover_the_strip(times: Seq<i64>)
    requires
        0 < times.len() <= usize::MAX,
    ensures
        contiguous(all_runs(times)),
        all_runs(times).len() > 0,
        all_runs(times).last().1 == times.len(),
{
    let n = times.len() as int;
    lemma_runs(times, n);
    lemma_run_from(times, n - 1);
    let (was, now) = (runs_to(times, n), all_runs(times));
    assert forall|k: int| 0 < k < now.len() implies now[k - 1].1 == (#[trigger] now[k]).0 by {
        if k < was.len() {
            assert(was[k - 1].1 == was[k].0);
        } else {
            assert(was.last() == was[was.len() - 1]);
        }
    }
    assert forall|k: int| 0 <= k < now.len() implies (#[trigger] now[k]).0 < now[k].1 by {
        if k < was.len() {
            assert(was[k].0 < was[k].1);
        }
    }
}

/// Whether every time stands on an entry point. When they all do, everything
/// between them can go by unparsed: an entry picture decodes on its own.
pub fn all_on_points(points: &[AccessPoint], times: &[i64], fd: i64) -> (r: bool)
    requires
        in_reach(fd as int),
        forall|i: int| 0 <= i < times@.len() ==> in_reach(#[trigger] times@[i] as int),
        forall|i: int| 0 <= i < points@.len() ==> in_reach((#[trigger] points@[i]).time as int),
    ensures
        r == forall|k: int|
            0 <= k < times@.len() ==> crate::proxy::is_entry(
                points@,
                crate::proxy::passed(points@, 2 * #[trigger] times@[k] - fd, 0),
                times@[k] as int,
                fd as int,
            ),
{
    let mut i: usize = 0;
    while i < times.len()
        invariant
            i <= times@.len(),
            in_reach(fd as int),
            forall|k: int| 0 <= k < times@.len() ==> in_reach(#[trigger] times@[k] as int),
            forall|k: int| 0 <= k < points@.len() ==> in_reach((#[trigger] points@[k]).time as int),
            forall|k: int|
                0 <= k < i ==> crate::proxy::is_entry(
                    points@,
                    crate::proxy::passed(points@, 2 * #[trigger] times@[k] - fd, 0),
                    times@[k] as int,
                    fd as int,
                ),
        decreases times@.len() - i,
    {
        let t: i64 = times[i];
        assert(in_reach(times@[i as int] as int));
        if !crate::preview::on_point(points, t, fd) {
            return false;
        }
        i += 1;
    }
    true
}

/// One run's cells, and the picture each has so far by when it is.
#[derive(Debug)]
pub struct Slots {
    pub wanted: Vec<i64>,
    pub fd: i64,
    /// How far from its cell a picture may be, as a fraction: no nearer than
    /// the cells are to each other, nor than a picture.
    pub reach: i128,
    pub over: i128,
    pub have: Vec<Option<i64>>,
}

/// How far from its cell a picture may be.
pub open spec fn reach_of(wanted: Seq<i64>, fd: int) -> (int, int) {
    if wanted.len() > 1 {
        let over = wanted.len() - 1;
        let all = wanted.last() - wanted[0];
        (
            if all > over * fd {
                all
            } else {
                over * fd
            },
            over,
        )
    } else {
        (fd, 1)
    }
}

/// Whether a picture at this time is a better answer for a cell than the one
/// it has.
pub open spec fn better(s: Slots, i: int, t: int) -> bool {
    match s.have@[i] {
        Some(have) => apart(t, s.wanted@[i] as int) < apart(have as int, s.wanted@[i] as int),
        None => apart(t, s.wanted@[i] as int) * s.over <= s.reach,
    }
}

/// Which cells a picture at this time is the answer for.
pub open spec fn offered(s: Slots, t: int) -> Seq<bool> {
    Seq::new(s.wanted@.len(), |i: int| better(s, i, t))
}

/// The picture each cell has once one at this time was offered.
pub open spec fn have_after(s: Slots, t: i64) -> Seq<Option<i64>> {
    Seq::new(
        s.wanted@.len(),
        |i: int|
            if better(s, i, t as int) {
                Some(t)
            } else {
                s.have@[i]
            },
    )
}

impl Slots {
    pub open spec fn wf(&self) -> bool {
        &&& self.wanted@.len() > 0
        &&& self.wanted@.len() <= 0xFFFF_FFFF
        &&& self.have@.len() == self.wanted@.len()
        &&& in_reach(self.fd as int)
        &&& 0 <= self.fd
        &&& (self.reach as int, self.over as int) == reach_of(self.wanted@, self.fd as int)
        &&& forall|i: int|
            0 <= i < self.wanted@.len() ==> in_reach(#[trigger] self.wanted@[i] as int)
        &&& forall|i: int|
            0 <= i < self.have@.len() && (#[trigger] self.have@[i]) is Some ==> in_reach(
                self.have@[i]->0 as int,
            )
    }

    /// Nothing found yet.
    pub fn new(wanted: Vec<i64>, fd: i64) -> (r: Slots)
        requires
            0 < wanted@.len() <= 0xFFFF_FFFF,
            in_reach(fd as int),
            0 <= fd,
            forall|i: int| 0 <= i < wanted@.len() ==> in_reach(#[trigger] wanted@[i] as int),
        ensures
            r.wf(),
            r.wanted == wanted,
            r.fd == fd,
            forall|i: int| 0 <= i < r.have@.len() ==> (#[trigger] r.have@[i]) is None,
    {
        let len: usize = wanted.len();
        let mut have: Vec<Option<i64>> = Vec::new();
        let mut i: usize = 0;
        while i < len
            invariant
                i <= len,
                have@.len() == i,
                forall|k: int| 0 <= k < i ==> (#[trigger] have@[k]) is None,
            decreases len - i,
        {
            have.push(None);
            i += 1;
        }
        let mut over: i128 = 1;
        let mut reach: i128 = fd as i128;
        if len > 1 {
            over = len as i128 - 1;
            assert(in_reach(wanted@[0] as int) && in_reach(wanted@[len - 1] as int));
            let all: i128 = wanted[len - 1] as i128 - wanted[0] as i128;
            assert(0 <= over * fd <= 0xFFFF_FFFF * 0x400_0000_0000_0000) by (nonlinear_arith)
                requires
                    0 <= over <= 0xFFFF_FFFF,
                    0 <= fd <= 0x400_0000_0000_0000,
            ;
            let least: i128 = over * (fd as i128);
            reach = if all > least {
                all
            } else {
                least
            };
        }
        Slots { wanted, fd, reach, over, have }
    }

    /// Offer a picture, by when it is. Says which cells it is now the answer
    /// for; `None` where it is past the last of them and the run is over.
    ///
    /// A slot with no picture near it stays empty rather than shifting the
    /// ones after it along: the strip keeps the playhead in its middle cell,
    /// and that only holds if the cells stay where they were put.
    pub fn offer(&mut self, t: i64) -> (r: Option<Vec<bool>>)
        requires
            old(self).wf(),
            in_reach(t as int),
        ensures
            final(self).wf(),
            final(self).wanted == old(self).wanted,
            final(self).fd == old(self).fd,
            (r is None) == (t > old(self).wanted@.last() + old(self).fd),
            r is None ==> *final(self) == *old(self),
            r matches Some(took) ==> took@ == offered(*old(self), t as int),
            r is Some ==> final(self).have@ == have_after(*old(self), t),
    {
        let len: usize = self.wanted.len();
        assert(in_reach(self.wanted@[len - 1] as int));
        if t > self.wanted[len - 1] + self.fd {
            return None;
        }
        let mut took: Vec<bool> = Vec::new();
        let mut i: usize = 0;
        while i < len
            invariant
                i <= len,
                old(self).wf(),
                len == self.wanted@.len(),
                self.have@.len() == len,
                in_reach(t as int),
                self.wanted == old(self).wanted,
                self.fd == old(self).fd,
                self.reach == old(self).reach,
                self.over == old(self).over,
                took@.len() == i,
                forall|k: int|
                    0 <= k < i ==> #[trigger] took@[k] == better(*old(self), k, t as int),
                forall|k: int|
                    0 <= k < i ==> #[trigger] self.have@[k] == (if better(
                        *old(self),
                        k,
                        t as int,
                    ) {
                        Some(t)
                    } else {
                        old(self).have@[k]
                    }),
                forall|k: int| i <= k < len ==> #[trigger] self.have@[k] == old(self).have@[k],
            decreases len - i,
        {
            let w: i64 = self.wanted[i];
            assert(in_reach(old(self).wanted@[i as int] as int));
            assert(self.have@[i as int] == old(self).have@[i as int]);
            let away: i64 = if t < w {
                w - t
            } else {
                t - w
            };
            let takes: bool = match self.have[i] {
                Some(have) => {
                    let had: i64 = if have < w {
                        w - have
                    } else {
                        have - w
                    };
                    away < had
                },
                None => {
                    proof {
                        assert(0 <= away * self.over <= 0x800_0000_0000_0000 * 0xFFFF_FFFF)
                            by (nonlinear_arith)
                            requires
                                0 <= away <= 0x800_0000_0000_0000,
                                0 <= self.over <= 0xFFFF_FFFF,
                        ;
                    }
                    (away as i128) * self.over <= self.reach
                },
            };
            if takes {
                self.have.set(i, Some(t));
            }
            took.push(takes);
            i += 1;
        }
        assert(took@ =~= offered(*old(self), t as int));
        assert(self.have@ =~= have_after(*old(self), t));
        Some(took)
    }

    /// Whether the read began too late for this run: past its first time by
    /// more than half of what a picture may be off.
    pub fn began_late(&self, first: Option<i64>) -> (r: bool)
        requires
            self.wf(),
            first is Some ==> in_reach(first->0 as int),
        ensures
            r == !(first is Some && 2 * (first->0 - self.wanted@[0]) * self.over <= self.reach),
    {
        assert(in_reach(self.wanted@[0] as int));
        match first {
            None => true,
            Some(f) => {
                let late: i128 = 2 * (f as i128 - self.wanted[0] as i128);
                proof {
                    assert(-0x1000_0000_0000_0000 * 0xFFFF_FFFF <= late * self.over
                        <= 0x1000_0000_0000_0000 * 0xFFFF_FFFF) by (nonlinear_arith)
                        requires
                            -0x1000_0000_0000_0000 <= late <= 0x1000_0000_0000_0000,
                            0 <= self.over <= 0xFFFF_FFFF,
                    ;
                }
                late * self.over > self.reach
            },
        }
    }

    /// Which cells give up the picture they have, because the cell before has
    /// the same one.
    ///
    /// Two slots can round to the same picture -- the strip's spacing need not
    /// be a whole number of picture intervals, and under pulldown it never is.
    /// The later slot gives it up rather than repeating it.
    pub fn repeats(&self) -> (out: Vec<bool>)
        requires
            self.wf(),
        ensures
            out@.len() == self.have@.len(),
            forall|i: int|
                0 <= i < out@.len() ==> #[trigger] out@[i] == repeated(
                    self.have@,
                    self.fd as int,
                    i,
                ),
    {
        let len: usize = self.have.len();
        let mut out: Vec<bool> = Vec::new();
        let mut i: usize = 0;
        while i < len
            invariant
                i <= len,
                self.wf(),
                len == self.have@.len(),
                out@.len() == i,
                forall|k: int|
                    0 <= k < i ==> #[trigger] out@[k] == repeated(self.have@, self.fd as int, k),
            decreases len - i,
        {
            let mut same: bool = false;
            if i > 0 {
                match (self.have[i], self.have[i - 1]) {
                    (Some(a), Some(b)) => {
                        assert(self.have@[i as int] is Some && self.have@[i - 1] is Some);
                        let away: i64 = if a < b {
                            b - a
                        } else {
                            a - b
                        };
                        same = 2 * away < self.fd;
                    },
                    _ => {},
                }
            }
            out.push(same);
            i += 1;
        }
        out
    }
}

/// Whether a cell has the picture the cell before has.
pub open spec fn repeated(have: Seq<Option<i64>>, fd: int, i: int) -> bool {
    i > 0 && have[i] is Some && have[i - 1] is Some && 2 * apart(
        have[i]->0 as int,
        have[i - 1]->0 as int,
    ) < fd
}

} // verus!
