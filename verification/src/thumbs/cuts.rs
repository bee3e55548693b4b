//! The exact picture a scene starts on.
use crate::preview::micros;
use crate::recording::AccessPoint;
use crate::sound::lay::truncated;
use crate::thumbs::{apart, difference, distance, SIG};
use crate::time::{in_reach, later, max_time, SECOND};
use vstd::prelude::*;

verus! {

/// A picture that was decoded, by when it is and what it comes to.
#[derive(Debug)]
pub struct Sighting {
    pub time: i64,
    pub sig: Vec<u8>,
}

/// The pictures of a window, in order of time, those of one time as they came.
pub struct Sightings {
    pub seen: Vec<Sighting>,
}

/// Where a picture goes among others in order of time: behind the last of the
/// first `n` that is not later.
pub open spec fn goes_at(seen: Seq<Sighting>, time: int, n: int) -> int
    decreases n,
{
    if n <= 0 {
        0
    } else if seen[n - 1].time <= time {
        n
    } else {
        goes_at(seen, time, n - 1)
    }
}

/// Pictures in order of time.
pub open spec fn ordered(seen: Seq<Sighting>) -> bool {
    forall|i: int, j: int| 0 <= i <= j < seen.len() ==> (#[trigger] seen[i]).time <= (
    #[trigger] seen[j]).time
}

proof fn lemma_goes_at(seen: Seq<Sighting>, time: int, n: int)
    requires
        0 <= n <= seen.len(),
    ensures
        0 <= goes_at(seen, time, n) <= n,
        goes_at(seen, time, n) > 0 ==> seen[goes_at(seen, time, n) - 1].time <= time,
        forall|k: int| goes_at(seen, time, n) <= k < n ==> (#[trigger] seen[k]).time > time,
    decreases n,
{
    if n > 0 && seen[n - 1].time > time {
        lemma_goes_at(seen, time, n - 1);
    }
}

impl Sightings {
    pub open spec fn wf(&self) -> bool {
        &&& ordered(self.seen@)
        &&& forall|i: int|
            0 <= i < self.seen@.len() ==> (#[trigger] self.seen@[i]).sig@.len() == SIG && in_reach(
                self.seen@[i].time as int,
            )
    }

    pub fn new() -> (r: Sightings)
        ensures
            r.wf(),
            r.seen@.len() == 0,
    {
        Sightings { seen: Vec::new() }
    }

    /// One more picture.
    pub fn see(&mut self, time: i64, sig: Vec<u8>)
        requires
            old(self).wf(),
            in_reach(time as int),
            sig@.len() == SIG,
        ensures
            final(self).wf(),
            final(self).seen@ == old(self).seen@.insert(
                goes_at(old(self).seen@, time as int, old(self).seen@.len() as int),
                Sighting { time, sig },
            ),
    {
        let len: usize = self.seen.len();
        let mut i: usize = len;
        while i > 0 && self.seen[i - 1].time > time
            invariant
                i <= len,
                len == self.seen@.len(),
                self.seen == old(self).seen,
                goes_at(self.seen@, time as int, len as int) == goes_at(
                    self.seen@,
                    time as int,
                    i as int,
                ),
            decreases i,
        {
            i -= 1;
        }
        let ghost was = self.seen@;
        let one = Sighting { time, sig };
        proof {
            lemma_goes_at(was, time as int, len as int);
        }
        let ghost item = one;
        self.seen.insert(i, one);
        proof {
            let now = self.seen@;
            assert(now == was.insert(i as int, item));
            assert forall|a: int, b: int| 0 <= a <= b < now.len() implies (#[trigger] now[a]).time
                <= (#[trigger] now[b]).time by {
                let x = if a < i {
                    was[a]
                } else if a == i {
                    item
                } else {
                    was[a - 1]
                };
                let y = if b < i {
                    was[b]
                } else if b == i {
                    item
                } else {
                    was[b - 1]
                };
                assert(now[a] == x && now[b] == y);
                if a < i && b > i {
                    assert(was[a].time <= was[b - 1].time);
                } else if a < i && b == i {
                    assert(was[a].time <= was[i - 1].time);
                } else if a == i && b > i {
                    assert(was[b - 1].time > time);
                } else if a < i && b < i {
                    assert(was[a].time <= was[b].time);
                } else if a > i && b > i {
                    assert(was[a - 1].time <= was[b - 1].time);
                }
            }
            assert forall|k: int| 0 <= k < now.len() implies (#[trigger] now[k]).sig@.len() == SIG
                && in_reach(now[k].time as int) by {
                if k < i {
                    assert(now[k] == was[k]);
                } else if k > i {
                    assert(now[k] == was[k - 1]);
                }
            }
        }
    }
}

/// How different one picture of a window is from the one before it.
pub open spec fn step(seen: Seq<Sighting>, i: int) -> int {
    difference(seen[i - 1].sig@, seen[i].sig@)
}

/// Of the first `n` pictures, when the one is that starts a cut and is nearest
/// to this; the earlier where two are as near.
pub open spec fn nearest_to(seen: Seq<Sighting>, at: int, floor: int, n: int) -> Option<i64>
    decreases n,
{
    if n <= 1 {
        None
    } else {
        let best = nearest_to(seen, at, floor, n - 1);
        let t = seen[n - 1].time;
        if step(seen, n - 1) >= floor && (best is None || apart(t as int, at) < apart(
            best->0 as int,
            at,
        )) {
            Some(t)
        } else {
            best
        }
    }
}

/// Of the first `n` pictures, the place of the one that differs most from the
/// one before it; the first where two differ as much.
pub open spec fn strongest_of(seen: Seq<Sighting>, n: int) -> int
    decreases n,
{
    if n <= 2 {
        1
    } else {
        let best = strongest_of(seen, n - 1);
        if step(seen, n - 1) > step(seen, best) {
            n - 1
        } else {
            best
        }
    }
}

impl Sightings {
    /// The picture a cut happens on, nearest `at`; `at` itself where there is
    /// no cut in the window worth the name.
    ///
    /// The *nearest* cut, not the strongest. A commercial cuts between images
    /// as unlike each other as anything at its edges, so "the biggest change
    /// in the window" reaches past the boundary and lands inside the break.
    /// The estimate coming in is already close; all this has to do is put it
    /// on the picture the change happens on.
    pub fn nearest_cut(&self, at: i64, floor: i64) -> (r: i64)
        requires
            self.wf(),
            in_reach(at as int),
        ensures
            r == (match nearest_to(self.seen@, at as int, floor as int, self.seen@.len() as int) {
                Some(t) => t,
                None => at,
            }),
    {
        let len: usize = self.seen.len();
        if len == 0 {
            return at;
        }
        let mut best: Option<i64> = None;
        let mut i: usize = 1;
        while i < len
            invariant
                1 <= i <= len,
                len == self.seen@.len(),
                self.wf(),
                in_reach(at as int),
                best is Some ==> in_reach(best->0 as int),
                best == nearest_to(self.seen@, at as int, floor as int, i as int),
            decreases len - i,
        {
            let d: i64 = distance(self.seen[i - 1].sig.as_slice(), self.seen[i].sig.as_slice());
            let t: i64 = self.seen[i].time;
            if d >= floor {
                let nearer: bool = match best {
                    None => true,
                    Some(b) => away(t, at) < away(b, at),
                };
                if nearer {
                    best = Some(t);
                }
            }
            i += 1;
        }
        match best {
            Some(t) => t,
            None => at,
        }
    }

    /// The picture that differs most from the one before it; `at` itself where
    /// there are not two.
    pub fn strongest_cut(&self, at: i64) -> (r: i64)
        requires
            self.wf(),
        ensures
            r == (if self.seen@.len() < 2 {
                at
            } else {
                self.seen@[strongest_of(self.seen@, self.seen@.len() as int)].time
            }),
    {
        let len: usize = self.seen.len();
        if len < 2 {
            return at;
        }
        let mut best: usize = 1;
        let mut most: i64 = distance(
            self.seen[0].sig.as_slice(),
            self.seen[1].sig.as_slice(),
        );
        let mut i: usize = 2;
        while i < len
            invariant
                2 <= i <= len,
                len == self.seen@.len(),
                self.wf(),
                1 <= best < i,
                best == strongest_of(self.seen@, i as int),
                most == step(self.seen@, best as int),
            decreases len - i,
        {
            let d: i64 = distance(self.seen[i - 1].sig.as_slice(), self.seen[i].sig.as_slice());
            if d > most {
                most = d;
                best = i;
            }
            i += 1;
        }
        self.seen[best].time
    }
}

fn away(a: i64, b: i64) -> (r: i64)
    requires
        in_reach(a as int),
        in_reach(b as int),
    ensures
        r == apart(a as int, b as int),
{
    if a < b {
        b - a
    } else {
        a - b
    }
}

/// Of the first `n` entry points, when the last one is that is before twice
/// this; nought where none is.
pub open spec fn entered_before(points: Seq<AccessPoint>, twice: int, n: int) -> int
    decreases n,
{
    if n <= 0 {
        0
    } else if 2 * points[n - 1].time < twice {
        points[n - 1].time as int
    } else {
        entered_before(points, twice, n - 1)
    }
}

/// When the last entry point is that is before twice this; nought where none
/// is. Twice, so that half a picture can be said.
fn entry_before(points: &[AccessPoint], twice: i64) -> (r: i64)
    requires
        forall|i: int| 0 <= i < points@.len() ==> in_reach((#[trigger] points@[i]).time as int),
    ensures
        r == entered_before(points@, twice as int, points@.len() as int),
        in_reach(r as int),
{
    let mut n: usize = points.len();
    while n > 0
        invariant
            n <= points@.len(),
            forall|i: int| 0 <= i < points@.len() ==> in_reach((#[trigger] points@[i]).time as int),
            entered_before(points@, twice as int, points@.len() as int) == entered_before(
                points@,
                twice as int,
                n as int,
            ),
        decreases n,
    {
        let t: i64 = points[n - 1].time;
        if 2 * t < twice {
            return t;
        }
        n -= 1;
    }
    0
}

/// What is done with a picture of a window.
#[derive(Debug, Clone, Copy, PartialEq, Eq, Structural)]
pub enum Look {
    /// The window is over.
    Stop,
    /// It is one to compare.
    Keep,
    /// It is before the window.
    Pass,
}

/// Where to read from, and what to compare, to find a picture.
#[derive(Debug, Clone, Copy, PartialEq, Eq, Structural)]
pub struct Window {
    /// The entry point to read from.
    pub entry: i64,
    /// Twice the time the pictures compared start at.
    pub twice_from: i64,
    /// Twice the time they end at.
    pub twice_until: i64,
}

impl Window {
    /// Where to seek to, in microseconds, where the entry point cannot be gone
    /// to by its byte: so much earlier than it, since a transport stream's own
    /// seeking can land a GOP late, and no earlier than the front.
    pub fn target(&self, margin: i64, start_time: i64) -> (r: i64)
        requires
            in_reach(self.entry as int),
            in_reach(margin as int),
            in_reach(start_time as int),
        ensures
            r == truncated(
                (later(self.entry - margin, 0) + start_time) * 1_000_000,
                SECOND as int,
            ),
    {
        micros(max_time(self.entry - margin, 0) + start_time)
    }

    /// What is done with a picture of this time.
    pub fn look(&self, t: i64) -> (r: Look)
        requires
            in_reach(t as int),
        ensures
            r == (if 2 * t > self.twice_until {
                Look::Stop
            } else if 2 * t >= self.twice_from {
                Look::Keep
            } else {
                Look::Pass
            }),
    {
        if 2 * t > self.twice_until {
            Look::Stop
        } else if 2 * t >= self.twice_from {
            Look::Keep
        } else {
            Look::Pass
        }
    }
}

/// The window a cut near `at` is looked for in: so far either way, and a
/// picture more; read from the last entry point at or before it.
///
/// Not "the nearest mark in the scene index": that index is built from key
/// pictures half a second apart, and a commercial has cuts of its own, so the
/// nearest mark to an estimated boundary is as likely to be one of those as
/// the one at the edge.
pub fn cut_window(points: &[AccessPoint], at: i64, reach: i64, fd: i64) -> (r: Window)
    requires
        in_reach(at as int),
        in_reach(reach as int),
        in_reach(fd as int),
        forall|i: int| 0 <= i < points@.len() ==> in_reach((#[trigger] points@[i]).time as int),
    ensures
        ({
            let from = later(at - reach, 0);
            &&& r.entry == entered_before(points@, 2 * from + 1, points@.len() as int)
            &&& r.twice_from == 2 * (from - fd)
            &&& r.twice_until == 2 * (at + reach + fd)
        }),
{
    let from: i64 = max_time(at - reach, 0);
    let entry: i64 = entry_before(points, 2 * from + 1);
    Window { entry, twice_from: 2 * (from - fd), twice_until: 2 * (at + reach + fd) }
}

/// The window the picture a scene starts on is looked for in, given the key
/// picture that first showed it: the GOP before that one. `None` where there
/// is nothing before it to look at.
///
/// The key pictures are half a second apart, so the change is somewhere in the
/// GOP before the one that reported it.
pub fn refine_window(points: &[AccessPoint], at: i64, fd: i64) -> (r: Option<Window>)
    requires
        in_reach(at as int),
        in_reach(fd as int),
        forall|i: int| 0 <= i < points@.len() ==> in_reach((#[trigger] points@[i]).time as int),
    ensures
        ({
            let entry = entered_before(points@, 2 * at - fd, points@.len() as int);
            match r {
                None => 2 * entry >= 2 * at - fd,
                Some(w) => 2 * entry < 2 * at - fd && w.entry == entry && w.twice_from == 2 * entry
                    - fd && w.twice_until == 2 * at + fd,
            }
        }),
{
    let entry: i64 = entry_before(points, 2 * at - fd);
    if 2 * entry >= 2 * at - fd {
        return None;
    }
    Some(Window { entry, twice_from: 2 * entry - fd, twice_until: 2 * at + fd })
}

/// Of the cuts in a window, none is nearer than the one that is found.
pub proof fn law_no_cut_is_nearer(seen: Seq<Sighting>, at: int, floor: int, n: int, i: int)
    requires
        0 < i < n,
        step(seen, i) >= floor,
    ensures
        nearest_to(seen, at, floor, n) is Some,
        apart(nearest_to(seen, at, floor, n)->0 as int, at) <= apart(seen[i].time as int, at),
    decreases n,
{
    if i < n - 1 {
        law_no_cut_is_nearer(seen, at, floor, n - 1, i);
    }
}

} // verus!
