//! Somewhere to hand key pictures as they come out of a decoder, and the
//! scenes their differences make.
use crate::rank::{at_place, count_under, ranked, under};
use crate::thumbs::{difference, distance, Thumb, ThumbOptions, Track, DIFFERENT, SIG};
use crate::time::{in_reach, later, max_time, SECOND};
use vstd::prelude::*;

verus! {

/// How different each key picture was from the one before it.
pub open spec fn sizes(diffs: Seq<(i64, i64)>) -> Seq<i64> {
    diffs.map_values(|d: (i64, i64)| d.1)
}

/// How many scenes a recording may have: as many as it is times as long as
/// they are to be apart, and one at least. `None` where they may be as near as
/// they like.
pub open spec fn most_scenes(duration: int, spacing: int) -> Option<int> {
    if spacing == 0 && duration > 0 {
        None
    } else if spacing > 0 && duration >= spacing {
        Some(duration / spacing)
    } else if spacing < 0 && duration <= spacing {
        Some((-duration) / (-spacing))
    } else {
        Some(1)
    }
}

/// How many scenes a recording may have; see [`most_scenes`].
fn scene_room(duration: i64, spacing: i64) -> (r: Option<u64>)
    ensures
        match r {
            Some(n) => most_scenes(duration as int, spacing as int) == Some(n as int) && n >= 1,
            None => most_scenes(duration as int, spacing as int) is None,
        },
{
    if spacing == 0 && duration > 0 {
        return None;
    }
    let (long, apart): (i128, i128) = if spacing >= 0 {
        (duration as i128, spacing as i128)
    } else {
        (-(duration as i128), -(spacing as i128))
    };
    if apart > 0 && long >= apart {
        proof {
            assert(1 <= long as int / apart as int <= long) by (nonlinear_arith)
                requires
                    long >= apart > 0,
            ;
        }
        Some((long / apart) as u64)
    } else {
        Some(1)
    }
}

/// The difference half of the pictures are under.
pub open spec fn typical_of(sizes: Seq<i64>) -> int {
    at_place(sizes, (sizes.len() / 2) as int)
}

/// The difference a cut has to reach: well above the typical one, and never
/// less than the floor.
pub open spec fn first_bar(sizes: Seq<i64>, opts: ThumbOptions) -> int {
    later(typical_of(sizes) * opts.over_typical / 1_000_000, opts.floor as int)
}

/// How many differences reach this one.
pub open spec fn reaching(sizes: Seq<i64>, bar: int) -> int {
    sizes.len() - under(sizes, bar)
}

/// The least difference that no more than `cap` of them reach, where there are
/// more than that: the `cap`th from the top, or just past it where others are
/// as large.
pub open spec fn raised(sizes: Seq<i64>, cap: int) -> int {
    let last = at_place(sizes, sizes.len() - cap);
    if reaching(sizes, last) > cap {
        last + 1
    } else {
        last
    }
}

/// The difference a cut has to reach, raised where that would make too many.
///
/// Material where everything moves would otherwise report a cut every half
/// second; the bar is raised until the marks are at least plausibly far apart,
/// taking it straight off the distribution.
pub open spec fn bar(sizes: Seq<i64>, duration: int, opts: ThumbOptions) -> int {
    let first = first_bar(sizes, opts);
    match most_scenes(duration, opts.min_spacing as int) {
        Some(cap) => if reaching(sizes, first) > cap {
            raised(sizes, cap)
        } else {
            first
        },
        None => first,
    }
}

/// When the pictures are that differ at least so much from the one before.
pub open spec fn marked(diffs: Seq<(i64, i64)>, bar: int) -> Seq<i64>
    decreases diffs.len(),
{
    if diffs.len() == 0 {
        Seq::empty()
    } else if diffs.last().1 >= bar {
        marked(diffs.drop_last(), bar).push(diffs.last().0)
    } else {
        marked(diffs.drop_last(), bar)
    }
}

/// Whether differences are ones two pictures can have.
pub open spec fn differences(diffs: Seq<(i64, i64)>) -> bool {
    forall|i: int| 0 <= i < diffs.len() ==> 0 <= (#[trigger] diffs[i]).1 <= DIFFERENT
}

/// Turn the per-key-picture differences into a list of scene starts. Returns
/// those, the difference that had to be reached, and the typical one.
pub fn mark_scenes(diffs: &[(i64, i64)], duration: i64, opts: &ThumbOptions) -> (r: (
    Vec<i64>,
    i64,
    i64,
))
    requires
        differences(diffs@),
    ensures
        diffs@.len() == 0 ==> r.0@.len() == 0 && r.1 == opts.floor && r.2 == 0,
        diffs@.len() > 0 ==> r.1 == bar(sizes(diffs@), duration as int, *opts) && r.2 == typical_of(
            sizes(diffs@),
        ) && r.0@ == marked(diffs@, r.1 as int),
        r.1 >= opts.floor,
        most_scenes(duration as int, opts.min_spacing as int) matches Some(cap) ==> r.0@.len()
            <= cap,
{
    proof {
        lemma_room_for_one(duration as int, opts.min_spacing as int);
    }
    if diffs.len() == 0 {
        return (Vec::new(), opts.floor, 0);
    }
    let ghost all = sizes(diffs@);
    let len: usize = diffs.len();
    let mut list: Vec<i64> = Vec::new();
    let mut i: usize = 0;
    while i < len
        invariant
            i <= len,
            len == diffs@.len(),
            all == sizes(diffs@),
            list@ =~= all.take(i as int),
        decreases len - i,
    {
        let (_t, d): (i64, i64) = diffs[i];
        assert(all[i as int] == d);
        list.push(d);
        i += 1;
    }
    assert(list@ =~= all);
    let typical: i64 = ranked(list.as_slice(), len / 2);
    proof {
        let at = choose|at: int| 0 <= at < all.len() && #[trigger] all[at] == typical;
        assert(0 <= diffs@[at].1 <= DIFFERENT);
        assert(0 <= typical * opts.over_typical <= 36_720_000_000 * 0xFFFF_FFFF) by (nonlinear_arith)
            requires
                0 <= typical <= 36_720_000_000,
                0 <= opts.over_typical <= 0xFFFF_FFFF,
        ;
    }
    let raised: i128 = (typical as i128) * (opts.over_typical as i128) / 1_000_000;
    let first: i64 = max_time(raised as i64, opts.floor);
    let fewer: usize = count_under(list.as_slice(), first as i128);
    proof {
        crate::rank::lemma_under_bound(all, first as int);
    }
    let threshold: i64 = match scene_room(duration, opts.min_spacing) {
        Some(cap) => if (len - fewer) as u128 > cap as u128 {
            let last: i64 = ranked(list.as_slice(), len - cap as usize);
            proof {
                let at = choose|at: int| 0 <= at < all.len() && #[trigger] all[at] == last;
                assert(0 <= diffs@[at].1 <= DIFFERENT);
                crate::rank::lemma_under_bound(all, last as int);
            }
            if (len - count_under(list.as_slice(), last as i128)) as u128 > cap as u128 {
                last + 1
            } else {
                last
            }
        } else {
            first
        },
        None => first,
    };
    assert(threshold == bar(all, duration as int, *opts));
    proof {
        law_scenes_are_not_nearer_than_asked(diffs@, duration as int, *opts);
        law_the_bar_is_raised_no_further(all, duration as int, *opts);
    }
    let mut scenes: Vec<i64> = Vec::new();
    let mut k: usize = 0;
    while k < len
        invariant
            k <= len,
            len == diffs@.len(),
            scenes@ == marked(diffs@.take(k as int), threshold as int),
        decreases len - k,
    {
        assert(diffs@.take(k + 1).drop_last() =~= diffs@.take(k as int));
        let (t, d): (i64, i64) = diffs[k];
        assert(diffs@[k as int] == (t, d));
        if d >= threshold {
            scenes.push(t);
        }
        k += 1;
    }
    assert(diffs@.take(k as int) =~= diffs@);
    (scenes, threshold, typical)
}

/// Somewhere to hand key pictures as they come out of a decoder.
///
/// There are two ways to arrive at the same pictures. Building the proxy
/// decodes the whole recording anyway and knows which pictures are its access
/// points, so it feeds them straight in; opening a recording that already has
/// a proxy runs a pass over the proxy instead. Either way the track is made
/// the same, which is what lets the two be used interchangeably.
pub struct Collector {
    pub duration: i64,
    pub opts: ThumbOptions,
    pub interval: i64,
    pub thumbs: Vec<Thumb>,
    pub diffs: Vec<(i64, i64)>,
    pub prev: Option<Vec<u8>>,
    pub keep_from: Option<i64>,
    /// The last time fed in, which is how far the pictures held so far speak
    /// for.
    pub seen: i64,
}

/// Pictures collected since the last hand-over, and what a track made of them
/// would have to say about itself.
#[derive(Debug)]
pub struct Batch {
    pub thumbs: Vec<Thumb>,
    pub width: u32,
    pub interval: i64,
    /// How far into the recording the pass producing these has read.
    pub covered: i64,
}

/// The spacing pictures are kept at: as asked, and wider where the recording
/// is so long that they would come to too many.
pub open spec fn spaced(duration: int, opts: ThumbOptions) -> int {
    later(
        opts.interval as int,
        if duration <= 0 {
            duration
        } else {
            duration / (if opts.max_thumbs > 0 {
                opts.max_thumbs as int
            } else {
                1
            })
        },
    )
}

impl Collector {
    pub open spec fn wf(&self) -> bool {
        &&& in_reach(self.interval as int)
        &&& self.prev is Some ==> (self.prev->0)@.len() == SIG
        &&& differences(self.diffs@)
    }

    pub fn new(duration: i64, opts: &ThumbOptions) -> (r: Collector)
        requires
            in_reach(duration as int),
            in_reach(opts.interval as int),
        ensures
            r.wf(),
            r.duration == duration,
            r.opts == *opts,
            r.interval == spaced(duration as int, *opts),
            r.thumbs@.len() == 0,
            r.diffs@.len() == 0,
            r.prev is None,
            r.keep_from is None,
            r.seen == 0,
    {
        let many: i64 = if opts.max_thumbs > 0 {
            opts.max_thumbs as i64
        } else {
            1
        };
        let wide: i64 = if duration <= 0 {
            duration
        } else {
            proof {
                assert(0 <= duration as int / many as int <= duration) by (nonlinear_arith)
                    requires
                        duration > 0,
                        many >= 1,
                ;
            }
            duration / many
        };
        Collector {
            duration,
            opts: *opts,
            interval: max_time(opts.interval, wide),
            thumbs: Vec::new(),
            diffs: Vec::new(),
            prev: None,
            keep_from: None,
            seen: 0,
        }
    }

    /// The spacing images are actually being kept at.
    pub fn interval(&self) -> (r: i64)
        ensures
            r == self.interval,
    {
        self.interval
    }

    /// Whether a picture at this time is to be held as an image.
    pub open spec fn wants(&self, time: int) -> bool {
        time >= -SECOND && (self.keep_from is None || time >= self.keep_from->0)
    }

    /// Offer a key picture, presented at `time`, by what it comes to. Says
    /// whether it is to be held as an image, which [`Collector::hold`] is then
    /// handed.
    pub fn feed(&mut self, time: i64, sig: Vec<u8>) -> (r: bool)
        requires
            old(self).wf(),
            in_reach(time as int),
            sig@.len() == SIG,
        ensures
            final(self).wf(),
            r == old(self).wants(time as int),
            final(self).duration == old(self).duration,
            final(self).opts == old(self).opts,
            final(self).interval == old(self).interval,
            final(self).thumbs == old(self).thumbs,
            time < -SECOND ==> *final(self) == *old(self),
            time >= -SECOND ==> {
                &&& final(self).seen == time
                &&& final(self).prev == Some(sig)
                &&& final(self).keep_from == (if r {
                    Some((time + old(self).interval) as i64)
                } else {
                    old(self).keep_from
                })
                &&& final(self).diffs@ == (match old(self).prev {
                    Some(p) => old(self).diffs@.push((time, difference(p@, sig@) as i64)),
                    None => old(self).diffs@,
                })
            },
    {
        if time < -SECOND {
            return false;
        }
        self.seen = time;
        if let Some(p) = &self.prev {
            let d: i64 = distance(p.as_slice(), sig.as_slice());
            self.diffs.push((time, d));
        }
        self.prev = Some(sig);
        let wanted: bool = match self.keep_from {
            None => true,
            Some(from) => time >= from,
        };
        if wanted {
            self.keep_from = Some(time + self.interval);
        }
        wanted
    }

    /// Hold a picture as an image.
    pub fn hold(&mut self, time: i64, jpeg: Vec<u8>)
        ensures
            *final(self) == (Collector { thumbs: final(self).thumbs, ..*old(self) }),
            final(self).thumbs@ == old(self).thumbs@.push(Thumb { time, jpeg }),
    {
        self.thumbs.push(Thumb { time, jpeg });
    }

    /// The pictures collected since this was last called.
    ///
    /// For handing a track over while it is still being made. Taken rather
    /// than copied, so the pictures are not held twice -- what
    /// [`Self::finish`] returns is then only the tail, and whoever has been
    /// taking the rest owns them and must put the two back together.
    pub fn take_new(&mut self) -> (r: Batch)
        ensures
            r.thumbs@ == old(self).thumbs@,
            r.width == old(self).opts.width,
            r.interval == old(self).interval,
            r.covered == old(self).seen,
            final(self).thumbs@.len() == 0,
            *final(self) == (Collector { thumbs: final(self).thumbs, ..*old(self) }),
    {
        let mut out: Vec<Thumb> = Vec::new();
        std::mem::swap(&mut out, &mut self.thumbs);
        Batch { thumbs: out, width: self.opts.width, interval: self.interval, covered: self.seen }
    }

    /// The track, once the pass is over: it speaks for the whole recording --
    /// including any tail with no key picture in it at all.
    pub fn finish(self) -> (r: Track)
        requires
            self.wf(),
        ensures
            r.width == self.opts.width,
            r.interval == self.interval,
            r.covered is None,
            r.thumbs == self.thumbs,
            self.diffs@.len() == 0 ==> r.scenes@.len() == 0 && r.threshold == self.opts.floor
                && r.typical == 0,
            self.diffs@.len() > 0 ==> r.threshold == bar(
                sizes(self.diffs@),
                self.duration as int,
                self.opts,
            ) && r.typical == typical_of(sizes(self.diffs@)) && r.scenes@ == marked(
                self.diffs@,
                r.threshold as int,
            ),
    {
        let (scenes, threshold, typical): (Vec<i64>, i64, i64) = mark_scenes(
            self.diffs.as_slice(),
            self.duration,
            &self.opts,
        );
        Track {
            width: self.opts.width,
            interval: self.interval,
            covered: None,
            thumbs: self.thumbs,
            scenes,
            threshold,
            typical,
        }
    }
}

impl Batch {
    /// A track holding just these.
    ///
    /// It speaks only for what has been read so far, and it has no scene
    /// index: a scene is a difference between two key pictures measured
    /// against what is typical of the whole recording, and that is not known
    /// until the pass ends.
    pub fn into_track(self) -> (r: Track)
        ensures
            r.width == self.width,
            r.interval == self.interval,
            r.covered == Some(self.covered),
            r.thumbs == self.thumbs,
            r.scenes@.len() == 0,
            r.threshold == 0,
            r.typical == 0,
    {
        Track {
            width: self.width,
            interval: self.interval,
            covered: Some(self.covered),
            thumbs: self.thumbs,
            scenes: Vec::new(),
            threshold: 0,
            typical: 0,
        }
    }
}

/// However much moves, there are never more scenes than there is room for:
/// they are no nearer to one another, on average, than was asked.
pub proof fn law_scenes_are_not_nearer_than_asked(
    diffs: Seq<(i64, i64)>,
    duration: int,
    opts: ThumbOptions,
)
    ensures
        most_scenes(duration, opts.min_spacing as int) matches Some(cap) ==> marked(
            diffs,
            bar(sizes(diffs), duration, opts),
        ).len() <= cap,
{
    let all = sizes(diffs);
    lemma_marked_reach(diffs, bar(all, duration, opts));
    lemma_room_for_one(duration, opts.min_spacing as int);
    if let Some(cap) = most_scenes(duration, opts.min_spacing as int) {
        if reaching(all, first_bar(all, opts)) > cap {
            lemma_raised(all, cap);
        }
    }
}

/// The bar is never under the floor, and it is raised no further than it has
/// to be: where a difference that was enough is under it, more pictures differ
/// by that much than there is room for.
pub proof fn law_the_bar_is_raised_no_further(
    sizes: Seq<i64>,
    duration: int,
    opts: ThumbOptions,
)
    ensures
        bar(sizes, duration, opts) >= first_bar(sizes, opts) >= opts.floor,
        most_scenes(duration, opts.min_spacing as int) matches Some(cap) ==> forall|i: int|
            0 <= i < sizes.len() && first_bar(sizes, opts) <= #[trigger] sizes[i] < bar(
                sizes,
                duration,
                opts,
            ) ==> reaching(sizes, sizes[i] as int) > cap,
{
    let first = first_bar(sizes, opts);
    lemma_room_for_one(duration, opts.min_spacing as int);
    if let Some(cap) = most_scenes(duration, opts.min_spacing as int) {
        if reaching(sizes, first) > cap {
            lemma_raised(sizes, cap);
            let b = raised(sizes, cap);
            if b < first {
                crate::rank::lemma_under_grows(sizes, b, first);
            }
            let last = at_place(sizes, sizes.len() - cap);
            crate::rank::lemma_at_place(sizes, sizes.len() - cap);
            assert forall|i: int| 0 <= i < sizes.len() && first <= #[trigger] sizes[i]
                < b implies reaching(sizes, sizes[i] as int) > cap by {
                let v = sizes[i] as int;
                crate::rank::lemma_under_counts(sizes, i);
                if v < last {
                    crate::rank::lemma_under_grows(sizes, v + 1, last);
                }
            }
        }
    }
}

/// No more differences than there is room for reach the raised bar.
proof fn lemma_raised(sizes: Seq<i64>, cap: int)
    requires
        1 <= cap < sizes.len(),
    ensures
        reaching(sizes, raised(sizes, cap)) <= cap,
{
    crate::rank::lemma_at_place(sizes, sizes.len() - cap);
}

/// As many pictures are marked as there are differences that reach the bar.
proof fn lemma_marked_reach(diffs: Seq<(i64, i64)>, bar: int)
    ensures
        marked(diffs, bar).len() == reaching(sizes(diffs), bar),
    decreases diffs.len(),
{
    if diffs.len() > 0 {
        lemma_marked_reach(diffs.drop_last(), bar);
        assert(sizes(diffs).drop_last() =~= sizes(diffs.drop_last()));
        assert(sizes(diffs).last() == diffs.last().1);
    }
}

/// There is room for one scene at least.
proof fn lemma_room_for_one(duration: int, spacing: int)
    ensures
        most_scenes(duration, spacing) matches Some(cap) ==> cap >= 1,
{
    if spacing > 0 && duration >= spacing {
        assert(duration / spacing >= 1) by (nonlinear_arith)
            requires
                duration >= spacing > 0,
        ;
    } else if spacing < 0 && duration <= spacing {
        assert((-duration) / (-spacing) >= 1) by (nonlinear_arith)
            requires
                duration <= spacing < 0,
        ;
    }
}

/// Every scene is a picture that differed enough, in the order they came.
pub proof fn law_every_scene_is_a_difference(diffs: Seq<(i64, i64)>, bar: int, k: int)
    requires
        0 <= k < marked(diffs, bar).len(),
    ensures
        exists|i: int|
            0 <= i < diffs.len() && (#[trigger] diffs[i]).0 == marked(diffs, bar)[k] && diffs[i].1
                >= bar,
    decreases diffs.len(),
{
    let less = diffs.drop_last();
    if k < marked(less, bar).len() {
        law_every_scene_is_a_difference(less, bar, k);
        let i = choose|i: int|
            0 <= i < less.len() && (#[trigger] less[i]).0 == marked(less, bar)[k] && less[i].1
                >= bar;
        assert(diffs[i] == less[i]);
    } else {
        assert(diffs[diffs.len() - 1].0 == marked(diffs, bar)[k]);
    }
}

} // verus!
