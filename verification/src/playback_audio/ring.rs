//! What is waiting for the sound card, kept to the clock.
use crate::playback_audio::{Levels, METERED};
use crate::time::{in_reach, round_div, rounded, SECOND};
use std::collections::VecDeque;
use vstd::prelude::*;

verus! {

/// One decoded frame, as the meter sees it: how loud each of the recording's
/// channels was in it, and how many frames of output it turned into.
///
/// The count is in output frames because that is what the card consumes, and
/// what the card has consumed is the only measure of what has been heard.
///
/// It is also where the samples are due. The ring is a run of these, one per
/// decoded frame, and `due` is when the first frame still in it is to be
/// heard, after playback began -- the clock the pictures are paced on. See
/// [`SLACK`].
#[derive(Debug, Clone, Copy)]
pub struct Bite {
    pub frames: usize,
    pub channels: usize,
    /// The loudest each channel gets: the bits of a 32-bit floating-point
    /// magnitude.
    pub peaks: [u32; METERED],
    pub due: i64,
}

/// What [`settle`](Feed::settle) has had to do over one run, for the log.
#[derive(Debug, Clone, Copy, PartialEq, Eq, Structural)]
pub struct Tally {
    /// Frames thrown away because they were late, and how many times.
    pub dropped: u64,
    pub drops: u64,
    /// Frames of silence waited because the sound was early.
    pub waited: u64,
    pub waits: u64,
}

/// What is waiting for the card: the samples themselves, each the bits of a
/// 32-bit floating-point number, and the peaks that go with them.
///
/// The two are in step: a bite of `frames` frames stands for that many frames
/// of `samples`, in the same order.
pub struct Feed {
    pub samples: VecDeque<u32>,
    pub bites: VecDeque<Bite>,
    pub tally: Tally,
}

/// How far the sound may stray from the pictures before it is put back: forty
/// milliseconds.
///
/// **Left to the card, the sound starts late and stays late.** So the clock
/// does not start until the sound is ready, and each buffer compares the head
/// of the ring with the moment it will leave the speaker. Anything further out
/// than this is set right in one go -- late samples are thrown away, early
/// ones wait behind silence. Only past this, because every correction is
/// heard: 40 ms is under what anyone notices of sound against a face, and wide
/// enough that the card and the wall clock drifting apart comes to one
/// correction every several minutes rather than one a buffer.
pub const SLACK: i64 = 28_224_000;

/// How long so many frames last.
pub open spec fn lasts(frames: int, rate: u32) -> int {
    frames * SECOND / rate as int
}

/// A bite with so many of its frames gone.
pub open spec fn eaten(b: Bite, n: int, rate: u32) -> Bite {
    Bite { frames: (b.frames - n) as usize, due: (b.due + lasts(n, rate)) as i64, ..b }
}

/// Bites moved on by so many frames.
pub open spec fn moved_on(bites: Seq<Bite>, n: int, rate: u32) -> Seq<Bite>
    decreases bites.len(),
{
    if n <= 0 || bites.len() == 0 {
        bites
    } else if bites[0].frames > n {
        seq![eaten(bites[0], n, rate)] + bites.skip(1)
    } else {
        moved_on(bites.skip(1), n - bites[0].frames, rate)
    }
}

/// The bites any of which goes as they are moved on by so many frames.
pub open spec fn heard(bites: Seq<Bite>, n: int) -> Seq<Bite>
    decreases bites.len(),
{
    if n <= 0 || bites.len() == 0 {
        Seq::empty()
    } else {
        seq![bites[0]] + heard(bites.skip(1), n - bites[0].frames)
    }
}

/// How many frames bites stand for.
pub open spec fn frames_in(bites: Seq<Bite>) -> nat
    decreases bites.len(),
{
    if bites.len() == 0 {
        0
    } else {
        bites[0].frames as nat + frames_in(bites.skip(1))
    }
}

/// How much there is to go through before bites run out.
pub open spec fn weight(bites: Seq<Bite>) -> nat {
    frames_in(bites) + bites.len()
}

/// What is gone is gone: so many frames fewer, as far as there are any.
pub proof fn lemma_moved_on(bites: Seq<Bite>, n: int, rate: u32)
    requires
        0 <= n,
    ensures
        frames_in(moved_on(bites, n, rate)) == (if n < frames_in(bites) {
            frames_in(bites) - n
        } else {
            0
        }),
        moved_on(bites, n, rate).len() <= bites.len(),
        n > 0 && bites.len() > 0 ==> weight(moved_on(bites, n, rate)) < weight(bites),
    decreases bites.len(),
{
    if n > 0 && bites.len() > 0 {
        if bites[0].frames > n {
            let now = seq![eaten(bites[0], n, rate)] + bites.skip(1);
            assert(now.skip(1) =~= bites.skip(1));
        } else {
            lemma_moved_on(bites.skip(1), n - bites[0].frames, rate);
        }
    } else if bites.len() == 0 {
        assert(frames_in(bites) == 0);
    }
}

/// How many frames are thrown away in one go: as many as are late, and no
/// more than the head of the ring has.
pub open spec fn drop_count(b: Bite, now: int, rate: u32) -> int {
    let late = rounded((now - b.due) * rate, SECOND as int);
    let most = if b.frames > 1 {
        b.frames as int
    } else {
        1
    };
    if late < 1 {
        1
    } else if late > most {
        most
    } else {
        late
    }
}

/// The bites left once those that are late are thrown away, as many deep as it
/// takes, and how many frames that came to.
pub open spec fn caught_up(bites: Seq<Bite>, now: int, rate: u32) -> (Seq<Bite>, int)
    decreases weight(bites),
{
    if bites.len() == 0 || now - bites[0].due <= SLACK {
        (bites, 0)
    } else {
        let n = drop_count(bites[0], now, rate);
        proof {
            lemma_moved_on(bites, n, rate);
        }
        let (left, more) = caught_up(moved_on(bites, n, rate), now, rate);
        (left, n + more)
    }
}

/// How many frames of silence a buffer opens with, given what is then at the
/// head of the ring.
pub open spec fn lead_of(bites: Seq<Bite>, now: int, rate: u32, frames: int) -> int {
    if bites.len() > 0 && bites[0].due - now > SLACK {
        let early = rounded((bites[0].due - now) * rate, SECOND as int);
        if early < frames {
            early
        } else {
            frames
        }
    } else {
        0
    }
}

/// Whether samples and bites are in step.
pub open spec fn in_step(samples: Seq<u32>, bites: Seq<Bite>, channels: int) -> bool {
    samples.len() == channels * frames_in(bites)
}

/// Whether a bite is one a playback can have: when it is due, and when the
/// last of it is, can be told.
pub open spec fn fine(b: Bite) -> bool {
    -0x800_0000_0000_0000 <= b.due && b.due + b.frames * SECOND <= 0x4000_0000_0000_0000
}

/// Whether a ring is one a playback can have.
pub open spec fn fine_ring(bites: Seq<Bite>) -> bool {
    &&& weight(bites) <= 0x1_0000_0000
    &&& forall|i: int| 0 <= i < bites.len() ==> fine(#[trigger] bites[i])
}

proof fn lemma_lasts(n: int, rate: u32)
    requires
        0 <= n,
        rate > 0,
    ensures
        0 <= lasts(n, rate) <= n * SECOND,
{
    let (a, r) = (n * SECOND, rate as int);
    assert(0 <= a / r <= a) by (nonlinear_arith)
        requires
            a >= 0,
            r >= 1,
    ;
}

proof fn lemma_moved_fine(bites: Seq<Bite>, n: int, rate: u32)
    requires
        0 <= n,
        rate > 0,
        fine_ring(bites),
    ensures
        fine_ring(moved_on(bites, n, rate)),
    decreases bites.len(),
{
    lemma_moved_on(bites, n, rate);
    if n > 0 && bites.len() > 0 {
        let rest = bites.skip(1);
        assert forall|i: int| 0 <= i < rest.len() implies fine(#[trigger] rest[i]) by {
            assert(rest[i] == bites[i + 1]);
        }
        assert(fine(bites[0]));
        if bites[0].frames > n {
            lemma_lasts(n, rate);
            let now = moved_on(bites, n, rate);
            assert(fine(eaten(bites[0], n, rate)));
            assert forall|i: int| 0 <= i < now.len() implies fine(#[trigger] now[i]) by {
                if i > 0 {
                    assert(now[i] == rest[i - 1]);
                }
            }
        } else {
            lemma_moved_fine(rest, n - bites[0].frames, rate);
        }
    }
}

impl Feed {
    /// Nothing waiting.
    pub fn new() -> (r: Feed)
        ensures
            r.samples@.len() == 0,
            r.bites@.len() == 0,
            r.tally == (Tally { dropped: 0, drops: 0, waited: 0, waits: 0 }),
    {
        Feed {
            samples: VecDeque::new(),
            bites: VecDeque::new(),
            tally: Tally { dropped: 0, drops: 0, waited: 0, waits: 0 },
        }
    }

    /// When the frame at the head of the ring is due, if there is one.
    pub fn due(&self) -> (r: Option<i64>)
        ensures
            r == (if self.bites@.len() > 0 {
                Some(self.bites@[0].due)
            } else {
                None
            }),
    {
        if self.bites.len() > 0 {
            Some(self.bites[0].due)
        } else {
            None
        }
    }

    /// Whether there is room for so many more samples: always where there are
    /// none yet, since one decoded frame is far under a second's worth.
    pub fn has_room(&self, more: usize, cap: usize) -> (r: bool)
        ensures
            r == (self.samples@.len() + more <= cap || self.samples@.len() == 0),
    {
        let len: usize = self.samples.len();
        len == 0 || (more <= cap && len <= cap - more)
    }

    /// One decoded frame's samples, and the bite that stands for them.
    pub fn push(&mut self, samples: Vec<u32>, bite: Bite)
        ensures
            final(self).samples@ == old(self).samples@ + samples@,
            final(self).bites@ == old(self).bites@.push(bite),
            final(self).tally == old(self).tally,
    {
        let mut i: usize = 0;
        while i < samples.len()
            invariant
                i <= samples@.len(),
                self.samples@ =~= old(self).samples@ + samples@.take(i as int),
                self.bites == old(self).bites,
                self.tally == old(self).tally,
            decreases samples@.len() - i,
        {
            self.samples.push_back(samples[i]);
            i += 1;
        }
        assert(samples@.take(i as int) =~= samples@);
        self.bites.push_back(bite);
    }

    /// Move the bites on by `frames`, and say which of them any of went. The
    /// samples are the caller's to take.
    fn pass(&mut self, frames: usize, rate: u32) -> (gone: Vec<Bite>)
        requires
            rate > 0,
            fine_ring(old(self).bites@),
        ensures
            final(self).samples == old(self).samples,
            final(self).tally == old(self).tally,
            final(self).bites@ == moved_on(old(self).bites@, frames as int, rate),
            gone@ == heard(old(self).bites@, frames as int),
            fine_ring(final(self).bites@),
    {
        let mut gone: Vec<Bite> = Vec::new();
        let mut left: usize = frames;
        let ghost was = self.bites@;
        proof {
            lemma_moved_fine(was, frames as int, rate);
        }
        while left > 0 && self.bites.len() > 0
            invariant
                rate > 0,
                self.samples == old(self).samples,
                self.tally == old(self).tally,
                fine_ring(self.bites@),
                moved_on(was, frames as int, rate) == moved_on(self.bites@, left as int, rate),
                heard(was, frames as int) =~= gone@ + heard(self.bites@, left as int),
            decreases self.bites@.len(), left,
        {
            let ghost before = self.bites@;
            let front: Bite = self.bites[0];
            assert(fine(before[0]));
            gone.push(front);
            let _taken: Option<Bite> = self.bites.pop_front();
            assert(self.bites@ =~= before.skip(1));
            proof {
                lemma_rest_fine(before);
            }
            if front.frames > left {
                proof {
                    lemma_lasts(left as int, rate);
                    assert(left * SECOND <= front.frames * SECOND);
                    lemma_moved_fine(before, left as int, rate);
                }
                let long: i64 = ((left as i128) * (SECOND as i128) / (rate as i128)) as i64;
                let less = Bite {
                    frames: front.frames - left,
                    channels: front.channels,
                    peaks: front.peaks,
                    due: front.due + long,
                };
                assert(less == eaten(front, left as int, rate));
                self.bites.push_front(less);
                assert(self.bites@ =~= moved_on(before, left as int, rate));
                assert(heard(before, left as int) =~= seq![front] + heard(
                    before.skip(1),
                    left - front.frames,
                ));
                left = 0;
                assert(heard(self.bites@, 0) =~= Seq::empty());
                assert(moved_on(self.bites@, 0, rate) == self.bites@);
            } else {
                left = left - front.frames;
            }
        }
        gone
    }
}

proof fn lemma_rest_fine(bites: Seq<Bite>)
    requires
        fine_ring(bites),
        bites.len() > 0,
    ensures
        fine_ring(bites.skip(1)),
{
    let rest = bites.skip(1);
    assert forall|i: int| 0 <= i < rest.len() implies fine(#[trigger] rest[i]) by {
        assert(rest[i] == bites[i + 1]);
    }
}

/// The lesser of two counts.
pub open spec fn least(a: int, b: int) -> int {
    if a < b {
        a
    } else {
        b
    }
}

/// How many frames a step throws away is at least one, and no more than there
/// are to go through.
proof fn lemma_drop_count(b: Bite, now: int, rate: u32)
    ensures
        1 <= drop_count(b, now, rate) <= b.frames + 1,
        b.frames > 0 ==> drop_count(b, now, rate) <= b.frames,
{
}

/// What is thrown away, and what is left of it.
proof fn lemma_caught_up(bites: Seq<Bite>, now: int, rate: u32)
    requires
        rate > 0,
        fine_ring(bites),
    ensures
        ({
            let (left, n) = caught_up(bites, now, rate);
            &&& fine_ring(left)
            &&& 0 <= n <= weight(bites)
            &&& frames_in(left) == (if n < frames_in(bites) {
                frames_in(bites) - n
            } else {
                0
            })
            &&& left.len() > 0 ==> now - left[0].due <= SLACK
        }),
    decreases weight(bites),
{
    if bites.len() > 0 && now - bites[0].due > SLACK {
        let n = drop_count(bites[0], now, rate);
        lemma_drop_count(bites[0], now, rate);
        lemma_moved_on(bites, n, rate);
        lemma_moved_fine(bites, n, rate);
        let next = moved_on(bites, n, rate);
        lemma_caught_up(next, now, rate);
        lemma_weight_less(bites, n, rate);
    }
}

/// Throwing so many frames away leaves that much less to go through.
proof fn lemma_weight_less(bites: Seq<Bite>, n: int, rate: u32)
    requires
        bites.len() > 0,
        0 < n,
        n <= bites[0].frames || (n == 1 && bites[0].frames == 0),
    ensures
        n + weight(moved_on(bites, n, rate)) <= weight(bites),
{
    lemma_moved_on(bites, n, rate);
    if bites[0].frames == 0 {
        let rest = bites.skip(1);
        lemma_moved_on(rest, 1, rate);
        assert(moved_on(bites, 1, rate) == moved_on(rest, 1, rate));
        assert(weight(bites) == 1 + weight(rest));
        if rest.len() > 0 {
            assert(weight(moved_on(rest, 1, rate)) < weight(rest));
        }
    } else {
        assert(frames_in(bites) >= bites[0].frames);
    }
}

impl Feed {
    /// Throw so many samples away, as far as there are any.
    fn drain(&mut self, n: usize)
        ensures
            final(self).samples@ == old(self).samples@.skip(
                least(n as int, old(self).samples@.len() as int),
            ),
            final(self).bites == old(self).bites,
            final(self).tally == old(self).tally,
    {
        let mut i: usize = 0;
        while i < n && self.samples.len() > 0
            invariant
                i <= n,
                i <= old(self).samples@.len(),
                self.samples@ =~= old(self).samples@.skip(i as int),
                self.bites == old(self).bites,
                self.tally == old(self).tally,
            decreases n - i,
        {
            let _gone: Option<u32> = self.samples.pop_front();
            i += 1;
        }
        assert(i == least(n as int, old(self).samples@.len() as int));
    }

    /// Bring the head of the ring to `now`, the moment the next buffer will be
    /// heard, and say how many frames of silence it should open with.
    ///
    /// Late samples are dropped here, as many bites deep as it takes -- a gap
    /// in the recording's timestamps is a bite whose `due` jumps ahead, and
    /// that one is then early. Early ones are waited for, up to the whole
    /// buffer. See [`SLACK`].
    pub fn settle(&mut self, now: i64, rate: u32, channels: usize, frames: usize) -> (lead: usize)
        requires
            in_reach(now as int),
            rate > 0,
            0 < channels <= 0xFFFF,
            frames <= 0xFFFF_FFFF,
            fine_ring(old(self).bites@),
            old(self).tally.dropped <= 0x4000_0000_0000_0000,
            old(self).tally.drops <= 0x4000_0000_0000_0000,
            old(self).tally.waited <= 0x4000_0000_0000_0000,
            old(self).tally.waits <= 0x4000_0000_0000_0000,
        ensures
            ({
                let (left, n) = caught_up(old(self).bites@, now as int, rate);
                let silence = lead_of(left, now as int, rate, frames as int);
                let early = left.len() > 0 && left[0].due - now > SLACK;
                &&& lead == silence
                &&& final(self).bites@ == left
                &&& final(self).samples@ == old(self).samples@.skip(
                    least(n * channels, old(self).samples@.len() as int),
                )
                &&& final(self).tally.dropped == old(self).tally.dropped + n
                &&& final(self).tally.drops == old(self).tally.drops + (if n > 0 {
                    1int
                } else {
                    0
                })
                &&& final(self).tally.waited == old(self).tally.waited + silence
                &&& final(self).tally.waits == old(self).tally.waits + (if early {
                    1int
                } else {
                    0
                })
            }),
            fine_ring(final(self).bites@),
            lead <= frames,
            final(self).bites@.len() > 0 ==> now - final(self).bites@[0].due <= SLACK,
            in_step(old(self).samples@, old(self).bites@, channels as int) ==> in_step(
                final(self).samples@,
                final(self).bites@,
                channels as int,
            ),
    {
        let ghost (was, held) = (self.bites@, self.samples@);
        let ghost (left, all) = caught_up(was, now as int, rate);
        proof {
            lemma_caught_up(was, now as int, rate);
        }
        let mut dropped: u64 = 0;
        loop
            invariant
                in_reach(now as int),
                rate > 0,
                0 < channels <= 0xFFFF,
                fine_ring(self.bites@),
                self.tally == old(self).tally,
                dropped <= all <= 0x1_0000_0000,
                dropped + weight(self.bites@) <= 0x1_0000_0000,
                caught_up(self.bites@, now as int, rate) == (left, all - dropped),
                self.samples@ =~= held.skip(least(dropped * channels, held.len() as int)),
            ensures
                self.bites@ == left,
                dropped == all,
                self.samples@ =~= held.skip(least(all * channels, held.len() as int)),
                self.tally == old(self).tally,
                fine_ring(self.bites@),
            decreases weight(self.bites@),
        {
            if self.bites.len() == 0 {
                break;
            }
            let front: Bite = self.bites[0];
            assert(fine(self.bites@[0]));
            let late: i128 = now as i128 - front.due as i128;
            if late <= SLACK as i128 {
                break;
            }
            let ghost before = self.bites@;
            let ghost dropped_so_far = dropped;
            proof {
                assert(-0x8000_0000_0000_0000 * 0xFFFF_FFFF <= late * rate <= 0x8000_0000_0000_0000
                    * 0xFFFF_FFFF) by (nonlinear_arith)
                    requires
                        -0x8000_0000_0000_0000 <= late <= 0x8000_0000_0000_0000,
                        0 <= rate <= 0xFFFF_FFFF,
                ;
            }
            let over: i128 = round_div(late * (rate as i128), SECOND as i128);
            let most: usize = if front.frames > 1 {
                front.frames
            } else {
                1
            };
            let n: usize = if over < 1 {
                1
            } else if over > most as i128 {
                most
            } else {
                over as usize
            };
            assert(n == drop_count(front, now as int, rate));
            proof {
                lemma_drop_count(front, now as int, rate);
                lemma_moved_on(before, n as int, rate);
                lemma_weight_less(before, n as int, rate);
                lemma_product_bound(n as int, channels as int);
            }
            let ghost some = self.samples@;
            self.drain_frames(n, channels);
            let _gone: Vec<Bite> = self.pass(n, rate);
            dropped = dropped + n as u64;
            proof {
                let c = channels as int;
                assert(dropped * c == dropped_so_far * c + n * c) by (nonlinear_arith)
                    requires
                        dropped == dropped_so_far + n,
                ;
                lemma_nonneg(dropped_so_far as int, c);
                lemma_nonneg(n as int, c);
                lemma_skips(held, dropped_so_far * c, n * c);
                lemma_caught_up(self.bites@, now as int, rate);
            }
        }
        if dropped > 0 {
            self.tally.drops = self.tally.drops + 1;
            self.tally.dropped = self.tally.dropped + dropped;
        }
        proof {
            let c = channels as int;
            if in_step(held, was, c) {
                let (x, y) = (frames_in(was) as int, all as int);
                lemma_step(x, y, c);
            }
        }
        if self.bites.len() == 0 {
            return 0;
        }
        let front: Bite = self.bites[0];
        assert(fine(self.bites@[0]));
        let early: i128 = front.due as i128 - now as i128;
        if early <= SLACK as i128 {
            return 0;
        }
        proof {
            assert(0 <= early * rate <= 0x8000_0000_0000_0000 * 0xFFFF_FFFF) by (nonlinear_arith)
                requires
                    0 <= early <= 0x8000_0000_0000_0000,
                    0 <= rate <= 0xFFFF_FFFF,
            ;
        }
        let ahead: i128 = round_div(early * (rate as i128), SECOND as i128);
        let lead: usize = if ahead < frames as i128 {
            ahead as usize
        } else {
            frames
        };
        self.tally.waits = self.tally.waits + 1;
        self.tally.waited = self.tally.waited + lead as u64;
        lead
    }

    /// Throw so many frames' samples away, as far as there are any.
    fn drain_frames(&mut self, n: usize, channels: usize)
        requires
            n <= 0x1_0000_0000,
            channels <= 0xFFFF,
        ensures
            final(self).samples@ == old(self).samples@.skip(
                least(n * channels, old(self).samples@.len() as int),
            ),
            final(self).bites == old(self).bites,
            final(self).tally == old(self).tally,
    {
        proof {
            lemma_product_bound(n as int, channels as int);
        }
        let all: u64 = n as u64 * channels as u64;
        let len: usize = self.samples.len();
        if all >= len as u64 {
            self.drain(len);
        } else {
            self.drain(all as usize);
        }
    }
}

proof fn lemma_product_bound(n: int, channels: int)
    by (nonlinear_arith)
    requires
        0 <= n <= 0x1_0000_0000,
        0 <= channels <= 0xFFFF,
    ensures
        0 <= n * channels <= 0x1_0000_0000 * 0xFFFF,
{
}

proof fn lemma_nonneg(a: int, b: int)
    by (nonlinear_arith)
    requires
        0 <= a,
        0 <= b,
    ensures
        0 <= a * b,
{
}

/// Throwing some away and then more is throwing both away.
proof fn lemma_skips(held: Seq<u32>, a: int, b: int)
    requires
        0 <= a,
        0 <= b,
    ensures
        ({
            let once = held.skip(least(a, held.len() as int));
            once.skip(least(b, once.len() as int)) =~= held.skip(least(a + b, held.len() as int))
        }),
{
}

/// As many frames as are gone, so many samples are.
proof fn lemma_step(frames: int, gone: int, channels: int)
    by (nonlinear_arith)
    requires
        0 <= frames,
        0 <= gone,
        0 < channels,
    ensures
        gone < frames ==> gone * channels < channels * frames && channels * frames - gone * channels
            == channels * (frames - gone),
        gone >= frames ==> gone * channels >= channels * frames,
        channels * 0 == 0,
{
}

/// What a buffer of so many samples holds: silence as far as it opens with it,
/// then what was waiting, then silence again where the decode has not kept up.
pub open spec fn buffer_of(samples: Seq<u32>, len: int, silent: int) -> Seq<u32> {
    Seq::new(
        len as nat,
        |i: int|
            if silent <= i && i - silent < samples.len() {
                samples[i - silent]
            } else {
                0
            },
    )
}

impl Feed {
    /// Hand a buffer of so many samples to the card, opening with so many
    /// frames of silence, and tell the meter what was heard.
    ///
    /// What is metered is what was actually there to play: silence nobody
    /// recorded is not something to meter.
    pub fn play(
        &mut self,
        len: usize,
        lead: usize,
        rate: u32,
        channels: usize,
        levels: &mut Levels,
    ) -> (out: Vec<u32>)
        requires
            rate > 0,
            0 < channels <= 0xFFFF,
            lead * channels <= len,
            fine_ring(old(self).bites@),
            old(levels).wf(),
        ensures
            out@ == buffer_of(old(self).samples@, len as int, lead * channels),
            final(self).samples@ == old(self).samples@.skip(
                least(len - lead * channels, old(self).samples@.len() as int),
            ),
            final(self).tally == old(self).tally,
            fine_ring(final(self).bites@),
            ({
                let frames = if len / channels > 0 {
                    (len / channels) as int
                } else {
                    1
                };
                let had = least(old(self).samples@.len() as int / channels as int, frames - lead);
                &&& final(self).bites@ == moved_on(old(self).bites@, had, rate)
                &&& final(levels)@ == crate::playback_audio::eaten_all(
                    old(levels)@,
                    heard(old(self).bites@, had),
                )
            }),
            final(levels).wf(),
    {
        let frames: usize = if len / channels > 0 {
            len / channels
        } else {
            1
        };
        proof {
            assert(lead <= len / channels) by (nonlinear_arith)
                requires
                    lead * channels <= len,
                    channels > 0,
                    lead >= 0,
                    len >= 0,
            ;
        }
        let waiting: usize = self.samples.len() / channels;
        let had: usize = if waiting < frames - lead {
            waiting
        } else {
            frames - lead
        };
        let silent: usize = lead * channels;
        let ghost held = self.samples@;
        let ghost all = buffer_of(held, len as int, silent as int);
        let mut out: Vec<u32> = Vec::new();
        let mut i: usize = 0;
        while i < len
            invariant
                i <= len,
                silent <= len,
                all == buffer_of(held, len as int, silent as int),
                out@ =~= all.take(i as int),
                self.bites == old(self).bites,
                self.tally == old(self).tally,
                i <= silent ==> self.samples@ == held,
                i > silent ==> self.samples@ =~= held.skip(
                    least(i - silent, held.len() as int),
                ),
            decreases len - i,
        {
            let mut v: u32 = 0;
            if i >= silent {
                if let Some(s) = self.samples.pop_front() {
                    v = s;
                }
            }
            out.push(v);
            i += 1;
        }
        assert(out@ =~= all);
        if len == silent {
            assert(held.skip(0) =~= held);
        }
        let gone: Vec<Bite> = self.pass(had, rate);
        let mut k: usize = 0;
        while k < gone.len()
            invariant
                k <= gone@.len(),
                levels.wf(),
                levels@ == crate::playback_audio::eaten_all(
                    old(levels)@,
                    gone@.take(k as int),
                ),
            decreases gone@.len() - k,
        {
            assert(gone@.take(k + 1).drop_last() =~= gone@.take(k as int));
            levels.eat(&gone[k]);
            k += 1;
        }
        assert(gone@.take(k as int) =~= gone@);
        out
    }
}

/// What is left behind a buffer is still in step: a ring whose samples were as
/// many as its bites say is one afterwards, for a buffer of whole frames. One
/// of no frames at all is no buffer.
pub proof fn law_playing_keeps_step(
    samples: Seq<u32>,
    bites: Seq<Bite>,
    len: int,
    lead: int,
    rate: u32,
    channels: int,
)
    requires
        0 < channels,
        0 <= lead,
        lead * channels <= len,
        0 < len,
        len % channels == 0,
        in_step(samples, bites, channels),
    ensures
        ({
            let had = least(samples.len() as int / channels, len / channels - lead);
            in_step(
                samples.skip(least(len - lead * channels, samples.len() as int)),
                moved_on(bites, had, rate),
                channels,
            )
        }),
{
    let (all, frames) = (frames_in(bites) as int, len / channels);
    let had = least(samples.len() as int / channels, frames - lead);
    assert(len == channels * frames) by (nonlinear_arith)
        requires
            frames == len / channels,
            len % channels == 0,
            channels > 0,
    ;
    assert((channels * all) / channels == all) by (nonlinear_arith)
        requires
            channels > 0,
    ;
    assert(lead <= frames) by (nonlinear_arith)
        requires
            lead * channels <= channels * frames,
            channels > 0,
    ;
    lemma_moved_on(bites, had, rate);
    let gone = least(len - lead * channels, samples.len() as int);
    assert(gone == channels * had) by (nonlinear_arith)
        requires
            len == channels * frames,
            channels > 0,
            samples.len() == channels * all,
            had == (if all < frames - lead { all } else { frames - lead }),
            gone == (if len - lead * channels < samples.len() { len - lead * channels } else {
                samples.len() as int
            }),
    ;
    assert(channels * all - channels * had == channels * (all - had)) by (nonlinear_arith);
}

} // verus!
