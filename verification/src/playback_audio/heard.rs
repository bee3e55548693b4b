//! What is played, and when.
use crate::playback_audio::ring::{buffer_of, caught_up, frames_in, lead_of, moved_on, Bite};
use crate::playback_audio::{
    clock_after, gain_after, loudest, plays, sample_at, window_in, with_bite, Meter,
};
use crate::time::{law_rounding_is_to_the_nearest, SECOND};
use vstd::prelude::*;

verus! {

/// The loudest a channel gets is one of its own samples, or what it got before,
/// and none of its samples is louder.
pub proof fn law_the_loudest_sample_is_found(
    data: Seq<u32>,
    laid: int,
    channel: int,
    was: u32,
    n: int,
    k: int,
)
    requires
        0 < laid,
        0 <= n <= data.len(),
    ensures
        ({
            let l = loudest(data, laid, channel, was, n);
            &&& was <= l
            &&& 0 <= k < n && k % laid == channel ==> data[k] <= l
            &&& l == was || exists|j: int|
                0 <= j < n && j % laid == channel && #[trigger] data[j] == l
        }),
    decreases n,
{
    if n > 0 {
        law_the_loudest_sample_is_found(data, laid, channel, was, n - 1, k);
        let (b, l) = (
            loudest(data, laid, channel, was, n - 1),
            loudest(data, laid, channel, was, n),
        );
        if l == b {
            if l != was {
                let j = choose|j: int|
                    0 <= j < n - 1 && j % laid == channel && #[trigger] data[j] == b;
                assert(data[j] == l);
            }
        } else {
            assert(data[n - 1] == l);
        }
    }
}

/// A meter holds the loudest of what it was given on each channel it is given
/// something on, and keeps the rest.
pub proof fn law_a_meter_holds_the_loudest(m: Meter, bite: Bite, c: int)
    requires
        0 <= c < m.peak.len() <= 8,
    ensures
        ({
            let now = with_bite(m, bite);
            let given = c < bite.channels || (c == 0 && bite.channels == 0);
            &&& now.peak.len() == m.peak.len()
            &&& m.peak[c] <= now.peak[c]
            &&& given ==> bite.peaks@[c] <= now.peak[c] && (now.peak[c] == m.peak[c] || now.peak[c]
                == bite.peaks@[c])
            &&& !given ==> now.peak[c] == m.peak[c]
            &&& 1 <= bite.channels <= 8 ==> now.channels == bite.channels
        }),
{
}

/// A gain that is a number between nothing and full is taken as it is; one over
/// full is full, one under nothing is nothing, and what is no number changes
/// nothing.
pub proof fn law_a_gain_stays_between_nothing_and_full(held: u32, asked: u32)
    ensures
        asked <= 0x3F80_0000 ==> gain_after(held, asked) == asked,
        0x3F80_0000 < asked <= 0x7F80_0000 ==> gain_after(held, asked) == 0x3F80_0000,
        0x8000_0000 < asked <= 0xFF80_0000 ==> gain_after(held, asked) == 0,
        0x7F80_0000 < asked < 0x8000_0000 || 0xFF80_0000 < asked ==> gain_after(held, asked) == held,
{
}

/// Whether anything of a range is left from a moment on.
pub open spec fn is_left(r: (i64, i64), from: int) -> bool {
    r.0 < r.1 && from < r.1
}

/// What is played of some ranges is all that is left of them from a moment on,
/// in order: each starts where its range does, or at that moment where the range
/// started before it. On the output's clock each follows the one before without
/// a gap.
pub proof fn law_every_range_is_played_in_turn(
    ranges: Seq<(i64, i64)>,
    from: int,
    base: int,
    n: int,
    k: int,
)
    requires
        0 <= n <= ranges.len(),
        i64::MIN <= from <= i64::MAX,
        forall|m: int|
            0 <= m <= n ==> i64::MIN <= #[trigger] clock_after(ranges, from, base, m) <= i64::MAX,
    ensures
        ({
            let out = plays(ranges, from, base, n);
            let left = ranges.take(n).filter(|r: (i64, i64)| is_left(r, from));
            &&& out.len() == left.len()
            &&& 0 <= k < out.len() ==> {
                let p = out[k];
                &&& p.opens == left[k].0 && p.end == left[k].1
                &&& p.start < p.end
                &&& p.start == (if left[k].0 >= from {
                    left[k].0 as int
                } else {
                    from
                })
                &&& k == 0 ==> p.here == base
                &&& k > 0 ==> p.here == out[k - 1].here + (out[k - 1].end - out[k - 1].start)
            }
            &&& out.len() == 0 ==> clock_after(ranges, from, base, n) == base
            &&& out.len() > 0 ==> clock_after(ranges, from, base, n) == out.last().here + (
            out.last().end - out.last().start)
        }),
    decreases n,
{
    reveal(Seq::filter);
    if n > 0 {
        assert(ranges.take(n).drop_last() =~= ranges.take(n - 1));
        assert(ranges.take(n).last() == ranges[n - 1]);
        law_every_range_is_played_in_turn(ranges, from, base, n - 1, k);
        assert(i64::MIN <= clock_after(ranges, from, base, n - 1) <= i64::MAX);
    }
}

/// Of a frame what is played is from the sample nearest the start of the range
/// on, or from its own first where it comes later, to the one nearest the end,
/// or to its own last.
pub proof fn law_a_frame_is_played_inside_the_range(
    n: int,
    rate: u32,
    t: int,
    start: int,
    end: int,
)
    requires
        0 <= n,
        t <= end,
    ensures
        ({
            let (a, b) = window_in(n, rate, t, start, end);
            &&& start <= t ==> a == 0
            &&& start > t ==> 2 * ((start - t) * rate) - SECOND < 2 * (a * SECOND) <= 2 * ((start
                - t) * rate) + SECOND
            &&& b <= n
            &&& b < n ==> 2 * ((end - t) * rate) - SECOND < 2 * (b * SECOND) <= 2 * ((end - t)
                * rate) + SECOND
            &&& (end - t) * rate >= n * SECOND ==> b == n
        }),
{
    let d = start - t;
    if d > 0 {
        assert(d * rate >= 0) by (nonlinear_arith)
            requires
                d > 0,
                rate >= 0,
        ;
        law_rounding_is_to_the_nearest(d * rate, SECOND as int);
    } else {
        assert(0 * rate == 0);
        law_rounding_is_to_the_nearest(0, SECOND as int);
        assert(crate::time::rounded(0, SECOND as int) == 0);
    }
    let e = end - t;
    assert(e * rate >= 0) by (nonlinear_arith)
        requires
            e >= 0,
            rate >= 0,
    ;
    law_rounding_is_to_the_nearest(e * rate, SECOND as int);
}

/// The sample a moment falls on is the first that is not before it, as far as
/// there are samples.
pub proof fn law_a_moment_falls_on_the_next_sample(d: int, rate: int, n: int)
    requires
        0 <= n,
        0 < rate,
    ensures
        ({
            let k = sample_at(d, rate, n);
            &&& 0 <= k <= n
            &&& d <= 0 ==> k == 0
            &&& 0 < d && k < n ==> (k - 1) * SECOND < d * rate <= k * SECOND
            &&& 0 < d && d * rate > n * SECOND ==> k == n
        }),
{
    if d > 0 {
        let v = d * rate;
        assert(v > 0) by (nonlinear_arith)
            requires
                v == d * rate,
                d > 0,
                rate > 0,
        ;
    }
}

/// What is left once so many frames are played is all but those.
pub proof fn law_what_is_left_is_all_but_what_was_played(bites: Seq<Bite>, n: int, rate: u32)
    requires
        0 <= n <= frames_in(bites),
    ensures
        frames_in(moved_on(bites, n, rate)) == frames_in(bites) - n,
    decreases bites.len(),
{
    if n > 0 && bites.len() > 0 {
        if bites[0].frames > n {
            let out = moved_on(bites, n, rate);
            assert(out.skip(1) =~= bites.skip(1));
        } else {
            law_what_is_left_is_all_but_what_was_played(
                bites.skip(1),
                n - bites[0].frames,
                rate,
            );
        }
    } else if bites.len() == 0 {
        assert(frames_in(bites) == 0);
    }
}

/// Catching up leaves nothing that is more than a twenty-fifth of a second late.
pub proof fn law_catching_up_leaves_nothing_late(bites: Seq<Bite>, now: int, rate: u32)
    ensures
        ({
            let (left, dropped) = caught_up(bites, now, rate);
            &&& left.len() == 0 || 25 * (now - left[0].due) <= SECOND
            &&& 0 <= dropped
            &&& bites.len() > 0 && 25 * (now - bites[0].due) <= SECOND ==> left == bites && dropped
                == 0
            &&& bites.len() > 0 && 25 * (now - bites[0].due) > SECOND ==> dropped > 0
        }),
    decreases crate::playback_audio::ring::weight(bites),
{
    if bites.len() > 0 && now - bites[0].due > crate::playback_audio::ring::SLACK {
        let n = crate::playback_audio::ring::drop_count(bites[0], now, rate);
        crate::playback_audio::ring::lemma_moved_on(bites, n, rate);
        law_catching_up_leaves_nothing_late(moved_on(bites, n, rate), now, rate);
    }
}

/// Sound that is early waits: as many frames of silence as come nearest to how
/// early it is, where that is more than a twenty-fifth of a second.
pub proof fn law_early_sound_waits(bites: Seq<Bite>, now: int, rate: u32, frames: int)
    requires
        bites.len() > 0,
        0 <= frames,
    ensures
        ({
            let early = bites[0].due - now;
            let lead = lead_of(bites, now, rate, frames);
            &&& 25 * early <= SECOND ==> lead == 0
            &&& 25 * early > SECOND && lead < frames ==> 2 * (early * rate) - SECOND < 2 * (lead
                * SECOND) <= 2 * (early * rate) + SECOND
            &&& lead <= frames
        }),
{
    let early = bites[0].due - now;
    if early > 0 {
        assert(early * rate >= 0) by (nonlinear_arith)
            requires
                early > 0,
                rate >= 0,
        ;
        law_rounding_is_to_the_nearest(early * rate, SECOND as int);
    }
}

/// What is handed out is silence, then the samples, then silence again where
/// they do not fill it.
pub proof fn law_a_buffer_is_silence_and_then_sound(
    samples: Seq<u32>,
    len: int,
    silent: int,
    i: int,
)
    requires
        0 <= silent <= len,
        0 <= i < len,
    ensures
        ({
            let out = buffer_of(samples, len, silent);
            &&& out.len() == len
            &&& i < silent ==> out[i] == 0
            &&& silent <= i < silent + samples.len() ==> out[i] == samples[i - silent]
            &&& silent + samples.len() <= i ==> out[i] == 0
        }),
{
}

} // verus!
