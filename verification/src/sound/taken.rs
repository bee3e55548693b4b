//! Which of a recording's packets a range takes, and where their sound lands.
use crate::sound::lay::{
    laid_after, laid_to, turn_of, turned, Laid, PacketFacts, Taking, Turn,
};
use crate::time::{rounded, SECOND};
use vstd::prelude::*;

verus! {

/// When a packet is, counted from where the recording starts.
pub open spec fn since_start(p: PacketFacts, by: Taking) -> int {
    rounded(p.pts->0 * by.base.num * SECOND, by.base.den as int) - by.start_time
}

/// How long a packet is: as long as it says, or as a frame of the recording is
/// where it does not say.
pub open spec fn lasting(p: PacketFacts, by: Taking) -> int {
    if p.duration > 0 {
        rounded(p.duration * by.base.num * SECOND, by.base.den as int)
    } else if by.frame_secs is Some {
        by.frame_secs->0 as int
    } else {
        0
    }
}

/// A packet is taken by when it is, counted from where the recording starts. A
/// range is over at the first of its track's packets that starts where it ends
/// or later. Of those before, one is copied exactly where it has a length and
/// its middle is behind the start of the range; it goes out where the sound has
/// reached, and the sound then reaches its end. Nothing else moves the sound.
#[verifier::spinoff_prover]
#[verifier::rlimit(60)]
pub proof fn law_a_packet_is_copied_where_its_middle_is_inside(
    p: PacketFacts,
    by: Taking,
    l: Laid,
)
    requires
        p.ours,
        p.pts is Some,
        by.base.den > 0,
        !by.recoding,
        i64::MIN <= lasting(p, by) <= i64::MAX,
        i64::MIN <= l.written + lasting(p, by) <= i64::MAX,
    ensures
        ({
            let (t, long) = (since_start(p, by), lasting(p, by));
            let turn = turned(p, by, l);
            &&& turn is Stop <==> t >= by.range.1
            &&& turn is Copy <==> t < by.range.1 && long > 0 && 2 * by.range.0 < t + (t + long)
            &&& turn !is Recode
            &&& turn matches Turn::Copy { at, dur, patched } ==> at == l.written && dur == long
            &&& turn is Copy ==> laid_after(p, by, l) == (Laid {
                prev: p.pts,
                written: (l.written + long) as i64,
            })
            &&& turn !is Copy ==> laid_after(p, by, l) == l
        }),
{
}

/// Where a track is made again as a whole, a packet goes to the encoder exactly
/// where it starts before the range ends and the frame behind it ends after the
/// range starts; and nothing is copied.
pub proof fn law_a_packet_is_recoded_where_the_range_touches_it(
    p: PacketFacts,
    by: Taking,
    l: Laid,
)
    requires
        p.ours,
        p.pts is Some,
        by.base.den > 0,
        by.recoding,
    ensures
        ({
            let (t, long) = (since_start(p, by), lasting(p, by));
            let turn = turned(p, by, l);
            &&& turn is Stop <==> t >= by.range.1
            &&& turn is Recode <==> t < by.range.1 && by.range.0 < (t + long) + long
            &&& turn !is Copy
            &&& laid_after(p, by, l) == l
        }),
{
}

/// A packet of another stream is never taken. It ends the range exactly where
/// it is five seconds past it, or more.
pub proof fn law_another_stream_ends_a_range_only_well_past_it(
    p: PacketFacts,
    by: Taking,
    l: Laid,
)
    ensures
        !p.ours ==> (turned(p, by, l) is Stop <==> p.elsewhere is Some && p.elsewhere->0
            - by.range.1 >= 5 * SECOND),
        !p.ours ==> turned(p, by, l) is Stop || turned(p, by, l) is Pass,
        p.ours && p.pts is None ==> turned(p, by, l) is Pass,
        !p.ours || p.pts is None ==> laid_after(p, by, l) == l,
{
}

/// A frame made beforehand is used where it has to follow nothing, or has to
/// follow what was written last, and nowhere else.
pub proof fn law_a_patch_follows_what_it_was_made_for(p: PacketFacts, by: Taking, l: Laid)
    requires
        turned(p, by, l) is Copy,
    ensures
        p.patch is None ==> !turned(p, by, l)->patched,
        p.patch == Some(None::<i64>) ==> turned(p, by, l)->patched,
        p.patch matches Some(Some(after)) ==> (turned(p, by, l)->patched <==> l.prev == Some(
            after,
        )),
{
}

/// Rounding moves with what is rounded, by whole numbers, on either side of
/// nought.
proof fn lemma_rounded_moves(a: int, n: int, b: int)
    requires
        b > 0,
        a >= 0 <==> a + n * b >= 0,
    ensures
        rounded(a + n * b, b) == rounded(a, b) + n,
{
    let d = 2 * b;
    if a >= 0 {
        assert(2 * (a + n * b) + b == (2 * a + b) + n * d) by (nonlinear_arith)
            requires
                d == 2 * b,
        ;
        vstd::arithmetic::div_mod::lemma_hoist_over_denominator(2 * a + b, n, d as nat);
    } else {
        assert(2 * (-(a + n * b)) + b == (2 * (-a) + b) + (-n) * d) by (nonlinear_arith)
            requires
                d == 2 * b,
        ;
        vstd::arithmetic::div_mod::lemma_hoist_over_denominator(2 * (-a) + b, -n, d as nat);
    }
}

/// Only how long after the start of the recording a packet is counts: moving
/// the start and every stamp by the same time changes no turn. Stamps stay on
/// the side of nought they are on, since a half is rounded away from it.
#[verifier::spinoff_prover]
#[verifier::rlimit(40)]
pub proof fn law_moving_a_recording_changes_no_turn(
    p: PacketFacts,
    q: PacketFacts,
    by: Taking,
    moved: Taking,
    l: Laid,
    ticks: int,
    time: int,
)
    requires
        by.base.den > 0,
        p.pts is Some,
        q == (PacketFacts { pts: q.pts, ..p }),
        q.pts == Some((p.pts->0 + ticks) as i64),
        i64::MIN <= p.pts->0 + ticks <= i64::MAX,
        p.pts->0 >= 0 <==> p.pts->0 + ticks >= 0,
        ticks * by.base.num * SECOND == time * by.base.den,
        moved == (Taking { start_time: moved.start_time, ..by }),
        moved.start_time == by.start_time + time,
    ensures
        turned(q, moved, l) == turned(p, by, l),
{
    let (n, d) = (by.base.num as int, by.base.den as int);
    let a = p.pts->0 * n * SECOND;
    let b = (p.pts->0 + ticks) * n * SECOND;
    assert(b == a + time * d) by (nonlinear_arith)
        requires
            a == p.pts->0 * n * 705_600_000,
            b == (p.pts->0 + ticks) * n * 705_600_000,
            ticks * n * 705_600_000 == time * d,
    ;
    if n > 0 {
        assert((a >= 0) == (p.pts->0 >= 0)) by (nonlinear_arith)
            requires
                a == p.pts->0 * n * 705_600_000,
                n > 0,
        ;
        assert((b >= 0) == (p.pts->0 + ticks >= 0)) by (nonlinear_arith)
            requires
                b == (p.pts->0 + ticks) * n * 705_600_000,
                n > 0,
        ;
    } else {
        assert(a == 0 && b == 0) by (nonlinear_arith)
            requires
                a == p.pts->0 * n * 705_600_000,
                b == (p.pts->0 + ticks) * n * 705_600_000,
                n == 0,
        ;
    }
    lemma_rounded_moves(a, time, d);
}

/// Whether packets are of the track and lie one behind another.
pub open spec fn lie_in_line(all: Seq<PacketFacts>, by: Taking) -> bool {
    &&& forall|k: int|
        0 <= k < all.len() ==> (#[trigger] all[k]).ours && all[k].pts is Some && lasting(
            all[k],
            by,
        ) > 0
    &&& forall|k: int, m: int|
        0 <= k < all.len() && m == k + 1 && m < all.len() ==> since_start(#[trigger] all[m], by)
            == since_start(#[trigger] all[k], by) + lasting(all[k], by)
}

/// Where the sound has reached, once the first that is taken has been.
#[verifier::spinoff_prover]
#[verifier::rlimit(60)]
proof fn lemma_reached(all: Seq<PacketFacts>, by: Taking, l: Laid, i: int, j: int)
    requires
        lie_in_line(all, by),
        by.base.den > 0,
        !by.recoding,
        0 <= i <= j < all.len(),
        turn_of(all, by, l, i) is Copy,
        since_start(all[j], by) < by.range.1,
        -0x1000_0000_0000_0000 <= laid_to(all, by, l, i).written <= 0x1000_0000_0000_0000,
        forall|k: int|
            0 <= k < all.len() ==> -0x400_0000_0000_0000 <= since_start(#[trigger] all[k], by)
                <= 0x400_0000_0000_0000 && lasting(all[k], by) <= 0x400_0000_0000_0000,
    ensures
        turn_of(all, by, l, j) is Copy,
        laid_to(all, by, l, j).written == laid_to(all, by, l, i).written + since_start(all[j], by)
            - since_start(all[i], by),
        since_start(all[i], by) <= since_start(all[j], by),
    decreases j - i,
{
    assert(all[i].ours && all[j].ours);
    if i < j {
        assert(all[j - 1].ours);
        assert(since_start(all[j], by) == since_start(all[j - 1], by) + lasting(all[j - 1], by));
        lemma_reached(all, by, l, i, j - 1);
        assert(laid_to(all, by, l, j) == laid_after(all[j - 1], by, laid_to(all, by, l, j - 1)));
    }
}

/// The sound of a range keeps step with the recording: of packets that lie one
/// behind another, what is between two that are taken is taken too, and the
/// second goes out as long after the first as it is in the recording.
#[verifier::spinoff_prover]
#[verifier::rlimit(60)]
pub proof fn law_sound_keeps_step_with_the_recording(
    all: Seq<PacketFacts>,
    by: Taking,
    l: Laid,
    i: int,
    j: int,
)
    requires
        lie_in_line(all, by),
        by.base.den > 0,
        !by.recoding,
        0 <= i <= j < all.len(),
        turn_of(all, by, l, i) is Copy,
        turn_of(all, by, l, j) is Copy,
        -0x1000_0000_0000_0000 <= turn_of(all, by, l, i)->at <= 0x1000_0000_0000_0000,
        forall|k: int|
            0 <= k < all.len() ==> -0x400_0000_0000_0000 <= since_start(#[trigger] all[k], by)
                <= 0x400_0000_0000_0000 && lasting(all[k], by) <= 0x400_0000_0000_0000,
    ensures
        turn_of(all, by, l, j)->at - turn_of(all, by, l, i)->at == since_start(all[j], by)
            - since_start(all[i], by),
        forall|k: int| i <= k <= j ==> #[trigger] turn_of(all, by, l, k) is Copy,
{
    assert(all[i].ours && all[j].ours);
    lemma_reached(all, by, l, i, j);
    assert forall|k: int| i <= k <= j implies #[trigger] turn_of(all, by, l, k) is Copy by {
        lemma_times_in_order(all, by, k, j);
        lemma_reached(all, by, l, i, k);
    }
}

/// Packets that lie one behind another come in order.
proof fn lemma_times_in_order(all: Seq<PacketFacts>, by: Taking, i: int, j: int)
    requires
        lie_in_line(all, by),
        0 <= i <= j < all.len(),
    ensures
        since_start(all[i], by) <= since_start(all[j], by),
    decreases j - i,
{
    if i < j {
        assert(all[j - 1].ours && all[j].ours);
        lemma_times_in_order(all, by, i, j - 1);
    }
}

/// And the sound is the range's, to half a frame where it opens and less than
/// one where it closes: of packets that lie one behind another from before the
/// range to past it, the first taken starts no more than half of itself off the
/// start of the range, and the last ends no earlier than the range does and
/// starts before.
#[verifier::spinoff_prover]
#[verifier::rlimit(60)]
pub proof fn law_the_sound_taken_is_the_ranges(
    all: Seq<PacketFacts>,
    by: Taking,
    l: Laid,
    i: int,
)
    requires
        lie_in_line(all, by),
        by.base.den > 0,
        !by.recoding,
        0 < i < all.len(),
        forall|k: int| 0 <= k < all.len() ==> lasting(#[trigger] all[k], by) <= i64::MAX,
    ensures
        turn_of(all, by, l, i) is Copy && !(turn_of(all, by, l, i - 1) is Copy) && since_start(
            all[i - 1],
            by,
        ) < by.range.1 ==> {
            let t = since_start(all[i], by);
            &&& 2 * (t - by.range.0) <= lasting(all[i - 1], by)
            &&& 2 * (by.range.0 - t) < lasting(all[i], by)
        },
        turn_of(all, by, l, i - 1) is Copy && turn_of(all, by, l, i) is Stop ==> {
            let t = since_start(all[i - 1], by);
            t < by.range.1 <= t + lasting(all[i - 1], by)
        },
{
    assert(all[i - 1].ours && all[i].ours);
}

} // verus!
