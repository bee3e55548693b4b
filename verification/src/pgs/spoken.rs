//! What a set of segments says, wherever it is put.
use crate::pgs::write::{
    composition_bytes, down, object_segment, object_segments, object_take, window_bytes,
    ComposerModel, Window,
};
use crate::pgs::{
    as_epoch_start, cleared_body, composition_of, first_instant, moved_set, stamp_of, HeldModel,
};
use vstd::prelude::*;

verus! {

/// A stamp is the tick of the ninety-thousandth nearest to a time, and none is
/// under nought nor over what four bytes hold.
pub proof fn law_a_stamp_is_the_nearest_tick(t: int)
    ensures
        ({
            let k = stamp_of(t);
            &&& 0 <= k <= 0xFFFF_FFFF
            &&& t <= 0 ==> k == 0
            &&& 0 <= t && k < 0xFFFF_FFFF ==> 2 * t - 7_840 < 2 * (7_840 * k) <= 2 * t + 7_840
        }),
{
}

/// Nothing in a set is before its first instant, and something is at it.
pub proof fn law_nothing_is_before_the_first_instant(set: Seq<HeldModel>, i: int)
    requires
        0 <= i < set.len(),
    ensures
        first_instant(set) <= set[i].pts,
        first_instant(set) <= set[i].dts,
        exists|k: int|
            0 <= k < set.len() && ((#[trigger] set[k]).pts == first_instant(set) || set[k].dts
                == first_instant(set)),
    decreases set.len(),
{
    let one = set.last();
    assert(set[set.len() - 1] == one);
    if set.len() > 1 {
        let less = set.drop_last();
        let j = if i < less.len() {
            i
        } else {
            0
        };
        law_nothing_is_before_the_first_instant(less, j);
        if first_instant(set) == first_instant(less) {
            let k = choose|k: int|
                0 <= k < less.len() && ((#[trigger] less[k]).pts == first_instant(less)
                    || less[k].dts == first_instant(less));
            assert(set[k] == less[k]);
        }
    }
}

/// A set that is moved starts at the moment asked for, and its segments are as
/// far apart as they were; all any of them changes is that it opens an epoch.
pub proof fn law_a_moved_set_keeps_its_pace(set: Seq<HeldModel>, at: int, i: int, j: int)
    requires
        0 <= i < set.len(),
        0 <= j < set.len(),
    ensures
        ({
            let out = moved_set(set, at);
            &&& out.len() == set.len()
            &&& out[i].pts - out[j].pts == set[i].pts - set[j].pts
            &&& out[i].dts - out[j].pts == set[i].dts - set[j].pts
            &&& at <= out[i].pts && at <= out[i].dts
            &&& exists|k: int|
                0 <= k < out.len() && ((#[trigger] out[k]).pts == at || out[k].dts == at)
            &&& out[i].data.len() == set[i].data.len()
            &&& forall|n: int|
                0 <= n < set[i].data.len() && n != 10 ==> #[trigger] out[i].data[n]
                    == set[i].data[n]
        }),
{
    law_nothing_is_before_the_first_instant(set, i);
    let out = moved_set(set, at);
    let k = choose|k: int|
        0 <= k < set.len() && ((#[trigger] set[k]).pts == first_instant(set) || set[k].dts
            == first_instant(set));
    assert(out[k].pts == at || out[k].dts == at);
    assert(out[i].data == as_epoch_start(set[i].data));
}

/// What is said to take a picture down is of the same screen, follows on the
/// one before in number, and shows nothing.
pub proof fn law_a_picture_is_taken_down_by_the_next_number(body: Seq<u8>)
    requires
        body.len() >= 11,
    ensures
        ({
            let out = cleared_body(body);
            &&& out.len() == 11
            &&& out.take(5) == body.take(5)
            &&& out[5] * 256 + out[6] == (body[5] * 256 + body[6] + 1) % 65_536
            &&& out[7] == 0
            &&& out[10] == 0
        }),
{
    assert(cleared_body(body).take(5) =~= body.take(5));
}

/// A composition reads back: its number, its state, and whether it shows
/// anything.
pub proof fn law_a_composition_reads_back(
    screen: (u16, u16),
    number: u16,
    state: u8,
    place: Option<(u16, u16)>,
)
    requires
        state % 64 == 0,
    ensures
        ({
            let b = composition_bytes(screen, number, state, place);
            &&& b[0] * 256 + b[1] == screen.0 && b[2] * 256 + b[3] == screen.1
            &&& composition_of(b) matches Some(c) && c.number == number && c.state == state
                && c.objects == (if place is Some {
                1int
            } else {
                0
            })
            &&& place matches Some(p) ==> b[15] * 256 + b[16] == p.0 && b[17] * 256 + b[18] == p.1
        }),
{
}

/// A window is where the picture is, and as large.
pub proof fn law_a_window_is_where_the_picture_is(w: Window)
    ensures
        ({
            let b = window_bytes(w);
            &&& b.len() == 10
            &&& b[0] == 1
            &&& b[2] * 256 + b[3] == w.0 && b[4] * 256 + b[5] == w.1
            &&& b[6] * 256 + b[7] == w.2 && b[8] * 256 + b[9] == w.3
        }),
{
}

/// The data that objects carry between them.
pub open spec fn carried(objects: Seq<Seq<u8>>, first: bool) -> Seq<u8>
    decreases objects.len(),
{
    if objects.len() == 0 {
        Seq::empty()
    } else {
        objects[0].skip(if first {
            11
        } else {
            4
        }) + carried(objects.skip(1), false)
    }
}

/// A picture too large for one object is carried by several, and loses nothing
/// by it: their data put together is the picture's. The first says so, and how
/// large the picture is; the last says that it is.
pub proof fn law_objects_carry_the_whole_picture(
    rest: Seq<u8>,
    first: bool,
    whole: int,
    width: u16,
    height: u16,
)
    ensures
        ({
            let all = object_segments(rest, first, whole, width, height);
            &&& carried(all, first) == rest
            &&& forall|i: int| 0 <= i < all.len() ==> (#[trigger] all[i]).len() < 65_536
            &&& forall|i: int|
                0 <= i < all.len() ==> ((#[trigger] all[i])[3] / 128 == 1) == (first && i == 0)
            &&& forall|i: int|
                0 <= i < all.len() ==> ((#[trigger] all[i])[3] / 64 % 2 == 1) == (i == all.len()
                    - 1)
            &&& first ==> all.len() > 0 && all[0][7] * 256 + all[0][8] == width && all[0][9] * 256
                + all[0][10] == height
        }),
    decreases rest.len(), (if first { 1int } else { 0 }),
{
    let all = object_segments(rest, first, whole, width, height);
    if first || rest.len() > 0 {
        let take = object_take(rest, first);
        let left = rest.skip(take);
        let one = object_segment(rest, first, whole, width, height);
        let more = object_segments(left, false, whole, width, height);
        law_objects_carry_the_whole_picture(left, false, whole, width, height);
        assert(all == seq![one] + more);
        assert(all.skip(1) =~= more);
        assert(one.skip(if first {
            11
        } else {
            4
        }) =~= rest.take(take));
        assert(rest.take(take) + left =~= rest);
        assert(forall|i: int| 1 <= i < all.len() ==> #[trigger] all[i] == more[i - 1]);
        assert(all[0] == one);
        assert(take == rest.len() <==> left.len() == 0);
        if left.len() == 0 {
            assert(more =~= Seq::empty());
        } else {
            assert(more.len() > 0);
        }
    } else {
        assert(all =~= Seq::empty());
    }
}

/// What stands is taken down once: at the moment asked for, or when it was to
/// come down where that is earlier, in its own window and under the next number.
pub proof fn law_what_stands_is_taken_down_in_its_window(
    c: ComposerModel,
    screen: (u16, u16),
    at: i64,
    window: Window,
    until: Option<i64>,
)
    requires
        c.standing == Some((window, until)),
    ensures
        ({
            let (now, out) = down(c, screen, at);
            &&& now.standing is None
            &&& now.number == (c.number + 1) % 65_536
            &&& out.len() == 3
            &&& forall|i: int|
                0 <= i < 3 ==> (#[trigger] out[i]).pts == (if until is Some && until->0 < at {
                    until->0
                } else {
                    at
                })
        }),
{
}

} // verus!
