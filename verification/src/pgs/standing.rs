//! What holds of every plane a stream has been read into, and what follows
//! for either end of a kept range.
use crate::bytes::be16;
use crate::pgs::{
    as_epoch_start, blank, composition_of, ends_set, fed_all, fed_plane, first_instant,
    law_a_clear_empties_the_plane, replayed, segments_from, taken_down, with_segments,
    Composition, HeldModel, PlaneModel, EPOCH_START, PCS,
};
use vstd::prelude::*;

verus! {

/// The last composition among segments.
pub open spec fn last_opening(segs: Seq<(u8, Seq<u8>)>) -> Option<Seq<u8>>
    decreases segs.len(),
{
    if segs.len() == 0 {
        None
    } else if segs.last().0 == PCS {
        Some(segs.last().1)
    } else {
        last_opening(segs.drop_last())
    }
}

/// The composition a packet opens a set with, where it opens one.
pub open spec fn opens_with(h: HeldModel) -> Option<Seq<u8>> {
    last_opening(segments_from(h.data, 0))
}

/// Whether a packet completes a set.
pub open spec fn completes(h: HeldModel) -> bool {
    ends_set(segments_from(h.data, 0))
}

/// Whether packets are the beginning of one set: the first of them opens it
/// with this composition, and none behind it opens another.
pub open spec fn begins(set: Seq<HeldModel>, opening: Seq<u8>) -> bool {
    &&& set.len() > 0
    &&& opens_with(set[0]) == Some(opening)
    &&& forall|i: int| 1 <= i < set.len() ==> opens_with(#[trigger] set[i]) is None
}

/// Whether none of these packets completes a set.
pub open spec fn unfinished(set: Seq<HeldModel>) -> bool {
    forall|i: int| 0 <= i < set.len() ==> !completes(#[trigger] set[i])
}

/// Whether packets are one whole display set, opened with this composition.
pub open spec fn whole_set(set: Seq<HeldModel>, opening: Seq<u8>) -> bool {
    begins(set, opening) && unfinished(set.drop_last()) && completes(set.last())
}

/// Whether a composition puts something up, and can do so on its own.
pub open spec fn puts_up(c: Option<Composition>) -> bool {
    c matches Some(c) && c.objects > 0 && c.stands_alone()
}

/// Whether a window fits in a segment.
pub open spec fn window_fits(framing: Option<Seq<u8>>) -> bool {
    framing matches Some(window) ==> window.len() < 0x1_0000
}

/// Whether a set is one that put something up and could put it up again.
pub open spec fn could_stand(set: Seq<HeldModel>) -> bool {
    exists|opening: Seq<u8>| #[trigger]
        whole_set(set, opening) && puts_up(composition_of(opening))
}

/// Whether a plane is one that a stream can have been read into.
pub open spec fn sound(p: PlaneModel) -> bool {
    &&& p.opening matches Some(o) ==> begins(p.building, o) && unfinished(p.building)
    &&& window_fits(p.framing)
    &&& p.occupied ==> p.last is Some
    &&& p.last matches Some(l) ==> window_fits(l.1)
    &&& p.standing matches Some(set) ==> could_stand(set)
}

/// A segment's body fits in the two bytes that say how long it is.
proof fn lemma_bodies_fit(data: Seq<u8>, i: int)
    requires
        0 <= i,
    ensures
        forall|k: int|
            0 <= k < segments_from(data, i).len() ==> (#[trigger] segments_from(data, i)[k]).1.len()
                < 0x1_0000,
    decreases data.len() - i,
{
    if i + 3 <= data.len() && i + 3 + be16(data[i + 1], data[i + 2]) <= data.len() {
        let end = i + 3 + be16(data[i + 1], data[i + 2]);
        lemma_bodies_fit(data, end);
        let (all, behind) = (segments_from(data, i), segments_from(data, end));
        assert forall|k: int| 0 <= k < all.len() implies (#[trigger] all[k]).1.len()
            < 0x1_0000 by {
            if k > 0 {
                assert(all[k] == behind[k - 1]);
            }
        }
    }
}

/// What segments leave of a set that is being read: where a composition is
/// among them, a set that starts here; where none is, the one there was.
proof fn lemma_segments_read(p: PlaneModel, segs: Seq<(u8, Seq<u8>)>)
    ensures
        ({
            let read = with_segments(p, segs);
            &&& last_opening(segs) is Some ==> read.building.len() == 0 && read.opening
                == last_opening(segs)
            &&& last_opening(segs) is None ==> read.building == p.building && read.opening
                == p.opening
            &&& read.occupied == p.occupied
            &&& read.standing == p.standing
            &&& read.last == p.last
        }),
    decreases segs.len(),
{
    if segs.len() > 0 {
        lemma_segments_read(p, segs.drop_last());
    }
}

proof fn lemma_framing_fits(p: PlaneModel, segs: Seq<(u8, Seq<u8>)>)
    requires
        window_fits(p.framing),
        forall|k: int| 0 <= k < segs.len() ==> (#[trigger] segs[k]).1.len() < 0x1_0000,
    ensures
        window_fits(with_segments(p, segs).framing),
    decreases segs.len(),
{
    if segs.len() > 0 {
        assert(segs.last() == segs[segs.len() - 1]);
        assert forall|k: int| 0 <= k < segs.drop_last().len() implies (
        #[trigger] segs.drop_last()[k]).1.len() < 0x1_0000 by {
            assert(segs.drop_last()[k] == segs[k]);
        }
        lemma_framing_fits(p, segs.drop_last());
    }
}

/// Nothing read yet is sound, and whatever packet comes next, the plane is as
/// sound behind it as it was before.
pub proof fn law_every_plane_is_sound(p: PlaneModel, held: HeldModel)
    requires
        sound(p),
    ensures
        sound(blank()),
        sound(fed_plane(p, held).0),
{
    let segs = segments_from(held.data, 0);
    let read = with_segments(p, segs);
    lemma_segments_read(p, segs);
    lemma_bodies_fit(held.data, 0);
    lemma_framing_fits(p, segs);
    let set = read.building.push(held);
    if let Some(o) = read.opening {
        assert(begins(set, o)) by {
            if opens_with(held) is Some {
                assert(set =~= seq![held]);
            } else {
                assert(set[0] == p.building[0]);
                assert forall|i: int| 1 <= i < set.len() implies opens_with(
                    #[trigger] set[i],
                ) is None by {
                    if i < p.building.len() {
                        assert(set[i] == p.building[i]);
                    }
                }
            }
        }
        assert(set.drop_last() =~= read.building);
        assert(unfinished(set.drop_last()));
        if ends_set(segs) {
            assert(set.last() == held);
            assert(whole_set(set, o));
        } else {
            assert forall|i: int| 0 <= i < set.len() implies !completes(#[trigger] set[i]) by {
                if i < read.building.len() {
                    assert(set[i] == p.building[i]);
                }
            }
        }
    }
}

/// A plane that packets were read into from nothing is sound.
pub proof fn law_reading_leaves_a_sound_plane(packets: Seq<HeldModel>)
    ensures
        sound(fed_all(blank(), packets)),
    decreases packets.len(),
{
    if packets.len() > 0 {
        law_reading_leaves_a_sound_plane(packets.drop_last());
        law_every_plane_is_sound(fed_all(blank(), packets.drop_last()), packets.last());
    }
}

/// The beginning of a set is read as itself, whatever was read before it.
proof fn lemma_beginning_read(q: PlaneModel, set: Seq<HeldModel>, opening: Seq<u8>)
    requires
        begins(set, opening),
        unfinished(set),
    ensures
        fed_all(q, set).building == set,
        fed_all(q, set).opening == Some(opening),
    decreases set.len(),
{
    let held = set.last();
    let segs = segments_from(held.data, 0);
    assert(!completes(set[set.len() - 1]));
    let before = fed_all(q, set.drop_last());
    lemma_segments_read(before, segs);
    if set.len() == 1 {
        assert(set =~= seq![held]);
        assert(fed_all(q, set).building =~= set);
    } else {
        let rest = set.drop_last();
        assert(rest[0] == set[0]);
        assert forall|i: int| 1 <= i < rest.len() implies opens_with(#[trigger] rest[i]) is None by {
            assert(rest[i] == set[i]);
        }
        assert forall|i: int| 0 <= i < rest.len() implies !completes(#[trigger] rest[i]) by {
            assert(rest[i] == set[i]);
        }
        lemma_beginning_read(q, rest, opening);
        assert(opens_with(set[set.len() - 1]) is None);
        assert(fed_all(q, set).building =~= rest.push(held));
        assert(rest.push(held) =~= set);
    }
}

/// A whole set says the same wherever it is read: reading it again, or reading
/// it on its own, leaves the plane as its own composition has it, whatever was
/// on the plane or half read before.
pub proof fn law_a_whole_set_stands_for_itself(
    q: PlaneModel,
    set: Seq<HeldModel>,
    opening: Seq<u8>,
)
    requires
        whole_set(set, opening),
        composition_of(opening) is Some,
    ensures
        ({
            let before = fed_all(q, set.drop_last());
            let (after, handed) = fed_plane(before, set.last());
            let c = composition_of(opening)->0;
            &&& fed_all(q, set) == after
            &&& handed == Some(set)
            &&& after.occupied == (c.objects > 0)
            &&& c.objects > 0 && c.stands_alone() ==> after.standing == Some(set)
            &&& after.last is Some && (after.last->0).0 == opening
            &&& after.building.len() == 0
        }),
{
    let rest = set.drop_last();
    let held = set.last();
    let before = fed_all(q, rest);
    lemma_segments_read(before, segments_from(held.data, 0));
    if set.len() == 1 {
        assert(set =~= seq![held]);
        assert(with_segments(before, segments_from(held.data, 0)).building.push(held) =~= set);
    } else {
        assert(rest[0] == set[0]);
        assert forall|i: int| 1 <= i < rest.len() implies opens_with(#[trigger] rest[i]) is None by {
            assert(rest[i] == set[i]);
        }
        lemma_beginning_read(q, rest, opening);
        assert(opens_with(set[set.len() - 1]) is None);
        assert(rest.push(held) =~= set);
    }
}

/// Marking a composition leaves the segments where they are: the first of them
/// is marked and the others stay.
proof fn lemma_marked_segments(data: Seq<u8>)
    requires
        segments_from(data, 0).len() > 0,
        segments_from(data, 0)[0].0 == PCS,
        segments_from(data, 0)[0].1.len() > 7,
    ensures
        ({
            let segs = segments_from(data, 0);
            segments_from(as_epoch_start(data), 0) == segs.update(
                0,
                (PCS, segs[0].1.update(7, EPOCH_START)),
            )
        }),
{
    let segs = segments_from(data, 0);
    let marked = as_epoch_start(data);
    let end = 3 + be16(data[1], data[2]);
    assert(segs[0] == (data[0], data.subrange(3, end)));
    assert(marked.subrange(3, end) =~= data.subrange(3, end).update(7, EPOCH_START));
    lemma_same_behind(data, marked, end);
    let behind = segments_from(data, end);
    assert(segs =~= seq![(data[0], data.subrange(3, end))] + behind);
    assert(segments_from(marked, 0) =~= seq![(marked[0], marked.subrange(3, end))] + behind);
    assert(segments_from(marked, 0) =~= segs.update(
        0,
        (PCS, segs[0].1.update(7, EPOCH_START)),
    ));
}

proof fn lemma_same_behind(a: Seq<u8>, b: Seq<u8>, i: int)
    requires
        0 <= i,
        a.len() == b.len(),
        forall|k: int| i <= k < a.len() ==> a[k] == b[k],
    ensures
        segments_from(a, i) == segments_from(b, i),
    decreases a.len() - i,
{
    if i + 3 <= a.len() && i + 3 + be16(a[i + 1], a[i + 2]) <= a.len() {
        let end = i + 3 + be16(a[i + 1], a[i + 2]);
        assert(a.subrange(i + 3, end) =~= b.subrange(i + 3, end));
        lemma_same_behind(a, b, end);
    }
}

/// A segment of another body in the first place leaves the kinds as they are.
proof fn lemma_first_marked(segs: Seq<(u8, Seq<u8>)>, body: Seq<u8>)
    requires
        segs.len() > 0,
        segs[0].0 == PCS,
    ensures
        ({
            let marked = segs.update(0, (PCS, body));
            &&& ends_set(marked) == ends_set(segs)
            &&& last_opening(marked) == last_opening(segs) || (last_opening(segs) == Some(
                segs[0].1,
            ) && last_opening(marked) == Some(body))
            &&& last_opening(segs) is Some
        }),
    decreases segs.len(),
{
    let marked = segs.update(0, (PCS, body));
    if segs.len() == 1 {
        assert(segs.drop_last() =~= Seq::empty());
        assert(marked.drop_last() =~= Seq::empty());
        assert(segs.last() == segs[0]);
        assert(marked.last() == (PCS, body));
        assert(ends_set(Seq::<(u8, Seq<u8>)>::empty()) == false);
    } else {
        lemma_first_marked(segs.drop_last(), body);
        assert(marked.drop_last() =~= segs.drop_last().update(0, (PCS, body)));
        assert(marked.last() == segs.last());
    }
}

/// Marking a packet's composition leaves what it does to a set as it was: it
/// completes one where it did, and what it opens one with puts up as much.
proof fn lemma_marked_packet(h: HeldModel, moved: HeldModel)
    requires
        moved.data == as_epoch_start(h.data),
    ensures
        completes(moved) == completes(h),
        opens_with(moved) is Some == opens_with(h) is Some,
        opens_with(h) matches Some(o) ==> {
            let (was, now) = (composition_of(o), composition_of(opens_with(moved)->0));
            puts_up(was) ==> puts_up(now) && now->0.objects == was->0.objects
        },
{
    let segs = segments_from(h.data, 0);
    if segs.len() > 0 && segs[0].0 == PCS && segs[0].1.len() > 7 {
        lemma_marked_segments(h.data);
        lemma_first_marked(segs, segs[0].1.update(7, EPOCH_START));
    }
}

proof fn lemma_first_moved(set: Seq<HeldModel>, moved: Seq<HeldModel>, by_much: int)
    requires
        set.len() == moved.len(),
        set.len() > 0,
        forall|i: int|
            0 <= i < set.len() ==> (#[trigger] moved[i]).pts == set[i].pts + by_much
                && moved[i].dts == set[i].dts + by_much,
    ensures
        first_instant(moved) == first_instant(set) + by_much,
    decreases set.len(),
{
    assert(moved[set.len() - 1] == moved.last());
    if set.len() > 1 {
        assert forall|i: int| 0 <= i < set.drop_last().len() implies (
        #[trigger] moved.drop_last()[i]).pts == set.drop_last()[i].pts + by_much
            && moved.drop_last()[i].dts == set.drop_last()[i].dts + by_much by {
            assert(moved.drop_last()[i] == moved[i]);
        }
        lemma_first_moved(set.drop_last(), moved.drop_last(), by_much);
    }
}

/// What is on screen when a range ends is taken down: whatever stream was read
/// into a plane, a player that reads the set that takes it down has nothing
/// left on its own.
pub proof fn law_a_clear_takes_it_down(p: PlaneModel, at: int)
    requires
        sound(p),
    ensures
        !fed_all(p, taken_down(p, at)).occupied,
{
    law_a_clear_empties_the_plane(p, at);
}

/// What is on screen when a range opens is put up again: a player that reads
/// the replayed set, with whatever it read before or with nothing, has
/// something on its plane, put up by that set; as many objects as there were;
/// and the first instant of it is the one asked for.
pub proof fn law_a_replay_puts_it_up(p: PlaneModel, q: PlaneModel, at: int)
    requires
        sound(p),
        p.occupied,
        p.standing is Some,
    ensures
        ({
            let set = replayed(p, at);
            let after = fed_all(q, set);
            &&& set.len() == p.standing->0.len()
            &&& first_instant(set) == at
            &&& after.occupied
            &&& after.standing == Some(set)
            &&& could_stand(set)
            &&& after.last is Some
            &&& forall|opening: Seq<u8>| #[trigger]
                whole_set(p.standing->0, opening) ==> composition_of((after.last->0).0) is Some
                    && composition_of((after.last->0).0)->0.objects == composition_of(
                    opening,
                )->0.objects
        }),
{
    let was = p.standing->0;
    let set = replayed(p, at);
    let opening = choose|opening: Seq<u8>| #[trigger]
        whole_set(was, opening) && puts_up(composition_of(opening));
    assert(whole_set(was, opening) && puts_up(composition_of(opening)));
    assert forall|i: int| 0 <= i < set.len() implies completes(#[trigger] set[i]) == completes(
        was[i],
    ) && opens_with(set[i]) is Some == opens_with(was[i]) is Some by {
        lemma_marked_packet(was[i], set[i]);
    }
    lemma_marked_packet(was[0], set[0]);
    let now = opens_with(set[0])->0;
    assert(begins(set, now));
    assert forall|i: int| 0 <= i < set.drop_last().len() implies !completes(
        #[trigger] set.drop_last()[i],
    ) by {
        assert(set.drop_last()[i] == set[i]);
        assert(was.drop_last()[i] == was[i]);
    }
    assert(set.last() == set[set.len() - 1]);
    assert(was.last() == was[was.len() - 1]);
    assert(whole_set(set, now));
    law_a_whole_set_stands_for_itself(q, set, now);
    lemma_first_moved(was, set, at - first_instant(was));
}

} // verus!
