//! The graphics a Blu-ray draws its subtitles with, and what a cut owes them
//! at either end of a kept range.
//!
//! What travels is a display set: a composition saying where things go, a
//! window, a palette, and the picture itself run-length coded, each piece its
//! own packet with its own timestamp. A group means nothing in halves, and it
//! comes to three rules: a display set is carried whole or not at all; what
//! was on screen when a range opens has to be put up again; and what is on
//! screen when a range ends has to be taken down.
use crate::bytes::{be16, be16_bytes, content, copied, put};
use crate::chars::{put_text, string_of};
use crate::naming::{retitled, with_extension};
use crate::si::packet::word_field;
use crate::time::{in_reach, later, CLOCK_TICK};
use vstd::prelude::*;
use vstd::slice::slice_subrange;

pub mod standing;
pub mod spoken;
pub mod write;

verus! {

/// A composition: where the objects go and what state the epoch is in.
pub const PCS: u8 = 0x16;

/// A window: the rectangle of the plane the composition draws inside.
pub const WDS: u8 = 0x17;

/// The end of a display set. Every set has one and it carries nothing.
pub const END: u8 = 0x80;

/// How far before a kept range the graphics are read, so that whatever is on
/// screen at the cut can be put up again: eight seconds, from what discs do
/// rather than from what the format allows.
pub const LOOKBACK: i64 = 5_644_800_000;

/// A composition that carries everything it needs: an epoch start.
pub const EPOCH_START: u8 = 0x80;

/// The same subtitle sent again, whole, for a player that joined late.
pub const ACQUISITION: u8 = 0x40;

/// One packet of a display set, held for as long as it may need to be sent
/// again. The times are the recording's own, from its start.
#[derive(Debug, Clone)]
pub struct Held {
    pub pts: i64,
    pub dts: i64,
    pub data: Vec<u8>,
}

/// What a [`Held`] holds.
pub struct HeldModel {
    pub pts: int,
    pub dts: int,
    pub data: Seq<u8>,
}

impl View for Held {
    type V = HeldModel;

    open spec fn view(&self) -> HeldModel {
        HeldModel { pts: self.pts as int, dts: self.dts as int, data: self.data@ }
    }
}

/// What a list of packets holds.
pub open spec fn held_models(set: Seq<Held>) -> Seq<HeldModel> {
    set.map_values(|h: Held| h@)
}

/// Every packet's times are times a recording can have.
pub open spec fn set_in_reach(set: Seq<HeldModel>) -> bool {
    forall|i: int|
        0 <= i < set.len() ==> in_reach((#[trigger] set[i]).pts) && in_reach(set[i].dts)
}

/// A copy of one packet.
fn copied_held(h: &Held) -> (r: Held)
    ensures
        r@ == h@,
{
    Held { pts: h.pts, dts: h.dts, data: copied(h.data.as_slice()) }
}

/// A copy of a list of packets.
fn copied_set(set: &Vec<Held>) -> (out: Vec<Held>)
    ensures
        held_models(out@) == held_models(set@),
{
    let mut out: Vec<Held> = Vec::new();
    let mut i: usize = 0;
    while i < set.len()
        invariant
            i <= set@.len(),
            out@.len() == i,
            forall|k: int| 0 <= k < i ==> (#[trigger] out@[k])@ == set@[k]@,
        decreases set@.len() - i,
    {
        out.push(copied_held(&set[i]));
        i += 1;
    }
    assert(held_models(out@) =~= held_models(set@));
    out
}

/// The segments a run of bytes holds, from `i` on: a kind, a length and as
/// many bytes. A length that runs past the end stops the read.
pub open spec fn segments_from(data: Seq<u8>, i: int) -> Seq<(u8, Seq<u8>)>
    decreases data.len() - i,
{
    if i < 0 || i + 3 > data.len() || i + 3 + be16(data[i + 1], data[i + 2]) > data.len() {
        Seq::empty()
    } else {
        let end = i + 3 + be16(data[i + 1], data[i + 2]);
        seq![(data[i], data.subrange(i + 3, end))] + segments_from(data, end)
    }
}

/// What a list of segments holds.
pub open spec fn segment_models(s: Seq<(u8, &[u8])>) -> Seq<(u8, Seq<u8>)> {
    s.map_values(|x: (u8, &[u8])| (x.0, x.1@))
}

/// The segments one packet carries.
///
/// Usually exactly one, but the format allows several to share a packet and a
/// demuxer hands over what it was given, so this reads a run.
pub fn segments(data: &[u8]) -> (out: Vec<(u8, &[u8])>)
    ensures
        segment_models(out@) == segments_from(data@, 0),
{
    let mut out: Vec<(u8, &[u8])> = Vec::new();
    let mut at: usize = 0;
    assert(segment_models(out@) =~= Seq::empty());
    while data.len() - at >= 3
        invariant_except_break
            at <= data@.len(),
            segments_from(data@, 0) =~= segment_models(out@) + segments_from(data@, at as int),
        ensures
            segments_from(data@, 0) =~= segment_models(out@),
        decreases data@.len() - at,
    {
        let len: usize = word_field(data[at + 1], data[at + 2]) as usize;
        if data.len() - at - 3 < len {
            break;
        }
        let ghost before = segment_models(out@);
        let body: &[u8] = slice_subrange(data, at + 3, at + 3 + len);
        out.push((data[at], body));
        assert(segment_models(out@) =~= before.push((data@[at as int], body@)));
        at += 3 + len;
    }
    out
}

/// What a composition says about itself: the three fields a cut has to act
/// on, out of the eleven bytes every composition opens with.
#[derive(Debug, Clone, Copy, PartialEq, Eq, Structural)]
pub struct Composition {
    pub number: u16,
    pub state: u8,
    pub objects: u8,
}

impl Composition {
    /// Whether a set in this state carries all it needs.
    pub open spec fn stands_alone(&self) -> bool {
        self.state == EPOCH_START || self.state == ACQUISITION
    }

    /// Whether this set can be put up on its own, without whatever came
    /// before it.
    pub fn self_contained(&self) -> (r: bool)
        ensures
            r == self.stands_alone(),
    {
        self.state == EPOCH_START || self.state == ACQUISITION
    }
}

/// What a composition body says.
pub open spec fn composition_of(body: Seq<u8>) -> Option<Composition> {
    if body.len() < 11 {
        None
    } else {
        Some(
            Composition {
                number: be16(body[5], body[6]) as u16,
                state: (body[7] - body[7] % 64) as u8,
                objects: body[10],
            },
        )
    }
}

/// Read a composition off its body. `None` where the body is too short to be
/// one, which is a damaged recording.
pub fn composition(body: &[u8]) -> (r: Option<Composition>)
    ensures
        r == composition_of(body@),
{
    if body.len() < 11 {
        None
    } else {
        Some(
            Composition {
                number: word_field(body[5], body[6]),
                state: body[7] - body[7] % 64,
                objects: body[10],
            },
        )
    }
}

/// The byte at `i`, or nought past the end.
pub open spec fn byte_or_nought(b: Seq<u8>, i: int) -> u8 {
    if 0 <= i < b.len() {
        b[i]
    } else {
        0
    }
}

/// The number of the composition after this one; nought after one that is too
/// short to have a number.
pub open spec fn next_number(body: Seq<u8>) -> int {
    match composition_of(body) {
        Some(c) => (c.number + 1) % 0x1_0000,
        None => 0,
    }
}

/// A composition body as the one that clears the plane: the same screen and
/// rate, a fresh number, and no objects.
pub open spec fn cleared_body(body: Seq<u8>) -> Seq<u8> {
    seq![
        byte_or_nought(body, 0),
        byte_or_nought(body, 1),
        byte_or_nought(body, 2),
        byte_or_nought(body, 3),
        byte_or_nought(body, 4),
        (next_number(body) / 256) as u8,
        (next_number(body) % 256) as u8,
        0u8,
        0u8,
        byte_or_nought(body, 9),
        0u8,
    ]
}

/// Rewrite a composition body as the one that clears the plane.
///
/// Copying the standing composition keeps the screen size and the frame rate
/// the disc declared, which are the two fields a player has been known to
/// check.
pub fn cleared(body: &[u8]) -> (out: Vec<u8>)
    ensures
        out@ == cleared_body(body@),
{
    let mut out: Vec<u8> = Vec::with_capacity(11);
    let mut i: usize = 0;
    while i < 11
        invariant
            i <= 11,
            out@.len() == i,
            forall|k: int| 0 <= k < i ==> out@[k] == byte_or_nought(body@, k),
        decreases 11 - i,
    {
        if i < body.len() {
            out.push(body[i]);
        } else {
            out.push(0);
        }
        i += 1;
    }
    let next: u16 = match composition(body) {
        Some(c) => if c.number == 0xFFFF {
            0
        } else {
            c.number + 1
        },
        None => 0,
    };
    out.set(5, (next / 256) as u8);
    out.set(6, (next % 256) as u8);
    // A normal case: the epoch continues, with nothing in it, no palette
    // update, and no objects, which is what empties the plane.
    out.set(7, 0);
    out.set(8, 0);
    out.set(10, 0);
    assert(out@ =~= cleared_body(body@));
    out
}

/// One segment as a packet's worth of bytes.
pub open spec fn packed_bytes(kind: u8, body: Seq<u8>) -> Seq<u8> {
    seq![kind] + be16_bytes(body.len() as int) + body
}

/// One segment wrapped back up as a packet's worth of bytes.
pub fn packed(kind: u8, body: &[u8]) -> (out: Vec<u8>)
    ensures
        out@ == packed_bytes(kind, body@),
{
    let mut out: Vec<u8> = Vec::with_capacity(3);
    out.push(kind);
    out.push((body.len() / 256 % 256) as u8);
    out.push((body.len() % 256) as u8);
    put(&mut out, body);
    assert(out@ =~= packed_bytes(kind, body@));
    out
}

/// A segment wrapped up is read as itself, whatever stands behind it.
pub proof fn law_a_segment_reads_back(kind: u8, body: Seq<u8>, rest: Seq<u8>)
    requires
        body.len() < 0x1_0000,
    ensures
        segments_from(packed_bytes(kind, body) + rest, 0) == seq![(kind, body)] + segments_from(
            rest,
            0,
        ),
{
    let one = packed_bytes(kind, body);
    let all = one + rest;
    assert(be16(all[1], all[2]) == body.len());
    assert(all.subrange(3, (3 + body.len()) as int) =~= body);
    lemma_segments_behind(one, rest, 0);
}

/// Segments read behind other bytes are the segments they were.
proof fn lemma_segments_behind(head: Seq<u8>, data: Seq<u8>, i: int)
    requires
        0 <= i <= data.len(),
    ensures
        segments_from(head + data, head.len() + i) == segments_from(data, i),
    decreases data.len() - i,
{
    let all = head + data;
    if i + 3 <= data.len() {
        assert(all[head.len() + i] == data[i]);
        assert(all[head.len() + i + 1] == data[i + 1]);
        assert(all[head.len() + i + 2] == data[i + 2]);
        let end = i + 3 + be16(data[i + 1], data[i + 2]);
        if end <= data.len() {
            assert(all.subrange(head.len() + i + 3, head.len() + end) =~= data.subrange(
                i + 3,
                end,
            ));
            lemma_segments_behind(head, data, end);
        }
    }
}

/// What one graphics stream has on screen, and what it would take to say so
/// again.
pub struct PlaneModel {
    /// Packets of the set being read, which is not a set until its end.
    pub building: Seq<HeldModel>,
    /// The composition and the window that set carries, as they arrive.
    pub opening: Option<Seq<u8>>,
    pub framing: Option<Seq<u8>>,
    /// Whether the last complete set left anything on screen.
    pub occupied: bool,
    /// The last complete set that put something up and could put it up again.
    pub standing: Option<Seq<HeldModel>>,
    /// The composition and window of the last complete set.
    pub last: Option<(Seq<u8>, Option<Seq<u8>>)>,
}

/// A plane nothing has been read of.
pub open spec fn blank() -> PlaneModel {
    PlaneModel {
        building: Seq::empty(),
        opening: None,
        framing: None,
        occupied: false,
        standing: None,
        last: None,
    }
}

/// What the segments of one packet do to the set being read. A composition
/// opens a set: anything still being built when one arrives was never
/// finished, and is not part of this one.
pub open spec fn with_segments(p: PlaneModel, segs: Seq<(u8, Seq<u8>)>) -> PlaneModel
    decreases segs.len(),
{
    if segs.len() == 0 {
        p
    } else {
        let before = with_segments(p, segs.drop_last());
        let (kind, body) = segs.last();
        if kind == PCS {
            PlaneModel { building: Seq::empty(), opening: Some(body), framing: None, ..before }
        } else if kind == WDS {
            PlaneModel { framing: Some(body), ..before }
        } else {
            before
        }
    }
}

/// Whether any of these segments ends a set.
pub open spec fn ends_set(segs: Seq<(u8, Seq<u8>)>) -> bool
    decreases segs.len(),
{
    segs.len() > 0 && (segs.last().0 == END || ends_set(segs.drop_last()))
}

/// What one more packet does to the plane, and the display set it completes.
pub open spec fn fed_plane(p: PlaneModel, held: HeldModel) -> (
    PlaneModel,
    Option<Seq<HeldModel>>,
) {
    let segs = segments_from(held.data, 0);
    let read = with_segments(p, segs);
    let set = read.building.push(held);
    if !ends_set(segs) {
        (PlaneModel { building: set, ..read }, None)
    } else {
        match read.opening {
            None => (PlaneModel { building: Seq::empty(), ..read }, None),
            Some(opening) => {
                let closed = PlaneModel {
                    building: Seq::empty(),
                    opening: None,
                    framing: None,
                    ..read
                };
                match composition_of(opening) {
                    None => (closed, None),
                    Some(c) => (
                        PlaneModel {
                            occupied: c.objects > 0,
                            standing: if c.objects > 0 && c.stands_alone() {
                                Some(set)
                            } else {
                                read.standing
                            },
                            last: Some((opening, read.framing)),
                            ..closed
                        },
                        Some(set),
                    ),
                }
            },
        }
    }
}

/// The earliest instant of a set.
pub open spec fn first_instant(set: Seq<HeldModel>) -> int
    decreases set.len(),
{
    if set.len() == 0 {
        0
    } else {
        let one = if set.last().dts < set.last().pts {
            set.last().dts
        } else {
            set.last().pts
        };
        if set.len() == 1 {
            one
        } else {
            let rest = first_instant(set.drop_last());
            if one < rest {
                one
            } else {
                rest
            }
        }
    }
}

/// A packet's bytes with its composition, where it opens with one, marked as
/// opening an epoch.
pub open spec fn as_epoch_start(data: Seq<u8>) -> Seq<u8> {
    let segs = segments_from(data, 0);
    if segs.len() > 0 && segs[0].0 == PCS && segs[0].1.len() > 7 {
        data.update(10, EPOCH_START)
    } else {
        data
    }
}

/// A set moved bodily so that its earliest instant is `at`, keeping its own
/// spacing, and opening an epoch whatever it did before.
pub open spec fn moved_set(set: Seq<HeldModel>, at: int) -> Seq<HeldModel> {
    let first = first_instant(set);
    Seq::new(
        set.len(),
        |i: int|
            HeldModel {
                pts: at + (set[i].pts - first),
                dts: at + (set[i].dts - first),
                data: as_epoch_start(set[i].data),
            },
    )
}

/// The set to send again so that a range opens with what was on screen.
pub open spec fn replayed(p: PlaneModel, at: int) -> Seq<HeldModel> {
    match p.standing {
        Some(set) => if p.occupied {
            moved_set(set, at)
        } else {
            Seq::empty()
        },
        None => Seq::empty(),
    }
}

/// A packet shown and decoded at one instant.
pub open spec fn instant(at: int, data: Seq<u8>) -> HeldModel {
    HeldModel { pts: at, dts: at, data }
}

/// The set that takes down what is on screen.
pub open spec fn taken_down(p: PlaneModel, at: int) -> Seq<HeldModel> {
    match p.last {
        Some((opening, framing)) => if p.occupied {
            seq![instant(at, packed_bytes(PCS, cleared_body(opening)))] + (match framing {
                Some(window) => seq![instant(at, packed_bytes(WDS, window))],
                None => Seq::empty(),
            }) + seq![instant(at, packed_bytes(END, Seq::empty()))]
        } else {
            Seq::empty()
        },
        None => Seq::empty(),
    }
}

/// What one graphics stream has on screen, and what it would take to say so
/// again.
///
/// Fed every packet of the stream in the order the recording carries them,
/// with the ones before a kept range begins among them: the set that drew
/// what is on screen at the cut is one of those.
#[derive(Debug)]
pub struct Plane {
    building: Vec<Held>,
    opening: Option<Vec<u8>>,
    framing: Option<Vec<u8>>,
    occupied: bool,
    standing: Option<Vec<Held>>,
    last: Option<(Vec<u8>, Option<Vec<u8>>)>,
}

impl View for Plane {
    type V = PlaneModel;

    closed spec fn view(&self) -> PlaneModel {
        PlaneModel {
            building: held_models(self.building@),
            opening: content(self.opening),
            framing: content(self.framing),
            occupied: self.occupied,
            standing: match self.standing {
                Some(set) => Some(held_models(set@)),
                None => None,
            },
            last: match self.last {
                Some((opening, framing)) => Some((opening@, content(framing))),
                None => None,
            },
        }
    }
}

/// Every packet a plane holds has times a recording can have.
pub open spec fn plane_in_reach(p: PlaneModel) -> bool {
    set_in_reach(p.building) && (p.standing matches Some(set) ==> set_in_reach(set) && set.len()
        > 0)
}

impl Default for Plane {
    fn default() -> (p: Plane)
        ensures
            p@ == blank(),
            p.wf(),
    {
        let p: Plane = Plane {
            building: Vec::new(),
            opening: None,
            framing: None,
            occupied: false,
            standing: None,
            last: None,
        };
        assert(p@.building =~= Seq::empty());
        p
    }
}

impl Plane {
    pub open spec fn wf(&self) -> bool {
        plane_in_reach(self@)
    }

    /// Forget everything, for a read that starts somewhere else.
    pub fn reset(&mut self)
        ensures
            final(self)@ == blank(),
            final(self).wf(),
    {
        *self = Plane::default();
    }

    /// Take one packet of the stream, and hand back the display set it
    /// completes.
    ///
    /// Nothing comes back until the end arrives, which is what makes a set
    /// the unit a cut carries: what is handed over is whole or is not handed
    /// over. A read that begins in the middle of one contributes to nothing
    /// and changes nothing.
    pub fn feed(&mut self, held: Held) -> (r: Option<Vec<Held>>)
        requires
            old(self).wf(),
            in_reach(held.pts as int),
            in_reach(held.dts as int),
        ensures
            final(self).wf(),
            final(self)@ == fed_plane(old(self)@, held@).0,
            match r {
                Some(set) => fed_plane(old(self)@, held@).1 == Some(held_models(set@)),
                None => fed_plane(old(self)@, held@).1 is None,
            },
    {
        let ghost start = self@;
        let ghost segs = segments_from(held.data@, 0);
        let mut ends: bool = false;
        let list: Vec<(u8, &[u8])> = segments(held.data.as_slice());
        assert(segment_models(list@) == segs);
        let mut i: usize = 0;
        assert(segs.take(0) =~= Seq::empty());
        while i < list.len()
            invariant
                i <= list@.len(),
                segment_models(list@) == segs,
                self@ == with_segments(start, segs.take(i as int)),
                set_in_reach(start.building),
                set_in_reach(self@.building),
                ends == ends_set(segs.take(i as int)),
            decreases list@.len() - i,
        {
            let (kind, body): (u8, &[u8]) = list[i];
            assert(segs[i as int] == (kind, body@));
            assert(segs.take(i + 1).drop_last() =~= segs.take(i as int));
            assert(segs.take(i + 1).last() == (kind, body@));
            if kind == PCS {
                self.building.clear();
                self.opening = Some(copied(body));
                self.framing = None;
                assert(self@.building =~= Seq::empty());
            } else if kind == WDS {
                self.framing = Some(copied(body));
            } else if kind == END {
                ends = true;
            }
            i += 1;
        }
        assert(segs.take(i as int) =~= segs);
        proof {
            lemma_segments_touch_the_set_only(start, segs);
        }
        let ghost read = self@;
        let ghost before = held_models(self.building@);
        let ghost one = held@;
        let ghost whole = before.push(one);
        assert(set_in_reach(whole)) by {
            assert forall|k: int| 0 <= k < whole.len() implies in_reach((#[trigger] whole[k]).pts)
                && in_reach(whole[k].dts) by {
                if k < before.len() {
                    assert(whole[k] == before[k]);
                }
            }
        }
        self.building.push(held);
        assert(held_models(self.building@) =~= whole);
        if !ends {
            return None;
        }
        let mut set: Vec<Held> = Vec::new();
        std::mem::swap(&mut set, &mut self.building);
        assert(held_models(self.building@) =~= Seq::empty());
        let opening: Vec<u8> = match self.opening.take() {
            Some(o) => o,
            None => return None,
        };
        let framing: Option<Vec<u8>> = self.framing.take();
        let c: Composition = match composition(opening.as_slice()) {
            Some(c) => c,
            None => return None,
        };
        self.occupied = c.objects > 0;
        if c.objects > 0 && c.self_contained() {
            self.standing = Some(copied_set(&set));
        }
        self.last = Some((opening, framing));
        Some(set)
    }

    /// Whether anything is on screen.
    pub fn occupied(&self) -> (r: bool)
        ensures
            r == self@.occupied,
    {
        self.occupied
    }

    /// Whether a display set is part-read: packets have arrived and the end
    /// that completes them has not. A reader finishes the set before it
    /// stops, since the next read starts inside it and throws the rest away.
    pub fn building(&self) -> (r: bool)
        ensures
            r == (self@.building.len() > 0),
    {
        self.building.len() > 0
    }

    /// The set to send again so that a range opens with what was on screen,
    /// timed to land at `at`.
    pub fn replay(&self, at: i64) -> (out: Vec<Held>)
        requires
            self.wf(),
            in_reach(at as int),
        ensures
            held_models(out@) == replayed(self@, at as int),
    {
        let mut out: Vec<Held> = Vec::new();
        assert(held_models(out@) =~= Seq::empty());
        if !self.occupied {
            return out;
        }
        let set: &Vec<Held> = match &self.standing {
            Some(set) => set,
            None => return out,
        };
        let ghost models = held_models(set@);
        let ghost want = moved_set(models, at as int);
        if set.len() == 0 {
            return out;
        }
        let mut first: i64 = 0;
        let mut i: usize = 0;
        while i < set.len()
            invariant
                i <= set@.len(),
                models == held_models(set@),
                set_in_reach(models),
                first == first_instant(models.take(i as int)),
                in_reach(first as int),
            decreases set@.len() - i,
        {
            assert(models[i as int] == set@[i as int]@);
            assert(models.take(i + 1).drop_last() =~= models.take(i as int));
            assert(models.take(i + 1).last() == models[i as int]);
            let one: i64 = if set[i].dts < set[i].pts {
                set[i].dts
            } else {
                set[i].pts
            };
            if i == 0 || one < first {
                first = one;
            }
            i += 1;
        }
        assert(models.take(i as int) =~= models);
        let mut j: usize = 0;
        while j < set.len()
            invariant
                j <= set@.len(),
                models == held_models(set@),
                set_in_reach(models),
                in_reach(first as int),
                in_reach(at as int),
                first == first_instant(models),
                want == moved_set(models, at as int),
                out@.len() == j,
                forall|k: int| 0 <= k < j ==> (#[trigger] out@[k])@ == want[k],
            decreases set@.len() - j,
        {
            let h: &Held = &set[j];
            assert(models[j as int] == h@);
            let mut data: Vec<u8> = copied(h.data.as_slice());
            let opens: bool = {
                let list: Vec<(u8, &[u8])> = segments(data.as_slice());
                let ghost segs = segments_from(data@, 0);
                assert(segment_models(list@) == segs);
                if list.len() > 0 {
                    assert(segs[0] == (list@[0].0, list@[0].1@));
                    list[0].0 == PCS && list[0].1.len() > 7
                } else {
                    false
                }
            };
            if opens {
                data.set(10, EPOCH_START);
            }
            let moved: Held = Held {
                pts: at + (h.pts - first),
                dts: at + (h.dts - first),
                data,
            };
            assert(moved@ == want[j as int]);
            out.push(moved);
            j += 1;
        }
        assert(held_models(out@) =~= want);
        out
    }

    /// The set that takes down what is on screen, timed to land at `at`.
    ///
    /// Empty where the plane is already clear, which is the ordinary case: a
    /// range that ends between two subtitles needs nothing.
    pub fn clear(&self, at: i64) -> (out: Vec<Held>)
        ensures
            held_models(out@) == taken_down(self@, at as int),
    {
        let mut out: Vec<Held> = Vec::new();
        assert(held_models(out@) =~= Seq::empty());
        if !self.occupied {
            return out;
        }
        if let Some((opening, framing)) = &self.last {
            let body: Vec<u8> = cleared(opening.as_slice());
            out.push(Held { pts: at, dts: at, data: packed(PCS, body.as_slice()) });
            if let Some(window) = framing {
                out.push(Held { pts: at, dts: at, data: packed(WDS, window.as_slice()) });
            }
            let nothing: Vec<u8> = Vec::new();
            assert(nothing@ =~= Seq::empty());
            out.push(Held { pts: at, dts: at, data: packed(END, nothing.as_slice()) });
            assert(held_models(out@) =~= taken_down(self@, at as int));
        }
        out
    }
}

/// Reading a packet's segments changes the set being read and nothing else,
/// and only ever empties what has been built.
proof fn lemma_segments_touch_the_set_only(p: PlaneModel, segs: Seq<(u8, Seq<u8>)>)
    ensures
        with_segments(p, segs).occupied == p.occupied,
        with_segments(p, segs).standing == p.standing,
        with_segments(p, segs).last == p.last,
        with_segments(p, segs).building == p.building || with_segments(p, segs).building.len()
            == 0,
    decreases segs.len(),
{
    if segs.len() > 0 {
        lemma_segments_touch_the_set_only(p, segs.drop_last());
    }
}

/// Half a set changes nothing on screen: until the end arrives the plane
/// stands as it stood, and nothing is handed over.
pub proof fn law_half_a_set_changes_nothing(p: PlaneModel, held: HeldModel)
    requires
        !ends_set(segments_from(held.data, 0)),
    ensures
        fed_plane(p, held).1 is None,
        fed_plane(p, held).0.occupied == p.occupied,
        fed_plane(p, held).0.standing == p.standing,
        fed_plane(p, held).0.last == p.last,
{
    lemma_segments_touch_the_set_only(p, segments_from(held.data, 0));
}

/// What a run of packets does to the plane.
pub open spec fn fed_all(p: PlaneModel, set: Seq<HeldModel>) -> PlaneModel
    decreases set.len(),
{
    if set.len() == 0 {
        p
    } else {
        fed_plane(fed_all(p, set.drop_last()), set.last()).0
    }
}

/// The segments of a packet that holds just one.
proof fn lemma_one_segment(kind: u8, body: Seq<u8>)
    requires
        body.len() < 0x1_0000,
    ensures
        segments_from(packed_bytes(kind, body), 0) == seq![(kind, body)],
{
    law_a_segment_reads_back(kind, body, Seq::empty());
    assert(packed_bytes(kind, body) + Seq::<u8>::empty() =~= packed_bytes(kind, body));
    assert(seq![(kind, body)] + Seq::<(u8, Seq<u8>)>::empty() =~= seq![(kind, body)]);
}

/// The set that takes down what is on screen takes it down: a player that
/// reads it has nothing left on its plane.
pub proof fn law_a_clear_empties_the_plane(p: PlaneModel, at: int)
    requires
        p.last matches Some((_, Some(window))) ==> window.len() < 0x1_0000,
        p.occupied ==> p.last is Some,
    ensures
        !fed_all(p, taken_down(p, at)).occupied,
{
    if p.occupied {
        let (opening, framing) = p.last->0;
        let set = taken_down(p, at);
        let body = cleared_body(opening);
        let first = instant(at, packed_bytes(PCS, body));
        let end = instant(at, packed_bytes(END, Seq::empty()));
        lemma_one_segment(PCS, body);
        lemma_one_segment(END, Seq::empty());
        let one = fed_plane(p, first).0;
        lemma_single(p, first, PCS, body);
        assert(one.opening == Some(body));
        let second = match framing {
            Some(window) => {
                let w = instant(at, packed_bytes(WDS, window));
                lemma_one_segment(WDS, window);
                lemma_single(one, w, WDS, window);
                fed_plane(one, w).0
            },
            None => one,
        };
        assert(second.opening == Some(body));
        lemma_single(second, end, END, Seq::empty());
        let done = fed_plane(second, end).0;
        assert(composition_of(body)->0.objects == 0);
        assert(!done.occupied);
        match framing {
            Some(window) => {
                let w = instant(at, packed_bytes(WDS, window));
                assert(set =~= seq![first, w, end]);
                assert(set.drop_last() =~= seq![first, w]);
                assert(seq![first, w].drop_last() =~= seq![first]);
                assert(seq![first].drop_last() =~= Seq::empty());
                assert(fed_all(p, Seq::empty()) == p);
                assert(fed_all(p, seq![first]) == one);
                assert(fed_all(p, seq![first, w]) == second);
                assert(fed_all(p, set) == done);
            },
            None => {
                assert(set =~= seq![first, end]);
                assert(set.drop_last() =~= seq![first]);
                assert(seq![first].drop_last() =~= Seq::empty());
                assert(fed_all(p, Seq::empty()) == p);
                assert(fed_all(p, seq![first]) == one);
                assert(fed_all(p, set) == done);
            },
        }
    } else {
        assert(taken_down(p, at) =~= Seq::empty());
    }
}

/// What a packet of one segment does.
proof fn lemma_single(p: PlaneModel, held: HeldModel, kind: u8, body: Seq<u8>)
    requires
        segments_from(held.data, 0) == seq![(kind, body)],
    ensures
        ends_set(segments_from(held.data, 0)) == (kind == END),
        with_segments(p, segments_from(held.data, 0)) == (if kind == PCS {
            PlaneModel { building: Seq::empty(), opening: Some(body), framing: None, ..p }
        } else if kind == WDS {
            PlaneModel { framing: Some(body), ..p }
        } else {
            p
        }),
{
    let segs = seq![(kind, body)];
    assert(segs.drop_last() =~= Seq::empty());
    assert(with_segments(p, segs.drop_last()) == p);
    assert(!ends_set(segs.drop_last()));
}

/// A time on the 90 kHz clock a stamp is written in, held to what it has room
/// for.
pub open spec fn stamp_of(t: int) -> int {
    let ticks = (later(t, 0) + CLOCK_TICK / 2) / (CLOCK_TICK as int);
    if ticks < 0xFFFF_FFFF {
        ticks
    } else {
        0xFFFF_FFFF
    }
}

/// Four bytes, most significant first.
pub open spec fn be32_bytes(v: int) -> Seq<u8> {
    seq![
        (v / 0x100_0000 % 256) as u8,
        (v / 0x1_0000 % 256) as u8,
        (v / 0x100 % 256) as u8,
        (v % 256) as u8,
    ]
}

/// One segment of a stream written beside the cut: the magic, when it is
/// shown, when it is decoded, and the segment as it travelled.
pub open spec fn sup_record(pts: int, dts: int, seg: (u8, Seq<u8>)) -> Seq<u8> {
    seq![0x50u8, 0x47] + be32_bytes(stamp_of(pts)) + be32_bytes(stamp_of(dts)) + packed_bytes(
        seg.0,
        seg.1,
    )
}

/// Several segments, one behind the other, with the same times.
pub open spec fn sup_records(pts: int, dts: int, segs: Seq<(u8, Seq<u8>)>) -> Seq<u8>
    decreases segs.len(),
{
    if segs.len() == 0 {
        Seq::empty()
    } else {
        sup_records(pts, dts, segs.drop_last()) + sup_record(pts, dts, segs.last())
    }
}

/// A graphics stream written beside the cut: every segment as it travelled,
/// each behind ten bytes saying when it is decoded and when it is shown.
///
/// It holds one stream. A recording with two of them is written as two files.
#[derive(Debug)]
pub struct Sup {
    /// What the file is called beside the cut, where the cut's own name will
    /// not do because another stream has taken it.
    pub tag: Option<String>,
    pub out: Vec<u8>,
    pub segments: usize,
}

/// The extension of a graphics stream's file. One that cannot have the cut's
/// own name takes something of its own in front.
pub open spec fn sup_extension(tag: Option<&str>) -> Seq<char> {
    match tag {
        None => "sup"@,
        Some(tag) => tag@ + ".sup"@,
    }
}

/// What the file of a graphics stream is called: the cut's own name, which is
/// what makes a tool that opens the cut find them together, with only its
/// extension replaced.
///
/// Where a recording carries more than one of these they cannot all be that
/// name, so each takes the language the disc says it is in --
/// `cut_title.eng.sup` -- or the number it sits on.
pub fn beside(cut: &str, tag: Option<&str>) -> (r: String)
    ensures
        r@ == with_extension(cut@, sup_extension(tag)),
{
    let mut extension: Vec<char> = Vec::new();
    match tag {
        None => put_text(&mut extension, "sup"),
        Some(tag) => {
            put_text(&mut extension, tag);
            put_text(&mut extension, ".sup");
        },
    }
    assert(extension@ =~= sup_extension(tag));
    retitled(cut, string_of(extension.as_slice()).as_str())
}

impl Sup {
    pub fn new(tag: Option<String>) -> (s: Sup)
        ensures
            s.tag == tag,
            s.out@ == Seq::<u8>::empty(),
            s.segments == 0,
    {
        Sup { tag, out: Vec::new(), segments: 0 }
    }

    /// Take one packet of a display set, moved onto the output's clock by
    /// `offset`. A packet can be several segments, so this writes a header
    /// per segment rather than per packet.
    pub fn take(&mut self, held: &Held, offset: i64)
        requires
            in_reach(held.pts as int),
            in_reach(held.dts as int),
            in_reach(offset as int),
            old(self).segments + held.data@.len() <= usize::MAX,
        ensures
            final(self).tag == old(self).tag,
            final(self).segments == old(self).segments + segments_from(held.data@, 0).len(),
            final(self).out@ == old(self).out@ + sup_records(
                held.pts + offset,
                held.dts + offset,
                segments_from(held.data@, 0),
            ),
    {
        let ghost segs = segments_from(held.data@, 0);
        let ghost pts_at = held.pts + offset;
        let ghost dts_at = held.dts + offset;
        let pts: u32 = stamp(held.pts + offset);
        let dts: u32 = stamp(held.dts + offset);
        let list: Vec<(u8, &[u8])> = segments(held.data.as_slice());
        assert(segment_models(list@) == segs);
        proof {
            lemma_segments_are_few(held.data@, 0);
        }
        let ghost start = self.out@;
        let ghost counted = self.segments;
        let mut i: usize = 0;
        assert(segs.take(0) =~= Seq::empty());
        while i < list.len()
            invariant
                i <= list@.len(),
                segment_models(list@) == segs,
                self.tag == old(self).tag,
                pts == stamp_of(pts_at),
                dts == stamp_of(dts_at),
                self.segments == counted + i,
                counted + list@.len() <= usize::MAX,
                self.out@ =~= start + sup_records(pts_at, dts_at, segs.take(i as int)),
            decreases list@.len() - i,
        {
            let (kind, body): (u8, &[u8]) = list[i];
            assert(segs[i as int] == (kind, body@));
            assert(segs.take(i + 1).drop_last() =~= segs.take(i as int));
            assert(segs.take(i + 1).last() == (kind, body@));
            let ghost before = self.out@;
            self.out.push(0x50);
            self.out.push(0x47);
            put_be32(&mut self.out, pts);
            put_be32(&mut self.out, dts);
            let seg: Vec<u8> = packed(kind, body);
            put(&mut self.out, seg.as_slice());
            assert(self.out@ =~= before + sup_record(pts_at, dts_at, (kind, body@)));
            self.segments = self.segments + 1;
            i += 1;
        }
        assert(segs.take(i as int) =~= segs);
    }

    /// Whether nothing at all was written. Nothing means no file.
    pub fn is_empty(&self) -> (r: bool)
        ensures
            r == (self.segments == 0),
    {
        self.segments == 0
    }

    /// How many segments it carries, for the note that says so.
    pub fn count(&self) -> (r: usize)
        ensures
            r == self.segments,
    {
        self.segments
    }
}

/// There are no more segments than there are bytes.
proof fn lemma_segments_are_few(data: Seq<u8>, i: int)
    requires
        0 <= i <= data.len(),
    ensures
        segments_from(data, i).len() <= data.len() - i,
    decreases data.len() - i,
{
    if i + 3 <= data.len() && i + 3 + be16(data[i + 1], data[i + 2]) <= data.len() {
        lemma_segments_are_few(data, i + 3 + be16(data[i + 1], data[i + 2]));
    }
}

/// A time on the 90 kHz clock.
fn stamp(t: i64) -> (r: u32)
    requires
        t <= i64::MAX - CLOCK_TICK,
    ensures
        r == stamp_of(t as int),
{
    let t: i64 = if t > 0 {
        t
    } else {
        0
    };
    let ticks: i64 = (t + CLOCK_TICK / 2) / CLOCK_TICK;
    if ticks < 0xFFFF_FFFF {
        ticks as u32
    } else {
        0xFFFF_FFFF
    }
}

/// Append four bytes, most significant first.
pub fn put_be32(out: &mut Vec<u8>, v: u32)
    ensures
        final(out)@ == old(out)@ + be32_bytes(v as int),
{
    out.push((v / 0x100_0000) as u8);
    out.push((v / 0x1_0000 % 256) as u8);
    out.push((v / 0x100 % 256) as u8);
    out.push((v % 256) as u8);
    assert(out@ =~= old(out)@ + be32_bytes(v as int));
}

} // verus!
