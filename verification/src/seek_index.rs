//! What is written down about a recording so that opening it again is cheap.
//!
//! Two passes stand between opening a file and being able to work on it, and
//! neither depends on anything but the file itself: the access-point index,
//! and the thumbnail track. Both answers are the same every time the same file
//! is opened, so they are kept: this is the seek index.
//!
//! It is deliberately not a proxy. Nothing here is re-encoded and nothing
//! stands in for the recording -- the pictures still come from the recording
//! itself. The index only says *where in the file* they are, which is the part
//! that was being worked out again from scratch every time.
//!
//! The file is keyed on the recording's path, size and modification time, so
//! a re-recording under the same name gets its own and never the old one.
use crate::bytes::{ascii, ascii_bytes, copied, put, same};
use crate::cache::{eaten, file_name, key, key_bytes, name_of, SUM_START};
use crate::le::{
    bytes_at, counted_bytes_at, le_bytes, lemma_le_reads_back, lemma_rooms, number_at, put_i64, put_u32, put_u64, room, signed,
    unsigned, Reader, Unread,
};
use vstd::prelude::*;

verus! {

/// Bumped when a change here would make an existing file wrong. It goes into
/// the cache key, so older ones are simply never looked at again.
pub const VERSION: u32 = 1;

pub const FLAG_LEADING_KNOWN: u32 = 1;

pub const FLAG_PULLDOWN_KNOWN: u32 = 2;

pub const FLAG_PULLDOWN: u32 = 4;

pub const FLAG_HAS_TRACK: u32 = 8;

/// A number of seconds, or a share of something, as the file has it: the bits
/// of a 64-bit floating-point number.
pub type Bits = u64;

/// An access point, as the file has it.
#[derive(Debug)]
pub struct Entry {
    pub time: Bits,
    pub lead_start: Bits,
    pub lead_indices: Vec<u32>,
    pub droppable: bool,
    pub pos: i64,
}

/// A held picture, as the file has it.
#[derive(Debug)]
pub struct HeldThumb {
    pub time: Bits,
    pub jpeg: Vec<u8>,
}

/// A thumbnail track and its scene index, as the file has them.
#[derive(Debug)]
pub struct HeldTrack {
    pub width: u32,
    pub interval: Bits,
    pub covered: Bits,
    pub threshold: Bits,
    pub typical: Bits,
    pub scenes: Vec<Bits>,
    pub thumbs: Vec<HeldThumb>,
}

/// Everything a previous open worked out about a recording.
#[derive(Debug)]
pub struct SeekIndex {
    pub points: Vec<Entry>,
    /// Whether the leading-picture fields were measured or merely assumed.
    pub leading_known: bool,
    /// Whether the stream uses 2:3 pulldown, when the pass that made this
    /// could tell.
    pub pulldown: Option<bool>,
    /// The thumbnail track and scene index, when one was built.
    ///
    /// Optional because the index is worth keeping on its own: a file whose
    /// track failed to build, or was never asked for, still saves the pass
    /// over its packets next time.
    pub track: Option<HeldTrack>,
}

/// What an access point holds.
pub ghost struct EntryModel {
    pub time: u64,
    pub lead_start: u64,
    pub leads: Seq<u32>,
    pub droppable: bool,
    pub pos: i64,
}

/// What a track holds.
pub ghost struct TrackModel {
    pub width: u32,
    pub interval: u64,
    pub covered: u64,
    pub threshold: u64,
    pub typical: u64,
    pub scenes: Seq<u64>,
    pub thumbs: Seq<(u64, Seq<u8>)>,
}

/// What an index holds.
pub ghost struct IndexModel {
    pub points: Seq<EntryModel>,
    pub leading_known: bool,
    pub pulldown: Option<bool>,
    pub track: Option<TrackModel>,
}

impl View for Entry {
    type V = EntryModel;

    open spec fn view(&self) -> EntryModel {
        EntryModel {
            time: self.time,
            lead_start: self.lead_start,
            leads: self.lead_indices@,
            droppable: self.droppable,
            pos: self.pos,
        }
    }
}

impl View for HeldThumb {
    type V = (u64, Seq<u8>);

    open spec fn view(&self) -> (u64, Seq<u8>) {
        (self.time, self.jpeg@)
    }
}

impl View for HeldTrack {
    type V = TrackModel;

    open spec fn view(&self) -> TrackModel {
        TrackModel {
            width: self.width,
            interval: self.interval,
            covered: self.covered,
            threshold: self.threshold,
            typical: self.typical,
            scenes: self.scenes@,
            thumbs: self.thumbs@.map_values(|t: HeldThumb| t@),
        }
    }
}

impl View for SeekIndex {
    type V = IndexModel;

    open spec fn view(&self) -> IndexModel {
        IndexModel {
            points: self.points@.map_values(|p: Entry| p@),
            leading_known: self.leading_known,
            pulldown: self.pulldown,
            track: match self.track {
                Some(t) => Some(t@),
                None => None,
            },
        }
    }
}

/// As much of a count as four bytes hold.
pub open spec fn low32(n: nat) -> nat {
    n % 0x1_0000_0000
}

/// Numbers of four bytes each, one behind the other.
pub open spec fn leads_bytes(leads: Seq<u32>) -> Seq<u8>
    decreases leads.len(),
{
    if leads.len() == 0 {
        Seq::empty()
    } else {
        leads_bytes(leads.drop_last()) + le_bytes(leads.last() as nat, 4)
    }
}

/// An access point, as bytes.
pub open spec fn entry_bytes(p: EntryModel) -> Seq<u8> {
    le_bytes(p.time as nat, 8) + le_bytes(p.lead_start as nat, 8) + le_bytes(unsigned(p.pos), 8)
        + seq![
        if p.droppable {
            1u8
        } else {
            0u8
        },
    ] + le_bytes(low32(p.leads.len()), 4) + leads_bytes(p.leads)
}

/// Access points, one behind the other.
pub open spec fn entries_bytes(points: Seq<EntryModel>) -> Seq<u8>
    decreases points.len(),
{
    if points.len() == 0 {
        Seq::empty()
    } else {
        entries_bytes(points.drop_last()) + entry_bytes(points.last())
    }
}

/// Numbers of eight bytes each, one behind the other.
pub open spec fn scenes_bytes(scenes: Seq<u64>) -> Seq<u8>
    decreases scenes.len(),
{
    if scenes.len() == 0 {
        Seq::empty()
    } else {
        scenes_bytes(scenes.drop_last()) + le_bytes(scenes.last() as nat, 8)
    }
}

/// A held picture, as bytes.
pub open spec fn thumb_bytes(t: (u64, Seq<u8>)) -> Seq<u8> {
    le_bytes(t.0 as nat, 8) + le_bytes(low32(t.1.len()), 4) + t.1
}

/// Held pictures, one behind the other.
pub open spec fn thumbs_bytes(thumbs: Seq<(u64, Seq<u8>)>) -> Seq<u8>
    decreases thumbs.len(),
{
    if thumbs.len() == 0 {
        Seq::empty()
    } else {
        thumbs_bytes(thumbs.drop_last()) + thumb_bytes(thumbs.last())
    }
}

/// A track, as bytes.
pub open spec fn track_bytes(t: TrackModel) -> Seq<u8> {
    le_bytes(t.width as nat, 4) + le_bytes(t.interval as nat, 8) + le_bytes(t.covered as nat, 8)
        + le_bytes(t.threshold as nat, 8) + le_bytes(t.typical as nat, 8) + le_bytes(
        t.scenes.len(),
        8,
    ) + scenes_bytes(t.scenes) + le_bytes(t.thumbs.len(), 8) + thumbs_bytes(t.thumbs)
}

/// What is said of an index in front of it.
pub open spec fn flags_of(m: IndexModel) -> nat {
    (if m.leading_known {
        FLAG_LEADING_KNOWN as nat
    } else {
        0
    }) + (match m.pulldown {
        Some(p) => FLAG_PULLDOWN_KNOWN as nat + (if p {
            FLAG_PULLDOWN as nat
        } else {
            0
        }),
        None => 0,
    }) + (if m.track is Some {
        FLAG_HAS_TRACK as nat
    } else {
        0
    })
}

/// An index, as bytes.
pub open spec fn index_bytes(m: IndexModel) -> Seq<u8> {
    ascii("SCIX"@) + le_bytes(VERSION as nat, 4) + le_bytes(flags_of(m), 4) + le_bytes(
        m.points.len(),
        8,
    ) + entries_bytes(m.points) + (match m.track {
        Some(t) => track_bytes(t),
        None => Seq::empty(),
    })
}

fn put_entry(out: &mut Vec<u8>, p: &Entry)
    ensures
        final(out)@ == old(out)@ + entry_bytes(p@),
{
    let ghost before = out@;
    put_u64(out, p.time);
    put_u64(out, p.lead_start);
    put_i64(out, p.pos);
    out.push(
        if p.droppable {
            1
        } else {
            0
        },
    );
    put_u32(out, (p.lead_indices.len() as u64 % 0x1_0000_0000) as u32);
    let ghost head = out@;
    let leads: &Vec<u32> = &p.lead_indices;
    let mut i: usize = 0;
    while i < leads.len()
        invariant
            i <= leads@.len(),
            out@ =~= head + leads_bytes(leads@.take(i as int)),
        decreases leads@.len() - i,
    {
        assert(leads@.take(i + 1).drop_last() =~= leads@.take(i as int));
        put_u32(out, leads[i]);
        i += 1;
    }
    assert(leads@.take(i as int) =~= leads@);
    assert(out@ =~= before + entry_bytes(p@));
}

fn put_thumb(out: &mut Vec<u8>, t: &HeldThumb)
    ensures
        final(out)@ == old(out)@ + thumb_bytes(t@),
{
    let ghost before = out@;
    put_u64(out, t.time);
    put_u32(out, (t.jpeg.len() as u64 % 0x1_0000_0000) as u32);
    put(out, t.jpeg.as_slice());
    assert(out@ =~= before + thumb_bytes(t@));
}

fn put_track(out: &mut Vec<u8>, t: &HeldTrack)
    ensures
        final(out)@ == old(out)@ + track_bytes(t@),
{
    let ghost before = out@;
    put_u32(out, t.width);
    put_u64(out, t.interval);
    put_u64(out, t.covered);
    put_u64(out, t.threshold);
    put_u64(out, t.typical);
    put_u64(out, t.scenes.len() as u64);
    let ghost head = out@;
    let scenes: &Vec<u64> = &t.scenes;
    let mut i: usize = 0;
    while i < scenes.len()
        invariant
            i <= scenes@.len(),
            out@ =~= head + scenes_bytes(scenes@.take(i as int)),
        decreases scenes@.len() - i,
    {
        assert(scenes@.take(i + 1).drop_last() =~= scenes@.take(i as int));
        put_u64(out, scenes[i]);
        i += 1;
    }
    assert(scenes@.take(i as int) =~= scenes@);
    put_u64(out, t.thumbs.len() as u64);
    let ghost with = out@;
    let ghost all = t@.thumbs;
    let thumbs: &Vec<HeldThumb> = &t.thumbs;
    let mut k: usize = 0;
    while k < thumbs.len()
        invariant
            k <= thumbs@.len(),
            all.len() == thumbs@.len(),
            forall|j: int| 0 <= j < all.len() ==> #[trigger] all[j] == thumbs@[j]@,
            out@ =~= with + thumbs_bytes(all.take(k as int)),
        decreases thumbs@.len() - k,
    {
        assert(all.take(k + 1).drop_last() =~= all.take(k as int));
        assert(all.take(k + 1).last() == thumbs@[k as int]@);
        put_thumb(out, &thumbs[k]);
        k += 1;
    }
    assert(all.take(k as int) =~= all);
    assert(out@ =~= before + track_bytes(t@));
}

impl SeekIndex {
    /// The index as the file has it.
    pub fn save(&self) -> (out: Vec<u8>)
        ensures
            out@ == index_bytes(self@),
    {
        let mut out: Vec<u8> = ascii_bytes("SCIX");
        put_u32(&mut out, VERSION);
        let mut flags: u32 = 0;
        if self.leading_known {
            flags = flags + FLAG_LEADING_KNOWN;
        }
        if let Some(p) = self.pulldown {
            flags = flags + FLAG_PULLDOWN_KNOWN;
            if p {
                flags = flags + FLAG_PULLDOWN;
            }
        }
        if self.track.is_some() {
            flags = flags + FLAG_HAS_TRACK;
        }
        assert(flags == flags_of(self@));
        put_u32(&mut out, flags);
        put_u64(&mut out, self.points.len() as u64);
        let ghost head = out@;
        let ghost all = self@.points;
        let mut i: usize = 0;
        while i < self.points.len()
            invariant
                i <= self.points@.len(),
                all.len() == self.points@.len(),
                forall|j: int| 0 <= j < all.len() ==> #[trigger] all[j] == self.points@[j]@,
                out@ =~= head + entries_bytes(all.take(i as int)),
            decreases self.points@.len() - i,
        {
            assert(all.take(i + 1).drop_last() =~= all.take(i as int));
            assert(all.take(i + 1).last() == self.points@[i as int]@);
            put_entry(&mut out, &self.points[i]);
            i += 1;
        }
        assert(all.take(i as int) =~= all);
        if let Some(t) = &self.track {
            put_track(&mut out, t);
        }
        assert(out@ =~= index_bytes(self@));
        out
    }
}

/// So many numbers of four bytes each.
pub open spec fn leads_at(raw: Seq<u8>, at: int, n: int) -> Result<(Seq<u32>, int), Unread>
    decreases n,
{
    if n <= 0 {
        Ok((Seq::empty(), at))
    } else {
        match leads_at(raw, at, n - 1) {
            Err(e) => Err(e),
            Ok((list, next)) => match number_at(raw, next, 4) {
                Err(e) => Err(e),
                Ok((v, end)) => Ok((list.push(v as u32), end)),
            },
        }
    }
}

/// An access point.
pub open spec fn entry_at(raw: Seq<u8>, at: int) -> Result<(EntryModel, int), Unread> {
    match number_at(raw, at, 8) {
        Err(e) => Err(e),
        Ok((time, at)) => match number_at(raw, at, 8) {
            Err(e) => Err(e),
            Ok((lead_start, at)) => match number_at(raw, at, 8) {
                Err(e) => Err(e),
                Ok((pos, at)) => match number_at(raw, at, 1) {
                    Err(e) => Err(e),
                    Ok((droppable, at)) => match number_at(raw, at, 4) {
                        Err(e) => Err(e),
                        Ok((n, at)) => match leads_at(raw, at, n as int) {
                            Err(e) => Err(e),
                            Ok((leads, at)) => Ok(
                                (
                                    EntryModel {
                                        time: time as u64,
                                        lead_start: lead_start as u64,
                                        leads,
                                        droppable: droppable != 0,
                                        pos: signed(pos) as i64,
                                    },
                                    at,
                                ),
                            ),
                        },
                    },
                },
            },
        },
    }
}

/// So many access points.
pub open spec fn entries_at(raw: Seq<u8>, at: int, n: int) -> Result<(Seq<EntryModel>, int), Unread>
    decreases n,
{
    if n <= 0 {
        Ok((Seq::empty(), at))
    } else {
        match entries_at(raw, at, n - 1) {
            Err(e) => Err(e),
            Ok((list, next)) => match entry_at(raw, next) {
                Err(e) => Err(e),
                Ok((p, end)) => Ok((list.push(p), end)),
            },
        }
    }
}

/// So many numbers of eight bytes each.
pub open spec fn scenes_at(raw: Seq<u8>, at: int, n: int) -> Result<(Seq<u64>, int), Unread>
    decreases n,
{
    if n <= 0 {
        Ok((Seq::empty(), at))
    } else {
        match scenes_at(raw, at, n - 1) {
            Err(e) => Err(e),
            Ok((list, next)) => match number_at(raw, next, 8) {
                Err(e) => Err(e),
                Ok((v, end)) => Ok((list.push(v as u64), end)),
            },
        }
    }
}

/// A held picture.
pub open spec fn thumb_at(raw: Seq<u8>, at: int) -> Result<((u64, Seq<u8>), int), Unread> {
    match number_at(raw, at, 8) {
        Err(e) => Err(e),
        Ok((time, at)) => match counted_bytes_at(raw, at) {
            Err(e) => Err(e),
            Ok((jpeg, at)) => Ok(((time as u64, jpeg), at)),
        },
    }
}

/// So many held pictures.
pub open spec fn thumbs_at(raw: Seq<u8>, at: int, n: int) -> Result<
    (Seq<(u64, Seq<u8>)>, int),
    Unread,
>
    decreases n,
{
    if n <= 0 {
        Ok((Seq::empty(), at))
    } else {
        match thumbs_at(raw, at, n - 1) {
            Err(e) => Err(e),
            Ok((list, next)) => match thumb_at(raw, next) {
                Err(e) => Err(e),
                Ok((t, end)) => Ok((list.push(t), end)),
            },
        }
    }
}

/// The numbers in front of a track.
pub open spec fn track_head_at(raw: Seq<u8>, at: int) -> Result<(TrackModel, int), Unread> {
    match number_at(raw, at, 4) {
        Err(e) => Err(e),
        Ok((width, at)) => match number_at(raw, at, 8) {
            Err(e) => Err(e),
            Ok((interval, at)) => match number_at(raw, at, 8) {
                Err(e) => Err(e),
                Ok((covered, at)) => match number_at(raw, at, 8) {
                    Err(e) => Err(e),
                    Ok((threshold, at)) => match number_at(raw, at, 8) {
                        Err(e) => Err(e),
                        Ok((typical, at)) => Ok(
                            (
                                TrackModel {
                                    width: width as u32,
                                    interval: interval as u64,
                                    covered: covered as u64,
                                    threshold: threshold as u64,
                                    typical: typical as u64,
                                    scenes: Seq::empty(),
                                    thumbs: Seq::empty(),
                                },
                                at,
                            ),
                        ),
                    },
                },
            },
        },
    }
}

/// A track.
pub open spec fn track_at(raw: Seq<u8>, at: int) -> Result<(TrackModel, int), Unread> {
    match track_head_at(raw, at) {
        Err(e) => Err(e),
        Ok((head, at)) => match number_at(raw, at, 8) {
            Err(e) => Err(e),
            Ok((n, at)) => match scenes_at(raw, at, n as int) {
                Err(e) => Err(e),
                Ok((scenes, at)) => match number_at(raw, at, 8) {
                    Err(e) => Err(e),
                    Ok((n, at)) => match thumbs_at(raw, at, n as int) {
                        Err(e) => Err(e),
                        Ok((thumbs, at)) => Ok((TrackModel { scenes, thumbs, ..head }, at)),
                    },
                },
            },
        },
    }
}

/// Whether a flag is among others.
pub open spec fn flagged(flags: nat, flag: u32) -> bool {
    flags / flag as nat % 2 == 1
}

/// The index some flags and access points amount to, with the track that
/// follows them where there is one.
pub open spec fn index_from(
    raw: Seq<u8>,
    flags: nat,
    points: Seq<EntryModel>,
    at: int,
) -> Result<IndexModel, Unread> {
    let m = IndexModel {
        points,
        leading_known: flagged(flags, FLAG_LEADING_KNOWN),
        pulldown: if flagged(flags, FLAG_PULLDOWN_KNOWN) {
            Some(flagged(flags, FLAG_PULLDOWN))
        } else {
            None
        },
        track: None,
    };
    if flagged(flags, FLAG_HAS_TRACK) {
        match track_at(raw, at) {
            Err(e) => Err(e),
            Ok((t, _)) => Ok(IndexModel { track: Some(t), ..m }),
        }
    } else {
        Ok(m)
    }
}

/// The index a file holds, or why it cannot be read.
pub open spec fn index_read(raw: Seq<u8>) -> Result<IndexModel, Unread> {
    match bytes_at(raw, 0, 4) {
        Err(e) => Err(e),
        Ok((magic, at)) => if magic != ascii("SCIX"@) {
            Err(Unread::NotOne)
        } else {
            match number_at(raw, at, 4) {
                Err(e) => Err(e),
                Ok((version, at)) => if version != VERSION {
                    Err(Unread::OtherVersion)
                } else {
                    match number_at(raw, at, 4) {
                        Err(e) => Err(e),
                        Ok((flags, at)) => match number_at(raw, at, 8) {
                            Err(e) => Err(e),
                            Ok((n, at)) => match entries_at(raw, at, n as int) {
                                Err(e) => Err(e),
                                Ok((points, at)) => index_from(raw, flags, points, at),
                            },
                        },
                    }
                },
            }
        },
    }
}

/// Once a list cannot be read, no more of it can.
proof fn lemma_leads_stay_unread(raw: Seq<u8>, at: int, i: int, n: int)
    requires
        0 <= i <= n,
        leads_at(raw, at, i) is Err,
    ensures
        leads_at(raw, at, n) == leads_at(raw, at, i),
    decreases n - i,
{
    if i < n {
        lemma_leads_stay_unread(raw, at, i, n - 1);
    }
}

proof fn lemma_entries_stay_unread(raw: Seq<u8>, at: int, i: int, n: int)
    requires
        0 <= i <= n,
        entries_at(raw, at, i) is Err,
    ensures
        entries_at(raw, at, n) == entries_at(raw, at, i),
    decreases n - i,
{
    if i < n {
        lemma_entries_stay_unread(raw, at, i, n - 1);
    }
}

proof fn lemma_scenes_stay_unread(raw: Seq<u8>, at: int, i: int, n: int)
    requires
        0 <= i <= n,
        scenes_at(raw, at, i) is Err,
    ensures
        scenes_at(raw, at, n) == scenes_at(raw, at, i),
    decreases n - i,
{
    if i < n {
        lemma_scenes_stay_unread(raw, at, i, n - 1);
    }
}

proof fn lemma_thumbs_stay_unread(raw: Seq<u8>, at: int, i: int, n: int)
    requires
        0 <= i <= n,
        thumbs_at(raw, at, i) is Err,
    ensures
        thumbs_at(raw, at, n) == thumbs_at(raw, at, i),
    decreases n - i,
{
    if i < n {
        lemma_thumbs_stay_unread(raw, at, i, n - 1);
    }
}

fn read_leads(r: &mut Reader, n: u32) -> (out: Result<Vec<u32>, Unread>)
    requires
        old(r).wf(),
    ensures
        final(r).wf(),
        final(r).raw == old(r).raw,
        match leads_at(old(r).raw@, old(r).at as int, n as int) {
            Ok((list, next)) => out is Ok && (out->Ok_0)@ == list && final(r).at == next,
            Err(e) => out is Err && out->Err_0 == e,
        },
{
    let ghost (raw, at) = (r.raw@, r.at as int);
    let mut list: Vec<u32> = Vec::new();
    let mut i: u32 = 0;
    while i < n
        invariant
            i <= n,
            r.wf(),
            r.raw == old(r).raw,
            raw == r.raw@,
            at == old(r).at,
            leads_at(raw, at, i as int) == Ok::<(Seq<u32>, int), Unread>((list@, r.at as int)),
        decreases n - i,
    {
        match r.u32() {
            Err(e) => {
                proof {
                    assert(leads_at(raw, at, i + 1) == Err::<(Seq<u32>, int), Unread>(e));
                    lemma_leads_stay_unread(raw, at, i + 1, n as int);
                }
                return Err(e);
            },
            Ok(v) => {
                list.push(v);
            },
        }
        i += 1;
    }
    Ok(list)
}

fn read_entry(r: &mut Reader) -> (out: Result<Entry, Unread>)
    requires
        old(r).wf(),
    ensures
        final(r).wf(),
        final(r).raw == old(r).raw,
        match entry_at(old(r).raw@, old(r).at as int) {
            Ok((p, next)) => out is Ok && (out->Ok_0)@ == p && final(r).at == next,
            Err(e) => out is Err && out->Err_0 == e,
        },
{
    let time: u64 = match r.u64() {
        Ok(v) => v,
        Err(e) => {
            return Err(e);
        },
    };
    let lead_start: u64 = match r.u64() {
        Ok(v) => v,
        Err(e) => {
            return Err(e);
        },
    };
    let pos: i64 = match r.i64() {
        Ok(v) => v,
        Err(e) => {
            return Err(e);
        },
    };
    let droppable: u8 = match r.u8() {
        Ok(v) => v,
        Err(e) => {
            return Err(e);
        },
    };
    let n: u32 = match r.u32() {
        Ok(v) => v,
        Err(e) => {
            return Err(e);
        },
    };
    match read_leads(r, n) {
        Ok(lead_indices) => Ok(
            Entry { time, lead_start, lead_indices, droppable: droppable != 0, pos },
        ),
        Err(e) => Err(e),
    }
}

fn read_entries(r: &mut Reader, n: u64) -> (out: Result<Vec<Entry>, Unread>)
    requires
        old(r).wf(),
    ensures
        final(r).wf(),
        final(r).raw == old(r).raw,
        match entries_at(old(r).raw@, old(r).at as int, n as int) {
            Ok((list, next)) => out is Ok && (out->Ok_0)@.map_values(|p: Entry| p@) == list
                && final(r).at == next,
            Err(e) => out is Err && out->Err_0 == e,
        },
{
    let ghost (raw, at) = (r.raw@, r.at as int);
    let mut list: Vec<Entry> = Vec::new();
    let ghost mut held: Seq<EntryModel> = Seq::empty();
    let mut i: u64 = 0;
    while i < n
        invariant
            i <= n,
            r.wf(),
            r.raw == old(r).raw,
            raw == r.raw@,
            at == old(r).at,
            held =~= list@.map_values(|p: Entry| p@),
            entries_at(raw, at, i as int) == Ok::<(Seq<EntryModel>, int), Unread>(
                (held, r.at as int),
            ),
        decreases n - i,
    {
        match read_entry(r) {
            Err(e) => {
                proof {
                    assert(entries_at(raw, at, i + 1) == Err::<(Seq<EntryModel>, int), Unread>(e));
                    lemma_entries_stay_unread(raw, at, i + 1, n as int);
                }
                return Err(e);
            },
            Ok(p) => {
                proof {
                    held = held.push(p@);
                }
                list.push(p);
            },
        }
        i += 1;
    }
    Ok(list)
}

fn read_scenes(r: &mut Reader, n: u64) -> (out: Result<Vec<u64>, Unread>)
    requires
        old(r).wf(),
    ensures
        final(r).wf(),
        final(r).raw == old(r).raw,
        match scenes_at(old(r).raw@, old(r).at as int, n as int) {
            Ok((list, next)) => out is Ok && (out->Ok_0)@ == list && final(r).at == next,
            Err(e) => out is Err && out->Err_0 == e,
        },
{
    let ghost (raw, at) = (r.raw@, r.at as int);
    let mut list: Vec<u64> = Vec::new();
    let mut i: u64 = 0;
    while i < n
        invariant
            i <= n,
            r.wf(),
            r.raw == old(r).raw,
            raw == r.raw@,
            at == old(r).at,
            scenes_at(raw, at, i as int) == Ok::<(Seq<u64>, int), Unread>((list@, r.at as int)),
        decreases n - i,
    {
        match r.u64() {
            Err(e) => {
                proof {
                    assert(scenes_at(raw, at, i + 1) == Err::<(Seq<u64>, int), Unread>(e));
                    lemma_scenes_stay_unread(raw, at, i + 1, n as int);
                }
                return Err(e);
            },
            Ok(v) => {
                list.push(v);
            },
        }
        i += 1;
    }
    Ok(list)
}

fn read_thumbs(r: &mut Reader, n: u64) -> (out: Result<Vec<HeldThumb>, Unread>)
    requires
        old(r).wf(),
    ensures
        final(r).wf(),
        final(r).raw == old(r).raw,
        match thumbs_at(old(r).raw@, old(r).at as int, n as int) {
            Ok((list, next)) => out is Ok && (out->Ok_0)@.map_values(|t: HeldThumb| t@) == list
                && final(r).at == next,
            Err(e) => out is Err && out->Err_0 == e,
        },
{
    let ghost (raw, at) = (r.raw@, r.at as int);
    let mut list: Vec<HeldThumb> = Vec::new();
    let ghost mut held: Seq<(u64, Seq<u8>)> = Seq::empty();
    let mut i: u64 = 0;
    while i < n
        invariant
            i <= n,
            r.wf(),
            r.raw == old(r).raw,
            raw == r.raw@,
            at == old(r).at,
            held =~= list@.map_values(|t: HeldThumb| t@),
            thumbs_at(raw, at, i as int) == Ok::<(Seq<(u64, Seq<u8>)>, int), Unread>(
                (held, r.at as int),
            ),
        decreases n - i,
    {
        let ghost from = r.at as int;
        let read: Result<HeldThumb, Unread> = match r.u64() {
            Err(e) => Err(e),
            Ok(time) => match r.bytes() {
                Err(e) => Err(e),
                Ok(jpeg) => Ok(HeldThumb { time, jpeg: copied(jpeg) }),
            },
        };
        match read {
            Err(e) => {
                proof {
                    assert(thumb_at(raw, from) == Err::<((u64, Seq<u8>), int), Unread>(e));
                    assert(thumbs_at(raw, at, i + 1) == Err::<
                        (Seq<(u64, Seq<u8>)>, int),
                        Unread,
                    >(e));
                    lemma_thumbs_stay_unread(raw, at, i + 1, n as int);
                }
                return Err(e);
            },
            Ok(t) => {
                proof {
                    assert(thumb_at(raw, from) == Ok::<((u64, Seq<u8>), int), Unread>(
                        (t@, r.at as int),
                    ));
                    held = held.push(t@);
                }
                list.push(t);
            },
        }
        i += 1;
    }
    Ok(list)
}

fn read_track(r: &mut Reader) -> (out: Result<HeldTrack, Unread>)
    requires
        old(r).wf(),
    ensures
        match track_at(old(r).raw@, old(r).at as int) {
            Ok((t, _)) => out is Ok && (out->Ok_0)@ == t,
            Err(e) => out is Err && out->Err_0 == e,
        },
{
    let width: u32 = match r.u32() {
        Ok(v) => v,
        Err(e) => {
            return Err(e);
        },
    };
    let interval: u64 = match r.u64() {
        Ok(v) => v,
        Err(e) => {
            return Err(e);
        },
    };
    let covered: u64 = match r.u64() {
        Ok(v) => v,
        Err(e) => {
            return Err(e);
        },
    };
    let threshold: u64 = match r.u64() {
        Ok(v) => v,
        Err(e) => {
            return Err(e);
        },
    };
    let typical: u64 = match r.u64() {
        Ok(v) => v,
        Err(e) => {
            return Err(e);
        },
    };
    let n: u64 = match r.u64() {
        Ok(v) => v,
        Err(e) => {
            return Err(e);
        },
    };
    let scenes: Vec<u64> = match read_scenes(r, n) {
        Ok(v) => v,
        Err(e) => {
            return Err(e);
        },
    };
    let m: u64 = match r.u64() {
        Ok(v) => v,
        Err(e) => {
            return Err(e);
        },
    };
    match read_thumbs(r, m) {
        Ok(thumbs) => Ok(
            HeldTrack { width, interval, covered, threshold, typical, scenes, thumbs },
        ),
        Err(e) => Err(e),
    }
}

/// Whether a flag is among others.
fn has(flags: u32, flag: u32) -> (r: bool)
    requires
        flag > 0,
    ensures
        r == flagged(flags as nat, flag),
{
    flags / flag % 2 == 1
}

impl SeekIndex {
    /// Read an index back.
    pub fn load(raw: &[u8]) -> (r: Result<SeekIndex, Unread>)
        ensures
            match index_read(raw@) {
                Ok(m) => r is Ok && (r->Ok_0)@ == m,
                Err(e) => r is Err && r->Err_0 == e,
            },
    {
        let mut from = Reader { raw, at: 0 };
        let magic: &[u8] = match from.take(4) {
            Ok(v) => v,
            Err(e) => {
                return Err(e);
            },
        };
        let wanted: Vec<u8> = ascii_bytes("SCIX");
        if !same(magic, wanted.as_slice()) {
            return Err(Unread::NotOne);
        }
        let version: u32 = match from.u32() {
            Ok(v) => v,
            Err(e) => {
                return Err(e);
            },
        };
        if version != VERSION {
            return Err(Unread::OtherVersion);
        }
        let flags: u32 = match from.u32() {
            Ok(v) => v,
            Err(e) => {
                return Err(e);
            },
        };
        let n: u64 = match from.u64() {
            Ok(v) => v,
            Err(e) => {
                return Err(e);
            },
        };
        let points: Vec<Entry> = match read_entries(&mut from, n) {
            Ok(v) => v,
            Err(e) => {
                return Err(e);
            },
        };
        let leading_known: bool = has(flags, FLAG_LEADING_KNOWN);
        let pulldown: Option<bool> = if has(flags, FLAG_PULLDOWN_KNOWN) {
            Some(has(flags, FLAG_PULLDOWN))
        } else {
            None
        };
        if has(flags, FLAG_HAS_TRACK) {
            match read_track(&mut from) {
                Ok(t) => Ok(SeekIndex { points, leading_known, pulldown, track: Some(t) }),
                Err(e) => Err(e),
            }
        } else {
            Ok(SeekIndex { points, leading_known, pulldown, track: None })
        }
    }
}

/// Whether what is left of a file from a place on is some bytes and the rest.
spec fn comes(raw: Seq<u8>, at: int, piece: Seq<u8>, rest: Seq<u8>) -> bool {
    0 <= at <= raw.len() <= usize::MAX && raw.skip(at) == piece + rest
}

/// What comes next is bytes: they are read, and the rest is what is left.
proof fn lemma_bytes_come(raw: Seq<u8>, at: int, piece: Seq<u8>, rest: Seq<u8>)
    requires
        comes(raw, at, piece, rest),
    ensures
        bytes_at(raw, at, piece.len() as int) == Ok::<(Seq<u8>, int), Unread>(
            (piece, at + piece.len()),
        ),
        0 <= at + piece.len() <= raw.len(),
        raw.skip(at + piece.len()) == rest,
{
    assert(raw.skip(at).len() == piece.len() + rest.len());
    assert(raw.subrange(at, at + piece.len()) =~= piece) by {
        assert forall|i: int| 0 <= i < piece.len() implies raw.subrange(
            at,
            at + piece.len(),
        )[i] == #[trigger] piece[i] by {
            assert(raw.skip(at)[i] == (piece + rest)[i]);
        }
    }
    assert(raw.skip(at + piece.len()) =~= rest) by {
        assert forall|i: int| 0 <= i < rest.len() implies raw.skip(at + piece.len())[i]
            == #[trigger] rest[i] by {
            assert(raw.skip(at)[i + piece.len()] == (piece + rest)[i + piece.len()]);
        }
    }
}

/// What comes next is a number: it is read, and the rest is what is left.
proof fn lemma_number_comes(raw: Seq<u8>, at: int, v: nat, n: nat, rest: Seq<u8>)
    requires
        comes(raw, at, le_bytes(v, n), rest),
        v < room(n),
    ensures
        number_at(raw, at, n as int) == Ok::<(nat, int), Unread>((v, at + n)),
        0 <= at + n <= raw.len(),
        raw.skip(at + n) == rest,
{
    lemma_le_reads_back(v, n);
    lemma_bytes_come(raw, at, le_bytes(v, n), rest);
}

proof fn lemma_leads_come(raw: Seq<u8>, at: int, leads: Seq<u32>, rest: Seq<u8>)
    requires
        comes(raw, at, leads_bytes(leads), rest),
    ensures
        leads_at(raw, at, leads.len() as int) == Ok::<(Seq<u32>, int), Unread>(
            (leads, at + leads_bytes(leads).len()),
        ),
        0 <= at + leads_bytes(leads).len() <= raw.len(),
        raw.skip(at + leads_bytes(leads).len()) == rest,
    decreases leads.len(),
{
    lemma_bytes_come(raw, at, leads_bytes(leads), rest);
    if leads.len() > 0 {
        let (less, last) = (leads.drop_last(), leads.last());
        let piece = le_bytes(last as nat, 4);
        assert(leads_bytes(leads) + rest =~= leads_bytes(less) + (piece + rest));
        lemma_leads_come(raw, at, less, piece + rest);
        lemma_rooms();
        lemma_number_comes(raw, at + leads_bytes(less).len(), last as nat, 4, rest);
        lemma_le_reads_back(last as nat, 4);
        assert(less.push(last) =~= leads);
    } else {
        assert(leads =~= Seq::empty());
    }
}

proof fn lemma_entry_comes(raw: Seq<u8>, at: int, p: EntryModel, rest: Seq<u8>)
    requires
        comes(raw, at, entry_bytes(p), rest),
        p.leads.len() < 0x1_0000_0000,
    ensures
        entry_at(raw, at) == Ok::<(EntryModel, int), Unread>((p, at + entry_bytes(p).len())),
        0 <= at + entry_bytes(p).len() <= raw.len(),
        raw.skip(at + entry_bytes(p).len()) == rest,
{
    lemma_bytes_come(raw, at, entry_bytes(p), rest);
    let flag = if p.droppable {
        1nat
    } else {
        0
    };
    reveal_with_fuel(le_bytes, 2);
    assert(le_bytes(flag, 1) =~= seq![
        if p.droppable {
            1u8
        } else {
            0u8
        },
    ]);
    assert(low32(p.leads.len()) == p.leads.len());
    lemma_rooms();
    let r5 = leads_bytes(p.leads) + rest;
    let r4 = le_bytes(p.leads.len(), 4) + r5;
    let r3 = le_bytes(flag, 1) + r4;
    let r2 = le_bytes(unsigned(p.pos), 8) + r3;
    let r1 = le_bytes(p.lead_start as nat, 8) + r2;
    lemma_le_reads_back(p.time as nat, 8);
    lemma_le_reads_back(p.lead_start as nat, 8);
    lemma_le_reads_back(unsigned(p.pos), 8);
    lemma_le_reads_back(p.leads.len(), 4);
    assert(entry_bytes(p) + rest =~= le_bytes(p.time as nat, 8) + r1);
    lemma_number_comes(raw, at, p.time as nat, 8, r1);
    lemma_number_comes(raw, at + 8, p.lead_start as nat, 8, r2);
    lemma_number_comes(raw, at + 16, unsigned(p.pos), 8, r3);
    lemma_number_comes(raw, at + 24, flag, 1, r4);
    lemma_number_comes(raw, at + 25, p.leads.len(), 4, r5);
    lemma_leads_come(raw, at + 29, p.leads, rest);
}

proof fn lemma_entries_come(raw: Seq<u8>, at: int, points: Seq<EntryModel>, rest: Seq<u8>)
    requires
        comes(raw, at, entries_bytes(points), rest),
        forall|i: int| 0 <= i < points.len() ==> (#[trigger] points[i]).leads.len() < 0x1_0000_0000,
    ensures
        entries_at(raw, at, points.len() as int) == Ok::<(Seq<EntryModel>, int), Unread>(
            (points, at + entries_bytes(points).len()),
        ),
        0 <= at + entries_bytes(points).len() <= raw.len(),
        raw.skip(at + entries_bytes(points).len()) == rest,
    decreases points.len(),
{
    lemma_bytes_come(raw, at, entries_bytes(points), rest);
    if points.len() > 0 {
        let (less, last) = (points.drop_last(), points.last());
        let piece = entry_bytes(last);
        assert(points[points.len() - 1].leads.len() < 0x1_0000_0000);
        assert forall|i: int| 0 <= i < less.len() implies (#[trigger] less[i]).leads.len()
            < 0x1_0000_0000 by {
            assert(less[i] == points[i]);
        }
        assert(entries_bytes(points) + rest =~= entries_bytes(less) + (piece + rest));
        lemma_entries_come(raw, at, less, piece + rest);
        lemma_entry_comes(raw, at + entries_bytes(less).len(), last, rest);
        assert(less.push(last) =~= points);
    } else {
        assert(points =~= Seq::empty());
    }
}

proof fn lemma_scenes_come(raw: Seq<u8>, at: int, scenes: Seq<u64>, rest: Seq<u8>)
    requires
        comes(raw, at, scenes_bytes(scenes), rest),
    ensures
        scenes_at(raw, at, scenes.len() as int) == Ok::<(Seq<u64>, int), Unread>(
            (scenes, at + scenes_bytes(scenes).len()),
        ),
        0 <= at + scenes_bytes(scenes).len() <= raw.len(),
        raw.skip(at + scenes_bytes(scenes).len()) == rest,
    decreases scenes.len(),
{
    lemma_bytes_come(raw, at, scenes_bytes(scenes), rest);
    if scenes.len() > 0 {
        let (less, last) = (scenes.drop_last(), scenes.last());
        let piece = le_bytes(last as nat, 8);
        assert(scenes_bytes(scenes) + rest =~= scenes_bytes(less) + (piece + rest));
        lemma_scenes_come(raw, at, less, piece + rest);
        lemma_rooms();
        lemma_number_comes(raw, at + scenes_bytes(less).len(), last as nat, 8, rest);
        lemma_le_reads_back(last as nat, 8);
        assert(less.push(last) =~= scenes);
    } else {
        assert(scenes =~= Seq::empty());
    }
}

proof fn lemma_thumb_comes(raw: Seq<u8>, at: int, t: (u64, Seq<u8>), rest: Seq<u8>)
    requires
        comes(raw, at, thumb_bytes(t), rest),
        t.1.len() < 0x1_0000_0000,
    ensures
        thumb_at(raw, at) == Ok::<((u64, Seq<u8>), int), Unread>((t, at + thumb_bytes(t).len())),
        0 <= at + thumb_bytes(t).len() <= raw.len(),
        raw.skip(at + thumb_bytes(t).len()) == rest,
{
    lemma_bytes_come(raw, at, thumb_bytes(t), rest);
    lemma_rooms();
    let r2 = t.1 + rest;
    let r1 = le_bytes(t.1.len(), 4) + r2;
    lemma_le_reads_back(t.0 as nat, 8);
    lemma_le_reads_back(t.1.len(), 4);
    assert(low32(t.1.len()) == t.1.len());
    assert(thumb_bytes(t) + rest =~= le_bytes(t.0 as nat, 8) + r1);
    lemma_number_comes(raw, at, t.0 as nat, 8, r1);
    lemma_number_comes(raw, at + 8, t.1.len(), 4, r2);
    lemma_bytes_come(raw, at + 12, t.1, rest);
}

proof fn lemma_thumbs_come(raw: Seq<u8>, at: int, thumbs: Seq<(u64, Seq<u8>)>, rest: Seq<u8>)
    requires
        comes(raw, at, thumbs_bytes(thumbs), rest),
        forall|i: int| 0 <= i < thumbs.len() ==> (#[trigger] thumbs[i]).1.len() < 0x1_0000_0000,
    ensures
        thumbs_at(raw, at, thumbs.len() as int) == Ok::<(Seq<(u64, Seq<u8>)>, int), Unread>(
            (thumbs, at + thumbs_bytes(thumbs).len()),
        ),
    decreases thumbs.len(),
{
    if thumbs.len() > 0 {
        let (less, last) = (thumbs.drop_last(), thumbs.last());
        let piece = thumb_bytes(last);
        assert(thumbs[thumbs.len() - 1].1.len() < 0x1_0000_0000);
        assert forall|i: int| 0 <= i < less.len() implies (#[trigger] less[i]).1.len()
            < 0x1_0000_0000 by {
            assert(less[i] == thumbs[i]);
        }
        assert(thumbs_bytes(thumbs) + rest =~= thumbs_bytes(less) + (piece + rest));
        lemma_thumbs_come(raw, at, less, piece + rest);
        lemma_bytes_come(raw, at, thumbs_bytes(less), piece + rest);
        lemma_thumb_comes(raw, at + thumbs_bytes(less).len(), last, rest);
        assert(less.push(last) =~= thumbs);
    } else {
        assert(thumbs =~= Seq::empty());
    }
}

/// The numbers in front of a track, as bytes.
spec fn head_bytes(t: TrackModel, rest: Seq<u8>) -> Seq<u8> {
    le_bytes(t.width as nat, 4) + (le_bytes(t.interval as nat, 8) + (le_bytes(t.covered as nat, 8)
        + (le_bytes(t.threshold as nat, 8) + (le_bytes(t.typical as nat, 8) + rest))))
}

proof fn lemma_track_head_comes(raw: Seq<u8>, at: int, t: TrackModel, rest: Seq<u8>)
    requires
        comes(raw, at, Seq::empty(), head_bytes(t, rest)),
    ensures
        track_head_at(raw, at) == Ok::<(TrackModel, int), Unread>(
            (TrackModel { scenes: Seq::empty(), thumbs: Seq::empty(), ..t }, at + 36),
        ),
        at + 36 <= raw.len(),
        raw.skip(at + 36) == rest,
{
    let r4 = le_bytes(t.typical as nat, 8) + rest;
    let r3 = le_bytes(t.threshold as nat, 8) + r4;
    let r2 = le_bytes(t.covered as nat, 8) + r3;
    let r1 = le_bytes(t.interval as nat, 8) + r2;
    lemma_rooms();
    assert(Seq::<u8>::empty() + head_bytes(t, rest) =~= le_bytes(t.width as nat, 4) + r1);
    lemma_number_comes(raw, at, t.width as nat, 4, r1);
    lemma_number_comes(raw, at + 4, t.interval as nat, 8, r2);
    lemma_number_comes(raw, at + 12, t.covered as nat, 8, r3);
    lemma_number_comes(raw, at + 20, t.threshold as nat, 8, r4);
    lemma_number_comes(raw, at + 28, t.typical as nat, 8, rest);
}

/// Whether the counts in an index are ones the file has room for.
pub open spec fn track_fits(t: TrackModel) -> bool {
    &&& t.scenes.len() <= u64::MAX
    &&& t.thumbs.len() <= u64::MAX
    &&& forall|i: int| 0 <= i < t.thumbs.len() ==> (#[trigger] t.thumbs[i]).1.len() < 0x1_0000_0000
}

proof fn lemma_track_comes(raw: Seq<u8>, at: int, t: TrackModel)
    requires
        comes(raw, at, track_bytes(t), Seq::empty()),
        track_fits(t),
    ensures
        track_at(raw, at) is Ok,
        (track_at(raw, at)->Ok_0).0 == t,
{
    let r4 = thumbs_bytes(t.thumbs) + Seq::<u8>::empty();
    let r3 = le_bytes(t.thumbs.len(), 8) + r4;
    let r2 = scenes_bytes(t.scenes) + r3;
    let r1 = le_bytes(t.scenes.len(), 8) + r2;
    lemma_rooms();
    assert(track_bytes(t) + Seq::<u8>::empty() =~= Seq::<u8>::empty() + head_bytes(t, r1));
    lemma_track_head_comes(raw, at, t, r1);
    lemma_number_comes(raw, at + 36, t.scenes.len(), 8, r2);
    lemma_scenes_come(raw, at + 44, t.scenes, r3);
    let next = at + 44 + scenes_bytes(t.scenes).len();
    lemma_number_comes(raw, next, t.thumbs.len(), 8, r4);
    lemma_thumbs_come(raw, next + 8, t.thumbs, Seq::empty());
}

/// Whether the counts in an index are ones the file has room for.
pub open spec fn fits(m: IndexModel) -> bool {
    &&& index_bytes(m).len() <= usize::MAX
    &&& m.points.len() <= u64::MAX
    &&& forall|i: int|
        0 <= i < m.points.len() ==> (#[trigger] m.points[i]).leads.len() < 0x1_0000_0000
    &&& m.track matches Some(t) ==> track_fits(t)
}

proof fn lemma_flags_read_back(m: IndexModel)
    ensures
        flags_of(m) < 16,
        flagged(flags_of(m), FLAG_LEADING_KNOWN) == m.leading_known,
        flagged(flags_of(m), FLAG_PULLDOWN_KNOWN) == m.pulldown is Some,
        m.pulldown matches Some(p) ==> flagged(flags_of(m), FLAG_PULLDOWN) == p,
        flagged(flags_of(m), FLAG_HAS_TRACK) == m.track is Some,
{
}

/// What follows the access points, in a file that holds this index.
spec fn tail_bytes(m: IndexModel) -> Seq<u8> {
    match m.track {
        Some(t) => track_bytes(t),
        None => Seq::empty(),
    }
}

proof fn lemma_head_comes(m: IndexModel)
    requires
        fits(m),
    ensures
        ({
            let raw = index_bytes(m);
            &&& bytes_at(raw, 0, 4) == Ok::<(Seq<u8>, int), Unread>((ascii("SCIX"@), 4))
            &&& number_at(raw, 4, 4) == Ok::<(nat, int), Unread>((VERSION as nat, 8))
            &&& number_at(raw, 8, 4) == Ok::<(nat, int), Unread>((flags_of(m), 12))
            &&& number_at(raw, 12, 8) == Ok::<(nat, int), Unread>((m.points.len(), 20))
            &&& comes(raw, 20, entries_bytes(m.points), tail_bytes(m))
        }),
{
    let raw = index_bytes(m);
    let magic = ascii("SCIX"@);
    reveal_strlit("SCIX");
    assert(magic.len() == 4);
    let r4 = entries_bytes(m.points) + tail_bytes(m);
    let r3 = le_bytes(m.points.len(), 8) + r4;
    let r2 = le_bytes(flags_of(m), 4) + r3;
    let r1 = le_bytes(VERSION as nat, 4) + r2;
    lemma_rooms();
    lemma_flags_read_back(m);
    assert(raw.skip(0) =~= raw);
    assert(raw =~= magic + r1);
    lemma_bytes_come(raw, 0, magic, r1);
    lemma_number_comes(raw, 4, VERSION as nat, 4, r2);
    lemma_number_comes(raw, 8, flags_of(m), 4, r3);
    lemma_number_comes(raw, 12, m.points.len(), 8, r4);
}

proof fn lemma_tail_comes(raw: Seq<u8>, at: int, m: IndexModel)
    requires
        fits(m),
        comes(raw, at, tail_bytes(m), Seq::empty()),
    ensures
        index_from(raw, flags_of(m), m.points, at) == Ok::<IndexModel, Unread>(m),
{
    lemma_flags_read_back(m);
    if let Some(track) = m.track {
        lemma_track_comes(raw, at, track);
    }
}

/// What is written down about a recording is read back as it was.
pub proof fn law_an_index_reads_back(m: IndexModel)
    requires
        fits(m),
    ensures
        index_read(index_bytes(m)) == Ok::<IndexModel, Unread>(m),
{
    let raw = index_bytes(m);
    let tail = tail_bytes(m);
    lemma_head_comes(m);
    lemma_entries_come(raw, 20, m.points, tail);
    let at = 20 + entries_bytes(m.points).len();
    assert(tail =~= tail + Seq::<u8>::empty());
    lemma_tail_comes(raw, at as int, m);
}

/// The name of the file an index is kept in, given the recording's path, the
/// last part of it with no ending, its size and when it was last changed.
///
/// Keyed by those, so a file re-recorded under the same name gets a new index
/// rather than the old one.
pub fn cache_name(path: &str, stem: &str, size: u64, mtime: u64) -> (r: String)
    ensures
        r@ == name_of(
            stem@,
            eaten(SUM_START, key_bytes(path@, size, mtime, Seq::empty(), VERSION)),
            "scix"@,
        ),
{
    let none: Vec<u8> = Vec::new();
    assert(none@ =~= Seq::<u8>::empty());
    file_name(stem, key(path, size, mtime, none.as_slice(), VERSION), "scix")
}

/// The spacing a track's pictures turned out to have, where they say; what was
/// stored where they do not. The spacing is a property of the pictures
/// themselves, so it is taken from them rather than trusted.
pub fn settled_interval(stored: Bits, measured: Option<Bits>) -> (r: Bits)
    ensures
        r == (match measured {
            Some(v) => v,
            None => stored,
        }),
{
    match measured {
        Some(v) => v,
        None => stored,
    }
}

} // verus!
