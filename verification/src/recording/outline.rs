//! What the container itself says about a recording, before a byte of it has
//! been walked.
//!
//! A demuxer opens a file, probes a few megabytes off the head of it, and
//! names the streams it found. What is made of that is here: which of them is
//! the picture and which the sound, which of the sound tracks is the main one,
//! which streams are text and of what kind, and what a cut will have to leave
//! behind. The demuxer's answers, and those of the recording's own tables,
//! come in as plain values.
use crate::chars::{chars_of, same_chars, split_at, split_chars, texts, trim, trimmed};
use crate::recording::{
    text_kind, text_stream, AudioInfo, CaptionInfo, DroppedStream, GraphicsInfo, Ratio, Seam,
    SoundTrack, SubpictureInfo, TextFormat, TextKind, VideoInfo,
};
use crate::time::in_reach;
use vstd::prelude::*;

verus! {

/// What a stream carries, as a demuxer sorts it.
#[derive(Debug, Clone, Copy, PartialEq, Eq, Structural)]
pub enum Medium {
    Video,
    Audio,
    Subtitle,
    Data,
    Attachment,
    Unknown,
}

/// The codings that matter to what a stream is taken for.
#[derive(Debug, Clone, Copy, PartialEq, Eq, Structural)]
pub enum Coded {
    /// The captions of a high definition broadcast.
    AribCaption,
    /// Bytes of no stated kind.
    BinData,
    /// A disc's drawn subtitles.
    Pgs,
    /// The event information table.
    Epg,
    /// Anything else.
    Other,
}

/// What a demuxer says of one stream.
#[derive(Debug, Clone, PartialEq, Eq)]
pub struct StreamFacts {
    pub stream_index: usize,
    /// What the container calls it: a PID, on a transport stream.
    pub id: i32,
    pub medium: Medium,
    pub coded: Coded,
    pub codec: String,
    pub language: Option<String>,
    pub time_base: Ratio,
    pub sample_rate: u32,
    pub channels: u16,
    pub bits: u8,
    pub bit_rate: Option<u64>,
}

/// A stream a disc's index names that a demuxer cannot: its PID, and what it
/// is.
#[derive(Debug, Clone, Copy, PartialEq, Eq)]
pub struct Unreadable {
    pub pid: i32,
    pub what: &'static str,
}

/// What a recording's own map says of one stream.
#[derive(Debug, Clone, Copy, PartialEq, Eq, Structural)]
pub struct MapEntry {
    pub pid: u16,
    pub component_tag: Option<u8>,
    pub data_component_id: Option<u16>,
}

/// What a demuxer says of the pictures.
#[derive(Debug, Clone, PartialEq, Eq)]
pub struct PictureFacts {
    pub stream_index: usize,
    pub id: i32,
    pub codec: String,
    pub width: u32,
    pub height: u32,
    pub frame_rate: Ratio,
    pub base_rate: Ratio,
    pub has_b_frames: i32,
    pub time_base: Ratio,
    /// As stated, which may be nought over nought.
    pub sample_aspect_ratio: Ratio,
    pub field_order: i32,
}

/// Whether one of the names a demuxer goes by, with commas between, is this
/// one.
pub open spec fn goes_by(names: Seq<char>, name: Seq<char>) -> bool {
    exists|i: int|
        0 <= i < split_at(names, ',').len() && trimmed(#[trigger] split_at(names, ',')[i]) == name
}

fn is_named(names: &str, name: &str) -> (r: bool)
    ensures
        r == goes_by(names@, name@),
{
    let parts: Vec<Vec<char>> = split_chars(chars_of(names).as_slice(), ',');
    let ghost all = texts(parts@);
    let wanted: Vec<char> = chars_of(name);
    let mut i: usize = 0;
    while i < parts.len()
        invariant
            i <= parts@.len(),
            all == texts(parts@),
            all == split_at(names@, ','),
            wanted@ == name@,
            forall|k: int| 0 <= k < i ==> trimmed(#[trigger] all[k]) != name@,
        decreases parts@.len() - i,
    {
        assert(all[i as int] == parts@[i as int]@);
        if same_chars(trim(parts[i].as_slice()).as_slice(), wanted.as_slice()) {
            return true;
        }
        i += 1;
    }
    false
}

/// Whether a raw byte offset may be seeked to: true of the stream formats,
/// which are demuxed by reading forward from wherever the file happens to be
/// positioned.
pub open spec fn seeks_by_byte(names: Seq<char>) -> bool {
    goes_by(names, "mpegts"@) || goes_by(names, "mpeg"@) || goes_by(names, "h264"@) || goes_by(
        names,
        "hevc"@,
    ) || goes_by(names, "mpegvideo"@)
}

/// Whether a raw byte offset may be seeked to, going by what the demuxer is
/// called.
///
/// Not true of MP4 or Matroska: their demuxers walk an internal sample table
/// and a repositioned file handle does not move it, so a byte seek there would
/// be quietly ignored -- and they carry a real seek table anyway, which is
/// exact already.
pub fn byte_seekable(format: &str) -> (r: bool)
    ensures
        r == seeks_by_byte(format@),
{
    is_named(format, "mpegts") || is_named(format, "mpeg") || is_named(format, "h264") || is_named(
        format,
        "hevc",
    ) || is_named(format, "mpegvideo")
}

/// Whether a stream's id is a PID.
///
/// A transport stream names its tracks that way and a cut puts them back on
/// the same numbers. **Nothing else has PIDs.** An MP4 numbers its tracks and
/// the demuxer hands that number over in the same field.
pub fn on_a_ts(format: &str) -> (r: bool)
    ensures
        r == goes_by(format@, "mpegts"@),
{
    is_named(format, "mpegts")
}

/// A text that may not be there, copied.
fn copy_text(t: &Option<String>) -> (r: Option<String>)
    ensures
        r == *t,
{
    match t {
        Some(s) => Some(s.clone()),
        None => None,
    }
}

/// Whether a disc's index names this PID as one a demuxer cannot read.
pub open spec fn indexed(unreadable: Seq<Unreadable>, pid: i32) -> bool {
    exists|i: int| 0 <= i < unreadable.len() && (#[trigger] unreadable[i]).pid == pid
}

/// Where the first of a disc's index's streams on this PID stands.
pub open spec fn indexed_at(unreadable: Seq<Unreadable>, pid: i32, i: int) -> Option<Unreadable>
    decreases unreadable.len() - i,
{
    if i < 0 || i >= unreadable.len() {
        None
    } else if unreadable[i].pid == pid {
        Some(unreadable[i])
    } else {
        indexed_at(unreadable, pid, i + 1)
    }
}

fn find_indexed(unreadable: &[Unreadable], pid: i32) -> (r: Option<Unreadable>)
    ensures
        r == indexed_at(unreadable@, pid, 0),
        r is Some <==> indexed(unreadable@, pid),
{
    let mut i: usize = 0;
    while i < unreadable.len()
        invariant
            i <= unreadable@.len(),
            indexed_at(unreadable@, pid, 0) == indexed_at(unreadable@, pid, i as int),
            forall|k: int| 0 <= k < i ==> (#[trigger] unreadable@[k]).pid != pid,
        decreases unreadable@.len() - i,
    {
        if unreadable[i].pid == pid {
            return Some(Unreadable { pid: unreadable[i].pid, what: unreadable[i].what });
        }
        i += 1;
    }
    None
}

/// A stream as a sound track.
pub open spec fn sound_of(f: StreamFacts) -> AudioInfo {
    AudioInfo {
        stream_index: f.stream_index,
        pid: f.id,
        language: f.language,
        codec: f.codec,
        sample_rate: f.sample_rate,
        channels: f.channels,
        bits: f.bits,
        time_base: f.time_base,
        bit_rate: f.bit_rate,
        said: None,
    }
}

/// Whether a stream is sound that can be carried: the disc's index does not
/// say otherwise, and the container managed to describe it. A broadcast whose
/// service changes its map part-way through names a second set of PIDs that
/// the head of the file has no frame on, and nothing can be done with one of
/// those.
pub open spec fn carried_sound(f: StreamFacts, unreadable: Seq<Unreadable>) -> bool {
    f.medium == Medium::Audio && !indexed(unreadable, f.id) && f.sample_rate > 0 && f.channels > 0
}

/// The sound tracks among some streams, in the order they come in.
pub open spec fn sounds_in(streams: Seq<StreamFacts>, unreadable: Seq<Unreadable>) -> Seq<AudioInfo>
    decreases streams.len(),
{
    if streams.len() == 0 {
        Seq::empty()
    } else if carried_sound(streams.last(), unreadable) {
        sounds_in(streams.drop_last(), unreadable).push(sound_of(streams.last()))
    } else {
        sounds_in(streams.drop_last(), unreadable)
    }
}

/// The sound tracks among some streams, in the order they come in.
pub fn sounds(streams: &[StreamFacts], unreadable: &[Unreadable]) -> (out: Vec<AudioInfo>)
    ensures
        out@ == sounds_in(streams@, unreadable@),
{
    let mut out: Vec<AudioInfo> = Vec::new();
    let mut i: usize = 0;
    while i < streams.len()
        invariant
            i <= streams@.len(),
            out@ =~= sounds_in(streams@.take(i as int), unreadable@),
        decreases streams@.len() - i,
    {
        assert(streams@.take(i + 1).drop_last() =~= streams@.take(i as int));
        let f: &StreamFacts = &streams[i];
        if f.medium == Medium::Audio && find_indexed(unreadable, f.id).is_none() && f.sample_rate > 0
            && f.channels > 0 {
            let one: AudioInfo = AudioInfo {
                stream_index: f.stream_index,
                pid: f.id,
                language: copy_text(&f.language),
                codec: f.codec.clone(),
                sample_rate: f.sample_rate,
                channels: f.channels,
                bits: f.bits,
                time_base: f.time_base,
                bit_rate: f.bit_rate,
                said: None,
            };
            out.push(one);
        }
        i += 1;
    }
    assert(streams@.take(i as int) =~= streams@);
    out
}

/// Whether one of these tracks is on this PID.
pub open spec fn has_pid(audios: Seq<AudioInfo>, pid: i32) -> bool {
    exists|i: int| 0 <= i < audios.len() && (#[trigger] audios[i]).pid == pid
}

/// A track as the piece of another it turned out to be.
pub open spec fn substream(a: AudioInfo) -> DroppedStream {
    DroppedStream { pid: a.pid, stream_index: a.stream_index, what: "substream" }
}

/// The first track on each PID, and the pieces the demuxer split out of them.
pub open spec fn folded_by_pid(audios: Seq<AudioInfo>) -> (Seq<AudioInfo>, Seq<DroppedStream>)
    decreases audios.len(),
{
    if audios.len() == 0 {
        (Seq::empty(), Seq::empty())
    } else {
        let (kept, folded) = folded_by_pid(audios.drop_last());
        if has_pid(kept, audios.last().pid) {
            (kept, folded.push(substream(audios.last())))
        } else {
            (kept.push(audios.last()), folded)
        }
    }
}

fn on_pid(audios: &[AudioInfo], pid: i32) -> (r: bool)
    ensures
        r == has_pid(audios@, pid),
{
    let mut i: usize = 0;
    while i < audios.len()
        invariant
            i <= audios@.len(),
            forall|k: int| 0 <= k < i ==> (#[trigger] audios@[k]).pid != pid,
        decreases audios@.len() - i,
    {
        if audios[i].pid == pid {
            return true;
        }
        i += 1;
    }
    false
}

/// A sound track, copied.
pub fn copy_sound(a: &AudioInfo) -> (r: AudioInfo)
    ensures
        r == *a,
{
    AudioInfo {
        stream_index: a.stream_index,
        pid: a.pid,
        language: copy_text(&a.language),
        codec: a.codec.clone(),
        sample_rate: a.sample_rate,
        channels: a.channels,
        bits: a.bits,
        time_base: a.time_base,
        bit_rate: a.bit_rate,
        said: match &a.said {
            Some(s) => Some(copy_said(s)),
            None => None,
        },
    }
}

/// What a broadcast says of a track, copied.
fn copy_said(s: &SoundTrack) -> (r: SoundTrack)
    ensures
        r == *s,
{
    SoundTrack {
        component_tag: s.component_tag,
        main: s.main,
        language: copy_text(&s.language),
        name: s.name.clone(),
    }
}

/// One sound track per PID, and what that leaves out.
///
/// A PID is how a transport stream names a track, and a cut puts each stream
/// back on the PID it arrived on. Two streams cannot share one: ask the muxer
/// for that and it says so and stops.
///
/// They do share one on a Blu-ray. Its lossless sound is a TrueHD track with
/// an AC-3 core folded into the same PES for a player that cannot decode the
/// rest, and the demuxer hands the two halves over as separate streams
/// carrying the same PID.
///
/// The first is the stream the programme map named; anything after it on the
/// same PID is a piece the demuxer split out of it. So the first is kept, and
/// the rest are named as left behind, because what goes is real.
///
/// Only a transport stream names its streams by PID. Every other container
/// numbers them however it likes, and more than one of them numbers them all
/// the same -- which would fold a whole recording's sound into its first
/// track.
pub fn one_track_per_pid(audios: Vec<AudioInfo>, on_a_ts: bool) -> (r: (
    Vec<AudioInfo>,
    Vec<DroppedStream>,
))
    ensures
        on_a_ts ==> (r.0@, r.1@) == folded_by_pid(audios@),
        !on_a_ts ==> r.0@ == audios@ && r.1@ == Seq::<DroppedStream>::empty(),
{
    let mut folded: Vec<DroppedStream> = Vec::new();
    if !on_a_ts {
        assert(folded@ =~= Seq::empty());
        return (audios, folded);
    }
    let mut kept: Vec<AudioInfo> = Vec::new();
    let mut i: usize = 0;
    while i < audios.len()
        invariant
            i <= audios@.len(),
            kept@ =~= folded_by_pid(audios@.take(i as int)).0,
            folded@ =~= folded_by_pid(audios@.take(i as int)).1,
        decreases audios@.len() - i,
    {
        assert(audios@.take(i + 1).drop_last() =~= audios@.take(i as int));
        let a: &AudioInfo = &audios[i];
        if on_pid(kept.as_slice(), a.pid) {
            folded.push(
                DroppedStream { pid: a.pid, stream_index: a.stream_index, what: "substream" },
            );
        } else {
            kept.push(copy_sound(a));
        }
        i += 1;
    }
    assert(audios@.take(i as int) =~= audios@);
    (kept, folded)
}

/// No PID is on two of the tracks that are kept, and every track that came in
/// is on one of them.
pub proof fn law_one_track_stands_for_each_pid(audios: Seq<AudioInfo>)
    ensures
        forall|i: int, j: int|
            0 <= i < j < folded_by_pid(audios).0.len() ==> (#[trigger] folded_by_pid(
                audios,
            ).0[i]).pid != (#[trigger] folded_by_pid(audios).0[j]).pid,
        forall|k: int|
            0 <= k < audios.len() ==> has_pid(folded_by_pid(audios).0, (#[trigger] audios[k]).pid),
        folded_by_pid(audios).0.len() + folded_by_pid(audios).1.len() == audios.len(),
    decreases audios.len(),
{
    if audios.len() > 0 {
        law_one_track_stands_for_each_pid(audios.drop_last());
        let before = folded_by_pid(audios.drop_last()).0;
        let after = folded_by_pid(audios).0;
        assert forall|k: int| 0 <= k < audios.len() implies has_pid(
            after,
            (#[trigger] audios[k]).pid,
        ) by {
            if k < audios.len() - 1 {
                assert(audios.drop_last()[k] == audios[k]);
                let i = choose|i: int| 0 <= i < before.len() && before[i].pid == audios[k].pid;
                assert(after[i] == before[i]);
            } else if !has_pid(before, audios.last().pid) {
                assert(after[before.len() as int] == audios.last());
            }
        }
        if !has_pid(before, audios.last().pid) {
            assert forall|i: int, j: int| 0 <= i < j < after.len() implies (#[trigger] after[i]).pid
                != (#[trigger] after[j]).pid by {
                assert(after[i] == before[i]);
                if j < before.len() {
                    assert(after[j] == before[j]);
                }
            }
        }
    }
}

/// A track whose description is the programme before it corrected to the
/// recording's own: how many channels, and at what rate. The bit rate the
/// container stated described the same wrong programme, and is given up.
pub open spec fn reshaped(a: AudioInfo, shape: Option<(u16, u32)>) -> AudioInfo {
    match shape {
        Some((channels, sample_rate)) => AudioInfo { channels, sample_rate, bit_rate: None, ..a },
        None => a,
    }
}

/// Tracks corrected to the recording's own, each by what was found for it.
pub open spec fn all_reshaped(audios: Seq<AudioInfo>, shapes: Seq<Option<(u16, u32)>>) -> Seq<
    AudioInfo,
> {
    Seq::new(
        audios.len(),
        |i: int|
            if i < shapes.len() {
                reshaped(audios[i], shapes[i])
            } else {
                audios[i]
            },
    )
}

/// Whether the sound's own shape is to be asked for: of a recording made off
/// the air and of nothing else. A disc's clip is a transport stream too, and
/// is one programme from its first frame.
pub fn asks_for_shapes(on_a_ts: bool, on_a_disc: bool) -> (r: bool)
    ensures
        r == (on_a_ts && !on_a_disc),
{
    on_a_ts && !on_a_disc
}

/// Correct what the probe said of each track to what the recording turned out
/// to carry.
///
/// What the probe described is the head of the file, and the head of a
/// broadcast recording is the end of the programme before it. Where that
/// programme's sound was a different shape from this one's -- mono read ahead
/// of a stereo programme, which is an ordinary evening -- the recording's own
/// is followed.
pub fn reshape(audios: &[AudioInfo], shapes: &[Option<(u16, u32)>]) -> (out: Vec<AudioInfo>)
    ensures
        out@ == all_reshaped(audios@, shapes@),
{
    let mut out: Vec<AudioInfo> = Vec::new();
    let mut i: usize = 0;
    while i < audios.len()
        invariant
            i <= audios@.len(),
            out@ =~= all_reshaped(audios@, shapes@).take(i as int),
        decreases audios@.len() - i,
    {
        let mut one: AudioInfo = copy_sound(&audios[i]);
        if i < shapes.len() {
            if let Some((channels, sample_rate)) = shapes[i] {
                one.channels = channels;
                one.sample_rate = sample_rate;
                one.bit_rate = None;
            }
        }
        out.push(one);
        i += 1;
    }
    out
}

/// What a map says of a PID, from the `i`th of its streams on.
pub open spec fn told_from(map: Seq<MapEntry>, pid: int, i: int) -> Option<MapEntry>
    decreases map.len() - i,
{
    if i < 0 || i >= map.len() {
        None
    } else if map[i].pid == pid {
        Some(map[i])
    } else {
        told_from(map, pid, i + 1)
    }
}

fn told(map: &[MapEntry], pid: i32) -> (r: Option<MapEntry>)
    ensures
        r == told_from(map@, pid as int, 0),
{
    let mut i: usize = 0;
    while i < map.len()
        invariant
            i <= map@.len(),
            told_from(map@, pid as int, 0) == told_from(map@, pid as int, i as int),
        decreases map@.len() - i,
    {
        if map[i].pid as i32 == pid {
            return Some(map[i]);
        }
        i += 1;
    }
    None
}

/// The tag a map names a track by.
pub open spec fn tag_told(map: Seq<MapEntry>, pid: int) -> Option<u8> {
    match told_from(map, pid, 0) {
        Some(e) => e.component_tag,
        None => None,
    }
}

fn tag_of(map: &[MapEntry], pid: i32) -> (r: Option<u8>)
    ensures
        r == tag_told(map@, pid as int),
{
    match told(map, pid) {
        Some(e) => e.component_tag,
        None => None,
    }
}

/// What a broadcast says of the track with this tag, from the `i`th thing it
/// says on.
pub open spec fn said_from(said: Seq<SoundTrack>, tag: u8, i: int) -> Option<SoundTrack>
    decreases said.len() - i,
{
    if i < 0 || i >= said.len() {
        None
    } else if said[i].component_tag == tag {
        Some(said[i])
    } else {
        said_from(said, tag, i + 1)
    }
}

fn find_said(said: &[SoundTrack], tag: u8) -> (r: Option<SoundTrack>)
    ensures
        r == said_from(said@, tag, 0),
{
    let mut i: usize = 0;
    while i < said.len()
        invariant
            i <= said@.len(),
            said_from(said@, tag, 0) == said_from(said@, tag, i as int),
        decreases said@.len() - i,
    {
        if said[i].component_tag == tag {
            return Some(copy_said(&said[i]));
        }
        i += 1;
    }
    None
}

/// A track with what the broadcast says of it. The map is allowed to have
/// named the language first: a language in the map is about the stream, where
/// this one is about the programme being carried on it.
pub open spec fn spoken_of(a: AudioInfo, map: Seq<MapEntry>, said: Seq<SoundTrack>) -> AudioInfo {
    match tag_told(map, a.pid as int) {
        None => a,
        Some(tag) => match said_from(said, tag, 0) {
            None => a,
            Some(track) => AudioInfo {
                language: if a.language is None {
                    track.language
                } else {
                    a.language
                },
                said: Some(track),
                ..a
            },
        },
    }
}

/// The tags of these tracks, for the programme's description to be asked
/// about.
pub open spec fn tags_of(audios: Seq<AudioInfo>, map: Seq<MapEntry>) -> Seq<u8>
    decreases audios.len(),
{
    if audios.len() == 0 {
        Seq::empty()
    } else {
        match tag_told(map, audios.last().pid as int) {
            Some(tag) => tags_of(audios.drop_last(), map).push(tag),
            None => tags_of(audios.drop_last(), map),
        }
    }
}

/// The PIDs of these tracks that are PIDs at all, for the map to be asked
/// about: a map that does not name them all is a map to keep reading past.
pub open spec fn pids_of(audios: Seq<AudioInfo>) -> Seq<u16>
    decreases audios.len(),
{
    if audios.len() == 0 {
        Seq::empty()
    } else if 0 <= audios.last().pid <= 0xFFFF {
        pids_of(audios.drop_last()).push(audios.last().pid as u16)
    } else {
        pids_of(audios.drop_last())
    }
}

/// The PIDs of these tracks that are PIDs at all; see [`pids_of`].
pub fn sound_pids(audios: &[AudioInfo]) -> (out: Vec<u16>)
    ensures
        out@ == pids_of(audios@),
{
    let mut out: Vec<u16> = Vec::new();
    let mut i: usize = 0;
    while i < audios.len()
        invariant
            i <= audios@.len(),
            out@ =~= pids_of(audios@.take(i as int)),
        decreases audios@.len() - i,
    {
        assert(audios@.take(i + 1).drop_last() =~= audios@.take(i as int));
        if 0 <= audios[i].pid && audios[i].pid <= 0xFFFF {
            out.push(audios[i].pid as u16);
        }
        i += 1;
    }
    assert(audios@.take(i as int) =~= audios@);
    out
}

/// The tags of these tracks; see [`tags_of`].
pub fn sound_tags(audios: &[AudioInfo], map: &[MapEntry]) -> (out: Vec<u8>)
    ensures
        out@ == tags_of(audios@, map@),
{
    let mut out: Vec<u8> = Vec::new();
    let mut i: usize = 0;
    while i < audios.len()
        invariant
            i <= audios@.len(),
            out@ =~= tags_of(audios@.take(i as int), map@),
        decreases audios@.len() - i,
    {
        assert(audios@.take(i + 1).drop_last() =~= audios@.take(i as int));
        if let Some(tag) = tag_of(map, audios[i].pid) {
            out.push(tag);
        }
        i += 1;
    }
    assert(audios@.take(i as int) =~= audios@);
    out
}

/// Tracks with what the broadcast says of each. Asked only where there is
/// more than one: a single track is the main sound whatever any table says.
pub open spec fn all_spoken_of(
    audios: Seq<AudioInfo>,
    map: Seq<MapEntry>,
    said: Seq<SoundTrack>,
) -> Seq<AudioInfo> {
    if audios.len() <= 1 {
        audios
    } else {
        audios.map_values(|a: AudioInfo| spoken_of(a, map, said))
    }
}

/// Put what the broadcast says of each track beside it.
///
/// **More than one sound track means one of two things and the sound cannot
/// say which.** A programme sent in two languages carries the original and the
/// dub; a programme sent with commentary for a viewer who cannot see the
/// picture carries the programme and the commentary. Both arrive as two stereo
/// tracks at the same rate, described identically by the demuxer. What
/// separates them is the name the broadcaster writes beside each one, and that
/// is in the programme description and nowhere else.
pub fn describe_sounds(audios: &[AudioInfo], map: &[MapEntry], said: &[SoundTrack]) -> (out: Vec<
    AudioInfo,
>)
    ensures
        out@ == all_spoken_of(audios@, map@, said@),
{
    let mut out: Vec<AudioInfo> = Vec::new();
    let many: bool = audios.len() > 1;
    let mut i: usize = 0;
    while i < audios.len()
        invariant
            i <= audios@.len(),
            many == (audios@.len() > 1),
            out@ =~= all_spoken_of(audios@, map@, said@).take(i as int),
        decreases audios@.len() - i,
    {
        let mut one: AudioInfo = copy_sound(&audios[i]);
        if many {
            if let Some(tag) = tag_of(map, one.pid) {
                if let Some(track) = find_said(said, tag) {
                    if one.language.is_none() {
                        one.language = copy_text(&track.language);
                    }
                    one.said = Some(track);
                }
            }
        }
        out.push(one);
        i += 1;
    }
    assert(out@ =~= all_spoken_of(audios@, map@, said@));
    out
}

/// Where the first track the broadcast calls the main sound stands.
pub open spec fn main_from(audios: Seq<AudioInfo>, i: int) -> Option<int>
    decreases audios.len() - i,
{
    if i < 0 || i >= audios.len() {
        None
    } else if audios[i].said is Some && audios[i].said->0.main {
        Some(i)
    } else {
        main_from(audios, i + 1)
    }
}

/// Where the track of this index among the container's streams stands.
pub open spec fn stream_from(audios: Seq<AudioInfo>, index: usize, i: int) -> Option<int>
    decreases audios.len() - i,
{
    if i < 0 || i >= audios.len() {
        None
    } else if audios[i].stream_index == index {
        Some(i)
    } else {
        stream_from(audios, index, i + 1)
    }
}

/// Which track is the main sound.
pub open spec fn main_sound_of(audios: Seq<AudioInfo>, best: Option<usize>) -> Option<int> {
    if main_from(audios, 0) is Some {
        main_from(audios, 0)
    } else if best is Some && stream_from(audios, best->0, 0) is Some {
        stream_from(audios, best->0, 0)
    } else if audios.len() > 0 {
        Some(0)
    } else {
        None
    }
}

/// Which of the tracks is the main sound. The broadcast's own answer where it
/// gave one -- it is the only party here that knows whether the second track
/// is a language or a commentary, and a player that opens on the commentary
/// has opened on the wrong one.
///
/// Otherwise the demuxer's, since it weighs the disposition flags a container
/// may carry; and the first track where it has no opinion.
pub fn main_sound(audios: &[AudioInfo], best: Option<usize>) -> (r: Option<usize>)
    ensures
        match r {
            Some(i) => main_sound_of(audios@, best) == Some(i as int) && i < audios@.len(),
            None => main_sound_of(audios@, best) is None,
        },
{
    let mut i: usize = 0;
    while i < audios.len()
        invariant
            i <= audios@.len(),
            main_from(audios@, 0) == main_from(audios@, i as int),
        decreases audios@.len() - i,
    {
        if let Some(s) = &audios[i].said {
            if s.main {
                return Some(i);
            }
        }
        i += 1;
    }
    if let Some(index) = best {
        let mut j: usize = 0;
        while j < audios.len()
            invariant
                j <= audios@.len(),
                best == Some(index),
                main_from(audios@, 0) is None,
                stream_from(audios@, index, 0) == stream_from(audios@, index, j as int),
            decreases audios@.len() - j,
        {
            if audios[j].stream_index == index {
                return Some(j);
            }
            j += 1;
        }
    }
    if audios.len() > 0 {
        Some(0)
    } else {
        None
    }
}

/// What text a stream is, going by the map and by its coding.
pub open spec fn text_of_stream(f: StreamFacts, map: Seq<MapEntry>) -> Option<
    (TextKind, TextFormat),
> {
    let e = told_from(map, f.id as int, 0);
    text_kind(
        match e {
            Some(e) => e.component_tag,
            None => None,
        },
        match e {
            Some(e) => e.data_component_id,
            None => None,
        },
        f.coded == Coded::AribCaption,
    )
}

/// A stream as the text it is, where it is any. The clock a TTML document's
/// times are counted from is put on the same footing as everything else, which
/// is counted from where the file begins.
pub open spec fn caption_of(
    f: StreamFacts,
    unreadable: Seq<Unreadable>,
    map: Seq<MapEntry>,
    clip_start: int,
    start_time: int,
) -> Option<CaptionInfo> {
    if indexed(unreadable, f.id) || (f.coded != Coded::AribCaption && f.coded != Coded::BinData) {
        None
    } else {
        match text_of_stream(f, map) {
            Some((kind, format)) => Some(
                CaptionInfo {
                    stream_index: f.stream_index,
                    pid: f.id,
                    language: f.language,
                    time_base: f.time_base,
                    kind,
                    format,
                    base: if format == TextFormat::Ttml {
                        (clip_start - start_time) as i64
                    } else {
                        0
                    },
                },
            ),
            None => None,
        }
    }
}

/// The text streams among some streams.
pub open spec fn captions_in(
    streams: Seq<StreamFacts>,
    unreadable: Seq<Unreadable>,
    map: Seq<MapEntry>,
    clip_start: int,
    start_time: int,
) -> Seq<CaptionInfo>
    decreases streams.len(),
{
    if streams.len() == 0 {
        Seq::empty()
    } else {
        let before = captions_in(streams.drop_last(), unreadable, map, clip_start, start_time);
        match caption_of(streams.last(), unreadable, map, clip_start, start_time) {
            Some(c) => before.push(c),
            None => before,
        }
    }
}

/// The text streams among some streams: the captions, and the crawl beside
/// them.
pub fn captions(
    streams: &[StreamFacts],
    unreadable: &[Unreadable],
    map: &[MapEntry],
    clip_start: i64,
    start_time: i64,
) -> (out: Vec<CaptionInfo>)
    requires
        in_reach(clip_start as int),
        in_reach(start_time as int),
    ensures
        out@ == captions_in(streams@, unreadable@, map@, clip_start as int, start_time as int),
{
    let mut out: Vec<CaptionInfo> = Vec::new();
    let mut i: usize = 0;
    while i < streams.len()
        invariant
            i <= streams@.len(),
            in_reach(clip_start as int),
            in_reach(start_time as int),
            out@ =~= captions_in(
                streams@.take(i as int),
                unreadable@,
                map@,
                clip_start as int,
                start_time as int,
            ),
        decreases streams@.len() - i,
    {
        assert(streams@.take(i + 1).drop_last() =~= streams@.take(i as int));
        let f: &StreamFacts = &streams[i];
        let named: bool = f.coded == Coded::AribCaption;
        if find_indexed(unreadable, f.id).is_none() && (named || f.coded == Coded::BinData) {
            let (tag, data): (Option<u8>, Option<u16>) = match told(map, f.id) {
                Some(e) => (e.component_tag, e.data_component_id),
                None => (None, None),
            };
            if let Some((kind, format)) = text_stream(tag, data, named) {
                let base: i64 = if format == TextFormat::Ttml {
                    clip_start - start_time
                } else {
                    0
                };
                out.push(
                    CaptionInfo {
                        stream_index: f.stream_index,
                        pid: f.id,
                        language: copy_text(&f.language),
                        time_base: f.time_base,
                        kind,
                        format,
                        base,
                    },
                );
            }
        }
        i += 1;
    }
    assert(streams@.take(i as int) =~= streams@);
    out
}

/// The drawn subtitles among some streams.
pub open spec fn graphics_in(streams: Seq<StreamFacts>, unreadable: Seq<Unreadable>) -> Seq<
    GraphicsInfo,
>
    decreases streams.len(),
{
    if streams.len() == 0 {
        Seq::empty()
    } else {
        let before = graphics_in(streams.drop_last(), unreadable);
        let f = streams.last();
        if f.coded == Coded::Pgs && !indexed(unreadable, f.id) {
            before.push(
                GraphicsInfo {
                    stream_index: f.stream_index,
                    pid: f.id,
                    language: f.language,
                    time_base: f.time_base,
                },
            )
        } else {
            before
        }
    }
}

/// The disc's own subtitles, which are drawn rather than written.
pub fn graphics(streams: &[StreamFacts], unreadable: &[Unreadable]) -> (out: Vec<GraphicsInfo>)
    ensures
        out@ == graphics_in(streams@, unreadable@),
{
    let mut out: Vec<GraphicsInfo> = Vec::new();
    let mut i: usize = 0;
    while i < streams.len()
        invariant
            i <= streams@.len(),
            out@ =~= graphics_in(streams@.take(i as int), unreadable@),
        decreases streams@.len() - i,
    {
        assert(streams@.take(i + 1).drop_last() =~= streams@.take(i as int));
        let f: &StreamFacts = &streams[i];
        if f.coded == Coded::Pgs && find_indexed(unreadable, f.id).is_none() {
            out.push(
                GraphicsInfo {
                    stream_index: f.stream_index,
                    pid: f.id,
                    language: copy_text(&f.language),
                    time_base: f.time_base,
                },
            );
        }
        i += 1;
    }
    assert(streams@.take(i as int) =~= streams@);
    out
}

/// Whether one of these text streams is this stream.
pub open spec fn carried_text(captions: Seq<CaptionInfo>, index: usize) -> bool {
    exists|i: int| 0 <= i < captions.len() && (#[trigger] captions[i]).stream_index == index
}

fn is_carried(captions: &[CaptionInfo], index: usize) -> (r: bool)
    ensures
        r == carried_text(captions@, index),
{
    let mut i: usize = 0;
    while i < captions.len()
        invariant
            i <= captions@.len(),
            forall|k: int| 0 <= k < i ==> (#[trigger] captions@[k]).stream_index != index,
        decreases captions@.len() - i,
    {
        if captions[i].stream_index == index {
            return true;
        }
        i += 1;
    }
    false
}

/// What is left behind of a stream, where it is. Named by the disc rather
/// than by the probe where the disc names it. Not dropped at all: a text
/// stream the cut carries, and the event information table, which belongs on
/// a PID of its own and is put back there.
pub open spec fn dropped_of(
    f: StreamFacts,
    unreadable: Seq<Unreadable>,
    captions: Seq<CaptionInfo>,
) -> Option<DroppedStream> {
    match indexed_at(unreadable, f.id, 0) {
        Some(u) => Some(
            DroppedStream { pid: u.pid, stream_index: f.stream_index, what: u.what },
        ),
        None => if carried_text(captions, f.stream_index) || f.coded == Coded::Epg {
            None
        } else if f.medium == Medium::Data && f.coded == Coded::BinData {
            Some(DroppedStream { pid: f.id, stream_index: f.stream_index, what: "superimpose" })
        } else if f.medium == Medium::Unknown || f.medium == Medium::Data {
            Some(DroppedStream { pid: f.id, stream_index: f.stream_index, what: "data" })
        } else {
            None
        },
    }
}

/// What is left behind of some streams.
pub open spec fn dropped_in(
    streams: Seq<StreamFacts>,
    unreadable: Seq<Unreadable>,
    captions: Seq<CaptionInfo>,
) -> Seq<DroppedStream>
    decreases streams.len(),
{
    if streams.len() == 0 {
        Seq::empty()
    } else {
        let before = dropped_in(streams.drop_last(), unreadable, captions);
        match dropped_of(streams.last(), unreadable, captions) {
            Some(d) => before.push(d),
            None => before,
        }
    }
}

/// What is being left behind, so it can be said out loud.
pub fn dropped(
    streams: &[StreamFacts],
    unreadable: &[Unreadable],
    captions: &[CaptionInfo],
) -> (out: Vec<DroppedStream>)
    ensures
        out@ == dropped_in(streams@, unreadable@, captions@),
{
    let mut out: Vec<DroppedStream> = Vec::new();
    let mut i: usize = 0;
    while i < streams.len()
        invariant
            i <= streams@.len(),
            out@ =~= dropped_in(streams@.take(i as int), unreadable@, captions@),
        decreases streams@.len() - i,
    {
        assert(streams@.take(i + 1).drop_last() =~= streams@.take(i as int));
        let f: &StreamFacts = &streams[i];
        match find_indexed(unreadable, f.id) {
            Some(u) => {
                out.push(DroppedStream { pid: u.pid, stream_index: f.stream_index, what: u.what });
            },
            None => {
                if !is_carried(captions, f.stream_index) && f.coded != Coded::Epg {
                    if f.medium == Medium::Data && f.coded == Coded::BinData {
                        out.push(
                            DroppedStream {
                                pid: f.id,
                                stream_index: f.stream_index,
                                what: "superimpose",
                            },
                        );
                    } else if f.medium == Medium::Unknown || f.medium == Medium::Data {
                        out.push(
                            DroppedStream {
                                pid: f.id,
                                stream_index: f.stream_index,
                                what: "data",
                            },
                        );
                    }
                }
            },
        }
        i += 1;
    }
    assert(streams@.take(i as int) =~= streams@);
    out
}

/// Whether pictures average out faster than the rate they are declared at, by
/// more than a hundredth of a percent.
pub open spec fn runs_ahead(rate: Ratio, base: Ratio) -> bool {
    base.stated() && rate.den > 0 && rate.num * base.den * 10_000 > base.num * rate.den * 10_001
}

/// Whether pictures average out faster than the rate they are declared at.
///
/// Such a recording has some of them closer together than that rate allows --
/// there is no other way to arrive at the average -- and that has to be known
/// before a frame of the output is written, because it decides how finely the
/// output timeline is divided.
///
/// **The margin is a hundredth of a percent, and it has to be.** A recording
/// of twenty-five minutes with ten fast pictures in it averages 23.980 against
/// a declared 23.976; anything looser lets those ten pictures through, and ten
/// pictures with nowhere to go are ten pictures dropped.
pub fn faster_than_declared(rate: Ratio, base: Ratio) -> (r: bool)
    ensures
        r == runs_ahead(rate, base),
{
    if base.num == 0 || base.den == 0 || rate.den == 0 {
        return false;
    }
    let (rn, rd, bn, bd): (u128, u128, u128, u128) = (
        rate.num as u128,
        rate.den as u128,
        base.num as u128,
        base.den as u128,
    );
    proof {
        lemma_product(rn as int, bd as int);
        lemma_product(bn as int, rd as int);
    }
    rn * bd * 10_000 > bn * rd * 10_001
}

/// Two numbers of thirty-two bits make one of sixty-four.
proof fn lemma_product(a: int, b: int)
    requires
        0 <= a <= 0xFFFF_FFFF,
        0 <= b <= 0xFFFF_FFFF,
    ensures
        0 <= a * b <= 0xFFFF_FFFF * 0xFFFF_FFFF,
{
    assert(0 <= a * b <= 0xFFFF_FFFF * 0xFFFF_FFFF) by (nonlinear_arith)
        requires
            0 <= a <= 0xFFFF_FFFF,
            0 <= b <= 0xFFFF_FFFF,
    ;
}

/// The pictures of a recording, going by what the demuxer says of them.
pub open spec fn video_of(f: PictureFacts) -> VideoInfo {
    VideoInfo {
        stream_index: f.stream_index,
        codec: f.codec,
        width: f.width,
        height: f.height,
        frame_rate: f.frame_rate,
        base_rate: f.base_rate,
        has_b_frames: f.has_b_frames,
        time_base: f.time_base,
        sample_aspect_ratio: if f.sample_aspect_ratio.stated() {
            f.sample_aspect_ratio
        } else {
            Ratio { num: 1, den: 1 }
        },
        pulldown: false,
        variable_rate: runs_ahead(f.frame_rate, f.base_rate),
        field_order: f.field_order,
        bit_rate: None,
    }
}

/// The pictures of a recording, going by what the demuxer says of them. What
/// only a walk can know -- pulldown, a picture held longer than declared, the
/// bits they take -- is left unsaid.
pub fn video(f: &PictureFacts) -> (r: VideoInfo)
    ensures
        r == video_of(*f),
{
    let sar: Ratio = f.sample_aspect_ratio;
    VideoInfo {
        stream_index: f.stream_index,
        codec: f.codec.clone(),
        width: f.width,
        height: f.height,
        frame_rate: f.frame_rate,
        base_rate: f.base_rate,
        has_b_frames: f.has_b_frames,
        time_base: f.time_base,
        sample_aspect_ratio: if sar.num > 0 && sar.den > 0 {
            sar
        } else {
            Ratio { num: 1, den: 1 }
        },
        pulldown: false,
        variable_rate: faster_than_declared(f.frame_rate, f.base_rate),
        field_order: f.field_order,
        bit_rate: None,
    }
}

/// Seams put on the clock everything else is on: counted from where the file
/// begins.
pub open spec fn rebased(joins: Seq<Seam>, start_time: int) -> Seq<Seam> {
    joins.map_values(
        |s: Seam| Seam { time: (s.time - start_time) as i64, ends: (s.ends - start_time) as i64 },
    )
}

/// Whether every seam is somewhere a recording can have one.
pub open spec fn seams_in_reach(joins: Seq<Seam>) -> bool {
    forall|i: int|
        0 <= i < joins.len() ==> in_reach((#[trigger] joins[i]).time as int) && in_reach(
            joins[i].ends as int,
        )
}

/// Put seams on the clock everything else is on.
///
/// Left on the demuxer's own, which a recording that does not begin at zero
/// reads seconds later than the times a cut is asked for, a seam is planned
/// that far into the stretch *after* it: the range before it asks to re-encode
/// pictures that belong to the next recording and cannot be decoded from this
/// one.
pub fn rebase(joins: &[Seam], start_time: i64) -> (out: Vec<Seam>)
    requires
        in_reach(start_time as int),
        seams_in_reach(joins@),
    ensures
        out@ == rebased(joins@, start_time as int),
{
    let mut out: Vec<Seam> = Vec::new();
    let mut i: usize = 0;
    while i < joins.len()
        invariant
            i <= joins@.len(),
            in_reach(start_time as int),
            seams_in_reach(joins@),
            out@ =~= rebased(joins@, start_time as int).take(i as int),
        decreases joins@.len() - i,
    {
        assert(in_reach(joins@[i as int].time as int));
        out.push(Seam { time: joins[i].time - start_time, ends: joins[i].ends - start_time });
        i += 1;
    }
    out
}

/// What a demuxer says of a recording.
pub struct Probe {
    /// What the demuxer goes by.
    pub format: String,
    pub streams: Vec<StreamFacts>,
    /// The stream it takes for the pictures, where there is one.
    pub video: Option<PictureFacts>,
    /// The stream it takes for the sound, where there is one.
    pub best_sound: Option<usize>,
    /// The container's own length, in ticks; nought where it does not say.
    pub duration: i64,
    /// Where it begins.
    pub start_time: i64,
}

/// What else is said of a recording, by its own tables and by the disc it is
/// on.
pub struct Answers {
    /// What the disc's index names that a demuxer cannot.
    pub unreadable: Vec<Unreadable>,
    /// What was found of each sound track past the opening.
    pub shapes: Vec<Option<(u16, u32)>>,
    /// What the recording's own map says, where there was one to read.
    pub map: Option<Vec<MapEntry>>,
    /// What the programme's description says of its sound.
    pub said: Vec<SoundTrack>,
    /// Where a disc says this clip begins to present; nought where it does not.
    pub clip_start: i64,
    /// The subtitles a DVD's index names.
    pub subpictures: Vec<SubpictureInfo>,
    pub joins: Vec<Seam>,
}

/// What the container itself says about a recording, before a byte of it has
/// been walked.
///
/// It costs tens of milliseconds whether the recording is a hundred megabytes
/// or four gigabytes. What it cannot say is where the access points are: that
/// is a pass over every byte. Which makes this the answer a list can put on a
/// row the instant a file is dropped on it, with the walk filling in the rest
/// behind it.
pub struct Outline {
    pub path: String,
    pub video: VideoInfo,
    /// The main sound, which is the track everything that reads one track
    /// reads.
    pub audio: Option<AudioInfo>,
    /// Every audio track, in the order the recording carries them.
    pub audios: Vec<AudioInfo>,
    /// Every caption stream.
    pub captions: Vec<CaptionInfo>,
    /// Every graphics stream: a disc's own subtitles, one per language.
    pub graphics: Vec<GraphicsInfo>,
    /// Every subpicture stream, which is what a DVD calls the same thing.
    pub subpictures: Vec<SubpictureInfo>,
    /// What the recording carries that the output cannot.
    pub dropped: Vec<DroppedStream>,
    /// The container's own length, which is usually right and on a program
    /// stream can be wildly wrong. Only the walk can correct that.
    pub duration: i64,
    /// Container start time. MPEG-TS does not begin at zero.
    pub start_time: i64,
    pub byte_seekable: bool,
    /// Whether a track's `pid` is really a PID.
    pub on_a_ts: bool,
    pub joins: Vec<Seam>,
    /// Where the material begins: the presentation time of the first picture
    /// a cut could start from. `None` where the front of the file did not
    /// hold one, or was not read for it.
    pub head: Option<i64>,
}

/// Why there is nothing to say of a recording.
#[derive(Debug, Clone, Copy, PartialEq, Eq, Structural)]
pub enum OutlineError {
    /// It is one of a disc's menus: graphics, and no pictures.
    Menu,
    /// There are no pictures in it.
    NoVideo,
}

/// Whether a disc's index calls any of a clip's streams a menu.
pub open spec fn a_menu(unreadable: Seq<Unreadable>) -> bool {
    exists|i: int| 0 <= i < unreadable.len() && (#[trigger] unreadable[i]).what@ == "menu"@
}

fn is_menu(unreadable: &[Unreadable]) -> (r: bool)
    ensures
        r == a_menu(unreadable@),
{
    let mut i: usize = 0;
    while i < unreadable.len()
        invariant
            i <= unreadable@.len(),
            forall|k: int| 0 <= k < i ==> (#[trigger] unreadable@[k]).what@ != "menu"@,
        decreases unreadable@.len() - i,
    {
        if crate::chars::same_text(unreadable[i].what, "menu") {
            return true;
        }
        i += 1;
    }
    false
}

/// The sound tracks a recording is carried with: one for each PID, corrected
/// and described.
pub open spec fn carried_sounds(probe: Probe, answers: Answers) -> Seq<AudioInfo> {
    let all = sounds_in(probe.streams@, answers.unreadable@);
    let kept = if goes_by(probe.format@, "mpegts"@) {
        folded_by_pid(all).0
    } else {
        all
    };
    let shaped = all_reshaped(kept, answers.shapes@);
    match answers.map {
        Some(map) => all_spoken_of(shaped, map@, answers.said@),
        None => shaped,
    }
}

/// What a recording's own map says; nothing where there was none.
pub open spec fn map_of(answers: Answers) -> Seq<MapEntry> {
    match answers.map {
        Some(map) => map@,
        None => Seq::empty(),
    }
}

/// The pieces the demuxer split out of tracks that are carried.
pub open spec fn folded_away(probe: Probe, answers: Answers) -> Seq<DroppedStream> {
    if goes_by(probe.format@, "mpegts"@) {
        folded_by_pid(sounds_in(probe.streams@, answers.unreadable@)).1
    } else {
        Seq::empty()
    }
}

/// Put the outline of a recording together out of what the demuxer says of it
/// and what is said elsewhere.
pub fn outline_of(path: &str, probe: &Probe, answers: Answers) -> (r: Result<Outline, OutlineError>)
    requires
        in_reach(probe.start_time as int),
        in_reach(answers.clip_start as int),
        seams_in_reach(answers.joins@),
    ensures
        match (probe.video, r) {
            (None, Err(e)) => e == (if a_menu(answers.unreadable@) {
                OutlineError::Menu
            } else {
                OutlineError::NoVideo
            }),
            (Some(f), Ok(o)) => {
                let map = map_of(answers);
                let sounds = carried_sounds(*probe, answers);
                let captions = captions_in(
                    probe.streams@,
                    answers.unreadable@,
                    map,
                    answers.clip_start as int,
                    probe.start_time as int,
                );
                &&& o.path@ == path@
                &&& o.video == video_of(f)
                &&& o.audios@ == sounds
                &&& o.audio == (match main_sound_of(sounds, probe.best_sound) {
                    Some(i) => Some(sounds[i]),
                    None => None,
                })
                &&& o.captions@ == captions
                &&& o.graphics@ == graphics_in(probe.streams@, answers.unreadable@)
                &&& o.subpictures == answers.subpictures
                &&& o.dropped@ == dropped_in(probe.streams@, answers.unreadable@, captions)
                    + folded_away(*probe, answers)
                &&& o.duration == probe.duration
                &&& o.start_time == probe.start_time
                &&& o.byte_seekable == seeks_by_byte(probe.format@)
                &&& o.on_a_ts == goes_by(probe.format@, "mpegts"@)
                &&& o.joins@ == rebased(answers.joins@, probe.start_time as int)
                &&& o.head is None
            },
            _ => false,
        },
{
    let pictures: VideoInfo = match &probe.video {
        Some(f) => video(f),
        None => {
            return Err(
                if is_menu(answers.unreadable.as_slice()) {
                    OutlineError::Menu
                } else {
                    OutlineError::NoVideo
                },
            );
        },
    };
    let streams: &[StreamFacts] = probe.streams.as_slice();
    let unreadable: &[Unreadable] = answers.unreadable.as_slice();
    let ts: bool = on_a_ts(probe.format.as_str());
    let (kept, mut folded): (Vec<AudioInfo>, Vec<DroppedStream>) = one_track_per_pid(
        sounds(streams, unreadable),
        ts,
    );
    let shaped: Vec<AudioInfo> = reshape(kept.as_slice(), answers.shapes.as_slice());
    let empty: Vec<MapEntry> = Vec::new();
    assert(empty@ =~= Seq::empty());
    let (audios, map): (Vec<AudioInfo>, &[MapEntry]) = match &answers.map {
        Some(map) => (
            describe_sounds(shaped.as_slice(), map.as_slice(), answers.said.as_slice()),
            map.as_slice(),
        ),
        None => (shaped, empty.as_slice()),
    };
    let audio: Option<AudioInfo> = match main_sound(audios.as_slice(), probe.best_sound) {
        Some(i) => Some(copy_sound(&audios[i])),
        None => None,
    };
    let texts: Vec<CaptionInfo> = captions(
        streams,
        unreadable,
        map,
        answers.clip_start,
        probe.start_time,
    );
    let mut left: Vec<DroppedStream> = dropped(streams, unreadable, texts.as_slice());
    left.append(&mut folded);
    Ok(
        Outline {
            path: path.to_owned(),
            video: pictures,
            audio,
            audios,
            captions: texts,
            graphics: graphics(streams, unreadable),
            subpictures: answers.subpictures,
            dropped: left,
            duration: probe.duration,
            start_time: probe.start_time,
            byte_seekable: byte_seekable(probe.format.as_str()),
            on_a_ts: ts,
            joins: rebase(answers.joins.as_slice(), probe.start_time),
            head: None,
        },
    )
}

/// Nothing that is carried as text is named as left behind, each stream having
/// an index of its own.
pub proof fn law_carried_text_is_not_left_behind(
    streams: Seq<StreamFacts>,
    unreadable: Seq<Unreadable>,
    map: Seq<MapEntry>,
    clip_start: int,
    start_time: int,
)
    requires
        forall|i: int, j: int|
            0 <= i < j < streams.len() ==> (#[trigger] streams[i]).stream_index != (
            #[trigger] streams[j]).stream_index,
    ensures
        ({
            let captions = captions_in(streams, unreadable, map, clip_start, start_time);
            forall|k: int|
                0 <= k < dropped_in(streams, unreadable, captions).len() ==> !carried_text(
                    captions,
                    (#[trigger] dropped_in(streams, unreadable, captions)[k]).stream_index,
                )
        }),
{
    let captions = captions_in(streams, unreadable, map, clip_start, start_time);
    let left = dropped_in(streams, unreadable, captions);
    assert forall|k: int| 0 <= k < left.len() implies !carried_text(
        captions,
        (#[trigger] left[k]).stream_index,
    ) by {
        let i = lemma_left_behind_is_a_stream(streams, unreadable, captions, k);
        if carried_text(captions, left[k].stream_index) {
            let c = choose|c: int|
                0 <= c < captions.len() && (#[trigger] captions[c]).stream_index
                    == left[k].stream_index;
            let j = lemma_text_is_a_stream(streams, unreadable, map, clip_start, start_time, c);
            assert(streams[i].stream_index == streams[j].stream_index);
            assert(i == j);
            lemma_not_indexed(unreadable, streams[j].id, 0);
        }
    }
}

/// What is left behind is left behind of a stream.
proof fn lemma_left_behind_is_a_stream(
    streams: Seq<StreamFacts>,
    unreadable: Seq<Unreadable>,
    captions: Seq<CaptionInfo>,
    k: int,
) -> (i: int)
    requires
        0 <= k < dropped_in(streams, unreadable, captions).len(),
    ensures
        0 <= i < streams.len(),
        dropped_of(streams[i], unreadable, captions) == Some(
            dropped_in(streams, unreadable, captions)[k],
        ),
    decreases streams.len(),
{
    let before = dropped_in(streams.drop_last(), unreadable, captions);
    if k < before.len() {
        let i = lemma_left_behind_is_a_stream(streams.drop_last(), unreadable, captions, k);
        assert(streams.drop_last()[i] == streams[i]);
        i
    } else {
        streams.len() - 1
    }
}

/// What is carried as text is a stream that no disc's index names.
proof fn lemma_text_is_a_stream(
    streams: Seq<StreamFacts>,
    unreadable: Seq<Unreadable>,
    map: Seq<MapEntry>,
    clip_start: int,
    start_time: int,
    c: int,
) -> (j: int)
    requires
        0 <= c < captions_in(streams, unreadable, map, clip_start, start_time).len(),
    ensures
        0 <= j < streams.len(),
        !indexed(unreadable, streams[j].id),
        captions_in(streams, unreadable, map, clip_start, start_time)[c].stream_index
            == streams[j].stream_index,
    decreases streams.len(),
{
    let before = captions_in(streams.drop_last(), unreadable, map, clip_start, start_time);
    if c < before.len() {
        let j = lemma_text_is_a_stream(
            streams.drop_last(),
            unreadable,
            map,
            clip_start,
            start_time,
            c,
        );
        assert(streams.drop_last()[j] == streams[j]);
        j
    } else {
        streams.len() - 1
    }
}

/// What an index does not name it does not name anywhere along it.
proof fn lemma_not_indexed(unreadable: Seq<Unreadable>, pid: i32, i: int)
    requires
        0 <= i,
        !indexed(unreadable, pid),
    ensures
        indexed_at(unreadable, pid, i) is None,
    decreases unreadable.len() - i,
{
    if i < unreadable.len() {
        assert(unreadable[i].pid != pid);
        lemma_not_indexed(unreadable, pid, i + 1);
    }
}

} // verus!
