//! What a recording is found to hold.
use crate::recording::index::{
    latest, search_from, searched, seek_margin_of, settled, HeadPacket, HeadSearch, Index, Mended,
};
use crate::recording::outline::{
    all_spoken_of, dropped_in, dropped_of, graphics_in, indexed, indexed_at, main_from,
    main_sound_of, pids_of, said_from, sounds_in, spoken_of, stream_from, tag_told, told_from,
    video_of, Coded, MapEntry, Medium, Outline, PictureFacts, StreamFacts, Unreadable,
};
use crate::recording::{
    text_kind, AccessPoint, AudioInfo, CaptionInfo, SoundTrack, TextFormat, TextKind,
};
use crate::time::SECOND;
use vstd::prelude::*;

verus! {

/// Whether a stream is sound that can be played: it can be read, and it says
/// its rate and its channels.
pub open spec fn plays(f: StreamFacts, unreadable: Seq<Unreadable>) -> bool {
    &&& f.medium == Medium::Audio
    &&& f.sample_rate > 0
    &&& f.channels > 0
    &&& forall|i: int| 0 <= i < unreadable.len() ==> (#[trigger] unreadable[i]).pid != f.id
}

/// The sounds found are the streams that play, every one of them, in order, and
/// each is told as it was found.
pub proof fn law_every_sound_that_plays_is_found(
    streams: Seq<StreamFacts>,
    unreadable: Seq<Unreadable>,
)
    ensures
        ({
            let heard = streams.filter(|f: StreamFacts| plays(f, unreadable));
            let found = sounds_in(streams, unreadable);
            &&& found.len() == heard.len()
            &&& forall|i: int|
                0 <= i < found.len() ==> {
                    let (a, f) = (#[trigger] found[i], heard[i]);
                    a.stream_index == f.stream_index && a.pid == f.id && a.language == f.language
                        && a.codec == f.codec && a.sample_rate == f.sample_rate && a.channels
                        == f.channels && a.bits == f.bits && a.time_base == f.time_base
                        && a.bit_rate == f.bit_rate && a.said is None
                }
        }),
    decreases streams.len(),
{
    reveal(Seq::filter);
    if streams.len() > 0 {
        law_every_sound_that_plays_is_found(streams.drop_last(), unreadable);
        let f = streams.last();
        assert(indexed(unreadable, f.id) == !(forall|i: int|
            0 <= i < unreadable.len() ==> (#[trigger] unreadable[i]).pid != f.id));
    }
}

/// The graphics found are the streams of them that can be read.
pub proof fn law_every_graphics_stream_is_found(
    streams: Seq<StreamFacts>,
    unreadable: Seq<Unreadable>,
)
    ensures
        ({
            let shown = streams.filter(
                |f: StreamFacts|
                    f.coded == Coded::Pgs && forall|i: int|
                        0 <= i < unreadable.len() ==> (#[trigger] unreadable[i]).pid != f.id,
            );
            let found = graphics_in(streams, unreadable);
            &&& found.len() == shown.len()
            &&& forall|i: int|
                0 <= i < found.len() ==> {
                    let (g, f) = (#[trigger] found[i], shown[i]);
                    g.stream_index == f.stream_index && g.pid == f.id && g.language == f.language
                        && g.time_base == f.time_base
                }
        }),
    decreases streams.len(),
{
    reveal(Seq::filter);
    if streams.len() > 0 {
        law_every_graphics_stream_is_found(streams.drop_last(), unreadable);
        let f = streams.last();
        assert(indexed(unreadable, f.id) == !(forall|i: int|
            0 <= i < unreadable.len() ==> (#[trigger] unreadable[i]).pid != f.id));
    }
}

/// Whether a stream is said to be left behind: it cannot be read, or it is data
/// that is neither carried as text nor a guide.
pub open spec fn is_left(
    f: StreamFacts,
    unreadable: Seq<Unreadable>,
    captions: Seq<CaptionInfo>,
) -> bool {
    ||| exists|i: int| 0 <= i < unreadable.len() && (#[trigger] unreadable[i]).pid == f.id
    ||| (f.medium == Medium::Data || f.medium == Medium::Unknown) && f.coded != Coded::Epg
        && forall|i: int|
        0 <= i < captions.len() ==> (#[trigger] captions[i]).stream_index != f.stream_index
}

proof fn lemma_first_indexed(unreadable: Seq<Unreadable>, pid: i32, i: int)
    requires
        0 <= i <= unreadable.len(),
    ensures
        match indexed_at(unreadable, pid, i) {
            Some(u) => exists|k: int|
                i <= k < unreadable.len() && u == #[trigger] unreadable[k] && u.pid == pid
                    && forall|j: int| i <= j < k ==> (#[trigger] unreadable[j]).pid != pid,
            None => forall|j: int| i <= j < unreadable.len() ==> (#[trigger] unreadable[j]).pid
                != pid,
        },
    decreases unreadable.len() - i,
{
    if i < unreadable.len() {
        if unreadable[i].pid == pid {
            assert(unreadable[i] == unreadable[i]);
        } else {
            lemma_first_indexed(unreadable, pid, i + 1);
            if let Some(u) = indexed_at(unreadable, pid, i + 1) {
                let k = choose|k: int|
                    i + 1 <= k < unreadable.len() && u == #[trigger] unreadable[k] && u.pid == pid
                        && forall|j: int|
                        i + 1 <= j < k ==> (#[trigger] unreadable[j]).pid != pid;
                assert(u == unreadable[k]);
            }
        }
    }
}

/// The streams left behind are told, every one of them, in order, and by their
/// own places.
pub proof fn law_every_stream_left_behind_is_told(
    streams: Seq<StreamFacts>,
    unreadable: Seq<Unreadable>,
    captions: Seq<CaptionInfo>,
)
    ensures
        ({
            let left = streams.filter(|f: StreamFacts| is_left(f, unreadable, captions));
            let told = dropped_in(streams, unreadable, captions);
            &&& told.len() == left.len()
            &&& forall|i: int|
                0 <= i < told.len() ==> (#[trigger] told[i]).stream_index == left[i].stream_index
                    && told[i].pid == left[i].id
        }),
    decreases streams.len(),
{
    reveal(Seq::filter);
    if streams.len() > 0 {
        law_every_stream_left_behind_is_told(streams.drop_last(), unreadable, captions);
        let f = streams.last();
        lemma_first_indexed(unreadable, f.id, 0);
        assert(is_left(f, unreadable, captions) == (dropped_of(f, unreadable, captions) is Some));
    }
}

/// What is said of a stream left behind: what it is known to be where it cannot
/// be read, else that it is superimposed text or data.
pub proof fn law_what_is_left_behind_is_named(
    f: StreamFacts,
    unreadable: Seq<Unreadable>,
    captions: Seq<CaptionInfo>,
    k: int,
)
    ensures
        0 <= k < unreadable.len() && unreadable[k].pid == f.id && (forall|j: int|
            0 <= j < k ==> (#[trigger] unreadable[j]).pid != f.id) ==> (dropped_of(
            f,
            unreadable,
            captions,
        ) matches Some(d) && d.what == unreadable[k].what),
        is_left(f, unreadable, captions) && (forall|j: int|
            0 <= j < unreadable.len() ==> (#[trigger] unreadable[j]).pid != f.id) ==> (dropped_of(
            f,
            unreadable,
            captions,
        ) matches Some(d) && d.what@ == (if f.medium == Medium::Data && f.coded
            == Coded::BinData {
            "superimpose"@
        } else {
            "data"@
        })),
{
    lemma_first_indexed(unreadable, f.id, 0);
    if 0 <= k < unreadable.len() && unreadable[k].pid == f.id && (forall|j: int|
        0 <= j < k ==> (#[trigger] unreadable[j]).pid != f.id) {
        let u = indexed_at(unreadable, f.id, 0)->0;
        let i = choose|i: int|
            0 <= i < unreadable.len() && u == #[trigger] unreadable[i] && u.pid == f.id
                && forall|j: int| 0 <= j < i ==> (#[trigger] unreadable[j]).pid != f.id;
        if i < k {
            assert(unreadable[i].pid != f.id);
        }
        if k < i {
            assert(unreadable[k].pid != f.id);
        }
    }
}

proof fn lemma_main_from(audios: Seq<AudioInfo>, i: int)
    requires
        0 <= i <= audios.len(),
    ensures
        match main_from(audios, i) {
            Some(k) => i <= k < audios.len() && audios[k].said is Some && audios[k].said->0.main
                && forall|j: int|
                i <= j < k ==> !((#[trigger] audios[j]).said is Some && audios[j].said->0.main),
            None => forall|j: int|
                i <= j < audios.len() ==> !((#[trigger] audios[j]).said is Some
                    && audios[j].said->0.main),
        },
    decreases audios.len() - i,
{
    if i < audios.len() && !(audios[i].said is Some && audios[i].said->0.main) {
        lemma_main_from(audios, i + 1);
    }
}

proof fn lemma_stream_from(audios: Seq<AudioInfo>, index: usize, i: int)
    requires
        0 <= i <= audios.len(),
    ensures
        match stream_from(audios, index, i) {
            Some(k) => i <= k < audios.len() && audios[k].stream_index == index && forall|j: int|
                i <= j < k ==> (#[trigger] audios[j]).stream_index != index,
            None => forall|j: int|
                i <= j < audios.len() ==> (#[trigger] audios[j]).stream_index != index,
        },
    decreases audios.len() - i,
{
    if i < audios.len() && audios[i].stream_index != index {
        lemma_stream_from(audios, index, i + 1);
    }
}

/// The main sound is the first that is said to be; where none is, the one taken
/// to be the best; where that is not carried either, the first there is.
pub proof fn law_the_main_sound_is_the_one_said_to_be(
    audios: Seq<AudioInfo>,
    best: Option<usize>,
    k: int,
)
    requires
        0 <= k < audios.len(),
    ensures
        main_sound_of(audios, best) matches Some(m) && 0 <= m < audios.len() && {
            &&& audios[k].said is Some && audios[k].said->0.main ==> m <= k && audios[m].said
                is Some && audios[m].said->0.main
            &&& (forall|j: int|
                0 <= j < audios.len() ==> !((#[trigger] audios[j]).said is Some
                    && audios[j].said->0.main)) ==> {
                &&& best == Some(audios[k].stream_index) ==> m <= k && audios[m].stream_index
                    == audios[k].stream_index
                &&& (best is None || forall|j: int|
                    0 <= j < audios.len() ==> (#[trigger] audios[j]).stream_index != best->0) ==> m
                    == 0
            }
        },
        main_sound_of(Seq::empty(), best) is None,
{
    lemma_main_from(audios, 0);
    if best is Some {
        lemma_stream_from(audios, best->0, 0);
    }
}

/// Whether something is known of a PID in a map, and it is the first.
pub open spec fn maps_to(map: Seq<MapEntry>, pid: int, k: int) -> bool {
    0 <= k < map.len() && map[k].pid == pid && forall|j: int|
        0 <= j < k ==> (#[trigger] map[j]).pid != pid
}

proof fn lemma_told_from(map: Seq<MapEntry>, pid: int, k: int, i: int)
    requires
        maps_to(map, pid, k),
        0 <= i <= k,
    ensures
        told_from(map, pid, i) == Some(map[k]),
    decreases k - i,
{
    if i < k {
        assert(map[i].pid != pid);
        lemma_told_from(map, pid, k, i + 1);
    }
}

proof fn lemma_said_from(said: Seq<SoundTrack>, tag: u8, k: int, i: int)
    requires
        0 <= i <= k < said.len(),
        said[k].component_tag == tag,
        forall|j: int| 0 <= j < k ==> (#[trigger] said[j]).component_tag != tag,
    ensures
        said_from(said, tag, i) == Some(said[k]),
    decreases k - i,
{
    if i < k {
        assert(said[i].component_tag != tag);
        lemma_said_from(said, tag, k, i + 1);
    }
}

/// Of several sounds, what is said of each is what is said of the tag its PID
/// has in the map; its language is that one's only where it has none of its
/// own. Nothing else of it changes, and of one sound alone nothing does.
pub proof fn law_a_sound_is_told_by_its_tag(
    audios: Seq<AudioInfo>,
    map: Seq<MapEntry>,
    said: Seq<SoundTrack>,
    i: int,
    k: int,
    s: int,
)
    requires
        0 <= i < audios.len(),
        maps_to(map, audios[i].pid as int, k),
        map[k].component_tag is Some,
        0 <= s < said.len(),
        said[s].component_tag == map[k].component_tag->0,
        forall|j: int| 0 <= j < s ==> (#[trigger] said[j]).component_tag != said[s].component_tag,
    ensures
        ({
            let out = all_spoken_of(audios, map, said);
            let (a, b) = (audios[i], out[i]);
            &&& out.len() == audios.len()
            &&& audios.len() == 1 ==> b == a
            &&& audios.len() > 1 ==> b.said == Some(said[s]) && b.language == (
            if a.language is Some {
                a.language
            } else {
                said[s].language
            }) && b.stream_index == a.stream_index && b.pid == a.pid && b.codec == a.codec
                && b.sample_rate == a.sample_rate && b.channels == a.channels && b.time_base
                == a.time_base && b.bit_rate == a.bit_rate && b.bits == a.bits
        }),
{
    lemma_told_from(map, audios[i].pid as int, k, 0);
    lemma_said_from(said, map[k].component_tag->0, s, 0);
    assert(tag_told(map, audios[i].pid as int) == map[k].component_tag);
    assert(spoken_of(audios[i], map, said).said == Some(said[s]));
}

/// The PIDs asked about are those of the sounds, in order, where they are PIDs
/// at all.
pub proof fn law_the_pids_are_the_sounds(audios: Seq<AudioInfo>)
    ensures
        pids_of(audios) == audios.filter(|a: AudioInfo| 0 <= a.pid <= 0xFFFF).map_values(
            |a: AudioInfo| a.pid as u16,
        ),
    decreases audios.len(),
{
    reveal(Seq::filter);
    let is = |a: AudioInfo| 0 <= a.pid <= 0xFFFF;
    let of = |a: AudioInfo| a.pid as u16;
    if audios.len() > 0 {
        law_the_pids_are_the_sounds(audios.drop_last());
        let less = audios.drop_last().filter(is);
        assert(less.push(audios.last()).map_values(of) =~= less.map_values(of).push(
            of(audios.last()),
        ));
    }
    assert(pids_of(audios) =~= audios.filter(is).map_values(of));
}

/// A video runs at a rate of its own where its frames come faster than it says
/// they do, by more than one in ten thousand; and its pixels are square unless
/// it says otherwise.
pub proof fn law_a_video_says_what_was_found(f: PictureFacts)
    ensures
        ({
            let v = video_of(f);
            &&& v.stream_index == f.stream_index && v.codec == f.codec && v.width == f.width
                && v.height == f.height && v.frame_rate == f.frame_rate && v.base_rate
                == f.base_rate && v.has_b_frames == f.has_b_frames && v.time_base == f.time_base
                && v.field_order == f.field_order
            &&& f.sample_aspect_ratio.num > 0 && f.sample_aspect_ratio.den > 0
                ==> v.sample_aspect_ratio == f.sample_aspect_ratio
            &&& f.sample_aspect_ratio.num <= 0 || f.sample_aspect_ratio.den <= 0
                ==> v.sample_aspect_ratio.num == 1 && v.sample_aspect_ratio.den == 1
            &&& f.base_rate.num > 0 && f.base_rate.den > 0 && f.frame_rate.den > 0
                ==> v.variable_rate == (f.frame_rate.num * f.base_rate.den * 10_000
                > f.base_rate.num * f.frame_rate.den * 10_001)
        }),
{
}

/// Nothing in an index is later than the latest of it, and something is as late.
pub proof fn law_nothing_is_later_than_the_latest(points: Seq<AccessPoint>, i: int)
    requires
        0 <= i < points.len(),
    ensures
        points[i].time <= latest(points),
        exists|k: int| 0 <= k < points.len() && (#[trigger] points[k]).time == latest(points),
    decreases points.len(),
{
    if points.len() > 1 {
        let less = points.drop_last();
        let j = if i < less.len() {
            i
        } else {
            0
        };
        law_nothing_is_later_than_the_latest(less, j);
        let k = choose|k: int| 0 <= k < less.len() && (#[trigger] less[k]).time == latest(less);
        assert(points[k] == less[k]);
        assert(points[points.len() - 1] == points.last());
    } else {
        assert(points[0].time == latest(points));
    }
}

/// How far ahead of a moment reading starts: three times as far as entry points
/// are apart on the whole, but at least a second and at most thirty, and three
/// seconds where there are not two to tell it from.
pub proof fn law_the_seek_margin_is_three_gaps(points: Seq<AccessPoint>)
    ensures
        ({
            let m = seek_margin_of(points);
            let n = points.len() - 1;
            let far = points.last().time - points[0].time;
            &&& SECOND <= m <= 30 * SECOND
            &&& points.len() < 2 ==> m == 3 * SECOND
            &&& points.len() >= 2 && SECOND < m < 30 * SECOND ==> m * n <= 3 * far < (m + 1) * n
            &&& points.len() >= 2 && 3 * far >= 30 * SECOND * n ==> m == 30 * SECOND
            &&& points.len() >= 2 && 3 * far < SECOND * n ==> m == SECOND
        }),
{
    if points.len() >= 2 {
        let n = points.len() - 1;
        let far = 3 * (points.last().time - points[0].time);
        let q = far / n;
        vstd::arithmetic::div_mod::lemma_fundamental_div_mod(far, n);
        vstd::arithmetic::div_mod::lemma_mod_bound(far, n);
        assert(q * n <= far < (q + 1) * n) by (nonlinear_arith)
            requires
                far == n * q + far % n,
                0 <= far % n < n,
        ;
        assert(far >= 30 * SECOND * n ==> q >= 30 * SECOND) by (nonlinear_arith)
            requires
                far < (q + 1) * n,
                n > 0,
        ;
        assert(far < SECOND * n ==> q < SECOND) by (nonlinear_arith)
            requires
                q * n <= far,
                n > 0,
        ;
    }
}

/// Where a recording's parts were told afresh, those are what it has; where
/// there was nothing to tell, its index is as it was read, but that nothing in
/// it is before the start.
pub proof fn law_an_index_is_as_it_was_read(
    outline: Outline,
    idx: Index,
    mended: Option<Mended>,
    i: int,
)
    requires
        0 <= i < idx.points@.len(),
    ensures
        ({
            let (points, joins, any) = settled(outline, idx, mended);
            let afresh = mended is Some && !idx.leading_known && outline.joins@.len() > 0;
            let (p, was) = (points[i], idx.points@[i]);
            &&& afresh ==> points == mended->0.points@ && joins == mended->0.joins@ && any
                == mended->0.any
            &&& !afresh ==> points.len() == idx.points@.len() && joins == outline.joins@ && !any
            &&& !afresh && was.time >= 0 && was.lead_start >= 0 ==> p == was
            &&& !afresh && was.time < 0 ==> p.time == 0
            &&& !afresh && was.lead_start < 0 ==> p.lead_start == 0
            &&& !afresh ==> p.pos == was.pos && p.droppable == was.droppable && p.lead_indices
                == was.lead_indices
        }),
{
}

/// Whether a packet starts a picture that can be decoded on its own, and says
/// when.
pub open spec fn tells(p: HeadPacket) -> bool {
    p.key_picture && p.pts is Some
}

#[verifier::spinoff_prover]
#[verifier::rlimit(60)]
proof fn lemma_searched(s: HeadSearch, packets: Seq<HeadPacket>, i: int)
    requires
        0 <= i <= packets.len(),
        s.seen + packets.len() - i <= 200_000,
        forall|j: int| 0 <= j < packets.len() ==> (#[trigger] packets[j]).position <= 33_554_432,
        forall|j: int, k: int|
            0 <= j < packets.len() && 0 <= k < packets.len() && tells(#[trigger] packets[j])
                && tells(#[trigger] packets[k]) ==> packets[j].pts->0 < packets[k].pts->0 + SECOND,
        s.head is Some ==> exists|k: int|
            0 <= k < i && tells(#[trigger] packets[k]) && packets[k].pts == s.head,
        forall|k: int|
            0 <= k < i && tells(#[trigger] packets[k]) ==> s.head is Some && s.head->0
                <= packets[k].pts->0,
    ensures
        ({
            let out = search_from(s, packets, i).head;
            &&& out is Some ==> exists|k: int|
                0 <= k < packets.len() && tells(#[trigger] packets[k]) && packets[k].pts == out
            &&& forall|k: int|
                0 <= k < packets.len() && tells(#[trigger] packets[k]) ==> out is Some && out->0
                    <= packets[k].pts->0
        }),
    decreases packets.len() - i,
{
    if i < packets.len() {
        let p = packets[i];
        if s.head is Some {
            let k = choose|k: int|
                0 <= k < i && tells(#[trigger] packets[k]) && packets[k].pts == s.head;
            if tells(p) {
                assert(packets[i].pts->0 < packets[k].pts->0 + SECOND);
            }
            assert(tells(packets[k]));
        }
        let next = searched(s, p)->0;
        assert(searched(s, p) is Some);
        assert(next.head is Some ==> exists|k: int|
            0 <= k < i + 1 && tells(#[trigger] packets[k]) && packets[k].pts == next.head) by {
            if next.head == p.pts && tells(p) {
                assert(tells(packets[i]) && packets[i].pts == next.head);
            } else if next.head is Some {
                let k = choose|k: int|
                    0 <= k < i && tells(#[trigger] packets[k]) && packets[k].pts == s.head;
                assert(tells(packets[k]) && packets[k].pts == next.head);
            }
        }
        lemma_searched(next, packets, i + 1);
    }
}

/// What is looked at of a recording's start is its first pictures that can be
/// decoded on their own; where those are within a second of each other, as
/// pictures that only change places are, the start is the earliest of them. It
/// is not known exactly where there are none.
pub proof fn law_a_recording_starts_at_its_earliest_picture(
    s: HeadSearch,
    packets: Seq<HeadPacket>,
)
    requires
        s.head is None,
        s.seen == 0,
        packets.len() <= 200_000,
        forall|j: int| 0 <= j < packets.len() ==> (#[trigger] packets[j]).position <= 33_554_432,
        forall|j: int, k: int|
            0 <= j < packets.len() && 0 <= k < packets.len() && tells(#[trigger] packets[j])
                && tells(#[trigger] packets[k]) ==> packets[j].pts->0 < packets[k].pts->0 + SECOND,
    ensures
        match search_from(s, packets, 0).head {
            Some(t) => (exists|k: int|
                0 <= k < packets.len() && tells(#[trigger] packets[k]) && packets[k].pts == Some(t))
                && forall|k: int|
                0 <= k < packets.len() && tells(#[trigger] packets[k]) ==> t <= packets[k].pts->0,
            None => forall|k: int| 0 <= k < packets.len() ==> !tells(#[trigger] packets[k]),
        },
{
    lemma_searched(s, packets, 0);
}

/// A stream is text where its tag says so: captions under one run of tags and
/// superimposed text under the next; and it is a caption where it is named one.
/// It is written the way broadcasts write it where it says what its data is or
/// is named a caption, else as a document.
pub proof fn law_a_tag_tells_text(tag: Option<u8>, data: Option<u16>, named: bool)
    ensures
        ({
            let k = text_kind(tag, data, named);
            let caption = tag matches Some(t) && 0x30 <= t < 0x38;
            let superimposed = tag matches Some(t) && 0x38 <= t < 0x40;
            &&& k is None <==> !caption && !superimposed && !named
            &&& k matches Some((kind, format)) ==> (kind == TextKind::Superimpose) == superimposed
                && (format == TextFormat::Arib) == (named || data is Some)
        }),
{
}

} // verus!
