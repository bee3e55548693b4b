use smartcut_core::recording::index::{
    asks_for_mending, first_picture, floor_points, HeadPacket, Mended,
};
use smartcut_core::recording::outline::{
    asks_for_shapes, byte_seekable, describe_sounds, faster_than_declared, main_sound, rebase,
    reshape, sound_pids, sound_tags, sounds, Answers, Coded, MapEntry, Medium, PictureFacts, Probe,
    StreamFacts, Unreadable,
};
use smartcut_core::time::SECOND;
use smartcut_core::{
    assemble, libav, one_track_per_pid, outline_of, text_stream, track_name, AccessPoint,
    AudioInfo, DroppedStream, EntryPictures, Index, OutlineError, Ratio, Seam, SoundTrack, Step, TextFormat,
    TextKind, Told,
};

/// The three text streams, told apart by what a recording's own map says
/// about them -- the tags and descriptors here are the ones read off a
/// high definition broadcast and a 4K recorder's disc.
#[test]
fn tells_the_text_streams_apart() {
    // A high definition broadcast: captions and crawl, both ARIB.
    assert_eq!(
        text_stream(Some(0x30), Some(0x0008), true),
        Some((TextKind::Caption, TextFormat::Arib))
    );
    assert_eq!(
        text_stream(Some(0x38), Some(0x0008), false),
        Some((TextKind::Superimpose, TextFormat::Arib))
    );
    // A 4K recording: the captions' own tag, no data component
    // descriptor, and libav with no name for it.
    assert_eq!(
        text_stream(Some(0x30), None, false),
        Some((TextKind::Caption, TextFormat::Ttml))
    );
    // A recording that adds its caption stream to the map after the
    // opening, which libav finds for itself.
    assert_eq!(
        text_stream(None, None, true),
        Some((TextKind::Caption, TextFormat::Arib))
    );
    // The data broadcast, which is neither and is not carried.
    assert_eq!(text_stream(Some(0x40), None, false), None);
    assert_eq!(text_stream(None, None, false), None);
}

fn sound(stream_index: usize, pid: i32, codec: &str, channels: u16) -> AudioInfo {
    AudioInfo {
        stream_index,
        pid,
        language: None,
        codec: codec.to_string(),
        sample_rate: 48_000,
        channels,
        bits: 16,
        time_base: Ratio { num: 1, den: 90_000 },
        bit_rate: None,
        said: None,
    }
}

#[test]
fn a_blu_rays_lossless_sound_is_one_track_and_not_two() {
    // What libavformat hands over for a disc with a 5.1 and a stereo
    // TrueHD track: each is the MLP itself and the AC-3 core folded
    // inside it, split into two streams carrying the one PID.
    let handed = vec![
        sound(1, 0x1100, "truehd", 6),
        sound(2, 0x1100, "ac3", 6),
        sound(3, 0x1101, "truehd", 2),
        sound(4, 0x1101, "ac3", 2),
    ];
    let (kept, folded) = one_track_per_pid(handed.clone(), true);
    // The track the programme map named, which is the one the disc
    // advertises and the one worth keeping.
    assert_eq!(
        kept.iter().map(|a| a.stream_index).collect::<Vec<_>>(),
        [1, 3]
    );
    assert!(kept.iter().all(|a| a.codec == "truehd"));
    // And what went, said out loud rather than dropped in silence.
    assert_eq!(
        folded.iter().map(|d| d.pid).collect::<Vec<_>>(),
        [0x1100, 0x1101]
    );
    assert!(folded.iter().all(|d| d.what == "substream"));

    // A broadcast's two sound tracks are two PIDs and stay two tracks.
    let bilingual = vec![sound(1, 0x0110, "aac", 2), sound(2, 0x0111, "aac", 2)];
    let (kept, folded) = one_track_per_pid(bilingual.clone(), true);
    assert_eq!(kept.len(), 2);
    assert!(folded.is_empty());

    // Off a transport stream a stream's id is not a PID, and more than
    // one container numbers every stream the same. Folding there would
    // throw away a recording's sound.
    let (kept, folded) = one_track_per_pid(handed, false);
    assert_eq!(kept.len(), 4);
    assert!(folded.is_empty());
}

fn stream(stream_index: usize, id: i32, medium: Medium, coded: Coded, codec: &str) -> StreamFacts {
    StreamFacts {
        stream_index,
        id,
        medium,
        coded,
        codec: codec.to_string(),
        language: None,
        time_base: Ratio { num: 1, den: 90_000 },
        sample_rate: 48_000,
        channels: 2,
        bits: 16,
        bit_rate: None,
    }
}

fn broadcast() -> Probe {
    Probe {
        format: "mpegts".to_string(),
        streams: vec![
            stream(0, 0x100, Medium::Video, Coded::Other, "mpeg2video"),
            stream(1, 0x110, Medium::Audio, Coded::Other, "aac"),
            stream(2, 0x130, Medium::Subtitle, Coded::AribCaption, "arib_caption"),
            stream(3, 0x140, Medium::Data, Coded::BinData, "bin_data"),
        ],
        video: Some(PictureFacts {
            stream_index: 0,
            id: 0x100,
            codec: "mpeg2video".to_string(),
            width: 1440,
            height: 1080,
            frame_rate: Ratio { num: 30_000, den: 1001 },
            base_rate: Ratio { num: 30_000, den: 1001 },
            has_b_frames: 1,
            time_base: Ratio { num: 1, den: 90_000 },
            sample_aspect_ratio: Ratio { num: 4, den: 3 },
            field_order: 2,
        }),
        best_sound: Some(1),
        duration: 1800 * SECOND,
        start_time: 2 * SECOND,
    }
}

fn nothing_said() -> Answers {
    Answers {
        unreadable: Vec::new(),
        shapes: Vec::new(),
        map: None,
        said: Vec::new(),
        clip_start: 0,
        subpictures: Vec::new(),
        joins: Vec::new(),
    }
}

#[test]
fn a_broadcast_is_outlined() {
    let probe = broadcast();
    let mut answers = nothing_said();
    answers.map = Some(vec![
        MapEntry { pid: 0x130, component_tag: Some(0x30), data_component_id: Some(8) },
        MapEntry { pid: 0x140, component_tag: Some(0x40), data_component_id: None },
    ]);
    answers.joins = vec![Seam { time: 12 * SECOND, ends: 12 * SECOND }];
    let o = outline_of("a.ts", &probe, answers).unwrap();
    assert_eq!(o.path, "a.ts");
    assert!(o.on_a_ts && o.byte_seekable);
    assert_eq!(o.audios.len(), 1);
    assert_eq!(o.audio.unwrap().stream_index, 1);
    assert_eq!(o.captions.len(), 1);
    assert_eq!(o.captions[0].pid, 0x130);
    assert!(o.captions[0].is_arib_caption());
    assert_eq!(o.dropped.len(), 1);
    assert_eq!(o.dropped[0].pid, 0x140);
    assert_eq!(o.joins[0].time, 10 * SECOND);
    assert!(o.video.interlaced() && o.video.top_field_first());
    assert_eq!(o.video.frame_duration(), 23_543_520);
}

#[test]
fn a_recording_with_no_pictures_is_no_recording() {
    let mut probe = broadcast();
    probe.video = None;
    assert!(matches!(
        outline_of("a.ts", &probe, nothing_said()),
        Err(OutlineError::NoVideo)
    ));
    let mut answers = nothing_said();
    answers.unreadable = vec![Unreadable { pid: 0x1400, what: "menu" }];
    assert!(matches!(outline_of("a.ts", &probe, answers), Err(OutlineError::Menu)));
}

#[test]
fn containers_that_seek_by_byte() {
    assert!(byte_seekable("mpegts"));
    assert!(!byte_seekable("mov,mp4,m4a,3gp,3g2,mj2"));
    assert!(faster_than_declared(Ratio { num: 60, den: 1 }, Ratio { num: 30, den: 1 })
        != faster_than_declared(Ratio { num: 30, den: 1 }, Ratio { num: 30, den: 1 }));
}

fn point(time: i64) -> AccessPoint {
    AccessPoint {
        time,
        lead_start: time - 100,
        lead_indices: vec![1, 2],
        droppable: true,
        pos: 188,
    }
}

fn index(points: Vec<AccessPoint>, leading_known: bool) -> Index {
    Index {
        points,
        leading_known,
        pulldown: Some(false),
        variable: None,
        bit_rate: Some(15_000_000),
        end: Some(1801 * SECOND),
    }
}

#[test]
fn a_source_is_put_together() {
    let o = outline_of("a.ts", &broadcast(), nothing_said()).unwrap();
    let src = assemble(o, index(vec![point(-3), point(SECOND / 2), point(SECOND)], true), None, "walk")
        .unwrap();
    // Nothing starts before the file does.
    assert_eq!(src.points[0].time, 0);
    assert_eq!(src.points[0].lead_start, 0);
    assert_eq!(src.points[1].lead_start, SECOND / 2 - 100);
    assert_eq!(src.index_name, "walk");
    // The pictures run on past what the container says.
    assert_eq!(src.duration, 1801 * SECOND);
    // Three times as far as the points are apart.
    assert_eq!(src.seek_margin, 3 * SECOND / 2);
    assert_eq!(src.video.bit_rate, Some(15_000_000));
}

#[test]
fn a_recording_with_no_entry_points_is_refused() {
    let o = outline_of("a.ts", &broadcast(), nothing_said()).unwrap();
    assert!(assemble(o, index(Vec::new(), true), None, "walk").is_err());
}

#[test]
fn a_mended_map_is_taken_over() {
    let mut answers = nothing_said();
    answers.joins = vec![Seam { time: 3 * SECOND, ends: 3 * SECOND }];
    let o = outline_of("a.ts", &broadcast(), answers).unwrap();
    let mended = Mended {
        joins: Vec::new(),
        points: vec![point(0), point(1900 * SECOND)],
        any: true,
    };
    let src = assemble(o, index(vec![point(0)], false), Some(mended), "map").unwrap();
    assert!(src.joins.is_empty());
    assert_eq!(src.points.len(), 2);
    // A picture past the last of them.
    assert_eq!(src.duration, 1900 * SECOND + 23_543_520);
}

#[test]
fn the_first_picture_is_the_earliest_at_the_front() {
    let at = |pts: i64, key_picture: bool| HeadPacket { position: 0, key_picture, pts: Some(pts) };
    assert_eq!(first_picture(&[]), None);
    assert_eq!(first_picture(&[at(500, false), at(700, true)]), Some(700));
    assert_eq!(first_picture(&[at(-5, true)]), Some(0));
}

#[test]
fn tracks_are_named() {
    assert_eq!(track_name(true, 0x110, 1), "pid 0x0110");
    assert_eq!(track_name(false, 0x110, 1), "stream 1");
}

#[test]
fn what_is_left_behind_is_described() {
    let gone = |what: &'static str| DroppedStream { pid: 1, stream_index: 0, what };
    assert_eq!(gone("superimpose").describe(), "superimposed text");
    assert_eq!(
        gone("substream").describe(),
        "a compatibility stream folded into the track written"
    );
}

#[test]
fn versions_are_three_numbers() {
    let v = libav(0x3d0764, 0x3d1364, 0x3b2764, "LGPL");
    assert_eq!(v.avformat, "61.7.100");
    assert_eq!(v.avutil, "59.39.100");
    assert_eq!(v.license, "LGPL");
}

#[test]
fn progress_is_told_now_and_then() {
    let mut told = Told::new();
    assert_eq!(told.at(0), Some(0));
    assert_eq!(told.at(1_999), None);
    assert_eq!(told.at(2_000), Some(2_000));
    assert_eq!(told.at(2_000_000), Some(1_000_000));
}

#[test]
fn a_field_pair_is_one_entry_picture() {
    let mut e = EntryPictures::new();
    assert_eq!(e.step(false, false), Step::Skip);
    assert_eq!(e.step(true, true), Step::Half);
    assert_eq!(e.step(false, true), Step::Whole);
    assert_eq!(e.step(true, false), Step::Whole);
    assert_eq!(e.step(true, true), Step::Half);
    e.broke();
    assert_eq!(e.step(false, true), Step::Skip);
}

#[test]
fn only_sound_that_can_be_read_is_a_track() {
    let mut silent = stream(3, 0x113, Medium::Audio, Coded::Other, "aac");
    silent.channels = 0;
    let streams = [
        stream(0, 0x100, Medium::Video, Coded::Other, "mpeg2video"),
        stream(1, 0x111, Medium::Audio, Coded::Other, "aac"),
        stream(2, 0x112, Medium::Audio, Coded::Other, "dts"),
        silent,
    ];
    let kept = sounds(&streams, &[Unreadable { pid: 0x112, what: "dts" }]);
    assert_eq!(kept, vec![sound(1, 0x111, "aac", 2)]);
}

#[test]
fn a_track_takes_the_shape_it_turned_out_to_have() {
    let mut one = sound(1, 0x110, "aac", 1);
    one.bit_rate = Some(96_000);
    let out = reshape(&[one.clone(), one.clone()], &[None, Some((2, 44_100))]);
    assert_eq!(out[0], one);
    assert_eq!((out[1].channels, out[1].sample_rate, out[1].bit_rate), (2, 44_100, None));
    assert!(asks_for_shapes(true, false));
    assert!(!asks_for_shapes(true, true) && !asks_for_shapes(false, false));
}

#[test]
fn the_broadcast_says_which_sound_is_which() {
    let audios = [sound(1, 0x110, "aac", 2), sound(2, 0x111, "aac", 2), sound(3, -1, "aac", 2)];
    let map = [
        MapEntry { pid: 0x110, component_tag: Some(0x10), data_component_id: None },
        MapEntry { pid: 0x111, component_tag: Some(0x11), data_component_id: None },
    ];
    assert_eq!(sound_pids(&audios), [0x110, 0x111]);
    assert_eq!(sound_tags(&audios, &map), [0x10, 0x11]);
    let said = SoundTrack {
        component_tag: 0x11,
        main: true,
        language: Some("eng".to_string()),
        name: "English".to_string(),
    };
    let out = describe_sounds(&audios, &map, &[said.clone()]);
    assert_eq!(out[0], audios[0]);
    assert_eq!(out[1].said, Some(said));
    assert_eq!(out[1].language.as_deref(), Some("eng"));
    // The broadcast knows, then the demuxer, then the order they came in.
    assert_eq!(main_sound(&out, Some(1)), Some(1));
    assert_eq!(main_sound(&audios, Some(2)), Some(1));
    assert_eq!(main_sound(&audios, Some(9)), Some(0));
    assert_eq!(main_sound(&audios, None), Some(0));
    assert_eq!(main_sound(&[], Some(1)), None);
}

#[test]
fn seams_go_on_the_clock_of_everything_else() {
    let joins = [Seam { time: 5 * SECOND, ends: 4 * SECOND }];
    assert_eq!(rebase(&joins, 2 * SECOND), [Seam { time: 3 * SECOND, ends: 2 * SECOND }]);
    assert!(asks_for_mending(false, &joins));
    assert!(!asks_for_mending(true, &joins) && !asks_for_mending(false, &[]));
}

#[test]
fn no_point_is_before_the_file() {
    let out = floor_points(vec![point(50), point(-7), point(200)]);
    let times: Vec<(i64, i64)> = out.iter().map(|p| (p.time, p.lead_start)).collect();
    assert_eq!(times, [(50, 0), (0, 0), (200, 100)]);
    assert_eq!(out[0].lead_indices, [1, 2]);
}
