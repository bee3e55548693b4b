use smartcut_core::sound::lay::{
    copied_stamp, encoded_stamp, landing, time_of, Laid, PacketFacts, Taking, Turn, LEEWAY,
};
use smartcut_core::sound::{
    fade_lengths, muxer_options, note_of_silence, note_of_tracks, overlapped, pcm_order, schedule,
    settle_order, settle_run, settle_unlike, track_for, track_of, track_place, unlike, window, Act, AudioMode,
    Join, Pcm, Piece, Shape, SoundCodec, SoundError, SoundOptions,
};
use smartcut_core::time::SECOND;
use smartcut_core::transition::{Crossing, Shade, Transition};
use smartcut_core::{AudioInfo, Outline, Ratio, Source, VideoInfo};

fn track(stream_index: usize, codec: &str) -> AudioInfo {
    AudioInfo {
        stream_index,
        pid: 0x110 + stream_index as i32,
        language: None,
        codec: codec.to_string(),
        sample_rate: 48_000,
        channels: 2,
        bits: 16,
        time_base: Ratio { num: 1, den: 90_000 },
        bit_rate: None,
        said: None,
    }
}

fn recording(path: &str, audios: Vec<AudioInfo>) -> Source {
    Outline {
        path: path.to_string(),
        video: VideoInfo {
            stream_index: 0,
            codec: "mpeg2video".to_string(),
            width: 1440,
            height: 1080,
            frame_rate: Ratio { num: 30_000, den: 1001 },
            base_rate: Ratio { num: 30_000, den: 1001 },
            has_b_frames: 1,
            time_base: Ratio { num: 1, den: 90_000 },
            sample_aspect_ratio: Ratio { num: 4, den: 3 },
            pulldown: false,
            variable_rate: false,
            field_order: 0,
            bit_rate: None,
        },
        audio: None,
        audios,
        captions: Vec::new(),
        graphics: Vec::new(),
        subpictures: Vec::new(),
        dropped: Vec::new(),
        duration: 100 * SECOND,
        start_time: 0,
        byte_seekable: true,
        on_a_ts: true,
        joins: Vec::new(),
        head: None,
    }
    .into_source()
}

fn join(kind: Crossing, seconds: i64) -> Join {
    Join {
        crossing: Transition { kind, seconds, ..Transition::default() },
        fade_out: 11,
        fade_in: 22,
    }
}

fn opts(drop_streams: Vec<usize>) -> SoundOptions {
    SoundOptions { drop_streams, audio_fade: 5 }
}

#[test]
fn the_first_kept_track_is_written() {
    let src = recording("a.ts", vec![track(1, "aac"), track(2, "aac")]);
    assert_eq!(track_of(&src, &opts(vec![])).unwrap().stream_index, 1);
    assert_eq!(track_of(&src, &opts(vec![1])).unwrap().stream_index, 2);
    assert_eq!(track_place(&src, &opts(vec![1])), Some(1));
    assert_eq!(track_place(&src, &opts(vec![1, 2])), None);
    let e = track_of(&src, &opts(vec![2, 1])).unwrap_err();
    assert_eq!(e.message(), "a.ts has no sound to write");
}

#[test]
fn a_piece_supplies_the_track_in_the_same_place() {
    let master = recording("a.ts", vec![track(1, "aac"), track(2, "aac")]);
    let other = recording("b.ts", vec![track(4, "aac"), track(1, "aac")]);
    let short = recording("c.ts", vec![track(1, "aac")]);
    let ranges = [(0, SECOND)];
    let piece = |src| Piece { src, ranges: &ranges, after: join(Crossing::Hard, 0) };
    let pieces = [piece(&master), piece(&other), piece(&short)];
    // The second place, though the number dropped is the other's second.
    assert_eq!(track_for(&pieces, 0, 1, &opts(vec![1])).unwrap().stream_index, 1);
    let e = track_for(&pieces, 0, 2, &opts(vec![1])).unwrap_err();
    assert_eq!(e.message(), "c.ts has no sound to write");
    let e = track_for(&pieces, 0, 2, &opts(vec![1, 2])).unwrap_err();
    assert_eq!(e.message(), "a.ts has no sound to write");
}

#[test]
fn a_seam_between_pieces_has_fades_of_its_own() {
    let src = recording("a.ts", vec![track(1, "aac")]);
    let two = [(0, SECOND), (2 * SECOND, 3 * SECOND)];
    let one = [(0, SECOND)];
    let pieces = [
        Piece { src: &src, ranges: &two, after: join(Crossing::Hard, 0) },
        Piece { src: &src, ranges: &one, after: join(Crossing::Hard, 0) },
    ];
    assert_eq!(fade_lengths(&pieces, &opts(vec![])), [(5, 5), (5, 11), (22, 5)]);
}

#[test]
fn a_crossing_takes_from_the_piece_behind_it() {
    let src = recording("a.ts", vec![track(1, "aac")]);
    let first = [(0, 10 * SECOND)];
    let second = [(20 * SECOND, 21 * SECOND), (30 * SECOND, 40 * SECOND)];
    let kept = |kind, seconds| {
        let pieces = [
            Piece { src: &src, ranges: &first, after: join(kind, seconds) },
            Piece { src: &src, ranges: &second, after: join(Crossing::Dissolve, SECOND) },
        ];
        overlapped(&pieces)
    };
    // Half of the range is as much as it may take.
    let out = kept(Crossing::Dissolve, 2 * SECOND);
    assert_eq!(out[0], first);
    assert_eq!(out[1], [(20 * SECOND + SECOND / 2, 21 * SECOND), second[1]]);
    assert_eq!(kept(Crossing::Dissolve, SECOND / 4)[1][0].0, 20 * SECOND + SECOND / 4);
    // Through black, and straight across, nothing overlaps.
    assert_eq!(kept(Crossing::Fade(Shade::Black), 2 * SECOND)[1], second);
    assert_eq!(kept(Crossing::Hard, 2 * SECOND)[1], second);
}

#[test]
fn a_range_on_the_sample_clock() {
    assert_eq!(window((SECOND / 2, 3 * SECOND), 48_000), (24_000, 144_000));
}

#[test]
fn pcm_keeps_its_width() {
    assert_eq!(pcm_order(Pcm::S16Le, Pcm::S24Be), Pcm::S24Le);
    assert_eq!(pcm_order(Pcm::S16Be, Pcm::S24Le), Pcm::S24Be);
    assert_eq!(pcm_order(Pcm::S16Le, Pcm::S16Be), Pcm::S16Le);
    assert_eq!(pcm_order(Pcm::S16Le, Pcm::F64Be), Pcm::F64Le);
    let shape = Shape {
        mode: AudioMode::Copy,
        framed: true,
        target: SoundCodec::Uncompressed(Pcm::S24Be),
    };
    assert_eq!(
        settle_order(shape, SoundCodec::Uncompressed(Pcm::S16Le)),
        Shape {
            mode: AudioMode::Reencode,
            framed: false,
            target: SoundCodec::Uncompressed(Pcm::S24Le)
        }
    );
    assert_eq!(settle_order(shape, SoundCodec::Uncompressed(Pcm::S16Be)), shape);
    assert_eq!(settle_order(shape, SoundCodec::Coded(7)), shape);
}

#[test]
fn unlike_sound_cannot_be_copied() {
    let a = recording("a.ts", vec![track(1, "aac")]);
    let b = recording("b.ts", vec![track(1, "mp2")]);
    let none = recording("c.ts", Vec::new());
    let ranges = [(0, SECOND)];
    let piece = |src| Piece { src, ranges: &ranges, after: join(Crossing::Hard, 0) };
    let o = opts(vec![]);
    assert!(unlike(&[piece(&a), piece(&b)], 0, &o, &[None, None]));
    assert!(!unlike(&[piece(&a), piece(&a), piece(&none)], 0, &o, &[None, None, Some(1)]));
    assert!(unlike(&[piece(&a), piece(&a)], 0, &o, &[None, Some(1)]));
    // Framing is only AAC's.
    assert!(!unlike(&[piece(&b), piece(&b)], 0, &o, &[None, Some(1)]));
    let shape = Shape { mode: AudioMode::Smart, framed: true, target: SoundCodec::Coded(1) };
    assert_eq!(settle_unlike(shape, true).mode, AudioMode::Reencode);
    assert_eq!(settle_unlike(shape, false), shape);
}

#[test]
fn what_a_muxer_is_told() {
    assert_eq!(muxer_options("adts", true), (true, false));
    assert_eq!(muxer_options("adts", false), (false, false));
    assert_eq!(muxer_options("wav", true), (false, true));
}

#[test]
fn a_run_is_settled() {
    let src = recording("a.ts", vec![track(1, "aac"), track(2, "aac")]);
    let silent = recording("b.ts", Vec::new());
    let ranges = [(0, SECOND), (2 * SECOND, 3 * SECOND)];
    let o = opts(vec![]);
    let say = |r: Result<_, SoundError>| match r {
        Ok(_) => String::new(),
        Err(e) => e.message(),
    };
    assert_eq!(say(settle_run(&[], 0, &o)), "nothing to write");
    let empty = [Piece { src: &src, ranges: &[], after: join(Crossing::Hard, 0) }];
    assert_eq!(
        say(settle_run(&empty, 0, &o)),
        "nothing is kept, so there is no sound to write"
    );
    let quiet = [Piece { src: &silent, ranges: &ranges, after: join(Crossing::Hard, 0) }];
    assert_eq!(say(settle_run(&quiet, 0, &o)), "b.ts has no sound to write");
    let pieces = [Piece { src: &src, ranges: &ranges, after: join(Crossing::Hard, 0) }];
    let run = settle_run(&pieces, 9, &o).unwrap();
    assert_eq!((run.master, run.ranges_in_all, run.place, run.tracks), (0, 2, 0, 2));
    assert_eq!(
        SoundError::CannotHold("o.wav".to_string(), "aac".to_string()).message(),
        "o.wav cannot hold aac sound. Name the file for that codec (.mp2, .ac3, .aac and so on), \
         or ask for another with --audio-codec"
    );
}

#[test]
fn what_is_noted() {
    assert_eq!(note_of_tracks("a.ts", 1), None);
    assert_eq!(
        note_of_tracks("a.ts", 2).unwrap(),
        "note: a.ts carries 2 sound tracks and an audio file is written with one. The first is \
         written; the rest are left out."
    );
    assert_eq!(
        note_of_silence("b.ts"),
        "note: b.ts has no sound, so its part of the join is left out of the audio file"
    );
}

#[test]
fn a_run_goes_piece_by_piece() {
    let src = recording("a.ts", vec![track(1, "aac")]);
    let silent = recording("b.ts", Vec::new());
    let ranges = [(0, SECOND), (2 * SECOND, 3 * SECOND)];
    let pieces = [
        Piece { src: &src, ranges: &ranges, after: join(Crossing::Hard, 0) },
        Piece { src: &silent, ranges: &ranges, after: join(Crossing::Hard, 0) },
        Piece { src: &src, ranges: &ranges[..1], after: join(Crossing::Hard, 0) },
    ];
    let o = opts(vec![]);
    assert_eq!(
        schedule(&pieces, 0, &o, AudioMode::Reencode),
        [
            Act::Said(0),
            Act::Range { piece: 0, k: 0, at: 0 },
            Act::Said(1),
            Act::Range { piece: 0, k: 1, at: 1 },
            Act::Said(2),
            Act::Leave(1),
            Act::Said(4),
            Act::Retune(2),
            Act::Range { piece: 2, k: 0, at: 4 },
            Act::Said(5),
        ]
    );
    assert_eq!(schedule(&pieces[..1], 0, &o, AudioMode::Smart)[1], Act::Patch(0));
}

const CLOCK: Ratio = Ratio { num: 1, den: 90_000 };

fn packet(pts: i64) -> PacketFacts {
    PacketFacts { ours: true, elsewhere: None, pts: Some(pts), duration: 1920, patch: None }
}

fn taking(from: i64, to: i64) -> Taking {
    Taking { range: (from, to), base: CLOCK, start_time: 0, frame_secs: None, recoding: false }
}

#[test]
fn frames_are_laid_end_to_end() {
    let frame = time_of(1920, CLOCK);
    assert_eq!(frame, 15_052_800);
    let by = taking(SECOND, SECOND + 3 * frame);
    let mut laid = Laid { prev: None, written: 0 };
    // Nearer the end of the one before than the range's start.
    assert_eq!(laid.take(&packet(90_000 - 1920), &by), Turn::Pass);
    assert_eq!(
        laid.take(&packet(90_000 - 900), &by),
        Turn::Copy { at: 0, dur: frame, patched: false }
    );
    // A gap in the recording leaves none in what is written.
    assert_eq!(
        laid.take(&packet(90_000 + 3000), &by),
        Turn::Copy { at: frame, dur: frame, patched: false }
    );
    assert_eq!(laid.take(&packet(90_000 + 3 * 1920), &by), Turn::Stop);
    assert_eq!(laid, Laid { prev: Some(93_000), written: 2 * frame });
}

#[test]
fn what_belongs_elsewhere_is_passed_over() {
    let by = taking(0, SECOND);
    let mut laid = Laid { prev: None, written: 0 };
    let other = |t| PacketFacts { ours: false, elsewhere: t, pts: None, duration: 0, patch: None };
    assert_eq!(laid.take(&other(None), &by), Turn::Pass);
    assert_eq!(laid.take(&other(Some(SECOND)), &by), Turn::Pass);
    assert_eq!(laid.take(&other(Some(SECOND + LEEWAY)), &by), Turn::Stop);
    assert_eq!(laid.take(&PacketFacts { pts: None, ..packet(0) }, &by), Turn::Pass);
    // A frame with no length is a frame there is nowhere to put.
    assert_eq!(laid.take(&PacketFacts { duration: 0, ..packet(0) }, &by), Turn::Pass);
}

#[test]
fn a_frame_made_again_follows_what_it_was_made_to_follow() {
    let by = taking(0, SECOND);
    let mut laid = Laid { prev: Some(10), written: 0 };
    let made = |after| PacketFacts { patch: Some(after), ..packet(0) };
    let patched = |t| matches!(t, Turn::Copy { patched: true, .. });
    assert!(patched(laid.take(&made(Some(10)), &by)));
    assert!(!patched(laid.take(&made(Some(10)), &by)));
    assert!(patched(laid.take(&made(None), &by)));
}

#[test]
fn the_encoder_gets_every_frame_the_range_touches() {
    let by = Taking { recoding: true, ..taking(SECOND, 2 * SECOND) };
    let mut laid = Laid { prev: None, written: 0 };
    assert_eq!(laid.take(&packet(90_000 - 2 * 1920), &by), Turn::Pass);
    assert_eq!(laid.take(&packet(90_000 - 2 * 1920 + 1), &by), Turn::Recode);
    assert_eq!(laid.take(&packet(180_000), &by), Turn::Stop);
}

#[test]
fn stamps_are_made_of_times() {
    assert_eq!(landing(SECOND, 0), 500_000);
    assert_eq!(landing(0, -SECOND), -1_000_000);
    assert_eq!(copied_stamp(SECOND, 15_052_800, CLOCK), (90_000, 1920));
    assert_eq!(copied_stamp(-5, 15_052_800, CLOCK).0, 0);
    assert_eq!(encoded_stamp(24_000, 48_000, CLOCK), (45_000, SECOND / 2));
}
