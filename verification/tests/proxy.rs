use smartcut_core::le::Unread;
use smartcut_core::proxy::encode::{
    encoder_base, encoder_settings, gop, none_would, quality_for, settled, sizes, Lever,
    ENCODERS,
};
use smartcut_core::proxy::{cache_name, marks_path, ready, rebased, HeldMarks, Marks, Pacing};
use smartcut_core::time::SECOND;
use smartcut_core::{AccessPoint, Ratio};

fn point(time: i64) -> AccessPoint {
    AccessPoint { time, lead_start: time, lead_indices: Vec::new(), droppable: false, pos: -1 }
}

#[test]
fn the_kind_nearest_a_moment() {
    let mut m = Marks::default();
    assert!(m.is_empty());
    assert_eq!(m.kind_at(0, 100), None);
    m.push(0, "I");
    m.push(100, "B");
    m.push(200, "P");
    m.push(300, "");
    assert_eq!(m.len(), 4);
    assert_eq!(m.kind_at(40, 50), Some("I"));
    assert_eq!(m.kind_at(60, 50), Some("B"));
    assert_eq!(m.kind_at(150, 50), Some("B"));
    assert_eq!(m.kind_at(290, 50), Some("-"));
    assert_eq!(m.kind_at(400, 50), None);
}

#[test]
fn marks_are_read_back() {
    let held = HeldMarks {
        times: vec![0f64.to_bits(), 0.0334f64.to_bits()],
        kinds: vec![b'I', b'B'],
    };
    let raw = held.save();
    assert_eq!(&raw[..16], b"SCPM\x02\0\0\0\x02\0\0\0\0\0\0\0");
    assert_eq!(raw.len(), 16 + 18);
    let back = HeldMarks::load(&raw).unwrap();
    assert_eq!(back.times, held.times);
    assert_eq!(back.kinds, held.kinds);
    assert!(matches!(HeldMarks::load(&raw[..33]), Err(Unread::Truncated)));
    assert!(matches!(HeldMarks::load(&raw[..15]), Err(Unread::NotOne)));
    assert!(matches!(HeldMarks::load(&[0; 16]), Err(Unread::NotOne)));
    let mut other = raw.clone();
    other[4] = 1;
    assert!(matches!(HeldMarks::load(&other), Err(Unread::OtherVersion)));
}

#[test]
fn a_proxy_is_named_by_what_it_was_made_with() {
    let q = 22f64.to_bits();
    let name = cache_name("/r/a.ts", "a", 1, 2, 1280, q);
    assert!(name.starts_with("a-") && name.ends_with(".mp4"));
    assert_ne!(name, cache_name("/r/a.ts", "a", 1, 2, 960, q));
    assert_ne!(name, cache_name("/r/a.ts", "a", 1, 2, 1280, 23f64.to_bits()));
    assert_eq!(marks_path("/c/a.b-12.mp4"), "/c/a.b-12.marks");
    assert!(ready(true, true) && !ready(true, false) && !ready(false, true));
}

#[test]
fn the_environment_is_asked() {
    let o = settled(None, None, None);
    assert_eq!((o.width, o.quality, o.max_gop), (1280, 22_000, 2 * SECOND));
    assert_eq!(
        o.encoders,
        ["h264_nvenc", "h264_videotoolbox", "h264_amf", "h264_qsv", "libx264", "mpeg4"]
    );
    let o = settled(Some(" 960 "), Some(18_000), Some("libx264, mpeg4"));
    assert_eq!((o.width, o.quality), (960, 18_000));
    assert_eq!(o.encoders, ["libx264", "mpeg4"]);
    assert_eq!(settled(Some("wide"), None, Some("  ")).encoders.len(), 6);
    assert_eq!(settled(Some("5000000000"), None, None).width, 1280);
}

#[test]
fn pixels_come_out_square() {
    let broadcast = Ratio { num: 4, den: 3 };
    assert_eq!(sizes(1440, 1080, broadcast, 1280), (1280, 720));
    // As wide as the picture is worth, and no wider.
    assert_eq!(sizes(1440, 1080, broadcast, 4000), (1920, 1080));
    assert_eq!(sizes(640, 480, Ratio { num: 1, den: 1 }, 1280), (640, 480));
    // Four by three, held to the height.
    assert_eq!(sizes(2880, 2160, Ratio { num: 1, den: 1 }, 1920), (1440, 1080));
    // Nothing said of the samples.
    assert_eq!(sizes(1920, 1080, Ratio { num: 0, den: 0 }, 1280).0, 160);
}

#[test]
fn what_an_encoder_is_told() {
    assert_eq!(gop(Ratio { num: 30_000, den: 1001 }, 2 * SECOND), 60);
    assert_eq!(gop(Ratio { num: 0, den: 0 }, 2 * SECOND), 60);
    assert_eq!(gop(Ratio { num: 60, den: 1 }, 100 * SECOND), 600);
    assert_eq!(encoder_base(Ratio { num: 1, den: 90_000 }), Ratio { num: 1, den: 60_000 });
    assert_eq!(encoder_base(Ratio { num: 1, den: 1000 }), Ratio { num: 1, den: 1000 });
    assert_eq!(quality_for("libx264", 22_000), 22_000);
    assert_eq!(quality_for("mpeg4", 22_000), 5_500);
    assert_eq!(quality_for("mpeg4", 0), 1_000);
    assert_eq!(quality_for("h264_qsv", 90_000), 51_000);
    let (lever, told) = encoder_settings("libx264");
    assert_eq!(lever, Lever::Crf);
    assert_eq!(told, [("preset", "ultrafast"), ("x264-params", "scenecut=0")]);
    assert_eq!(encoder_settings("mpeg4").0, Lever::Scale);
    assert_eq!(encoder_settings("h264_amf").0, Lever::QpBoth);
    assert_eq!(encoder_settings("h264_qsv").0, Lever::Global);
    let (lever, told) = encoder_settings("h264_nvenc");
    assert_eq!(lever, Lever::Qp);
    assert_eq!(told, [("preset", "p1"), ("tune", "ull"), ("rc", "constqp")]);
    assert!(encoder_settings("something").1.is_empty());
}

#[test]
fn refusals_are_named() {
    assert_eq!(
        none_would(&[("a".to_string(), "x".to_string()), ("b".to_string(), "y".to_string())]),
        "no proxy encoder would take a picture -- tried a (x), b (y)"
    );
}

#[test]
fn a_keyframe_at_every_access_point() {
    let fd = SECOND / 30;
    let p = [point(0), point(SECOND / 2), point(SECOND)];
    let mut pace = Pacing::new();
    assert_eq!(pace.take(-1, "I", &p, fd), None);
    let mut entries = Vec::new();
    for k in 0..31 {
        if pace.take(k * fd, "P", &p, fd) == Some(true) {
            entries.push(k);
        }
    }
    assert_eq!(entries, [0, 15, 30]);
    assert_eq!(pace.marks.len(), 31);
}

#[test]
fn a_proxys_clock_is_put_back() {
    let src = smartcut_core::Outline {
        path: "p.mp4".to_string(),
        video: smartcut_core::VideoInfo {
            stream_index: 0,
            codec: "h264".to_string(),
            width: 1280,
            height: 720,
            frame_rate: Ratio { num: 30, den: 1 },
            base_rate: Ratio { num: 30, den: 1 },
            has_b_frames: 0,
            time_base: Ratio { num: 1, den: 60_000 },
            sample_aspect_ratio: Ratio { num: 1, den: 1 },
            pulldown: false,
            variable_rate: false,
            field_order: 0,
            bit_rate: None,
        },
        audio: None,
        audios: Vec::new(),
        captions: Vec::new(),
        graphics: Vec::new(),
        subpictures: Vec::new(),
        dropped: Vec::new(),
        duration: 10 * SECOND,
        start_time: 7,
        byte_seekable: false,
        on_a_ts: false,
        joins: Vec::new(),
        head: None,
    };
    let mut src = src.into_source();
    src.points = vec![point(0), point(SECOND)];
    let moved = rebased(src, Some(500));
    assert_eq!(moved.points[0].time, 500);
    assert_eq!(moved.points[1].lead_start, SECOND + 500);
    assert_eq!(moved.start_time, 7 - 500);
    assert_eq!(moved.duration, 10 * SECOND + 500);
    // With no marks, the container's own start time.
    let again = rebased(moved, None);
    assert_eq!(again.points[0].time, 500 + 7 - 500);
    assert_eq!(again.start_time, 0);
}

#[test]
fn hardware_is_tried_first() {
    assert_eq!(
        ENCODERS,
        ["h264_nvenc", "h264_videotoolbox", "h264_amf", "h264_qsv", "libx264", "mpeg4"]
    );
}

#[test]
fn marks_can_be_copied() {
    let marks = Marks { times: vec![0, SECOND], kinds: vec![b'I', b'P'] };
    let copy = marks.clone();
    assert_eq!((copy.times, copy.kinds), (marks.times, marks.kinds));
    assert_eq!(Marks::default().len(), 0);
}
