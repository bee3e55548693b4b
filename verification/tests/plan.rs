use smartcut_core::plan::{
    clean_start, clean_the_join, join_wanted, judge, plan, plan_on, plan_range, safe_seek, Judged,
    PlanOptions, RangePlan, SegmentKind,
};
use smartcut_core::time::SECOND;
use smartcut_core::{AccessPoint, Outline, Ratio, Source, VideoInfo};


/// Broadcast video: 29.97 fps, interlaced, open GOPs half a second apart.
fn video() -> VideoInfo {
    VideoInfo {
        stream_index: 0,
        codec: "mpeg2video".into(),
        width: 1440,
        height: 1080,
        frame_rate: Ratio { num: 30000, den: 1001 },
        base_rate: Ratio { num: 0, den: 0 },
        has_b_frames: 1,
        time_base: Ratio { num: 1, den: 90000 },
        sample_aspect_ratio: Ratio { num: 4, den: 3 },
        pulldown: false,
        variable_rate: false,
        field_order: 2,
        bit_rate: None,
    }
}

/// Entry points on a half-second grid, each with one leading picture --
/// which is what puts `lead_start` one frame ahead of `time` and lets a
/// copy stop a frame short of an entry point.
fn points(n: usize, fd: i64) -> Vec<AccessPoint> {
    (0..n)
        .map(|i| {
            let time = i as i64 * 15 * fd;
            AccessPoint {
                time,
                lead_start: if i == 0 { time } else { time - fd },
                lead_indices: if i == 0 { Vec::new() } else { vec![1usize] },
                droppable: true,
                pos: -1,
            }
        })
        .collect()
}

/// The bug this guards against: a bound landing a rounding away from
/// where the copy has to stop left a re-encode segment with no picture
/// in it, and the cutter -- rightly -- refuses a window it can decode
/// nothing out of, so the whole run stopped.
#[test]
fn a_bound_a_hair_past_the_copy_leaves_no_empty_segment() {
    let video = video();
    let fd = video.frame_duration();
    let points = points(40, fd);
    // Ends 1/1000 of a frame after an entry point's leading picture,
    // which is where the copy's coverage ends.
    let t_out = points[10].lead_start + fd / 1000;
    let plan = plan_range(&video, 300 * SECOND, &points, 0, t_out, &PlanOptions::default());
    assert!(plan.segments.iter().all(|s| s.frames > 0), "{:?}", plan.segments);
    assert_eq!(plan.segments.last().unwrap().kind, SegmentKind::Copy);
}

/// And the tail is still written where there is a picture in it.
#[test]
fn a_bound_a_picture_past_the_copy_still_gets_its_tail() {
    let video = video();
    let fd = video.frame_duration();
    let points = points(40, fd);
    let t_out = points[10].lead_start + 2 * fd;
    let plan = plan_range(&video, 300 * SECOND, &points, 0, t_out, &PlanOptions::default());
    let tail = plan.segments.last().unwrap();
    assert_eq!(tail.kind, SegmentKind::Reencode);
    assert!(tail.frames > 0, "{tail:?}");
    assert_eq!(plan.t_out, t_out);
}

fn source(points: Vec<AccessPoint>) -> Source {
    let mut src = Outline {
        path: "a.ts".to_string(),
        video: video(),
        audio: None,
        audios: Vec::new(),
        captions: Vec::new(),
        graphics: Vec::new(),
        subpictures: Vec::new(),
        dropped: Vec::new(),
        duration: 300 * SECOND,
        start_time: 0,
        byte_seekable: true,
        on_a_ts: true,
        joins: Vec::new(),
        head: None,
    }
    .into_source();
    src.points = points;
    src
}

/// Five pictures into a stretch between two entry points, as far as another.
fn mid_stretch(points: &[AccessPoint], fd: i64) -> (i64, i64) {
    (points[3].time + 5 * fd, points[20].lead_start)
}

fn stretches(plan: &RangePlan) -> Vec<(SegmentKind, i64, i64)> {
    plan.segments.iter().map(|s| (s.kind, s.start, s.end)).collect()
}

#[test]
fn a_range_is_made_again_as_far_as_an_entry_point() {
    let video = video();
    let fd = video.frame_duration();
    assert_eq!(fd, 23_543_520);
    let points = points(40, fd);
    let (t_in, t_out) = mid_stretch(&points, fd);
    let plan = plan_range(&video, 300 * SECOND, &points, t_in, t_out, &PlanOptions::default());
    assert_eq!(
        stretches(&plan),
        [
            (SegmentKind::Reencode, t_in, points[4].time),
            (SegmentKind::Copy, points[4].time, t_out),
        ]
    );
    assert_eq!(plan.segments[0].frames, 10);
    assert_eq!(plan.segments[1].frames, 16 * 15 - 1);
    assert_eq!(plan.reencoded(), 10 * fd);
    assert_eq!(plan.copied(), (16 * 15 - 1) * fd);
    // One behind the other, from end to end.
    assert_eq!(plan.reencoded() + plan.copied(), t_out - t_in);
}

#[test]
fn a_copy_starts_where_the_leading_pictures_can_be_left_out() {
    let video = video();
    let fd = video.frame_duration();
    let mut points = points(40, fd);
    points[4].droppable = false;
    points[5].droppable = false;
    let (t_in, t_out) = mid_stretch(&points, fd);
    let plan = plan_range(&video, 300 * SECOND, &points, t_in, t_out, &PlanOptions::default());
    assert_eq!(plan.segments[1].start, points[6].time);
    assert_eq!(plan.segments[0].frames, 40);
    // A point that ends the group before it needs none left out.
    points[5].lead_indices.clear();
    points[5].lead_start = points[5].time;
    assert!(points[4].open_gop() && !points[5].open_gop());
    let plan = plan_range(&video, 300 * SECOND, &points, t_in, t_out, &PlanOptions::default());
    assert_eq!(plan.segments[1].start, points[5].time);
    // With one closed point among them there is nowhere for a copy to stop.
    let opts = PlanOptions { allow_open_gop: false, ..PlanOptions::default() };
    let plan = plan_range(&video, 300 * SECOND, &points, t_in, t_out, &opts);
    assert_eq!(stretches(&plan), [(SegmentKind::Reencode, t_in, t_out)]);
}

#[test]
fn a_join_is_moved_onto_a_cleaner_entry_point() {
    let video = video();
    let fd = video.frame_duration();
    let points = points(40, fd);
    let range = mid_stretch(&points, fd);
    let opts = PlanOptions { clean_join: Some(2 * SECOND), ..PlanOptions::default() };
    let src = source(points.clone());
    let as_is = plan(&src.video, src.duration, &src.points, &[range], &opts).remove(0);
    assert_eq!(join_wanted(&as_is, &opts), Some((points[4].time, points[4].time + 2 * SECOND)));

    let moved = plan_on(&src, &[range, range], &[Some(points[6].time), None], &opts);
    assert_eq!(
        stretches(&moved[0]),
        [
            (SegmentKind::Reencode, range.0, points[6].time),
            (SegmentKind::Copy, points[6].time, range.1),
        ]
    );
    assert_eq!((moved[0].segments[0].frames, moved[0].segments[1].frames), (40, 14 * 15 - 1));
    assert_eq!(stretches(&moved[1]), stretches(&as_is));

    let mut by_hand = as_is.clone();
    clean_the_join(&src.video, &mut by_hand, Some(points[6].time), &opts);
    assert_eq!(stretches(&by_hand), stretches(&moved[0]));
}

#[test]
fn a_join_stays_where_moving_it_buys_nothing() {
    let video = video();
    let fd = video.frame_duration();
    let points = points(40, fd);
    let range = mid_stretch(&points, fd);
    let src = source(points.clone());
    let opts = PlanOptions { clean_join: Some(30 * SECOND), ..PlanOptions::default() };
    let as_is = plan(&src.video, src.duration, &src.points, &[range], &opts).remove(0);
    // Where it already is, or so late that no copy worth making is left.
    for clean in [points[4].time, points[20].time] {
        let kept = plan_on(&src, &[range], &[Some(clean)], &opts).remove(0);
        assert_eq!(stretches(&kept), stretches(&as_is));
    }
    // Nothing was asked for.
    let none = PlanOptions::default();
    assert_eq!(join_wanted(&as_is, &none), None);
    let kept = plan_on(&src, &[range], &[Some(points[6].time)], &none).remove(0);
    assert_eq!(stretches(&kept), stretches(&as_is));
    // A range that starts on an entry point is one that was meant.
    let on = plan(&src.video, src.duration, &src.points, &[(points[4].time, range.1)], &opts).remove(0);
    assert_eq!(join_wanted(&on, &opts), None);
}

#[test]
fn a_seek_goes_back_past_what_it_needs() {
    let fd = video().frame_duration();
    let points = points(10, fd);
    assert_eq!(safe_seek(&points, points[5].time + fd, 2), points[3].time);
    assert_eq!(safe_seek(&points, points[5].time, 0), points[5].time);
    assert_eq!(safe_seek(&points, points[1].time, 7), points[0].time);
    assert_eq!(safe_seek(&points, -SECOND, 1), 0);
}

#[test]
fn entry_points_are_judged_by_the_picture_they_begin_with() {
    let video = video();
    let fd = video.frame_duration();
    let points = points(10, fd);
    let asked = clean_start(&video, &points, points[2].time + fd / 4, points[4].time - fd / 4);
    assert_eq!(asked, [points[2].time, points[3].time, points[4].time]);
    let want = points[3].time;
    let half = fd / 2;
    assert_eq!(judge(want, want + 1, true, half), Judged::Here);
    assert_eq!(judge(want, want, false, half), Judged::Before);
    assert_eq!(judge(want, want - fd, true, half), Judged::Before);
    assert_eq!(judge(want, want + fd, true, half), Judged::Late);
}

#[test]
fn a_range_cut_on_entry_points_is_copied_whole() {
    let video = video();
    let fd = video.frame_duration();
    let points = points(40, fd);
    let (t_in, t_out) = (points[4].time, points[20].lead_start);
    let plan = plan_range(&video, 300 * SECOND, &points, t_in, t_out, &PlanOptions::default());
    assert_eq!(stretches(&plan), [(SegmentKind::Copy, t_in, t_out)]);
    assert_eq!(plan.segments[0].copy_until, Some(points[20].time));
    assert_eq!((plan.t_in, plan.t_out, plan.reencoded()), (t_in, t_out, 0));
}

#[test]
fn a_range_that_runs_to_the_end_is_copied_to_the_end() {
    let video = video();
    let fd = video.frame_duration();
    let points = points(40, fd);
    let end = points[39].time + 15 * fd;
    let plan = plan_range(&video, end, &points, points[30].time, end, &PlanOptions::default());
    assert_eq!(stretches(&plan), [(SegmentKind::Copy, points[30].time, end)]);
    assert_eq!(plan.segments[0].copy_until, None);
}
