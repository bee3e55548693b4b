use smartcut_core::logo::cluster::largest_cluster;
use smartcut_core::logo::score::{square_root, Scorer, WHOLE};
use smartcut_core::logo::template::{
    corners_of, crop, highpass, pick, sample, template, wanted_of, Averages, Corner, Luma,
};
use smartcut_core::logo::watch::intervals_from;
use smartcut_core::logo::{
    corner_size, pick_corner, reading_of, ring_len, second_pass, template_reach, thresholds,
    LogoError, LogoOptions, NoLogo, Reach,
};
use smartcut_core::time::SECOND;
use smartcut_core::{AccessPoint, Outline, Ratio, VideoInfo};

#[test]
fn corners_are_a_quarter_by_a_fifth() {
    assert_eq!(corner_size(1440, 1080).unwrap(), (360, 216));
    assert_eq!(corner_size(70, 90).unwrap(), (16, 18));
    assert_eq!(corner_size(63, 90).unwrap_err(), LogoError::TooSmall);
    assert_eq!(corner_size(70, 79).unwrap_err(), LogoError::TooSmall);
}

#[test]
fn what_is_said_when_none_is_found() {
    assert_eq!(LogoError::TooSmall.message(), "frame too small to look for a logo");
    assert_eq!(LogoError::TooFew(7).message(), "only 7 key frames; not enough to find a logo");
    assert_eq!(LogoError::Nothing(NoLogo).message(), "no station logo found");
}

#[test]
fn corners_start_where_they_are() {
    let at = |k: usize| Corner::at(k).origin(100, 80, 25, 16);
    assert_eq!([at(0), at(1), at(2), at(3)], [(0, 0), (75, 0), (0, 64), (75, 64)]);
}

fn ramp(width: usize, height: usize, stride: usize) -> Vec<u8> {
    let mut data = vec![0; stride * height];
    for y in 0..height {
        for x in 0..width {
            data[y * stride + x] = (10 * y + x) as u8;
        }
    }
    data
}

#[test]
fn a_corner_is_cut_out() {
    let data = ramp(10, 8, 12);
    let frame = Luma { width: 10, height: 8, stride: 12, data: &data };
    assert_eq!(crop(&frame, Corner::BottomRight, 3, 2), [67, 68, 69, 77, 78, 79]);
    assert_eq!(sample(&frame, Corner::TopRight, 3, 2, &[5, 0]), [19, 7]);
    let all = corners_of(&frame, 3, 2).unwrap();
    assert_eq!(all[0], [0, 1, 2, 10, 11, 12]);
    assert_eq!(all[2], [60, 61, 62, 70, 71, 72]);
    assert!(corners_of(&frame, 11, 2).is_none());
    let some = wanted_of(&frame, 3, 2, &[vec![0], vec![1], vec![2], vec![3]]).unwrap();
    assert_eq!(some, [vec![0], vec![8], vec![62], vec![77]]);
    assert!(wanted_of(&frame, 3, 9, &[vec![], vec![], vec![], vec![]]).is_none());
}

#[test]
fn pictures_are_added_up() {
    let mut a = Averages::new(2);
    let one = [vec![1, 2], vec![3, 4], vec![5, 6], vec![7, 8]];
    a.take(0, &one);
    a.take(SECOND / 2, &one);
    a.take(SECOND / 4, &one);
    assert_eq!(a.count, 3);
    assert_eq!(a.sums[3], [21, 24]);
    // A step back leaves no gap.
    assert_eq!(a.gaps, [SECOND / 2]);
}

#[test]
fn what_stands_out_of_its_neighbours() {
    // A single bright pixel in the middle of a flat region.
    let (w, h) = (15, 15);
    let mut s = vec![100u64; w * h];
    s[7 * w + 7] = 200;
    let out = highpass(&s, w, h);
    assert!(out[7 * w + 7] > 0);
    assert_eq!(out[0], 0);
    assert_eq!(pick(&out, w, h, 0), [7 * w + 7]);
    // What is as far out as the last that is kept is kept too.
    assert_eq!(pick(&out, w, h, 1), [6 * w + 7, 7 * w + 6, 7 * w + 7, 7 * w + 8, 8 * w + 7]);
}

#[test]
fn the_square_root_is_rounded_down() {
    assert_eq!(square_root(0), 0);
    assert_eq!(square_root(99), 9);
    assert_eq!(square_root(100), 10);
    assert_eq!(square_root(u128::MAX), u64::MAX as u128);
}

/// A square ring, drawn brighter than what is around it.
fn drawn(data: &mut [u8], stride: usize, left: usize, top: usize) {
    for k in 0..10 {
        for (x, y) in [(k, 0), (k, 9), (0, k), (9, k)] {
            data[(top + y) * stride + left + x] = 220;
        }
    }
}

/// What a programme looks like: flat, and never twice the same brightness.
fn programme(n: usize, logo: bool) -> Vec<u8> {
    let (w, h) = (128, 160);
    let mut data = vec![0u8; w * h];
    for y in 0..h {
        for x in 0..w {
            data[y * w + x] = ((x * (n % 7) / 3 + y * (n % 5) / 3 + 31 * n) % 97) as u8 + 40;
        }
    }
    if logo {
        drawn(&mut data, w, 96 + 11, 11);
    }
    data
}

/// Whether the logo is up in a recording of four hundred pictures, with one
/// run of commercials in it.
fn up(n: usize) -> bool {
    !(150..250).contains(&n)
}

#[test]
fn a_logo_is_found_and_its_break_with_it() {
    let opts = LogoOptions { mask_pixels: 60, ..LogoOptions::default() };
    let (cw, ch) = corner_size(128, 160).unwrap();
    assert_eq!((cw, ch), (32, 32));
    let mut first = Averages::new(cw * ch);
    for n in 0..400 {
        let data = programme(n, up(n));
        let frame = Luma { width: 128, height: 160, stride: 128, data: &data };
        first.take(n as i64 * SECOND / 2, &corners_of(&frame, cw, ch).unwrap());
    }
    let mut second = second_pass(&first, cw, ch, &opts).unwrap();
    // Five seconds of half a second each.
    assert_eq!(second.scorers[0].window, 10);
    let wanted: Vec<Vec<usize>> = second.scorers.iter().map(|s| s.wanted.clone()).collect();
    for n in 0..400 {
        let data = programme(n, up(n));
        let frame = Luma { width: 128, height: 160, stride: 128, data: &data };
        second.take(n as i64 * SECOND / 2, wanted_of(&frame, cw, ch, &wanted).unwrap());
    }
    let logo = second.settle(&opts).unwrap();
    assert_eq!(logo.corner, Corner::TopRight);
    assert_eq!(logo.absent.len(), 1);
    let (from, to) = logo.absent[0];
    assert!((from - 75 * SECOND).abs() <= 5 * SECOND);
    assert!((to - 125 * SECOND).abs() <= 5 * SECOND);
    assert!(logo.strength.energy > logo.strength.over);
}

#[test]
fn too_few_pictures_to_find_one_in() {
    let first = Averages::new(32 * 32);
    let r = second_pass(&first, 32, 32, &LogoOptions::default());
    assert!(matches!(r, Err(LogoError::TooFew(0))));
}

#[test]
fn nothing_behaves_like_one() {
    let mut first = Averages::new(32 * 32);
    for n in 0..20 {
        first.take(n * SECOND, &vec![vec![90; 32 * 32]; 4]);
    }
    let opts = LogoOptions::default();
    let second = second_pass(&first, 32, 32, &opts).unwrap();
    assert_eq!(second.settle(&opts).unwrap_err(), LogoError::Nothing(NoLogo));
}

#[test]
fn a_template_is_wholly_like_itself() {
    let (w, h) = (32, 32);
    let mut picture = vec![50u8; w * h];
    drawn(&mut picture, w, 11, 11);
    let sums: Vec<u64> = picture.iter().map(|&v| v as u64).collect();
    let t = template(Corner::TopLeft, &sums, w, h, 60);
    assert!(!t.mask.is_empty());
    let mut s = Scorer::new(t, w, h, 2);
    let seen: Vec<u8> = s.wanted.iter().map(|&i| picture[i]).collect();
    let likeness = s.take(seen.clone());
    assert!(likeness > WHOLE - 10 && likeness <= WHOLE);
    // A flat picture is like nothing.
    let flat = vec![50; seen.len()];
    s.take(flat.clone());
    assert_eq!(s.take(flat), 0);
}

#[test]
fn the_limits_come_from_the_median() {
    assert_eq!(thresholds(&[]), (10_000, 4_000));
    assert_eq!(thresholds(&[500_000, 0, 600_000, 500_000]), (200_000, 75_000));
    assert_eq!(thresholds(&[1_000, 2_000, 3_000]), (10_000, 4_000));
}

#[test]
fn the_ring_is_sized_from_the_gaps() {
    assert_eq!(ring_len(&[], 5 * SECOND), 10);
    assert_eq!(ring_len(&[SECOND, SECOND / 4, SECOND / 4], 5 * SECOND), 20);
    assert_eq!(ring_len(&[SECOND / 100], 5 * SECOND), 64);
    assert_eq!(ring_len(&[100 * SECOND], 5 * SECOND), 2);
    // No gap counts for less than a microsecond.
    assert_eq!(ring_len(&[0], 44_805), 63);
    assert_eq!(ring_len(&[706], 44_805), 63);
}

/// Scores every half second: `(seconds, score)` runs.
fn scored(runs: &[(i64, i64)]) -> (Vec<i64>, Vec<i64>) {
    let mut scores = Vec::new();
    for &(seconds, score) in runs {
        for _ in 0..2 * seconds {
            scores.push(score);
        }
    }
    let times = (0..scores.len() as i64).map(|k| k * SECOND / 2).collect();
    (times, scores)
}

#[test]
fn absences_are_read_off_the_scores() {
    let opts = LogoOptions::default();
    let (times, scores) =
        scored(&[(3, 0), (60, 500), (30, 0), (60, 500), (8, 0), (60, 500), (2, 0)]);
    let (absent, brief, transitions) = intervals_from(&times, &scores, 100, 50, &opts);
    assert_eq!(
        absent,
        [
            (0, 3 * SECOND),
            (63 * SECOND, 93 * SECOND),
            (221 * SECOND, 221 * SECOND + 3 * SECOND / 2),
        ]
    );
    assert_eq!(brief, [(153 * SECOND, 161 * SECOND)]);
    assert_eq!(transitions, 6);
}

#[test]
fn a_flash_of_the_logo_does_not_end_a_break() {
    let opts = LogoOptions::default();
    let (times, scores) = scored(&[(60, 500), (20, 0), (2, 500), (20, 0), (60, 500)]);
    let (absent, brief, transitions) = intervals_from(&times, &scores, 100, 50, &opts);
    assert_eq!(absent, [(60 * SECOND, 102 * SECOND)]);
    assert!(brief.is_empty());
    assert_eq!(transitions, 2);
}

#[test]
fn breaks_follow_one_another() {
    let opts = LogoOptions::default();
    let (times, scores) = scored(&[(60, 500), (40, 0), (60, 500), (40, 70), (30, 0), (60, 500)]);
    let (absent, _, _) = intervals_from(&times, &scores, 100, 50, &opts);
    assert_eq!(absent.len(), 2);
    assert!(absent[0].0 <= absent[0].1 && absent[0].1 <= absent[1].0);
    // Down in part for long, it went no earlier than the window reaches.
    assert_eq!(absent[1].0, 195 * SECOND);
}

#[test]
fn the_steadiest_corner_is_picked() {
    let opts = LogoOptions::default();
    let (times, logo) = scored(&[(200, 500_000), (60, 0), (240, 500_000)]);
    let (_, branding) = scored(&[(180, 500_000), (80, 0), (240, 500_000)]);
    let flicker: Vec<i64> = (0..times.len()).map(|k| if k % 3 > 0 { 0 } else { 400_000 }).collect();
    let nothing = vec![0; times.len()];
    assert!(reading_of(&times, &nothing, &opts).is_none());
    let one = reading_of(&times, &logo, &opts).unwrap();
    assert_eq!(one.absent, [(200 * SECOND, 260 * SECOND)]);
    assert_eq!(one.present, 880);
    let all = [nothing, branding, logo, flicker];
    let (k, reading) = pick_corner(&times, &all, &opts).unwrap();
    assert_eq!(k, 2);
    assert_eq!(reading.transitions, 2);
}

#[test]
fn a_long_recording_is_sampled() {
    let point = |k: i64| AccessPoint {
        time: k * SECOND / 2,
        lead_start: k * SECOND / 2,
        lead_indices: Vec::new(),
        droppable: false,
        pos: k * 188,
    };
    let outline = Outline {
        path: "a.ts".to_string(),
        video: VideoInfo {
            stream_index: 0,
            codec: "mpeg2video".to_string(),
            width: 1440,
            height: 1080,
            frame_rate: Ratio { num: 30_000, den: 1001 },
            base_rate: Ratio { num: 30_000, den: 1001 },
            has_b_frames: 1,
            time_base: Ratio { num: 1, den: 90_000 },
            sample_aspect_ratio: Ratio { num: 4, den: 3 },
            pulldown: false,
            variable_rate: false,
            field_order: 0,
            bit_rate: None,
        },
        audio: None,
        audios: Vec::new(),
        captions: Vec::new(),
        graphics: Vec::new(),
        subpictures: Vec::new(),
        dropped: Vec::new(),
        duration: 2400 * SECOND,
        start_time: 0,
        byte_seekable: true,
        on_a_ts: true,
        joins: Vec::new(),
        head: None,
    };
    let mut src = outline.into_source();
    src.points = (0..4800).map(point).collect();
    match template_reach(&src, false) {
        Reach::Stretches { from, each } => {
            assert_eq!(each, 75);
            assert_eq!(from.len(), 24);
            assert_eq!(from[1], 100 * SECOND);
        }
        Reach::Whole => panic!("read whole"),
    }
    assert!(matches!(template_reach(&src, true), Reach::Whole));
    src.points[7].pos = -1;
    assert!(matches!(template_reach(&src, false), Reach::Whole));
    src.points.truncate(5);
    assert!(matches!(template_reach(&src, false), Reach::Whole));
}

#[test]
fn the_biggest_mark_is_kept() {
    // Two pixels apart by more than the reach, and a run of three that is not.
    let picked = [0, 5, 50, 52, 75];
    let mut best = largest_cluster(&picked, 20, 10);
    best.sort_unstable();
    assert_eq!(best, [50, 52, 75]);
    assert!(largest_cluster(&[], 20, 10).is_empty());
    // Of two the same size, the one found first.
    assert_eq!(largest_cluster(&[0, 19], 20, 10), [0]);
}

/// A last row that stops where the picture does is a row.
#[test]
fn the_last_row_may_be_short() {
    let data: Vec<u8> = (0..19).collect();
    let frame = Luma { width: 3, height: 4, stride: 5, data: &data[..18] };
    assert_eq!(crop(&frame, Corner::BottomRight, 2, 2), [11, 12, 16, 17]);
}
