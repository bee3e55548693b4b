use smartcut_core::logo::template::Luma;
use smartcut_core::thumbs::cuts::{cut_window, refine_window, Look, Sightings, Window};
use smartcut_core::thumbs::{
    distance, mark_scenes, signature, Collector, Thumb, ThumbOptions, Track, DIFFERENT,
};
use smartcut_core::time::SECOND;
use smartcut_core::AccessPoint;

fn track(times: &[i64], scenes: &[i64]) -> Track {
    Track {
        width: 192,
        interval: 0,
        covered: None,
        thumbs: times.iter().map(|&time| Thumb { time, jpeg: Vec::new() }).collect(),
        scenes: scenes.to_vec(),
        threshold: 0,
        typical: 0,
    }
}

#[test]
fn the_nearest_picture_is_found() {
    let t = track(&[0, 10, 20], &[]);
    assert_eq!(t.nearest(-5).unwrap().time, 0);
    assert_eq!(t.nearest(14).unwrap().time, 10);
    assert_eq!(t.nearest(15).unwrap().time, 10);
    assert_eq!(t.nearest(16).unwrap().time, 20);
    assert_eq!(t.nearest(500).unwrap().time, 20);
    assert!(track(&[], &[]).nearest(0).is_none());
}

#[test]
fn scenes_on_either_side() {
    let t = track(&[], &[SECOND, 2 * SECOND, 3 * SECOND]);
    assert_eq!(t.scene_after(2 * SECOND), Some(3 * SECOND));
    assert_eq!(t.scene_before(2 * SECOND), Some(SECOND));
    assert_eq!(t.scene_after(3 * SECOND), None);
    assert_eq!(t.scene_before(SECOND), None);
    // A hair before one is not yet at it.
    assert_eq!(t.scene_after(2 * SECOND - 705_601), Some(2 * SECOND));
    assert_eq!(t.scene_after(2 * SECOND - 705_600), Some(3 * SECOND));
}

fn flat(v: u8, w: usize, h: usize) -> Vec<u8> {
    vec![v; w * h]
}

#[test]
fn a_signature_is_block_averages() {
    let (w, h) = (64, 36);
    let mut data = flat(10, w, h);
    // The top left cell is brighter.
    for y in 0..4 {
        for x in 0..4 {
            data[y * w + x] = 200;
        }
    }
    let s = signature(&Luma { width: w, height: h, stride: w, data: &data });
    assert_eq!(s.len(), 144);
    assert_eq!(s[0], 200);
    assert!(s[1..].iter().all(|&v| v == 10));
    // Pixels that are not there come to nothing.
    let s = signature(&Luma { width: w, height: h, stride: w, data: &data[1..] });
    assert!(s.iter().all(|&v| v == 0));
}

#[test]
fn pictures_differ_by_their_cells() {
    assert_eq!(distance(&[0; 144], &[255; 144]), DIFFERENT);
    assert_eq!(distance(&[7; 144], &[7; 144]), 0);
    let mut one = [7u8; 144];
    one[3] = 9;
    assert_eq!(distance(&[7; 144], &one), 2_000_000);
}

#[test]
fn a_cut_stands_above_what_is_typical() {
    let opts = ThumbOptions::default();
    let quiet = 100_000_000;
    let mut diffs: Vec<(i64, i64)> = (1..101).map(|k| (k * SECOND / 2, quiet)).collect();
    diffs[40].1 = DIFFERENT / 2;
    let (scenes, threshold, typical) = mark_scenes(&diffs, 50 * SECOND, &opts);
    assert_eq!(scenes, [41 * SECOND / 2]);
    assert_eq!(typical, quiet);
    assert_eq!(threshold, opts.floor);
    // Nothing to compare.
    let (scenes, threshold, typical) = mark_scenes(&[], 50 * SECOND, &opts);
    assert!(scenes.is_empty());
    assert_eq!((threshold, typical), (opts.floor, 0));
}

#[test]
fn churning_material_raises_the_bar() {
    let opts = ThumbOptions { over_typical: 1_000_000, ..ThumbOptions::default() };
    // Sixty seconds leave room for twenty scenes.
    let diffs: Vec<(i64, i64)> = (0..120).map(|k| (k * SECOND / 2, 3_000_000_000 + k)).collect();
    let (scenes, threshold, _) = mark_scenes(&diffs, 60 * SECOND, &opts);
    assert_eq!(scenes.len(), 20);
    assert_eq!(threshold, 3_000_000_100);
    // As near as they like, and then room for one alone.
    let near = ThumbOptions { min_spacing: 0, ..opts };
    assert_eq!(mark_scenes(&diffs, 60 * SECOND, &near).0.len(), 60);
    let below = ThumbOptions { min_spacing: -1, ..opts };
    assert_eq!(mark_scenes(&diffs, 60 * SECOND, &below).0.len(), 1);
    assert_eq!(mark_scenes(&diffs, 0, &near).0.len(), 1);
}

/// Scenes are never nearer, on average, than was asked, though pictures differ
/// as much as each other.
#[test]
fn equal_cuts_are_no_way_round_the_spacing() {
    let opts = ThumbOptions::default();
    let mut diffs: Vec<(i64, i64)> = (0..6).map(|k| (k * SECOND / 4, DIFFERENT / 100)).collect();
    diffs.extend((6..10).map(|k| (k * SECOND / 4, DIFFERENT / 10 * 9)));
    let (scenes, threshold, _) = mark_scenes(&diffs, 3 * SECOND, &opts);
    assert!(scenes.is_empty());
    assert_eq!(threshold, DIFFERENT / 10 * 9 + 1);
    // Twelve seconds have room for all four.
    let (scenes, threshold, _) = mark_scenes(&diffs, 12 * SECOND, &opts);
    assert_eq!(scenes.len(), 4);
    assert_eq!(threshold, opts.floor);
    // One that stands above the rest is the one.
    diffs[7].1 += 1;
    assert_eq!(mark_scenes(&diffs, 3 * SECOND, &opts).0, [7 * SECOND / 4]);
}

#[test]
fn pictures_are_kept_apart() {
    let opts = ThumbOptions { interval: SECOND, ..ThumbOptions::default() };
    let mut c = Collector::new(100 * SECOND, &opts);
    assert_eq!(c.interval(), SECOND);
    assert!(!c.feed(-2 * SECOND, vec![0; 144]));
    assert!(c.feed(0, vec![0; 144]));
    c.hold(0, vec![1]);
    assert!(!c.feed(SECOND / 2, vec![0; 144]));
    assert!(c.feed(SECOND, vec![255; 144]));
    c.hold(SECOND, vec![2]);
    let batch = c.take_new();
    assert_eq!(batch.thumbs.len(), 2);
    assert_eq!(batch.covered, SECOND);
    let shared = batch.into_track();
    assert_eq!(shared.covered, Some(SECOND));
    assert!(!c.feed(3 * SECOND / 2, vec![255; 144]));
    assert!(c.feed(2 * SECOND, vec![255; 144]));
    let done = c.finish();
    assert!(done.thumbs.is_empty());
    assert_eq!(done.covered, None);
    assert_eq!(done.scenes, [SECOND]);
}

#[test]
fn a_long_recording_widens_its_spacing() {
    let opts = ThumbOptions { max_thumbs: 10, ..ThumbOptions::default() };
    assert_eq!(Collector::new(100 * SECOND, &opts).interval(), 10 * SECOND);
}

fn seen(pictures: &[(i64, u8)]) -> Sightings {
    let mut s = Sightings::new();
    for &(t, v) in pictures {
        s.see(t, vec![v; 144]);
    }
    s
}

#[test]
fn the_nearest_cut_is_taken_and_not_the_strongest() {
    let s = seen(&[(30, 120), (10, 0), (20, 0), (40, 120), (50, 255)]);
    assert_eq!(s.seen.iter().map(|x| x.time).collect::<Vec<_>>(), [10, 20, 30, 40, 50]);
    assert_eq!(s.nearest_cut(32, 1_000_000_000), 30);
    assert_eq!(s.nearest_cut(48, 1_000_000_000), 50);
    assert_eq!(s.strongest_cut(99), 50);
    // No cut worth the name.
    assert_eq!(s.nearest_cut(32, DIFFERENT), 32);
    assert_eq!(seen(&[(10, 3)]).strongest_cut(99), 99);
}

fn points(times: &[i64]) -> Vec<AccessPoint> {
    times
        .iter()
        .map(|&time| AccessPoint {
            time,
            lead_start: time,
            lead_indices: Vec::new(),
            droppable: false,
            pos: -1,
        })
        .collect()
}

#[test]
fn a_window_is_read_from_an_entry_point() {
    let p = points(&[0, 500, 1000]);
    let w = cut_window(&p, 900, 200, 30);
    assert_eq!(w.entry, 500);
    assert_eq!(w.look(660), Look::Pass);
    assert_eq!(w.look(670), Look::Keep);
    assert_eq!(w.look(1130), Look::Keep);
    assert_eq!(w.look(1131), Look::Stop);
    // At the entry point itself.
    assert_eq!(cut_window(&p, 700, 200, 30).entry, 500);

    let w = refine_window(&p, 1000, 30).unwrap();
    assert_eq!(w.entry, 500);
    assert_eq!(w.look(1015), Look::Keep);
    assert_eq!(w.look(1016), Look::Stop);
    assert!(refine_window(&p, 10, 30).is_none());
}

#[test]
fn a_window_is_read_from_ahead_of_its_entry() {
    let at = |entry: i64| Window { entry, twice_from: 0, twice_until: 0 };
    assert_eq!(at(5 * SECOND).target(SECOND, SECOND / 2), 4_500_000);
    assert_eq!(at(SECOND).target(3 * SECOND, SECOND / 2), 500_000);
    assert_eq!(at(0).target(0, -1411), -1);
}
