use smartcut_core::playback_audio::output::{
    candidates, cannot_open, fallback_order, fixed_period, Config,
};
use smartcut_core::playback_audio::ring::{Bite, Feed};
use smartcut_core::playback_audio::{
    capacity, frame_window, laid_out, metered_part, resampled_room, scan, seek_early, Fold, Levels,
    Measured, Play, Volume, METERED,
};
use smartcut_core::time::SECOND;

const RATE: u32 = 48_000;

/// One frame of sound.
const FRAME: i64 = SECOND / 48_000;

/// A moment, in thousandths of a second.
fn ms(t: i64) -> i64 {
    t * SECOND / 1000
}

/// A ring of stereo bites, each `frames` long and due at the given times.
fn ring(bites: &[(i64, usize)]) -> Feed {
    let mut q = Feed::new();
    for &(due, frames) in bites {
        q.push(
            vec![1f32.to_bits(); frames * 2],
            Bite { frames, channels: 2, peaks: [0; METERED], due },
        );
    }
    q
}

#[test]
fn a_late_start_is_dropped_up_to_now() {
    // The first sound arrived 300 ms after playback began.
    let mut q = ring(&[(0, 1024), (1024 * FRAME, 24_000)]);
    let lead = q.settle(ms(300), RATE, 2, 960);
    assert_eq!(lead, 0);
    assert!((q.due().unwrap() - ms(300)).abs() < FRAME);
    assert_eq!(q.samples.len(), q.bites.iter().map(|b| b.frames * 2).sum::<usize>());
    assert_eq!(q.tally.dropped, 14_400);
}

#[test]
fn inside_the_slack_nothing_moves() {
    let mut q = ring(&[(0, 1024)]);
    assert_eq!(q.settle(ms(30), RATE, 2, 960), 0);
    assert_eq!(q.settle(-ms(30), RATE, 2, 960), 0);
    assert_eq!(q.bites.front().unwrap().frames, 1024);
}

#[test]
fn a_gap_in_the_recording_is_waited_out() {
    // 100 ms missing between two frames: the second is early by that much.
    let mut q = ring(&[(ms(200), 480)]);
    assert_eq!(q.settle(ms(100), RATE, 2, 960), 960);
    assert_eq!(q.settle(ms(180), RATE, 2, 960), 0);
}

#[test]
fn a_short_wait_is_shorter_than_the_buffer() {
    let mut q = ring(&[(ms(50), 480)]);
    assert_eq!(q.settle(0, RATE, 2, 4800), 2400);
    assert_eq!((q.tally.waited, q.tally.waits), (2400, 1));
    assert_eq!((q.tally.dropped, q.tally.drops), (0, 0));
}

#[test]
fn a_buffer_is_filled_from_the_ring() {
    let mut q = Feed::new();
    let bite = |peak: u32, due| {
        let mut peaks = [0; METERED];
        peaks[0] = peak;
        Bite { frames: 2, channels: 2, peaks, due }
    };
    q.push(vec![1, 2, 3, 4], bite(7, 0));
    q.push(vec![5, 6, 7, 8], bite(9, 2 * FRAME));
    let mut levels = Levels::new();
    // One frame of silence in front, and one bite of sound and a half.
    assert_eq!(q.play(8, 1, RATE, 2, &mut levels), [0, 0, 1, 2, 3, 4, 5, 6]);
    assert_eq!(levels.take(), [9, 0]);
    assert_eq!(q.bites.len(), 1);
    assert_eq!(q.due(), Some(3 * FRAME));
    // The ring runs dry, and the rest is silent.
    assert_eq!(q.play(6, 0, RATE, 2, &mut levels), [7, 8, 0, 0, 0, 0]);
    assert_eq!(q.due(), None);
}

#[test]
fn room_in_the_ring() {
    assert_eq!(capacity(48_000, 2), 96_000);
    let q = ring(&[(0, 4)]);
    assert!(q.has_room(2, 10));
    assert!(!q.has_room(3, 10));
    // Nothing is too large for an empty one.
    assert!(Feed::new().has_room(100, 10));
}

#[test]
fn folding_is_only_ever_down() {
    let mut f = Fold { channels: 0 };
    assert_eq!(f.of(6), 6);
    f.set(2);
    assert_eq!(f.get(), 2);
    assert_eq!((f.of(6), f.of(2), f.of(1)), (2, 2, 1));
}

#[test]
fn the_meter_holds_the_loudest() {
    let mut l = Levels::new();
    assert!(l.take().is_empty());
    let mut out = vec![0; METERED];
    scan(&[5, 1, 3, 9, 4], 2, &mut out);
    assert_eq!(&out[..2], &[5, 9]);
    let mut peaks = [0; METERED];
    peaks[..2].copy_from_slice(&out[..2]);
    l.eat(&Bite { frames: 1, channels: 2, peaks, due: 0 });
    peaks[0] = 6;
    peaks[1] = 2;
    l.eat(&Bite { frames: 1, channels: 2, peaks, due: 0 });
    assert_eq!(l.take(), [6, 9]);
    assert_eq!(l.take(), [0, 0]);
    l.clear();
    assert!(l.take().is_empty());
}

#[test]
fn the_part_of_a_frame_inside_a_range() {
    // A thousand samples from a second in.
    let at = |start, end| frame_window(1000, RATE, SECOND, start, end);
    assert_eq!(at(0, 10 * SECOND), Some((0, 1000)));
    assert_eq!(at(SECOND + 100 * FRAME, 10 * SECOND), Some((100, 1000)));
    assert_eq!(at(0, SECOND + 10 * FRAME), Some((0, 10)));
    assert_eq!(at(SECOND + 1000 * FRAME, 10 * SECOND), None);
    assert_eq!(at(0, SECOND), None);
}

#[test]
fn a_resampler_needs_room() {
    assert_eq!(resampled_room(1024, 44_100, 48_000), 1115 + 32);
    assert_eq!(resampled_room(10, 0, 1), 42);
}

#[test]
fn ranges_are_laid_out_on_one_clock() {
    let ranges = [(0, SECOND), (2 * SECOND, 4 * SECOND), (10 * SECOND, 11 * SECOND)];
    let (plays, end) = laid_out(&ranges, 3 * SECOND, 5);
    assert_eq!(
        plays,
        [
            Play { opens: 2 * SECOND, start: 3 * SECOND, end: 4 * SECOND, here: 5 },
            Play {
                opens: 10 * SECOND,
                start: 10 * SECOND,
                end: 11 * SECOND,
                here: SECOND + 5
            },
        ]
    );
    assert_eq!(end, 2 * SECOND + 5);
}

#[test]
fn seeks_go_early() {
    assert_eq!(seek_early(3 * SECOND, SECOND, SECOND), 3_000_000);
    assert_eq!(seek_early(0, SECOND, 0), 0);
}

#[test]
fn a_moment_is_metered_over_its_own_samples() {
    let part = |t| metered_part(1000, 1000, RATE, t, SECOND, SECOND + 100 * FRAME);
    assert_eq!(part(SECOND + 100 * FRAME), Measured::Past);
    assert_eq!(part(SECOND - 1000 * FRAME), Measured::Before);
    assert_eq!(part(SECOND - 40 * FRAME), Measured::Inside(40, 140));
    assert_eq!(part(SECOND + 40 * FRAME), Measured::Inside(0, 60));
}

#[test]
fn outputs_are_tried_in_turn() {
    let devices: Vec<String> =
        ["hw", "sysdefault", "pulse", "pipewire", "pulse"].map(String::from).to_vec();
    assert_eq!(fallback_order(&devices), [3, 2, 4, 1]);
    assert_eq!(fixed_period(48_000), 960);
    assert_eq!(fixed_period(8_000), 256);
    let config = |rate, channels, period| Config { rate, channels, period };
    assert_eq!(
        candidates((48_000, 2), Some((44_100, 2))),
        [
            config(48_000, 2, Some(960)),
            config(44_100, 2, Some(882)),
            config(48_000, 2, None),
            config(44_100, 2, None),
        ]
    );
    assert_eq!(candidates((48_000, 2), Some((48_000, 2))).len(), 2);
    assert_eq!(candidates((48_000, 2), None).len(), 2);
}

#[test]
fn an_output_that_will_not_open() {
    assert_eq!(cannot_open((48_000, 2), None), "no audio output device");
    assert_eq!(
        cannot_open((48_000, 2), Some("busy")),
        "cannot open audio output for 48000Hz/2ch (tried default, pipewire, pulse, sysdefault): busy"
    );
}

#[test]
fn a_gain_is_held_between_nought_and_one() {
    let bits = |g: f32| g.to_bits();
    let mut v = Volume::default();
    assert_eq!(v.get(), bits(1.0));
    v.set(bits(0.25));
    for asked in [f32::NAN, -f32::NAN] {
        v.set(bits(asked));
        assert_eq!(v.get(), bits(0.25));
    }
    for asked in [-3.0, -0.0, 0.0, 0.5, 1.0, 1.5, f32::INFINITY, f32::NEG_INFINITY, f32::MIN_POSITIVE]
    {
        v.set(bits(asked));
        assert_eq!(v.get(), bits(asked.clamp(0.0, 1.0)));
        assert_eq!(Volume::new(bits(asked)), v);
    }
    assert_eq!(Volume::new(bits(f32::NAN)).get(), 0);
}
