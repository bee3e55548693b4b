use smartcut_core::preview::glance::{
    seek_for, Feed, Glance, Landing, Pick, Seek, Sweep, Swept, GLANCE, SWEEP, WAIT,
};
use smartcut_core::preview::strip::{all_on_points, runs, Slots};
use smartcut_core::preview::{
    entry_before, gate, jpeg_size, landed_late, on_point, straddle, walk_target, Gate, Straddle,
    FRONT,
};
use smartcut_core::time::SECOND;
use smartcut_core::{AccessPoint, Ratio};

const FD: i64 = SECOND / 30;

fn points(times: &[i64]) -> Vec<AccessPoint> {
    times
        .iter()
        .map(|&time| AccessPoint {
            time,
            lead_start: time,
            lead_indices: Vec::new(),
            droppable: false,
            pos: -1,
        })
        .collect()
}

#[test]
fn moments_on_entry_points() {
    let p = points(&[0, SECOND, 2 * SECOND]);
    assert!(on_point(&p, SECOND, FD));
    assert!(on_point(&p, SECOND - FD / 2, FD));
    assert!(!on_point(&p, SECOND - FD, FD));
    assert!(!on_point(&[], 0, FD));
    assert!(all_on_points(&p, &[0, 2 * SECOND], FD));
    assert!(!all_on_points(&p, &[0, SECOND / 2], FD));
    assert_eq!(entry_before(&p, SECOND - 800), 0);
    assert_eq!(entry_before(&p, SECOND - 700), SECOND);
    // A microsecond is a little over 705 ticks.
    assert_eq!(entry_before(&p, SECOND - 705), SECOND);
    assert_eq!(entry_before(&p, SECOND - 706), 0);
    assert_eq!(seek_for(Landing::At(705), 0, SECOND, false), Seek::Stay);
    assert_eq!(seek_for(Landing::At(706), 0, SECOND, false), Seek::To(1));
    assert_eq!(straddle(None, SECOND - 706, SECOND), Straddle::Keep);
    assert_eq!(straddle(None, SECOND - 705, SECOND), Straddle::This);
    assert_eq!(entry_before(&p, 9 * SECOND), 2 * SECOND);
    assert_eq!(entry_before(&[], 9 * SECOND), 0);
}

#[test]
fn a_walk_starts_ahead_of_what_it_wants() {
    let p = points(&[SECOND, 2 * SECOND]);
    assert_eq!(walk_target(&p, 5 * SECOND, SECOND, SECOND / 2), 4_500_000);
    // The front of the file, where that is no further than the first point.
    assert_eq!(walk_target(&p, 2 * SECOND, SECOND, 0), FRONT);
    assert_eq!(walk_target(&[], 5 * SECOND, SECOND, 0), FRONT);
    assert!(landed_late(None, 0, FD));
    assert!(!landed_late(Some(FD / 2), 0, FD));
    assert!(landed_late(Some(FD), 0, FD));
}

#[test]
fn pictures_come_out_in_shape() {
    assert_eq!(jpeg_size(1440, 1080, Ratio { num: 4, den: 3 }, 192), (192, 108));
    assert_eq!(jpeg_size(1440, 1080, Ratio { num: 4, den: 3 }, 4000), (1920, 1080));
    assert_eq!(jpeg_size(640, 480, Ratio { num: 1, den: 1 }, 3), (16, 16));
}

#[test]
fn pictures_inside_the_range_are_let_through() {
    assert_eq!(gate(SECOND, 0, 2 * SECOND, FD), Gate::Open);
    assert_eq!(gate(-FD, 0, 2 * SECOND, FD), Gate::Before);
    assert_eq!(gate(-FD / 2, 0, 2 * SECOND, FD), Gate::Open);
    assert_eq!(gate(2 * SECOND + FD, 0, 2 * SECOND, FD), Gate::Past);
}

#[test]
fn the_nearer_of_two_pictures_is_shown() {
    assert_eq!(straddle(None, SECOND - FD, SECOND), Straddle::Keep);
    assert_eq!(straddle(Some(SECOND - 10_000), SECOND + FD, SECOND), Straddle::Kept);
    assert_eq!(straddle(Some(SECOND - FD), SECOND + 10_000, SECOND), Straddle::This);
    assert_eq!(straddle(None, SECOND + FD, SECOND), Straddle::This);
}

#[test]
fn a_strip_is_decoded_in_runs() {
    assert!(runs(&[]).is_empty());
    assert_eq!(runs(&[5 * SECOND]), [(0, 1)]);
    // A frame apart, a jump, and back.
    let t = [0, FD, 2 * FD, 10 * SECOND, 10 * SECOND + FD, SECOND];
    assert_eq!(runs(&t), [(0, 3), (3, 5), (5, 6)]);
    // Evenly apart is no jump, until a seek is cheaper.
    assert_eq!(runs(&[0, SECOND, 2 * SECOND]), [(0, 3)]);
    assert_eq!(runs(&[0, 3 * SECOND, 6 * SECOND]), [(0, 1), (1, 2), (2, 3)]);
}

#[test]
fn runs_cover_the_strip() {
    let t: Vec<i64> = (0..50).map(|k| (k * k % 17) * SECOND / 4).collect();
    let mut at = 0;
    for (a, b) in runs(&t) {
        assert_eq!(a, at);
        assert!(a < b);
        at = b;
    }
    assert_eq!(at, 50);
}

#[test]
fn each_slot_takes_the_nearest_picture() {
    let mut s = Slots::new(vec![0, FD, 2 * FD], FD);
    assert_eq!(s.offer(FD / 4).unwrap(), [true, true, false]);
    assert_eq!(s.offer(0).unwrap(), [true, false, false]);
    assert_eq!(s.offer(FD).unwrap(), [false, true, true]);
    assert!(s.offer(4 * FD).is_none());
    assert_eq!(s.have, [Some(0), Some(FD), Some(FD)]);
    assert_eq!(s.repeats(), [false, false, true]);
    assert!(s.began_late(None));
    assert!(!s.began_late(Some(0)));
    assert!(s.began_late(Some(SECOND)));
}

#[test]
fn one_picture_in_two_slots_is_a_repeat() {
    // Slots closer than the recording's pictures are.
    let mut s = Slots::new(vec![0, FD / 8], FD);
    s.offer(0).unwrap();
    s.offer(FD / 8).unwrap();
    assert_eq!(s.repeats(), [false, true]);
}

#[test]
fn where_a_glance_lands() {
    let d = 100 * SECOND;
    assert_eq!(seek_for(Landing::Fraction(500_000), 0, d, false), Seek::To(50_000_000));
    assert_eq!(seek_for(Landing::Fraction(2_000_000), 0, d, false), Seek::To(100_000_000));
    assert_eq!(seek_for(Landing::Fraction(0), 0, d, false), Seek::Stay);
    assert_eq!(seek_for(Landing::Fraction(0), 0, d, true), Seek::Rewind);
    assert_eq!(seek_for(Landing::At(3 * SECOND), SECOND, d, false), Seek::To(4_000_000));
    assert_eq!(seek_for(Landing::At(-SECOND), SECOND, d, false), Seek::Stay);
}

#[test]
fn a_glance_waits_for_a_key_picture() {
    let mut g = Glance::new();
    assert_eq!(g.packet(false), Feed::Pass);
    assert_eq!(g.packet(true), Feed::Decode);
    assert_eq!(g.packet(false), Feed::Decode);
    // One that leans on another is kept in case no better comes.
    assert_eq!(g.picture(false), Pick::Spare);
    assert_eq!(g.picture(false), Pick::Drop);
    assert_eq!(g.picture(true), Pick::Answer);
    // It waits so long for a key, and no longer.
    let mut g = Glance::new();
    for _ in 0..WAIT {
        assert_eq!(g.packet(false), Feed::Pass);
    }
    assert_eq!(g.packet(false), Feed::Decode);
    // And reads so far, and no further.
    let mut g = Glance::new();
    for _ in 1..GLANCE {
        assert_eq!(g.packet(true), Feed::Decode);
    }
    assert_eq!(g.packet(true), Feed::Stop);
}

#[test]
fn a_sweep_keeps_one_picture_for_each_cell() {
    assert!(Sweep::new(10, 10, 1, 5).is_none());
    assert!(Sweep::new(0, 10, 1, 0).is_none());
    let mut s = Sweep::new(0, 10 * SECOND, 2 * SECOND, 3).unwrap();
    assert_eq!(s.target(SECOND), 1_000_000);
    assert_eq!(s.packet(false), Feed::Pass);
    assert_eq!(s.packet(true), Feed::Decode);
    assert_eq!(s.picture(-SECOND), Swept::Pass);
    assert_eq!(s.picture(0), Swept::Keep);
    assert_eq!(s.picture(SECOND), Swept::Pass);
    assert_eq!(s.picture(2 * SECOND), Swept::Keep);
    assert_eq!(s.picture(11 * SECOND), Swept::Past);
    assert_eq!(s.picture(5 * SECOND), Swept::Last);
    let mut s = Sweep::new(0, SECOND, 0, 4).unwrap();
    assert_eq!((s.wide, s.over), (SECOND, 4));
    for _ in 1..SWEEP {
        assert_eq!(s.packet(true), Feed::Decode);
    }
    assert_eq!(s.packet(true), Feed::Stop);
}
