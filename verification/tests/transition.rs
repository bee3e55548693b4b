use smartcut_core::time::SECOND;
use smartcut_core::transition::{
    showing, Crossing, Curve, Easing, Mode, Shade, Side, Transition, LONGEST, SHOW_IN, WHOLE,
};

/// The two timings, which are what the kind decides. A fade takes half
/// from each side and the file keeps its length; a dissolve takes the
/// whole of it from both and the file loses that much.
#[test]
fn a_fade_and_a_dissolve_take_differently() {
    let fade = Transition {
        kind: Crossing::Fade(Shade::Black),
        seconds: 2 * SECOND,
        easing: Easing::default(),
        overlay: None,
    };
    assert_eq!(fade.takes(), (SECOND, SECOND));
    let dissolve = Transition {
        kind: Crossing::Dissolve,
        ..fade.clone()
    };
    assert_eq!(dissolve.takes(), (2 * SECOND, 2 * SECOND));
    assert_eq!(Transition::default().takes(), (0, 0));
}

/// The overlay is never cut on or off: it is at nothing at both ends of
/// the crossing and at full strength across its middle.
#[test]
fn an_overlay_comes_up_and_goes_down() {
    assert_eq!(showing(0), 0);
    assert_eq!(showing(WHOLE), 0);
    assert_eq!(showing(WHOLE / 2), WHOLE);
    assert_eq!(showing(SHOW_IN), WHOLE);
    assert_eq!(showing(WHOLE - SHOW_IN), WHOLE);
    assert_eq!(showing(SHOW_IN / 2), WHOLE / 2);
}

/// Every name a project file can hold reads back as the thing it names.
#[test]
fn every_name_round_trips() {
    for kind in [
        Crossing::Hard,
        Crossing::Fade(Shade::Black),
        Crossing::Fade(Shade::White),
        Crossing::Dissolve,
        Crossing::Wipe(Side::Left),
        Crossing::Wipe(Side::Right),
        Crossing::Wipe(Side::Top),
        Crossing::Wipe(Side::Bottom),
        Crossing::Slide(Side::Left),
        Crossing::Slide(Side::Right),
        Crossing::Slide(Side::Top),
        Crossing::Slide(Side::Bottom),
    ] {
        assert_eq!(Crossing::parse(kind.as_str()), Some(kind));
    }
}

#[test]
fn a_name_nobody_uses_is_no_crossing() {
    assert_eq!(Crossing::parse(""), Some(Crossing::Hard));
    assert_eq!(Crossing::parse("fade"), Some(Crossing::Fade(Shade::Black)));
    assert_eq!(Crossing::parse("spin"), None);
    assert!(Crossing::Wipe(Side::Top).overlaps());
    assert!(!Crossing::Fade(Shade::White).overlaps());
    assert!(!Crossing::Hard.overlaps());
}

#[test]
fn an_easing_is_read_by_name() {
    let named = Easing::parse("elastic", "out-in");
    assert_eq!((named.curve, named.mode), (Curve::Elastic, Mode::OutIn));
    assert_eq!(Easing::parse("wobbly", ""), Easing::default());
    assert_eq!(Easing::parse("sine", "inout").mode, Mode::InOut);
}

/// Studio black and white, and neutral chroma, at two depths.
#[test]
fn a_shade_stays_in_studio_range() {
    assert_eq!(Shade::Black.yuv(8), (16, 128));
    assert_eq!(Shade::White.yuv(8), (235, 128));
    assert_eq!(Shade::Black.yuv(10), (64, 512));
    assert_eq!(Shade::White.yuv(10), (940, 512));
}

#[test]
fn a_transition_stops_at_the_longest() {
    let long = Transition {
        kind: Crossing::Dissolve,
        seconds: 2 * LONGEST,
        easing: Easing::default(),
        overlay: None,
    };
    assert!(long.happens());
    assert_eq!(long.takes(), (LONGEST, LONGEST));
    let none = Transition { seconds: 0, ..long };
    assert!(!none.happens());
    assert_eq!(none.takes(), (0, 0));
}

/// What is shown at a moment, of a curve.
fn shown(mode: Mode, t: f64, curve: impl Fn(f64) -> f64) -> f64 {
    let leg = Easing { curve: Curve::Straight, mode }.leg(t >= 0.5);
    let v = curve(leg.by as f64 * t + leg.from as f64);
    (leg.times as f64 * v + leg.plus as f64) / 2.0
}

#[test]
fn every_mode_runs_from_end_to_end() {
    for mode in [Mode::In, Mode::Out, Mode::InOut, Mode::OutIn] {
        let cubic = |t: f64| t * t * t;
        assert_eq!(shown(mode, 0.0, cubic), 0.0);
        assert_eq!(shown(mode, 1.0, cubic), 1.0);
        for k in 0..=10 {
            let t = k as f64 / 10.0;
            assert!((shown(mode, t, |x| x) - t).abs() < 1e-9);
            assert!((0.0..=1.0).contains(&shown(mode, t, cubic)));
        }
    }
    // Slow at the start, slow at the end, slow at both and fast at both.
    let square = |t: f64| t * t;
    assert_eq!(shown(Mode::In, 0.25, square), 0.0625);
    assert_eq!(shown(Mode::Out, 0.25, square), 0.4375);
    assert_eq!(shown(Mode::InOut, 0.25, square), 0.125);
    assert_eq!(shown(Mode::InOut, 0.75, square), 0.875);
    assert_eq!(shown(Mode::OutIn, 0.25, square), 0.375);
    assert_eq!(shown(Mode::OutIn, 0.75, square), 0.625);
}
