use smartcut_core::caption::Run;
use smartcut_core::subs::{
    discard, kind_of, palette_text, rgba, tracks, Discard, Drawn, Event, Filling, Heed, Kind,
    NoTrack, PacketFacts, Shown, Window, AHEAD, LOOKBACK,
};
use smartcut_core::time::SECOND;
use smartcut_core::{CaptionInfo, GraphicsInfo, Ratio, SubpictureInfo, TextFormat, TextKind};

const CLOCK: Ratio = Ratio { num: 1, den: 90_000 };

#[test]
fn every_kind_of_subtitle_is_a_track() {
    let captions = [CaptionInfo {
        stream_index: 2,
        pid: 0x130,
        language: Some("jpn".to_string()),
        time_base: CLOCK,
        kind: TextKind::Caption,
        format: TextFormat::Arib,
        base: 0,
    }];
    let graphics =
        [GraphicsInfo { stream_index: 3, pid: 0x1200, language: None, time_base: CLOCK }];
    let subpictures = [SubpictureInfo { id: 0x20, language: None }];
    let all = tracks(&captions, &graphics, &subpictures);
    assert_eq!(all.iter().map(|t| t.id).collect::<Vec<_>>(), [0x130, 0x1200, 0x20]);
    assert_eq!(all[0].language.as_deref(), Some("jpn"));
    assert_eq!(kind_of(&all, 0x130), Ok(Kind::Caption));
    assert_eq!(kind_of(&all, 0x1200), Ok(Kind::Graphics));
    assert_eq!(kind_of(&all, 0x20), Ok(Kind::Subpicture));
    let e = kind_of(&all, 7).unwrap_err();
    assert_eq!(e, NoTrack(7));
    assert_eq!(e.message(), "no subtitle track 7 in this recording");
}

fn text(s: &str) -> Vec<Run> {
    vec![Run {
        x: 0,
        y: 0,
        width: 36,
        height: 36,
        advance: 40,
        text: s.to_string(),
        colour: 0xff_ffff,
    }]
}

fn said(shown: Option<&Shown>) -> Option<&str> {
    match shown {
        Some(Shown::Text { runs, .. }) => Some(&runs[0].text),
        Some(Shown::Picture { .. }) => Some("picture"),
        None => None,
    }
}

#[test]
fn the_last_thing_put_up_is_what_stands() {
    let mut f = Filling::begin(100 * SECOND, 0);
    f.statement(80 * SECOND, (960, 540), text("first"));
    f.statement(90 * SECOND, (960, 540), text("second"));
    f.statement(95 * SECOND, (960, 540), Vec::new());
    f.picture(
        99 * SECOND,
        (1920, 1080),
        Some((
            Drawn {
                x: 1,
                y: 2,
                width: 1,
                height: 1,
                indices: vec![0],
                palette: vec![(1, 2, 3, 4)],
                until: Some(2 * SECOND),
            },
            vec![0x89],
        )),
    );
    f.picture(110 * SECOND, (1920, 1080), None);
    let w = f.finish();
    assert_eq!(said(w.at(79 * SECOND)), None);
    assert_eq!(said(w.at(80 * SECOND)), Some("first"));
    assert_eq!(said(w.at(94 * SECOND)), Some("second"));
    assert_eq!(said(w.at(96 * SECOND)), None);
    assert_eq!(said(w.at(100 * SECOND)), Some("picture"));
    // It takes itself down.
    assert_eq!(said(w.at(101 * SECOND)), None);
}

#[test]
fn a_window_holds_what_was_read() {
    assert!(!Window::new().holds(0));
    let w = Filling::begin(100 * SECOND, 0).finish();
    assert!(w.holds(100 * SECOND - LOOKBACK));
    assert!(!w.holds(100 * SECOND - LOOKBACK - 1));
    assert!(!w.holds(100 * SECOND + AHEAD));
    assert!(w.at(100 * SECOND).is_none());
    assert_eq!(Filling::begin(SECOND, 0).from, 0);
    assert_eq!(Filling::begin(40 * SECOND, 2 * SECOND).target(), 12_000_000);
}

#[test]
fn an_empty_window_shows_nothing() {
    let w = Window {
        covers: Some((0, 10)),
        events: vec![Event { at: 3, until: None, shown: None }],
    };
    assert!(w.at(5).is_none());
}

#[test]
fn packets_are_heeded() {
    let f = Filling::begin(0, 0);
    let p = |mine, picture, at, data| PacketFacts { mine, picture, at, data };
    assert_eq!(f.heed(&p(false, true, Some(AHEAD + 1), true)), Heed::Stop);
    assert_eq!(f.heed(&p(false, true, Some(AHEAD), true)), Heed::Pass);
    assert_eq!(f.heed(&p(false, false, Some(AHEAD + 1), true)), Heed::Pass);
    assert_eq!(f.heed(&p(true, false, Some(AHEAD + 1), true)), Heed::Stop);
    assert_eq!(f.heed(&p(true, false, Some(5), true)), Heed::Read(5));
    assert_eq!(f.heed(&p(true, false, Some(5), false)), Heed::Pass);
    assert_eq!(f.heed(&p(true, false, None, true)), Heed::Pass);
    assert_eq!(discard(true, false), Discard::Nothing);
    assert_eq!(discard(false, true), Discard::NonKey);
    assert_eq!(discard(false, false), Discard::All);
}

#[test]
fn pictures_are_drawn_from_their_palette() {
    let mut d = Drawn {
        x: 0,
        y: 0,
        width: 2,
        height: 1,
        indices: vec![1, 9],
        palette: vec![(0, 0, 0, 0), (10, 20, 30, 255)],
        until: None,
    };
    assert_eq!(rgba(&d).unwrap(), [10, 20, 30, 255, 0, 0, 0, 0]);
    d.height = 0;
    assert!(rgba(&d).is_none());
}

#[test]
fn a_palette_is_written_down() {
    assert_eq!(
        palette_text((720, 480), &[0x00ff00, 0x10]),
        "size: 720x480\npalette: 00ff00, 000010\n"
    );
}
