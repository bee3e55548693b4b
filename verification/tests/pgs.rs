use smartcut_core::pgs::{
    beside, composition, packed, segments, Held, Plane, Sup, ACQUISITION, END, EPOCH_START, PCS, WDS,
};
use smartcut_core::pgs::write::{Composer, ODS, PDS, Picture, draw, erase, rle, unrle, write_run};
use smartcut_core::time::SECOND;

/// A moment, in ticks.
fn at(seconds: f64) -> i64 {
    (seconds * SECOND as f64).round() as i64
}


fn pcs(number: u16, state: u8, objects: u8) -> Vec<u8> {
    // The eleven bytes every composition opens with: the screen, the
    // rate it is shown at, the number, the state, the palette, and how
    // many objects go up.
    let mut body = vec![0u8; 11];
    body[0..2].copy_from_slice(&1920u16.to_be_bytes());
    body[2..4].copy_from_slice(&1080u16.to_be_bytes());
    body[4] = 0x10;
    body[5..7].copy_from_slice(&number.to_be_bytes());
    body[7] = state;
    body[10] = objects;
    packed(PCS, &body)
}

fn one(kind: u8, len: usize) -> Vec<u8> {
    packed(kind, &vec![0u8; len])
}

fn held(at: i64, data: Vec<u8>) -> Held {
    Held {
        pts: at,
        dts: at,
        data,
    }
}

/// What a `.sup` is: every segment as it travelled, behind ten bytes
/// saying when it is decoded and when it is shown.
///
/// Read back here the way the readers that matter read it -- the magic,
/// the two times, the type and the length -- because nothing else in
/// this program ever reads one.
#[test]
fn a_sup_is_the_segments_with_their_times_in_front() {
    let mut sup = Sup::new(None);
    let mut set = pcs(7, EPOCH_START, 1);
    set.extend(one(WDS, 10));
    // One packet carrying three segments, which the format allows and a
    // demuxer hands over as it was given: three records, not one.
    set.extend(one(END, 0));
    sup.take(&held(at(2.0), set), at(0.5));
    assert_eq!(sup.count(), 3);
    assert!(!sup.is_empty());

    let mut from = 0usize;
    let mut kinds = Vec::new();
    while from < sup.out.len() {
        assert_eq!(&sup.out[from..from + 2], b"PG", "every record opens with it");
        let stamp = |k: usize| {
            u32::from_be_bytes(sup.out[k..k + 4].try_into().expect("four bytes"))
        };
        // 2.0 seconds and half a second of offset, in 90 kHz.
        assert_eq!(stamp(from + 2), 225_000);
        assert_eq!(stamp(from + 6), 225_000);
        let len = u16::from_be_bytes([sup.out[from + 11], sup.out[from + 12]]) as usize;
        kinds.push(sup.out[from + 10]);
        from += 13 + len;
    }
    assert_eq!(kinds, [PCS, WDS, END]);
    assert_eq!(from, sup.out.len(), "and nothing left over");
}

/// A packet that carries several segments at once is read as several.
#[test]
fn reads_a_run_of_segments() {
    let mut data = pcs(1, EPOCH_START, 1);
    data.extend(one(WDS, 10));
    data.extend(one(END, 0));
    let kinds: Vec<u8> = segments(&data).into_iter().map(|(k, _)| k).collect();
    assert_eq!(kinds, [PCS, WDS, END]);
}

/// A length that runs past the end of the packet stops the read rather
/// than reading whatever is next in memory.
#[test]
fn a_truncated_segment_ends_the_run() {
    let data = vec![PCS, 0xFF, 0xFF, 0x00];
    assert_eq!(segments(&data).len(), 0);
}

/// The plane follows what the sets say: up on an epoch start, still up
/// through an acquisition point, down on a composition with no objects.
#[test]
fn follows_what_is_on_screen() {
    let mut plane = Plane::default();
    for (when, data) in [(at(1.0), pcs(1, EPOCH_START, 1)), (at(1.1), one(END, 0))] {
        plane.feed(held(when, data));
    }
    assert!(plane.occupied());
    plane.feed(held(at(2.0), pcs(2, 0x00, 0)));
    plane.feed(held(at(2.1), one(END, 0)));
    assert!(!plane.occupied());
}

/// A set is not a set until its END. Half of one leaves the plane as it
/// was, which is what a read that begins mid-set hands over.
#[test]
fn half_a_set_changes_nothing() {
    let mut plane = Plane::default();
    plane.feed(held(at(1.0), pcs(1, EPOCH_START, 1)));
    assert!(!plane.occupied());
}

/// What is put up again is the last set that could stand alone, timed to
/// the instant asked for and keeping its own spacing.
#[test]
fn puts_the_standing_set_up_again() {
    let mut plane = Plane::default();
    plane.feed(Held {
        pts: at(10.07),
        dts: at(10.0),
        data: pcs(1, ACQUISITION, 1),
    });
    plane.feed(held(at(10.02), one(END, 0)));
    let again = plane.replay(at(100.0));
    assert_eq!(again.len(), 2);
    assert_eq!(again[0].dts, at(100.0));
    assert_eq!(again[0].pts, at(100.07));
    assert_eq!(again[1].pts, at(100.02));
    // And it says it opens an epoch, whatever it said before.
    let (kind, body) = segments(&again[0].data).into_iter().next().unwrap();
    assert_eq!(kind, PCS);
    assert_eq!(composition(body).unwrap().state, EPOCH_START);
}

/// A composition that changes a subtitle drawn earlier cannot stand on
/// its own, so it is not what gets put up again.
#[test]
fn only_a_self_contained_set_is_put_up_again() {
    let mut plane = Plane::default();
    plane.feed(held(at(1.0), pcs(1, EPOCH_START, 1)));
    plane.feed(held(at(1.1), one(END, 0)));
    plane.feed(held(at(2.0), pcs(2, 0x00, 1)));
    plane.feed(held(at(2.1), one(END, 0)));
    assert!(plane.occupied());
    let again = plane.replay(at(50.0));
    let (_, body) = segments(&again[0].data).into_iter().next().unwrap();
    assert_eq!(composition(body).unwrap().number, 1);
}

/// The clear is the standing composition with its objects taken out, and
/// the window it drew in.
#[test]
fn takes_down_what_is_on_screen() {
    let mut plane = Plane::default();
    plane.feed(held(at(1.0), pcs(7, EPOCH_START, 1)));
    plane.feed(held(at(1.1), one(WDS, 10)));
    plane.feed(held(at(1.2), one(END, 0)));
    let down = plane.clear(at(9.0));
    let kinds: Vec<u8> = down
        .iter()
        .filter_map(|h| segments(&h.data).into_iter().next())
        .map(|(k, _)| k)
        .collect();
    assert_eq!(kinds, [PCS, WDS, END]);
    let (_, body) = segments(&down[0].data).into_iter().next().unwrap();
    let c = composition(body).unwrap();
    assert_eq!(c.objects, 0);
    assert_eq!(c.state, 0x00);
    assert_eq!(c.number, 8);
    // The screen the disc declared travels with it.
    assert_eq!(&body[..5], &[0x07, 0x80, 0x04, 0x38, 0x10]);
    assert!(down.iter().all(|h| h.pts == at(9.0)));
}

/// A range that ends with the plane already clear needs nothing.
#[test]
fn an_empty_plane_is_not_taken_down() {
    let mut plane = Plane::default();
    plane.feed(held(at(1.0), pcs(1, EPOCH_START, 0)));
    plane.feed(held(at(1.1), one(END, 0)));
    assert!(plane.clear(at(9.0)).is_empty());
}

/// A picture written as a display set comes back as the same pixels.
///
/// The whole of what the conversion has to get right: the runs, the
/// row ends, and the shape stated in front of them.
#[test]
fn a_picture_survives_being_written() {
    // Two rows of a long transparent run, a word of colour, and a single
    // pixel -- which is each of the four ways a run can be spelled.
    let mut indices = vec![0u8; 200 * 4];
    indices[40..100].fill(2);
    indices[150] = 3;
    indices[200..400].fill(1);
    indices[400 + 7] = 4;
    let palette = [
        (0, 0, 0, 0),
        (255, 255, 255, 255),
        (255, 0, 0, 255),
        (0, 255, 0, 128),
        (0, 0, 255, 255),
    ];
    let picture = Picture {
        x: 10,
        y: 20,
        width: 200,
        height: 4,
        indices: &indices,
        palette: &palette,
    };
    let set = draw((720, 480), 7, at(5.0), &picture);
    let kinds: Vec<u8> = set
        .iter()
        .filter_map(|h| segments(&h.data).into_iter().next())
        .map(|(k, _)| k)
        .collect();
    assert_eq!(kinds, [PCS, WDS, PDS, ODS, END]);

    let (_, body) = segments(&set[0].data).into_iter().next().unwrap();
    let c = composition(body).unwrap();
    assert_eq!((c.number, c.state, c.objects), (7, EPOCH_START, 1));
    // Where it goes on the screen, which is the last four bytes of the
    // composition's one object.
    assert_eq!(&body[15..19], [0x00, 0x0A, 0x00, 0x14]);

    let (_, ods) = segments(&set[3].data).into_iter().next().unwrap();
    assert_eq!(&ods[7..11], [0x00, 0xC8, 0x00, 0x04], "the shape it states");
    let back = unrle(&ods[11..], 200, 4);
    assert_eq!(back, indices, "the pixels have to survive the round trip");
}

/// The picture is timed to be decoded before it is shown, and the
/// composition that puts it up is the only piece shown at all.
#[test]
fn a_set_is_handed_over_before_it_is_shown() {
    let indices = [0u8; 4];
    let picture = Picture {
        x: 0,
        y: 0,
        width: 2,
        height: 2,
        indices: &indices,
        palette: &[(0, 0, 0, 0)],
    };
    let set = draw((720, 480), 1, at(5.0), &picture);
    assert_eq!(set[0].pts, at(5.0));
    assert!(set[0].dts < set[0].pts, "decoded first, shown after");
    assert!(set.iter().skip(1).all(|h| h.pts <= set[0].dts));
    // And at the very start of a file there is nowhere earlier to be.
    let set = draw((720, 480), 1, at(0.0), &picture);
    assert!(set.iter().all(|h| h.dts >= 0 && h.pts >= 0));
}

/// One subtitle replaces the last where the last had no end of its own,
/// and the last is taken down at its own time where it had one.
#[test]
fn a_composer_keeps_one_thing_on_screen() {
    let indices = [1u8; 4];
    let palette = [(0, 0, 0, 0), (255, 255, 255, 255)];
    let picture = |x: u16| Picture {
        x,
        y: 0,
        width: 2,
        height: 2,
        indices: &indices,
        palette: &palette,
    };
    let mut composer = Composer::default();
    // Nothing said about when the first goes, so the second replaces it
    // and nothing is written in between.
    let first = composer.show((720, 480), at(1.0), None, &picture(0));
    assert_eq!(first.len(), 5);
    let second = composer.show((720, 480), at(2.0), Some(at(2.5)), &picture(4));
    assert_eq!(second.len(), 5, "no clear between two that abut");
    // This one does say, so it is taken down at its own time.
    let third = composer.show((720, 480), at(3.0), None, &picture(8));
    assert_eq!(third.len(), 8, "a clear, and then the next picture");
    assert_eq!(third[0].pts, at(2.5));
    // And what is left standing comes down when the range ends.
    assert!(composer.standing());
    let last = composer.take_down((720, 480), at(9.0));
    assert_eq!(last.len(), 3);
    assert_eq!(last[0].pts, at(9.0));
    assert!(!composer.standing());
    assert!(composer.take_down((720, 480), at(10.0)).is_empty());
}

/// A part-read set says so, which is how a reader knows not to stop in
/// the middle of one.
#[test]
fn a_part_read_set_says_so() {
    let mut plane = Plane::default();
    assert!(!plane.building());
    plane.feed(held(at(1.0), pcs(1, EPOCH_START, 1)));
    assert!(plane.building());
    plane.feed(held(at(1.2), one(END, 0)));
    assert!(!plane.building());
}

/// A set comes back whole at its END and not before, which is what lets
/// the caller carry sets rather than packets.
#[test]
fn a_set_comes_back_at_its_end() {
    let mut plane = Plane::default();
    assert!(plane.feed(held(at(1.0), pcs(1, EPOCH_START, 1))).is_none());
    assert!(plane.feed(held(at(1.1), one(WDS, 10))).is_none());
    let set = plane
        .feed(held(at(1.2), one(END, 0)))
        .expect("the END completes it");
    assert_eq!(set.len(), 3);
    assert_eq!(set[0].pts, at(1.0));
}

/// A read that joins in the middle of a set contributes nothing: the
/// pieces before the next composition are not a set and never become
/// one.
#[test]
fn a_read_that_joins_mid_set_hands_over_nothing() {
    let mut plane = Plane::default();
    assert!(plane.feed(held(at(1.0), one(WDS, 10))).is_none());
    assert!(plane.feed(held(at(1.1), one(END, 0))).is_none());
    assert!(!plane.occupied());
}

/// The four spellings of a run, and a run too long for one.
#[test]
fn a_run_is_written_the_shortest_way() {
    let run = |colour: u8, n: usize| {
        let mut out = Vec::new();
        write_run(&mut out, colour, n);
        out
    };
    assert_eq!(run(5, 1), [5]);
    assert_eq!(run(5, 2), [5, 5]);
    assert_eq!(run(0, 1), [0, 1]);
    assert_eq!(run(0, 0x100), [0, 0x41, 0]);
    assert_eq!(run(5, 3), [0, 0x83, 5]);
    assert_eq!(run(5, 0x3FFF), [0, 0xFF, 0xFF, 5]);
    assert_eq!(run(5, 0x4000), [0, 0xFF, 0xFF, 5, 5]);
    assert!(run(5, 0).is_empty());
}

/// Rows that are not there end the picture, and codes cut short are read as
/// noughts.
#[test]
fn a_short_picture_ends_where_it_ends() {
    assert_eq!(rle(&[1, 1, 1], 2, 2), [1, 1, 0, 0]);
    assert_eq!(unrle(&[1, 1], 2, 2), [1, 1, 0, 0]);
    assert_eq!(unrle(&[0, 0x83], 2, 1), [0, 0]);
    assert_eq!(unrle(&[0, 0x85, 7, 9], 3, 1), [7, 7, 7]);
}

/// White and black, and what lies between, in the colours television uses.
#[test]
fn a_palette_is_luma_and_two_differences() {
    let picture = Picture {
        x: 0,
        y: 0,
        width: 1,
        height: 1,
        indices: &[0],
        palette: &[(255, 255, 255, 255), (0, 0, 0, 0), (255, 0, 0, 9)],
    };
    let set = draw((720, 480), 1, at(1.0), &picture);
    let (_, pds) = segments(&set[2].data).into_iter().next().unwrap();
    assert_eq!(pds, [0, 0, 0, 235, 128, 128, 255, 1, 16, 128, 128, 0, 2, 82, 240, 90, 9]);
}

#[test]
fn a_set_that_opens_or_resumes_an_epoch_stands_alone() {
    for (state, alone) in [(EPOCH_START, true), (ACQUISITION, true), (0x00, false)] {
        let run = pcs(3, state, 1);
        let (_, body) = segments(&run).into_iter().next().unwrap();
        let said = composition(body).unwrap();
        assert_eq!((said.number, said.objects), (3, 1));
        assert_eq!(said.self_contained(), alone);
    }
}

#[test]
fn a_plane_forgets_where_the_read_starts_again() {
    let mut plane = Plane::default();
    plane.feed(held(at(1.0), pcs(1, EPOCH_START, 1)));
    plane.feed(held(at(1.1), one(END, 0)));
    assert!(plane.occupied());
    plane.reset();
    assert!(!plane.occupied());
    assert!(plane.replay(at(2.0)).is_empty());
    assert!(plane.clear(at(2.0)).is_empty());
}

#[test]
fn what_is_put_up_again_stands_again() {
    let mut plane = Plane::default();
    plane.feed(held(at(1.0), pcs(1, EPOCH_START, 1)));
    plane.feed(held(at(1.1), one(END, 0)));
    let mut other = Plane::default();
    for h in plane.replay(at(30.0)) {
        other.feed(h);
    }
    assert!(other.occupied());
    for h in other.clear(at(31.0)) {
        other.feed(h);
    }
    assert!(!other.occupied());
}

#[test]
fn an_erasing_set_has_no_objects_and_one_window() {
    let window = (10, 20, 30, 40);
    let out = erase((1920, 1080), 9, at(5.0), window);
    let kinds: Vec<u8> =
        out.iter().map(|h| segments(&h.data).into_iter().next().unwrap().0).collect();
    assert_eq!(kinds, [PCS, WDS, END]);
    let (_, body) = segments(&out[0].data).into_iter().next().unwrap();
    let said = composition(body).unwrap();
    assert_eq!((said.number, said.objects, said.self_contained()), (9, 0, false));
    assert!(out.iter().all(|h| h.pts == at(5.0) && h.dts == at(5.0)));
}

/// The only stream takes the cut's own name; where there is a second, each
/// takes something of its own.
#[test]
fn a_sup_is_named_after_the_cut() {
    let cut = "/tmp/smartcut-sup-test/cut_title.ts";
    let mut only = Sup::new(None);
    only.take(&held(at(0.0), one(END, 0)), 0);
    let wrote = beside(cut, only.tag.as_deref());
    assert!(wrote.ends_with("cut_title.sup"), "{wrote}");

    let mut second = Sup::new(Some("eng".into()));
    second.take(&held(at(0.0), one(END, 0)), 0);
    let wrote = beside(cut, second.tag.as_deref());
    assert!(wrote.ends_with("cut_title.eng.sup"), "{wrote}");
}

#[test]
fn only_the_last_extension_of_the_cut_goes() {
    assert_eq!(beside("/v/show.S01.ts", None), "/v/show.S01.sup");
    assert_eq!(beside("/v/show.S01.ts", Some("jpn")), "/v/show.S01.jpn.sup");
    assert_eq!(beside("/v.d/show", None), "/v.d/show.sup");
    assert_eq!(beside("a.b\\c", None), "a.sup");
    assert_eq!(beside("x/.", None), "x.sup");
    assert_eq!(beside("v.d/x.ts/./", Some("eng")), "v.d/x.eng.sup");
    assert_eq!(beside("a.", None), "a.sup");
    assert_eq!(beside(".hidden", None), ".hidden.sup");
    assert_eq!(beside("dir/", None), "dir.sup");
    assert_eq!(beside("v/..", None), "v/..");
    assert_eq!(beside("v/../.", None), "v/../.");
    assert_eq!(beside("./.", None), "./.");
    assert_eq!(beside("/.", None), "/.");
    assert_eq!(beside(".", None), ".");
    assert_eq!(beside("", None), "");
}
