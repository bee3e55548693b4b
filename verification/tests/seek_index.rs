use smartcut_core::le::Unread;
use smartcut_core::seek_index::{
    cache_name, settled_interval, Entry, HeldThumb, HeldTrack, SeekIndex,
};

fn an_index() -> SeekIndex {
    SeekIndex {
        points: vec![
            Entry {
                time: 0f64.to_bits(),
                lead_start: 0f64.to_bits(),
                lead_indices: Vec::new(),
                droppable: false,
                pos: -1,
            },
            Entry {
                time: 0.5f64.to_bits(),
                lead_start: 0.433f64.to_bits(),
                lead_indices: vec![1, 2],
                droppable: true,
                pos: 188 * 4000,
            },
        ],
        leading_known: true,
        pulldown: Some(true),
        track: Some(HeldTrack {
            width: 192,
            interval: 0.5f64.to_bits(),
            covered: f64::INFINITY.to_bits(),
            threshold: 0.055f64.to_bits(),
            typical: 0.01f64.to_bits(),
            scenes: vec![12.5f64.to_bits()],
            thumbs: vec![HeldThumb { time: 0f64.to_bits(), jpeg: vec![0xff, 0xd8, 0xff] }],
        }),
    }
}

#[test]
fn an_index_reads_back_as_it_was() {
    let raw = an_index().save();
    let back = SeekIndex::load(&raw).unwrap();
    assert_eq!(back.points.len(), 2);
    assert_eq!(back.points[0].pos, -1);
    assert_eq!(f64::from_bits(back.points[1].time), 0.5);
    assert_eq!(back.points[1].lead_indices, [1, 2]);
    assert!(back.points[1].droppable);
    assert!(back.leading_known);
    assert_eq!(back.pulldown, Some(true));
    let t = back.track.unwrap();
    assert_eq!(t.width, 192);
    assert_eq!(f64::from_bits(t.covered), f64::INFINITY);
    assert_eq!(t.scenes, [12.5f64.to_bits()]);
    assert_eq!(t.thumbs[0].jpeg, [0xff, 0xd8, 0xff]);
}

#[test]
fn the_file_starts_as_it_always_did() {
    let raw = an_index().save();
    assert_eq!(&raw[..20], b"SCIX\x01\0\0\0\x0f\0\0\0\x02\0\0\0\0\0\0\0");
    // Time, lead, position, whether it may be dropped, and no leading pictures.
    assert_eq!(&raw[36..49], &[255, 255, 255, 255, 255, 255, 255, 255, 0, 0, 0, 0, 0]);
}

#[test]
fn without_a_track_there_is_none_to_read() {
    let mut i = an_index();
    i.track = None;
    i.pulldown = None;
    i.leading_known = false;
    let back = SeekIndex::load(&i.save()).unwrap();
    assert!(back.track.is_none());
    assert_eq!(back.pulldown, None);
    assert!(!back.leading_known);
}

#[test]
fn what_is_no_index_is_refused() {
    assert!(matches!(SeekIndex::load(b"SCI"), Err(Unread::Truncated)));
    assert!(matches!(SeekIndex::load(b"SCPM\x01\0\0\0"), Err(Unread::NotOne)));
    assert!(matches!(SeekIndex::load(b"SCIX\x02\0\0\0"), Err(Unread::OtherVersion)));
    let raw = an_index().save();
    for n in 4..raw.len() {
        assert!(matches!(SeekIndex::load(&raw[..n]), Err(Unread::Truncated)));
    }
}

#[test]
fn the_kept_file_is_named_after_the_recording() {
    let name = cache_name("/rec/番組.ts", "番組", 100, 200);
    assert!(name.starts_with("番組-") && name.ends_with(".scix"));
    assert_ne!(name, cache_name("/rec/番組.ts", "番組", 100, 201));
    assert_eq!(name, cache_name("/rec/番組.ts", "番組", 100, 200));
}

#[test]
fn the_spacing_is_the_pictures_own() {
    assert_eq!(settled_interval(5, Some(7)), 7);
    assert_eq!(settled_interval(5, None), 5);
}
