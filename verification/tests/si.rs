use smartcut_core::si::{
    build_sit, crc32, finish_section, network_descriptor, partial_time_descriptor, present_event,
    prune_events, service_descriptor, Components, Service, Snapshot, SECTION_MAX, TABLE_EIT_PF_ACTUAL,
    TABLE_SDT_ACTUAL, TABLE_SIT,
};
use std::collections::HashSet;


/// A component descriptor, which is about one stream and says so third.
fn component(tag: u8) -> Vec<u8> {
    vec![0x50, 0x06, 0x01, 0xB3, tag, 0x6A, 0x70, 0x6E]
}

/// A data content descriptor, whose third byte is the component a viewer
/// would enter the data broadcast on.
fn data_content(entry: u8) -> Vec<u8> {
    vec![0xC7, 0x07, 0x00, 0x07, entry, 0x00, 0x6A, 0x70, 0x6E]
}

/// A short event descriptor, which is about the programme and not about
/// any one stream, so it travels whatever happens around it.
fn short_event() -> Vec<u8> {
    vec![0x4D, 0x06, 0x6A, 0x70, 0x6E, 0x02, 0x41, 0x42]
}

/// One present-and-following section carrying one event.
fn eit(section_number: u8, descriptors: &[Vec<u8>]) -> Vec<u8> {
    let loop_bytes: Vec<u8> = descriptors.concat();
    let mut sec = vec![
        TABLE_EIT_PF_ACTUAL,
        0xF0,
        0x00, // length, filled in by finish_section
        0x00,
        0xB5, // service
        0xC1, // version 0, current
        section_number,
        0x01, // last section number
        0x40,
        0xD1, // transport stream
        0x00,
        0x04, // original network
        0x01, // segment last section number
        TABLE_EIT_PF_ACTUAL,
    ];
    sec.extend_from_slice(&[0x0B, 0x29]); // event id
    sec.extend_from_slice(&[0xEF, 0x58, 0x00, 0x00, 0x00]); // start time
    sec.extend_from_slice(&[0x00, 0x30, 0x00]); // duration
    // Running status 0 and not scrambled, then the loop length.
    sec.push((loop_bytes.len() >> 8) as u8 & 0x0F);
    sec.push(loop_bytes.len() as u8);
    sec.extend_from_slice(&loop_bytes);
    finish_section(&mut sec);
    sec
}

/// A recording that sent five components, of which a cut kept three.
fn broadcast() -> Components {
    Components {
        described: [0x00, 0x10, 0x30, 0x38, 0x40].into_iter().collect(),
        carried: [0x00, 0x10, 0x30].into_iter().collect(),
    }
}

/// The descriptor tags a section's one event carries, in order.
fn tags(sec: &[u8]) -> Vec<u8> {
    let loop_bytes = &sec[26..sec.len() - 4];
    let mut out = Vec::new();
    let mut i = 0;
    while i + 2 <= loop_bytes.len() {
        out.push(loop_bytes[i]);
        i += 2 + loop_bytes[i + 1] as usize;
    }
    out
}

#[test]
fn a_section_about_streams_that_are_all_there_is_left_alone() {
    let sec = eit(0, &[component(0x00), short_event(), data_content(0x30)]);
    assert!(prune_events(&sec, &broadcast()).is_none());
}

#[test]
fn the_description_of_a_dropped_stream_does_not_travel() {
    let sec = eit(0, &[component(0x00), short_event(), data_content(0x40)]);
    let out = prune_events(&sec, &broadcast()).expect("the data broadcast is not in the cut");
    assert_eq!(tags(&out), vec![0x50, 0x4D]);
    // What is left is the recording's own bytes, in the order they came.
    // Up to byte 24 only: which event, when it started and how long it
    // ran. The nibble after that is the loop length, and it is the one
    // thing that has to have changed.
    assert_eq!(&out[14..24], &sec[14..24], "the event itself must not move");
    assert_eq!(out[24] & 0xF0, sec[24] & 0xF0, "nor its running status");
    assert_eq!(&out[26..out.len() - 4], [component(0x00), short_event()].concat());
}

#[test]
fn what_is_left_is_still_a_section() {
    let sec = eit(0, &[component(0x00), short_event(), data_content(0x40)]);
    let out = prune_events(&sec, &broadcast()).unwrap();
    let length = (((out[1] & 0x0F) as usize) << 8) | out[2] as usize;
    assert_eq!(length + 3, out.len(), "the length has to describe what is there");
    let event_loop = (((out[24] & 0x0F) as usize) << 8) | out[25] as usize;
    assert_eq!(event_loop, out.len() - 4 - 26, "and so does the event's own");
    assert_eq!(crc32(&out), 0, "a section is not accepted without its CRC");
}

#[test]
fn the_programme_that_followed_is_not_judged_against_this_file() {
    // Section 1 is the next programme, whose streams were never going to
    // be in here. Naming a component this file lacks is correct of it.
    let sec = eit(1, &[component(0x00), data_content(0x40)]);
    assert!(prune_events(&sec, &broadcast()).is_none());
}

#[test]
fn a_component_the_recording_never_described_is_left_where_it_is() {
    // The broadcaster's own tables disagreeing is not something to settle
    // here: 0x11 is in no map this program read, so nothing is known
    // about whether the cut should have carried it.
    let sec = eit(0, &[component(0x11)]);
    assert!(prune_events(&sec, &broadcast()).is_none());
}

#[test]
fn a_recording_that_named_no_components_loses_nothing() {
    // A source that has been through a muxer already carries no stream
    // identifier descriptors, so nothing can be judged missing.
    let muxed = Components { described: HashSet::new(), carried: HashSet::new() };
    let sec = eit(0, &[component(0x00), data_content(0x40)]);
    assert!(prune_events(&sec, &muxed).is_none());
}

#[test]
fn a_downmixed_track_is_not_the_track_that_was_described() {
    // Carried, but not faithfully: the tag is in the recording's map and
    // out of the cut's, which is the same case as a dropped stream.
    let folded = Components {
        described: [0x00, 0x10].into_iter().collect(),
        carried: [0x00].into_iter().collect(),
    };
    let sec = eit(0, &[component(0x00), vec![0xC4, 0x03, 0x01, 0x03, 0x10]]);
    let out = prune_events(&sec, &folded).expect("the audio is no longer as described");
    assert_eq!(tags(&out), vec![0x50]);
}

#[test]
fn a_section_that_does_not_parse_is_not_rewritten() {
    let mut sec = eit(0, &[component(0x00), data_content(0x40)]);
    // An event loop that runs past the end of the section.
    sec[25] = 0xFF;
    assert!(prune_events(&sec, &broadcast()).is_none());
    assert!(prune_events(&[], &broadcast()).is_none());
    assert!(prune_events(&[TABLE_EIT_PF_ACTUAL, 0xF0, 0x00], &broadcast()).is_none());
}

/// A service description carrying one service and the descriptors given.
fn sdt(descriptors: &[u8]) -> Vec<u8> {
    let mut sec = vec![
        TABLE_SDT_ACTUAL,
        0xF0,
        0x00,
        0x40,
        0xD1, // transport stream
        0xC1,
        0x00,
        0x00,
        0x00,
        0x04, // original network
        0xFF,
    ];
    sec.extend_from_slice(&[0x00, 0xB5]); // service
    sec.push(0xFC); // reserved, and both event information flags
    sec.push(0x80 | ((descriptors.len() >> 8) as u8 & 0x0F));
    sec.push(descriptors.len() as u8);
    sec.extend_from_slice(descriptors);
    finish_section(&mut sec);
    sec
}

/// The service descriptor as a broadcast sends it: the type, then the
/// provider and the name as ARIB text.
fn service_name() -> Vec<u8> {
    vec![0x48, 0x06, 0x01, 0x02, b'A', b'B', 0x01, b'C']
}

fn recording(sdt_section: Option<Vec<u8>>) -> Service {
    Service {
        transport_stream_id: 0x40D1,
        original_network_id: 0x0004,
        service_id: 0x00B5,
        service_type: 0x01,
        pmt_pid: 0x0101,
        pcr_pid: 0x0100,
        program_info: Vec::new(),
        streams: Vec::new(),
        sdt: sdt_section,
    }
}

fn snapshot_of(section: Vec<u8>) -> Snapshot {
    Snapshot { eit: vec![section], tot: None, tdt: None }
}

/// The descriptor tags a built SIT carries, service loop only.
fn sit_tags(sec: &[u8]) -> Vec<u8> {
    let til = (((sec[8] & 0x0F) as usize) << 8) | sec[9] as usize;
    let body = &sec[10 + til..sec.len() - 4];
    let len = (((body[2] & 0x0F) as usize) << 8) | body[3] as usize;
    let loop_bytes = &body[4..4 + len];
    let mut out = Vec::new();
    let mut i = 0;
    while i + 2 <= loop_bytes.len() {
        out.push(loop_bytes[i]);
        i += 2 + loop_bytes[i + 1] as usize;
    }
    out
}

#[test]
fn one_table_says_what_four_used_to() {
    let service = recording(Some(sdt(&service_name())));
    let snapshot = snapshot_of(eit(0, &[short_event(), component(0x00), data_content(0x40)]));
    let present = present_event(&snapshot, &broadcast()).expect("a programme is on");
    let sec = build_sit(&service, Some(&present), 0, 46235);

    assert_eq!(sec[0], TABLE_SIT);
    assert_eq!(crc32(&sec), 0, "a section is not accepted without its CRC");
    let length = (((sec[1] & 0x0F) as usize) << 8) | sec[2] as usize;
    assert_eq!(length + 3, sec.len(), "the length has to describe what is there");
    // The times, the name, then the programme's own descriptors -- and
    // not the one naming the data broadcast, which is not in the cut.
    assert_eq!(sit_tags(&sec), vec![0xC3, 0x48, 0x4D, 0x50]);
}

#[test]
fn the_transmission_loop_describes_the_stream_and_the_network() {
    let sec = build_sit(&recording(None), None, 0, 46235);
    let til = (((sec[8] & 0x0F) as usize) << 8) | sec[9] as usize;
    let loop_bytes = &sec[10..10 + til];
    assert_eq!(loop_bytes[0], 0x63, "a partial stream says how fast it runs");
    let peak = (((loop_bytes[2] & 0x3F) as u32) << 16)
        | ((loop_bytes[3] as u32) << 8)
        | loop_bytes[4] as u32;
    assert_eq!(peak, 46235);
    // The partial stream descriptor is ten bytes, then the network's:
    // read the medium and the original network id off the end of it.
    assert_eq!(loop_bytes[10], 0xC2);
    assert_eq!(&loop_bytes[12..19], &[b'J', b'P', b'N', b'B', b'S', 0x00, 0x04]);
}

#[test]
fn a_network_nobody_here_knows_is_left_undescribed() {
    assert!(network_descriptor(0x2000).is_none());
    assert_eq!(&network_descriptor(0x7FE0).unwrap()[2..7], b"JPNTB");
    assert_eq!(&network_descriptor(0x0006).unwrap()[2..7], b"JPNCS");
    assert_eq!(network_descriptor(0x0004).unwrap()[7..9], [0x00, 0x04]);
}

#[test]
fn the_times_are_the_broadcasts_and_not_the_files() {
    let snapshot = snapshot_of(eit(0, &[short_event()]));
    let present = present_event(&snapshot, &broadcast()).unwrap();
    let d = partial_time_descriptor(&present);
    assert_eq!(d[0], 0xC3);
    assert_eq!(d[1] as usize, d.len() - 2);
    // The event started when it was broadcast and ran for half an hour,
    // whatever was kept of it.
    assert_eq!(&d[3..8], &[0xEF, 0x58, 0x00, 0x00, 0x00]);
    assert_eq!(&d[8..11], &[0x00, 0x30, 0x00]);
    assert_eq!(&d[11..14], &[0x00, 0x00, 0x00], "no offset from that time");
    assert_eq!(d[14] & 0b010, 0b010, "the event's own descriptors follow");
}

#[test]
fn a_programme_too_long_to_fit_is_cut_at_a_descriptor() {
    // Extended event descriptors run to a kilobyte on a real recording;
    // enough of them will not fit in a section however large it is.
    let long: Vec<Vec<u8>> = (0..40)
        .map(|_| {
            let mut d = vec![0x4E, 0xFF];
            d.extend(vec![0x41u8; 0xFF]);
            d
        })
        .collect();
    let snapshot = snapshot_of(eit(0, &long));
    let present = present_event(&snapshot, &broadcast()).unwrap();
    let sec = build_sit(&recording(Some(sdt(&service_name()))), Some(&present), 0, 1);
    assert!(sec.len() <= SECTION_MAX, "a section has a ceiling: {}", sec.len());
    assert_eq!(crc32(&sec), 0);
    // Whole descriptors were dropped, not the tail of one, and the two
    // that have to survive are still at the front.
    let tags = sit_tags(&sec);
    assert_eq!(&tags[..2], &[0xC3, 0x48]);
    assert!(tags[2..].iter().all(|&t| t == 0x4E));
    assert!(tags.len() < 42, "something had to go");
}

#[test]
fn a_recording_with_no_service_description_still_gets_a_table() {
    let snapshot = snapshot_of(eit(0, &[short_event()]));
    let present = present_event(&snapshot, &broadcast()).unwrap();
    let sec = build_sit(&recording(None), Some(&present), 3, 1);
    assert_eq!((sec[5] >> 1) & 0x1F, 3, "the version it was asked for");
    assert_eq!(sit_tags(&sec), vec![0xC3, 0x4D]);
}

#[test]
fn the_following_programme_is_not_what_the_file_is() {
    // Only section 0 describes this file, so a snapshot holding just the
    // following event describes nothing here.
    let snapshot = snapshot_of(eit(1, &[short_event()]));
    assert!(present_event(&snapshot, &broadcast()).is_none());
}

#[test]
fn the_service_name_is_found_where_the_broadcast_put_it() {
    let section = sdt(&[service_name(), vec![0xC1, 0x01, 0x84]].concat());
    assert_eq!(service_descriptor(&section), Some(&service_name()[..]));
    assert!(service_descriptor(&sdt(&[])).is_none());
}
