use smartcut_core::si::graft::{plan_graft, GraftPass, PeakMeter, LAYOUT_WINDOW, SELECTION_RATE};
use smartcut_core::si::{
    advance_time, build_pmt, crc32, descriptor, finish_section, framing, graft, keep_descriptors,
    output_layout, packetize, partial_stream_descriptor, payload_start, pcr_of, peak_rate, pid_of,
    read_service, snapshot_at, Components, ElementaryStream, Graft, GraftRange, GraftStream,
    SectionReader, Service, SiError, Snapshot, Stats, Tables, M2TS_PACKET, PACKET,
};

const MAP: u16 = 0x0101;
const PICTURES: u16 = 0x0100;
const SOUND: u16 = 0x0110;

fn as_packets(pid: u16, section: &[u8], cc: &mut u8) -> Vec<u8> {
    let mut out = Vec::new();
    packetize(pid, section, cc, &mut out);
    out
}

fn pat() -> Vec<u8> {
    let mut sec = vec![0x00, 0xB0, 0x00, 0x40, 0xD1, 0xC1, 0x00, 0x00, 0x00, 0xB5, 0xE1, 0x01];
    finish_section(&mut sec);
    sec
}

fn pmt() -> Vec<u8> {
    let mut sec = vec![0x02, 0xB0, 0x00, 0x00, 0xB5, 0xC1, 0x00, 0x00, 0xE1, 0x00];
    // A conditional access descriptor, then a digital copy control one.
    sec.extend_from_slice(&[0xF0, 0x0A, 0x09, 0x04, 0x00, 0x05, 0xE9, 0x01, 0xC1, 0x02, 0x84, 0xF4]);
    sec.extend_from_slice(&[0x02, 0xE1, 0x00, 0xF0, 0x03, 0x52, 0x01, 0x00]);
    sec.extend_from_slice(&[0x0F, 0xE1, 0x10, 0xF0, 0x06, 0x52, 0x01, 0x10, 0xFD, 0x01, 0x77]);
    finish_section(&mut sec);
    sec
}

fn sdt() -> Vec<u8> {
    let name = [0x48, 0x06, 0x01, 0x02, b'A', b'B', 0x01, b'C'];
    let mut sec = vec![0x42, 0xF0, 0x00, 0x40, 0xD1, 0xC1, 0x00, 0x00, 0x00, 0x04, 0xFF];
    sec.extend_from_slice(&[0x00, 0xB5, 0xFC, 0x80, name.len() as u8]);
    sec.extend_from_slice(&name);
    finish_section(&mut sec);
    sec
}

fn eit(number: u8) -> Vec<u8> {
    let mut sec = vec![
        0x4E, 0xF0, 0x00, 0x00, 0xB5, 0xC1, number, 0x01, 0x40, 0xD1, 0x00, 0x04, 0x01, 0x4E,
    ];
    sec.extend_from_slice(&[0x0B, 0x29, 0xEF, 0x58, 0x20, 0x00, 0x00, 0x00, 0x30, 0x00, 0x00, 0x00]);
    finish_section(&mut sec);
    sec
}

fn tot() -> Vec<u8> {
    let mut sec = vec![0x73, 0x70, 0x00, 0xEF, 0x58, 0x20, 0x00, 0x00, 0xF0, 0x00];
    finish_section(&mut sec);
    sec
}

/// A packet that carries a clock and nothing else.
fn clock(base: u64) -> Vec<u8> {
    let mut p = vec![0x47, (PICTURES >> 8) as u8, PICTURES as u8, 0x20, 183, 0x10];
    p.extend_from_slice(&[
        (base >> 25) as u8,
        (base >> 17) as u8,
        (base >> 9) as u8,
        (base >> 1) as u8,
        ((base & 1) << 7) as u8 | 0x7E,
        0,
    ]);
    p.resize(PACKET, 0xFF);
    p
}

/// A packet of pictures.
fn picture(fill: u8) -> Vec<u8> {
    let mut p = vec![0x47, (PICTURES >> 8) as u8, PICTURES as u8, 0x10];
    p.resize(PACKET, fill);
    p
}

fn broadcast_stream() -> Vec<u8> {
    let mut cc = [0u8; 5];
    let mut out = Vec::new();
    out.extend(as_packets(0x0000, &pat(), &mut cc[0]));
    out.extend(as_packets(MAP, &pmt(), &mut cc[1]));
    out.extend(picture(1));
    out.extend(as_packets(0x0011, &sdt(), &mut cc[2]));
    out.extend(as_packets(0x0012, &eit(0), &mut cc[3]));
    out.extend(as_packets(0x0012, &eit(1), &mut cc[3]));
    out.extend(as_packets(0x0014, &tot(), &mut cc[4]));
    for i in 0..8 {
        out.extend(picture(i));
    }
    out
}

fn service() -> Service {
    read_service(&broadcast_stream()).unwrap()
}

fn graft_of(service: &Service, tables: Tables) -> Graft<'_> {
    Graft {
        service,
        streams: vec![
            GraftStream { pid: PICTURES, faithful: true },
            GraftStream { pid: SOUND, faithful: false },
        ],
        pcr_pid: PICTURES,
        ranges: vec![GraftRange {
            start: 0,
            snapshot: Snapshot { eit: vec![eit(0), eit(1)], tot: Some(tot()), tdt: None },
        }],
        tables,
    }
}

/// A finished cut, as a muxer writes one: its own tables, then pictures.
fn cut() -> Vec<Vec<u8>> {
    let mut cc = 0;
    let mut packets = vec![
        as_packets(0x0000, &pat(), &mut cc),
        as_packets(0x0011, &sdt(), &mut cc),
        as_packets(MAP, &pmt(), &mut cc),
        clock(1000),
        picture(7),
        clock(1000 + 180_000),
        clock(1000 + 450_000),
    ];
    for i in 0..6 {
        packets.push(picture(i));
    }
    packets
}

#[test]
fn a_short_section_takes_one_packet() {
    let mut cc = 14;
    let p = as_packets(0x1FFF, &[0xAA, 0xBB], &mut cc);
    assert_eq!(cc, 15);
    assert_eq!(p.len(), PACKET);
    assert_eq!(&p[..7], &[0x47, 0x5F, 0xFF, 0x1E, 0x00, 0xAA, 0xBB]);
    assert!(p[7..].iter().all(|&b| b == 0xFF));
}

#[test]
fn a_long_section_goes_on_in_the_next_packet() {
    let section: Vec<u8> = (0..184u16).map(|i| i as u8).collect();
    let mut cc = 15;
    let p = as_packets(0x0012, &section, &mut cc);
    assert_eq!(cc, 1);
    assert_eq!(p.len(), 2 * PACKET);
    assert_eq!(&p[..5], &[0x47, 0x40, 0x12, 0x1F, 0x00]);
    assert_eq!(&p[188..194], &[0x47, 0x00, 0x12, 0x10, 183, 0xFF]);
}

#[test]
fn a_section_survives_its_packets() {
    let section = {
        let mut sec = vec![0x4E, 0xF0, 0x00];
        sec.extend((0..600u16).map(|i| i as u8));
        finish_section(&mut sec);
        sec
    };
    let mut cc = 3;
    let mut reader = SectionReader::new();
    let mut got = Vec::new();
    for p in as_packets(0x0012, &section, &mut cc).chunks(PACKET) {
        got.extend(reader.feed(p));
    }
    assert_eq!(got, vec![section]);
}

#[test]
fn a_packet_says_where_it_belongs_and_what_time_it_is() {
    let p = clock(0x1_2345_6789);
    assert_eq!(pid_of(&p), PICTURES);
    assert_eq!(pcr_of(&p), Some(0x1_2345_6789));
    assert_eq!(payload_start(&p), None);
    assert_eq!(pcr_of(&picture(0)), None);
    assert_eq!(payload_start(&picture(0)), Some(4));
}

#[test]
fn a_recording_is_read_at_either_spacing() {
    let plain = broadcast_stream();
    assert_eq!(framing(&plain), Some((0, PACKET)));
    let mut stamped = Vec::new();
    for p in plain.chunks(PACKET) {
        stamped.extend_from_slice(&[0, 0, 0, 0]);
        stamped.extend_from_slice(p);
    }
    assert_eq!(framing(&stamped), Some((4, M2TS_PACKET)));
    let s = read_service(&stamped).unwrap();
    assert_eq!((s.service_id, s.pmt_pid), (0x00B5, MAP));
}

#[test]
fn a_recording_describes_itself() {
    let s = service();
    assert_eq!(s.transport_stream_id, 0x40D1);
    assert_eq!(s.original_network_id, 0x0004);
    assert_eq!(s.service_id, 0x00B5);
    assert_eq!(s.service_type, 0x01);
    assert_eq!(s.pmt_pid, MAP);
    assert_eq!(s.pcr_pid, PICTURES);
    // The scrambling is gone from a recording, and so is its description.
    assert_eq!(s.program_info, vec![0xC1, 0x02, 0x84, 0xF4]);
    assert_eq!(s.streams.len(), 2);
    assert_eq!((s.streams[1].pid, s.streams[1].stream_type), (SOUND, 0x0F));
    assert_eq!(s.streams[1].component_tag(), Some(0x10));
    assert_eq!(s.sdt, Some(sdt()));
    assert!(s.stream(PICTURES).is_some());
    assert!(s.stream(0x0120).is_none());
}

#[test]
fn what_is_not_a_recording_is_refused() {
    assert_eq!(read_service(&vec![0; 4000]).err(), Some(SiError::NotATransportStream));
    let pictures: Vec<u8> = (0..9).flat_map(|_| picture(0)).collect();
    assert_eq!(read_service(&pictures).err(), Some(SiError::NoProgramMap));
    assert_eq!(output_layout(&vec![0; 4000]), Err(SiError::NotATransportStream));
    assert_eq!(output_layout(&pictures), Err(SiError::NoProgramAssociation));
}

#[test]
fn what_was_on_is_read_beside_the_pictures() {
    let snap = snapshot_at(&broadcast_stream(), 0x00B5);
    assert_eq!(snap.eit, vec![eit(0), eit(1)]);
    assert_eq!(snap.tot, Some(tot()));
    assert_eq!(snap.tdt, None);
    assert!(!snap.is_empty());
    let other = snapshot_at(&broadcast_stream(), 0x00B6);
    assert!(other.eit.is_empty());
    assert!(snapshot_at(&vec![0; 4000], 0x00B5).is_empty());
}

#[test]
fn the_layout_is_the_finished_files_own() {
    assert_eq!(output_layout(&cut().concat()), Ok((MAP, PICTURES)));
    let mut cc = 0;
    let mut no_map = as_packets(0x0000, &pat(), &mut cc);
    for _ in 0..8 {
        no_map.extend(picture(0));
    }
    assert_eq!(output_layout(&no_map), Ok((MAP, 0)));
    assert_eq!(LAYOUT_WINDOW, 4 << 20);
}

#[test]
fn a_descriptor_is_found_by_its_tag() {
    let l = [0x52, 0x01, 0x10, 0x09, 0x02, 0xAA, 0xBB, 0xFD, 0x00];
    assert_eq!(descriptor(&l, 0x09), Some(&[0xAA, 0xBB][..]));
    assert_eq!(descriptor(&l, 0xFD), Some(&[][..]));
    assert_eq!(descriptor(&l, 0x48), None);
    assert_eq!(keep_descriptors(&l), vec![0x52, 0x01, 0x10, 0xFD, 0x00]);
}

#[test]
fn the_rebuilt_map_keeps_what_is_still_true() {
    let s = service();
    let g = graft_of(&s, Tables::Broadcast);
    let components = Components::of(&g);
    assert!(components.described.contains(&0x10) && !components.carried.contains(&0x10));
    let map = build_pmt(&g, PICTURES, &components);
    let mut want = vec![0x02, 0xB0, 0x00, 0x00, 0xB5, 0xC1, 0x00, 0x00, 0xE1, 0x00];
    want.extend_from_slice(&[0xF0, 0x04, 0xC1, 0x02, 0x84, 0xF4]);
    want.extend_from_slice(&[0x02, 0xE1, 0x00, 0xF0, 0x03, 0x52, 0x01, 0x00]);
    // Only its identity is left of the track that was made again.
    want.extend_from_slice(&[0x0F, 0xE1, 0x10, 0xF0, 0x03, 0x52, 0x01, 0x10]);
    finish_section(&mut want);
    assert_eq!(map, want);
    assert_eq!(crc32(&map), 0);
}

#[test]
fn the_broadcasts_tables_go_back_where_they_belong() {
    let s = service();
    let g = graft_of(&s, Tables::Broadcast);
    let packets = cut();
    let (out, stats) = graft(&packets.concat(), &g).unwrap();
    assert_eq!(stats, Stats { pmt: 1, sdt: 1, eit: 3, tot: 2, sit: 0 });

    let map = build_pmt(&g, PICTURES, &Components::of(&g));
    let (mut cc_map, mut cc_sdt, mut cc_eit, mut cc_tot) = (0, 0, 0, 0);
    let mut want = packets[0].clone();
    want.extend(as_packets(0x0012, &eit(0), &mut cc_eit));
    want.extend(as_packets(0x0012, &eit(1), &mut cc_eit));
    want.extend(as_packets(0x0014, &tot(), &mut cc_tot));
    want.extend(as_packets(0x0011, &sdt(), &mut cc_sdt));
    want.extend(as_packets(MAP, &map, &mut cc_map));
    want.extend(packets[3..6].concat());
    want.extend(as_packets(0x0012, &eit(0), &mut cc_eit));
    want.extend(as_packets(0x0012, &eit(1), &mut cc_eit));
    want.extend(packets[6].clone());
    want.extend(as_packets(0x0012, &eit(0), &mut cc_eit));
    want.extend(as_packets(0x0012, &eit(1), &mut cc_eit));
    want.extend(as_packets(0x0014, &advance_time(&tot(), 5).unwrap(), &mut cc_tot));
    want.extend(packets[7..].concat());
    assert_eq!(out, want);
}

#[test]
fn a_partial_stream_carries_one_table() {
    let s = service();
    let g = graft_of(&s, Tables::Partial);
    let packets = cut();
    let (out, stats) = graft(&packets.concat(), &g).unwrap();
    assert_eq!(stats, Stats { pmt: 1, sdt: 0, eit: 0, tot: 0, sit: 1 });
    assert_eq!(out.len(), packets.len() * PACKET);
    assert_eq!(&out[..PACKET], &packets[0][..]);
    assert_eq!(pid_of(&out[PACKET..2 * PACKET]), 0x001F);
    assert_eq!(out[PACKET + 5], 0x7F);
    assert_eq!(&out[3 * PACKET..], &packets[3..].concat()[..]);
}

#[test]
fn each_range_opens_with_what_was_on() {
    let s = service();
    let mut g = graft_of(&s, Tables::Broadcast);
    g.ranges.push(GraftRange {
        start: 90_000,
        snapshot: Snapshot { eit: vec![eit(1)], tot: None, tdt: Some(tdt()) },
    });
    let (out, stats) = graft(&cut().concat(), &g).unwrap();
    // At the start, on entering the second range, and three seconds on.
    assert_eq!((stats.eit, stats.tot), (3, 2));
    let told: Vec<&[u8]> = out.chunks(PACKET).filter(|p| pid_of(p) == 0x0014).collect();
    // The second range's own clock, a second after it opened.
    assert_eq!(&told[1][5..13], &[0x70, 0x70, 0x05, 0xEF, 0x58, 0x23, 0x59, 0x51]);
}

#[test]
fn what_cannot_be_grafted_onto_is_refused() {
    let s = service();
    let mut g = graft_of(&s, Tables::Broadcast);
    assert_eq!(graft(&vec![0; 4000], &g).err(), Some(SiError::NotATransportStream));
    let pictures: Vec<u8> = (0..9).flat_map(|_| picture(0)).collect();
    assert_eq!(graft(&pictures, &g).err(), Some(SiError::NoProgramAssociation));
    let mut broken = cut().concat();
    broken[9 * PACKET] = 0;
    assert_eq!(graft(&broken, &g).err(), Some(SiError::NotPacketAligned));
    g.ranges.clear();
    assert_eq!(graft(&cut().concat(), &g).err(), Some(SiError::NoRanges));
}

#[test]
fn a_pass_over_packets_is_the_pass_over_the_file() {
    let s = service();
    let g = graft_of(&s, Tables::Broadcast);
    let whole = cut().concat();
    let plan = plan_graft(&g, MAP, PICTURES, 0);
    let mut pass = GraftPass::new();
    let mut out = Vec::new();
    for p in whole.chunks(PACKET) {
        pass.step(&plan, p, &mut out);
    }
    let (want, stats) = graft(&whole, &g).unwrap();
    assert_eq!(out, want);
    assert_eq!(pass.stats(), stats);
}

#[test]
fn the_rate_is_the_fastest_second() {
    let mut buf = clock(0);
    for _ in 0..99 {
        buf.extend(picture(0));
    }
    buf.extend(clock(90_000));
    // 101 packets in one second come to 151,904 bits.
    assert_eq!(peak_rate(&buf, PICTURES, 0), 380);
    assert_eq!(peak_rate(&buf, PICTURES, SELECTION_RATE), 553);
    // No clock on that PID, so nothing but what is added.
    assert_eq!(peak_rate(&buf, SOUND, SELECTION_RATE), 173);
    let mut meter = PeakMeter::new();
    for p in buf.chunks(PACKET) {
        meter.take(p, PICTURES);
    }
    assert_eq!(meter.rate(0), 380);
    assert_eq!(meter.rate(u64::MAX), 0x3F_FFFF);
}

#[test]
fn the_rate_is_written_in_four_hundreds() {
    assert_eq!(
        partial_stream_descriptor(0x01_2345),
        vec![0x63, 0x08, 0xC1, 0x23, 0x45, 0xFF, 0xFF, 0xFF, 0xFF, 0xFF]
    );
    assert_eq!(partial_stream_descriptor(u32::MAX)[2..5], [0xFF, 0xFF, 0xFF]);
}

fn tdt() -> Vec<u8> {
    vec![0x70, 0x70, 0x05, 0xEF, 0x58, 0x23, 0x59, 0x50]
}

#[test]
fn a_clock_is_moved_past_midnight() {
    assert_eq!(
        advance_time(&tdt(), 15),
        Some(vec![0x70, 0x70, 0x05, 0xEF, 0x59, 0x00, 0x00, 0x05])
    );
    let moved = advance_time(&tot(), 3661).unwrap();
    assert_eq!(&moved[3..8], &[0xEF, 0x58, 0x21, 0x01, 0x01]);
    assert_eq!(crc32(&moved), 0);
    assert_eq!(advance_time(&tdt()[..7], 15), None);
}

#[test]
fn each_set_of_tables_has_a_name() {
    assert_eq!(Tables::Muxer.as_str(), "muxer");
    assert_eq!(Tables::Broadcast.as_str(), "broadcast");
    assert_eq!(Tables::Partial.as_str(), "partial");
    assert_eq!(Tables::default(), Tables::Partial);
}

#[test]
fn a_stream_says_which_component_it_is() {
    let es = |descriptors: Vec<u8>| ElementaryStream { pid: 1, stream_type: 2, descriptors };
    assert_eq!(es(vec![0x52, 0x01, 0x30]).component_tag(), Some(0x30));
    assert_eq!(es(vec![0x52, 0x00]).component_tag(), None);
    assert_eq!(es(vec![]).component_tag(), None);
}

#[test]
fn what_was_written_over_reads_back() {
    let s = service();
    let g = graft_of(&s, Tables::Broadcast);
    let mut packets = cut();
    let mut cc = 1;
    packets.push(as_packets(MAP, &pmt(), &mut cc));
    let (out, stats) = graft(&packets.concat(), &g).unwrap();
    let read = |pid: u16| {
        let mut reader = SectionReader::new();
        let mut got = Vec::new();
        for p in out.chunks(PACKET).filter(|p| pid_of(p) == pid) {
            got.extend(reader.feed(p));
        }
        got
    };
    let map = build_pmt(&g, PICTURES, &Components::of(&g));
    assert_eq!(stats.pmt, 2);
    assert_eq!(read(MAP), vec![map.clone(), map]);
    assert_eq!(read(0x0011), vec![sdt()]);
    // And the whole of it is a recording again.
    let again = read_service(&out).unwrap();
    assert_eq!(again.sdt, s.sdt);
    assert_eq!(again.program_info, s.program_info);
    assert_eq!(again.streams.len(), 2);
}

/// Tables a cut has already on the other PIDs stay where they are.
#[test]
fn only_the_map_and_the_description_are_written_over() {
    let s = service();
    let g = graft_of(&s, Tables::Broadcast);
    let mut packets = cut();
    let mut cc = 5;
    packets.push(as_packets(0x0012, &eit(1), &mut cc));
    packets.push(as_packets(0x0014, &tot(), &mut cc));
    packets.push(as_packets(0x001F, &eit(0), &mut cc));
    let (out, _) = graft(&packets.concat(), &g).unwrap();
    let mut left = out.chunks(PACKET);
    for p in packets.iter().filter(|p| ![MAP, 0x0011].contains(&pid_of(p))) {
        assert!(left.any(|q| q == &p[..]));
    }
}
