use smartcut_core::restamp::{shift_time, stamp, timed, wrap, Piece, Restamp, SOURCE_PACKET, WRAP};


/// A packet with a PES header in it: a payload unit starting, with a
/// presentation time and a decode time.
fn pes_packet(pts: i64, dts: i64) -> Vec<u8> {
    let mut ts = vec![0xFFu8; 188];
    ts[0] = 0x47;
    ts[1] = 0x40 | 0x01; // unit starts here, pid 0x0100
    ts[2] = 0x00;
    ts[3] = 0x10; // payload only
    let pes = &mut ts[4..];
    pes[0] = 0;
    pes[1] = 0;
    pes[2] = 1;
    pes[3] = 0xE0; // video
    pes[4] = 0;
    pes[5] = 0;
    pes[6] = 0x80;
    pes[7] = 0xC0; // both times present
    pes[8] = 10;
    // Zeroed and then moved, which exercises the encoder above on the
    // way in as well as on the way out.
    for b in pes[9..19].iter_mut() {
        *b = 0;
    }
    shift_time(pes, 9, pts);
    shift_time(pes, 14, dts);
    ts
}

fn read_time(at: &[u8]) -> i64 {
    (((at[0] & 0x0E) as i64) << 29)
        | ((at[1] as i64) << 22)
        | (((at[2] & 0xFE) as i64) << 14)
        | ((at[3] as i64) << 7)
        | ((at[4] & 0xFE) as i64 >> 1)
}

/// The times move and nothing else does.
#[test]
fn a_presentation_time_moves_by_the_shift() {
    let mut ts = pes_packet(90_000, 87_000);
    let before = ts.clone();
    stamp(&mut ts, 450_000);
    assert_eq!(read_time(&ts[13..18]), 540_000);
    assert_eq!(read_time(&ts[18..23]), 537_000);
    assert_eq!(ts.len(), before.len());
    // The header around them is untouched, marker bits and all.
    assert_eq!(ts[..13], before[..13]);
    assert_eq!(ts[23..], before[23..]);
}

/// A clock reference is on the same clock and moves with them.
#[test]
fn a_clock_reference_moves_too() {
    let mut ts = vec![0xFFu8; 188];
    ts[0] = 0x47;
    ts[1] = 0x01;
    ts[2] = 0x00;
    ts[3] = 0x20; // adaptation field only
    ts[4] = 183;
    ts[5] = 0x10; // a clock reference follows
    for b in ts[6..12].iter_mut() {
        *b = 0;
    }
    ts[10] = 0x7E; // reserved bits set, extension zero
    stamp(&mut ts, 90_000);
    let base = ((ts[6] as i64) << 25)
        | ((ts[7] as i64) << 17)
        | ((ts[8] as i64) << 9)
        | ((ts[9] as i64) << 1)
        | ((ts[10] as i64) >> 7);
    assert_eq!(base, 90_000);
    assert_eq!(ts[10] & 0x7F, 0x7E); // the extension and its padding
}

/// Which piece a byte falls in is decided by position and nothing else,
/// which is what lets a demuxer seek.
#[test]
fn the_shift_is_read_off_the_position() {
    let table = Restamp::new(vec![
        Piece { at: 0, shift: 0, from: 0 },
        Piece {
            at: 1_000,
            shift: 500,
            from: 0,
        },
        Piece {
            at: 2_000,
            shift: -300,
            from: 0,
        },
    ]);
    assert_eq!(table.shift_at(0), 0);
    assert_eq!(table.shift_at(999), 0);
    assert_eq!(table.shift_at(1_000), 500);
    assert_eq!(table.shift_at(1_999), 500);
    assert_eq!(table.shift_at(2_000), -300);
    assert_eq!(table.shift_at(9_999_999), -300);
}

/// A whole buffer is corrected packet by packet, and a packet that
/// straddles a boundary takes the correction of where it starts.
#[test]
fn a_buffer_is_corrected_a_packet_at_a_time() {
    let table = Restamp::new(vec![
        Piece { at: 0, shift: 0, from: 0 },
        Piece {
            at: SOURCE_PACKET as u64,
            shift: 90_000,
            from: 0,
        },
    ]);
    let mut buf = Vec::new();
    for _ in 0..2 {
        buf.extend_from_slice(&[0u8; 4]);
        buf.extend_from_slice(&pes_packet(45_000, 45_000));
    }
    table.apply(0, &mut buf);
    assert_eq!(read_time(&buf[17..22]), 45_000);
    assert_eq!(read_time(&buf[SOURCE_PACKET + 17..SOURCE_PACKET + 22]), 135_000);
}

/// The table survives the trip through a URL.
#[test]
fn a_table_is_written_down_and_read_back() {
    let table = Restamp::new(vec![
        Piece { at: 0, shift: 0, from: 0 },
        Piece {
            at: 1_720_320,
            shift: -1_234,
            from: 0,
        },
    ]);
    assert_eq!(Restamp::decode(&table.encode()), Some(table));
    assert_eq!(Restamp::decode("nonsense"), None);
    // Out of order is not a table.
    assert_eq!(Restamp::decode("100:0,50:0"), None);
}

/// A clip that already reads straight through is left alone, and one
/// written in stretches is a table even where nothing has to move.
#[test]
fn one_piece_corrects_nothing() {
    assert!(!Restamp::new(vec![Piece { at: 0, shift: 0, from: 0 }]).wanted());
    assert!(Restamp::new(vec![
        Piece { at: 0, shift: 0, from: 0 },
        Piece { at: 100, shift: 0, from: 0 }
    ])
    .wanted());
    // And a correction of nothing leaves the packet exactly as it was.
    let mut buf = vec![0u8; 4];
    buf.extend_from_slice(&pes_packet(45_000, 45_000));
    let before = buf.clone();
    Restamp::new(vec![Piece { at: 0, shift: 0, from: 0 }]).apply(0, &mut buf);
    assert_eq!(buf, before);
}

/// A time pushed past the end of the clock starts again at the
/// beginning, and one pulled back before it does the same.
#[test]
fn the_clock_wraps_rather_than_overflowing() {
    assert_eq!(wrap(WRAP + 7), 7);
    assert_eq!(wrap(-1), WRAP - 1);
    let mut ts = pes_packet(WRAP - 90_000, WRAP - 90_000);
    stamp(&mut ts, 180_000);
    assert_eq!(read_time(&ts[13..18]), 90_000);
}

#[test]
fn nothing_to_correct_by_default() {
    let table = Restamp::default();
    assert_eq!(table, Restamp::new(Vec::new()));
    assert_eq!(table.shift_at(1 << 20), 0);
}
