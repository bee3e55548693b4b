use smartcut_core::le::{put_i64, put_u32, put_u64, Reader, Unread};
use smartcut_core::rank::ranked;
use smartcut_core::time::{max_time, min_time, round_div};

#[test]
fn the_small_end_comes_first() {
    let mut out = Vec::new();
    put_u32(&mut out, 0x0102_0304);
    put_u64(&mut out, 0x0102_0304_0506_0708);
    put_i64(&mut out, -2);
    assert_eq!(out[..4], [4, 3, 2, 1]);
    assert_eq!(out[4..12], [8, 7, 6, 5, 4, 3, 2, 1]);
    assert_eq!(out[12..], [0xFE, 0xFF, 0xFF, 0xFF, 0xFF, 0xFF, 0xFF, 0xFF]);
    let mut r = Reader { raw: &out, at: 0 };
    assert_eq!(r.u32(), Ok(0x0102_0304));
    assert_eq!(r.u64(), Ok(0x0102_0304_0506_0708));
    assert_eq!(r.i64(), Ok(-2));
    assert_eq!(r.at, 20);
}

#[test]
fn a_file_that_ends_early_says_so() {
    let mut r = Reader { raw: &[1, 2, 3], at: 0 };
    assert_eq!(r.u8(), Ok(1));
    assert_eq!(r.u32(), Err(Unread::Truncated));
    assert_eq!(r.at, 1);
    assert_eq!(r.take(2), Ok(&[2u8, 3][..]));
    assert_eq!(r.u8(), Err(Unread::Truncated));
}

#[test]
fn more_than_there_can_be_is_no_length() {
    let mut r = Reader { raw: &[1, 2, 3], at: 3 };
    assert_eq!(r.take(usize::MAX), Err(Unread::Corrupt));
    assert_eq!(r.take(usize::MAX - 3), Err(Unread::Truncated));
}

#[test]
fn counted_bytes_are_read_by_their_count() {
    let mut r = Reader { raw: &[2, 0, 0, 0, 7, 8, 9], at: 0 };
    assert_eq!(r.bytes(), Ok(&[7u8, 8][..]));
    assert_eq!(r.at, 6);
    let mut short = Reader { raw: &[9, 0, 0, 0, 7], at: 0 };
    assert_eq!(short.bytes(), Err(Unread::Truncated));
}

#[test]
fn values_stand_where_order_puts_them() {
    let v = [5, -1, 5, i64::MAX, 0, i64::MIN];
    let placed: Vec<i64> = (0..v.len()).map(|k| ranked(&v, k)).collect();
    assert_eq!(placed, [i64::MIN, -1, 0, 5, 5, i64::MAX]);
}

#[test]
fn a_half_rounds_away_from_nought() {
    assert_eq!(round_div(5, 2), 3);
    assert_eq!(round_div(-5, 2), -3);
    assert_eq!(round_div(4, 3), 1);
    assert_eq!(round_div(-4, 3), -1);
    assert_eq!((max_time(-1, 2), min_time(-1, 2)), (2, -1));
}
