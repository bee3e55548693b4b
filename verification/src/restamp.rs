//! Make a clip whose clock restarts read as one recording.
//!
//! A recorder's clip is not always one run of time: it stops and starts, and
//! every time it does the stream inside begins a fresh sequence with a clock
//! of its own. Here the sequences are put back on one clock while the bytes
//! are being read. Nothing moves: a time lives in a fixed field, so adding to
//! it changes no length and no offset. And nothing is remembered: the
//! correction for a packet is worked out from its position alone, which is
//! what makes the thing seekable.
use crate::chars::{chars_of, find_char, index_from, lemma_index_is_first, string_of};
use crate::decimal::{
    decimal, law_a_number_reads_back, lemma_decimal_reads_back, put_decimal, put_signed,
    read_signed, read_unsigned, signed_decimal, signed_value, unsigned_value,
};
use vstd::prelude::*;
use vstd::slice::slice_subrange;

verus! {

/// A source packet: the transport packet and the four bytes in front of it
/// that say when it arrived.
pub const SOURCE_PACKET: usize = 192;

/// The clock wraps here: a correction that pushes a time past the end starts
/// again at the beginning, exactly as the stream itself would.
pub const WRAP: i64 = 0x2_0000_0000;

/// One stretch of a clip that keeps a single clock, and what to add to it.
#[derive(Debug, Clone, Copy, PartialEq, Eq, Structural)]
pub struct Piece {
    /// Where the stretch begins, in bytes from the start of what is opened.
    /// It runs to the next piece, and the last one runs to the end.
    pub at: u64,
    /// What to add to every time inside it, in 90 kHz ticks.
    pub shift: i64,
    /// Where it begins on the joined clock, in 90 kHz ticks. A join is a
    /// seam, and a copy cannot be carried across one.
    pub from: i64,
}

/// The pieces stand in order.
pub open spec fn in_order(pieces: Seq<Piece>) -> bool {
    forall|i: int, j: int|
        #![trigger pieces[i], pieces[j]]
        0 <= i < j < pieces.len() ==> pieces[i].at < pieces[j].at
}

/// The correction to apply to a clip, piece by piece.
#[derive(Debug, Clone, PartialEq, Eq)]
pub struct Restamp {
    pieces: Vec<Piece>,
}

impl Default for Restamp {
    fn default() -> (r: Restamp)
        ensures
            r@ == Seq::<Piece>::empty(),
    {
        Restamp { pieces: Vec::new() }
    }
}

impl View for Restamp {
    type V = Seq<Piece>;

    closed spec fn view(&self) -> Seq<Piece> {
        self.pieces@
    }
}

/// What to add to a time read at `at` bytes into the clip: the correction of
/// the last piece that begins at or before it. Before the first piece there
/// is nothing to go on, so the first piece's own is used.
pub open spec fn shift_for(pieces: Seq<Piece>, at: int) -> int
    decreases pieces.len(),
{
    if pieces.len() == 0 {
        0
    } else if pieces.len() == 1 || pieces.last().at <= at {
        pieces.last().shift as int
    } else {
        shift_for(pieces.drop_last(), at)
    }
}

/// The correction is that of the piece the position falls in.
pub proof fn law_the_shift_is_read_off_the_position(pieces: Seq<Piece>, i: int, at: int)
    requires
        in_order(pieces),
        0 <= i < pieces.len(),
        pieces[i].at <= at,
        i + 1 < pieces.len() ==> at < pieces[i + 1].at,
    ensures
        shift_for(pieces, at) == pieces[i].shift,
    decreases pieces.len(),
{
    if i + 1 < pieces.len() {
        assert(pieces.last().at > at) by {
            if i + 1 < pieces.len() - 1 {
                assert(pieces[i + 1].at < pieces[pieces.len() - 1].at);
            }
        }
        let short = pieces.drop_last();
        assert(in_order(short)) by {
            assert forall|a: int, b: int|
                #![trigger short[a], short[b]]
                0 <= a < b < short.len() implies short[a].at < short[b].at by {
                assert(pieces[a].at < pieces[b].at);
            }
        }
        law_the_shift_is_read_off_the_position(short, i, at);
    }
}

/// Before the second piece begins the first piece's correction holds.
proof fn lemma_shift_before_all(pieces: Seq<Piece>, at: int)
    requires
        in_order(pieces),
        pieces.len() > 0,
        at < pieces[0].at,
    ensures
        shift_for(pieces, at) == pieces[0].shift,
    decreases pieces.len(),
{
    if pieces.len() > 1 {
        assert(pieces[0].at < pieces[pieces.len() - 1].at);
        let short = pieces.drop_last();
        assert forall|a: int, b: int|
            #![trigger short[a], short[b]]
            0 <= a < b < short.len() implies short[a].at < short[b].at by {
            assert(pieces[a].at < pieces[b].at);
        }
        lemma_shift_before_all(short, at);
    }
}

/// A time carried round the clock.
pub open spec fn wrapped(v: int) -> int {
    v % (WRAP as int)
}

/// A time that ran off either end of the clock comes back on at the other,
/// which is what the clock itself does.
pub fn wrap(v: i64) -> (r: i64)
    ensures
        r == wrapped(v as int),
        0 <= r < WRAP,
{
    let left: i64 = v % WRAP;
    if left < 0 {
        proof {
            let m = -v as int;
            assert(left == -(m % 0x2_0000_0000));
            assert(v == -(m / 0x2_0000_0000) * 0x2_0000_0000 - m % 0x2_0000_0000);
            vstd::arithmetic::div_mod::lemma_fundamental_div_mod_converse_mod(
                v as int,
                0x2_0000_0000,
                -(m / 0x2_0000_0000) - 1,
                left + 0x2_0000_0000,
            );
        }
        left + WRAP
    } else {
        left
    }
}

/// A time moved on a clock that wraps.
fn moved_on(v: i64, shift: i64) -> (r: i64)
    requires
        0 <= v < WRAP,
    ensures
        r == wrapped(v + shift),
        0 <= r < WRAP,
{
    let s: i64 = wrap(shift);
    proof {
        vstd::arithmetic::div_mod::lemma_add_mod_noop_right(
            v as int,
            shift as int,
            0x2_0000_0000,
        );
    }
    wrap(v + s)
}

/// The five-byte time at `i`: 33 bits with a tag in front and marker bits
/// between.
#[verifier::opaque]
pub open spec fn time_at(b: Seq<u8>, i: int) -> int {
    (b[i] / 2 % 8) * 0x4000_0000 + b[i + 1] * 0x40_0000 + (b[i + 2] / 2) * 0x8000 + b[i + 3] * 0x80
        + b[i + 4] / 2
}

/// The bytes with another time written over the one at `i`. Only the value
/// changes: what the tag says is still true afterwards.
#[verifier::opaque]
pub open spec fn with_time(b: Seq<u8>, i: int, t: int) -> Seq<u8> {
    b.update(i, (b[i] - b[i] % 16 + t / 0x4000_0000 * 2 + 1) as u8).update(
        i + 1,
        (t / 0x40_0000 % 256) as u8,
    ).update(i + 2, (t / 0x8000 % 128 * 2 + 1) as u8).update(
        i + 3,
        (t / 0x80 % 256) as u8,
    ).update(i + 4, (t % 128 * 2 + 1) as u8)
}

/// The bytes with the time at `i` moved.
pub open spec fn time_shifted(b: Seq<u8>, i: int, shift: int) -> Seq<u8> {
    with_time(b, i, wrapped(time_at(b, i) + shift))
}

/// The program clock reference of a packet that carries one.
#[verifier::opaque]
pub open spec fn clock_at(b: Seq<u8>) -> int {
    b[6] * 0x200_0000 + b[7] * 0x2_0000 + b[8] * 0x200 + b[9] * 2 + b[10] / 128
}

/// The packet with another clock reference. Only the top half of it moves;
/// the nine bits of the faster clock under it stay.
#[verifier::opaque]
pub open spec fn with_clock(b: Seq<u8>, t: int) -> Seq<u8> {
    b.update(6, (t / 0x200_0000) as u8).update(7, (t / 0x2_0000 % 256) as u8).update(
        8,
        (t / 0x200 % 256) as u8,
    ).update(9, (t / 2 % 256) as u8).update(10, (t % 2 * 128 + b[10] % 128) as u8)
}

/// Whether a packet carries a clock reference.
pub open spec fn has_clock(b: Seq<u8>) -> bool {
    b[3] / 32 % 2 == 1 && b[4] >= 7 && b[5] / 16 % 2 == 1
}

/// Whether a stream id is one whose packets carry a header with times in it.
pub open spec fn is_timed(id: u8) -> bool {
    id != 0xBC && id != 0xBE && id != 0xBF && id != 0xF0 && id != 0xF1 && id != 0xF2 && id != 0xF8
        && id != 0xFF
}

/// Where a packet's payload begins.
pub open spec fn payload_from(b: Seq<u8>) -> int {
    if b[3] / 32 % 2 == 1 {
        5 + b[4]
    } else {
        4
    }
}

/// Whether a PES header with room for times begins in this packet.
pub open spec fn has_header(b: Seq<u8>) -> bool {
    let p = payload_from(b);
    &&& b[3] / 16 % 2 == 1
    &&& b[1] / 64 % 2 == 1
    &&& p + 14 <= b.len()
    &&& b[p] == 0
    &&& b[p + 1] == 0
    &&& b[p + 2] == 1
    &&& is_timed(b[p + 3])
    &&& b[p + 6] / 64 == 2
}

/// Whether that header states a presentation time.
pub open spec fn has_pts(b: Seq<u8>) -> bool {
    has_header(b) && b[payload_from(b) + 7] / 128 == 1 && b[payload_from(b) + 8] >= 5
}

/// Whether it states a decode time behind it.
pub open spec fn has_dts(b: Seq<u8>) -> bool {
    has_header(b) && b[payload_from(b) + 7] / 64 == 3 && b[payload_from(b) + 8] >= 10
        && payload_from(b) + 19 <= b.len()
}

/// Whether these bytes are a transport packet.
pub open spec fn is_packet(b: Seq<u8>) -> bool {
    b.len() >= 188 && b[0] == 0x47
}

/// A transport packet with every time in it moved.
pub open spec fn stamped(b: Seq<u8>, shift: int) -> Seq<u8> {
    if !is_packet(b) {
        b
    } else {
        let p = payload_from(b);
        let clocked = if has_clock(b) {
            clock_shifted(b, shift)
        } else {
            b
        };
        let presented = if has_pts(b) {
            time_shifted(clocked, p + 9, shift)
        } else {
            clocked
        };
        if has_dts(b) {
            time_shifted(presented, p + 14, shift)
        } else {
            presented
        }
    }
}

/// The packet with its clock reference moved.
pub open spec fn clock_shifted(b: Seq<u8>, shift: int) -> Seq<u8> {
    with_clock(b, wrapped(clock_at(b) + shift))
}

/// Thirty-three bits taken apart the way a PES header holds them.
proof fn lemma_time_bits(t: int)
    requires
        0 <= t < 0x2_0000_0000,
    ensures
        t == t / 0x4000_0000 * 0x4000_0000 + t / 0x40_0000 % 256 * 0x40_0000 + t / 0x8000 % 128
            * 0x8000 + t / 0x80 % 256 * 0x80 + t % 128,
        0 <= t / 0x4000_0000 < 8,
{
    let q1 = t / 0x80;
    let q2 = q1 / 256;
    let q3 = q2 / 128;
    let q4 = q3 / 256;
    assert(q2 == t / 0x8000);
    assert(q3 == t / 0x40_0000);
    assert(q4 == t / 0x4000_0000);
    assert(t == 0x80 * q1 + t % 128);
    assert(q1 == 256 * q2 + q1 % 256);
    assert(q2 == 128 * q3 + q2 % 128);
    assert(q3 == 256 * q4 + q3 % 256);
}

/// Thirty-three bits put together come apart as they went in.
proof fn lemma_time_bits_join(a: int, b: int, c: int, d: int, e: int)
    requires
        0 <= a < 8,
        0 <= b < 256,
        0 <= c < 128,
        0 <= d < 256,
        0 <= e < 128,
    ensures
        ({
            let t = a * 0x4000_0000 + b * 0x40_0000 + c * 0x8000 + d * 0x80 + e;
            &&& 0 <= t < 0x2_0000_0000
            &&& t / 0x4000_0000 == a
            &&& t / 0x40_0000 % 256 == b
            &&& t / 0x8000 % 128 == c
            &&& t / 0x80 % 256 == d
            &&& t % 128 == e
        }),
{
    let t = a * 0x4000_0000 + b * 0x40_0000 + c * 0x8000 + d * 0x80 + e;
    assert(t / 0x80 == a * 0x80_0000 + b * 0x8000 + c * 0x100 + d);
    assert(t / 0x8000 == a * 0x8000 + b * 0x80 + c);
    assert(t / 0x40_0000 == a * 0x100 + b);
    assert(t / 0x4000_0000 == a);
}

/// A clock reference taken apart the way an adaptation field holds it.
proof fn lemma_clock_bits(t: int)
    requires
        0 <= t < 0x2_0000_0000,
    ensures
        t == t / 0x200_0000 * 0x200_0000 + t / 0x2_0000 % 256 * 0x2_0000 + t / 0x200 % 256 * 0x200
            + t / 2 % 256 * 2 + t % 2,
        0 <= t / 0x200_0000 < 256,
{
    let q1 = t / 2;
    let q2 = q1 / 256;
    let q3 = q2 / 256;
    let q4 = q3 / 256;
    assert(q2 == t / 0x200);
    assert(q3 == t / 0x2_0000);
    assert(q4 == t / 0x200_0000);
    assert(q1 == 256 * q2 + q1 % 256);
    assert(q2 == 256 * q3 + q2 % 256);
    assert(q3 == 256 * q4 + q3 % 256);
}

/// A clock reference put together comes apart as it went in.
proof fn lemma_clock_bits_join(a: int, b: int, c: int, d: int, e: int)
    requires
        0 <= a < 256,
        0 <= b < 256,
        0 <= c < 256,
        0 <= d < 256,
        0 <= e < 2,
    ensures
        ({
            let t = a * 0x200_0000 + b * 0x2_0000 + c * 0x200 + d * 2 + e;
            &&& 0 <= t < 0x2_0000_0000
            &&& t / 0x200_0000 == a
            &&& t / 0x2_0000 % 256 == b
            &&& t / 0x200 % 256 == c
            &&& t / 2 % 256 == d
            &&& t % 2 == e
        }),
{
    let t = a * 0x200_0000 + b * 0x2_0000 + c * 0x200 + d * 2 + e;
    assert(t / 2 == a * 0x100_0000 + b * 0x1_0000 + c * 0x100 + d);
    assert(t / 0x200 == a * 0x1_0000 + b * 0x100 + c);
    assert(t / 0x2_0000 == a * 0x100 + b);
    assert(t / 0x200_0000 == a);
}

/// Writing a time touches its own five bytes only.
proof fn lemma_time_frame(b: Seq<u8>, i: int, t: int)
    requires
        0 <= i,
        i + 5 <= b.len(),
    ensures
        with_time(b, i, t).len() == b.len(),
        forall|k: int|
            0 <= k < b.len() && !(i <= k < i + 5) ==> #[trigger] with_time(b, i, t)[k] == b[k],
{
    reveal(with_time);
}

/// What a time becomes depends on its own five bytes only.
proof fn lemma_time_local(b: Seq<u8>, c: Seq<u8>, i: int, shift: int)
    requires
        0 <= i,
        i + 5 <= b.len(),
        b.len() == c.len(),
        forall|k: int| i <= k < i + 5 ==> b[k] == c[k],
    ensures
        forall|k: int|
            i <= k < i + 5 ==> #[trigger] time_shifted(b, i, shift)[k] == time_shifted(
                c,
                i,
                shift,
            )[k],
{
    assert(time_at(b, i) == time_at(c, i)) by {
        reveal(time_at);
        assert(b[i] == c[i] && b[i + 1] == c[i + 1] && b[i + 2] == c[i + 2] && b[i + 3] == c[i + 3]
            && b[i + 4] == c[i + 4]);
    }
    reveal(with_time);
    assert(b[i] == c[i]);
}

/// The tag and the top three bits share a byte and keep apart in it.
proof fn lemma_tag_byte(tag: int, top: int)
    requires
        0 <= top < 8,
        0 <= tag < 16,
    ensures
        (tag * 16 + top * 2 + 1) / 2 % 8 == top,
        (tag * 16 + top * 2 + 1) % 16 == top * 2 + 1,
        (tag * 16 + top * 2 + 1) < 256,
{
    assert((tag * 16 + top * 2 + 1) / 2 == tag * 8 + top);
}

/// A time written down reads back as itself, and its tag stays.
proof fn lemma_time_reads_back(b: Seq<u8>, i: int, t: int)
    requires
        0 <= i,
        i + 5 <= b.len(),
        0 <= t < 0x2_0000_0000,
    ensures
        time_at(with_time(b, i, t), i) == t,
        with_time(b, i, t)[i] - with_time(b, i, t)[i] % 16 == b[i] - b[i] % 16,
{
    let w = with_time(b, i, t);
    let tag = b[i] as int / 16;
    let a = t / 0x4000_0000;
    lemma_time_bits(t);
    lemma_tag_byte(tag, a);
    assert(b[i] - b[i] % 16 == tag * 16);
    assert(w[i] == tag * 16 + a * 2 + 1 && w[i + 1] == t / 0x40_0000 % 256 && w[i + 2] == t / 0x8000
        % 128 * 2 + 1 && w[i + 3] == t / 0x80 % 256 && w[i + 4] == t % 128 * 2 + 1) by {
        reveal(with_time);
    }
    reveal(time_at);
}

/// Moving a time twice moves it by the sum.
proof fn lemma_time_shifts_add(b: Seq<u8>, i: int, x: int, y: int)
    requires
        0 <= i,
        i + 5 <= b.len(),
    ensures
        time_shifted(time_shifted(b, i, x), i, y) == time_shifted(b, i, x + y),
{
    let v = time_at(b, i);
    let t = wrapped(v + x);
    let w = with_time(b, i, t);
    lemma_time_frame(b, i, t);
    lemma_time_reads_back(b, i, t);
    vstd::arithmetic::div_mod::lemma_add_mod_noop_right(y, v + x, 0x2_0000_0000);
    assert(wrapped(t + y) == wrapped(v + (x + y)));
    let u = wrapped(t + y);
    assert(with_time(w, i, u) =~= with_time(b, i, u)) by {
        reveal(with_time);
    }
}

/// Two times that do not overlap move apart from one another.
proof fn lemma_times_move_apart(b: Seq<u8>, i: int, j: int, x: int, y: int)
    requires
        0 <= i,
        i + 5 <= j,
        j + 5 <= b.len(),
    ensures
        time_shifted(time_shifted(b, i, x), j, y) == time_shifted(time_shifted(b, j, y), i, x),
{
    let bi = time_shifted(b, i, x);
    let bj = time_shifted(b, j, y);
    lemma_time_frame(b, i, wrapped(time_at(b, i) + x));
    lemma_time_frame(b, j, wrapped(time_at(b, j) + y));
    lemma_time_frame(bi, j, wrapped(time_at(bi, j) + y));
    lemma_time_frame(bj, i, wrapped(time_at(bj, i) + x));
    lemma_time_local(bi, b, j, y);
    lemma_time_local(bj, b, i, x);
    let left = time_shifted(bi, j, y);
    let right = time_shifted(bj, i, x);
    assert forall|k: int| 0 <= k < b.len() implies left[k] == right[k] by {
        if i <= k < i + 5 {
            assert(left[k] == bi[k]);
            assert(right[k] == time_shifted(b, i, x)[k]);
        } else if j <= k < j + 5 {
            assert(left[k] == time_shifted(b, j, y)[k]);
            assert(right[k] == bj[k]);
        } else {
            assert(left[k] == bi[k] && bi[k] == b[k]);
            assert(right[k] == bj[k] && bj[k] == b[k]);
        }
    }
    assert(left =~= right);
}

/// Writing a clock reference touches its own five bytes only.
proof fn lemma_clock_frame(b: Seq<u8>, t: int)
    requires
        b.len() >= 188,
    ensures
        with_clock(b, t).len() == b.len(),
        forall|k: int|
            0 <= k < b.len() && !(6 <= k < 11) ==> #[trigger] with_clock(b, t)[k] == b[k],
{
    reveal(with_clock);
}

/// What a clock reference becomes depends on its own five bytes only.
proof fn lemma_clock_local(b: Seq<u8>, c: Seq<u8>, shift: int)
    requires
        b.len() >= 188,
        b.len() == c.len(),
        forall|k: int| 6 <= k < 11 ==> b[k] == c[k],
    ensures
        forall|k: int|
            6 <= k < 11 ==> #[trigger] clock_shifted(b, shift)[k] == clock_shifted(c, shift)[k],
{
    assert(clock_at(b) == clock_at(c)) by {
        reveal(clock_at);
        assert(b[6] == c[6] && b[7] == c[7] && b[8] == c[8] && b[9] == c[9] && b[10] == c[10]);
    }
    reveal(with_clock);
    assert(b[10] == c[10]);
}

/// Moving a clock reference twice moves it by the sum.
proof fn lemma_clock_shifts_add(b: Seq<u8>, x: int, y: int)
    requires
        b.len() >= 188,
    ensures
        clock_shifted(clock_shifted(b, x), y) == clock_shifted(b, x + y),
{
    let v = clock_at(b);
    let t = wrapped(v + x);
    let once = with_clock(b, t);
    lemma_clock_bits(t);
    lemma_clock_frame(b, t);
    assert(clock_at(once) == t && once[10] % 128 == b[10] % 128) by {
        reveal(clock_at);
        reveal(with_clock);
        assert(once[10] == t % 2 * 128 + b[10] % 128);
    }
    vstd::arithmetic::div_mod::lemma_add_mod_noop_right(y, v + x, 0x2_0000_0000);
    assert(wrapped(t + y) == wrapped(v + (x + y)));
    let u = wrapped(t + y);
    assert(with_clock(once, u) =~= with_clock(b, u)) by {
        reveal(with_clock);
    }
}

/// A clock reference and a time behind it move apart from one another.
proof fn lemma_clock_moves_apart(b: Seq<u8>, i: int, x: int, y: int)
    requires
        11 <= i,
        i + 5 <= b.len(),
        b.len() >= 188,
    ensures
        clock_shifted(time_shifted(b, i, x), y) == time_shifted(clock_shifted(b, y), i, x),
{
    let bi = time_shifted(b, i, x);
    let bc = clock_shifted(b, y);
    lemma_time_frame(b, i, wrapped(time_at(b, i) + x));
    lemma_clock_frame(b, wrapped(clock_at(b) + y));
    lemma_clock_frame(bi, wrapped(clock_at(bi) + y));
    lemma_time_frame(bc, i, wrapped(time_at(bc, i) + x));
    lemma_clock_local(bi, b, y);
    lemma_time_local(bc, b, i, x);
    let left = clock_shifted(bi, y);
    let right = time_shifted(bc, i, x);
    assert forall|k: int| 0 <= k < b.len() implies left[k] == right[k] by {
        if 6 <= k < 11 {
            assert(left[k] == clock_shifted(b, y)[k]);
            assert(right[k] == bc[k]);
        } else if i <= k < i + 5 {
            assert(left[k] == bi[k]);
            assert(right[k] == time_shifted(b, i, x)[k]);
        } else {
            assert(left[k] == bi[k] && bi[k] == b[k]);
            assert(right[k] == bc[k] && bc[k] == b[k]);
        }
    }
    assert(left =~= right);
}

/// A correction moves nothing that decides what a correction moves.
proof fn lemma_stamped_frame(b: Seq<u8>, x: int)
    requires
        is_packet(b),
    ensures
        is_packet(stamped(b, x)),
        stamped(b, x).len() == b.len(),
        payload_from(stamped(b, x)) == payload_from(b),
        has_clock(stamped(b, x)) == has_clock(b),
        has_pts(stamped(b, x)) == has_pts(b),
        has_dts(stamped(b, x)) == has_dts(b),
        has_clock(b) ==> payload_from(b) >= 12,
        forall|k: int|
            0 <= k < b.len() && !(has_clock(b) && 6 <= k < 11) && !(has_pts(b) && payload_from(b)
                + 9 <= k < payload_from(b) + 14) && !(has_dts(b) && payload_from(b) + 14 <= k
                < payload_from(b) + 19) ==> #[trigger] stamped(b, x)[k] == b[k],
{
    let p = payload_from(b);
    let c = if has_clock(b) {
        clock_shifted(b, x)
    } else {
        b
    };
    let q = if has_pts(b) {
        time_shifted(c, p + 9, x)
    } else {
        c
    };
    let d = stamped(b, x);
    if has_clock(b) {
        lemma_clock_frame(b, wrapped(clock_at(b) + x));
    }
    if has_pts(b) {
        lemma_time_frame(c, p + 9, wrapped(time_at(c, p + 9) + x));
    }
    if has_dts(b) {
        lemma_time_frame(q, p + 14, wrapped(time_at(q, p + 14) + x));
    }
    assert forall|k: int|
        0 <= k < b.len() && !(has_clock(b) && 6 <= k < 11) && !(has_pts(b) && p + 9 <= k < p + 14)
            && !(has_dts(b) && p + 14 <= k < p + 19) implies #[trigger] d[k] == b[k] by {
        assert(c[k] == b[k]);
        assert(q[k] == c[k]);
    }
    assert(has_clock(b) ==> p >= 12);
    assert(d[0] == b[0] && d[1] == b[1] && d[3] == b[3] && d[4] == b[4] && d[5] == b[5]);
    if p + 14 <= b.len() {
        assert(d[p] == b[p] && d[p + 1] == b[p + 1] && d[p + 2] == b[p + 2] && d[p + 3] == b[p + 3]
            && d[p + 6] == b[p + 6] && d[p + 7] == b[p + 7] && d[p + 8] == b[p + 8]);
    }
}

/// Two corrections one after the other are the one correction of their sum.
pub proof fn law_corrections_add(b: Seq<u8>, x: int, y: int)
    ensures
        stamped(stamped(b, x), y) == stamped(b, x + y),
        stamped(b, x).len() == b.len(),
{
    if is_packet(b) {
        lemma_stamped_frame(b, x);
        let p = payload_from(b);
        let c1 = if has_clock(b) {
            clock_shifted(b, x)
        } else {
            b
        };
        let p1 = if has_pts(b) {
            time_shifted(c1, p + 9, x)
        } else {
            c1
        };
        let d1 = stamped(b, x);
        let c12 = if has_clock(b) {
            clock_shifted(b, x + y)
        } else {
            b
        };
        lemma_clock_frame(b, wrapped(clock_at(b) + x));
        lemma_clock_frame(b, wrapped(clock_at(b) + (x + y)));
        if has_pts(b) {
            lemma_time_frame(c1, p + 9, wrapped(time_at(c1, p + 9) + x));
            lemma_time_frame(c12, p + 9, wrapped(time_at(c12, p + 9) + x));
        }
        let p2 = if has_pts(b) {
            time_shifted(c12, p + 9, x)
        } else {
            c12
        };
        let d2 = if has_dts(b) {
            time_shifted(p2, p + 14, x)
        } else {
            p2
        };
        // The clock of the second correction goes in under the first.
        assert((if has_clock(b) {
            clock_shifted(d1, y)
        } else {
            d1
        }) == d2) by {
            if has_clock(b) {
                lemma_clock_shifts_add(b, x, y);
                if has_pts(b) {
                    lemma_clock_moves_apart(c1, p + 9, x, y);
                }
                if has_dts(b) {
                    lemma_clock_moves_apart(p1, p + 14, x, y);
                }
            }
        }
        // And so does its presentation time, under the decode time.
        let q2 = if has_pts(b) {
            time_shifted(c12, p + 9, x + y)
        } else {
            c12
        };
        let e2 = if has_dts(b) {
            time_shifted(q2, p + 14, x)
        } else {
            q2
        };
        assert((if has_pts(b) {
            time_shifted(d2, p + 9, y)
        } else {
            d2
        }) == e2) by {
            if has_pts(b) {
                lemma_time_shifts_add(c12, p + 9, x, y);
                if has_dts(b) {
                    lemma_times_move_apart(p2, p + 9, p + 14, y, x);
                }
            }
        }
        if has_pts(b) {
            lemma_time_frame(c12, p + 9, wrapped(time_at(c12, p + 9) + (x + y)));
        }
        if has_dts(b) {
            lemma_time_shifts_add(q2, p + 14, x, y);
        }
    }
}

/// The marker bits of the time at `i` are set, as a stream writes them.
pub open spec fn is_marked(b: Seq<u8>, i: int) -> bool {
    b[i] % 2 == 1 && b[i + 2] % 2 == 1 && b[i + 4] % 2 == 1
}

/// A correction taken back leaves the packet as it was: every byte of it,
/// where the marker bits of its times are set as a stream sets them.
pub proof fn law_a_correction_is_taken_back(b: Seq<u8>, shift: int)
    requires
        is_packet(b) && has_pts(b) ==> is_marked(b, payload_from(b) + 9),
        is_packet(b) && has_dts(b) ==> is_marked(b, payload_from(b) + 14),
    ensures
        stamped(stamped(b, shift), -shift) == b,
{
    law_corrections_add(b, shift, -shift);
    if is_packet(b) {
        let p = payload_from(b);
        if has_clock(b) {
            lemma_clock_stands(b);
        }
        if has_pts(b) {
            lemma_marked_time_stands(b, p + 9);
        }
        if has_dts(b) {
            lemma_marked_time_stands(b, p + 14);
        }
    }
}

/// A clock reference moved by nothing is the reference it was.
proof fn lemma_clock_stands(b: Seq<u8>)
    requires
        b.len() >= 188,
    ensures
        clock_shifted(b, 0) == b,
{
    reveal(clock_at);
    reveal(with_clock);
    lemma_clock_bits_join(
        b[6] as int,
        b[7] as int,
        b[8] as int,
        b[9] as int,
        (b[10] / 128) as int,
    );
    let v = clock_at(b);
    assert(wrapped(v + 0) == v);
    assert(with_clock(b, v) =~= b);
}

/// A marked time moved by nothing is the time it was.
proof fn lemma_marked_time_stands(b: Seq<u8>, i: int)
    requires
        0 <= i,
        i + 5 <= b.len(),
        is_marked(b, i),
    ensures
        time_shifted(b, i, 0) == b,
{
    reveal(time_at);
    reveal(with_time);
    lemma_time_bits_join(
        (b[i] / 2 % 8) as int,
        b[i + 1] as int,
        (b[i + 2] / 2) as int,
        b[i + 3] as int,
        (b[i + 4] / 2) as int,
    );
    let v = time_at(b, i);
    assert(wrapped(v + 0) == v);
    assert(with_time(b, i, v) =~= b);
}

/// Whether a PES packet with this stream id carries a header with times in
/// it. The ones that do not are tables and padding.
pub fn timed(stream_id: u8) -> (r: bool)
    ensures
        r == is_timed(stream_id),
{
    !matches!(stream_id, 0xBC | 0xBE | 0xBF | 0xF0 | 0xF1 | 0xF2 | 0xF8 | 0xFF)
}

/// Add to the five-byte time a PES header states at `i`.
pub fn shift_time(b: &mut [u8], i: usize, shift: i64)
    requires
        i + 5 <= old(b)@.len(),
    ensures
        final(b)@ == time_shifted(old(b)@, i as int, shift as int),
        final(b)@.len() == old(b)@.len(),
{
    reveal(time_at);
    reveal(with_time);
    let v: i64 = ((b[i] / 2 % 8) as i64) * 0x4000_0000 + (b[i + 1] as i64) * 0x40_0000 + ((b[i
        + 2] / 2) as i64) * 0x8000 + (b[i + 3] as i64) * 0x80 + (b[i + 4] / 2) as i64;
    let t: i64 = moved_on(v, shift);
    let tag: u8 = b[i] - b[i] % 16;
    b[i] = tag + (t / 0x4000_0000 * 2 + 1) as u8;
    b[i + 1] = (t / 0x40_0000 % 256) as u8;
    b[i + 2] = (t / 0x8000 % 128 * 2 + 1) as u8;
    b[i + 3] = (t / 0x80 % 256) as u8;
    b[i + 4] = (t % 128 * 2 + 1) as u8;
    assert(b@ =~= time_shifted(old(b)@, i as int, shift as int));
}

/// Correct the times in one transport packet.
///
/// Two places carry one: the adaptation field's program clock reference,
/// which is what a decoder sets its own clock by, and the PES header's
/// presentation and decode times. Both are fixed-width fields at fixed
/// offsets, so both are read, added to, and written back where they were.
pub fn stamp(ts: &mut [u8], shift: i64)
    ensures
        final(ts)@ == stamped(old(ts)@, shift as int),
{
    if ts.len() < 188 || ts[0] != 0x47 {
        return;
    }
    reveal(clock_at);
    reveal(with_clock);
    let ghost b = ts@;
    let control: u8 = ts[3] / 16 % 4;
    let mut payload: usize = 4;
    if control >= 2 {
        let len: usize = ts[4] as usize;
        payload = 5 + len;
        if len >= 7 && ts[5] / 16 % 2 == 1 {
            let v: i64 = (ts[6] as i64) * 0x200_0000 + (ts[7] as i64) * 0x2_0000 + (ts[8] as i64)
                * 0x200 + (ts[9] as i64) * 2 + (ts[10] / 128) as i64;
            let t: i64 = moved_on(v, shift);
            let low: u8 = ts[10] % 128;
            ts[6] = (t / 0x200_0000) as u8;
            ts[7] = (t / 0x2_0000 % 256) as u8;
            ts[8] = (t / 0x200 % 256) as u8;
            ts[9] = (t / 2 % 256) as u8;
            ts[10] = (t % 2) as u8 * 128 + low;
            assert(ts@ =~= clock_shifted(b, shift as int));
        }
    }
    let ghost clocked = ts@;
    assert(payload == payload_from(b));
    assert(clocked.len() == b.len());
    assert(forall|k: int|
        0 <= k < b.len() && !(has_clock(b) && 6 <= k < 11) ==> #[trigger] clocked[k] == b[k]);
    if control % 2 == 0 || payload >= ts.len() || ts[1] / 64 % 2 == 0 {
        return;
    }
    if ts.len() - payload < 14 || ts[payload] != 0 || ts[payload + 1] != 0 || ts[payload + 2] != 1 {
        return;
    }
    if !timed(ts[payload + 3]) || ts[payload + 6] / 64 != 2 {
        return;
    }
    let flags: u8 = ts[payload + 7] / 64;
    let header: u8 = ts[payload + 8];
    proof {
        lemma_time_frame(clocked, payload + 9, wrapped(time_at(clocked, payload + 9) + shift));
    }
    if flags >= 2 && header >= 5 {
        shift_time(ts, payload + 9, shift);
    }
    if flags == 3 && header >= 10 && ts.len() - payload >= 19 {
        shift_time(ts, payload + 14, shift);
    }
}

/// A run of source packets that begins `at` bytes into the clip, each with
/// its times moved by the correction of where it starts. What is left at the
/// end, shorter than a packet, is left alone.
pub open spec fn corrected(pieces: Seq<Piece>, at: int, buf: Seq<u8>) -> Seq<u8>
    decreases buf.len(),
{
    if buf.len() < SOURCE_PACKET {
        buf
    } else {
        let shift = shift_for(pieces, at);
        buf.take(4) + (if shift == 0 {
            buf.subrange(4, SOURCE_PACKET as int)
        } else {
            stamped(buf.subrange(4, SOURCE_PACKET as int), shift)
        }) + corrected(pieces, at + SOURCE_PACKET, buf.skip(SOURCE_PACKET as int))
    }
}

/// Where a read starts does not matter: reading on from a packet boundary
/// gives what reading from the beginning would have given there.
pub proof fn law_a_read_may_start_anywhere(
    pieces: Seq<Piece>,
    at: int,
    first: Seq<u8>,
    rest: Seq<u8>,
)
    requires
        first.len() % 192 == 0,
    ensures
        corrected(pieces, at, first + rest) == corrected(pieces, at, first) + corrected(
            pieces,
            at + first.len(),
            rest,
        ),
        corrected(pieces, at, first).len() == first.len(),
    decreases first.len(),
{
    if first.len() == 0 {
        assert(first + rest =~= rest);
        assert(corrected(pieces, at, first) + corrected(pieces, at, rest) =~= corrected(
            pieces,
            at,
            rest,
        ));
    } else {
        let all = first + rest;
        let n = SOURCE_PACKET as int;
        assert(all.take(4) =~= first.take(4));
        assert(all.subrange(4, n) =~= first.subrange(4, n));
        assert(all.skip(n) =~= first.skip(n) + rest);
        law_a_read_may_start_anywhere(pieces, at + n, first.skip(n), rest);
        let shift = shift_for(pieces, at);
        law_corrections_add(first.subrange(4, n), shift, 0);
        let one = first.take(4) + (if shift == 0 {
            first.subrange(4, n)
        } else {
            stamped(first.subrange(4, n), shift)
        });
        let more = corrected(pieces, at + n, first.skip(n));
        let end = corrected(pieces, at + first.len(), rest);
        assert(corrected(pieces, at, first) == one + more);
        assert(corrected(pieces, at, all) == one + (more + end));
        assert(one + (more + end) =~= (one + more) + end);
    }
}

/// A stretch written as text.
pub open spec fn piece_text(p: Piece) -> Seq<char> {
    decimal(p.at as nat) + seq![':'] + signed_decimal(p.shift as int) + seq![':'] + signed_decimal(
        p.from as int,
    )
}

/// A table written as text: its pieces with commas between.
pub open spec fn table_text(pieces: Seq<Piece>) -> Seq<char>
    decreases pieces.len(),
{
    if pieces.len() == 0 {
        Seq::empty()
    } else if pieces.len() == 1 {
        piece_text(pieces[0])
    } else {
        piece_text(pieces[0]) + seq![','] + table_text(pieces.skip(1))
    }
}

/// A number that fits what holds it.
pub open spec fn fitting_u64(v: Option<int>) -> Option<u64> {
    match v {
        Some(n) => if 0 <= n <= u64::MAX {
            Some(n as u64)
        } else {
            None
        },
        None => None,
    }
}

/// A number that fits what holds it.
pub open spec fn fitting_i64(v: Option<int>) -> Option<i64> {
    match v {
        Some(n) => if i64::MIN <= n <= i64::MAX {
            Some(n as i64)
        } else {
            None
        },
        None => None,
    }
}

/// The stretch a text stands for: three numbers with colons between.
pub open spec fn piece_read(s: Seq<char>) -> Option<Piece> {
    let a = index_from(s, ':', 0);
    if a >= s.len() {
        None
    } else {
        let rest = s.skip(a + 1);
        let b = index_from(rest, ':', 0);
        if b >= rest.len() {
            None
        } else {
            match (
                fitting_u64(unsigned_value(s.take(a))),
                fitting_i64(signed_value(rest.take(b))),
                fitting_i64(signed_value(rest.skip(b + 1))),
            ) {
                (Some(at), Some(shift), Some(from)) => Some(Piece { at, shift, from }),
                _ => None,
            }
        }
    }
}

/// The stretches a text stands for, from `i` on, with commas between.
pub open spec fn pieces_read(s: Seq<char>, i: int) -> Option<Seq<Piece>>
    decreases s.len() - i,
{
    if i < 0 || i > s.len() {
        None
    } else {
        let end = index_from(s, ',', i);
        if end < i {
            None
        } else {
            match piece_read(s.subrange(i, end)) {
                None => None,
                Some(p) => if end >= s.len() {
                    Some(seq![p])
                } else {
                    match pieces_read(s, end + 1) {
                        None => None,
                        Some(rest) => Some(seq![p] + rest),
                    }
                },
            }
        }
    }
}

/// The table a text stands for, where its pieces stand in order.
pub open spec fn table_read(s: Seq<char>) -> Option<Seq<Piece>> {
    match pieces_read(s, 0) {
        Some(pieces) => if in_order(pieces) {
            Some(pieces)
        } else {
            None
        },
        None => None,
    }
}

/// A number written out holds no colon and no comma.
proof fn lemma_number_is_plain(n: int)
    ensures
        signed_decimal(n).len() > 0,
        forall|i: int|
            0 <= i < signed_decimal(n).len() ==> #[trigger] signed_decimal(n)[i] != ':'
                && signed_decimal(n)[i] != ',',
{
    if n < 0 {
        lemma_decimal_reads_back((-n) as nat);
        let d = decimal((-n) as nat);
        assert forall|i: int| 0 <= i < signed_decimal(n).len() implies #[trigger] signed_decimal(
            n,
        )[i] != ':' && signed_decimal(n)[i] != ',' by {
            if i > 0 {
                assert(signed_decimal(n)[i] == d[i - 1]);
            }
        }
    } else {
        lemma_decimal_reads_back(n as nat);
    }
}

/// A stretch written as text reads back as itself.
proof fn lemma_piece_reads_back(p: Piece)
    ensures
        piece_read(piece_text(p)) == Some(p),
        forall|i: int| 0 <= i < piece_text(p).len() ==> #[trigger] piece_text(p)[i] != ',',
{
    let at = decimal(p.at as nat);
    let shift = signed_decimal(p.shift as int);
    let from = signed_decimal(p.from as int);
    let s = piece_text(p);
    lemma_number_is_plain(p.at as int);
    lemma_number_is_plain(p.shift as int);
    lemma_number_is_plain(p.from as int);
    law_a_number_reads_back(p.at as int);
    law_a_number_reads_back(p.shift as int);
    law_a_number_reads_back(p.from as int);
    assert(signed_decimal(p.at as int) == at);
    assert forall|k: int| 0 <= k < at.len() implies s[k] == at[k] by {}
    lemma_index_is_first(s, ':', 0, at.len() as int);
    assert(s.take(at.len() as int) =~= at);
    let rest = s.skip((at.len() + 1) as int);
    assert(rest =~= shift + seq![':'] + from);
    assert forall|k: int| 0 <= k < shift.len() implies rest[k] == shift[k] by {}
    lemma_index_is_first(rest, ':', 0, shift.len() as int);
    assert(rest.take(shift.len() as int) =~= shift);
    assert(rest.skip((shift.len() + 1) as int) =~= from);
    assert forall|i: int| 0 <= i < s.len() implies #[trigger] s[i] != ',' by {
        if i < at.len() {
            assert(s[i] == at[i]);
        } else if i > at.len() {
            let k = i - at.len() - 1;
            assert(s[i] == rest[k]);
            if k < shift.len() {
                assert(rest[k] == shift[k]);
            } else if k > shift.len() {
                assert(rest[k] == from[k - shift.len() - 1]);
            }
        }
    }
}

/// A table read behind other text is the table it was.
proof fn lemma_pieces_read_behind(head: Seq<char>, s: Seq<char>, i: int)
    requires
        0 <= i <= s.len(),
    ensures
        pieces_read(head + s, head.len() + i) == pieces_read(s, i),
    decreases s.len() - i,
{
    let all = head + s;
    let end = index_from(s, ',', i);
    lemma_index_bounds(s, ',', i);
    assert forall|k: int| head.len() + i <= k < head.len() + end implies all[k] != ',' by {
        assert(all[k] == s[k - head.len()]);
    }
    lemma_index_is_first(all, ',', head.len() + i, head.len() + end);
    assert(all.subrange(head.len() + i, head.len() + end) =~= s.subrange(i, end));
    if end < s.len() {
        lemma_pieces_read_behind(head, s, end + 1);
    }
}

/// Where a character first stands is past where the search began, and it does
/// not stand before.
proof fn lemma_index_bounds(s: Seq<char>, c: char, i: int)
    requires
        0 <= i <= s.len(),
    ensures
        i <= index_from(s, c, i) <= s.len(),
        index_from(s, c, i) < s.len() ==> s[index_from(s, c, i)] == c,
        forall|k: int| i <= k < index_from(s, c, i) ==> s[k] != c,
    decreases s.len() - i,
{
    if i < s.len() && s[i] != c {
        lemma_index_bounds(s, c, i + 1);
    }
}

/// The pieces of a table written as text read back as themselves.
proof fn lemma_pieces_read_back(pieces: Seq<Piece>)
    requires
        pieces.len() > 0,
    ensures
        pieces_read(table_text(pieces), 0) == Some(pieces),
    decreases pieces.len(),
{
    let s = table_text(pieces);
    let one = piece_text(pieces[0]);
    lemma_piece_reads_back(pieces[0]);
    if pieces.len() == 1 {
        lemma_index_is_first(s, ',', 0, s.len() as int);
        assert(s.subrange(0, s.len() as int) =~= one);
        assert(seq![pieces[0]] =~= pieces);
    } else {
        let rest = pieces.skip(1);
        let head = one + seq![','];
        assert(s =~= head + table_text(rest));
        assert forall|k: int| 0 <= k < one.len() implies s[k] != ',' by {
            assert(s[k] == one[k]);
        }
        lemma_index_is_first(s, ',', 0, one.len() as int);
        assert(s.subrange(0, one.len() as int) =~= one);
        lemma_pieces_read_back(rest);
        lemma_pieces_read_behind(head, table_text(rest), 0);
        assert(seq![pieces[0]] + rest =~= pieces);
    }
}

/// A table survives being written down: what is read back is the table.
pub proof fn law_a_table_reads_back(pieces: Seq<Piece>)
    requires
        pieces.len() > 0,
        in_order(pieces),
    ensures
        table_read(table_text(pieces)) == Some(pieces),
{
    lemma_pieces_read_back(pieces);
}

/// Read one stretch out of a run of characters.
fn read_piece(s: &[char]) -> (r: Option<Piece>)
    ensures
        r == piece_read(s@),
{
    let a: usize = find_char(s, ':', 0);
    if a >= s.len() {
        return None;
    }
    let rest: &[char] = slice_subrange(s, a + 1, s.len());
    assert(rest@ =~= s@.skip(a + 1));
    let b: usize = find_char(rest, ':', 0);
    if b >= rest.len() {
        return None;
    }
    let first: &[char] = slice_subrange(s, 0, a);
    let second: &[char] = slice_subrange(rest, 0, b);
    let third: &[char] = slice_subrange(rest, b + 1, rest.len());
    assert(first@ =~= s@.take(a as int));
    assert(second@ =~= rest@.take(b as int));
    assert(third@ =~= rest@.skip(b + 1));
    let at: u64 = match read_unsigned(first) {
        Some(n) => n,
        None => return None,
    };
    let shift: i64 = match read_signed(second) {
        Some(n) => n,
        None => return None,
    };
    let from: i64 = match read_signed(third) {
        Some(n) => n,
        None => return None,
    };
    Some(Piece { at, shift, from })
}

impl Restamp {
    /// The pieces stand in order.
    pub open spec fn wf(&self) -> bool {
        in_order(self@)
    }

    /// Build one from pieces already in order.
    pub fn new(pieces: Vec<Piece>) -> (r: Restamp)
        requires
            in_order(pieces@),
        ensures
            r@ == pieces@,
            r.wf(),
    {
        Restamp { pieces }
    }

    /// Whether there is anything to do. One piece is a clip that already
    /// reads straight through. Several pieces is a table even where every
    /// correction in it is nought: the seams are still seams.
    pub fn wanted(&self) -> (r: bool)
        ensures
            r == (self@.len() > 1),
    {
        self.pieces.len() > 1
    }

    pub fn pieces(&self) -> (r: &[Piece])
        ensures
            r@ == self@,
    {
        self.pieces.as_slice()
    }

    /// The seams, in 90 kHz ticks on the joined clock: where each stretch
    /// after the first begins. Empty where there is only one stretch.
    pub fn joins(&self) -> (out: Vec<i64>)
        ensures
            self@.len() > 0 ==> out@ == self@.skip(1).map_values(|p: Piece| p.from),
            self@.len() == 0 ==> out@.len() == 0,
    {
        let mut out: Vec<i64> = Vec::new();
        let mut i: usize = 1;
        while i < self.pieces.len()
            invariant
                1 <= i,
                self@.len() > 0 ==> i <= self@.len(),
                self@.len() == 0 ==> i == 1,
                out@.len() == i - 1,
                self@ == self.pieces@,
                forall|k: int| 0 <= k < i - 1 ==> out@[k] == self@[k + 1].from,
            decreases self@.len() - i,
        {
            out.push(self.pieces[i].from);
            i += 1;
        }
        if self.pieces.len() > 0 {
            assert(out@ =~= self@.skip(1).map_values(|p: Piece| p.from));
        }
        out
    }

    /// What to add to a time read at `at` bytes into the clip.
    pub fn shift_at(&self, at: u64) -> (r: i64)
        requires
            self.wf(),
        ensures
            r == shift_for(self@, at as int),
    {
        if self.pieces.len() == 0 {
            return 0;
        }
        if at < self.pieces[0].at {
            proof {
                lemma_shift_before_all(self@, at as int);
            }
            return self.pieces[0].shift;
        }
        // The piece wanted is at or after `low` and before `high`.
        let mut low: usize = 0;
        let mut high: usize = self.pieces.len();
        while high - low > 1
            invariant
                self@ == self.pieces@,
                in_order(self@),
                low < high <= self@.len(),
                self@[low as int].at <= at,
                high < self@.len() ==> at < self@[high as int].at,
            decreases high - low,
        {
            let mid: usize = low + (high - low) / 2;
            if self.pieces[mid].at <= at {
                low = mid;
            } else {
                high = mid;
            }
        }
        proof {
            law_the_shift_is_read_off_the_position(self@, low as int, at as int);
        }
        self.pieces[low].shift
    }

    /// Correct every timestamp in `buf`, which holds whole source packets
    /// beginning at `at` bytes into the clip.
    ///
    /// A partial packet at the end is left alone: a tail shorter than one is
    /// the end of the file. The four bytes in front of each are the arrival
    /// time, on the recorder's own clock, and stay as the recorder wrote
    /// them.
    pub fn apply(&self, at: u64, buf: &mut Vec<u8>)
        requires
            self.wf(),
            at + old(buf)@.len() <= u64::MAX,
        ensures
            final(buf)@ == corrected(self@, at as int, old(buf)@),
    {
        let ghost start = buf@;
        let ghost all = corrected(self@, at as int, start);
        let mut out: Vec<u8> = Vec::with_capacity(buf.len());
        let mut i: usize = 0;
        assert(start.skip(0) =~= start);
        while buf.len() - i >= SOURCE_PACKET
            invariant
                self.wf(),
                buf@ == start,
                i <= start.len(),
                at + start.len() <= u64::MAX,
                all =~= out@ + corrected(self@, at + i, start.skip(i as int)),
            decreases start.len() - i,
        {
            let ghost here = start.skip(i as int);
            let shift: i64 = self.shift_at(at + i as u64);
            let mut packet: Vec<u8> = crate::bytes::copied(
                slice_subrange(buf.as_slice(), i + 4, i + SOURCE_PACKET),
            );
            assert(packet@ =~= here.subrange(4, SOURCE_PACKET as int));
            if shift != 0 {
                stamp(packet.as_mut_slice(), shift);
            }
            let ghost before = out@;
            crate::bytes::put(&mut out, slice_subrange(buf.as_slice(), i, i + 4));
            crate::bytes::put(&mut out, packet.as_slice());
            assert(start.subrange(i as int, i + 4) =~= here.take(4));
            assert(start.skip(i + SOURCE_PACKET) =~= here.skip(SOURCE_PACKET as int));
            i += SOURCE_PACKET;
        }
        let tail: &[u8] = slice_subrange(buf.as_slice(), i, buf.len());
        assert(tail@ =~= start.skip(i as int));
        crate::bytes::put(&mut out, tail);
        assert(out@ =~= all);
        *buf = out;
    }

    /// Encode as text, for the name a demuxer is opened by: the table has to
    /// travel with the recording, and everything travels as one string.
    pub fn encode(&self) -> (r: String)
        ensures
            r@ == table_text(self@),
    {
        let mut out: Vec<char> = Vec::new();
        let mut i: usize = 0;
        assert(self@.skip(0) =~= self@);
        while i < self.pieces.len()
            invariant
                self@ == self.pieces@,
                i <= self@.len(),
                i < self@.len() ==> table_text(self@) =~= out@ + table_text(self@.skip(i as int)),
                i == self@.len() ==> table_text(self@) =~= out@,
            decreases self@.len() - i,
        {
            let p: Piece = self.pieces[i];
            let ghost before = out@;
            let ghost rest = self@.skip(i as int);
            put_decimal(&mut out, p.at);
            out.push(':');
            put_signed(&mut out, p.shift);
            out.push(':');
            put_signed(&mut out, p.from);
            assert(out@ =~= before + piece_text(p));
            assert(rest.skip(1) =~= self@.skip(i + 1));
            i += 1;
            if i < self.pieces.len() {
                out.push(',');
            }
        }
        string_of(out.as_slice())
    }

    /// Read back what [`Restamp::encode`] wrote. `None` for anything that is
    /// not a table.
    pub fn decode(text: &str) -> (r: Option<Restamp>)
        ensures
            match r {
                Some(t) => table_read(text@) == Some(t@) && t.wf(),
                None => table_read(text@) is None,
            },
    {
        let s: Vec<char> = chars_of(text);
        let mut pieces: Vec<Piece> = Vec::new();
        let mut i: usize = 0;
        let ghost all = pieces_read(s@, 0);
        loop
            invariant_except_break
                s@ == text@,
                i <= s@.len(),
                all == pieces_read(s@, 0),
                match pieces_read(s@, i as int) {
                    Some(rest) => all == Some(pieces@ + rest),
                    None => all is None,
                },
            ensures
                all == Some(pieces@),
            decreases s@.len() - i,
        {
            let end: usize = find_char(s.as_slice(), ',', i);
            let one: &[char] = slice_subrange(s.as_slice(), i, end);
            let ghost before = pieces@;
            match read_piece(one) {
                Some(p) => {
                    pieces.push(p);
                    if end >= s.len() {
                        assert(pieces@ =~= before + seq![p]);
                        break;
                    }
                    assert(pieces_read(s@, end + 1) matches Some(rest) ==> before + (seq![p]
                        + rest) =~= pieces@ + rest);
                    i = end + 1;
                },
                None => {
                    return None;
                },
            }
        }
        let mut k: usize = 1;
        while k < pieces.len()
            invariant
                1 <= k,
                forall|a: int, b: int|
                    #![trigger pieces@[a], pieces@[b]]
                    0 <= a < b < k && b < pieces@.len() ==> pieces@[a].at < pieces@[b].at,
                all == Some(pieces@),
                all == pieces_read(text@, 0),
            decreases pieces@.len() - k,
        {
            if pieces[k - 1].at >= pieces[k].at {
                assert(!in_order(pieces@));
                return None;
            }
            assert forall|a: int, b: int|
                #![trigger pieces@[a], pieces@[b]]
                0 <= a < b < k + 1 && b < pieces@.len() implies pieces@[a].at < pieces@[b].at by {
                if b == k && a < k - 1 {
                    assert(pieces@[a].at < pieces@[k - 1].at);
                }
            }
            k += 1;
        }
        Some(Restamp { pieces })
    }
}

} // verus!
