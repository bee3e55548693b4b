//! Transport packets, the sections they carry, and the check each ends with.
use crate::bytes::{contents, put};
use vstd::prelude::*;
use vstd::slice::slice_subrange;

verus! {

/// One transport packet. The whole format is built on this being fixed.
pub const PACKET: usize = 188;

/// What one packet occupies on a Blu-ray: the same bytes behind four more
/// that hold the time the packet arrived.
pub const M2TS_PACKET: usize = 192;

/// Whether the byte at `i` is a sync byte.
pub open spec fn marks(buf: Seq<u8>, i: int) -> bool {
    0 <= i < buf.len() && buf[i] == 0x47
}

/// Whether five sync bytes in a row stand `stride` apart from `at`.
pub open spec fn synced(buf: Seq<u8>, at: int, stride: int) -> bool {
    &&& marks(buf, at)
    &&& marks(buf, at + stride)
    &&& marks(buf, at + 2 * stride)
    &&& marks(buf, at + 3 * stride)
    &&& marks(buf, at + 4 * stride)
}

/// The first place at or after `i`, and before `limit`, where packets start.
pub open spec fn sync_between(buf: Seq<u8>, stride: int, i: int, limit: int) -> Option<int>
    decreases limit - i,
{
    if i >= limit {
        None
    } else if synced(buf, i, stride) {
        Some(i)
    } else {
        sync_between(buf, stride, i + 1, limit)
    }
}

/// How far into a buffer a packet boundary is looked for.
pub open spec fn sync_limit(buf: Seq<u8>, stride: int) -> int {
    if buf.len() < stride * 8 {
        buf.len() as int
    } else {
        stride * 8
    }
}

/// The first packet boundary of a stream spaced `stride` apart.
pub open spec fn first_sync(buf: Seq<u8>, stride: int) -> Option<int> {
    sync_between(buf, stride, 0, sync_limit(buf, stride))
}

/// Where the packets start and how far apart they are.
pub open spec fn framed(buf: Seq<u8>) -> Option<(int, int)> {
    match first_sync(buf, PACKET as int) {
        Some(at) => Some((at, PACKET as int)),
        None => match first_sync(buf, M2TS_PACKET as int) {
            Some(at) => Some((at, M2TS_PACKET as int)),
            None => None,
        },
    }
}

/// Whether a byte offset holds a packet, checked the way a demuxer checks:
/// one sync byte proves nothing, a run of them at the packet spacing does.
pub fn sync_at(buf: &[u8], at: usize, stride: usize) -> (r: bool)
    ensures
        r == synced(buf@, at as int, stride as int),
{
    if at >= buf.len() {
        return false;
    }
    let room: usize = buf.len() - at - 1;
    if stride > room / 4 {
        return false;
    }
    buf[at] == 0x47 && buf[at + stride] == 0x47 && buf[at + 2 * stride] == 0x47
        && buf[at + 3 * stride] == 0x47 && buf[at + 4 * stride] == 0x47
}

/// Find the first packet boundary in `buf`, for a stream already known to be
/// spaced `stride` apart.
pub fn find_sync(buf: &[u8], stride: usize) -> (r: Option<usize>)
    ensures
        match r {
            Some(i) => first_sync(buf@, stride as int) == Some(i as int) && synced(
                buf@,
                i as int,
                stride as int,
            ),
            None => first_sync(buf@, stride as int) is None,
        },
{
    let limit: usize = if stride > usize::MAX / 8 || buf.len() < stride * 8 {
        buf.len()
    } else {
        stride * 8
    };
    let mut i: usize = 0;
    while i < limit
        invariant
            limit == sync_limit(buf@, stride as int),
            i <= limit,
            first_sync(buf@, stride as int) == sync_between(
                buf@,
                stride as int,
                i as int,
                limit as int,
            ),
        decreases limit - i,
    {
        if sync_at(buf, i, stride) {
            return Some(i);
        }
        i += 1;
    }
    None
}

/// Where the packets start and how far apart they are: a plain transport
/// stream, or the same packets with four bytes of arrival time before each.
pub fn framing(buf: &[u8]) -> (r: Option<(usize, usize)>)
    ensures
        match r {
            Some((at, stride)) => framed(buf@) == Some((at as int, stride as int)) && at
                < buf@.len() && (stride == PACKET || stride == M2TS_PACKET),
            None => framed(buf@) is None,
        },
{
    match find_sync(buf, PACKET) {
        Some(at) => Some((at, PACKET)),
        None => match find_sync(buf, M2TS_PACKET) {
            Some(at) => Some((at, M2TS_PACKET)),
            None => None,
        },
    }
}

/// The thirteen bits two bytes end in, which is how a PID is written.
pub open spec fn pid_bits(hi: u8, lo: u8) -> u16 {
    ((hi % 32) * 256 + lo) as u16
}

/// The twelve bits two bytes end in, which is how a length is written.
pub open spec fn length_bits(hi: u8, lo: u8) -> int {
    (hi % 16) * 256 + lo
}

/// Read a PID out of two bytes.
pub fn pid_field(hi: u8, lo: u8) -> (r: u16)
    ensures
        r == pid_bits(hi, lo),
{
    ((hi % 32) as u16) * 256 + lo as u16
}

/// Read a length out of two bytes.
pub fn length_field(hi: u8, lo: u8) -> (r: usize)
    ensures
        r == length_bits(hi, lo),
        r <= 4095,
{
    ((hi % 16) as usize) * 256 + lo as usize
}

/// Read a sixteen-bit number, most significant byte first.
pub fn word_field(hi: u8, lo: u8) -> (r: u16)
    ensures
        r == crate::bytes::be16(hi, lo),
{
    (hi as u16) * 256 + lo as u16
}

/// The PID a packet is on.
pub open spec fn packet_pid(p: Seq<u8>) -> u16 {
    pid_bits(p[1], p[2])
}

/// The PID a packet is on.
pub fn pid_of(p: &[u8]) -> (r: u16)
    requires
        p@.len() >= 3,
    ensures
        r == packet_pid(p@),
{
    pid_field(p[1], p[2])
}

/// Which of the adaptation field and the payload a packet carries.
pub open spec fn carriage(p: Seq<u8>) -> int {
    (p[3] / 16 % 4) as int
}

/// Where a packet's payload starts, or `None` when it carries none.
pub open spec fn payload_at(p: Seq<u8>) -> Option<int> {
    let start: int = if carriage(p) == 1 {
        4
    } else {
        5 + p[4]
    };
    if (carriage(p) == 1 || carriage(p) == 3) && start < PACKET {
        Some(start)
    } else {
        None
    }
}

/// Where a packet's payload starts, or `None` when it carries none.
pub fn payload_start(p: &[u8]) -> (r: Option<usize>)
    requires
        p@.len() >= 5,
    ensures
        match r {
            Some(at) => payload_at(p@) == Some(at as int),
            None => payload_at(p@) is None,
        },
{
    let afc: u8 = p[3] / 16 % 4;
    // Nought is reserved, and two is an adaptation field with nothing behind.
    let start: usize = match afc {
        1 => 4,
        3 => 5 + p[4] as usize,
        _ => return None,
    };
    if start < PACKET {
        Some(start)
    } else {
        None
    }
}

/// The program clock reference a packet carries, in 90 kHz ticks.
pub open spec fn clock_reference(p: Seq<u8>) -> Option<int> {
    if carriage(p) >= 2 && p[4] >= 7 && p[5] / 16 % 2 == 1 {
        Some(p[6] * 0x200_0000 + p[7] * 0x2_0000 + p[8] * 0x200 + p[9] * 2 + p[10] / 128)
    } else {
        None
    }
}

/// The program clock reference this packet carries, in 90 kHz ticks.
///
/// The clock is the only timeline the finished file has that can be read
/// without decoding anything, which is what decides where an injected section
/// goes.
pub fn pcr_of(p: &[u8]) -> (r: Option<i64>)
    requires
        p@.len() >= 11,
    ensures
        match r {
            Some(t) => clock_reference(p@) == Some(t as int) && 0 <= t < 0x2_0000_0000,
            None => clock_reference(p@) is None,
        },
{
    let afc: u8 = p[3] / 16 % 4;
    if afc < 2 || p[4] < 7 || p[5] / 16 % 2 == 0 {
        return None;
    }
    Some(
        (p[6] as i64) * 0x200_0000 + (p[7] as i64) * 0x2_0000 + (p[8] as i64) * 0x200 + (p[9]
            as i64) * 2 + (p[10] / 128) as i64,
    )
}

/// One bit through the section check.
pub open spec fn crc_shift(c: u32) -> u32 {
    if c & 0x8000_0000 != 0 {
        (c << 1) ^ 0x04C1_1DB7
    } else {
        c << 1
    }
}

/// `n` bits through the section check.
pub open spec fn crc_shifts(c: u32, n: nat) -> u32
    decreases n,
{
    if n == 0 {
        c
    } else {
        crc_shift(crc_shifts(c, (n - 1) as nat))
    }
}

/// One byte through the section check.
pub open spec fn crc_step(c: u32, b: u8) -> u32 {
    crc_shifts(c ^ ((b as u32) << 24), 8)
}

/// The check of a run of bytes: CRC-32/MPEG-2.
pub open spec fn crc_of(data: Seq<u8>) -> u32
    decreases data.len(),
{
    if data.len() == 0 {
        0xFFFF_FFFF
    } else {
        crc_step(crc_of(data.drop_last()), data.last())
    }
}

/// CRC-32/MPEG-2, which every section ends with and no section is accepted
/// without.
pub fn crc32(data: &[u8]) -> (r: u32)
    ensures
        r == crc_of(data@),
{
    let mut crc: u32 = 0xFFFF_FFFF;
    let mut i: usize = 0;
    while i < data.len()
        invariant
            i <= data@.len(),
            crc == crc_of(data@.take(i as int)),
        decreases data@.len() - i,
    {
        let ghost before = crc;
        crc = crc ^ ((data[i] as u32) << 24);
        let ghost mixed = crc;
        let mut k: u32 = 0;
        while k < 8
            invariant
                k <= 8,
                crc == crc_shifts(mixed, k as nat),
            decreases 8 - k,
        {
            crc = if crc & 0x8000_0000 != 0 {
                (crc << 1) ^ 0x04C1_1DB7
            } else {
                crc << 1
            };
            k += 1;
        }
        assert(data@.take(i + 1).drop_last() =~= data@.take(i as int));
        i += 1;
    }
    assert(data@.take(i as int) =~= data@);
    crc
}

/// The four bytes of a check, most significant first.
pub open spec fn crc_bytes(c: u32) -> Seq<u8> {
    seq![
        (c / 0x100_0000) as u8,
        (c / 0x1_0000 % 256) as u8,
        (c / 0x100 % 256) as u8,
        (c % 256) as u8,
    ]
}

/// A byte taken off the top of the check leaves the rest of it behind.
proof fn lemma_crc_takes_its_own_byte(c: u32, b: u8)
    requires
        b == (c / 0x100_0000) as u8,
    ensures
        crc_step(c, b) == c << 8,
{
    let mixed: u32 = c ^ ((b as u32) << 24);
    let s1: u32 = crc_shift(mixed);
    let s2: u32 = crc_shift(s1);
    let s3: u32 = crc_shift(s2);
    let s4: u32 = crc_shift(s3);
    let s5: u32 = crc_shift(s4);
    let s6: u32 = crc_shift(s5);
    let s7: u32 = crc_shift(s6);
    let s8: u32 = crc_shift(s7);
    reveal_with_fuel(crc_shifts, 9);
    assert(crc_step(c, b) == s8);
    assert((c / 0x100_0000) as u8 == (c >> 24) as u8) by (bit_vector);
    assert(s8 == c << 8) by (bit_vector)
        requires
            b == (c >> 24) as u8,
            mixed == c ^ ((b as u32) << 24u32),
            s1 == crc_shift(mixed),
            s2 == crc_shift(s1),
            s3 == crc_shift(s2),
            s4 == crc_shift(s3),
            s5 == crc_shift(s4),
            s6 == crc_shift(s5),
            s7 == crc_shift(s6),
            s8 == crc_shift(s7),
    ;
}

/// A run of bytes followed by its own check comes out at nought, which is how
/// a section is known to have arrived whole.
pub proof fn law_a_checked_run_checks_to_nought(data: Seq<u8>)
    ensures
        crc_of(data + crc_bytes(crc_of(data))) == 0,
{
    let c = crc_of(data);
    let tail = crc_bytes(c);
    let d1 = data.push(tail[0]);
    let d2 = d1.push(tail[1]);
    let d3 = d2.push(tail[2]);
    let d4 = d3.push(tail[3]);
    assert(d1.drop_last() =~= data);
    assert(d2.drop_last() =~= d1);
    assert(d3.drop_last() =~= d2);
    assert(d4.drop_last() =~= d3);
    assert(d4 =~= data + tail);
    let c1: u32 = c << 8;
    let c2: u32 = c1 << 8;
    let c3: u32 = c2 << 8;
    assert((c1 / 0x100_0000) as u8 == (c / 0x1_0000 % 256) as u8 && (c2 / 0x100_0000) as u8 == (c
        / 0x100 % 256) as u8 && (c3 / 0x100_0000) as u8 == (c % 256) as u8 && c3 << 8 == 0)
        by (bit_vector)
        requires
            c1 == c << 8,
            c2 == c1 << 8,
            c3 == c2 << 8,
    ;
    lemma_crc_takes_its_own_byte(c, tail[0]);
    lemma_crc_takes_its_own_byte(c1, tail[1]);
    lemma_crc_takes_its_own_byte(c2, tail[2]);
    lemma_crc_takes_its_own_byte(c3, tail[3]);
    assert(crc_of(d1) == c1);
    assert(crc_of(d2) == c2);
    assert(crc_of(d3) == c3);
    assert(crc_of(d4) == 0);
}

/// How long the section that starts here says it is.
pub open spec fn section_size(sec: Seq<u8>) -> int {
    3 + length_bits(sec[1], sec[2])
}

/// How long the section that starts here says it is, where its length has
/// arrived.
pub fn section_len(sec: &[u8]) -> (r: Option<usize>)
    ensures
        match r {
            Some(n) => sec@.len() >= 3 && n == section_size(sec@),
            None => sec@.len() < 3,
        },
{
    if sec.len() >= 3 {
        Some(3 + length_field(sec[1], sec[2]))
    } else {
        None
    }
}

/// Whether a section is to be believed: one that says it ends in a check is
/// held to it, and one that says it has none -- time and date is the one --
/// is taken as it came.
pub open spec fn sound(sec: Seq<u8>) -> bool {
    sec[1] < 0x80 || (sec.len() > 4 && crc_of(sec) == 0)
}

/// What a reader of one PID's sections holds.
pub struct ReaderState {
    pub held: Seq<u8>,
    pub filling: bool,
}

/// Take every whole section off the front of what is held: what is left, and
/// the sections that are to be believed. A byte of 0xFF where a section would
/// start is stuffing, and so is everything behind it.
pub open spec fn drained(held: Seq<u8>) -> (ReaderState, Seq<Seq<u8>>)
    decreases held.len(),
{
    if held.len() == 0 || held[0] == 0xFF {
        (ReaderState { held: Seq::empty(), filling: false }, Seq::empty())
    } else if held.len() < 3 || held.len() < section_size(held) {
        (ReaderState { held, filling: true }, Seq::empty())
    } else {
        let sec = held.take(section_size(held));
        let rest = drained(held.skip(section_size(held)));
        (rest.0, if sound(sec) {
            seq![sec] + rest.1
        } else {
            rest.1
        })
    }
}

/// Whether a section starts in this packet.
pub open spec fn starts_unit(p: Seq<u8>) -> bool {
    p[1] / 64 % 2 == 1
}

/// What one more packet does to a reader, and the sections it completes.
#[verifier::opaque]
pub open spec fn fed(st: ReaderState, p: Seq<u8>) -> (ReaderState, Seq<Seq<u8>>) {
    match payload_at(p) {
        None => (st, Seq::empty()),
        Some(start) => {
            let data = p.skip(start);
            if starts_unit(p) {
                // The pointer: how far in the new section begins.
                let pointer = data[0] as int;
                let ended = if st.filling && pointer > 0 && 1 + pointer <= data.len() {
                    drained(st.held + data.subrange(1, 1 + pointer)).1
                } else {
                    Seq::empty()
                };
                if 1 + pointer > data.len() {
                    (ReaderState { held: Seq::empty(), filling: true }, ended)
                } else {
                    let begun = drained(data.skip(1 + pointer));
                    (begun.0, ended + begun.1)
                }
            } else if !st.filling {
                (st, Seq::empty())
            } else {
                drained(st.held + data)
            }
        },
    }
}

/// Reassemble sections arriving on one PID.
///
/// Sections are not packets: one packet can end a section and begin the next,
/// and a long section spans several packets. The pointer field in the first
/// payload byte of a unit-start packet says how far in the new section
/// begins, which is the whole of the trick.
pub struct SectionReader {
    pub buf: Vec<u8>,
    pub filling: bool,
}

impl View for SectionReader {
    type V = ReaderState;

    open spec fn view(&self) -> ReaderState {
        ReaderState { held: self.buf@, filling: self.filling }
    }
}

impl SectionReader {
    /// A reader that has seen nothing.
    pub fn new() -> (r: SectionReader)
        ensures
            r@ == (ReaderState { held: Seq::empty(), filling: false }),
    {
        SectionReader { buf: Vec::new(), filling: false }
    }

    /// Offer one packet; the sections it completes come back in order.
    pub fn feed(&mut self, packet: &[u8]) -> (sections: Vec<Vec<u8>>)
        requires
            packet@.len() >= PACKET,
        ensures
            (final(self)@, contents(sections@)) == fed(old(self)@, packet@),
    {
        reveal(fed);
        let mut out: Vec<Vec<u8>> = Vec::new();
        assert(contents(out@) =~= Seq::empty());
        let start: usize = match payload_start(packet) {
            Some(start) => start,
            None => return out,
        };
        let data: &[u8] = slice_subrange(packet, start, packet.len());
        assert(data@ =~= packet@.skip(start as int));
        if packet[1] / 64 % 2 == 1 {
            let pointer: usize = data[0] as usize;
            if self.filling && pointer > 0 && 1 + pointer <= data.len() {
                put(&mut self.buf, slice_subrange(data, 1, 1 + pointer));
                self.drain(&mut out);
                assert(contents(out@) =~= drained(
                    old(self)@.held + data@.subrange(1, 1 + pointer),
                ).1);
            }
            let ghost ended = contents(out@);
            self.buf.clear();
            self.filling = true;
            if 1 + pointer > data.len() {
                return out;
            }
            let rest: &[u8] = slice_subrange(data, 1 + pointer, data.len());
            assert(rest@ =~= data@.skip(1 + pointer));
            put(&mut self.buf, rest);
            assert(self.buf@ =~= rest@);
            self.drain(&mut out);
        } else if self.filling {
            put(&mut self.buf, data);
            self.drain(&mut out);
            assert(contents(out@) =~= drained(old(self)@.held + data@).1);
        }
        out
    }

    /// Hand over every whole section the buffer now holds.
    fn drain(&mut self, out: &mut Vec<Vec<u8>>)
        requires
            old(self).filling,
        ensures
            final(self)@ == drained(old(self)@.held).0,
            contents(final(out)@) == contents(old(out)@) + drained(old(self)@.held).1,
    {
        let ghost all = drained(self.buf@);
        loop
            invariant
                self.filling,
                all == drained(old(self)@.held),
                all.0 == drained(self.buf@).0,
                contents(old(out)@) + all.1 =~= contents(out@) + drained(self.buf@).1,
            decreases self.buf@.len(),
        {
            if self.buf.len() == 0 || self.buf[0] == 0xFF {
                self.filling = false;
                self.buf.clear();
                assert(contents(out@) =~= contents(old(out)@) + all.1);
                return;
            }
            let len: usize = match section_len(self.buf.as_slice()) {
                Some(len) => len,
                None => {
                    assert(contents(out@) =~= contents(old(out)@) + all.1);
                    return;
                },
            };
            if self.buf.len() < len {
                assert(contents(out@) =~= contents(old(out)@) + all.1);
                return;
            }
            let ghost held = self.buf@;
            let rest: Vec<u8> = self.buf.split_off(len);
            let ghost sec = self.buf@;
            assert(sec =~= held.take(section_size(held)));
            assert(rest@ =~= held.skip(section_size(held)));
            let checked: bool = self.buf[1] < 0x80 || (self.buf.len() > 4 && crc32(
                self.buf.as_slice(),
            ) == 0);
            let ghost before = contents(out@);
            if checked {
                let whole: Vec<u8> = crate::bytes::copied(self.buf.as_slice());
                out.push(whole);
                assert(contents(out@) =~= before.push(sec));
                assert(before + (seq![sec] + drained(rest@).1) =~= before.push(sec) + drained(
                    rest@,
                ).1);
            }
            self.buf = rest;
        }
    }
}

} // verus!
