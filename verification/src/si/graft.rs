//! The pass that puts a recording's own tables back into a finished cut.
use crate::bytes::{content, contents, copied, copied_if, put, same};
use crate::si::loops::{carried_loop, finished, law_a_finished_section_is_sound, Components};
use crate::si::packet::{
    clock_reference, drained, fed, find_sync, first_sync, packet_pid, pcr_of, pid_bits, pid_field,
    pid_of, section_size, sound, ReaderState, SectionReader, PACKET,
};
use crate::si::read::{
    first_programme, idle, lemma_fed_sections_are_whole, programme_in, ServiceModel, SiError,
    SnapshotModel, PID_EIT, PID_PAT, PID_SDT, PID_SIT, PID_TDT, TABLE_PAT, TABLE_PMT,
};
use crate::si::sections::{
    advance_time, build_pmt, build_sit, carried_tags, described_tags, map_entries, map_head,
    map_section, present_event, present_in, present_model, prune_events, pruned, selection,
    time_moved, Graft, GraftRange, Present, Tables, PEAK_MAX,
};
use std::collections::HashMap;
use vstd::prelude::*;
use vstd::slice::slice_subrange;

verus! {

broadcast use vstd::std_specs::hash::group_hash_axioms;

/// What a pass wrote.
#[derive(Debug, Clone, Copy, PartialEq, Eq, Structural)]
pub struct Stats {
    /// Program map sections written in place of the muxer's.
    pub pmt: usize,
    /// Service description sections written in place of the muxer's.
    pub sdt: usize,
    /// Times the event information was injected.
    pub eit: usize,
    /// Time and date sections injected.
    pub tot: usize,
    /// Selection information sections written, in a partial transport stream.
    pub sit: usize,
}

/// Nothing written.
pub open spec fn no_stats() -> Stats {
    Stats { pmt: 0, sdt: 0, eit: 0, tot: 0, sit: 0 }
}

impl Default for Stats {
    fn default() -> (s: Stats)
        ensures
            s == no_stats(),
    {
        Stats { pmt: 0, sdt: 0, eit: 0, tot: 0, sit: 0 }
    }
}

/// How often event information is repeated through the output: two seconds of
/// 90 kHz ticks.
pub const EIT_PERIOD: i64 = 180_000;

/// How often the time is repeated through the output: five seconds.
pub const TOT_PERIOD: i64 = 450_000;

/// The bits a second that the largest selection table adds at the cadence a
/// service description goes out at, which is twice a second.
pub const SELECTION_RATE: u64 = 69_184;

/// The clock is 33 bits and wraps.
pub const CLOCK_WRAP: i64 = 0x2_0000_0000;

/// The header of a packet that carries part of a section: the sync byte, the
/// PID, the counter, and at the start of a section a pointer of nought.
pub open spec fn packet_head(pid: u16, first: bool, cc: u8) -> Seq<u8> {
    seq![
        0x47u8,
        (pid / 256 % 32 + if first {
            0x40int
        } else {
            0
        }) as u8,
        (pid % 256) as u8,
        (0x10 + cc % 16) as u8,
    ] + if first {
        seq![0u8]
    } else {
        Seq::empty()
    }
}

/// How much of a section the next packet takes.
pub open spec fn packet_take(rest: Seq<u8>, first: bool) -> int {
    let room: int = if first {
        183
    } else {
        184
    };
    if rest.len() < room {
        rest.len() as int
    } else {
        room
    }
}

/// The bytes that fill a packet out.
pub open spec fn stuffing(n: int) -> Seq<u8> {
    Seq::new(n as nat, |i: int| 0xFFu8)
}

/// One packet of a section: what it takes, and stuffing behind.
#[verifier::opaque]
pub open spec fn one_packet(pid: u16, rest: Seq<u8>, first: bool, cc: u8) -> Seq<u8> {
    let head = packet_head(pid, first, cc);
    let take = packet_take(rest, first);
    head + rest.take(take) + stuffing(PACKET - head.len() - take)
}

/// The counter of the packet after.
pub open spec fn next_counter(cc: u8) -> u8 {
    ((cc + 1) % 16) as u8
}

/// A section as transport packets on one PID.
pub open spec fn packets_of(pid: u16, rest: Seq<u8>, first: bool, cc: u8) -> Seq<u8>
    decreases rest.len(), (if first { 1int } else { 0 }),
{
    if !first && rest.len() == 0 {
        Seq::empty()
    } else {
        one_packet(pid, rest, first, cc) + packets_of(
            pid,
            rest.skip(packet_take(rest, first)),
            false,
            next_counter(cc),
        )
    }
}

/// The counter after a section's packets.
pub open spec fn counter_after(rest: Seq<u8>, first: bool, cc: u8) -> u8
    decreases rest.len(), (if first { 1int } else { 0 }),
{
    if !first && rest.len() == 0 {
        cc
    } else {
        counter_after(rest.skip(packet_take(rest, first)), false, next_counter(cc))
    }
}

/// Wrap a section into transport packets on one PID.
pub fn packetize(pid: u16, section: &[u8], cc: &mut u8, out: &mut Vec<u8>)
    ensures
        final(out)@ == old(out)@ + packets_of(pid, section@, true, *old(cc)),
        *final(cc) == counter_after(section@, true, *old(cc)),
{
    let ghost start = out@;
    let ghost all = packets_of(pid, section@, true, *cc);
    let ghost last = counter_after(section@, true, *cc);
    let mut first: bool = true;
    let mut at: usize = 0;
    assert(section@.skip(0) =~= section@);
    while first || at < section.len()
        invariant
            at <= section@.len(),
            start + all =~= out@ + packets_of(pid, section@.skip(at as int), first, *cc),
            last == counter_after(section@.skip(at as int), first, *cc),
        decreases section@.len() - at, (if first { 1int } else { 0 }),
    {
        let ghost rest = section@.skip(at as int);
        let ghost before = out@;
        let counter: u8 = *cc;
        let mut p: Vec<u8> = Vec::with_capacity(PACKET);
        p.push(0x47);
        p.push((pid / 256 % 32) as u8 + if first {
            0x40
        } else {
            0
        });
        p.push((pid % 256) as u8);
        p.push(0x10 + counter % 16);
        if first {
            // The pointer: the section starts here.
            p.push(0);
        }
        assert(p@ =~= packet_head(pid, first, counter));
        let ghost head = p@;
        *cc = (counter % 16 + 1) % 16;
        let room: usize = PACKET - p.len();
        let left: usize = section.len() - at;
        let take: usize = if left < room {
            left
        } else {
            room
        };
        assert(take == packet_take(rest, first));
        let part: &[u8] = slice_subrange(section, at, at + take);
        put(&mut p, part);
        assert(part@ =~= rest.take(take as int));
        let ghost filled = p@;
        p.resize(PACKET, 0xFF);
        assert(p@ =~= one_packet(pid, rest, first, counter)) by {
            reveal(one_packet);
            let whole = one_packet(pid, rest, first, counter);
            assert(filled =~= whole.take(filled.len() as int));
            assert(p@.subrange(0, filled.len() as int) =~= filled);
            assert forall|i: int| 0 <= i < filled.len() implies p@[i] == filled[i] by {
                assert(p@.subrange(0, filled.len() as int)[i] == filled[i]);
            }
        }
        put(out, p.as_slice());
        at += take;
        assert(section@.skip(at as int) =~= rest.skip(take as int));
        first = false;
    }
}

/// The sections a reader hands over as packets are fed to it one by one.
pub open spec fn read_back(st: ReaderState, packets: Seq<u8>) -> (ReaderState, Seq<Seq<u8>>)
    decreases packets.len(),
{
    if packets.len() < PACKET {
        (st, Seq::empty())
    } else {
        let one = fed(st, packets.take(PACKET as int));
        let rest = read_back(one.0, packets.skip(PACKET as int));
        (rest.0, one.1 + rest.1)
    }
}

/// The header of a packet made here reads as it was written.
proof fn lemma_one_packet_reads(pid: u16, rest: Seq<u8>, first: bool, cc: u8)
    ensures
        one_packet(pid, rest, first, cc).len() == PACKET,
        one_packet(pid, rest, first, cc)[0] == 0x47,
        crate::si::packet::payload_at(one_packet(pid, rest, first, cc)) == Some(4int),
        crate::si::packet::starts_unit(one_packet(pid, rest, first, cc)) == first,
        packet_pid(one_packet(pid, rest, first, cc)) == pid % 8192,
        one_packet(pid, rest, first, cc).skip(4) == (if first {
            seq![0u8]
        } else {
            Seq::empty()
        }) + rest.take(packet_take(rest, first)) + stuffing(PACKET - 4 - (if first { 1int } else { 0 }) - packet_take(rest, first)),
{
    reveal(one_packet);
    let p = one_packet(pid, rest, first, cc);
    assert(p.skip(4) =~= (if first {
        seq![0u8]
    } else {
        Seq::empty()
    }) + rest.take(packet_take(rest, first)) + stuffing(PACKET - 4 - (if first { 1int } else { 0 }) - packet_take(rest, first)));
}

/// Stuffing behind whole sections is dropped.
proof fn lemma_section_then_stuffing(sec: Seq<u8>, pad: nat)
    requires
        sec.len() >= 3,
        sec[0] != 0xFF,
        section_size(sec) == sec.len(),
        sound(sec),
    ensures
        drained(sec + stuffing(pad as int)) == (idle(), seq![sec]),
{
    let all = sec + stuffing(pad as int);
    assert(section_size(all) == sec.len());
    assert(all.take(sec.len() as int) =~= sec);
    assert(all.skip(sec.len() as int) =~= stuffing(pad as int));
    assert(drained(stuffing(pad as int)) == (idle(), Seq::<Seq<u8>>::empty()));
    assert(seq![sec] + Seq::<Seq<u8>>::empty() =~= seq![sec]);
}

/// A packet after the first goes behind what the ones before it held.
proof fn lemma_later_packet(pid: u16, sec: Seq<u8>, at: int, cc: u8)
    requires
        3 <= at < sec.len(),
        sec[0] != 0xFF,
        section_size(sec) == sec.len(),
        sound(sec),
    ensures
        fed(
            ReaderState { held: sec.take(at), filling: true },
            one_packet(pid, sec.skip(at), false, cc),
        ) == (if sec.len() - at <= 184 {
            (idle(), seq![sec])
        } else {
            (
                ReaderState { held: sec.take(at + 184), filling: true },
                Seq::<Seq<u8>>::empty(),
            )
        }),
{
    let rest = sec.skip(at);
    let take = packet_take(rest, false);
    let p = one_packet(pid, rest, false, cc);
    reveal(fed);
    lemma_one_packet_reads(pid, rest, false, cc);
    let pad = (184 - take) as nat;
    assert(p.skip(4) =~= rest.take(take) + stuffing(pad as int));
    let held = sec.take(at) + p.skip(4);
    if take == rest.len() {
        assert(held =~= sec + stuffing(pad as int));
        lemma_section_then_stuffing(sec, pad);
    } else {
        assert(held =~= sec.take(at + 184));
        assert(section_size(held) == sec.len());
    }
}

/// Reading packets back goes one packet at a time.
proof fn lemma_read_back_step(st: ReaderState, p: Seq<u8>, tail: Seq<u8>)
    requires
        p.len() == PACKET,
    ensures
        read_back(st, p + tail).0 == read_back(fed(st, p).0, tail).0,
        read_back(st, p + tail).1 == fed(st, p).1 + read_back(fed(st, p).0, tail).1,
{
    assert((p + tail).take(PACKET as int) =~= p);
    assert((p + tail).skip(PACKET as int) =~= tail);
}

/// The packets after the first finish what the first began.
proof fn lemma_rest_reads_back(pid: u16, sec: Seq<u8>, at: int, cc: u8)
    requires
        3 <= at < sec.len(),
        sec[0] != 0xFF,
        section_size(sec) == sec.len(),
        sound(sec),
    ensures
        read_back(
            ReaderState { held: sec.take(at), filling: true },
            packets_of(pid, sec.skip(at), false, cc),
        ) == (idle(), seq![sec]),
    decreases sec.len() - at,
{
    let st = ReaderState { held: sec.take(at), filling: true };
    let rest = sec.skip(at);
    let take = packet_take(rest, false);
    let p = one_packet(pid, rest, false, cc);
    let tail = packets_of(pid, rest.skip(take), false, next_counter(cc));
    lemma_one_packet_reads(pid, rest, false, cc);
    lemma_later_packet(pid, sec, at, cc);
    lemma_read_back_step(st, p, tail);
    assert(packets_of(pid, rest, false, cc) == p + tail);
    if take == rest.len() {
        assert(tail =~= Seq::empty());
        assert(seq![sec] + Seq::<Seq<u8>>::empty() =~= seq![sec]);
    } else {
        assert(rest.skip(take) =~= sec.skip(at + 184));
        lemma_rest_reads_back(pid, sec, at + 184, next_counter(cc));
        assert(Seq::<Seq<u8>>::empty() + seq![sec] =~= seq![sec]);
    }
}

/// The first packet of a section begins it, or is the whole of it.
proof fn lemma_first_packet(pid: u16, sec: Seq<u8>, cc: u8)
    requires
        sec.len() >= 3,
        sec[0] != 0xFF,
        section_size(sec) == sec.len(),
        sound(sec),
    ensures
        fed(idle(), one_packet(pid, sec, true, cc)) == (if sec.len() <= 183 {
            (idle(), seq![sec])
        } else {
            (ReaderState { held: sec.take(183), filling: true }, Seq::<Seq<u8>>::empty())
        }),
{
    let take = packet_take(sec, true);
    let p = one_packet(pid, sec, true, cc);
    reveal(fed);
    lemma_one_packet_reads(pid, sec, true, cc);
    let pad = (183 - take) as nat;
    let data = p.skip(4);
    assert(data[0] == 0);
    assert(data.skip(1) =~= sec.take(take) + stuffing(pad as int));
    assert(Seq::<Seq<u8>>::empty() + seq![sec] =~= seq![sec]);
    if take == sec.len() {
        assert(data.skip(1) =~= sec + stuffing(pad as int));
        lemma_section_then_stuffing(sec, pad);
    } else {
        let held = data.skip(1);
        assert(held =~= sec.take(183));
        assert(section_size(held) == sec.len());
        assert(Seq::<Seq<u8>>::empty() + Seq::<Seq<u8>>::empty() =~= Seq::empty());
    }
}

/// A section wrapped into packets and read off them again is that section,
/// once, and the reader is left waiting for the next.
pub proof fn law_a_section_survives_its_packets(pid: u16, sec: Seq<u8>, cc: u8)
    requires
        sec.len() >= 3,
        sec[0] != 0xFF,
        section_size(sec) == sec.len(),
        sound(sec),
    ensures
        read_back(idle(), packets_of(pid, sec, true, cc)) == (idle(), seq![sec]),
{
    let take = packet_take(sec, true);
    let p = one_packet(pid, sec, true, cc);
    let tail = packets_of(pid, sec.skip(take), false, next_counter(cc));
    lemma_one_packet_reads(pid, sec, true, cc);
    lemma_first_packet(pid, sec, cc);
    lemma_read_back_step(idle(), p, tail);
    assert(packets_of(pid, sec, true, cc) == p + tail);
    if take == sec.len() {
        assert(tail =~= Seq::empty());
        assert(seq![sec] + Seq::<Seq<u8>>::empty() =~= seq![sec]);
    } else {
        lemma_rest_reads_back(pid, sec, 183, next_counter(cc));
        assert(Seq::<Seq<u8>>::empty() + seq![sec] =~= seq![sec]);
    }
}

/// What is known part way through reading where a muxer put things.
pub struct LayoutModel {
    pub pat: ReaderState,
    pub pmt: ReaderState,
    pub pmt_pid: u16,
    pub pcr_pid: u16,
}

/// Where an association section says the map is.
pub open spec fn layout_with_pat(l: LayoutModel, sec: Seq<u8>) -> LayoutModel {
    if sec[0] != TABLE_PAT || sec.len() < 12 {
        l
    } else {
        match first_programme(sec, 8) {
            Some((_, pid)) => LayoutModel { pmt_pid: pid, ..l },
            None => l,
        }
    }
}

/// Which PID a map section says carries the clock.
pub open spec fn layout_with_pmt(l: LayoutModel, sec: Seq<u8>) -> LayoutModel {
    if sec[0] == TABLE_PMT && sec.len() >= 16 {
        LayoutModel { pcr_pid: pid_bits(sec[8], sec[9]), ..l }
    } else {
        l
    }
}

/// What a run of sections of one of the two kinds adds.
pub open spec fn layout_with(l: LayoutModel, map: bool, secs: Seq<Seq<u8>>) -> LayoutModel
    decreases secs.len(),
{
    if secs.len() == 0 {
        l
    } else {
        let before = layout_with(l, map, secs.drop_last());
        if map {
            layout_with_pmt(before, secs.last())
        } else {
            layout_with_pat(before, secs.last())
        }
    }
}

/// What one packet adds.
#[verifier::opaque]
pub open spec fn layout_with_packet(l: LayoutModel, p: Seq<u8>) -> LayoutModel {
    let pid = packet_pid(p);
    if pid == PID_PAT && l.pmt_pid == 0 {
        let (reader, secs) = fed(l.pat, p);
        layout_with(LayoutModel { pat: reader, ..l }, false, secs)
    } else if pid != 0 && pid == l.pmt_pid && l.pcr_pid == 0 {
        let (reader, secs) = fed(l.pmt, p);
        layout_with(LayoutModel { pmt: reader, ..l }, true, secs)
    } else {
        l
    }
}

/// What the packets from `at` on add, until both PIDs are known or a packet
/// is not one.
pub open spec fn layout_from(l: LayoutModel, buf: Seq<u8>, at: int) -> LayoutModel
    decreases buf.len() - at,
{
    if at < 0 || at + PACKET > buf.len() || buf[at] != 0x47 {
        l
    } else {
        let seen = layout_with_packet(l, buf.subrange(at, at + PACKET));
        if seen.pmt_pid != 0 && seen.pcr_pid != 0 {
            seen
        } else {
            layout_from(seen, buf, at + PACKET)
        }
    }
}

/// Nothing known.
pub open spec fn layout_start() -> LayoutModel {
    LayoutModel { pat: idle(), pmt: idle(), pmt_pid: 0, pcr_pid: 0 }
}

/// The PID the map is on and the PID the clock is on.
pub open spec fn layout_in(buf: Seq<u8>) -> Result<(u16, u16), SiError> {
    match first_sync(buf, PACKET as int) {
        None => Err(SiError::NotATransportStream),
        Some(base) => {
            let l = layout_from(layout_start(), buf, base);
            if l.pmt_pid == 0 {
                Err(SiError::NoProgramAssociation)
            } else {
                Ok((l.pmt_pid, l.pcr_pid))
            }
        },
    }
}

/// Reads where a muxer put things packet by packet.
struct Layout {
    pat: SectionReader,
    pmt: SectionReader,
    pmt_pid: u16,
    pcr_pid: u16,
}

impl View for Layout {
    type V = LayoutModel;

    closed spec fn view(&self) -> LayoutModel {
        LayoutModel {
            pat: self.pat@,
            pmt: self.pmt@,
            pmt_pid: self.pmt_pid,
            pcr_pid: self.pcr_pid,
        }
    }
}

impl Layout {
    fn take(&mut self, p: &[u8])
        requires
            p@.len() == PACKET,
        ensures
            final(self)@ == layout_with_packet(old(self)@, p@),
    {
        reveal(layout_with_packet);
        let pid: u16 = pid_of(p);
        let ghost start = self@;
        if pid == PID_PAT && self.pmt_pid == 0 {
            let secs: Vec<Vec<u8>> = self.pat.feed(p);
            let ghost l0 = self@;
            let ghost all = contents(secs@);
            proof {
                lemma_fed_sections_are_whole(start.pat, p@);
                assert(all == fed(start.pat, p@).1);
            }
            let mut i: usize = 0;
            while i < secs.len()
                invariant
                    i <= secs@.len(),
                    all == contents(secs@),
                    forall|k: int|
                        0 <= k < all.len() ==> 3 <= (#[trigger] all[k]).len() <= 4098,
                    self@ == layout_with(l0, false, all.take(i as int)),
                decreases secs@.len() - i,
            {
                let sec: &[u8] = secs[i].as_slice();
                assert(all[i as int] == sec@);
                if sec[0] == TABLE_PAT && sec.len() >= 12 {
                    if let Some((_, pid)) = programme_in(sec) {
                        self.pmt_pid = pid;
                    }
                }
                assert(all.take(i + 1).drop_last() =~= all.take(i as int));
                i += 1;
            }
            assert(all.take(i as int) =~= all);
        } else if pid != 0 && pid == self.pmt_pid && self.pcr_pid == 0 {
            let secs: Vec<Vec<u8>> = self.pmt.feed(p);
            let ghost l0 = self@;
            let ghost all = contents(secs@);
            proof {
                lemma_fed_sections_are_whole(start.pmt, p@);
                assert(all == fed(start.pmt, p@).1);
            }
            let mut i: usize = 0;
            while i < secs.len()
                invariant
                    i <= secs@.len(),
                    all == contents(secs@),
                    forall|k: int|
                        0 <= k < all.len() ==> 3 <= (#[trigger] all[k]).len() <= 4098,
                    self@ == layout_with(l0, true, all.take(i as int)),
                decreases secs@.len() - i,
            {
                let sec: &[u8] = secs[i].as_slice();
                assert(all[i as int] == sec@);
                if sec[0] == TABLE_PMT && sec.len() >= 16 {
                    self.pcr_pid = pid_field(sec[8], sec[9]);
                }
                assert(all.take(i + 1).drop_last() =~= all.take(i as int));
                i += 1;
            }
            assert(all.take(i as int) =~= all);
        }
    }
}

/// Where the muxer actually put the map, and which PID carries the clock,
/// read off the first bytes of the finished file.
///
/// Asked rather than assumed: a muxer declines a map PID that would collide
/// with the run it numbers streams from and picks its own, and writing the
/// rebuilt map onto the PID it was told to use would leave two.
pub fn output_layout(buf: &[u8]) -> (r: Result<(u16, u16), SiError>)
    ensures
        r == layout_in(buf@),
{
    let base: usize = match find_sync(buf, PACKET) {
        Some(base) => base,
        None => return Err(SiError::NotATransportStream),
    };
    let mut layout: Layout = Layout {
        pat: SectionReader::new(),
        pmt: SectionReader::new(),
        pmt_pid: 0,
        pcr_pid: 0,
    };
    assert(layout@ == layout_start());
    let ghost all = layout_from(layout_start(), buf@, base as int);
    let mut at: usize = base;
    while buf.len() - at >= PACKET
        invariant_except_break
            at <= buf@.len(),
            all == layout_from(layout@, buf@, at as int),
        ensures
            layout@ == all,
        decreases buf@.len() - at,
    {
        let p: &[u8] = slice_subrange(buf, at, at + PACKET);
        if p[0] != 0x47 {
            break;
        }
        layout.take(p);
        at += PACKET;
        if layout.pmt_pid != 0 && layout.pcr_pid != 0 {
            break;
        }
    }
    if layout.pmt_pid == 0 {
        return Err(SiError::NoProgramAssociation);
    }
    Ok((layout.pmt_pid, layout.pcr_pid))
}

/// The output's own clock, from where it started: a step backwards past the
/// start is read as the wrap.
pub open spec fn ticks_since(first: int, pcr: int) -> int {
    if pcr < first {
        pcr - first + CLOCK_WRAP
    } else {
        pcr - first
    }
}

fn since(first: i64, pcr: i64) -> (r: i64)
    requires
        0 <= first < CLOCK_WRAP,
        0 <= pcr < CLOCK_WRAP,
    ensures
        r == ticks_since(first as int, pcr as int),
        0 <= r < CLOCK_WRAP,
{
    if pcr < first {
        pcr - first + CLOCK_WRAP
    } else {
        pcr - first
    }
}

/// What is known part way through measuring how fast a file runs. A rate is a
/// number of bits over a number of ticks.
pub struct MeterModel {
    /// Bytes read.
    pub at: int,
    pub base: Option<int>,
    /// The clocks of the last second, and how many bytes in each stood.
    pub window: Seq<(int, int)>,
    pub peak: (int, int),
    pub last: int,
}

/// Nothing measured.
pub open spec fn meter_start() -> MeterModel {
    MeterModel { at: 0, base: None, window: Seq::empty(), peak: (0, 1), last: 0 }
}

/// The window less what is over a second old.
pub open spec fn last_second(window: Seq<(int, int)>, now: int) -> Seq<(int, int)>
    decreases window.len(),
{
    if window.len() > 0 && now - window[0].1 > 90_000 {
        last_second(window.drop_first(), now)
    } else {
        window
    }
}

/// The faster of two rates.
pub open spec fn faster(a: (int, int), b: (int, int)) -> (int, int) {
    if b.0 * a.1 > a.0 * b.1 {
        b
    } else {
        a
    }
}

/// What one more packet does to the measurement. Under half a second is not a
/// window, it is two clocks close together.
pub open spec fn metered(m: MeterModel, p: Seq<u8>, pcr_pid: u16) -> MeterModel {
    let at = m.at + PACKET;
    match (packet_pid(p) == pcr_pid, clock_reference(p)) {
        (true, Some(pcr)) => {
            let base = match m.base {
                Some(b) => b,
                None => pcr,
            };
            let now = ticks_since(base, pcr);
            let window = last_second(m.window.push((at, now)), now);
            let peak = if window.len() > 0 && now - window[0].1 >= 45_000 {
                faster(m.peak, ((at - window[0].0) * 8, now - window[0].1))
            } else {
                m.peak
            };
            MeterModel { at, base: Some(base), window, peak, last: now }
        },
        _ => MeterModel { at, ..m },
    }
}

/// What the whole packets of a file do to the measurement.
pub open spec fn metered_all(m: MeterModel, buf: Seq<u8>, at: int, pcr_pid: u16) -> MeterModel
    decreases buf.len() - at,
{
    if at < 0 || at + PACKET > buf.len() {
        m
    } else {
        metered_all(metered(m, buf.subrange(at, at + PACKET), pcr_pid), buf, at + PACKET, pcr_pid)
    }
}

/// The rate a measurement comes to with `added` bits a second on top, in
/// units of 400 bit/s rounded up and held to what the descriptor has room
/// for. A file too short to hold a window still has an average.
pub open spec fn meter_rate(m: MeterModel, added: int) -> int {
    let peak = if m.last > 0 {
        faster(m.peak, (m.at * 8, m.last))
    } else {
        m.peak
    };
    // Bits over ticks, at 90,000 ticks a second.
    let num = peak.0 * 90_000 + added * peak.1;
    let den = 400 * peak.1;
    let units = (num + den - 1) / den;
    if units < PEAK_MAX {
        units
    } else {
        PEAK_MAX as int
    }
}

/// Measures how fast a finished cut runs at its fastest, in a window of a
/// second: measured tighter, one large picture reads as a burst the file
/// never sustains.
pub struct PeakMeter {
    at: u64,
    base: Option<i64>,
    window: Vec<(u64, i64)>,
    peak_bits: u64,
    peak_ticks: u64,
    last: i64,
}

/// What a window holds.
pub open spec fn window_model(window: Seq<(u64, i64)>) -> Seq<(int, int)> {
    window.map_values(|w: (u64, i64)| (w.0 as int, w.1 as int))
}

impl View for PeakMeter {
    type V = MeterModel;

    closed spec fn view(&self) -> MeterModel {
        MeterModel {
            at: self.at as int,
            base: match self.base {
                Some(b) => Some(b as int),
                None => None,
            },
            window: window_model(self.window@),
            peak: (self.peak_bits as int, self.peak_ticks as int),
            last: self.last as int,
        }
    }
}

impl PeakMeter {
    /// Every number is inside what a file of this many bytes can give.
    pub closed spec fn wf(&self) -> bool {
        &&& self.at <= 0x1FFF_FFFF_FFFF_FFFF
        &&& self.base matches Some(b) ==> 0 <= b < CLOCK_WRAP
        &&& 0 < self.peak_ticks <= CLOCK_WRAP
        &&& self.peak_bits <= self.at * 8
        &&& 0 <= self.last < CLOCK_WRAP
        &&& forall|i: int|
            0 <= i < self.window@.len() ==> (#[trigger] self.window@[i]).0 <= self.at && 0
                <= self.window@[i].1 < CLOCK_WRAP
    }

    pub fn new() -> (m: PeakMeter)
        ensures
            m.wf(),
            m@ == meter_start(),
    {
        let m: PeakMeter = PeakMeter {
            at: 0,
            base: None,
            window: Vec::new(),
            peak_bits: 0,
            peak_ticks: 1,
            last: 0,
        };
        assert(m@.window =~= Seq::empty());
        m
    }

    /// Read one packet.
    pub fn take(&mut self, p: &[u8], pcr_pid: u16)
        requires
            old(self).wf(),
            p@.len() == PACKET,
            old(self)@.at + PACKET <= 0x1FFF_FFFF_FFFF_FFFF,
        ensures
            final(self).wf(),
            final(self)@ == metered(old(self)@, p@, pcr_pid),
    {
        self.at = self.at + PACKET as u64;
        if pid_of(p) != pcr_pid {
            assert(self@.window =~= old(self)@.window);
            return;
        }
        let pcr: i64 = match pcr_of(p) {
            Some(pcr) => pcr,
            None => {
                assert(self@.window =~= old(self)@.window);
                return;
            },
        };
        let base: i64 = match self.base {
            Some(b) => b,
            None => pcr,
        };
        self.base = Some(base);
        let now: i64 = since(base, pcr);
        self.last = now;
        let here: u64 = self.at;
        self.window.push((here, now));
        let ghost pushed = window_model(self.window@);
        assert(pushed =~= old(self)@.window.push((here as int, now as int)));
        while self.window.len() > 0 && now - self.window[0].1 > 90_000
            invariant
                self.wf(),
                self.at == here,
                self.base == Some(base),
                self.last == now,
                self.peak_bits == old(self).peak_bits,
                self.peak_ticks == old(self).peak_ticks,
                0 <= now < CLOCK_WRAP,
                last_second(pushed, now as int) == last_second(
                    window_model(self.window@),
                    now as int,
                ),
            decreases self.window@.len(),
        {
            let ghost was = window_model(self.window@);
            let ghost held = self.window@;
            let gone: (u64, i64) = self.window.remove(0);
            assert(window_model(self.window@) =~= was.drop_first());
            assert forall|i: int| 0 <= i < self.window@.len() implies (
            #[trigger] self.window@[i]).0 <= self.at && 0 <= self.window@[i].1 < CLOCK_WRAP by {
                assert(self.window@[i] == held[i + 1]);
            }
        }
        let ghost window = window_model(self.window@);
        if self.window.len() > 0 {
            let (from, t): (u64, i64) = self.window[0];
            assert(window[0] == (from as int, t as int));
            if now - t >= 45_000 {
                let bits: u64 = (self.at - from) * 8;
                let ticks: u64 = (now - t) as u64;
                assert(bits * self.peak_ticks <= 0xFFFF_FFFF_FFFF_FFFF * 0x2_0000_0000)
                    by (nonlinear_arith)
                    requires
                        0 <= bits <= 0xFFFF_FFFF_FFFF_FFFF,
                        0 < self.peak_ticks <= 0x2_0000_0000,
                ;
                assert(self.peak_bits * ticks <= 0xFFFF_FFFF_FFFF_FFFF * 0x2_0000_0000)
                    by (nonlinear_arith)
                    requires
                        0 <= self.peak_bits <= 0xFFFF_FFFF_FFFF_FFFF,
                        0 < ticks <= 0x2_0000_0000,
                ;
                if (bits as u128) * (self.peak_ticks as u128) > (self.peak_bits as u128) * (
                ticks as u128) {
                    self.peak_bits = bits;
                    self.peak_ticks = ticks;
                }
            }
        }
    }

    /// The fastest it ran, in units of 400 bit/s, with `added` bits a second
    /// on top for what is not in the file yet.
    pub fn rate(&self, added: u64) -> (r: u32)
        requires
            self.wf(),
        ensures
            r == meter_rate(self@, added as int),
    {
        let mut bits: u64 = self.peak_bits;
        let mut ticks: u64 = self.peak_ticks;
        if self.last > 0 {
            let all: u64 = self.at * 8;
            let whole: u64 = self.last as u64;
            assert(all * ticks <= 0xFFFF_FFFF_FFFF_FFFF * 0x2_0000_0000) by (nonlinear_arith)
                requires
                    0 <= all <= 0xFFFF_FFFF_FFFF_FFFF,
                    0 < ticks <= 0x2_0000_0000,
            ;
            assert(bits * whole <= 0xFFFF_FFFF_FFFF_FFFF * 0x2_0000_0000) by (nonlinear_arith)
                requires
                    0 <= bits <= 0xFFFF_FFFF_FFFF_FFFF,
                    0 < whole <= 0x2_0000_0000,
            ;
            if (all as u128) * (ticks as u128) > (bits as u128) * (whole as u128) {
                bits = all;
                ticks = whole;
            }
        }
        assert(added * ticks <= 0xFFFF_FFFF_FFFF_FFFF * 0x2_0000_0000) by (nonlinear_arith)
            requires
                0 <= added <= 0xFFFF_FFFF_FFFF_FFFF,
                0 < ticks <= 0x2_0000_0000,
        ;
        let num: u128 = (bits as u128) * 90_000 + (added as u128) * (ticks as u128);
        let den: u128 = 400 * (ticks as u128);
        let units: u128 = (num + den - 1) / den;
        if units < PEAK_MAX as u128 {
            units as u32
        } else {
            PEAK_MAX
        }
    }
}

/// How fast a finished cut runs at its fastest.
pub open spec fn rate_of(buf: Seq<u8>, pcr_pid: u16, added: int) -> int {
    meter_rate(metered_all(meter_start(), buf, 0, pcr_pid), added)
}

/// How fast the finished cut runs at its fastest, in the 400 bit/s a partial
/// transport stream descriptor counts in. `added` is what the tables written
/// afterwards will themselves take up.
pub fn peak_rate(buf: &[u8], pcr_pid: u16, added: u64) -> (r: u32)
    requires
        buf@.len() <= 0x1FFF_FFFF_FFFF_FFFF,
    ensures
        r == rate_of(buf@, pcr_pid, added as int),
{
    let mut meter: PeakMeter = PeakMeter::new();
    let mut at: usize = 0;
    while buf.len() - at >= PACKET
        invariant
            at <= buf@.len() <= 0x1FFF_FFFF_FFFF_FFFF,
            meter.wf(),
            meter@.at == at,
            metered_all(meter_start(), buf@, 0, pcr_pid) == metered_all(
                meter@,
                buf@,
                at as int,
                pcr_pid,
            ),
        decreases buf@.len() - at,
    {
        meter.take(slice_subrange(buf, at, at + PACKET), pcr_pid);
        at += PACKET;
    }
    meter.rate(added)
}

/// What is written over one range of the output.
pub struct RangeTables {
    /// Where the range begins on the output timeline, in 90 kHz ticks.
    pub start: i64,
    /// Its selection information, in a partial transport stream.
    pub sit: Vec<u8>,
    /// Its event information, trimmed to what the cut carries.
    pub eit: Vec<Vec<u8>>,
    /// The time section in force where it opens.
    pub clock: Option<Vec<u8>>,
}

/// What a [`RangeTables`] holds.
pub struct RangeModel {
    pub start: int,
    pub sit: Seq<u8>,
    pub eit: Seq<Seq<u8>>,
    pub clock: Option<Seq<u8>>,
}

impl View for RangeTables {
    type V = RangeModel;

    open spec fn view(&self) -> RangeModel {
        RangeModel {
            start: self.start as int,
            sit: self.sit@,
            eit: contents(self.eit@),
            clock: content(self.clock),
        }
    }
}

/// Everything a pass writes, settled before it starts.
pub struct GraftPlan {
    /// The PID the muxer put the map on.
    pub map_pid: u16,
    /// The PID the clock is on.
    pub pcr_pid: u16,
    pub tables: Tables,
    /// The rebuilt program map.
    pub pmt: Vec<u8>,
    /// The recording's own service description.
    pub sdt: Option<Vec<u8>>,
    pub ranges: Vec<RangeTables>,
}

/// What a [`GraftPlan`] holds.
pub struct PlanModel {
    pub map_pid: u16,
    pub pcr_pid: u16,
    pub tables: Tables,
    pub pmt: Seq<u8>,
    pub sdt: Option<Seq<u8>>,
    pub ranges: Seq<RangeModel>,
}

impl View for GraftPlan {
    type V = PlanModel;

    open spec fn view(&self) -> PlanModel {
        PlanModel {
            map_pid: self.map_pid,
            pcr_pid: self.pcr_pid,
            tables: self.tables,
            pmt: self.pmt@,
            sdt: content(self.sdt),
            ranges: self.ranges@.map_values(|r: RangeTables| r@),
        }
    }
}

/// No range starts further off than a clock can be told.
pub open spec fn start_in_reach(start: int) -> bool {
    -0x4000_0000_0000_0000 <= start <= 0x4000_0000_0000_0000
}

impl GraftPlan {
    /// There is a range, and each starts somewhere a clock can be told from.
    pub open spec fn wf(&self) -> bool {
        &&& self.ranges@.len() > 0
        &&& forall|i: int|
            0 <= i < self.ranges@.len() ==> start_in_reach(
                (#[trigger] self.ranges@[i]).start as int,
            )
    }
}

/// The tables in force where each range opens.
pub open spec fn snapshots(ranges: Seq<GraftRange>) -> Seq<SnapshotModel> {
    ranges.map_values(|r: GraftRange| r.snapshot@)
}

/// One selection table for each range, and the version of the last. A range
/// whose table comes out identical to the one before keeps its version: a
/// version that changes when nothing has says a player should re-read a table
/// it already has.
pub open spec fn selections(
    service: ServiceModel,
    snaps: Seq<SnapshotModel>,
    described: Set<u8>,
    carried: Set<u8>,
    rate: u32,
) -> (Seq<Seq<u8>>, u8)
    decreases snaps.len(),
{
    if snaps.len() == 0 {
        (Seq::empty(), 0)
    } else {
        let (before, version) = selections(service, snaps.drop_last(), described, carried, rate);
        let present = present_in(snaps.last(), described, carried);
        let probe = selection(service, present, version, rate);
        if before.len() > 0 && before.last() != probe {
            let next = ((version + 1) % 32) as u8;
            (before.push(selection(service, present, next, rate)), next)
        } else {
            (before.push(probe), version)
        }
    }
}

/// Event information sections, each trimmed where it has to be.
pub open spec fn trimmed(eit: Seq<Seq<u8>>, described: Set<u8>, carried: Set<u8>) -> Seq<Seq<u8>> {
    eit.map_values(
        |sec: Seq<u8>|
            match pruned(sec, described, carried) {
                Some(out) => out,
                None => sec,
            },
    )
}

/// The time section of a snapshot: the offset table where there is one.
pub open spec fn clock_of(snap: SnapshotModel) -> Option<Seq<u8>> {
    if snap.tot is Some {
        snap.tot
    } else {
        snap.tdt
    }
}

/// What is written over each range.
pub open spec fn range_tables(
    service: ServiceModel,
    ranges: Seq<GraftRange>,
    tables: Tables,
    described: Set<u8>,
    carried: Set<u8>,
    rate: u32,
) -> Seq<RangeModel> {
    Seq::new(
        ranges.len(),
        |i: int|
            RangeModel {
                start: ranges[i].start as int,
                sit: if tables == Tables::Partial {
                    selections(service, snapshots(ranges), described, carried, rate).0[i]
                } else {
                    Seq::empty()
                },
                eit: trimmed(ranges[i].snapshot@.eit, described, carried),
                clock: clock_of(ranges[i].snapshot@),
            },
    )
}

/// Everything a pass writes.
pub open spec fn planned(g: Graft, map_pid: u16, pcr_pid: u16, rate: u32) -> PlanModel {
    let service = g.service@;
    let described = described_tags(service.streams);
    let carried = carried_tags(service.streams, g.streams@);
    PlanModel {
        map_pid,
        pcr_pid,
        tables: g.tables,
        pmt: map_section(service, g.streams@, pcr_pid, described, carried),
        sdt: service.sdt,
        ranges: range_tables(service, g.ranges@, g.tables, described, carried, rate),
    }
}

/// Build one selection table for each range.
fn plan_selections(g: &Graft, components: &Components, rate: u32) -> (out: Vec<Vec<u8>>)
    ensures
        contents(out@) == selections(
            g.service@,
            snapshots(g.ranges@),
            components.described@,
            components.carried@,
            rate,
        ).0,
        out@.len() == g.ranges@.len(),
{
    let ghost service = g.service@;
    let ghost described = components.described@;
    let ghost carried = components.carried@;
    let ghost snaps = snapshots(g.ranges@);
    let mut out: Vec<Vec<u8>> = Vec::new();
    let mut version: u8 = 0;
    let mut i: usize = 0;
    assert(contents(out@) =~= Seq::empty());
    while i < g.ranges.len()
        invariant
            i <= g.ranges@.len(),
            out@.len() == i,
            service == g.service@,
            described == components.described@,
            carried == components.carried@,
            snaps == snapshots(g.ranges@),
            (contents(out@), version) == selections(
                service,
                snaps.take(i as int),
                described,
                carried,
                rate,
            ),
        decreases g.ranges@.len() - i,
    {
        let r: &GraftRange = &g.ranges[i];
        let ghost before = contents(out@);
        assert(snaps.take(i + 1).drop_last() =~= snaps.take(i as int));
        assert(snaps.take(i + 1).last() == r.snapshot@);
        let present: Option<Present> = present_event(&r.snapshot, components);
        let shown: Option<&Present> = present.as_ref();
        assert(present_model(shown) == present_in(r.snapshot@, described, carried));
        let probe: Vec<u8> = build_sit(g.service, shown, version, rate);
        let changed: bool = if i > 0 {
            assert(before.last() == out@[i - 1]@);
            !same(out[i - 1].as_slice(), probe.as_slice())
        } else {
            false
        };
        let sit: Vec<u8> = if changed {
            version = (version % 32 + 1) % 32;
            build_sit(g.service, shown, version, rate)
        } else {
            probe
        };
        let ghost made = sit@;
        out.push(sit);
        assert(contents(out@) =~= before.push(made));
        i += 1;
    }
    assert(snaps.take(i as int) =~= snaps);
    out
}

/// Trim a snapshot's event information to what the cut carries.
fn trim_events(snapshot: &crate::si::read::Snapshot, components: &Components) -> (eit: Vec<
    Vec<u8>,
>)
    ensures
        contents(eit@) == trimmed(snapshot@.eit, components.described@, components.carried@),
{
    let ghost want = trimmed(snapshot@.eit, components.described@, components.carried@);
    let mut eit: Vec<Vec<u8>> = Vec::new();
    let mut j: usize = 0;
    while j < snapshot.eit.len()
        invariant
            j <= snapshot.eit@.len(),
            eit@.len() == j,
            want == trimmed(snapshot@.eit, components.described@, components.carried@),
            forall|k: int| 0 <= k < j ==> (#[trigger] eit@[k])@ == want[k],
        decreases snapshot.eit@.len() - j,
    {
        assert(snapshot@.eit[j as int] == snapshot.eit@[j as int]@);
        let sec: &[u8] = snapshot.eit[j].as_slice();
        let kept: Vec<u8> = match prune_events(sec, components) {
            Some(out) => out,
            None => copied(sec),
        };
        eit.push(kept);
        j += 1;
    }
    assert(contents(eit@) =~= want);
    eit
}

/// Settle everything a pass will write.
///
/// Done once per range rather than at every injection: what has to come out
/// of a range's tables does not change within it.
pub fn plan_graft(g: &Graft, map_pid: u16, pcr_pid: u16, rate: u32) -> (plan: GraftPlan)
    ensures
        plan@ == planned(*g, map_pid, pcr_pid, rate),
        plan.ranges@.len() == g.ranges@.len(),
        forall|i: int|
            0 <= i < plan.ranges@.len() ==> (#[trigger] plan.ranges@[i]).start
                == g.ranges@[i].start,
{
    let components: Components = Components::of(g);
    let ghost service = g.service@;
    let ghost described = components.described@;
    let ghost carried = components.carried@;
    let ghost whole = range_tables(service, g.ranges@, g.tables, described, carried, rate);
    let pmt: Vec<u8> = build_pmt(g, pcr_pid, &components);
    let partial: bool = g.tables == Tables::Partial;
    let sits: Vec<Vec<u8>> = if partial {
        plan_selections(g, &components, rate)
    } else {
        Vec::new()
    };
    let ghost made = selections(service, snapshots(g.ranges@), described, carried, rate).0;
    let mut ranges: Vec<RangeTables> = Vec::new();
    let mut i: usize = 0;
    while i < g.ranges.len()
        invariant
            i <= g.ranges@.len(),
            ranges@.len() == i,
            service == g.service@,
            described == components.described@,
            carried == components.carried@,
            partial == (g.tables == Tables::Partial),
            partial ==> contents(sits@) == made && sits@.len() == g.ranges@.len(),
            made == selections(service, snapshots(g.ranges@), described, carried, rate).0,
            whole == range_tables(service, g.ranges@, g.tables, described, carried, rate),
            forall|k: int| 0 <= k < i ==> (#[trigger] ranges@[k])@ == whole[k],
            forall|k: int| 0 <= k < i ==> (#[trigger] ranges@[k]).start == g.ranges@[k].start,
        decreases g.ranges@.len() - i,
    {
        let r: &GraftRange = &g.ranges[i];
        let mut sit: Vec<u8> = Vec::new();
        if partial {
            assert(contents(sits@)[i as int] == sits@[i as int]@);
            sit = copied(sits[i].as_slice());
        }
        assert(sit@ =~= whole[i as int].sit);
        let eit: Vec<Vec<u8>> = trim_events(&r.snapshot, &components);
        let clock: Option<Vec<u8>> = if r.snapshot.tot.is_some() {
            copied_if(&r.snapshot.tot)
        } else {
            copied_if(&r.snapshot.tdt)
        };
        let tables: RangeTables = RangeTables { start: r.start, sit, eit, clock };
        assert(tables@ == whole[i as int]);
        ranges.push(tables);
        i += 1;
    }
    let plan: GraftPlan = GraftPlan {
        map_pid,
        pcr_pid,
        tables: g.tables,
        pmt,
        sdt: copied_if(&g.service.sdt),
        ranges,
    };
    assert(plan@.ranges =~= whole);
    plan
}

/// Where a pass has reached.
pub struct PassModel {
    /// The continuity counter of each PID written to.
    pub cc: Map<u16, u8>,
    pub first_pcr: Option<int>,
    /// The output's own clock.
    pub now: int,
    pub next_eit: int,
    pub next_tot: int,
    /// Which range the clock is inside.
    pub range: int,
    pub stats: Stats,
}

/// Nothing passed yet.
pub open spec fn pass_start() -> PassModel {
    PassModel {
        cc: Map::empty(),
        first_pcr: None,
        now: 0,
        next_eit: 0,
        next_tot: 0,
        range: 0,
        stats: no_stats(),
    }
}

/// The clock read off a packet, where it is the clock's and carries one.
pub open spec fn clocked(plan: PlanModel, st: PassModel, p: Seq<u8>) -> PassModel {
    match (packet_pid(p) == plan.pcr_pid, clock_reference(p)) {
        (true, Some(pcr)) => {
            let first = match st.first_pcr {
                Some(f) => f,
                None => pcr,
            };
            PassModel { first_pcr: Some(first), now: ticks_since(first, pcr), ..st }
        },
        _ => st,
    }
}

/// The range the clock is inside. Each opens with what was on where it came
/// from, rather than waiting out the interval.
pub open spec fn ranged(plan: PlanModel, st: PassModel) -> PassModel
    decreases plan.ranges.len() - st.range,
{
    if 0 <= st.range && st.range + 1 < plan.ranges.len() && st.now >= plan.ranges[st.range
        + 1].start {
        ranged(
            plan,
            PassModel { range: st.range + 1, next_eit: st.now, next_tot: st.now, ..st },
        )
    } else {
        st
    }
}

/// The counter the next packet on a PID takes.
pub open spec fn counter_of(cc: Map<u16, u8>, pid: u16) -> u8 {
    if cc.dom().contains(pid) {
        cc[pid]
    } else {
        0
    }
}

/// The counters after a section is written.
pub open spec fn counters_with(cc: Map<u16, u8>, pid: u16, sec: Seq<u8>) -> Map<u16, u8> {
    cc.insert(pid, counter_after(sec, true, counter_of(cc, pid)))
}

/// A section written on a PID that has counted this far.
pub open spec fn written(cc: Map<u16, u8>, pid: u16, sec: Seq<u8>) -> Seq<u8> {
    packets_of(pid, sec, true, counter_of(cc, pid))
}

/// Several sections written on one PID, one behind the other.
pub open spec fn written_all(cc: Map<u16, u8>, pid: u16, secs: Seq<Seq<u8>>) -> (
    Map<u16, u8>,
    Seq<u8>,
)
    decreases secs.len(),
{
    if secs.len() == 0 {
        (cc, Seq::empty())
    } else {
        let (before, bytes) = written_all(cc, pid, secs.drop_last());
        (counters_with(before, pid, secs.last()), bytes + written(before, pid, secs.last()))
    }
}

/// Event information, where it is due and there is any.
pub open spec fn events_due(plan: PlanModel, st: PassModel) -> (PassModel, Seq<u8>) {
    let eit = plan.ranges[st.range].eit;
    if st.now >= st.next_eit && eit.len() > 0 {
        let (cc, bytes) = written_all(st.cc, PID_EIT, eit);
        (
            PassModel {
                cc,
                next_eit: st.now + EIT_PERIOD,
                stats: Stats { eit: (st.stats.eit + 1) as usize, ..st.stats },
                ..st
            },
            bytes,
        )
    } else {
        (st, Seq::empty())
    }
}

/// Ticks as whole seconds, the half going away from nought.
pub open spec fn whole_seconds(ticks: int) -> int {
    if ticks >= 0 {
        (ticks + 45_000) / 90_000
    } else {
        -((-ticks + 45_000) / 90_000)
    }
}

/// The time, where it is due and there is one to move on.
pub open spec fn time_due(plan: PlanModel, st: PassModel) -> (PassModel, Seq<u8>) {
    let range = plan.ranges[st.range];
    match range.clock {
        Some(sec) => if st.now >= st.next_tot {
            let waited = PassModel { next_tot: st.now + TOT_PERIOD, ..st };
            match time_moved(sec, whole_seconds(st.now - range.start)) {
                Some(moved) => (
                    PassModel {
                        cc: counters_with(st.cc, PID_TDT, moved),
                        stats: Stats { tot: (st.stats.tot + 1) as usize, ..st.stats },
                        ..waited
                    },
                    written(st.cc, PID_TDT, moved),
                ),
                None => (waited, Seq::empty()),
            }
        } else {
            (st, Seq::empty())
        },
        None => (st, Seq::empty()),
    }
}

/// What one packet of the finished file becomes, once the clock and the range
/// are settled: a section in place of the muxer's own, or the packet itself
/// with whatever is due behind it.
pub open spec fn passed(plan: PlanModel, st: PassModel, p: Seq<u8>) -> (PassModel, Seq<u8>) {
    let pid = packet_pid(p);
    if pid == plan.map_pid {
        (
            PassModel {
                cc: counters_with(st.cc, pid, plan.pmt),
                stats: Stats { pmt: (st.stats.pmt + 1) as usize, ..st.stats },
                ..st
            },
            written(st.cc, pid, plan.pmt),
        )
    } else if pid == PID_SDT && plan.tables == Tables::Partial {
        let sit = plan.ranges[st.range].sit;
        (
            PassModel {
                cc: counters_with(st.cc, PID_SIT, sit),
                stats: Stats { sit: (st.stats.sit + 1) as usize, ..st.stats },
                ..st
            },
            written(st.cc, PID_SIT, sit),
        )
    } else if pid == PID_SDT && plan.sdt is Some {
        let sdt = plan.sdt->0;
        (
            PassModel {
                cc: counters_with(st.cc, PID_SDT, sdt),
                stats: Stats { sdt: (st.stats.sdt + 1) as usize, ..st.stats },
                ..st
            },
            written(st.cc, PID_SDT, sdt),
        )
    } else if plan.tables == Tables::Partial {
        (st, p)
    } else {
        let (st1, events) = events_due(plan, st);
        let (st2, time) = time_due(plan, st1);
        (st2, p + events + time)
    }
}

/// What one packet of the finished file becomes.
#[verifier::opaque]
pub open spec fn pass_step(plan: PlanModel, st: PassModel, p: Seq<u8>) -> (PassModel, Seq<u8>) {
    passed(plan, ranged(plan, clocked(plan, st, p)), p)
}

/// One pass over a finished cut, packet by packet.
pub struct GraftPass {
    cc: HashMap<u16, u8>,
    first_pcr: Option<i64>,
    now: i64,
    next_eit: i64,
    next_tot: i64,
    range: usize,
    stats: Stats,
}

impl View for GraftPass {
    type V = PassModel;

    closed spec fn view(&self) -> PassModel {
        PassModel {
            cc: self.cc@,
            first_pcr: match self.first_pcr {
                Some(f) => Some(f as int),
                None => None,
            },
            now: self.now as int,
            next_eit: self.next_eit as int,
            next_tot: self.next_tot as int,
            range: self.range as int,
            stats: self.stats,
        }
    }
}

/// Room for one more of everything that is counted.
pub open spec fn stats_have_room(s: Stats) -> bool {
    &&& s.pmt < usize::MAX
    &&& s.sdt < usize::MAX
    &&& s.eit < usize::MAX
    &&& s.tot < usize::MAX
    &&& s.sit < usize::MAX
}

impl GraftPass {
    /// The clock is one, and the range is one of the plan's.
    pub closed spec fn wf(&self, plan: &GraftPlan) -> bool {
        &&& self.range < plan.ranges@.len()
        &&& 0 <= self.now < CLOCK_WRAP
        &&& self.first_pcr matches Some(f) ==> 0 <= f < CLOCK_WRAP
    }

    pub fn new() -> (st: GraftPass)
        ensures
            st@ == pass_start(),
            forall|plan: &GraftPlan| plan.ranges@.len() > 0 ==> st.wf(plan),
    {
        GraftPass {
            cc: HashMap::new(),
            first_pcr: None,
            now: 0,
            next_eit: 0,
            next_tot: 0,
            range: 0,
            stats: Stats { pmt: 0, sdt: 0, eit: 0, tot: 0, sit: 0 },
        }
    }

    /// What has been written so far.
    pub fn stats(&self) -> (s: Stats)
        ensures
            s == self@.stats,
    {
        self.stats
    }

    fn write(&mut self, pid: u16, sec: &[u8], out: &mut Vec<u8>)
        ensures
            final(self)@ == (PassModel {
                cc: counters_with(old(self)@.cc, pid, sec@),
                ..old(self)@
            }),
            final(out)@ == old(out)@ + written(old(self)@.cc, pid, sec@),
            forall|plan: &GraftPlan| old(self).wf(plan) ==> final(self).wf(plan),
    {
        let mut c: u8 = match self.cc.get(&pid) {
            Some(c) => *c,
            None => 0,
        };
        packetize(pid, sec, &mut c, out);
        self.cc.insert(pid, c);
    }

    fn write_events(&mut self, plan: &GraftPlan, out: &mut Vec<u8>)
        requires
            plan.wf(),
            old(self).wf(plan),
            old(self)@.stats.eit < usize::MAX,
        ensures
            final(self).wf(plan),
            (final(self)@, final(out)@) == (
                events_due(plan@, old(self)@).0,
                old(out)@ + events_due(plan@, old(self)@).1,
            ),
    {
        let eit: &Vec<Vec<u8>> = &plan.ranges[self.range].eit;
        let ghost all = contents(eit@);
        assert(plan@.ranges[self.range as int].eit == all);
        if self.now >= self.next_eit && eit.len() > 0 {
            let ghost cc0 = self.cc@;
            let ghost start = out@;
            self.next_eit = self.now + EIT_PERIOD;
            let ghost st0 = self@;
            let mut i: usize = 0;
            while i < eit.len()
                invariant
                    i <= eit@.len(),
                    all == contents(eit@),
                    self.wf(plan),
                    self@ == (PassModel {
                        cc: written_all(cc0, PID_EIT, all.take(i as int)).0,
                        ..st0
                    }),
                    out@ =~= start + written_all(cc0, PID_EIT, all.take(i as int)).1,
                decreases eit@.len() - i,
            {
                assert(all[i as int] == eit@[i as int]@);
                assert(all.take(i + 1).drop_last() =~= all.take(i as int));
                assert(all.take(i + 1).last() == eit@[i as int]@);
                self.write(PID_EIT, eit[i].as_slice(), out);
                i += 1;
            }
            assert(all.take(i as int) =~= all);
            self.stats.eit = self.stats.eit + 1;
        } else {
            assert(out@ =~= old(out)@ + Seq::<u8>::empty());
        }
    }

    fn write_time(&mut self, plan: &GraftPlan, out: &mut Vec<u8>)
        requires
            plan.wf(),
            old(self).wf(plan),
            old(self)@.stats.tot < usize::MAX,
        ensures
            final(self).wf(plan),
            (final(self)@, final(out)@) == (
                time_due(plan@, old(self)@).0,
                old(out)@ + time_due(plan@, old(self)@).1,
            ),
    {
        let range: &RangeTables = &plan.ranges[self.range];
        assert(plan@.ranges[self.range as int] == range@);
        assert(out@ =~= old(out)@ + Seq::<u8>::empty());
        if self.now >= self.next_tot {
            if let Some(sec) = &range.clock {
                self.next_tot = self.now + TOT_PERIOD;
                let elapsed: i64 = self.now - range.start;
                let seconds: i64 = if elapsed >= 0 {
                    (elapsed + 45_000) / 90_000
                } else {
                    -((45_000 - elapsed) / 90_000)
                };
                if let Some(moved) = advance_time(sec.as_slice(), seconds) {
                    self.write(PID_TDT, moved.as_slice(), out);
                    self.stats.tot = self.stats.tot + 1;
                }
            }
        }
    }

    /// Pass one packet: what it becomes is appended to `out`.
    pub fn step(&mut self, plan: &GraftPlan, packet: &[u8], out: &mut Vec<u8>)
        requires
            plan.wf(),
            old(self).wf(plan),
            packet@.len() == PACKET,
            stats_have_room(old(self)@.stats),
        ensures
            final(self).wf(plan),
            final(self)@ == pass_step(plan@, old(self)@, packet@).0,
            final(out)@ == old(out)@ + pass_step(plan@, old(self)@, packet@).1,
    {
        reveal(pass_step);
        let pid: u16 = pid_of(packet);
        if pid == plan.pcr_pid {
            if let Some(pcr) = pcr_of(packet) {
                let first: i64 = match self.first_pcr {
                    Some(f) => f,
                    None => pcr,
                };
                self.first_pcr = Some(first);
                self.now = since(first, pcr);
            }
        }
        assert(self@ == clocked(plan@, old(self)@, packet@));
        let ghost settled = ranged(plan@, self@);
        while plan.ranges.len() - self.range > 1 && self.now >= plan.ranges[self.range + 1].start
            invariant
                self.wf(plan),
                self.range < plan.ranges@.len(),
                settled == ranged(plan@, self@),
                self.stats == old(self).stats,
                stats_have_room(old(self)@.stats),
            decreases plan.ranges@.len() - self.range,
        {
            assert(plan@.ranges[self.range + 1] == plan.ranges@[self.range + 1]@);
            self.range = self.range + 1;
            self.next_eit = self.now;
            self.next_tot = self.now;
        }
        assert(self.range + 1 < plan.ranges@.len() ==> plan@.ranges[self.range + 1]
            == plan.ranges@[self.range + 1]@);
        assert(self@ == settled);
        if pid == plan.map_pid {
            self.write(pid, plan.pmt.as_slice(), out);
            self.stats.pmt = self.stats.pmt + 1;
            return;
        }
        if pid == PID_SDT && plan.tables == Tables::Partial {
            assert(plan@.ranges[self.range as int] == plan.ranges@[self.range as int]@);
            self.write(PID_SIT, plan.ranges[self.range].sit.as_slice(), out);
            self.stats.sit = self.stats.sit + 1;
            return;
        }
        if pid == PID_SDT {
            if let Some(sdt) = &plan.sdt {
                self.write(PID_SDT, sdt.as_slice(), out);
                self.stats.sdt = self.stats.sdt + 1;
                return;
            }
        }
        put(out, packet);
        if plan.tables == Tables::Partial {
            return;
        }
        self.write_events(plan, out);
        self.write_time(plan, out);
        let ghost ev = events_due(plan@, settled);
        assert(out@ =~= old(out)@ + (packet@ + ev.1 + time_due(plan@, ev.0).1));
    }
}

/// What the packets from `at` on become; `None` where one does not start with
/// a sync byte.
pub open spec fn pass_from(plan: PlanModel, st: PassModel, buf: Seq<u8>, at: int) -> Option<
    (PassModel, Seq<u8>),
>
    decreases buf.len() - at,
{
    if at < 0 || at + PACKET > buf.len() {
        Some((st, Seq::empty()))
    } else if buf[at] != 0x47 {
        None
    } else {
        let one = pass_step(plan, st, buf.subrange(at, at + PACKET));
        match pass_from(plan, one.0, buf, at + PACKET) {
            Some((last, rest)) => Some((last, one.1 + rest)),
            None => None,
        }
    }
}

/// How much of a finished file is read to find where things are in it.
pub const LAYOUT_WINDOW: usize = 0x40_0000;

/// The first part of a file, as far as it is read for its layout.
pub open spec fn layout_head(buf: Seq<u8>) -> Seq<u8> {
    if buf.len() < LAYOUT_WINDOW {
        buf
    } else {
        buf.take(LAYOUT_WINDOW as int)
    }
}

/// The plan of a pass over a whole file whose layout is known.
pub open spec fn plan_for(g: Graft, buf: Seq<u8>, layout: (u16, u16)) -> PlanModel {
    let pcr_pid = if layout.1 > 0 {
        layout.1
    } else {
        g.pcr_pid
    };
    let rate = if g.tables == Tables::Partial {
        rate_of(buf, pcr_pid, SELECTION_RATE as int) as u32
    } else {
        0
    };
    planned(g, layout.0, pcr_pid, rate)
}

/// A finished cut with the recording's own tables in it.
pub open spec fn grafted(g: Graft, buf: Seq<u8>) -> Result<(Seq<u8>, Stats), SiError> {
    if g.ranges@.len() == 0 {
        Err(SiError::NoRanges)
    } else {
        match layout_in(layout_head(buf)) {
            Err(e) => Err(e),
            Ok(layout) => match pass_from(plan_for(g, buf, layout), pass_start(), buf, 0) {
                Some((st, out)) => Ok((out, st.stats)),
                None => Err(SiError::NotPacketAligned),
            },
        }
    }
}

/// A pass counts at most one more of each with every packet.
proof fn lemma_stats_step(plan: PlanModel, st: PassModel, p: Seq<u8>, n: int)
    requires
        st.stats.pmt <= n,
        st.stats.sdt <= n,
        st.stats.eit <= n,
        st.stats.tot <= n,
        st.stats.sit <= n,
        n + 1 <= usize::MAX,
    ensures
        pass_step(plan, st, p).0.stats.pmt <= n + 1,
        pass_step(plan, st, p).0.stats.sdt <= n + 1,
        pass_step(plan, st, p).0.stats.eit <= n + 1,
        pass_step(plan, st, p).0.stats.tot <= n + 1,
        pass_step(plan, st, p).0.stats.sit <= n + 1,
{
    reveal(pass_step);
    lemma_ranged_counts_nothing(plan, clocked(plan, st, p));
}

/// Settling the range counts nothing.
proof fn lemma_ranged_counts_nothing(plan: PlanModel, st: PassModel)
    ensures
        ranged(plan, st).stats == st.stats,
    decreases plan.ranges.len() - st.range,
{
    if 0 <= st.range && st.range + 1 < plan.ranges.len() && st.now >= plan.ranges[st.range
        + 1].start {
        lemma_ranged_counts_nothing(
            plan,
            PassModel { range: st.range + 1, next_eit: st.now, next_tot: st.now, ..st },
        );
    }
}

/// Put the recording's own tables back into a finished cut.
///
/// The map and the service description are written over the muxer's, at the
/// cadence the muxer chose; event information and the clock are inserted.
/// Everything else is passed through untouched. A file too large to hold is
/// passed a packet at a time with [`plan_graft`] and [`GraftPass`].
pub fn graft(output: &[u8], g: &Graft) -> (r: Result<(Vec<u8>, Stats), SiError>)
    requires
        output@.len() <= 0x1FFF_FFFF_FFFF_FFFF,
        forall|i: int|
            0 <= i < g.ranges@.len() ==> start_in_reach((#[trigger] g.ranges@[i]).start as int),
    ensures
        match r {
            Ok((out, stats)) => grafted(*g, output@) == Ok::<(Seq<u8>, Stats), SiError>(
                (out@, stats),
            ),
            Err(e) => grafted(*g, output@) == Err::<(Seq<u8>, Stats), SiError>(e),
        },
{
    if g.ranges.len() == 0 {
        return Err(SiError::NoRanges);
    }
    let head: &[u8] = if output.len() < LAYOUT_WINDOW {
        output
    } else {
        slice_subrange(output, 0, LAYOUT_WINDOW)
    };
    assert(head@ =~= layout_head(output@));
    let (map_pid, out_pcr_pid): (u16, u16) = match output_layout(head) {
        Ok(layout) => layout,
        Err(e) => return Err(e),
    };
    let pcr_pid: u16 = if out_pcr_pid > 0 {
        out_pcr_pid
    } else {
        g.pcr_pid
    };
    let rate: u32 = if g.tables == Tables::Partial {
        peak_rate(output, pcr_pid, SELECTION_RATE)
    } else {
        0
    };
    let plan: GraftPlan = plan_graft(g, map_pid, pcr_pid, rate);
    let ghost model = plan@;
    assert(model == plan_for(*g, output@, (map_pid, out_pcr_pid)));
    let mut pass: GraftPass = GraftPass::new();
    let mut out: Vec<u8> = Vec::new();
    let mut at: usize = 0;
    let ghost mut n: int = 0;
    let ghost all = pass_from(model, pass_start(), output@, 0);
    while output.len() - at >= PACKET
        invariant
            at <= output@.len() <= 0x1FFF_FFFF_FFFF_FFFF,
            plan.wf(),
            pass.wf(&plan),
            model == plan@,
            n * 188 == at,
            n >= 0,
            pass@.stats.pmt <= n,
            pass@.stats.sdt <= n,
            pass@.stats.eit <= n,
            pass@.stats.tot <= n,
            pass@.stats.sit <= n,
            grafted(*g, output@) == (match all {
                Some((st, bytes)) => Ok::<(Seq<u8>, Stats), SiError>((bytes, st.stats)),
                None => Err(SiError::NotPacketAligned),
            }),
            match pass_from(model, pass@, output@, at as int) {
                Some((st, rest)) => all matches Some((st1, bytes)) && st1 == st && bytes =~= out@
                    + rest,
                None => all is None,
            },
        decreases output@.len() - at,
    {
        let packet: &[u8] = slice_subrange(output, at, at + PACKET);
        if packet[0] != 0x47 {
            return Err(SiError::NotPacketAligned);
        }
        proof {
            lemma_stats_step(model, pass@, packet@, n);
            n = n + 1;
        }
        pass.step(&plan, packet, &mut out);
        at += PACKET;
    }
    Ok((out, pass.stats()))
}

/// The packets of a file that are on none of `own`, in order.
pub open spec fn untouched(bytes: Seq<u8>, own: Set<u16>) -> Seq<u8>
    decreases bytes.len(),
{
    if bytes.len() < PACKET {
        Seq::empty()
    } else {
        let p = bytes.take(PACKET as int);
        (if own.contains(packet_pid(p)) {
            Seq::empty()
        } else {
            p
        }) + untouched(bytes.skip(PACKET as int), own)
    }
}

/// The PIDs a pass writes to.
pub open spec fn own_pids(plan: PlanModel) -> Set<u16> {
    set![plan.map_pid, PID_SDT, PID_SIT, PID_EIT, PID_TDT]
}

/// What a run of packets holds of the others is what its parts hold.
proof fn lemma_untouched_join(a: Seq<u8>, b: Seq<u8>, own: Set<u16>)
    requires
        a.len() % 188 == 0,
    ensures
        untouched(a + b, own) == untouched(a, own) + untouched(b, own),
    decreases a.len(),
{
    if a.len() == 0 {
        assert(a + b =~= b);
        assert(untouched(a, own) + untouched(b, own) =~= untouched(b, own));
    } else {
        let p = a.take(PACKET as int);
        assert((a + b).take(PACKET as int) =~= p);
        assert((a + b).skip(PACKET as int) =~= a.skip(PACKET as int) + b);
        lemma_untouched_join(a.skip(PACKET as int), b, own);
        let head = if own.contains(packet_pid(p)) {
            Seq::empty()
        } else {
            p
        };
        assert(head + (untouched(a.skip(PACKET as int), own) + untouched(b, own)) =~= (head
            + untouched(a.skip(PACKET as int), own)) + untouched(b, own));
    }
}

/// A section's packets are all on its own PID.
proof fn lemma_packets_are_own(pid: u16, rest: Seq<u8>, first: bool, cc: u8, own: Set<u16>)
    requires
        pid < 8192,
        own.contains(pid),
    ensures
        packets_of(pid, rest, first, cc).len() % 188 == 0,
        untouched(packets_of(pid, rest, first, cc), own) == Seq::<u8>::empty(),
    decreases rest.len(), (if first { 1int } else { 0 }),
{
    if first || rest.len() > 0 {
        let p = one_packet(pid, rest, first, cc);
        let tail = packets_of(
            pid,
            rest.skip(packet_take(rest, first)),
            false,
            next_counter(cc),
        );
        lemma_one_packet_reads(pid, rest, first, cc);
        lemma_packets_are_own(
            pid,
            rest.skip(packet_take(rest, first)),
            false,
            next_counter(cc),
            own,
        );
        assert(packets_of(pid, rest, first, cc) == p + tail);
        lemma_untouched_join(p, tail, own);
        assert(p.take(PACKET as int) =~= p);
        assert(untouched(p.skip(PACKET as int), own) =~= Seq::empty());
        assert(untouched(p, own) =~= Seq::empty());
    }
}

/// The same of several sections on one PID.
proof fn lemma_sections_are_own(cc: Map<u16, u8>, pid: u16, secs: Seq<Seq<u8>>, own: Set<u16>)
    requires
        pid < 8192,
        own.contains(pid),
    ensures
        written_all(cc, pid, secs).1.len() % 188 == 0,
        untouched(written_all(cc, pid, secs).1, own) == Seq::<u8>::empty(),
    decreases secs.len(),
{
    if secs.len() > 0 {
        let (before, bytes) = written_all(cc, pid, secs.drop_last());
        lemma_sections_are_own(cc, pid, secs.drop_last(), own);
        lemma_packets_are_own(pid, secs.last(), true, counter_of(before, pid), own);
        lemma_untouched_join(bytes, written(before, pid, secs.last()), own);
        assert(Seq::<u8>::empty() + Seq::<u8>::empty() =~= Seq::empty());
    }
}

/// What one packet becomes holds the packet itself, unless it is on a PID the
/// pass writes to, and nothing else that is on none of them.
#[verifier::spinoff_prover]
#[verifier::rlimit(60)]
pub proof fn law_a_packet_passes_untouched(plan: PlanModel, st: PassModel, p: Seq<u8>)
    requires
        plan.map_pid < 8192,
        p.len() == PACKET,
    ensures
        pass_step(plan, st, p).1.len() % 188 == 0,
        untouched(pass_step(plan, st, p).1, own_pids(plan)) == untouched(p, own_pids(plan)),
{
    reveal(pass_step);
    let own = own_pids(plan);
    let settled = ranged(plan, clocked(plan, st, p));
    let pid = packet_pid(p);
    assert(p.take(PACKET as int) =~= p);
    assert(untouched(p.skip(PACKET as int), own) =~= Seq::empty());
    if pid == plan.map_pid {
        lemma_packets_are_own(pid, plan.pmt, true, counter_of(settled.cc, pid), own);
    } else if pid == PID_SDT && plan.tables == Tables::Partial {
        lemma_packets_are_own(
            PID_SIT,
            plan.ranges[settled.range].sit,
            true,
            counter_of(settled.cc, PID_SIT),
            own,
        );
    } else if pid == PID_SDT && plan.sdt is Some {
        lemma_packets_are_own(PID_SDT, plan.sdt->0, true, counter_of(settled.cc, PID_SDT), own);
    } else if plan.tables != Tables::Partial {
        let (st1, events) = events_due(plan, settled);
        let (_, time) = time_due(plan, st1);
        lemma_sections_are_own(settled.cc, PID_EIT, plan.ranges[settled.range].eit, own);
        let range = plan.ranges[st1.range];
        if let Some(sec) = range.clock {
            if let Some(moved) = time_moved(sec, whole_seconds(st1.now - range.start)) {
                lemma_packets_are_own(PID_TDT, moved, true, counter_of(st1.cc, PID_TDT), own);
            }
        }
        assert(untouched(Seq::<u8>::empty(), own) =~= Seq::empty());
        lemma_untouched_join(p, events, own);
        lemma_untouched_join(p + events, time, own);
        assert(untouched(p, own) + Seq::<u8>::empty() =~= untouched(p, own));
    }
}

/// Everything in a file but the tables a pass writes comes out of it as it
/// went in, packet for packet and in order.
pub proof fn law_the_rest_passes_untouched(
    plan: PlanModel,
    st: PassModel,
    buf: Seq<u8>,
    at: int,
)
    requires
        plan.map_pid < 8192,
        0 <= at <= buf.len(),
        pass_from(plan, st, buf, at) is Some,
    ensures
        untouched((pass_from(plan, st, buf, at)->0).1, own_pids(plan)) == untouched(
            buf.skip(at),
            own_pids(plan),
        ),
    decreases buf.len() - at,
{
    let own = own_pids(plan);
    let here = buf.skip(at);
    if at + PACKET <= buf.len() {
        let p = buf.subrange(at, at + PACKET);
        let one = pass_step(plan, st, p);
        let rest = (pass_from(plan, one.0, buf, at + PACKET)->0).1;
        law_a_packet_passes_untouched(plan, st, p);
        law_the_rest_passes_untouched(plan, one.0, buf, at + PACKET);
        lemma_untouched_join(one.1, rest, own);
        assert(here =~= p + buf.skip(at + PACKET));
        lemma_untouched_join(p, buf.skip(at + PACKET), own);
    }
}

/// The packets of a run that are on one PID.
pub open spec fn on_pid(bytes: Seq<u8>, pid: u16) -> Seq<u8> {
    untouched(bytes, others(pid))
}

/// Every PID but one.
pub open spec fn others(pid: u16) -> Set<u16> {
    Set::new(|q: u16| q != pid)
}

/// How many packets of a run are on one PID.
pub open spec fn count_on(bytes: Seq<u8>, pid: u16) -> nat
    decreases bytes.len(),
{
    if bytes.len() < PACKET {
        0
    } else {
        count_on(bytes.skip(PACKET as int), pid) + if packet_pid(bytes.take(PACKET as int)) == pid {
            1nat
        } else {
            0
        }
    }
}

/// The section a pass writes over everything a muxer put on this PID, where
/// it does.
pub open spec fn written_over(plan: PlanModel, pid: u16) -> Option<Seq<u8>> {
    if pid == plan.map_pid {
        Some(plan.pmt)
    } else if pid == PID_SDT && plan.tables != Tables::Partial {
        plan.sdt
    } else {
        None
    }
}

/// So many of one section.
pub open spec fn copies(sec: Seq<u8>, n: nat) -> Seq<Seq<u8>> {
    Seq::new(n, |i: int| sec)
}

/// A section's packets are all there on its own PID.
proof fn lemma_packets_are_there(pid: u16, rest: Seq<u8>, first: bool, cc: u8)
    requires
        pid < 8192,
    ensures
        packets_of(pid, rest, first, cc).len() % 188 == 0,
        on_pid(packets_of(pid, rest, first, cc), pid) == packets_of(pid, rest, first, cc),
    decreases rest.len(), (if first { 1int } else { 0 }),
{
    if first || rest.len() > 0 {
        let p = one_packet(pid, rest, first, cc);
        let less = rest.skip(packet_take(rest, first));
        let tail = packets_of(pid, less, false, next_counter(cc));
        lemma_one_packet_reads(pid, rest, first, cc);
        lemma_packets_are_there(pid, less, false, next_counter(cc));
        assert(packets_of(pid, rest, first, cc) == p + tail);
        lemma_untouched_join(p, tail, others(pid));
        assert(p.take(PACKET as int) =~= p);
        assert(untouched(p.skip(PACKET as int), others(pid)) =~= Seq::empty());
        assert(on_pid(p, pid) =~= p);
    }
}

/// Reading packets back goes one run of them at a time.
proof fn lemma_read_back_join(st: ReaderState, a: Seq<u8>, b: Seq<u8>)
    requires
        a.len() % 188 == 0,
    ensures
        read_back(st, a + b).0 == read_back(read_back(st, a).0, b).0,
        read_back(st, a + b).1 == read_back(st, a).1 + read_back(read_back(st, a).0, b).1,
    decreases a.len(),
{
    if a.len() == 0 {
        assert(a + b =~= b);
        assert(read_back(st, a).1 + read_back(st, b).1 =~= read_back(st, b).1);
    } else {
        let p = a.take(PACKET as int);
        let rest = a.skip(PACKET as int);
        let one = fed(st, p);
        assert((a + b).take(PACKET as int) =~= p);
        assert((a + b).skip(PACKET as int) =~= rest + b);
        lemma_read_back_join(one.0, rest, b);
        assert(one.1 + (read_back(one.0, rest).1 + read_back(read_back(one.0, rest).0, b).1)
            =~= (one.1 + read_back(one.0, rest).1) + read_back(read_back(one.0, rest).0, b).1);
    }
}

/// What one packet becomes holds of a PID that is written over the section
/// that is written over it, where the packet was on it, and nothing where it
/// was not.
proof fn lemma_step_on_pid(plan: PlanModel, st: PassModel, p: Seq<u8>, pid: u16, sec: Seq<u8>)
    requires
        pid < 8192,
        pid != PID_EIT,
        pid != PID_TDT,
        pid == PID_SIT ==> plan.tables != Tables::Partial,
        written_over(plan, pid) == Some(sec),
        p.len() == PACKET,
    ensures
        pass_step(plan, st, p).1.len() % 188 == 0,
        on_pid(pass_step(plan, st, p).1, pid) == (if packet_pid(p) == pid {
            written(ranged(plan, clocked(plan, st, p)).cc, pid, sec)
        } else {
            Seq::empty()
        }),
{
    reveal(pass_step);
    let own = others(pid);
    let settled = ranged(plan, clocked(plan, st, p));
    let here = packet_pid(p);
    assert(p.take(PACKET as int) =~= p);
    assert(untouched(p.skip(PACKET as int), own) =~= Seq::empty());
    assert(here != pid ==> on_pid(p, pid) =~= Seq::empty());
    if here == pid {
        lemma_packets_are_there(pid, sec, true, counter_of(settled.cc, pid));
    } else if here == plan.map_pid {
        lemma_packets_are_own(here, plan.pmt, true, counter_of(settled.cc, here), own);
    } else if here == PID_SDT && plan.tables == Tables::Partial {
        lemma_packets_are_own(
            PID_SIT,
            plan.ranges[settled.range].sit,
            true,
            counter_of(settled.cc, PID_SIT),
            own,
        );
    } else if here == PID_SDT && plan.sdt is Some {
        lemma_packets_are_own(PID_SDT, plan.sdt->0, true, counter_of(settled.cc, PID_SDT), own);
    } else if plan.tables != Tables::Partial {
        let (st1, events) = events_due(plan, settled);
        let (_, time) = time_due(plan, st1);
        lemma_sections_are_own(settled.cc, PID_EIT, plan.ranges[settled.range].eit, own);
        let range = plan.ranges[st1.range];
        if let Some(clock) = range.clock {
            if let Some(moved) = time_moved(clock, whole_seconds(st1.now - range.start)) {
                lemma_packets_are_own(PID_TDT, moved, true, counter_of(st1.cc, PID_TDT), own);
            }
        }
        assert(untouched(Seq::<u8>::empty(), own) =~= Seq::empty());
        lemma_untouched_join(p, events, own);
        lemma_untouched_join(p + events, time, own);
        assert(Seq::<u8>::empty() + Seq::<u8>::empty() =~= Seq::empty());
    }
}

/// What is read back on a PID that a pass writes over is the section it writes
/// there, once for every packet the muxer had put on it, and nothing else.
pub proof fn law_what_is_written_over_reads_back(
    plan: PlanModel,
    st: PassModel,
    buf: Seq<u8>,
    at: int,
    pid: u16,
    sec: Seq<u8>,
)
    requires
        pid < 8192,
        pid != PID_EIT,
        pid != PID_TDT,
        pid == PID_SIT ==> plan.tables != Tables::Partial,
        written_over(plan, pid) == Some(sec),
        sec.len() >= 3,
        sec[0] != 0xFF,
        section_size(sec) == sec.len(),
        sound(sec),
        0 <= at <= buf.len(),
        pass_from(plan, st, buf, at) is Some,
    ensures
        read_back(idle(), on_pid((pass_from(plan, st, buf, at)->0).1, pid)) == (
            idle(),
            copies(sec, count_on(buf.skip(at), pid)),
        ),
    decreases buf.len() - at,
{
    let here = buf.skip(at);
    if at + PACKET <= buf.len() {
        let p = buf.subrange(at, at + PACKET);
        let one = pass_step(plan, st, p);
        let rest = (pass_from(plan, one.0, buf, at + PACKET)->0).1;
        let less = count_on(buf.skip(at + PACKET), pid);
        lemma_step_on_pid(plan, st, p, pid, sec);
        law_what_is_written_over_reads_back(plan, one.0, buf, at + PACKET, pid, sec);
        lemma_untouched_join(one.1, rest, others(pid));
        assert(here.take(PACKET as int) =~= p);
        assert(here.skip(PACKET as int) =~= buf.skip(at + PACKET));
        if packet_pid(p) == pid {
            let cc = counter_of(ranged(plan, clocked(plan, st, p)).cc, pid);
            law_a_section_survives_its_packets(pid, sec, cc);
            lemma_packets_are_there(pid, sec, true, cc);
            lemma_read_back_join(idle(), packets_of(pid, sec, true, cc), on_pid(rest, pid));
            assert(seq![sec] + copies(sec, less) =~= copies(sec, less + 1));
        } else {
            assert(Seq::<u8>::empty() + on_pid(rest, pid) =~= on_pid(rest, pid));
        }
    } else {
        assert(copies(sec, 0) =~= Seq::empty());
    }
}

/// A PID read off sections is one.
proof fn lemma_layout_with_pid(l: LayoutModel, map: bool, secs: Seq<Seq<u8>>)
    requires
        l.pmt_pid < 8192,
    ensures
        layout_with(l, map, secs).pmt_pid < 8192,
    decreases secs.len(),
{
    if secs.len() > 0 {
        lemma_layout_with_pid(l, map, secs.drop_last());
        lemma_programme_pid(secs.last(), 8);
    }
}

/// A service's map is on a PID.
proof fn lemma_programme_pid(sec: Seq<u8>, i: int)
    ensures
        first_programme(sec, i) matches Some((_, pid)) ==> pid < 8192,
    decreases sec.len() - i,
{
    if 0 <= i && i + 8 <= sec.len() {
        lemma_programme_pid(sec, i + 4);
    }
}

/// A PID read off packets is one.
proof fn lemma_layout_pid(l: LayoutModel, buf: Seq<u8>, at: int)
    requires
        l.pmt_pid < 8192,
    ensures
        layout_from(l, buf, at).pmt_pid < 8192,
    decreases buf.len() - at,
{
    if 0 <= at && at + PACKET <= buf.len() {
        let p = buf.subrange(at, at + PACKET);
        reveal(layout_with_packet);
        let (pat, pats) = fed(l.pat, p);
        let (pmt, pmts) = fed(l.pmt, p);
        lemma_layout_with_pid(LayoutModel { pat, ..l }, false, pats);
        lemma_layout_with_pid(LayoutModel { pmt, ..l }, true, pmts);
        lemma_layout_pid(layout_with_packet(l, p), buf, at + PACKET);
    }
}

/// The map of a cut that tables were put back into reads back as the map the
/// recording had, for the streams that were kept: once for every packet the
/// muxer had put its own in, and nothing else is there.
pub proof fn law_a_grafts_map_reads_back(g: Graft, buf: Seq<u8>)
    requires
        grafted(g, buf) is Ok,
        ({
            let layout = layout_in(layout_head(buf))->Ok_0;
            &&& layout.0 != PID_EIT
            &&& layout.0 != PID_TDT
            &&& layout.0 == PID_SIT ==> g.tables != Tables::Partial
            &&& plan_for(g, buf, layout).pmt.len() <= 4098
        }),
    ensures
        ({
            let layout = layout_in(layout_head(buf))->Ok_0;
            read_back(idle(), on_pid((grafted(g, buf)->Ok_0).0, layout.0)) == (
                idle(),
                copies(plan_for(g, buf, layout).pmt, count_on(buf, layout.0)),
            )
        }),
{
    let head = layout_head(buf);
    let layout = layout_in(head)->Ok_0;
    let plan = plan_for(g, buf, layout);
    if let Some(base) = first_sync(head, PACKET as int) {
        lemma_layout_pid(layout_start(), head, base);
    }
    let service = g.service@;
    let described = described_tags(service.streams);
    let carried = carried_tags(service.streams, g.streams@);
    let body = map_head(
        service.service_id,
        plan.pcr_pid,
        carried_loop(service.program_info, described, carried),
    ) + map_entries(service.streams, g.streams@);
    assert(plan.pmt == finished(body));
    assert(finished(body).len() == body.len() + 4);
    law_a_finished_section_is_sound(body);
    assert(finished(body)[0] == TABLE_PMT);
    assert(buf.skip(0) =~= buf);
    law_what_is_written_over_reads_back(plan, pass_start(), buf, 0, layout.0, plan.pmt);
}

/// Whether the packets of one run all stand in another, in the same order.
pub open spec fn all_stand_in(few: Seq<u8>, many: Seq<u8>) -> bool
    decreases many.len(),
{
    if few.len() < PACKET {
        true
    } else if many.len() < PACKET {
        false
    } else {
        let rest = many.skip(PACKET as int);
        ||| few.take(PACKET as int) == many.take(PACKET as int) && all_stand_in(
            few.skip(PACKET as int),
            rest,
        )
        ||| all_stand_in(few, rest)
    }
}

/// The PIDs whose packets a pass writes something else over.
pub open spec fn replaced_pids(map_pid: u16) -> Set<u16> {
    set![map_pid, PID_SDT]
}

/// What stands in a run stands in it with other packets in front.
proof fn lemma_stand_behind(few: Seq<u8>, more: Seq<u8>, many: Seq<u8>)
    requires
        more.len() % 188 == 0,
        all_stand_in(few, many),
    ensures
        all_stand_in(few, more + many),
    decreases more.len(),
{
    if more.len() == 0 {
        assert(more + many =~= many);
    } else {
        lemma_stand_behind(few, more.skip(PACKET as int), many);
        assert((more + many).skip(PACKET as int) =~= more.skip(PACKET as int) + many);
    }
}

/// A packet that is not written over is the first of what it becomes.
proof fn lemma_kept_packet_is_first(plan: PlanModel, st: PassModel, p: Seq<u8>)
    requires
        p.len() == PACKET,
        !replaced_pids(plan.map_pid).contains(packet_pid(p)),
    ensures
        pass_step(plan, st, p).1.len() >= PACKET,
        pass_step(plan, st, p).1.take(PACKET as int) == p,
{
    reveal(pass_step);
    let settled = ranged(plan, clocked(plan, st, p));
    if plan.tables == Tables::Partial {
        assert(p.take(PACKET as int) =~= p);
    } else {
        let (st1, events) = events_due(plan, settled);
        let (_, time) = time_due(plan, st1);
        assert((p + events + time).take(PACKET as int) =~= p);
    }
}

/// Every packet of a file that is neither on the map's PID nor on the service
/// description's comes out of a pass as it went in, and in the order they
/// were in.
pub proof fn law_only_the_map_and_the_description_are_written_over(
    plan: PlanModel,
    st: PassModel,
    buf: Seq<u8>,
    at: int,
)
    requires
        plan.map_pid < 8192,
        0 <= at <= buf.len(),
        pass_from(plan, st, buf, at) is Some,
    ensures
        all_stand_in(
            untouched(buf.skip(at), replaced_pids(plan.map_pid)),
            (pass_from(plan, st, buf, at)->0).1,
        ),
    decreases buf.len() - at,
{
    let own = replaced_pids(plan.map_pid);
    let here = buf.skip(at);
    if at + PACKET <= buf.len() {
        let p = buf.subrange(at, at + PACKET);
        let one = pass_step(plan, st, p);
        let rest = (pass_from(plan, one.0, buf, at + PACKET)->0).1;
        let few = untouched(buf.skip(at + PACKET), own);
        law_a_packet_passes_untouched(plan, st, p);
        law_only_the_map_and_the_description_are_written_over(plan, one.0, buf, at + PACKET);
        assert(here.take(PACKET as int) =~= p);
        assert(here.skip(PACKET as int) =~= buf.skip(at + PACKET));
        if own.contains(packet_pid(p)) {
            lemma_stand_behind(few, one.1, rest);
            assert(Seq::<u8>::empty() + few =~= few);
        } else {
            let more = one.1.skip(PACKET as int);
            lemma_kept_packet_is_first(plan, st, p);
            lemma_stand_behind(few, more, rest);
            assert((p + few).take(PACKET as int) =~= p);
            assert((p + few).skip(PACKET as int) =~= few);
            assert((one.1 + rest).take(PACKET as int) =~= p);
            assert((one.1 + rest).skip(PACKET as int) =~= more + rest);
        }
    }
}

/// Everything in a cut but its map and its service description is in it still
/// once the recording's own tables are put back.
pub proof fn law_a_graft_keeps_the_rest(g: Graft, buf: Seq<u8>)
    requires
        grafted(g, buf) is Ok,
    ensures
        all_stand_in(
            untouched(buf, replaced_pids((layout_in(layout_head(buf))->Ok_0).0)),
            (grafted(g, buf)->Ok_0).0,
        ),
{
    let head = layout_head(buf);
    let layout = layout_in(head)->Ok_0;
    if let Some(base) = first_sync(head, PACKET as int) {
        lemma_layout_pid(layout_start(), head, base);
    }
    assert(buf.skip(0) =~= buf);
    law_only_the_map_and_the_description_are_written_over(
        plan_for(g, buf, layout),
        pass_start(),
        buf,
        0,
    );
}

} // verus!
