//! What a recording says about itself, read off the front of it.
use crate::bytes::{be16, content, contents, copied, put};
use crate::si::loops::{
    descriptor, descriptor_from, finish_section, finished, keep_descriptors, plain_loop,
    STREAM_IDENTIFIER,
};
use crate::si::packet::{
    fed, find_sync, first_sync, framed, framing, length_bits, length_field, packet_pid, pid_bits,
    pid_field, pid_of, word_field, ReaderState, SectionReader, PACKET,
};
use std::collections::HashSet;
use vstd::prelude::*;
use vstd::slice::slice_subrange;

verus! {

broadcast use vstd::std_specs::hash::group_hash_axioms;

pub const PID_PAT: u16 = 0x0000;

pub const PID_SDT: u16 = 0x0011;

pub const PID_EIT: u16 = 0x0012;

pub const PID_TDT: u16 = 0x0014;

/// Where a partial transport stream says what it is. Reserved for exactly
/// this, which is why a recording never carries it.
pub const PID_SIT: u16 = 0x001F;

pub const TABLE_PAT: u8 = 0x00;

pub const TABLE_PMT: u8 = 0x02;

/// Service description for services in this transport stream.
pub const TABLE_SDT_ACTUAL: u8 = 0x42;

/// Event information, present and following, for this transport stream.
pub const TABLE_EIT_PF_ACTUAL: u8 = 0x4E;

/// Selection information: everything a partial transport stream says about
/// itself, in the one table that replaces the rest.
pub const TABLE_SIT: u8 = 0x7F;

pub const TABLE_TDT: u8 = 0x70;

pub const TABLE_TOT: u8 = 0x73;

/// What can be wrong with a file that is read or grafted here.
#[derive(Debug, Clone, Copy, PartialEq, Eq, Structural)]
pub enum SiError {
    /// The bytes are not packets at either spacing.
    NotATransportStream,
    /// There is no program map table, so there are no tables to keep.
    NoProgramMap,
    /// There is no program association table.
    NoProgramAssociation,
    /// A packet does not start with a sync byte.
    NotPacketAligned,
    /// There are no ranges to graft onto.
    NoRanges,
}

/// One elementary stream, as the recording's own map describes it.
#[derive(Debug, Clone)]
pub struct ElementaryStream {
    pub pid: u16,
    pub stream_type: u8,
    /// The descriptor loop, less what must not be carried across.
    pub descriptors: Vec<u8>,
}

/// What an [`ElementaryStream`] holds.
pub struct StreamModel {
    pub pid: u16,
    pub stream_type: u8,
    pub descriptors: Seq<u8>,
}

impl View for ElementaryStream {
    type V = StreamModel;

    open spec fn view(&self) -> StreamModel {
        StreamModel {
            pid: self.pid,
            stream_type: self.stream_type,
            descriptors: self.descriptors@,
        }
    }
}

/// The tag a descriptor loop gives its stream.
pub open spec fn tag_in(descriptors: Seq<u8>) -> Option<u8> {
    match descriptor_from(descriptors, STREAM_IDENTIFIER, 0) {
        Some(body) => if body.len() > 0 {
            Some(body[0])
        } else {
            None
        },
        None => None,
    }
}

impl ElementaryStream {
    /// The component tag, which is how ARIB names a stream: 0x00 the main
    /// video, 0x10 the main audio and 0x11 the second, 0x30..0x37 the
    /// captions and 0x38..0x3F the superimposed crawls.
    pub fn component_tag(&self) -> (r: Option<u8>)
        ensures
            r == tag_in(self.descriptors@),
    {
        match descriptor(self.descriptors.as_slice(), STREAM_IDENTIFIER) {
            Some(body) => if body.len() > 0 {
                Some(body[0])
            } else {
                None
            },
            None => None,
        }
    }
}

/// What the recording says about itself.
#[derive(Debug, Clone)]
pub struct Service {
    pub transport_stream_id: u16,
    pub original_network_id: u16,
    pub service_id: u16,
    pub service_type: u8,
    pub pmt_pid: u16,
    pub pcr_pid: u16,
    /// Programme-level descriptors from the map, less the dropped ones.
    pub program_info: Vec<u8>,
    pub streams: Vec<ElementaryStream>,
    /// The service description section for this service alone, ready to be
    /// written back: the bytes that arrived, in the broadcast's own encoding.
    pub sdt: Option<Vec<u8>>,
}

/// What a [`Service`] holds.
pub struct ServiceModel {
    pub transport_stream_id: u16,
    pub original_network_id: u16,
    pub service_id: u16,
    pub service_type: u8,
    pub pmt_pid: u16,
    pub pcr_pid: u16,
    pub program_info: Seq<u8>,
    pub streams: Seq<StreamModel>,
    pub sdt: Option<Seq<u8>>,
}

/// What a list of streams holds.
pub open spec fn stream_models(streams: Seq<ElementaryStream>) -> Seq<StreamModel> {
    streams.map_values(|s: ElementaryStream| s@)
}

impl View for Service {
    type V = ServiceModel;

    open spec fn view(&self) -> ServiceModel {
        ServiceModel {
            transport_stream_id: self.transport_stream_id,
            original_network_id: self.original_network_id,
            service_id: self.service_id,
            service_type: self.service_type,
            pmt_pid: self.pmt_pid,
            pcr_pid: self.pcr_pid,
            program_info: self.program_info@,
            streams: stream_models(self.streams@),
            sdt: content(self.sdt),
        }
    }
}

/// The first stream on a PID, from `i` on.
pub open spec fn stream_on(streams: Seq<StreamModel>, pid: u16, i: int) -> Option<StreamModel>
    decreases streams.len() - i,
{
    if i < 0 || i >= streams.len() {
        None
    } else if streams[i].pid == pid {
        Some(streams[i])
    } else {
        stream_on(streams, pid, i + 1)
    }
}

impl Service {
    /// The stream on a PID, where the recording described one.
    pub fn stream(&self, pid: u16) -> (r: Option<&ElementaryStream>)
        ensures
            match r {
                Some(s) => stream_on(self@.streams, pid, 0) == Some(s@),
                None => stream_on(self@.streams, pid, 0) is None,
            },
    {
        let mut i: usize = 0;
        while i < self.streams.len()
            invariant
                i <= self.streams@.len(),
                stream_on(self@.streams, pid, 0) == stream_on(self@.streams, pid, i as int),
            decreases self.streams@.len() - i,
        {
            assert(self@.streams[i as int] == self.streams@[i as int]@);
            if self.streams[i].pid == pid {
                return Some(&self.streams[i]);
            }
            i += 1;
        }
        None
    }
}

/// The first programme an association table lists that is a service, and the
/// PID its map is on. Programme nought is the network's own table.
pub open spec fn first_programme(sec: Seq<u8>, i: int) -> Option<(u16, u16)>
    decreases sec.len() - i,
{
    if i < 0 || i + 8 > sec.len() {
        None
    } else if be16(sec[i], sec[i + 1]) != 0 {
        Some((be16(sec[i], sec[i + 1]) as u16, pid_bits(sec[i + 2], sec[i + 3])))
    } else {
        first_programme(sec, i + 4)
    }
}

/// Read the first service out of an association table, from its first entry.
pub fn programme_in(sec: &[u8]) -> (r: Option<(u16, u16)>)
    requires
        sec@.len() >= 8,
    ensures
        r == first_programme(sec@, 8),
{
    let mut i: usize = 8;
    while i <= sec.len() && sec.len() - i >= 8
        invariant
            8 <= i,
            first_programme(sec@, 8) == first_programme(sec@, i as int),
        decreases sec@.len() - i,
    {
        let number: u16 = word_field(sec[i], sec[i + 1]);
        if number != 0 {
            return Some((number, pid_field(sec[i + 2], sec[i + 3])));
        }
        i += 4;
    }
    None
}

/// The streams a map lists from `i` on.
pub open spec fn streams_from(sec: Seq<u8>, i: int) -> Seq<StreamModel>
    decreases sec.len() - i,
{
    if i < 0 || i + 9 > sec.len() || i + 5 + length_bits(sec[i + 3], sec[i + 4]) > sec.len() {
        Seq::empty()
    } else {
        let end = i + 5 + length_bits(sec[i + 3], sec[i + 4]);
        seq![
            StreamModel {
                pid: pid_bits(sec[i + 1], sec[i + 2]),
                stream_type: sec[i],
                descriptors: plain_loop(sec.subrange(i + 5, end)),
            },
        ] + streams_from(sec, end)
    }
}

/// Read the streams a map lists from `from` on.
pub fn streams_in(sec: &[u8], from: usize) -> (out: Vec<ElementaryStream>)
    requires
        from <= sec@.len(),
    ensures
        stream_models(out@) == streams_from(sec@, from as int),
{
    let mut out: Vec<ElementaryStream> = Vec::new();
    let mut i: usize = from;
    assert(stream_models(out@) =~= Seq::empty());
    while sec.len() - i >= 9
        invariant_except_break
            i <= sec@.len(),
            streams_from(sec@, from as int) =~= stream_models(out@) + streams_from(sec@, i as int),
        ensures
            streams_from(sec@, from as int) =~= stream_models(out@),
        decreases sec@.len() - i,
    {
        let len: usize = length_field(sec[i + 3], sec[i + 4]);
        if sec.len() - i - 5 < len {
            break;
        }
        let ghost before = stream_models(out@);
        let found: ElementaryStream = ElementaryStream {
            pid: pid_field(sec[i + 1], sec[i + 2]),
            stream_type: sec[i],
            descriptors: keep_descriptors(slice_subrange(sec, i + 5, i + 5 + len)),
        };
        let ghost model = found@;
        out.push(found);
        assert(stream_models(out@) =~= before.push(model));
        i += 5 + len;
    }
    out
}

/// The entry of a service description table that is about one service: its
/// own header and its descriptors.
pub open spec fn entry_from(sec: Seq<u8>, service: u16, i: int) -> Option<Seq<u8>>
    decreases sec.len() - i,
{
    if i < 0 || i + 9 > sec.len() || i + 5 + length_bits(sec[i + 3], sec[i + 4]) > sec.len() {
        None
    } else {
        let end = i + 5 + length_bits(sec[i + 3], sec[i + 4]);
        if be16(sec[i], sec[i + 1]) == service {
            Some(sec.subrange(i, end))
        } else {
            entry_from(sec, service, end)
        }
    }
}

/// Find the entry of a service description table that is about one service.
pub fn entry_in(sec: &[u8], service: u16) -> (r: Option<&[u8]>)
    requires
        sec@.len() >= 11,
    ensures
        match r {
            Some(entry) => entry_from(sec@, service, 11) == Some(entry@) && entry@.len() >= 5,
            None => entry_from(sec@, service, 11) is None,
        },
{
    let mut i: usize = 11;
    while sec.len() - i >= 9
        invariant
            i <= sec@.len(),
            entry_from(sec@, service, 11) == entry_from(sec@, service, i as int),
        decreases sec@.len() - i,
    {
        let len: usize = length_field(sec[i + 3], sec[i + 4]);
        if sec.len() - i - 5 < len {
            return None;
        }
        if word_field(sec[i], sec[i + 1]) == service {
            return Some(slice_subrange(sec, i, i + 5 + len));
        }
        i += 5 + len;
    }
    None
}

/// A service description section about one service instead of a multiplex.
pub open spec fn sdt_about(sec: Seq<u8>, service: Seq<u8>) -> Seq<u8> {
    finished(sec.take(11) + service)
}

/// Rewrite a service description section so it describes one service instead
/// of a multiplex.
pub fn one_service_sdt(sec: &[u8], service: &[u8]) -> (out: Vec<u8>)
    requires
        sec@.len() >= 11,
    ensures
        out@ == sdt_about(sec@, service@),
{
    let mut out: Vec<u8> = copied(slice_subrange(sec, 0, 11));
    put(&mut out, service);
    assert(out@ =~= sec@.take(11) + service@);
    finish_section(&mut out);
    out
}

/// What is known of a recording part way through reading its head.
pub struct HeadModel {
    pub pat: ReaderState,
    pub pmt: ReaderState,
    pub sdt: ReaderState,
    pub transport_stream_id: u16,
    pub pmt_pid: u16,
    pub service_id: u16,
    pub found: Option<ServiceModel>,
    pub sdt_section: Option<Seq<u8>>,
    pub original_network_id: u16,
    pub service_type: u8,
}

/// A reader that has seen nothing.
pub open spec fn idle() -> ReaderState {
    ReaderState { held: Seq::empty(), filling: false }
}

/// Nothing is known.
pub open spec fn head_start() -> HeadModel {
    HeadModel {
        pat: idle(),
        pmt: idle(),
        sdt: idle(),
        transport_stream_id: 0,
        pmt_pid: 0,
        service_id: 0,
        found: None,
        sdt_section: None,
        original_network_id: 0,
        service_type: 0,
    }
}

/// What an association section adds.
pub open spec fn with_pat(h: HeadModel, sec: Seq<u8>) -> HeadModel {
    if sec[0] != TABLE_PAT || sec.len() < 12 {
        h
    } else {
        let id = be16(sec[3], sec[4]) as u16;
        match first_programme(sec, 8) {
            Some((number, pid)) => HeadModel {
                transport_stream_id: id,
                service_id: number,
                pmt_pid: pid,
                ..h
            },
            None => HeadModel { transport_stream_id: id, ..h },
        }
    }
}

/// What a map section adds: the service as it describes it, where it is about
/// the service the recording is of and its programme loop is all there.
pub open spec fn with_pmt(h: HeadModel, sec: Seq<u8>) -> HeadModel {
    if sec[0] != TABLE_PMT || sec.len() < 16 || be16(sec[3], sec[4]) != h.service_id || 12
        + length_bits(sec[10], sec[11]) > sec.len() {
        h
    } else {
        let start = 12 + length_bits(sec[10], sec[11]);
        HeadModel {
            found: Some(
                ServiceModel {
                    transport_stream_id: h.transport_stream_id,
                    original_network_id: 0,
                    service_id: h.service_id,
                    service_type: 0,
                    pmt_pid: h.pmt_pid,
                    pcr_pid: pid_bits(sec[8], sec[9]),
                    program_info: plain_loop(sec.subrange(12, start)),
                    streams: streams_from(sec, start),
                    sdt: None,
                },
            ),
            ..h
        }
    }
}

/// The kind of service a service description entry says it is.
pub open spec fn entry_type(entry: Seq<u8>) -> u8 {
    match descriptor_from(entry.skip(5), 0x48, 0) {
        Some(body) => if body.len() > 0 {
            body[0]
        } else {
            0
        },
        None => 0,
    }
}

/// What a service description section adds: the entry for the recording's own
/// service, and the rest of the multiplex dropped.
pub open spec fn with_sdt(h: HeadModel, sec: Seq<u8>) -> HeadModel {
    if sec[0] != TABLE_SDT_ACTUAL || sec.len() < 15 || h.service_id == 0 {
        h
    } else {
        match entry_from(sec, h.service_id, 11) {
            Some(entry) => HeadModel {
                original_network_id: be16(sec[8], sec[9]) as u16,
                service_type: entry_type(entry),
                sdt_section: Some(sdt_about(sec, entry)),
                ..h
            },
            None => h,
        }
    }
}

/// The three kinds of section the head of a recording is read for.
pub enum HeadTable {
    Association,
    Programme,
    Description,
}

/// What one section adds.
pub open spec fn with_section(h: HeadModel, table: HeadTable, sec: Seq<u8>) -> HeadModel {
    match table {
        HeadTable::Association => with_pat(h, sec),
        HeadTable::Programme => with_pmt(h, sec),
        HeadTable::Description => with_sdt(h, sec),
    }
}

/// What a run of sections adds, in order.
pub open spec fn with_sections(h: HeadModel, table: HeadTable, secs: Seq<Seq<u8>>) -> HeadModel
    decreases secs.len(),
{
    if secs.len() == 0 {
        h
    } else {
        with_section(with_sections(h, table, secs.drop_last()), table, secs.last())
    }
}

/// What one packet adds. Each table is listened for only until it has said
/// what it is wanted for.
#[verifier::opaque]
pub open spec fn with_packet(h: HeadModel, p: Seq<u8>) -> HeadModel {
    let pid = packet_pid(p);
    if pid == PID_PAT && h.pmt_pid == 0 {
        let (reader, secs) = fed(h.pat, p);
        with_sections(HeadModel { pat: reader, ..h }, HeadTable::Association, secs)
    } else if pid != 0 && pid == h.pmt_pid && h.found is None {
        let (reader, secs) = fed(h.pmt, p);
        with_sections(HeadModel { pmt: reader, ..h }, HeadTable::Programme, secs)
    } else if pid == PID_SDT && h.sdt_section is None {
        let (reader, secs) = fed(h.sdt, p);
        with_sections(HeadModel { sdt: reader, ..h }, HeadTable::Description, secs)
    } else {
        h
    }
}

/// Where the walk over packets goes on after the one at `at`: to the next
/// place on the grid, or to where the grid is found again after a bad packet.
pub open spec fn next_packet(buf: Seq<u8>, at: int, stride: int) -> Option<int> {
    let next = at + stride;
    if buf[at] == 0x47 {
        Some(next)
    } else if next > buf.len() {
        None
    } else {
        match first_sync(buf.skip(next), stride) {
            Some(off) => Some(next + off),
            None => None,
        }
    }
}

/// What the packets from `at` on add, until both descriptions are in.
pub open spec fn head_from(h: HeadModel, buf: Seq<u8>, at: int, stride: int) -> HeadModel
    decreases buf.len() - at,
{
    if at < 0 || stride <= 0 || at + PACKET > buf.len() {
        h
    } else {
        let seen = if buf[at] == 0x47 {
            with_packet(h, buf.subrange(at, at + PACKET))
        } else {
            h
        };
        if buf[at] == 0x47 && seen.found is Some && seen.sdt_section is Some {
            seen
        } else {
            match next_packet(buf, at, stride) {
                Some(next) => if at < next <= buf.len() {
                    head_from(seen, buf, next, stride)
                } else {
                    seen
                },
                None => seen,
            }
        }
    }
}

/// The recording's own description of itself, read off its first bytes.
pub open spec fn service_in(buf: Seq<u8>) -> Result<ServiceModel, SiError> {
    match framed(buf) {
        None => Err(SiError::NotATransportStream),
        Some((base, stride)) => {
            let h = head_from(head_start(), buf, base, stride);
            match h.found {
                None => Err(SiError::NoProgramMap),
                Some(s) => Ok(
                    ServiceModel {
                        original_network_id: h.original_network_id,
                        service_type: h.service_type,
                        sdt: h.sdt_section,
                        ..s
                    },
                ),
            }
        },
    }
}

/// Reads the head of a recording packet by packet.
pub struct Head {
    pub pat: SectionReader,
    pub pmt: SectionReader,
    pub sdt: SectionReader,
    pub transport_stream_id: u16,
    pub pmt_pid: u16,
    pub service_id: u16,
    pub found: Option<Service>,
    pub sdt_section: Option<Vec<u8>>,
    pub original_network_id: u16,
    pub service_type: u8,
}

/// What a service that may not have been found yet holds.
pub open spec fn found_model(found: Option<Service>) -> Option<ServiceModel> {
    match found {
        Some(s) => Some(s@),
        None => None,
    }
}

impl View for Head {
    type V = HeadModel;

    open spec fn view(&self) -> HeadModel {
        HeadModel {
            pat: self.pat@,
            pmt: self.pmt@,
            sdt: self.sdt@,
            transport_stream_id: self.transport_stream_id,
            pmt_pid: self.pmt_pid,
            service_id: self.service_id,
            found: found_model(self.found),
            sdt_section: content(self.sdt_section),
            original_network_id: self.original_network_id,
            service_type: self.service_type,
        }
    }
}

impl Head {
    /// Nothing read yet.
    pub fn new() -> (h: Head)
        ensures
            h@ == head_start(),
    {
        Head {
            pat: SectionReader::new(),
            pmt: SectionReader::new(),
            sdt: SectionReader::new(),
            transport_stream_id: 0,
            pmt_pid: 0,
            service_id: 0,
            found: None,
            sdt_section: None,
            original_network_id: 0,
            service_type: 0,
        }
    }

    fn take_pat(&mut self, sec: &[u8])
        requires
            sec@.len() >= 3,
        ensures
            final(self)@ == with_pat(old(self)@, sec@),
    {
        if sec[0] != TABLE_PAT || sec.len() < 12 {
            return;
        }
        self.transport_stream_id = word_field(sec[3], sec[4]);
        if let Some((number, pid)) = programme_in(sec) {
            self.service_id = number;
            self.pmt_pid = pid;
        }
    }

    fn take_pmt(&mut self, sec: &[u8])
        requires
            sec@.len() >= 3,
        ensures
            final(self)@ == with_pmt(old(self)@, sec@),
    {
        if sec[0] != TABLE_PMT || sec.len() < 16 {
            return;
        }
        if word_field(sec[3], sec[4]) != self.service_id {
            return;
        }
        let info_len: usize = length_field(sec[10], sec[11]);
        if sec.len() - 12 < info_len {
            return;
        }
        let found: Service = Service {
            transport_stream_id: self.transport_stream_id,
            original_network_id: 0,
            service_id: self.service_id,
            service_type: 0,
            pmt_pid: self.pmt_pid,
            pcr_pid: pid_field(sec[8], sec[9]),
            program_info: keep_descriptors(slice_subrange(sec, 12, 12 + info_len)),
            streams: streams_in(sec, 12 + info_len),
            sdt: None,
        };
        self.found = Some(found);
    }

    fn take_sdt(&mut self, sec: &[u8])
        requires
            sec@.len() >= 3,
        ensures
            final(self)@ == with_sdt(old(self)@, sec@),
    {
        if sec[0] != TABLE_SDT_ACTUAL || sec.len() < 15 || self.service_id == 0 {
            return;
        }
        if let Some(entry) = entry_in(sec, self.service_id) {
            let tail: &[u8] = slice_subrange(entry, 5, entry.len());
            assert(tail@ =~= entry@.skip(5));
            self.original_network_id = word_field(sec[8], sec[9]);
            self.service_type = match descriptor(tail, 0x48) {
                Some(body) => if body.len() > 0 {
                    body[0]
                } else {
                    0
                },
                None => 0,
            };
            self.sdt_section = Some(one_service_sdt(sec, entry));
        }
    }

    /// Read one packet.
    pub fn take(&mut self, p: &[u8])
        requires
            p@.len() == PACKET,
        ensures
            final(self)@ == with_packet(old(self)@, p@),
    {
        reveal(with_packet);
        let pid: u16 = pid_of(p);
        let ghost start = self@;
        if pid == PID_PAT && self.pmt_pid == 0 {
            let secs: Vec<Vec<u8>> = self.pat.feed(p);
            let ghost h0 = self@;
            let ghost all = contents(secs@);
            proof {
                lemma_fed_sections_are_whole(start.pat, p@);
            }
            let mut i: usize = 0;
            while i < secs.len()
                invariant
                    i <= secs@.len(),
                    all == contents(secs@),
                    forall|k: int|
                        0 <= k < all.len() ==> 3 <= (#[trigger] all[k]).len() <= 4098,
                    self@ == with_sections(h0, HeadTable::Association, all.take(i as int)),
                decreases secs@.len() - i,
            {
                assert(all[i as int] == secs@[i as int]@);
                self.take_pat(secs[i].as_slice());
                assert(all.take(i + 1).drop_last() =~= all.take(i as int));
                i += 1;
            }
            assert(all.take(i as int) =~= all);
        } else if pid != 0 && pid == self.pmt_pid && self.found.is_none() {
            let secs: Vec<Vec<u8>> = self.pmt.feed(p);
            let ghost h0 = self@;
            let ghost all = contents(secs@);
            proof {
                lemma_fed_sections_are_whole(start.pmt, p@);
            }
            let mut i: usize = 0;
            while i < secs.len()
                invariant
                    i <= secs@.len(),
                    all == contents(secs@),
                    forall|k: int|
                        0 <= k < all.len() ==> 3 <= (#[trigger] all[k]).len() <= 4098,
                    self@ == with_sections(h0, HeadTable::Programme, all.take(i as int)),
                decreases secs@.len() - i,
            {
                assert(all[i as int] == secs@[i as int]@);
                self.take_pmt(secs[i].as_slice());
                assert(all.take(i + 1).drop_last() =~= all.take(i as int));
                i += 1;
            }
            assert(all.take(i as int) =~= all);
        } else if pid == PID_SDT && self.sdt_section.is_none() {
            let secs: Vec<Vec<u8>> = self.sdt.feed(p);
            let ghost h0 = self@;
            let ghost all = contents(secs@);
            proof {
                lemma_fed_sections_are_whole(start.sdt, p@);
            }
            let mut i: usize = 0;
            while i < secs.len()
                invariant
                    i <= secs@.len(),
                    all == contents(secs@),
                    forall|k: int|
                        0 <= k < all.len() ==> 3 <= (#[trigger] all[k]).len() <= 4098,
                    self@ == with_sections(h0, HeadTable::Description, all.take(i as int)),
                decreases secs@.len() - i,
            {
                assert(all[i as int] == secs@[i as int]@);
                self.take_sdt(secs[i].as_slice());
                assert(all.take(i + 1).drop_last() =~= all.take(i as int));
                i += 1;
            }
            assert(all.take(i as int) =~= all);
        }
    }
}

/// Every section taken off a reader has its whole header and is no longer
/// than a length can say.
pub proof fn lemma_drained_sections_are_whole(held: Seq<u8>)
    ensures
        forall|k: int|
            0 <= k < crate::si::packet::drained(held).1.len() ==> 3 <= (
            #[trigger] crate::si::packet::drained(held).1[k]).len() <= 4098,
    decreases held.len(),
{
    if held.len() >= 3 && held[0] != 0xFF && held.len() >= crate::si::packet::section_size(held) {
        let n = crate::si::packet::section_size(held);
        lemma_drained_sections_are_whole(held.skip(n));
        let rest = crate::si::packet::drained(held.skip(n)).1;
        let all = crate::si::packet::drained(held).1;
        assert forall|k: int| 0 <= k < all.len() implies 3 <= (#[trigger] all[k]).len() <= 4098 by {
            if crate::si::packet::sound(held.take(n)) {
                if k > 0 {
                    assert(all[k] == rest[k - 1]);
                }
            } else {
                assert(all[k] == rest[k]);
            }
        }
    }
}

/// Every section a packet completes has its whole header and is no longer
/// than a length can say.
pub proof fn lemma_fed_sections_are_whole(st: ReaderState, p: Seq<u8>)
    ensures
        forall|k: int|
            0 <= k < fed(st, p).1.len() ==> 3 <= (#[trigger] fed(st, p).1[k]).len() <= 4098,
{
    reveal(fed);
    if let Some(start) = crate::si::packet::payload_at(p) {
        let data = p.skip(start);
        let pointer = data[0] as int;
        lemma_drained_sections_are_whole(st.held + data.subrange(1, 1 + pointer));
        lemma_drained_sections_are_whole(data.skip(1 + pointer));
        lemma_drained_sections_are_whole(st.held + data);
        let ended = crate::si::packet::drained(st.held + data.subrange(1, 1 + pointer)).1;
        let begun = crate::si::packet::drained(data.skip(1 + pointer)).1;
        let all = fed(st, p).1;
        assert forall|k: int| 0 <= k < all.len() implies 3 <= (#[trigger] all[k]).len() <= 4098 by {
            if crate::si::packet::starts_unit(p) {
                if st.filling && pointer > 0 && 1 + pointer <= data.len() {
                    if k < ended.len() {
                        assert(all[k] == ended[k]);
                    } else {
                        assert(all[k] == begun[k - ended.len()]);
                    }
                } else if 1 + pointer <= data.len() {
                    assert(all[k] == begun[k]);
                }
            } else if st.filling {
                assert(all[k] == crate::si::packet::drained(st.held + data).1[k]);
            }
        }
    }
}

/// Read the recording's own description of itself off its first bytes.
///
/// Only the head of the file is needed: the association, map and description
/// tables repeat every few hundred milliseconds, and a recording that does
/// not carry them in its first stretch does not carry them at all.
pub fn read_service(buf: &[u8]) -> (r: Result<Service, SiError>)
    requires
        buf@.len() <= usize::MAX - 192,
    ensures
        match r {
            Ok(s) => service_in(buf@) == Ok::<ServiceModel, SiError>(s@),
            Err(e) => service_in(buf@) == Err::<ServiceModel, SiError>(e),
        },
{
    let (base, stride): (usize, usize) = match framing(buf) {
        Some(found) => found,
        None => return Err(SiError::NotATransportStream),
    };
    let mut head: Head = Head::new();
    let ghost all = head_from(head_start(), buf@, base as int, stride as int);
    let mut at: usize = base;
    while at <= buf.len() && buf.len() - at >= PACKET
        invariant_except_break
            buf@.len() <= usize::MAX - 192,
            stride == 188 || stride == 192,
            all == head_from(head@, buf@, at as int, stride as int),
        ensures
            head@ == all,
        decreases buf@.len() + 192 - at,
    {
        let p: &[u8] = slice_subrange(buf, at, at + PACKET);
        at += stride;
        if p[0] != 0x47 {
            // A recording can be cut short mid-packet or carry a bad read;
            // the grid is found again rather than the file given up on.
            if at > buf.len() {
                break;
            }
            let rest: &[u8] = slice_subrange(buf, at, buf.len());
            assert(rest@ =~= buf@.skip(at as int));
            match find_sync(rest, stride) {
                Some(off) => {
                    at += off;
                },
                None => {
                    break;
                },
            }
            continue;
        }
        head.take(p);
        if head.found.is_some() && head.sdt_section.is_some() {
            break;
        }
    }
    let Head { found, sdt_section, original_network_id, service_type, .. } = head;
    match found {
        Some(mut service) => {
            service.original_network_id = original_network_id;
            service.service_type = service_type;
            service.sdt = sdt_section;
            Ok(service)
        },
        None => Err(SiError::NoProgramMap),
    }
}

/// The tables that describe what is on at one moment of the recording.
#[derive(Debug, Clone)]
pub struct Snapshot {
    /// Event information, present and following, for this service.
    pub eit: Vec<Vec<u8>>,
    /// Time and date, with the offset descriptor when the broadcaster sends
    /// one: the section it arrived as.
    pub tot: Option<Vec<u8>>,
    /// A bare time and date table, where that was seen.
    pub tdt: Option<Vec<u8>>,
}

/// What a [`Snapshot`] holds.
pub struct SnapshotModel {
    pub eit: Seq<Seq<u8>>,
    pub tot: Option<Seq<u8>>,
    pub tdt: Option<Seq<u8>>,
}

impl View for Snapshot {
    type V = SnapshotModel;

    open spec fn view(&self) -> SnapshotModel {
        SnapshotModel {
            eit: contents(self.eit@),
            tot: content(self.tot),
            tdt: content(self.tdt),
        }
    }
}

/// A snapshot of nothing.
pub open spec fn empty_snapshot() -> SnapshotModel {
    SnapshotModel { eit: Seq::empty(), tot: None, tdt: None }
}

impl Default for Snapshot {
    fn default() -> (s: Snapshot)
        ensures
            s@ == empty_snapshot(),
    {
        let s: Snapshot = Snapshot { eit: Vec::new(), tot: None, tdt: None };
        assert(s@.eit =~= Seq::empty());
        s
    }
}

impl Snapshot {
    pub fn is_empty(&self) -> (r: bool)
        ensures
            r == (self@ == empty_snapshot()),
    {
        assert(self@.eit.len() == 0 ==> self@.eit =~= Seq::empty());
        self.eit.len() == 0 && self.tot.is_none() && self.tdt.is_none()
    }
}

/// What is known part way through reading one moment's tables.
pub struct MomentModel {
    pub eit: ReaderState,
    pub tdt: ReaderState,
    /// The section numbers of the event information already held.
    pub seen: Set<u8>,
    pub held: SnapshotModel,
}

/// Nothing is known.
pub open spec fn moment_start() -> MomentModel {
    MomentModel { eit: idle(), tdt: idle(), seen: Set::empty(), held: empty_snapshot() }
}

/// What an event information section adds: the first of each number that is
/// about this service.
pub open spec fn with_events(m: MomentModel, sec: Seq<u8>, service: u16) -> MomentModel {
    if sec[0] != TABLE_EIT_PF_ACTUAL || sec.len() < 18 || be16(sec[3], sec[4]) != service
        || m.seen.contains(sec[6]) {
        m
    } else {
        MomentModel {
            seen: m.seen.insert(sec[6]),
            held: SnapshotModel { eit: m.held.eit.push(sec), ..m.held },
            ..m
        }
    }
}

/// What a time section adds: the first of each of the two kinds.
pub open spec fn with_time(m: MomentModel, sec: Seq<u8>) -> MomentModel {
    if sec[0] == TABLE_TOT && m.held.tot is None {
        MomentModel { held: SnapshotModel { tot: Some(sec), ..m.held }, ..m }
    } else if sec[0] == TABLE_TDT && m.held.tdt is None {
        MomentModel { held: SnapshotModel { tdt: Some(sec), ..m.held }, ..m }
    } else {
        m
    }
}

/// What a run of event information sections adds, in order.
pub open spec fn with_all_events(m: MomentModel, secs: Seq<Seq<u8>>, service: u16) -> MomentModel
    decreases secs.len(),
{
    if secs.len() == 0 {
        m
    } else {
        with_events(with_all_events(m, secs.drop_last(), service), secs.last(), service)
    }
}

/// What a run of time sections adds, in order.
pub open spec fn with_all_times(m: MomentModel, secs: Seq<Seq<u8>>) -> MomentModel
    decreases secs.len(),
{
    if secs.len() == 0 {
        m
    } else {
        with_time(with_all_times(m, secs.drop_last()), secs.last())
    }
}

/// What one packet adds.
#[verifier::opaque]
pub open spec fn moment_with_packet(m: MomentModel, p: Seq<u8>, service: u16) -> MomentModel {
    if packet_pid(p) == PID_EIT {
        let (reader, secs) = fed(m.eit, p);
        with_all_events(MomentModel { eit: reader, ..m }, secs, service)
    } else if packet_pid(p) == PID_TDT {
        let (reader, secs) = fed(m.tdt, p);
        with_all_times(MomentModel { tdt: reader, ..m }, secs)
    } else {
        m
    }
}

/// What the packets from `at` on add, until both events and the time are in.
pub open spec fn moment_from(
    m: MomentModel,
    buf: Seq<u8>,
    at: int,
    stride: int,
    service: u16,
) -> MomentModel
    decreases buf.len() - at,
{
    if at < 0 || stride <= 0 || at + PACKET > buf.len() {
        m
    } else {
        let seen = if buf[at] == 0x47 {
            moment_with_packet(m, buf.subrange(at, at + PACKET), service)
        } else {
            m
        };
        if buf[at] == 0x47 && seen.held.eit.len() >= 2 && seen.held.tot is Some {
            seen
        } else {
            match next_packet(buf, at, stride) {
                Some(next) => if at < next <= buf.len() {
                    moment_from(seen, buf, next, stride, service)
                } else {
                    seen
                },
                None => seen,
            }
        }
    }
}

/// The programme description in force where these bytes were read.
pub open spec fn snapshot_in(buf: Seq<u8>, service: u16) -> SnapshotModel {
    match framed(buf) {
        None => empty_snapshot(),
        Some((base, stride)) => moment_from(moment_start(), buf, base, stride, service).held,
    }
}

/// Reads one moment's tables packet by packet.
pub struct Moment {
    pub eit: SectionReader,
    pub tdt: SectionReader,
    pub seen: HashSet<u8>,
    pub held: Snapshot,
}

impl View for Moment {
    type V = MomentModel;

    open spec fn view(&self) -> MomentModel {
        MomentModel { eit: self.eit@, tdt: self.tdt@, seen: self.seen@, held: self.held@ }
    }
}

impl Moment {
    /// Nothing read yet.
    pub fn new() -> (m: Moment)
        ensures
            m@ == moment_start(),
    {
        let m: Moment = Moment {
            eit: SectionReader::new(),
            tdt: SectionReader::new(),
            seen: HashSet::new(),
            held: Snapshot { eit: Vec::new(), tot: None, tdt: None },
        };
        assert(m@.held.eit =~= Seq::empty());
        m
    }

    fn take_events(&mut self, sec: &[u8], service: u16)
        requires
            sec@.len() >= 3,
        ensures
            final(self)@ == with_events(old(self)@, sec@, service),
    {
        if sec[0] != TABLE_EIT_PF_ACTUAL || sec.len() < 18 {
            return;
        }
        if word_field(sec[3], sec[4]) != service {
            return;
        }
        let number: u8 = sec[6];
        let ghost before = contents(self.held.eit@);
        if self.seen.insert(number) {
            self.held.eit.push(copied(sec));
            assert(contents(self.held.eit@) =~= before.push(sec@));
        } else {
            assert(self.seen@ =~= old(self).seen@);
        }
    }

    fn take_time(&mut self, sec: &[u8])
        requires
            sec@.len() >= 3,
        ensures
            final(self)@ == with_time(old(self)@, sec@),
    {
        if sec[0] == TABLE_TOT && self.held.tot.is_none() {
            self.held.tot = Some(copied(sec));
        } else if sec[0] == TABLE_TDT && self.held.tdt.is_none() {
            self.held.tdt = Some(copied(sec));
        }
    }

    /// Read one packet.
    pub fn take(&mut self, p: &[u8], service: u16)
        requires
            p@.len() == PACKET,
        ensures
            final(self)@ == moment_with_packet(old(self)@, p@, service),
    {
        reveal(moment_with_packet);
        let pid: u16 = pid_of(p);
        let ghost start = self@;
        if pid == PID_EIT {
            let secs: Vec<Vec<u8>> = self.eit.feed(p);
            let ghost m0 = self@;
            let ghost all = contents(secs@);
            proof {
                lemma_fed_sections_are_whole(start.eit, p@);
            }
            let mut i: usize = 0;
            while i < secs.len()
                invariant
                    i <= secs@.len(),
                    all == contents(secs@),
                    forall|k: int|
                        0 <= k < all.len() ==> 3 <= (#[trigger] all[k]).len() <= 4098,
                    self@ == with_all_events(m0, all.take(i as int), service),
                decreases secs@.len() - i,
            {
                assert(all[i as int] == secs@[i as int]@);
                self.take_events(secs[i].as_slice(), service);
                assert(all.take(i + 1).drop_last() =~= all.take(i as int));
                i += 1;
            }
            assert(all.take(i as int) =~= all);
        } else if pid == PID_TDT {
            let secs: Vec<Vec<u8>> = self.tdt.feed(p);
            let ghost m0 = self@;
            let ghost all = contents(secs@);
            proof {
                lemma_fed_sections_are_whole(start.tdt, p@);
            }
            let mut i: usize = 0;
            while i < secs.len()
                invariant
                    i <= secs@.len(),
                    all == contents(secs@),
                    forall|k: int|
                        0 <= k < all.len() ==> 3 <= (#[trigger] all[k]).len() <= 4098,
                    self@ == with_all_times(m0, all.take(i as int)),
                decreases secs@.len() - i,
            {
                assert(all[i as int] == secs@[i as int]@);
                self.take_time(secs[i].as_slice());
                assert(all.take(i + 1).drop_last() =~= all.take(i as int));
                i += 1;
            }
            assert(all.take(i as int) =~= all);
        }
    }
}

/// Read the programme description in force at one point in the recording,
/// off the bytes that stand there.
///
/// Present and following changes only when the programme does, so reading it
/// beside each range's own first picture is what makes a cut spanning two
/// programmes describe both.
pub fn snapshot_at(buf: &[u8], service_id: u16) -> (s: Snapshot)
    requires
        buf@.len() <= usize::MAX - 192,
    ensures
        s@ == snapshot_in(buf@, service_id),
{
    let (base, stride): (usize, usize) = match framing(buf) {
        Some(found) => found,
        None => return Snapshot::default(),
    };
    let mut moment: Moment = Moment::new();
    let ghost all = moment_from(moment_start(), buf@, base as int, stride as int, service_id);
    let mut at: usize = base;
    while at <= buf.len() && buf.len() - at >= PACKET
        invariant_except_break
            buf@.len() <= usize::MAX - 192,
            stride == 188 || stride == 192,
            all == moment_from(moment@, buf@, at as int, stride as int, service_id),
        ensures
            moment@ == all,
        decreases buf@.len() + 192 - at,
    {
        let p: &[u8] = slice_subrange(buf, at, at + PACKET);
        at += stride;
        if p[0] != 0x47 {
            if at > buf.len() {
                break;
            }
            let rest: &[u8] = slice_subrange(buf, at, buf.len());
            assert(rest@ =~= buf@.skip(at as int));
            match find_sync(rest, stride) {
                Some(off) => {
                    at += off;
                },
                None => {
                    break;
                },
            }
            continue;
        }
        moment.take(p, service_id);
        if moment.held.eit.len() >= 2 && moment.held.tot.is_some() {
            break;
        }
    }
    moment.held
}

} // verus!
