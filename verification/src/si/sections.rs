//! The sections a finished cut is given: its map, its events trimmed to what
//! it holds, its selection information and its clock.
use crate::bytes::{be16_bytes, copied, put};
use crate::si::loops::{
    carried_loop, descriptor, descriptor_end, descriptor_from, finish_section, finished,
    has_descriptor, is_loop, keep_carried, law_a_finished_section_is_sound,
    lemma_loops_join, lemma_one_descriptor_is_a_loop, Components, STREAM_IDENTIFIER,
};
use crate::si::packet::{crc32, crc_bytes, crc_of, length_bits, length_field, sound};
use crate::si::read::{
    stream_on, tag_in, Service, ServiceModel, Snapshot, SnapshotModel, StreamModel, TABLE_PMT,
    TABLE_SIT, TABLE_TOT,
};
use std::collections::HashSet;
use vstd::prelude::*;
use vstd::slice::slice_subrange;

verus! {

broadcast use vstd::std_specs::hash::group_hash_axioms;

/// Which account of itself a finished cut carries.
///
/// There are two established ways to write down a slice out of a multiplex. A
/// partial transport stream says everything in one table, the selection
/// information. Keeping the broadcast's own tables instead says the same
/// things in the shape they arrived in. The first is the standard answer to
/// what a recording is, so it is the default.
#[derive(Debug, Clone, Copy, PartialEq, Eq, Structural)]
pub enum Tables {
    /// The muxer's own, which describe the streams and nothing else.
    Muxer,
    /// The recording's own tables, put back where they belong.
    Broadcast,
    /// One selection information table, the way a recording is written down.
    Partial,
}

impl Default for Tables {
    fn default() -> (t: Tables)
        ensures
            t == Tables::Partial,
    {
        Tables::Partial
    }
}

/// The name a set of tables goes by.
pub open spec fn tables_name(t: Tables) -> Seq<char> {
    match t {
        Tables::Muxer => "muxer"@,
        Tables::Broadcast => "broadcast"@,
        Tables::Partial => "partial"@,
    }
}

impl Tables {
    pub fn as_str(self) -> (r: &'static str)
        ensures
            r@ == tables_name(self),
    {
        match self {
            Tables::Muxer => "muxer",
            Tables::Broadcast => "broadcast",
            Tables::Partial => "partial",
        }
    }
}

/// One elementary stream as it is to be described in the rebuilt map.
#[derive(Debug, Clone, Copy, PartialEq, Eq, Structural)]
pub struct GraftStream {
    /// The PID it was written on, which is the PID it arrived on.
    pub pid: u16,
    /// Whether the stream in the output is still the stream that was
    /// described. A track that was downmixed is not: only the identity of the
    /// stream survives, and the description of its contents is dropped.
    pub faithful: bool,
}

/// A stretch of the output, and what was being broadcast where it came from.
#[derive(Debug, Clone)]
pub struct GraftRange {
    /// Where this range begins on the output timeline, in 90 kHz ticks.
    pub start: i64,
    /// The tables that were in force at the source point it opens on.
    pub snapshot: Snapshot,
}

/// Everything the pass needs to put the recording's own tables back.
pub struct Graft<'a> {
    pub service: &'a Service,
    pub streams: Vec<GraftStream>,
    /// The PID the clock is expected on. Only used when the finished file's
    /// own map does not say; it normally does.
    pub pcr_pid: u16,
    pub ranges: Vec<GraftRange>,
    /// Which account of itself the output is to carry.
    pub tables: Tables,
}

/// The component tags a recording's map gives its streams.
pub open spec fn described_tags(streams: Seq<StreamModel>) -> Set<u8> {
    Set::new(
        |tag: u8|
            exists|i: int|
                0 <= i < streams.len() && #[trigger] tag_in(streams[i].descriptors) == Some(tag),
    )
}

/// The component tag of a stream the cut carries as it was described.
pub open spec fn carried_tag(streams: Seq<StreamModel>, kept: GraftStream) -> Option<u8> {
    match stream_on(streams, kept.pid, 0) {
        Some(s) => if kept.faithful {
            tag_in(s.descriptors)
        } else {
            None
        },
        None => None,
    }
}

/// The component tags the cut carries as they were described.
pub open spec fn carried_tags(streams: Seq<StreamModel>, kept: Seq<GraftStream>) -> Set<u8> {
    Set::new(
        |tag: u8|
            exists|i: int|
                0 <= i < kept.len() && #[trigger] carried_tag(streams, kept[i]) == Some(tag),
    )
}

impl Components {
    /// What the recording described and what the cut carries of it. A
    /// downmixed track is not the track that was described, so its tag counts
    /// as uncarried.
    pub fn of(g: &Graft) -> (c: Components)
        ensures
            c.described@ == described_tags(g.service@.streams),
            c.carried@ == carried_tags(g.service@.streams, g.streams@),
    {
        let ghost streams = g.service@.streams;
        let mut described: HashSet<u8> = HashSet::new();
        let mut i: usize = 0;
        while i < g.service.streams.len()
            invariant
                i <= g.service.streams@.len(),
                streams == g.service@.streams,
                described@ =~= described_tags(streams.take(i as int)),
            decreases g.service.streams@.len() - i,
        {
            let ghost before = streams.take(i as int);
            let ghost after = streams.take(i + 1);
            let tag: Option<u8> = g.service.streams[i].component_tag();
            assert(streams[i as int] == g.service.streams@[i as int]@);
            assert(after[i as int] == streams[i as int]);
            let ghost was = described@;
            if let Some(t) = tag {
                described.insert(t);
            }
            assert forall|t: u8| described@.contains(t) == #[trigger] described_tags(
                after,
            ).contains(t) by {
                if was.contains(t) {
                    let k = choose|k: int|
                        0 <= k < before.len() && #[trigger] tag_in(before[k].descriptors) == Some(
                            t,
                        );
                    assert(after[k] == before[k]);
                    assert(tag_in(after[k].descriptors) == Some(t));
                }
                if tag == Some(t) {
                    assert(tag_in(after[i as int].descriptors) == Some(t));
                }
                if described_tags(after).contains(t) {
                    let k = choose|k: int|
                        0 <= k < after.len() && #[trigger] tag_in(after[k].descriptors) == Some(t);
                    if k < i {
                        assert(before[k] == after[k]);
                        assert(tag_in(before[k].descriptors) == Some(t));
                    }
                }
            }
            i += 1;
        }
        assert(streams.take(i as int) =~= streams);
        let mut carried: HashSet<u8> = HashSet::new();
        let mut j: usize = 0;
        while j < g.streams.len()
            invariant
                j <= g.streams@.len(),
                streams == g.service@.streams,
                carried@ =~= carried_tags(streams, g.streams@.take(j as int)),
            decreases g.streams@.len() - j,
        {
            let ghost before = g.streams@.take(j as int);
            let ghost after = g.streams@.take(j + 1);
            let gs: GraftStream = g.streams[j];
            let tag: Option<u8> = if gs.faithful {
                match g.service.stream(gs.pid) {
                    Some(es) => es.component_tag(),
                    None => None,
                }
            } else {
                None
            };
            assert(after[j as int] == gs);
            assert(tag == carried_tag(streams, gs));
            let ghost was = carried@;
            if let Some(t) = tag {
                carried.insert(t);
            }
            assert forall|t: u8| carried@.contains(t) == #[trigger] carried_tags(
                streams,
                after,
            ).contains(t) by {
                if was.contains(t) {
                    let k = choose|k: int|
                        0 <= k < before.len() && #[trigger] carried_tag(streams, before[k])
                            == Some(t);
                    assert(after[k] == before[k]);
                    assert(carried_tag(streams, after[k]) == Some(t));
                }
                if tag == Some(t) {
                    assert(carried_tag(streams, after[j as int]) == Some(t));
                }
                if carried_tags(streams, after).contains(t) {
                    let k = choose|k: int|
                        0 <= k < after.len() && #[trigger] carried_tag(streams, after[k]) == Some(
                            t,
                        );
                    if k < j {
                        assert(before[k] == after[k]);
                        assert(carried_tag(streams, before[k]) == Some(t));
                    }
                }
            }
            j += 1;
        }
        assert(g.streams@.take(j as int) =~= g.streams@);
        Components { described, carried }
    }
}

/// What is said of a kept stream: all the recording said where the stream is
/// still what was described, and only its identity where it is not.
pub open spec fn kept_description(s: StreamModel, faithful: bool) -> Seq<u8> {
    if faithful {
        s.descriptors
    } else {
        match descriptor_from(s.descriptors, STREAM_IDENTIFIER, 0) {
            Some(body) => if body.len() > 0 {
                seq![STREAM_IDENTIFIER, body.len() as u8, body[0]]
            } else {
                Seq::empty()
            },
            None => Seq::empty(),
        }
    }
}

/// The line of the map for one kept stream. One the recording did not
/// describe gets none: nothing here can invent a descriptor.
pub open spec fn map_entry(streams: Seq<StreamModel>, kept: GraftStream) -> Seq<u8> {
    match stream_on(streams, kept.pid, 0) {
        None => Seq::empty(),
        Some(s) => {
            let desc = kept_description(s, kept.faithful);
            seq![
                s.stream_type,
                (0xE0 + kept.pid / 256 % 32) as u8,
                (kept.pid % 256) as u8,
                (0xF0 + desc.len() / 256 % 16) as u8,
                (desc.len() % 256) as u8,
            ] + desc
        },
    }
}

/// The lines of the map for the kept streams, in order.
pub open spec fn map_entries(streams: Seq<StreamModel>, kept: Seq<GraftStream>) -> Seq<u8>
    decreases kept.len(),
{
    if kept.len() == 0 {
        Seq::empty()
    } else {
        map_entries(streams, kept.drop_last()) + map_entry(streams, kept.last())
    }
}

/// The header of the map, with the clock's PID and the programme loop.
pub open spec fn map_head(service: u16, pcr_pid: u16, info: Seq<u8>) -> Seq<u8> {
    seq![
        TABLE_PMT,
        0xB0,
        0x00,
        (service / 256) as u8,
        (service % 256) as u8,
        0xC1,
        0x00,
        0x00,
        (0xE0 + pcr_pid / 256 % 32) as u8,
        (pcr_pid % 256) as u8,
        (0xF0 + info.len() / 256 % 16) as u8,
        (info.len() % 256) as u8,
    ] + info
}

/// The program map the recording had, for the streams that were kept.
pub open spec fn map_section(
    service: ServiceModel,
    kept: Seq<GraftStream>,
    pcr_pid: u16,
    described: Set<u8>,
    carried: Set<u8>,
) -> Seq<u8> {
    finished(
        map_head(
            service.service_id,
            pcr_pid,
            carried_loop(service.program_info, described, carried),
        ) + map_entries(service.streams, kept),
    )
}

/// Build the program map the recording had, for the streams that were kept.
///
/// The programme-level loop can name components and is trimmed; a stream's
/// own descriptors are about that stream, which is in the output or is not
/// written at all.
pub fn build_pmt(g: &Graft, pcr_pid: u16, components: &Components) -> (out: Vec<u8>)
    ensures
        out@ == map_section(
            g.service@,
            g.streams@,
            pcr_pid,
            components.described@,
            components.carried@,
        ),
{
    let service: u16 = g.service.service_id;
    let program_info: Vec<u8> = keep_carried(g.service.program_info.as_slice(), components);
    let mut sec: Vec<u8> = vec![
        TABLE_PMT,
        0xB0,
        0x00,
        (service / 256) as u8,
        (service % 256) as u8,
        0xC1,
        0x00,
        0x00,
        0xE0 + (pcr_pid / 256 % 32) as u8,
        (pcr_pid % 256) as u8,
        0xF0 + (program_info.len() / 256 % 16) as u8,
        (program_info.len() % 256) as u8,
    ];
    put(&mut sec, program_info.as_slice());
    let ghost head = map_head(service, pcr_pid, program_info@);
    assert(sec@ =~= head);
    let mut i: usize = 0;
    while i < g.streams.len()
        invariant
            i <= g.streams@.len(),
            sec@ =~= head + map_entries(g.service@.streams, g.streams@.take(i as int)),
            head.len() >= 12,
        decreases g.streams@.len() - i,
    {
        let gs: GraftStream = g.streams[i];
        let ghost before = sec@;
        if let Some(es) = g.service.stream(gs.pid) {
            let mut desc: Vec<u8> = Vec::new();
            if gs.faithful {
                put(&mut desc, es.descriptors.as_slice());
            } else if let Some(body) = descriptor(es.descriptors.as_slice(), STREAM_IDENTIFIER) {
                if body.len() > 0 {
                    assert(body@.len() <= 255) by {
                        lemma_body_fits(es.descriptors@, STREAM_IDENTIFIER, 0);
                    }
                    desc.push(STREAM_IDENTIFIER);
                    desc.push(body.len() as u8);
                    desc.push(body[0]);
                }
            }
            assert(desc@ =~= kept_description(es@, gs.faithful));
            sec.push(es.stream_type);
            sec.push(0xE0 + (gs.pid / 256 % 32) as u8);
            sec.push((gs.pid % 256) as u8);
            sec.push(0xF0 + (desc.len() / 256 % 16) as u8);
            sec.push((desc.len() % 256) as u8);
            put(&mut sec, desc.as_slice());
        }
        assert(sec@ =~= before + map_entry(g.service@.streams, gs));
        assert(g.streams@.take(i + 1).drop_last() =~= g.streams@.take(i as int));
        i += 1;
    }
    assert(g.streams@.take(i as int) =~= g.streams@);
    finish_section(&mut sec);
    sec
}

/// A descriptor's body is no longer than its one byte of length can say.
proof fn lemma_body_fits(bytes: Seq<u8>, tag: u8, i: int)
    ensures
        descriptor_from(bytes, tag, i) matches Some(body) ==> body.len() <= 255,
    decreases bytes.len() - i,
{
    if has_descriptor(bytes, i) {
        lemma_body_fits(bytes, tag, descriptor_end(bytes, i));
    }
}

/// The events of a section from `at` on, each with its loop trimmed to what
/// the cut carries, and whether anything came out of any of them; `None`
/// where the walk and the section disagree about where the events end.
pub open spec fn events_from(
    body: Seq<u8>,
    at: int,
    described: Set<u8>,
    carried: Set<u8>,
) -> Option<(Seq<u8>, bool)>
    decreases body.len() - at,
{
    if at < 0 || at + 12 > body.len() {
        if at == body.len() {
            Some((Seq::empty(), false))
        } else {
            None
        }
    } else {
        let end = at + 12 + length_bits(body[at + 10], body[at + 11]);
        if end > body.len() {
            None
        } else {
            let whole = body.subrange(at + 12, end);
            let kept = carried_loop(whole, described, carried);
            match events_from(body, end, described, carried) {
                None => None,
                Some((rest, changed)) => Some(
                    (
                        body.subrange(at, at + 10) + seq![
                            (body[at + 10] - body[at + 10] % 16 + kept.len() / 256 % 16) as u8,
                            (kept.len() % 256) as u8,
                        ] + kept + rest,
                        kept.len() != whole.len() || changed,
                    ),
                ),
            }
        }
    }
}

/// An event information section trimmed to the streams the cut carries, where
/// anything had to come out of it.
pub open spec fn pruned(section: Seq<u8>, described: Set<u8>, carried: Set<u8>) -> Option<
    Seq<u8>,
> {
    if section.len() < 18 || section[6] != 0 {
        None
    } else {
        let body = section.take(section.len() - 4);
        match events_from(body, 14, described, carried) {
            Some((events, changed)) => if changed {
                Some(finished(body.take(14) + events))
            } else {
                None
            },
            None => None,
        }
    }
}

/// Rewrite an event information section for the streams the cut carries.
///
/// Only the present event is trimmed: of the two sections, numbered nought
/// and one, the second is about a programme whose streams were never going to
/// be in this file. `None` means the recording's own bytes travel untouched:
/// nothing had to change, or the section does not parse as event information.
pub fn prune_events(section: &[u8], components: &Components) -> (r: Option<Vec<u8>>)
    ensures
        match r {
            Some(out) => pruned(section@, components.described@, components.carried@) == Some(
                out@,
            ),
            None => pruned(section@, components.described@, components.carried@) is None,
        },
{
    if section.len() < 18 || section[6] != 0 {
        return None;
    }
    // Everything but the check, which is made again over whatever is left.
    let body: &[u8] = slice_subrange(section, 0, section.len() - 4);
    assert(body@ =~= section@.take(section@.len() - 4));
    let ghost described = components.described@;
    let ghost carried = components.carried@;
    let mut out: Vec<u8> = copied(slice_subrange(body, 0, 14));
    assert(out@ =~= body@.take(14));
    let mut at: usize = 14;
    let mut changed: bool = false;
    let ghost all = events_from(body@, 14, described, carried);
    let ghost head = body@.take(14);
    while body.len() - at >= 12
        invariant
            at <= body@.len(),
            out@.len() >= 14,
            section@.len() >= 18 && section@[6] == 0,
            body@ == section@.take(section@.len() - 4),
            all == events_from(body@, 14, described, carried),
            described == components.described@,
            carried == components.carried@,
            (all is Some) == (events_from(body@, at as int, described, carried) is Some),
            all matches Some(a) ==> {
                &&& events_from(body@, at as int, described, carried) matches Some(rest)
                &&& head + a.0 =~= out@ + rest.0
                &&& a.1 == (changed || rest.1)
            },
        decreases body@.len() - at,
    {
        let len: usize = length_field(body[at + 10], body[at + 11]);
        if body.len() - at - 12 < len {
            return None;
        }
        let whole: &[u8] = slice_subrange(body, at + 12, at + 12 + len);
        let kept: Vec<u8> = keep_carried(whole, components);
        changed = changed || kept.len() != whole.len();
        // Which programme this is and when it went out is a fact about the
        // broadcast, not about what was kept of it.
        let ghost before = out@;
        put(&mut out, slice_subrange(body, at, at + 10));
        let top: u8 = body[at + 10];
        out.push(top - top % 16 + (kept.len() / 256 % 16) as u8);
        out.push((kept.len() % 256) as u8);
        put(&mut out, kept.as_slice());
        assert(out@ =~= before + (body@.subrange(at as int, at + 10) + seq![
            (top - top % 16 + kept@.len() / 256 % 16) as u8,
            (kept@.len() % 256) as u8,
        ] + kept@));
        at += 12 + len;
    }
    if at != body.len() || !changed {
        return None;
    }
    finish_section(&mut out);
    Some(out)
}

/// The largest a section may be, counting the three bytes before the length
/// field and the four of check after the body.
pub const SECTION_MAX: usize = 4096;

/// What the programme on now says about itself, ready to go into a selection
/// information table.
pub struct Present {
    /// The version of the section it was read from.
    pub version: u8,
    /// Modified Julian day and three bytes of binary-coded decimal.
    pub start: [u8; 5],
    /// Binary-coded decimal, hours to seconds.
    pub duration: [u8; 3],
    /// The event's own descriptor loop, trimmed to the streams that are here.
    pub descriptors: Vec<u8>,
}

/// What a [`Present`] holds.
pub struct PresentModel {
    pub version: u8,
    pub start: Seq<u8>,
    pub duration: Seq<u8>,
    pub descriptors: Seq<u8>,
}

impl View for Present {
    type V = PresentModel;

    open spec fn view(&self) -> PresentModel {
        PresentModel {
            version: self.version,
            start: self.start@,
            duration: self.duration@,
            descriptors: self.descriptors@,
        }
    }
}

impl Present {
    /// Its loop is whole descriptors and nothing else.
    pub open spec fn wf(&self) -> bool {
        is_loop(self.descriptors@, 0)
    }
}

/// The first event information section about the present event, from `i` on.
pub open spec fn present_section(eit: Seq<Seq<u8>>, i: int) -> Option<Seq<u8>>
    decreases eit.len() - i,
{
    if i < 0 || i >= eit.len() {
        None
    } else if eit[i].len() > 26 && eit[i][6] == 0 {
        Some(eit[i])
    } else {
        present_section(eit, i + 1)
    }
}

/// The present event of a snapshot, where there is one whose loop is all
/// there. A section too short for an event's own header holds none.
#[verifier::opaque]
pub open spec fn present_in(
    snapshot: SnapshotModel,
    described: Set<u8>,
    carried: Set<u8>,
) -> Option<PresentModel> {
    match present_section(snapshot.eit, 0) {
        None => None,
        Some(section) => {
            let end = section.len() - 4;
            let len = length_bits(section[24], section[25]);
            if end < 26 + len {
                None
            } else {
                Some(
                    PresentModel {
                        version: section[5] / 2 % 32,
                        start: section.subrange(16, 21),
                        duration: section.subrange(21, 24),
                        descriptors: carried_loop(
                            section.subrange(26, 26 + len),
                            described,
                            carried,
                        ),
                    },
                )
            }
        },
    }
}

/// Read the present event out of a snapshot.
///
/// Present and following arrive as two sections and only the first describes
/// this file: the selection information describes what the file is, and has
/// nowhere to put a programme that is not in it.
pub fn present_event(snapshot: &Snapshot, components: &Components) -> (r: Option<Present>)
    ensures
        match r {
            Some(p) => present_in(snapshot@, components.described@, components.carried@) == Some(
                p@,
            ) && p.wf(),
            None => present_in(snapshot@, components.described@, components.carried@) is None,
        },
{
    reveal(present_in);
    let ghost eit = snapshot@.eit;
    let mut i: usize = 0;
    while i < snapshot.eit.len()
        invariant
            i <= snapshot.eit@.len(),
            eit == snapshot@.eit,
            present_section(eit, 0) == present_section(eit, i as int),
        decreases snapshot.eit@.len() - i,
    {
        let section: &Vec<u8> = &snapshot.eit[i];
        assert(eit[i as int] == section@);
        if section.len() > 26 && section[6] == 0 {
            reveal(present_in);
            let end: usize = section.len() - 4;
            let len: usize = length_field(section[24], section[25]);
            if end < 26 + len {
                return None;
            }
            let bytes: &[u8] = section.as_slice();
            let p: Present = Present {
                version: section[5] / 2 % 32,
                start: [section[16], section[17], section[18], section[19], section[20]],
                duration: [section[21], section[22], section[23]],
                descriptors: keep_carried(slice_subrange(bytes, 26, 26 + len), components),
            };
            assert(p.start@ =~= section@.subrange(16, 21));
            assert(p.duration@ =~= section@.subrange(21, 24));
            return Some(p);
        }
        i += 1;
    }
    None
}

/// The first whole descriptor with a tag, header and all, from `i` on.
pub open spec fn whole_from(bytes: Seq<u8>, tag: u8, i: int) -> Option<Seq<u8>>
    decreases bytes.len() - i,
{
    if !has_descriptor(bytes, i) {
        None
    } else if bytes[i] == tag {
        Some(bytes.subrange(i, descriptor_end(bytes, i)))
    } else {
        whole_from(bytes, tag, descriptor_end(bytes, i))
    }
}

/// The service descriptor of a service description section about one service:
/// behind the section's header stand the service's own five bytes, the last
/// two of which end in the length of its loop.
pub open spec fn name_in(sdt: Seq<u8>) -> Option<Seq<u8>> {
    if sdt.len() < 20 {
        None
    } else {
        let len = length_bits(sdt[14], sdt[15]);
        if 16 + len > sdt.len() - 4 {
            None
        } else {
            whole_from(sdt.subrange(16, 16 + len), 0x48, 0)
        }
    }
}

/// The service descriptor, dug out of the recording's own service
/// description. The name arrives as ARIB text and leaves as ARIB text; this
/// only finds where it starts and how far it runs.
pub fn service_descriptor(sdt: &[u8]) -> (r: Option<&[u8]>)
    ensures
        match r {
            Some(d) => name_in(sdt@) == Some(d@) && is_loop(d@, 0),
            None => name_in(sdt@) is None,
        },
{
    if sdt.len() < 20 {
        return None;
    }
    let len: usize = length_field(sdt[14], sdt[15]);
    if 16 + len > sdt.len() - 4 {
        return None;
    }
    let loop_bytes: &[u8] = slice_subrange(sdt, 16, 16 + len);
    let mut i: usize = 0;
    while loop_bytes.len() - i >= 2
        invariant
            i <= loop_bytes@.len(),
            whole_from(loop_bytes@, 0x48, 0) == whole_from(loop_bytes@, 0x48, i as int),
            name_in(sdt@) == whole_from(loop_bytes@, 0x48, 0),
        decreases loop_bytes@.len() - i,
    {
        let body: usize = loop_bytes[i + 1] as usize;
        if loop_bytes.len() - i - 2 < body {
            return None;
        }
        if loop_bytes[i] == 0x48 {
            let whole: &[u8] = slice_subrange(loop_bytes, i, i + 2 + body);
            proof {
                lemma_one_descriptor_is_a_loop(whole@);
            }
            return Some(whole);
        }
        i += 2 + body;
    }
    None
}

/// The largest peak rate the descriptor has room for.
pub const PEAK_MAX: u32 = 0x3F_FFFF;

/// How fast the partial transport stream runs, in the 400 bit/s the
/// descriptor counts in.
pub open spec fn stream_rate(peak_rate: u32) -> Seq<u8> {
    let peak: int = if peak_rate < PEAK_MAX {
        peak_rate as int
    } else {
        PEAK_MAX as int
    };
    seq![
        0x63u8,
        0x08,
        (0xC0 + peak / 65536) as u8,
        (peak / 256 % 256) as u8,
        (peak % 256) as u8,
        0xFF,
        0xFF,
        0xFF,
        0xFF,
        0xFF,
    ]
}

/// How fast the partial transport stream runs, in the 400 bit/s the
/// descriptor counts in. The smoothing rate and buffer are not measured, and
/// all ones is how the descriptor says so.
pub fn partial_stream_descriptor(peak_rate: u32) -> (d: Vec<u8>)
    ensures
        d@ == stream_rate(peak_rate),
{
    let peak: u32 = if peak_rate < PEAK_MAX {
        peak_rate
    } else {
        PEAK_MAX
    };
    let d: Vec<u8> = vec![
        0x63,
        0x08,
        0xC0 + (peak / 65536) as u8,
        (peak / 256 % 256) as u8,
        (peak % 256) as u8,
        0xFF,
        0xFF,
        0xFF,
        0xFF,
        0xFF,
    ];
    assert(d@ =~= stream_rate(peak_rate));
    d
}

/// The medium an original network id plainly names, as two letters.
pub open spec fn medium_of(network: u16) -> Option<(u8, u8)> {
    if network == 0x0004 {
        Some((0x42, 0x53))
    } else if network == 0x0006 || network == 0x0007 {
        Some((0x43, 0x53))
    } else if 0x7880 <= network <= 0x7FEF {
        Some((0x54, 0x42))
    } else {
        None
    }
}

/// The network descriptor for a network whose id says plainly what it is.
pub open spec fn network_named(network: u16) -> Option<Seq<u8>> {
    match medium_of(network) {
        Some((a, b)) => Some(
            seq![0xC2u8, 0x07, 0x4A, 0x50, 0x4E, a, b] + be16_bytes(network as int),
        ),
        None => None,
    }
}

/// Which network the recording came off, when the network id says plainly.
///
/// The original network id is allocated per country and per medium, so the
/// three that matter in Japan can be read straight off it. An id outside them
/// is left undescribed rather than guessed at.
pub fn network_descriptor(original_network_id: u16) -> (r: Option<Vec<u8>>)
    ensures
        match r {
            Some(d) => network_named(original_network_id) == Some(d@) && d@.len() == 9,
            None => network_named(original_network_id) is None,
        },
{
    let (a, b): (u8, u8) = match original_network_id {
        0x0004 => (0x42, 0x53),
        0x0006 | 0x0007 => (0x43, 0x53),
        0x7880..=0x7FEF => (0x54, 0x42),
        _ => return None,
    };
    let d: Vec<u8> = vec![
        0xC2,
        0x07,
        0x4A,
        0x50,
        0x4E,
        a,
        b,
        (original_network_id / 256) as u8,
        (original_network_id % 256) as u8,
    ];
    assert(d@ =~= seq![0xC2u8, 0x07, 0x4A, 0x50, 0x4E, a, b] + be16_bytes(
        original_network_id as int,
    ));
    Some(d)
}

/// When the programme went out and how long it ran, with no offset from that
/// time and the event's own descriptors said to follow.
pub open spec fn times_of(p: PresentModel) -> Seq<u8> {
    seq![0xC3u8, 0x0D, p.version] + p.start + p.duration + seq![0x00u8, 0x00, 0x00, 0xFA]
}

/// When the programme went out and how long it ran.
///
/// The times in it are the broadcast's own rather than the file's: the
/// descriptor is about the event, not about how much of it was kept.
pub fn partial_time_descriptor(present: &Present) -> (d: Vec<u8>)
    ensures
        d@ == times_of(present@),
{
    let mut d: Vec<u8> = vec![0xC3, 0x0D, present.version];
    put(&mut d, present.start.as_slice());
    put(&mut d, present.duration.as_slice());
    d.push(0x00);
    d.push(0x00);
    d.push(0x00);
    d.push(0xFA);
    assert(d@ =~= times_of(present@));
    d
}

/// What a partial stream says of its transmission.
pub open spec fn transmission_of(network: u16, peak_rate: u32) -> Seq<u8> {
    stream_rate(peak_rate) + match network_named(network) {
        Some(d) => d,
        None => Seq::empty(),
    }
}

/// What a partial stream says of its service: the times, the name, and the
/// programme's own descriptors.
pub open spec fn described_of(sdt: Option<Seq<u8>>, present: Option<PresentModel>) -> Seq<u8> {
    let times = match present {
        Some(p) => times_of(p),
        None => Seq::empty(),
    };
    let name = match sdt {
        Some(s) => match name_in(s) {
            Some(d) => d,
            None => Seq::empty(),
        },
        None => Seq::empty(),
    };
    let rest = match present {
        Some(p) => p.descriptors,
        None => Seq::empty(),
    };
    times + name + rest
}

/// How many bytes of a loop fit in `room`, whole descriptors at a time.
pub open spec fn fitting(bytes: Seq<u8>, room: int, i: int) -> int
    decreases room - i,
{
    if i < 0 || i + 2 > bytes.len() || i + 2 + bytes[i + 1] > room {
        i
    } else {
        fitting(bytes, room, i + 2 + bytes[i + 1])
    }
}

/// The header of a selection information table and its transmission loop.
pub open spec fn selection_head(transmission: Seq<u8>, version: u8) -> Seq<u8> {
    seq![
        TABLE_SIT,
        0xF0,
        0x00,
        0xFF,
        0xFF,
        (0xC1 + version % 32 * 2) as u8,
        0x00,
        0x00,
        (0xF0 + transmission.len() / 256 % 16) as u8,
        (transmission.len() % 256) as u8,
    ] + transmission
}

/// The body of the one table a partial transport stream carries, before its
/// length and its check.
pub open spec fn selection_body(
    service: ServiceModel,
    present: Option<PresentModel>,
    version: u8,
    peak_rate: u32,
) -> Seq<u8> {
    let head = selection_head(transmission_of(service.original_network_id, peak_rate), version);
    let described = described_of(service.sdt, present);
    let kept = fitting(described, SECTION_MAX - head.len() - 8, 0);
    head + be16_bytes(service.service_id as int) + seq![
        (0x80 + kept / 256 % 16) as u8,
        (kept % 256) as u8,
    ] + described.take(kept)
}

/// The one table a partial transport stream carries.
#[verifier::opaque]
pub open spec fn selection(
    service: ServiceModel,
    present: Option<PresentModel>,
    version: u8,
    peak_rate: u32,
) -> Seq<u8> {
    finished(selection_body(service, present, version, peak_rate))
}

/// What a present event that may be absent holds.
pub open spec fn present_model(present: Option<&Present>) -> Option<PresentModel> {
    match present {
        Some(p) => Some(p@),
        None => None,
    }
}

/// What fits of a loop is inside the loop, inside the room, and a loop.
pub proof fn law_what_does_not_fit_goes_whole(bytes: Seq<u8>, room: int, i: int)
    requires
        0 <= i <= bytes.len(),
        i <= room,
        is_loop(bytes, i),
        is_loop(bytes.take(i), 0),
    ensures
        i <= fitting(bytes, room, i) <= bytes.len(),
        fitting(bytes, room, i) <= room,
        is_loop(bytes.take(fitting(bytes, room, i)), 0),
    decreases bytes.len() - i,
{
    if i + 2 <= bytes.len() && i + 2 + bytes[i + 1] <= room {
        let end = descriptor_end(bytes, i);
        let d = bytes.subrange(i, end);
        lemma_one_descriptor_is_a_loop(d);
        lemma_loops_join(bytes.take(i), d, 0);
        assert(bytes.take(end) =~= bytes.take(i) + d);
        law_what_does_not_fit_goes_whole(bytes, room, end);
    }
}

/// What is said of the service is whole descriptors and nothing else.
proof fn lemma_described_is_a_loop(
    sdt: Option<Seq<u8>>,
    present: Option<PresentModel>,
)
    requires
        present matches Some(p) ==> is_loop(p.descriptors, 0) && p.start.len() == 5
            && p.duration.len() == 3,
    ensures
        is_loop(described_of(sdt, present), 0),
{
    let times = match present {
        Some(p) => times_of(p),
        None => Seq::empty(),
    };
    let name = match sdt {
        Some(s) => match name_in(s) {
            Some(d) => d,
            None => Seq::empty(),
        },
        None => Seq::empty(),
    };
    let rest = match present {
        Some(p) => p.descriptors,
        None => Seq::empty(),
    };
    if let Some(p) = present {
        lemma_one_descriptor_is_a_loop(times);
    }
    if let Some(s) = sdt {
        if s.len() >= 20 {
            lemma_whole_is_a_loop(
                s.subrange(16, 16 + length_bits(s[14], s[15])),
                0x48,
                0,
            );
        }
    }
    lemma_loops_join(times, name, 0);
    lemma_loops_join(times + name, rest, 0);
}

/// A whole descriptor found in a loop is a loop.
proof fn lemma_whole_is_a_loop(bytes: Seq<u8>, tag: u8, i: int)
    ensures
        whole_from(bytes, tag, i) matches Some(d) ==> is_loop(d, 0),
    decreases bytes.len() - i,
{
    if has_descriptor(bytes, i) {
        lemma_one_descriptor_is_a_loop(bytes.subrange(i, descriptor_end(bytes, i)));
        lemma_whole_is_a_loop(bytes, tag, descriptor_end(bytes, i));
    }
}

/// The table of a partial stream stays under the ceiling a section has, says
/// how long it is and is believed by whoever reads it, however much there was
/// to say; and what it says of the service is whole descriptors.
pub proof fn law_a_selection_is_a_section(
    service: ServiceModel,
    present: Option<PresentModel>,
    version: u8,
    peak_rate: u32,
)
    requires
        present matches Some(p) ==> is_loop(p.descriptors, 0) && p.start.len() == 5
            && p.duration.len() == 3,
    ensures
        selection(service, present, version, peak_rate).len() <= SECTION_MAX,
        sound(selection(service, present, version, peak_rate)),
        crc_of(selection(service, present, version, peak_rate)) == 0,
        crate::si::packet::section_size(selection(service, present, version, peak_rate))
            == selection(service, present, version, peak_rate).len(),
{
    reveal(selection);
    let head = selection_head(transmission_of(service.original_network_id, peak_rate), version);
    let described = described_of(service.sdt, present);
    lemma_described_is_a_loop(service.sdt, present);
    assert(described.take(0) =~= Seq::empty());
    law_what_does_not_fit_goes_whole(described, SECTION_MAX - head.len() - 8, 0);
    law_a_finished_section_is_sound(selection_body(service, present, version, peak_rate));
}

/// Build the one table a partial transport stream carries.
///
/// The bytes are the recording's own wherever there were any; only the frame
/// around them is written here. What does not fit under the section's ceiling
/// is dropped whole descriptors at a time, from the end, rather than
/// truncated; the service and the times come first for that reason.
pub fn build_sit(
    service: &Service,
    present: Option<&Present>,
    version: u8,
    peak_rate: u32,
) -> (sec: Vec<u8>)
    requires
        present matches Some(p) ==> p.wf(),
    ensures
        sec@ == selection(service@, present_model(present), version, peak_rate),
{
    reveal(selection);
    let mut transmission: Vec<u8> = partial_stream_descriptor(peak_rate);
    if let Some(d) = network_descriptor(service.original_network_id) {
        put(&mut transmission, d.as_slice());
    }
    assert(transmission@ =~= transmission_of(service.original_network_id, peak_rate));

    let mut described: Vec<u8> = Vec::new();
    if let Some(p) = present {
        let times: Vec<u8> = partial_time_descriptor(p);
        put(&mut described, times.as_slice());
    }
    if let Some(sdt) = &service.sdt {
        if let Some(d) = service_descriptor(sdt.as_slice()) {
            put(&mut described, d);
        }
    }
    if let Some(p) = present {
        put(&mut described, p.descriptors.as_slice());
    }
    assert(described@ =~= described_of(service@.sdt, present_model(present)));

    let mut sec: Vec<u8> = vec![
        TABLE_SIT,
        0xF0,
        0x00,
        0xFF,
        0xFF,
        0xC1 + version % 32 * 2,
        0x00,
        0x00,
        0xF0 + (transmission.len() / 256 % 16) as u8,
        (transmission.len() % 256) as u8,
    ];
    put(&mut sec, transmission.as_slice());
    let ghost head = selection_head(transmission@, version);
    assert(sec@ =~= head);
    let room: usize = SECTION_MAX - sec.len() - 4 - 4;
    proof {
        lemma_described_is_a_loop(service@.sdt, present_model(present));
        assert(described@.take(0) =~= Seq::empty());
        law_what_does_not_fit_goes_whole(described@, room as int, 0);
    }
    let mut kept: usize = 0;
    while described.len() - kept >= 2
        invariant_except_break
            kept <= described@.len(),
            is_loop(described@, kept as int),
            kept <= room <= SECTION_MAX,
            fitting(described@, room as int, 0) == fitting(described@, room as int, kept as int),
        ensures
            kept == fitting(described@, room as int, 0),
        decreases described@.len() - kept,
    {
        let len: usize = 2 + described[kept + 1] as usize;
        if len > room - kept {
            break;
        }
        kept += len;
    }
    sec.push((service.service_id / 256) as u8);
    sec.push((service.service_id % 256) as u8);
    // Running status undefined: a recording is not on the air.
    sec.push(0x80 + (kept / 256 % 16) as u8);
    sec.push((kept % 256) as u8);
    put(&mut sec, slice_subrange(described.as_slice(), 0, kept));
    assert(sec@ =~= selection_body(service@, present_model(present), version, peak_rate));
    finish_section(&mut sec);
    sec
}

/// Division that drops what is left over, whichever way the sign goes.
pub open spec fn tdiv(a: int, b: int) -> int {
    if a >= 0 {
        a / b
    } else {
        -((-a) / b)
    }
}

/// What [`tdiv`] leaves over.
pub open spec fn trem(a: int, b: int) -> int {
    a - b * tdiv(a, b)
}

/// The number a byte of binary-coded decimal stands for.
pub open spec fn from_bcd(b: u8) -> int {
    b / 16 * 10 + b % 16
}

/// A number as binary-coded decimal, in one byte.
pub open spec fn to_bcd(v: int) -> u8 {
    ((tdiv(v, 10) * 16) as u8) | (trem(v, 10) as u8)
}

/// Seconds since midnight, as a time section's three bytes give them.
pub open spec fn of_day(section: Seq<u8>) -> int {
    from_bcd(section[5]) * 3600 + from_bcd(section[6]) * 60 + from_bcd(section[7])
}

/// A time section with its clock moved on, before any check it ends in.
pub open spec fn clock_moved(section: Seq<u8>, seconds: int) -> Seq<u8> {
    let total = of_day(section) + seconds;
    let days = if total >= 86_400 {
        total / 86_400
    } else {
        0
    };
    let left = total - days * 86_400;
    let day = section[3] * 256 + section[4] + days;
    section.update(3, (day / 256 % 256) as u8).update(4, (day % 256) as u8).update(
        5,
        to_bcd(tdiv(left, 3600)),
    ).update(6, to_bcd(trem(tdiv(left, 60), 60))).update(7, to_bcd(trem(left, 60)))
}

/// A time section with its clock moved on, where it is long enough to hold
/// one. The offset table ends in a check, which is made again.
pub open spec fn time_moved(section: Seq<u8>, seconds: int) -> Option<Seq<u8>> {
    if section.len() < 8 {
        None
    } else {
        let moved = clock_moved(section, seconds);
        if section[0] == TABLE_TOT {
            let body = moved.take(moved.len() - 4);
            Some(body + crc_bytes(crc_of(body)))
        } else {
            Some(moved)
        }
    }
}

/// One byte of binary-coded decimal.
fn bcd_byte(v: i64) -> (r: u8)
    requires
        -0x400_0000_0000_0000 <= v <= 0x400_0000_0000_0000,
    ensures
        r == to_bcd(v as int),
{
    let tens: i64 = v / 10;
    let ones: i64 = v % 10;
    assert(tens == tdiv(v as int, 10));
    assert(ones == trem(v as int, 10));
    (#[verifier::truncate] ((tens * 16) as u8)) | (#[verifier::truncate] (ones as u8))
}

/// The number a byte of binary-coded decimal stands for.
fn bcd_value(b: u8) -> (r: i64)
    ensures
        r == from_bcd(b),
        0 <= r <= 165,
{
    (b / 16) as i64 * 10 + (b % 16) as i64
}

/// Move a time and date table's clock on by `seconds`.
///
/// Broadcast time is carried as a modified Julian day and three bytes of
/// binary-coded decimal, so moving it is arithmetic on the day and the clock
/// separately.
pub fn advance_time(section: &[u8], seconds: i64) -> (r: Option<Vec<u8>>)
    requires
        seconds <= i64::MAX - 604_065,
    ensures
        match r {
            Some(out) => time_moved(section@, seconds as int) == Some(out@),
            None => time_moved(section@, seconds as int) is None,
        },
{
    if section.len() < 8 {
        return None;
    }
    let total: i64 = bcd_value(section[5]) * 3600 + bcd_value(section[6]) * 60 + bcd_value(
        section[7],
    ) + seconds;
    let days: i64 = if total >= 86_400 {
        total / 86_400
    } else {
        0
    };
    let left: i64 = total - days * 86_400;
    let day: i64 = (section[3] as i64) * 256 + section[4] as i64 + days;
    let minutes: i64 = left / 60;
    assert(minutes == tdiv(left as int, 60));
    assert(left / 3600 == tdiv(left as int, 3600) || left < 0);
    let mut out: Vec<u8> = copied(section);
    out.set(3, (day / 256 % 256) as u8);
    out.set(4, (day % 256) as u8);
    out.set(5, bcd_byte(left / 3600));
    out.set(6, bcd_byte(minutes % 60));
    out.set(7, bcd_byte(left % 60));
    assert(out@ =~= clock_moved(section@, seconds as int));
    if section[0] == TABLE_TOT {
        let body: usize = out.len() - 4;
        let crc: u32 = crc32(slice_subrange(out.as_slice(), 0, body));
        let ghost moved = out@;
        out.truncate(body);
        out.push((crc / 0x100_0000) as u8);
        out.push((crc / 0x1_0000 % 256) as u8);
        out.push((crc / 0x100 % 256) as u8);
        out.push((crc % 256) as u8);
        assert(moved.subrange(0, body as int) =~= moved.take(moved.len() - 4));
        assert(out@ =~= moved.take(moved.len() - 4) + crc_bytes(crc));
    }
    Some(out)
}

} // verus!
