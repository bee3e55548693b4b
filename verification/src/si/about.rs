//! That what is kept of a recording's tables is about the recording.
use crate::si::loops::plain_loop;
use crate::si::packet::{fed, framed, packet_pid, ReaderState, PACKET};
use crate::si::read::{
    entry_from, entry_type, first_programme, head_from, head_start, idle, next_packet, sdt_about,
    service_in, streams_from, with_packet, with_pat, with_pmt, with_sdt, with_sections,
    HeadModel, HeadTable, ServiceModel, SiError,
};
use vstd::prelude::*;

verus! {

/// The sixteen bits that stand at a place, most significant first.
pub open spec fn word_at(b: Seq<u8>, i: int) -> int {
    b[i] * 256 + b[i + 1]
}

/// The thirteen bits that end the two bytes at a place.
pub open spec fn pid_at(b: Seq<u8>, i: int) -> int {
    (b[i] % 32) * 256 + b[i + 1]
}

/// How many bytes the entry at a place takes: five, and the descriptors they
/// count.
pub open spec fn size_at(b: Seq<u8>, i: int) -> int {
    5 + (b[i + 3] % 16) * 256 + b[i + 4]
}

/// Where the entries of a table stand, the first of them at `from`: each behind
/// the one before it, as long as they are whole and the check is not reached.
pub open spec fn entries(b: Seq<u8>, from: int) -> Seq<int>
    decreases b.len() - from,
{
    if from < 0 || from + 5 > b.len() - 4 || from + size_at(b, from) > b.len() {
        Seq::empty()
    } else {
        seq![from] + entries(b, from + size_at(b, from))
    }
}

#[verifier::spinoff_prover]
#[verifier::rlimit(40)]
proof fn lemma_entry(b: Seq<u8>, service: u16, from: int)
    ensures
        match entry_from(b, service, from) {
            Some(e) => exists|k: int|
                #![trigger entries(b, from)[k]]
                {
                    let i = entries(b, from)[k];
                    &&& 0 <= k < entries(b, from).len()
                    &&& word_at(b, i) == service
                    &&& 0 <= i && i + 5 <= i + size_at(b, i) <= b.len()
                    &&& e == b.subrange(i, i + size_at(b, i))
                    &&& forall|m: int|
                        0 <= m < k ==> word_at(b, #[trigger] entries(b, from)[m]) != service
                },
            None => forall|k: int|
                0 <= k < entries(b, from).len() ==> word_at(b, #[trigger] entries(b, from)[k])
                    != service,
        },
    decreases b.len() - from,
{
    let all = entries(b, from);
    if all.len() > 0 {
        let next = from + size_at(b, from);
        let rest = entries(b, next);
        assert(all == seq![from] + rest);
        assert(all[0] == from);
        lemma_entry(b, service, next);
        if word_at(b, from) != service {
            match entry_from(b, service, next) {
                Some(e) => {
                    let k = choose|k: int|
                        #![trigger entries(b, next)[k]]
                        {
                            let i = entries(b, next)[k];
                            &&& 0 <= k < entries(b, next).len()
                            &&& word_at(b, i) == service
                            &&& 0 <= i && i + 5 <= i + size_at(b, i) <= b.len()
                            &&& e == b.subrange(i, i + size_at(b, i))
                            &&& forall|m: int|
                                0 <= m < k ==> word_at(b, #[trigger] entries(b, next)[m])
                                    != service
                        };
                    assert(all[k + 1] == rest[k]);
                    assert forall|m: int| 0 <= m < k + 1 implies word_at(b, #[trigger] all[m])
                        != service by {
                        if m > 0 {
                            assert(all[m] == rest[m - 1]);
                        }
                    }
                },
                None => {
                    assert forall|k: int| 0 <= k < all.len() implies word_at(b, #[trigger] all[k])
                        != service by {
                        if k > 0 {
                            assert(all[k] == rest[k - 1]);
                        }
                    }
                },
            }
        }
    }
}

/// The entry found in a service description section is the first of its entries
/// that is about the service asked for, all of it; and one is found exactly
/// where one of them is.
pub proof fn law_the_entry_found_is_the_services(sec: Seq<u8>, service: u16)
    ensures
        match entry_from(sec, service, 11) {
            Some(e) => word_at(e, 0) == service && e.len() >= 5 && exists|k: int|
                #![trigger entries(sec, 11)[k]]
                {
                    let i = entries(sec, 11)[k];
                    &&& 0 <= k < entries(sec, 11).len()
                    &&& word_at(sec, i) == service
                    &&& 0 <= i && i + 5 <= i + size_at(sec, i) <= sec.len()
                    &&& e == sec.subrange(i, i + size_at(sec, i))
                    &&& forall|m: int|
                        0 <= m < k ==> word_at(sec, #[trigger] entries(sec, 11)[m]) != service
                },
            None => forall|k: int|
                0 <= k < entries(sec, 11).len() ==> word_at(sec, #[trigger] entries(sec, 11)[k])
                    != service,
        },
{
    lemma_entry(sec, service, 11);
}

/// A section rewritten about one service opens as it did, has that service's
/// entry where the first one stood, and nothing behind it but its check.
pub proof fn law_a_rewritten_description_is_the_entry(sec: Seq<u8>, entry: Seq<u8>)
    requires
        sec.len() >= 11,
    ensures
        ({
            let out = sdt_about(sec, entry);
            &&& out.len() == 11 + entry.len() + 4
            &&& out.subrange(11, 11 + entry.len() as int) == entry
            &&& out[0] == sec[0]
            &&& forall|i: int| 3 <= i < 11 ==> #[trigger] out[i] == sec[i]
        }),
{
    let out = sdt_about(sec, entry);
    assert(out.subrange(11, 11 + entry.len() as int) =~= entry);
}

/// What a reader of one PID holds once some packets have gone by, and the
/// sections they completed on it.
pub open spec fn sections_on(packets: Seq<Seq<u8>>, pid: int) -> (ReaderState, Seq<Seq<u8>>)
    decreases packets.len(),
{
    if packets.len() == 0 {
        (ReaderState { held: Seq::empty(), filling: false }, Seq::empty())
    } else {
        let before = sections_on(packets.drop_last(), pid);
        if pid_at(packets.last(), 1) == pid {
            let more = fed(before.0, packets.last());
            (more.0, before.1 + more.1)
        } else {
            before
        }
    }
}

/// Whether an association section names a programme, and the PID of its map: the
/// first it lists that is a service.
pub open spec fn names(sec: Seq<u8>, number: int, pid: int) -> bool {
    &&& sec.len() >= 12 && sec[0] == 0
    &&& exists|k: int| names_at(sec, number, pid, k)
}

/// Whether it does so in one place.
pub open spec fn names_at(sec: Seq<u8>, number: int, pid: int, k: int) -> bool {
    let i = 8 + 4 * k;
    &&& 0 <= k && i + 4 <= sec.len() - 4
    &&& number != 0
    &&& word_at(sec, i) == number
    &&& pid_at(sec, i + 2) == pid
    &&& forall|j: int| 8 <= j < i && (j - 8) % 4 == 0 ==> #[trigger] word_at(sec, j) == 0
}

#[verifier::spinoff_prover]
#[verifier::rlimit(60)]
proof fn lemma_programme(sec: Seq<u8>, k: int)
    requires
        0 <= k,
    ensures
        match first_programme(sec, 8 + 4 * k) {
            Some((number, pid)) => exists|m: int|
                k <= m && {
                    let i = 8 + 4 * m;
                    &&& i + 4 <= sec.len() - 4
                    &&& number != 0
                    &&& #[trigger] programme_at(sec, m) == (number as int, pid as int)
                    &&& forall|j: int|
                        8 + 4 * k <= j < i && (j - 8) % 4 == 0 ==> #[trigger] word_at(sec, j) == 0
                },
            None => forall|j: int|
                8 + 4 * k <= j && j + 8 <= sec.len() && (j - 8) % 4 == 0 ==> #[trigger] word_at(
                    sec,
                    j,
                ) == 0,
        },
    decreases sec.len() - 4 * k,
{
    let i = 8 + 4 * k;
    if i + 8 <= sec.len() {
        if word_at(sec, i) == 0 {
            lemma_programme(sec, k + 1);
            assert forall|j: int|
                i <= j && j + 8 <= sec.len() && (j - 8) % 4 == 0 && j < i + 4 implies word_at(
                sec,
                j,
            ) == 0 by {
                assert(j == i);
            }
        } else {
            assert(programme_at(sec, k) == (word_at(sec, i), pid_at(sec, i + 2)));
        }
    }
}

spec fn programme_at(sec: Seq<u8>, m: int) -> (int, int) {
    (word_at(sec, 8 + 4 * m), pid_at(sec, 10 + 4 * m))
}

/// The service a recording is of is the first its association lists.
#[verifier::spinoff_prover]
#[verifier::rlimit(60)]
pub proof fn law_the_first_programme_listed_is_the_service(sec: Seq<u8>, number: u16, pid: u16)
    requires
        sec.len() >= 12,
        sec[0] == 0,
    ensures
        first_programme(sec, 8) == Some((number, pid)) <==> names(sec, number as int, pid as int),
{
    lemma_programme(sec, 0);
    match first_programme(sec, 8) {
        Some((n, p)) => {
            let m = choose|m: int|
                0 <= m && {
                    let i = 8 + 4 * m;
                    &&& i + 4 <= sec.len() - 4
                    &&& n != 0
                    &&& #[trigger] programme_at(sec, m) == (n as int, p as int)
                    &&& forall|j: int|
                        8 <= j < i && (j - 8) % 4 == 0 ==> #[trigger] word_at(sec, j) == 0
                };
            assert(names_at(sec, n as int, p as int, m));
            if names(sec, number as int, pid as int) {
                let k = choose|k: int| names_at(sec, number as int, pid as int, k);
                if k < m {
                    assert(word_at(sec, 8 + 4 * k) == 0);
                } else if m < k {
                    assert(word_at(sec, 8 + 4 * m) == 0);
                }
            }
        },
        None => {
            if names(sec, number as int, pid as int) {
                let k = choose|k: int| names_at(sec, number as int, pid as int, k);
                assert(word_at(sec, 8 + 4 * k) == 0);
            }
        },
    }
}

/// The streams a map describes are the ones it lists: one for each entry, of
/// the kind and on the PID it says, with its descriptors.
#[verifier::spinoff_prover]
#[verifier::rlimit(60)]
pub proof fn law_every_stream_listed_is_described(sec: Seq<u8>, from: int)
    ensures
        streams_from(sec, from).len() == entries(sec, from).len(),
        forall|k: int|
            0 <= k < entries(sec, from).len() ==> {
                let i = #[trigger] entries(sec, from)[k];
                let s = streams_from(sec, from)[k];
                &&& s.stream_type == sec[i]
                &&& s.pid == pid_at(sec, i + 1)
                &&& s.descriptors == plain_loop(sec.subrange(i + 5, i + size_at(sec, i)))
            },
    decreases sec.len() - from,
{
    let all = entries(sec, from);
    if all.len() > 0 {
        let next = from + size_at(sec, from);
        law_every_stream_listed_is_described(sec, next);
        let (rest, more) = (entries(sec, next), streams_from(sec, next));
        let streams = streams_from(sec, from);
        assert(all == seq![from] + rest);
        assert forall|k: int| 0 <= k < all.len() implies {
            let i = #[trigger] all[k];
            &&& streams[k].stream_type == sec[i]
            &&& streams[k].pid == pid_at(sec, i + 1)
            &&& streams[k].descriptors == plain_loop(sec.subrange(i + 5, i + size_at(sec, i)))
        } by {
            if k > 0 {
                assert(all[k] == rest[k - 1]);
                assert(streams[k] == more[k - 1]);
            }
        }
    }
}

/// Whether every association some packets complete puts the map it names on a
/// PID of its own, which is neither the association's nor the description's.
pub open spec fn maps_are_named(packets: Seq<Seq<u8>>) -> bool {
    forall|k: int, number: int, pid: int|
        0 <= k < sections_on(packets, 0).1.len() && #[trigger] names(
            sections_on(packets, 0).1[k],
            number,
            pid,
        ) ==> pid != 0 && pid != 0x11
}

/// Whether a programme is named by one of the associations some packets
/// complete.
pub open spec fn is_named(packets: Seq<Seq<u8>>, number: int, pid: int) -> bool {
    exists|k: int|
        0 <= k < sections_on(packets, 0).1.len() && names(
            #[trigger] sections_on(packets, 0).1[k],
            number,
            pid,
        )
}

/// Whether a section is one of the descriptions some packets complete.
pub open spec fn describes(packets: Seq<Seq<u8>>, v: Seq<u8>) -> bool {
    &&& sections_on(packets, 0x11).1.contains(v)
    &&& v.len() >= 15 && v[0] == 0x42
}

/// Whether a kept description is the entry about a service of one of the
/// descriptions some packets complete.
pub open spec fn kept_of(packets: Seq<Seq<u8>>, kept: Seq<u8>, service: int, v: Seq<u8>, i: int) -> bool {
    &&& describes(packets, v)
    &&& entries(v, 11).contains(i)
    &&& word_at(v, i) == service
    &&& 11 <= i && i + 5 <= i + size_at(v, i) <= v.len()
    &&& kept.len() == 11 + size_at(v, i) + 4
    &&& kept.subrange(11, 11 + size_at(v, i)) == v.subrange(i, i + size_at(v, i))
    &&& kept[0] == 0x42
    &&& forall|j: int| 3 <= j < 11 ==> #[trigger] kept[j] == v[j]
}

/// Whether a service is as a map describes it.
pub open spec fn mapped_by(s: ServiceModel, m: Seq<u8>) -> bool {
    let from = 12 + (m[10] % 16) * 256 + m[11];
    &&& m.len() >= 16 && m[0] == 2
    &&& word_at(m, 3) == s.service_id
    &&& s.pcr_pid == pid_at(m, 8)
    &&& from <= m.len()
    &&& s.program_info == plain_loop(m.subrange(12, from))
    &&& s.streams == streams_from(m, from)
}

/// Whether a section is a map of a service, with all of its programme loop.
pub open spec fn maps(m: Seq<u8>, service: int) -> bool {
    &&& m.len() >= 16 && m[0] == 2
    &&& word_at(m, 3) == service
    &&& 12 + (m[10] % 16) * 256 + m[11] <= m.len()
}

proof fn lemma_names_fit(sec: Seq<u8>, number: int, pid: int)
    requires
        names(sec, number, pid),
    ensures
        0 < number < 0x1_0000,
        0 <= pid < 0x2000,
{
    let k = choose|k: int| names_at(sec, number, pid, k);
    assert(names_at(sec, number, pid, k));
}

/// What associations of one packet add.
#[verifier::spinoff_prover]
#[verifier::rlimit(40)]
proof fn lemma_associations(h: HeadModel, secs: Seq<Seq<u8>>)
    requires
        h.service_id == 0,
        h.pmt_pid == 0,
        forall|k: int, number: int, pid: int|
            0 <= k < secs.len() && #[trigger] names(secs[k], number, pid) ==> pid != 0 && pid
                != 0x11,
    ensures
        ({
            let r = with_sections(h, HeadTable::Association, secs);
            &&& r == (HeadModel {
                transport_stream_id: r.transport_stream_id,
                service_id: r.service_id,
                pmt_pid: r.pmt_pid,
                ..h
            })
            &&& r.pmt_pid == 0 ==> r.service_id == 0 && forall|k: int, number: int, pid: int|
                0 <= k < secs.len() ==> !#[trigger] names(secs[k], number, pid)
            &&& r.pmt_pid != 0 ==> r.service_id != 0 && r.pmt_pid != 0x11 && exists|k: int|
                0 <= k < secs.len() && names(
                    #[trigger] secs[k],
                    r.service_id as int,
                    r.pmt_pid as int,
                )
        }),
    decreases secs.len(),
{
    if secs.len() > 0 {
        let less = secs.drop_last();
        let sec = secs.last();
        assert forall|k: int, number: int, pid: int|
            0 <= k < less.len() && #[trigger] names(less[k], number, pid) implies pid != 0 && pid
            != 0x11 by {
            assert(names(secs[k], number, pid));
        }
        lemma_associations(h, less);
        let before = with_sections(h, HeadTable::Association, less);
        let r = with_pat(before, sec);
        assert(with_sections(h, HeadTable::Association, secs) == r);
        if sec.len() >= 12 && sec[0] == 0 {
            match first_programme(sec, 8) {
                Some((n, p)) => {
                    law_the_first_programme_listed_is_the_service(sec, n, p);
                    assert(names(secs[secs.len() - 1], n as int, p as int));
                },
                None => {},
            }
        }
        if first_programme(sec, 8) is None || !(sec.len() >= 12 && sec[0] == 0) {
            assert forall|number: int, pid: int| !names(sec, number, pid) by {
                if names(sec, number, pid) {
                    lemma_names_fit(sec, number, pid);
                    law_the_first_programme_listed_is_the_service(sec, number as u16, pid as u16);
                }
            }
            assert(forall|k: int, number: int, pid: int|
                0 <= k < less.len() ==> (#[trigger] names(secs[k], number, pid)) == names(
                    less[k],
                    number,
                    pid,
                ));
            if r.pmt_pid != 0 {
                let k = choose|k: int|
                    0 <= k < less.len() && names(
                        #[trigger] less[k],
                        before.service_id as int,
                        before.pmt_pid as int,
                    );
                assert(names(secs[k], r.service_id as int, r.pmt_pid as int));
            }
        }
    }
}

/// What maps of one packet add.
#[verifier::spinoff_prover]
#[verifier::rlimit(60)]
proof fn lemma_maps(h: HeadModel, secs: Seq<Seq<u8>>)
    requires
        h.found is None,
    ensures
        ({
            let r = with_sections(h, HeadTable::Programme, secs);
            &&& r == (HeadModel { found: r.found, ..h })
            &&& r.found matches Some(s) ==> s.service_id == h.service_id && s.pmt_pid == h.pmt_pid
                && exists|k: int| 0 <= k < secs.len() && mapped_by(s, #[trigger] secs[k])
            &&& r.found is None ==> forall|k: int|
                0 <= k < secs.len() ==> !maps(#[trigger] secs[k], h.service_id as int)
        }),
    decreases secs.len(),
{
    if secs.len() > 0 {
        let less = secs.drop_last();
        lemma_maps(h, less);
        let before = with_sections(h, HeadTable::Programme, less);
        let r = with_pmt(before, secs.last());
        assert(with_sections(h, HeadTable::Programme, secs) == r);
        if r.found is Some && r == before {
            let s = r.found->0;
            let k = choose|k: int| 0 <= k < less.len() && mapped_by(s, #[trigger] less[k]);
            assert(secs[k] == less[k]);
        } else if r.found is Some {
            assert(mapped_by(r.found->0, secs[secs.len() - 1]));
        } else {
            assert forall|k: int| 0 <= k < secs.len() implies !maps(
                #[trigger] secs[k],
                h.service_id as int,
            ) by {
                if k < less.len() {
                    assert(secs[k] == less[k]);
                }
            }
        }
    }
}

/// Whether a description section is where a kept one came from.
spec fn gave(r: HeadModel, w: Seq<u8>) -> bool {
    &&& w.len() >= 15 && w[0] == 0x42 && r.service_id != 0
    &&& r.original_network_id == word_at(w, 8)
    &&& entry_from(w, r.service_id, 11) matches Some(e) && r.sdt_section == Some(sdt_about(w, e))
        && r.service_type == entry_type(e)
}

/// What descriptions of one packet add.
#[verifier::spinoff_prover]
#[verifier::rlimit(40)]
proof fn lemma_descriptions(h: HeadModel, secs: Seq<Seq<u8>>)
    requires
        h.sdt_section is None,
    ensures
        ({
            let r = with_sections(h, HeadTable::Description, secs);
            &&& r == (HeadModel {
                sdt_section: r.sdt_section,
                original_network_id: r.original_network_id,
                service_type: r.service_type,
                ..h
            })
            &&& r.sdt_section is Some ==> exists|k: int|
                0 <= k < secs.len() && gave(r, #[trigger] secs[k])
            &&& r.sdt_section is None ==> r == h && forall|k: int|
                0 <= k < secs.len() && (#[trigger] secs[k]).len() >= 15 && secs[k][0] == 0x42
                    && h.service_id != 0 ==> entry_from(secs[k], h.service_id, 11) is None
        }),
    decreases secs.len(),
{
    if secs.len() > 0 {
        let less = secs.drop_last();
        let sec = secs.last();
        lemma_descriptions(h, less);
        let before = with_sections(h, HeadTable::Description, less);
        let r = with_sdt(before, sec);
        assert(with_sections(h, HeadTable::Description, secs) == r);
        assert(secs[secs.len() - 1] == sec);
        if r == before {
            if r.sdt_section is Some {
                let k = choose|k: int| 0 <= k < less.len() && gave(r, #[trigger] less[k]);
                assert(gave(r, secs[k]));
            } else {
                assert forall|k: int|
                    0 <= k < secs.len() && (#[trigger] secs[k]).len() >= 15 && secs[k][0] == 0x42
                        && h.service_id != 0 implies entry_from(secs[k], h.service_id, 11)
                    is None by {
                    if k < less.len() {
                        assert(secs[k] == less[k]);
                    }
                }
            }
        } else {
            assert(gave(r, secs[secs.len() - 1]));
        }
    }
}

/// Whether an association has been read by the time of a packet.
pub open spec fn named_by(ps: Seq<Seq<u8>>, k: int) -> bool {
    exists|number: int, pid: int| is_named(ps.take(k), number, pid)
}

/// Whether none of some sections describes a service.
pub open spec fn none_lists(secs: Seq<Seq<u8>>, service: int) -> bool {
    forall|m: int, j: int|
        0 <= m < secs.len() && secs[m].len() >= 15 && secs[m][0] == 0x42 && 0 <= j < entries(
            secs[m],
            11,
        ).len() ==> word_at(secs[m], #[trigger] entries(secs[m], 11)[j]) != service
}

/// The descriptions one packet completes.
pub open spec fn completed(ps: Seq<Seq<u8>>, k: int) -> Seq<Seq<u8>> {
    fed(sections_on(ps.take(k), 0x11).0, ps[k]).1
}

/// Whether no description that some packets complete once an association has
/// been read lists a service.
pub open spec fn missed(ps: Seq<Seq<u8>>, service: int) -> bool {
    forall|k: int|
        0 <= k < ps.len() && pid_at(ps[k], 1) == 0x11 && named_by(ps, k) ==> none_lists(
            #[trigger] completed(ps, k),
            service,
        )
}

/// Descriptions in which no entry was found list none.
proof fn lemma_none_lists(secs: Seq<Seq<u8>>, service: u16)
    requires
        forall|k: int|
            0 <= k < secs.len() && (#[trigger] secs[k]).len() >= 15 && secs[k][0] == 0x42
                ==> entry_from(secs[k], service, 11) is None,
    ensures
        none_lists(secs, service as int),
{
    assert forall|m: int, j: int|
        0 <= m < secs.len() && secs[m].len() >= 15 && secs[m][0] == 0x42 && 0 <= j < entries(
            secs[m],
            11,
        ).len() implies word_at(secs[m], #[trigger] entries(secs[m], 11)[j]) != service by {
        lemma_entry(secs[m], service, 11);
    }
}

/// What was missed before is missed still, and more where this packet has it.
proof fn lemma_missed_more(ps: Seq<Seq<u8>>, p: Seq<u8>, service: int)
    requires
        missed(ps, service),
        pid_at(p, 1) == 0x11 ==> none_lists(fed(sections_on(ps, 0x11).0, p).1, service),
    ensures
        missed(ps.push(p), service),
{
    let qs = ps.push(p);
    assert forall|k: int|
        0 <= k < qs.len() && pid_at(qs[k], 1) == 0x11 && named_by(qs, k) implies none_lists(
        #[trigger] completed(qs, k),
        service,
    ) by {
        assert(qs.take(k) =~= ps.take(k));
        if k < ps.len() {
            assert(qs[k] == ps[k]);
            assert(none_lists(completed(ps, k), service));
        } else {
            assert(ps.take(k) =~= ps);
        }
    }
}

/// Nothing can be missed before an association has been read.
#[verifier::spinoff_prover]
#[verifier::rlimit(60)]
proof fn lemma_nothing_missed(ps: Seq<Seq<u8>>, service: int)
    requires
        forall|k: int, number: int, pid: int|
            0 <= k < sections_on(ps, 0).1.len() ==> !#[trigger] names(
                sections_on(ps, 0).1[k],
                number,
                pid,
            ),
    ensures
        missed(ps, service),
        forall|n: int| 0 <= n <= ps.len() ==> !#[trigger] named_by(ps, n),
{
    assert forall|n: int| 0 <= n <= ps.len() implies !#[trigger] named_by(ps, n) by {
        if named_by(ps, n) {
            let (number, pid) = choose|number: int, pid: int| is_named(ps.take(n), number, pid);
            let some = sections_on(ps.take(n), 0).1;
            let k = choose|k: int|
                0 <= k < some.len() && names(
                    #[trigger] sections_on(ps.take(n), 0).1[k],
                    number,
                    pid,
                );
            lemma_prefix(ps, n, 0);
            assert(!names(sections_on(ps, 0).1[k], number, pid));
        }
    }
}

/// What the first of some packets complete, all of them do.
proof fn lemma_prefix(ps: Seq<Seq<u8>>, n: int, pid: int)
    requires
        0 <= n <= ps.len(),
    ensures
        sections_on(ps.take(n), pid).1.len() <= sections_on(ps, pid).1.len(),
        forall|k: int|
            0 <= k < sections_on(ps.take(n), pid).1.len() ==> #[trigger] sections_on(ps, pid).1[k]
                == sections_on(ps.take(n), pid).1[k],
    decreases ps.len() - n,
{
    if n == ps.len() {
        assert(ps.take(n) =~= ps);
    } else {
        let less = ps.drop_last();
        lemma_prefix(less, n, pid);
        assert(less.take(n) =~= ps.take(n));
        assert(less.push(ps.last()) =~= ps);
        lemma_one_more(less, ps.last(), pid);
    }
}

/// What a reading of some packets holds of them.
spec fn heard(h: HeadModel, ps: Seq<Seq<u8>>, since: int) -> bool {
    &&& h.pmt_pid == 0 ==> {
        &&& h.service_id == 0 && h.found is None && h.sdt_section is None
        &&& h.pat == sections_on(ps, 0).0
        &&& h.pmt == idle()
        &&& forall|k: int, number: int, pid: int|
            0 <= k < sections_on(ps, 0).1.len() ==> !#[trigger] names(
                sections_on(ps, 0).1[k],
                number,
                pid,
            )
    }
    &&& h.pmt_pid != 0 ==> {
        &&& h.service_id != 0 && h.pmt_pid != 0x11
        &&& is_named(ps, h.service_id as int, h.pmt_pid as int)
        &&& 0 <= since <= ps.len()
    }
    &&& h.sdt_section is None ==> h.sdt == sections_on(ps, 0x11).0
    &&& h.sdt_section is Some ==> exists|k: int|
        0 <= k < sections_on(ps, 0x11).1.len() && gave(h, #[trigger] sections_on(ps, 0x11).1[k])
    &&& h.pmt_pid != 0 && h.found is None ==> {
        let seen = sections_on(ps.skip(since), h.pmt_pid as int);
        &&& h.pmt == seen.0
        &&& forall|k: int|
            0 <= k < seen.1.len() ==> !maps(#[trigger] seen.1[k], h.service_id as int)
    }
    &&& h.pmt_pid != 0 && h.sdt_section is None ==> missed(ps, h.service_id as int)
    &&& h.found matches Some(s) ==> s.service_id == h.service_id && s.pmt_pid == h.pmt_pid
        && h.pmt_pid != 0 && exists|k: int|
        0 <= k < sections_on(ps.skip(since), h.pmt_pid as int).1.len() && mapped_by(
            s,
            #[trigger] sections_on(ps.skip(since), h.pmt_pid as int).1[k],
        )
}

/// One more packet adds to the sections on its PID, and to no other.
proof fn lemma_one_more(ps: Seq<Seq<u8>>, p: Seq<u8>, pid: int)
    ensures
        ({
            let (was, now) = (sections_on(ps, pid), sections_on(ps.push(p), pid));
            let more = fed(was.0, p);
            &&& pid_at(p, 1) != pid ==> now == was
            &&& pid_at(p, 1) == pid ==> now.0 == more.0 && now.1 == was.1 + more.1
            &&& was.1.len() <= now.1.len()
            &&& forall|k: int| 0 <= k < was.1.len() ==> #[trigger] now.1[k] == was.1[k]
        }),
{
    assert(ps.push(p).drop_last() =~= ps);
}

proof fn lemma_named_still(ps: Seq<Seq<u8>>, p: Seq<u8>, number: int, pid: int)
    requires
        is_named(ps, number, pid),
    ensures
        is_named(ps.push(p), number, pid),
{
    lemma_one_more(ps, p, 0);
    let k = choose|k: int|
        0 <= k < sections_on(ps, 0).1.len() && names(
            #[trigger] sections_on(ps, 0).1[k],
            number,
            pid,
        );
    assert(sections_on(ps.push(p), 0).1[k] == sections_on(ps, 0).1[k]);
}

proof fn lemma_gave_still(h: HeadModel, ps: Seq<Seq<u8>>, p: Seq<u8>)
    requires
        exists|k: int|
            0 <= k < sections_on(ps, 0x11).1.len() && gave(h, #[trigger] sections_on(ps, 0x11).1[k]),
    ensures
        exists|k: int|
            0 <= k < sections_on(ps.push(p), 0x11).1.len() && gave(
                h,
                #[trigger] sections_on(ps.push(p), 0x11).1[k],
            ),
{
    lemma_one_more(ps, p, 0x11);
    let k = choose|k: int|
        0 <= k < sections_on(ps, 0x11).1.len() && gave(h, #[trigger] sections_on(ps, 0x11).1[k]);
    assert(sections_on(ps.push(p), 0x11).1[k] == sections_on(ps, 0x11).1[k]);
}

proof fn lemma_mapped_still(s: ServiceModel, ps: Seq<Seq<u8>>, p: Seq<u8>, pid: int)
    requires
        exists|k: int|
            0 <= k < sections_on(ps, pid).1.len() && mapped_by(
                s,
                #[trigger] sections_on(ps, pid).1[k],
            ),
    ensures
        exists|k: int|
            0 <= k < sections_on(ps.push(p), pid).1.len() && mapped_by(
                s,
                #[trigger] sections_on(ps.push(p), pid).1[k],
            ),
{
    lemma_one_more(ps, p, pid);
    let k = choose|k: int|
        0 <= k < sections_on(ps, pid).1.len() && mapped_by(s, #[trigger] sections_on(ps, pid).1[k]);
    assert(sections_on(ps.push(p), pid).1[k] == sections_on(ps, pid).1[k]);
}

#[verifier::spinoff_prover]
#[verifier::rlimit(40)]
proof fn lemma_heard_step(h: HeadModel, ps: Seq<Seq<u8>>, since: int, p: Seq<u8>) -> (now: int)
    requires
        heard(h, ps, since),
        maps_are_named(ps.push(p)),
        p.len() == PACKET,
    ensures
        heard(with_packet(h, p), ps.push(p), now),
{
    reveal(with_packet);
    let qs = ps.push(p);
    let pid = pid_at(p, 1);
    assert(packet_pid(p) == pid);
    let r = with_packet(h, p);
    lemma_one_more(ps, p, 0);
    lemma_one_more(ps, p, 0x11);
    if h.sdt_section is Some {
        lemma_gave_still(h, ps, p);
    }
    if h.pmt_pid == 0 {
        if pid == 0 {
            let (reader, secs) = fed(h.pat, p);
            let h1 = HeadModel { pat: reader, ..h };
            let n = sections_on(ps, 0).1.len() as int;
            let all = sections_on(qs, 0).1;
            lemma_nothing_missed(ps, r.service_id as int);
            lemma_missed_more(ps, p, r.service_id as int);
            assert forall|k: int, number: int, pid: int|
                0 <= k < secs.len() && #[trigger] names(secs[k], number, pid) implies pid != 0
                && pid != 0x11 by {
                assert(all[n + k] == secs[k]);
                assert(names(all[n + k], number, pid));
            }
            lemma_associations(h1, secs);
            if r.pmt_pid == 0 {
                assert forall|k: int, number: int, pid: int|
                    0 <= k < all.len() implies !#[trigger] names(all[k], number, pid) by {
                    if k < n {
                        assert(!names(sections_on(ps, 0).1[k], number, pid));
                    } else {
                        assert(all[k] == secs[k - n]);
                        assert(!names(secs[k - n], number, pid));
                    }
                }
            } else {
                let k = choose|k: int|
                    0 <= k < secs.len() && names(
                        #[trigger] secs[k],
                        r.service_id as int,
                        r.pmt_pid as int,
                    );
                assert(all[n + k] == secs[k]);
                assert(qs.skip(qs.len() as int) =~= Seq::empty());
            }
        } else if pid == 0x11 {
            lemma_descriptions(HeadModel { sdt: fed(h.sdt, p).0, ..h }, fed(h.sdt, p).1);
        }
        qs.len() as int
    } else {
        lemma_named_still(ps, p, h.service_id as int, h.pmt_pid as int);
        let tail = ps.skip(since);
        assert(qs.skip(since) =~= tail.push(p));
        let mid = h.pmt_pid as int;
        lemma_one_more(tail, p, mid);
        if h.found is Some {
            lemma_mapped_still(h.found->0, tail, p, mid);
        }
        if pid != 0 && pid == h.pmt_pid && h.found is None {
            let (reader, secs) = fed(h.pmt, p);
            lemma_maps(HeadModel { pmt: reader, ..h }, secs);
            let n = sections_on(tail, mid).1.len() as int;
            let all = sections_on(qs.skip(since), mid).1;
            if r.found is Some {
                let k = choose|k: int|
                    0 <= k < secs.len() && mapped_by(r.found->0, #[trigger] secs[k]);
                assert(all[n + k] == secs[k]);
            } else {
                assert forall|k: int| 0 <= k < all.len() implies !maps(
                    #[trigger] all[k],
                    h.service_id as int,
                ) by {
                    if k < n {
                        assert(all[k] == sections_on(tail, mid).1[k]);
                    } else {
                        assert(all[k] == secs[k - n]);
                    }
                }
            }
            if h.sdt_section is None {
                lemma_missed_more(ps, p, h.service_id as int);
            }
            if h.sdt_section is Some {
                let k = choose|k: int|
                    0 <= k < sections_on(qs, 0x11).1.len() && gave(
                        h,
                        #[trigger] sections_on(qs, 0x11).1[k],
                    );
                assert(gave(r, sections_on(qs, 0x11).1[k]));
            }
        } else if pid == 0x11 && h.sdt_section is None {
            let (reader, secs) = fed(h.sdt, p);
            lemma_descriptions(HeadModel { sdt: reader, ..h }, secs);
            if r.sdt_section is Some {
                let k = choose|k: int| 0 <= k < secs.len() && gave(r, #[trigger] secs[k]);
                let n = sections_on(ps, 0x11).1.len() as int;
                assert(sections_on(qs, 0x11).1[n + k] == secs[k]);
            } else {
                lemma_none_lists(secs, h.service_id);
                lemma_missed_more(ps, p, h.service_id as int);
            }
        } else if h.sdt_section is None {
            lemma_missed_more(ps, p, h.service_id as int);
        }
        since
    }
}

/// The packets of a recording, from one place of it on.
pub open spec fn packets_from(buf: Seq<u8>, at: int, stride: int) -> Seq<Seq<u8>>
    decreases buf.len() - at,
{
    if at < 0 || stride <= 0 || at + 188 > buf.len() {
        Seq::empty()
    } else {
        let rest = match next_packet(buf, at, stride) {
            Some(next) => if at < next <= buf.len() {
                packets_from(buf, next, stride)
            } else {
                Seq::empty()
            },
            None => Seq::empty(),
        };
        if buf[at] == 0x47 {
            seq![buf.subrange(at, at + 188)] + rest
        } else {
            rest
        }
    }
}

/// Where no packet is damaged, the packets of a recording are what stands at
/// every step of the grid.
#[verifier::spinoff_prover]
#[verifier::rlimit(60)]
pub proof fn law_every_packet_on_the_grid_is_read(buf: Seq<u8>, at: int, stride: int, k: int)
    requires
        0 <= at,
        188 <= stride,
        0 <= k,
        at + k * stride + 188 <= buf.len(),
        forall|j: int| #![trigger buf[at + j * stride]] 0 <= j <= k ==> buf[at + j * stride] == 0x47,
    ensures
        k < packets_from(buf, at, stride).len(),
        packets_from(buf, at, stride)[k] == buf.subrange(
            at + k * stride,
            at + k * stride + 188,
        ),
    decreases k,
{
    assert(k * stride >= 0) by (nonlinear_arith)
        requires
            0 <= k,
            188 <= stride,
    ;
    assert(buf[at + 0 * stride] == 0x47);
    assert(buf[at] == 0x47);
    let next = at + stride;
    if k > 0 {
        assert(k * stride == (k - 1) * stride + stride) by (nonlinear_arith);
        assert((k - 1) * stride >= 0) by (nonlinear_arith)
            requires
                1 <= k,
                188 <= stride,
        ;
        assert forall|j: int| #![trigger buf[next + j * stride]] 0 <= j <= k - 1 implies buf[next
            + j * stride] == 0x47 by {
            assert(next + j * stride == at + (j + 1) * stride) by (nonlinear_arith)
                requires
                    next == at + stride,
            ;
            assert(buf[at + (j + 1) * stride] == 0x47);
        }
        law_every_packet_on_the_grid_is_read(buf, next, stride, k - 1);
        let rest = packets_from(buf, next, stride);
        assert(packets_from(buf, at, stride) == seq![buf.subrange(at, at + 188)] + rest);
        assert(packets_from(buf, at, stride)[k] == rest[k - 1]);
    }
}

#[verifier::spinoff_prover]
#[verifier::rlimit(40)]
proof fn lemma_reading(
    h: HeadModel,
    ps: Seq<Seq<u8>>,
    since: int,
    buf: Seq<u8>,
    at: int,
    stride: int,
) -> (end: (int, int))
    requires
        heard(h, ps, since),
        maps_are_named(ps + packets_from(buf, at, stride)),
    ensures
        ({
            let (all, r) = (
                ps + packets_from(buf, at, stride),
                head_from(h, buf, at, stride),
            );
            &&& ps.len() <= end.0 <= all.len()
            &&& heard(r, all.take(end.0), end.1)
            &&& r.found is None || r.sdt_section is None ==> end.0 == all.len()
        }),
    decreases buf.len() - at,
{
    let all = ps + packets_from(buf, at, stride);
    if at < 0 || stride <= 0 || at + 188 > buf.len() {
        assert(all.take(ps.len() as int) =~= ps);
        (ps.len() as int, since)
    } else if buf[at] == 0x47 {
        let p = buf.subrange(at, at + 188);
        let rest = match next_packet(buf, at, stride) {
            Some(next) => if at < next <= buf.len() {
                packets_from(buf, next, stride)
            } else {
                Seq::empty()
            },
            None => Seq::empty(),
        };
        let qs = ps.push(p);
        assert(all =~= qs + rest);
        assert(all.take(qs.len() as int) =~= qs);
        lemma_named_prefix(all, qs.len() as int);
        let now = lemma_heard_step(h, ps, since, p);
        let seen = with_packet(h, p);
        if seen.found is Some && seen.sdt_section is Some {
            (qs.len() as int, now)
        } else {
            match next_packet(buf, at, stride) {
                Some(next) => if at < next <= buf.len() {
                    lemma_reading(seen, qs, now, buf, next, stride)
                } else {
                    (qs.len() as int, now)
                },
                None => (qs.len() as int, now),
            }
        }
    } else {
        assert(all.take(ps.len() as int) =~= ps);
        match next_packet(buf, at, stride) {
            Some(next) => if at < next <= buf.len() {
                lemma_reading(h, ps, since, buf, next, stride)
            } else {
                (ps.len() as int, since)
            },
            None => (ps.len() as int, since),
        }
    }
}

proof fn lemma_named_prefix(all: Seq<Seq<u8>>, n: int)
    requires
        maps_are_named(all),
        0 <= n <= all.len(),
    ensures
        maps_are_named(all.take(n)),
{
    lemma_prefix(all, n, 0);
    assert forall|k: int, number: int, pid: int|
        0 <= k < sections_on(all.take(n), 0).1.len() && #[trigger] names(
            sections_on(all.take(n), 0).1[k],
            number,
            pid,
        ) implies pid != 0 && pid != 0x11 by {
        assert(sections_on(all, 0).1[k] == sections_on(all.take(n), 0).1[k]);
        assert(names(sections_on(all, 0).1[k], number, pid));
    }
}

/// How far a reading of a recording goes, and what it then holds.
proof fn lemma_read(buf: Seq<u8>, base: int, stride: int) -> (end: (int, int))
    requires
        maps_are_named(packets_from(buf, base, stride)),
    ensures
        ({
            let ps = packets_from(buf, base, stride);
            let h = head_from(head_start(), buf, base, stride);
            &&& 0 <= end.0 <= ps.len()
            &&& heard(h, ps.take(end.0), end.1)
            &&& h.found is None || h.sdt_section is None ==> end.0 == ps.len()
        }),
{
    let ps = packets_from(buf, base, stride);
    let h0 = head_start();
    let none: Seq<Seq<u8>> = Seq::empty();
    assert(heard(h0, none, 0));
    assert(none + ps =~= ps);
    lemma_reading(h0, none, 0, buf, base, stride)
}

/// A programme named by the first of some packets is named by all.
proof fn lemma_named_by_all(ps: Seq<Seq<u8>>, n: int, number: int, pid: int)
    requires
        0 <= n <= ps.len(),
        is_named(ps.take(n), number, pid),
    ensures
        is_named(ps, number, pid),
{
    lemma_prefix(ps, n, 0);
    let k = choose|k: int|
        0 <= k < sections_on(ps.take(n), 0).1.len() && names(
            #[trigger] sections_on(ps.take(n), 0).1[k],
            number,
            pid,
        );
    assert(sections_on(ps, 0).1[k] == sections_on(ps.take(n), 0).1[k]);
}

/// Whether a service is as one of the maps says that stand on a PID, from one
/// packet on.
pub open spec fn is_mapped(ps: Seq<Seq<u8>>, s: ServiceModel, from: int) -> bool {
    exists|k: int|
        0 <= k < sections_on(ps.skip(from), s.pmt_pid as int).1.len() && mapped_by(
            s,
            #[trigger] sections_on(ps.skip(from), s.pmt_pid as int).1[k],
        )
}

proof fn lemma_mapped_by_all(ps: Seq<Seq<u8>>, n: int, s: ServiceModel, from: int)
    requires
        0 <= from <= n <= ps.len(),
        is_mapped(ps.take(n), s, from),
    ensures
        is_mapped(ps, s, from),
{
    let (tail, mid) = (ps.skip(from), s.pmt_pid as int);
    assert(tail.take(n - from) =~= ps.take(n).skip(from));
    lemma_prefix(tail, n - from, mid);
    let k = choose|k: int|
        0 <= k < sections_on(ps.take(n).skip(from), mid).1.len() && mapped_by(
            s,
            #[trigger] sections_on(ps.take(n).skip(from), mid).1[k],
        );
    assert(sections_on(tail, mid).1[k] == sections_on(ps.take(n).skip(from), mid).1[k]);
}

/// A recording is of the first service that an association of its own lists,
/// and that service is as a map says that stands on the PID the association
/// gives and is about that service.
#[verifier::spinoff_prover]
#[verifier::rlimit(60)]
pub proof fn law_a_recording_is_what_its_tables_say(buf: Seq<u8>, base: int, stride: int)
    requires
        framed(buf) == Some((base, stride)),
        maps_are_named(packets_from(buf, base, stride)),
    ensures
        service_in(buf) matches Ok(s) ==> {
            let ps = packets_from(buf, base, stride);
            &&& is_named(ps, s.service_id as int, s.pmt_pid as int)
            &&& exists|from: int| 0 <= from <= ps.len() && #[trigger] is_mapped(ps, s, from)
        },
{
    let ps = packets_from(buf, base, stride);
    let (n, since) = lemma_read(buf, base, stride);
    let h = head_from(head_start(), buf, base, stride);
    if let Some(found) = h.found {
        let s = service_in(buf)->Ok_0;
        lemma_named_by_all(ps, n, s.service_id as int, s.pmt_pid as int);
        let mid = h.pmt_pid as int;
        let k = choose|k: int|
            0 <= k < sections_on(ps.take(n).skip(since), mid).1.len() && mapped_by(
                found,
                #[trigger] sections_on(ps.take(n).skip(since), mid).1[k],
            );
        assert(mapped_by(s, sections_on(ps.take(n).skip(since), mid).1[k]));
        lemma_mapped_by_all(ps, n, s, since);
    }
}

/// A recording is refused only where no association of its own names a service,
/// or none of the sections behind that on the PID it gives is a map of it.
#[verifier::spinoff_prover]
#[verifier::rlimit(60)]
pub proof fn law_a_recording_is_refused_only_without_a_map(buf: Seq<u8>, base: int, stride: int)
    requires
        framed(buf) == Some((base, stride)),
        maps_are_named(packets_from(buf, base, stride)),
    ensures
        service_in(buf) matches Err(e) ==> {
            let ps = packets_from(buf, base, stride);
            &&& e == SiError::NoProgramMap
            &&& (forall|number: int, pid: int| !#[trigger] is_named(ps, number, pid)) || exists|
                number: int,
                pid: int,
                from: int,
            | #[trigger] unmapped(ps, number, pid, from)
        },
{
    let ps = packets_from(buf, base, stride);
    let (n, since) = lemma_read(buf, base, stride);
    let h = head_from(head_start(), buf, base, stride);
    if h.found is None {
        assert(ps.take(n) =~= ps);
        if h.pmt_pid != 0 {
            assert(unmapped(ps, h.service_id as int, h.pmt_pid as int, since));
        } else {
            assert forall|number: int, pid: int| !#[trigger] is_named(ps, number, pid) by {
                if is_named(ps, number, pid) {
                    let k = choose|k: int|
                        0 <= k < sections_on(ps, 0).1.len() && names(
                            #[trigger] sections_on(ps, 0).1[k],
                            number,
                            pid,
                        );
                    assert(!names(sections_on(ps, 0).1[k], number, pid));
                }
            }
        }
    }
}

/// What is kept of a description is the entry it was kept for.
#[verifier::spinoff_prover]
#[verifier::rlimit(60)]
proof fn lemma_kept_of(h: HeadModel, ps: Seq<Seq<u8>>, v: Seq<u8>)
    requires
        gave(h, v),
        sections_on(ps, 0x11).1.contains(v),
    ensures
        word_at(h.sdt_section->0, 11) == h.service_id,
        exists|i: int| kept_of(ps, h.sdt_section->0, h.service_id as int, v, i),
{
    let kept = h.sdt_section->0;
    let e = entry_from(v, h.service_id, 11)->0;
    law_the_entry_found_is_the_services(v, h.service_id);
    law_a_rewritten_description_is_the_entry(v, e);
    let j = choose|j: int|
        #![trigger entries(v, 11)[j]]
        {
            let i = entries(v, 11)[j];
            &&& 0 <= j < entries(v, 11).len()
            &&& word_at(v, i) == h.service_id
            &&& 0 <= i && i + 5 <= i + size_at(v, i) <= v.len()
            &&& e == v.subrange(i, i + size_at(v, i))
            &&& forall|m: int|
                0 <= m < j ==> word_at(v, #[trigger] entries(v, 11)[m]) != h.service_id
        };
    let i = entries(v, 11)[j];
    lemma_entries_behind(v, 11, j);
    assert(entries(v, 11).contains(i));
    assert(kept_of(ps, kept, h.service_id as int, v, i));
    assert(kept.subrange(11, 11 + e.len() as int)[0] == kept[11]);
    assert(kept.subrange(11, 11 + e.len() as int)[1] == kept[12]);
}

#[verifier::spinoff_prover]
#[verifier::rlimit(60)]
proof fn lemma_kept_of_all(h: HeadModel, ps: Seq<Seq<u8>>, n: int)
    requires
        0 <= n <= ps.len(),
        exists|k: int|
            0 <= k < sections_on(ps.take(n), 0x11).1.len() && gave(
                h,
                #[trigger] sections_on(ps.take(n), 0x11).1[k],
            ),
    ensures
        word_at(h.sdt_section->0, 11) == h.service_id,
        is_kept(ps, h.sdt_section->0, h.service_id as int, h.original_network_id as int),
{
    lemma_prefix(ps, n, 0x11);
    let k = choose|k: int|
        0 <= k < sections_on(ps.take(n), 0x11).1.len() && gave(
            h,
            #[trigger] sections_on(ps.take(n), 0x11).1[k],
        );
    let v = sections_on(ps.take(n), 0x11).1[k];
    assert(sections_on(ps, 0x11).1[k] == v);
    lemma_kept_of(h, ps, v);
    let i = choose|i: int| kept_of(ps, h.sdt_section->0, h.service_id as int, v, i);
    assert(kept_of(ps, h.sdt_section->0, h.service_id as int, v, i));
}

/// Whether a kept description is a service's entry out of one of the
/// descriptions some packets complete, which is of this network.
pub open spec fn is_kept(ps: Seq<Seq<u8>>, kept: Seq<u8>, service: int, network: int) -> bool {
    exists|v: Seq<u8>, i: int|
        #[trigger] kept_of(ps, kept, service, v, i) && network == word_at(v, 8)
}

/// The description kept of a recording is about its own service and no other:
/// it is that service's entry, out of a description the recording carries.
pub proof fn law_the_description_kept_is_the_services(buf: Seq<u8>, base: int, stride: int)
    requires
        framed(buf) == Some((base, stride)),
        maps_are_named(packets_from(buf, base, stride)),
    ensures
        service_in(buf) is Ok && (service_in(buf)->Ok_0).sdt is Some ==> {
            let s = service_in(buf)->Ok_0;
            let ps = packets_from(buf, base, stride);
            &&& word_at(s.sdt->0, 11) == s.service_id
            &&& is_kept(ps, s.sdt->0, s.service_id as int, s.original_network_id as int)
        },
{
    let ps = packets_from(buf, base, stride);
    let (n, since) = lemma_read(buf, base, stride);
    let h = head_from(head_start(), buf, base, stride);
    if h.found is Some && h.sdt_section is Some {
        lemma_kept_of_all(h, ps, n);
    }
}

/// A description is kept wherever one that comes once an association has been
/// read lists the service, in whatever place.
pub proof fn law_a_listed_service_has_its_description_kept(buf: Seq<u8>, base: int, stride: int)
    requires
        framed(buf) == Some((base, stride)),
        maps_are_named(packets_from(buf, base, stride)),
    ensures
        service_in(buf) is Ok && (service_in(buf)->Ok_0).sdt is None ==> missed(
            packets_from(buf, base, stride),
            (service_in(buf)->Ok_0).service_id as int,
        ),
{
    let ps = packets_from(buf, base, stride);
    let (n, since) = lemma_read(buf, base, stride);
    let h = head_from(head_start(), buf, base, stride);
    if h.found is Some && h.sdt_section is None {
        assert(ps.take(n) =~= ps);
    }
}

/// Whether a service that an association names is mapped by none of the
/// sections that stand on the PID it gives, from one packet on.
pub open spec fn unmapped(ps: Seq<Seq<u8>>, number: int, pid: int, from: int) -> bool {
    &&& is_named(ps, number, pid)
    &&& 0 <= from <= ps.len()
    &&& forall|k: int|
        0 <= k < sections_on(ps.skip(from), pid).1.len() ==> !maps(
            #[trigger] sections_on(ps.skip(from), pid).1[k],
            number,
        )
}

proof fn lemma_entries_behind(b: Seq<u8>, from: int, k: int)
    requires
        0 <= k < entries(b, from).len(),
    ensures
        entries(b, from)[k] >= from,
    decreases k,
{
    if k > 0 {
        let next = from + size_at(b, from);
        assert(entries(b, from)[k] == entries(b, next)[k - 1]);
        lemma_entries_behind(b, next, k - 1);
    }
}

} // verus!
