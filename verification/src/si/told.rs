//! What a recording's tables say once they have been taken over.
use crate::si::loops::{
    carried_loop, component_named, descriptor_end, descriptor_from, has_descriptor, kept_from,
    may_travel, plain_loop,
};
use crate::si::packet::{
    clock_reference, crc_of, fed, law_a_checked_run_checks_to_nought, payload_at,
};
use crate::si::read::{
    moment_from, moment_start, moment_with_packet, next_packet, snapshot_in, stream_on,
    with_all_events, with_all_times, with_events, MomentModel, ServiceModel, SnapshotModel,
    StreamModel,
};
use crate::si::sections::{
    carried_tag, carried_tags, clock_moved, described_tags, events_from, map_entries, map_entry,
    map_head, map_section, name_in, network_named, of_day, present_in, present_section, pruned,
    stream_rate, time_moved, times_of, to_bcd, whole_from, GraftStream, PresentModel,
};
use vstd::prelude::*;

verus! {

/// The descriptors a loop is made of: each a tag, a length and as many bytes,
/// behind the one before it, as long as they are whole.
pub open spec fn descriptors(b: Seq<u8>) -> Seq<Seq<u8>>
    decreases b.len(),
{
    if b.len() < 2 || b.len() < 2 + b[1] {
        Seq::empty()
    } else {
        seq![b.take(2 + b[1])] + descriptors(b.skip(2 + b[1]))
    }
}

proof fn lemma_one_in_front(d: Seq<u8>, rest: Seq<u8>)
    requires
        d.len() >= 2,
        d.len() == 2 + d[1],
    ensures
        descriptors(d + rest) == seq![d] + descriptors(rest),
{
    let all = d + rest;
    assert(all[1] == d[1]);
    assert(all.take(2 + all[1]) =~= d);
    assert(all.skip(2 + all[1]) =~= rest);
}

proof fn lemma_filter_one(x: Seq<u8>, keep: spec_fn(Seq<u8>) -> bool)
    ensures
        seq![x].filter(keep) == (if keep(x) {
            seq![x]
        } else {
            Seq::empty()
        }),
{
    reveal_with_fuel(Seq::filter, 2);
    assert(seq![x].drop_last() =~= Seq::<Seq<u8>>::empty());
    assert(Seq::<Seq<u8>>::empty().push(x) =~= seq![x]);
}

proof fn lemma_kept_descriptors(bytes: Seq<u8>, i: int, keep: spec_fn(Seq<u8>) -> bool)
    requires
        0 <= i <= bytes.len(),
    ensures
        descriptors(kept_from(bytes, i, keep)) == descriptors(bytes.skip(i)).filter(keep),
    decreases bytes.len() - i,
{
    let here = bytes.skip(i);
    reveal(Seq::filter);
    if has_descriptor(bytes, i) {
        let end = descriptor_end(bytes, i);
        let whole = bytes.subrange(i, end);
        let rest = kept_from(bytes, end, keep);
        lemma_kept_descriptors(bytes, end, keep);
        assert(here.take(2 + here[1]) =~= whole);
        assert(here.skip(2 + here[1]) =~= bytes.skip(end));
        Seq::filter_distributes_over_add(seq![whole], descriptors(bytes.skip(end)), keep);
        lemma_filter_one(whole, keep);
        let tail = descriptors(bytes.skip(end)).filter(keep);
        assert(Seq::<Seq<u8>>::empty() + tail =~= tail);
        if keep(whole) {
            lemma_one_in_front(whole, rest);
        } else {
            assert(Seq::<u8>::empty() + rest =~= rest);
        }
    } else {
        assert(descriptors(here) =~= Seq::empty());
        assert(Seq::<Seq<u8>>::empty().filter(keep) =~= Seq::empty());
        assert(descriptors(Seq::<u8>::empty()) =~= Seq::empty());
    }
}

/// Whether a descriptor names a component, and which.
pub open spec fn speaks_of(d: Seq<u8>, tag: u8) -> bool {
    d.len() >= 5 && (d[0] == 0x50 || d[0] == 0xC4 || d[0] == 0xC7) && d[4] == tag
}

/// Of a loop, every descriptor travels but those that speak of a component that
/// was described and is not carried; whole, and in order.
pub proof fn law_what_is_said_of_missing_streams_stays_behind(
    b: Seq<u8>,
    described: Set<u8>,
    carried: Set<u8>,
)
    ensures
        descriptors(carried_loop(b, described, carried)) == descriptors(b).filter(
            |d: Seq<u8>|
                forall|tag: u8| #[trigger]
                    speaks_of(d, tag) && described.contains(tag) ==> carried.contains(tag),
        ),
{
    let own = |d: Seq<u8>| may_travel(described, carried, d);
    let said = |d: Seq<u8>|
        forall|tag: u8| #[trigger]
            speaks_of(d, tag) && described.contains(tag) ==> carried.contains(tag);
    assert forall|d: Seq<u8>| #[trigger] own(d) == said(d) by {
        if component_named(d) is Some {
            assert(speaks_of(d, d[4]));
        }
        if !said(d) {
            let tag = choose|tag: u8|
                #[trigger] speaks_of(d, tag) && described.contains(tag) && !carried.contains(tag);
            assert(speaks_of(d, tag));
        }
    }
    assert(own =~= said);
    lemma_kept_descriptors(b, 0, own);
    assert(b.skip(0) =~= b);
}

/// Of a stream's descriptors, those about scrambling are dropped, and no others.
pub proof fn law_nothing_is_said_of_scrambling(b: Seq<u8>)
    ensures
        descriptors(plain_loop(b)) == descriptors(b).filter(|d: Seq<u8>| d[0] != 9),
{
    let own = |d: Seq<u8>| d[0] != crate::si::loops::CONDITIONAL_ACCESS;
    let said = |d: Seq<u8>| d[0] != 9;
    assert(own =~= said);
    lemma_kept_descriptors(b, 0, own);
    assert(b.skip(0) =~= b);
}

/// What is found under a tag is what the first descriptor of that tag holds;
/// nothing is exactly where there is none.
#[verifier::spinoff_prover]
#[verifier::rlimit(60)]
pub proof fn law_the_first_descriptor_of_a_tag_is_found(bytes: Seq<u8>, tag: u8, i: int)
    requires
        0 <= i <= bytes.len(),
    ensures
        ({
            let all = descriptors(bytes.skip(i));
            match descriptor_from(bytes, tag, i) {
                Some(body) => exists|k: int|
                    0 <= k < all.len() && (#[trigger] all[k])[0] == tag && all[k].skip(2) == body
                        && forall|j: int| 0 <= j < k ==> (#[trigger] all[j])[0] != tag,
                None => forall|j: int| 0 <= j < all.len() ==> (#[trigger] all[j])[0] != tag,
            }
        }),
    decreases bytes.len() - i,
{
    let here = bytes.skip(i);
    let all = descriptors(here);
    if has_descriptor(bytes, i) {
        let end = descriptor_end(bytes, i);
        let whole = bytes.subrange(i, end);
        assert(here.take(2 + here[1]) =~= whole);
        assert(here.skip(2 + here[1]) =~= bytes.skip(end));
        let rest = descriptors(bytes.skip(end));
        assert(all == seq![whole] + rest);
        assert(all[0] == whole);
        assert(forall|j: int| 0 <= j < rest.len() ==> all[j + 1] == #[trigger] rest[j]);
        if bytes[i] == tag {
            assert(all[0].skip(2) =~= bytes.subrange(i + 2, end));
        } else {
            law_the_first_descriptor_of_a_tag_is_found(bytes, tag, end);
            assert(forall|j: int| 1 <= j < all.len() ==> #[trigger] all[j] == rest[j - 1]);
            if let Some(body) = descriptor_from(bytes, tag, end) {
                let k = choose|k: int|
                    0 <= k < rest.len() && (#[trigger] rest[k])[0] == tag && rest[k].skip(2)
                        == body && forall|j: int| 0 <= j < k ==> (#[trigger] rest[j])[0] != tag;
                assert(all[k + 1] == rest[k]);
                assert forall|j: int| 0 <= j < k + 1 implies (#[trigger] all[j])[0] != tag by {
                    if j > 0 {
                        assert(rest[j - 1][0] != tag);
                    }
                }
            }
        }
    }
}

/// Whether a section is about what is on and what is next of a service.
pub open spec fn is_guide(sec: Seq<u8>, service: u16) -> bool {
    sec.len() >= 18 && sec[0] == 0x4E && sec[3] * 256 + sec[4] == service
}

/// Whether what has been kept of a moment is about the service and the time:
/// each section of the guide once.
pub open spec fn fits(m: MomentModel, service: u16) -> bool {
    let eit = m.held.eit;
    &&& forall|i: int| 0 <= i < eit.len() ==> is_guide(#[trigger] eit[i], service)
    &&& forall|i: int, j: int| 0 <= i < j < eit.len() ==> #[trigger] eit[i][6] != #[trigger] eit[j][6]
    &&& forall|n: u8| #[trigger]
        m.seen.contains(n) <==> exists|i: int| 0 <= i < eit.len() && #[trigger] eit[i][6] == n
    &&& m.held.tot matches Some(sec) ==> sec[0] == 0x73
    &&& m.held.tdt matches Some(sec) ==> sec[0] == 0x70
}

/// Whether one moment has all that another had.
pub open spec fn has_all_of(now: MomentModel, was: MomentModel) -> bool {
    &&& was.held.eit.len() <= now.held.eit.len()
    &&& now.held.eit.take(was.held.eit.len() as int) == was.held.eit
    &&& was.held.tot is Some ==> now.held.tot == was.held.tot
    &&& was.held.tdt is Some ==> now.held.tdt == was.held.tdt
}

proof fn lemma_one_event(m: MomentModel, sec: Seq<u8>, service: u16)
    requires
        fits(m, service),
    ensures
        fits(with_events(m, sec, service), service),
        has_all_of(with_events(m, sec, service), m),
        is_guide(sec, service) ==> exists|i: int|
            0 <= i < with_events(m, sec, service).held.eit.len() && #[trigger] with_events(
                m,
                sec,
                service,
            ).held.eit[i][6] == sec[6],
{
    let now = with_events(m, sec, service);
    let (a, b) = (m.held.eit, now.held.eit);
    if b.len() > a.len() {
        assert(b == a.push(sec));
        assert(b.take(a.len() as int) =~= a);
        assert forall|i: int| 0 <= i < a.len() implies #[trigger] a[i][6] != sec[6] by {
            assert(!m.seen.contains(sec[6]));
        }
        assert(b[a.len() as int][6] == sec[6]);
        assert forall|n: u8| #[trigger] now.seen.contains(n) <==> (exists|i: int|
            0 <= i < b.len() && #[trigger] b[i][6] == n) by {
            if m.seen.contains(n) {
                let i = choose|i: int| 0 <= i < a.len() && #[trigger] a[i][6] == n;
                assert(b[i][6] == n);
            }
            if exists|i: int| 0 <= i < b.len() && #[trigger] b[i][6] == n {
                let i = choose|i: int| 0 <= i < b.len() && #[trigger] b[i][6] == n;
                if i < a.len() {
                    assert(a[i][6] == n);
                }
            }
        }
    } else {
        assert(a.take(a.len() as int) =~= a);
    }
}

proof fn lemma_has_all(c: MomentModel, b: MomentModel, a: MomentModel)
    requires
        has_all_of(c, b),
        has_all_of(b, a),
    ensures
        has_all_of(c, a),
{
    assert(c.held.eit.take(a.held.eit.len() as int) =~= c.held.eit.take(
        b.held.eit.len() as int,
    ).take(a.held.eit.len() as int));
}

proof fn lemma_events(m: MomentModel, secs: Seq<Seq<u8>>, service: u16, k: int)
    requires
        fits(m, service),
    ensures
        fits(with_all_events(m, secs, service), service),
        has_all_of(with_all_events(m, secs, service), m),
        0 <= k < secs.len() && is_guide(secs[k], service) ==> exists|i: int|
            0 <= i < with_all_events(m, secs, service).held.eit.len()
                && #[trigger] with_all_events(m, secs, service).held.eit[i][6] == secs[k][6],
    decreases secs.len(),
{
    if secs.len() > 0 {
        let less = with_all_events(m, secs.drop_last(), service);
        lemma_events(m, secs.drop_last(), service, k);
        lemma_one_event(less, secs.last(), service);
        let now = with_all_events(m, secs, service);
        lemma_has_all(now, less, m);
        if 0 <= k < secs.len() - 1 && is_guide(secs[k], service) {
            let i = choose|i: int|
                0 <= i < less.held.eit.len() && #[trigger] less.held.eit[i][6] == secs[k][6];
            assert(now.held.eit[i] == now.held.eit.take(less.held.eit.len() as int)[i]);
            assert(now.held.eit[i][6] == secs[k][6]);
        }
    } else {
        assert(m.held.eit.take(m.held.eit.len() as int) =~= m.held.eit);
    }
}

proof fn lemma_times(m: MomentModel, secs: Seq<Seq<u8>>, service: u16, k: int)
    requires
        fits(m, service),
    ensures
        fits(with_all_times(m, secs), service),
        has_all_of(with_all_times(m, secs), m),
        0 <= k < secs.len() && secs[k][0] == 0x73 ==> with_all_times(m, secs).held.tot is Some,
        0 <= k < secs.len() && secs[k][0] == 0x70 ==> with_all_times(m, secs).held.tdt is Some,
    decreases secs.len(),
{
    assert(m.held.eit.take(m.held.eit.len() as int) =~= m.held.eit);
    if secs.len() > 0 {
        let less = with_all_times(m, secs.drop_last());
        lemma_times(m, secs.drop_last(), service, k);
        let now = with_all_times(m, secs);
        assert(less.held.eit.take(less.held.eit.len() as int) =~= less.held.eit);
        assert(has_all_of(now, less));
        lemma_has_all(now, less, m);
    }
}

/// One packet leaves all that was kept; what it adds is about the service and
/// the time. Every section of the guide about the service that it ends is kept,
/// unless one of its number already is, and so is the first time told.
pub proof fn law_a_packet_adds_what_it_tells(
    m: MomentModel,
    p: Seq<u8>,
    service: u16,
    k: int,
)
    requires
        fits(m, service),
    ensures
        ({
            let now = moment_with_packet(m, p, service);
            let (guide, time) = (fed(m.eit, p).1, fed(m.tdt, p).1);
            let pid = (p[1] % 32) * 256 + p[2];
            &&& fits(now, service)
            &&& has_all_of(now, m)
            &&& pid == 0x12 && 0 <= k < guide.len() && is_guide(guide[k], service)
                ==> exists|i: int|
                0 <= i < now.held.eit.len() && #[trigger] now.held.eit[i][6] == guide[k][6]
            &&& pid == 0x14 && 0 <= k < time.len() && time[k][0] == 0x73 ==> now.held.tot is Some
            &&& pid == 0x14 && 0 <= k < time.len() && time[k][0] == 0x70 ==> now.held.tdt is Some
            &&& pid != 0x12 && pid != 0x14 ==> now == m
        }),
{
    reveal(moment_with_packet);
    assert(m.held.eit.take(m.held.eit.len() as int) =~= m.held.eit);
    let (a, guide) = fed(m.eit, p);
    let (b, time) = fed(m.tdt, p);
    let m1 = MomentModel { eit: a, ..m };
    let m2 = MomentModel { tdt: b, ..m };
    assert(fits(m1, service) && has_all_of(m1, m));
    assert(fits(m2, service) && has_all_of(m2, m));
    lemma_events(m1, guide, service, k);
    lemma_has_all(with_all_events(m1, guide, service), m1, m);
    lemma_times(m2, time, service, k);
    lemma_has_all(with_all_times(m2, time), m2, m);
}

proof fn lemma_moment(m: MomentModel, buf: Seq<u8>, at: int, stride: int, service: u16)
    requires
        fits(m, service),
    ensures
        fits(moment_from(m, buf, at, stride, service), service),
        has_all_of(moment_from(m, buf, at, stride, service), m),
    decreases buf.len() - at,
{
    assert(m.held.eit.take(m.held.eit.len() as int) =~= m.held.eit);
    if 0 <= at && stride > 0 && at + 188 <= buf.len() {
        let p = buf.subrange(at, at + 188);
        law_a_packet_adds_what_it_tells(m, p, service, 0);
        let seen = if buf[at] == 0x47 {
            moment_with_packet(m, p, service)
        } else {
            m
        };
        if let Some(next) = next_packet(buf, at, stride) {
            if at < next <= buf.len() {
                lemma_moment(seen, buf, next, stride, service);
                lemma_has_all(moment_from(seen, buf, next, stride, service), seen, m);
            }
        }
    }
}

/// Whatever is kept of a moment is about the service it was asked of: no
/// section of the guide is another service's, another table's, or there twice.
pub proof fn law_a_snapshot_is_about_the_service(buf: Seq<u8>, service: u16)
    ensures
        ({
            let s = snapshot_in(buf, service);
            &&& forall|i: int| 0 <= i < s.eit.len() ==> is_guide(#[trigger] s.eit[i], service)
            &&& forall|i: int, j: int|
                0 <= i < j < s.eit.len() ==> #[trigger] s.eit[i][6] != #[trigger] s.eit[j][6]
            &&& s.tot matches Some(sec) ==> sec[0] == 0x73
            &&& s.tdt matches Some(sec) ==> sec[0] == 0x70
        }),
{
    assert(fits(moment_start(), service));
    if let Some((base, stride)) = crate::si::packet::framed(buf) {
        lemma_moment(moment_start(), buf, base, stride, service);
    }
}

/// The time of day two decimal digits to a byte spell, in seconds.
pub open spec fn time_of_day(b: Seq<u8>) -> int {
    ((b[5] / 16) * 10 + b[5] % 16) * 3600 + ((b[6] / 16) * 10 + b[6] % 16) * 60 + (b[7] / 16) * 10
        + b[7] % 16
}

/// Whether they spell one.
pub open spec fn spells_a_time_of_day(b: Seq<u8>) -> bool {
    b[5] % 16 <= 9 && b[6] / 16 <= 5 && b[6] % 16 <= 9 && b[7] / 16 <= 5 && b[7] % 16 <= 9
        && time_of_day(b) < 86_400
}

/// The day.
pub open spec fn day_of(b: Seq<u8>) -> int {
    b[3] * 256 + b[4]
}

proof fn lemma_two_digits(v: int)
    requires
        0 <= v < 100,
    ensures
        to_bcd(v) / 16 == v / 10,
        to_bcd(v) % 16 == v % 10,
{
    let (hi, lo) = (((v / 10) * 16) as u8, (v % 10) as u8);
    let d = (v / 10) as u8;
    assert(hi == d * 16);
    assert(hi == d * 16 && d < 10 && lo < 10 ==> (hi | lo) / 16 == d && (hi | lo) % 16 == lo)
        by (bit_vector);
}

/// A clock that is moved on says the moment it stood at, and so many seconds
/// more: it spells a time of day, and days and seconds make up the sum. The day
/// counts round at two bytes. Nothing else about it changes but the check a
/// section of its kind ends in, which is made good.
#[verifier::spinoff_prover]
#[verifier::rlimit(60)]
pub proof fn law_a_moved_clock_says_the_moment(b: Seq<u8>, seconds: int)
    requires
        b.len() >= 8,
        b[0] == 0x73 ==> b.len() >= 12,
        spells_a_time_of_day(b),
        0 <= seconds,
        day_of(b) * 86_400 + time_of_day(b) + seconds < 65_536 * 86_400,
    ensures
        time_moved(b, seconds) matches Some(out) && {
            &&& out.len() == b.len()
            &&& spells_a_time_of_day(out)
            &&& day_of(out) * 86_400 + time_of_day(out) == day_of(b) * 86_400 + time_of_day(b)
                + seconds
            &&& forall|i: int|
                0 <= i < b.len() && !(3 <= i < 8) && (b[0] != 0x73 || i < b.len() - 4)
                    ==> #[trigger] out[i] == b[i]
            &&& b[0] == 0x73 ==> crc_of(out) == 0
        },
{
    let total = of_day(b) + seconds;
    assert(of_day(b) == time_of_day(b));
    let days = if total >= 86_400 {
        total / 86_400
    } else {
        0
    };
    let left = total - days * 86_400;
    assert(0 <= left < 86_400);
    let day = b[3] * 256 + b[4] + days;
    assert(day < 65_536);
    let (h, m, s) = (left / 3600, left / 60 % 60, left % 60);
    assert(left == h * 3600 + m * 60 + s);
    assert(0 <= h < 24 && 0 <= m < 60 && 0 <= s < 60);
    lemma_two_digits(h);
    lemma_two_digits(m);
    lemma_two_digits(s);
    let moved = clock_moved(b, seconds);
    assert(moved[5] == to_bcd(h) && moved[6] == to_bcd(m) && moved[7] == to_bcd(s));
    assert(moved[3] == day / 256 && moved[4] == day % 256);
    assert(day_of(moved) == day);
    assert(time_of_day(moved) == left);
    if b[0] == 0x73 {
        let body = moved.take(moved.len() - 4);
        law_a_checked_run_checks_to_nought(body);
    }
}

/// A section too short to hold a clock is not moved.
pub proof fn law_a_short_clock_is_left(b: Seq<u8>, seconds: int)
    ensures
        time_moved(b, seconds) is None <==> b.len() < 8,
{
}

/// The entries of a map are those of its streams, one behind the other.
pub proof fn law_the_entries_stand_in_order(
    streams: Seq<StreamModel>,
    a: Seq<GraftStream>,
    b: Seq<GraftStream>,
)
    ensures
        map_entries(streams, a + b) == map_entries(streams, a) + map_entries(streams, b),
        a.len() == 1 ==> map_entries(streams, a) == map_entry(streams, a[0]),
    decreases b.len(),
{
    if b.len() > 0 {
        law_the_entries_stand_in_order(streams, a, b.drop_last());
        assert((a + b).drop_last() =~= a + b.drop_last());
        assert((a + b).last() == b.last());
        assert(map_entries(streams, a + b) =~= map_entries(streams, a) + map_entries(streams, b));
    } else {
        assert(a + b =~= a);
        assert(map_entries(streams, a) + Seq::<u8>::empty() =~= map_entries(streams, a));
    }
    if a.len() == 1 {
        assert(a.drop_last() =~= Seq::empty());
        assert(map_entries(streams, a.drop_last()) =~= Seq::empty());
        assert(Seq::<u8>::empty() + map_entry(streams, a[0]) =~= map_entry(streams, a[0]));
    }
}

proof fn lemma_stream_on(streams: Seq<StreamModel>, pid: u16, k: int, i: int)
    requires
        0 <= i <= k < streams.len(),
        streams[k].pid == pid,
        forall|j: int| 0 <= j < k ==> (#[trigger] streams[j]).pid != pid,
    ensures
        stream_on(streams, pid, i) == Some(streams[k]),
    decreases k - i,
{
    if i < k {
        assert(streams[i].pid != pid);
        lemma_stream_on(streams, pid, k, i + 1);
    }
}

proof fn lemma_stream_off(streams: Seq<StreamModel>, pid: u16, i: int)
    requires
        0 <= i <= streams.len(),
        forall|j: int| 0 <= j < streams.len() ==> (#[trigger] streams[j]).pid != pid,
    ensures
        stream_on(streams, pid, i) is None,
    decreases streams.len() - i,
{
    if i < streams.len() {
        assert(streams[i].pid != pid);
        lemma_stream_off(streams, pid, i + 1);
    }
}

/// The entry of a stream that is kept says what the recording says of it: its
/// kind, its PID and, where it is carried as it was, all its descriptors. One
/// the recording says nothing of has no entry.
pub proof fn law_an_entry_says_what_the_recording_did(
    streams: Seq<StreamModel>,
    kept: GraftStream,
    k: int,
)
    requires
        kept.pid < 8192,
        forall|j: int| 0 <= j < streams.len() ==> (#[trigger] streams[j]).descriptors.len() < 4096,
    ensures
        0 <= k < streams.len() && streams[k].pid == kept.pid && (forall|j: int|
            0 <= j < k ==> (#[trigger] streams[j]).pid != kept.pid) ==> {
            let e = map_entry(streams, kept);
            &&& e.len() >= 5
            &&& e[0] == streams[k].stream_type
            &&& (e[1] % 32) * 256 + e[2] == kept.pid
            &&& (e[3] % 16) * 256 + e[4] == e.len() - 5
            &&& kept.faithful ==> e.skip(5) == streams[k].descriptors
        },
        (forall|j: int| 0 <= j < streams.len() ==> (#[trigger] streams[j]).pid != kept.pid)
            ==> map_entry(streams, kept).len() == 0,
{
    if 0 <= k < streams.len() && streams[k].pid == kept.pid && (forall|j: int|
        0 <= j < k ==> (#[trigger] streams[j]).pid != kept.pid) {
        lemma_stream_on(streams, kept.pid, k, 0);
        let s = streams[k];
        let e = map_entry(streams, kept);
        assert(s.descriptors.len() < 4096);
        assert(e.len() >= 5);
        if kept.faithful {
            assert(e.skip(5) =~= s.descriptors);
        }
    }
    if forall|j: int| 0 <= j < streams.len() ==> (#[trigger] streams[j]).pid != kept.pid {
        lemma_stream_off(streams, kept.pid, 0);
    }
}

/// A stream that was made again keeps only the tag it was known by: the first
/// byte of its first stream identifier.
#[verifier::spinoff_prover]
#[verifier::rlimit(60)]
pub proof fn law_a_stream_made_again_keeps_its_tag(
    streams: Seq<StreamModel>,
    kept: GraftStream,
    k: int,
    d: int,
)
    requires
        0 <= k < streams.len(),
        streams[k].pid == kept.pid,
        forall|j: int| 0 <= j < k ==> (#[trigger] streams[j]).pid != kept.pid,
        !kept.faithful,
    ensures
        ({
            let all = descriptors(streams[k].descriptors);
            let e = map_entry(streams, kept);
            &&& (0 <= d < all.len() && all[d][0] == 0x52 && all[d].len() > 2 && (forall|j: int|
                0 <= j < d ==> (#[trigger] all[j])[0] != 0x52)) ==> e.len() == 8 && e[5] == 0x52
                && e[7] == all[d][2]
            &&& (forall|j: int| 0 <= j < all.len() ==> (#[trigger] all[j])[0] != 0x52) ==> e.len()
                == 5
        }),
{
    lemma_stream_on(streams, kept.pid, k, 0);
    let b = streams[k].descriptors;
    law_the_first_descriptor_of_a_tag_is_found(b, 0x52, 0);
    assert(b.skip(0) =~= b);
    let all = descriptors(b);
    if 0 <= d < all.len() && all[d][0] == 0x52 && all[d].len() > 2 && (forall|j: int|
        0 <= j < d ==> (#[trigger] all[j])[0] != 0x52) {
        let body = descriptor_from(b, 0x52, 0)->0;
        let i = choose|i: int|
            0 <= i < all.len() && (#[trigger] all[i])[0] == 0x52 && all[i].skip(2) == body
                && forall|j: int| 0 <= j < i ==> (#[trigger] all[j])[0] != 0x52;
        if i < d {
            assert(all[i][0] != 0x52);
        }
        if d < i {
            assert(all[d][0] != 0x52);
        }
        assert(body[0] == all[d][2]);
    }
}

/// A map starts by saying whose it is and where its clock is, and its entries
/// follow what it says of the whole.
pub proof fn law_a_map_is_the_services(service: u16, pcr_pid: u16, info: Seq<u8>)
    requires
        pcr_pid < 8192,
        info.len() < 4096,
    ensures
        ({
            let h = map_head(service, pcr_pid, info);
            &&& h.len() == 12 + info.len()
            &&& h[0] == 2
            &&& h[3] * 256 + h[4] == service
            &&& (h[8] % 32) * 256 + h[9] == pcr_pid
            &&& (h[10] % 16) * 256 + h[11] == info.len()
            &&& h.skip(12) == info
        }),
{
    assert(map_head(service, pcr_pid, info).skip(12) =~= info);
}

/// What is said to be on is what the first section of the guide about the
/// present says: when it started, how long it takes, and its descriptors but for
/// those about streams that stay behind.
pub proof fn law_the_present_event_is_the_guides(
    snapshot: SnapshotModel,
    described: Set<u8>,
    carried: Set<u8>,
    k: int,
)
    requires
        0 <= k < snapshot.eit.len(),
        snapshot.eit[k].len() > 26,
        snapshot.eit[k][6] == 0,
        forall|j: int|
            0 <= j < k ==> (#[trigger] snapshot.eit[j]).len() <= 26 || snapshot.eit[j][6] != 0,
    ensures
        ({
            let sec = snapshot.eit[k];
            let len = (sec[24] % 16) * 256 + sec[25];
            match present_in(snapshot, described, carried) {
                None => 26 + len > sec.len() - 4,
                Some(p) => 26 + len <= sec.len() - 4 && p.version == (sec[5] / 2) % 32 && p.start
                    == sec.subrange(16, 21) && p.duration == sec.subrange(21, 24) && descriptors(
                    p.descriptors,
                ) == descriptors(sec.subrange(26, 26 + len)).filter(
                    |d: Seq<u8>|
                        forall|tag: u8| #[trigger]
                            speaks_of(d, tag) && described.contains(tag) ==> carried.contains(tag),
                ),
            }
        }),
{
    reveal(present_in);
    lemma_present(snapshot.eit, k, 0);
    let sec = snapshot.eit[k];
    let len = (sec[24] % 16) * 256 + sec[25];
    if 26 + len <= sec.len() - 4 {
        law_what_is_said_of_missing_streams_stays_behind(
            sec.subrange(26, 26 + len),
            described,
            carried,
        );
    }
}

proof fn lemma_present(eit: Seq<Seq<u8>>, k: int, i: int)
    requires
        0 <= i <= k < eit.len(),
        eit[k].len() > 26,
        eit[k][6] == 0,
        forall|j: int| 0 <= j < k ==> (#[trigger] eit[j]).len() <= 26 || eit[j][6] != 0,
    ensures
        present_section(eit, i) == Some(eit[k]),
    decreases k - i,
{
    if i < k {
        assert(eit[i].len() <= 26 || eit[i][6] != 0);
        lemma_present(eit, k, i + 1);
    }
}

/// A service's name is the first descriptor of that kind in its description,
/// whole.
pub proof fn law_a_name_is_the_descriptions(sdt: Seq<u8>, k: int)
    requires
        sdt.len() >= 20,
        16 + (sdt[14] % 16) * 256 + sdt[15] <= sdt.len() - 4,
    ensures
        ({
            let all = descriptors(sdt.subrange(16, 16 + (sdt[14] % 16) * 256 + sdt[15]));
            &&& (0 <= k < all.len() && all[k][0] == 0x48 && forall|j: int|
                0 <= j < k ==> (#[trigger] all[j])[0] != 0x48) ==> name_in(sdt) == Some(all[k])
            &&& (forall|j: int| 0 <= j < all.len() ==> (#[trigger] all[j])[0] != 0x48) ==> name_in(
                sdt,
            ) is None
        }),
{
    let b = sdt.subrange(16, 16 + (sdt[14] % 16) * 256 + sdt[15]);
    lemma_whole_from(b, 0x48, 0, k);
    assert(b.skip(0) =~= b);
}

#[verifier::spinoff_prover]
#[verifier::rlimit(60)]
proof fn lemma_whole_from(bytes: Seq<u8>, tag: u8, i: int, k: int)
    requires
        0 <= i <= bytes.len(),
    ensures
        ({
            let all = descriptors(bytes.skip(i));
            &&& (0 <= k < all.len() && all[k][0] == tag && forall|j: int|
                0 <= j < k ==> (#[trigger] all[j])[0] != tag) ==> whole_from(bytes, tag, i)
                == Some(all[k])
            &&& (forall|j: int| 0 <= j < all.len() ==> (#[trigger] all[j])[0] != tag)
                ==> whole_from(bytes, tag, i) is None
        }),
    decreases bytes.len() - i,
{
    let here = bytes.skip(i);
    let all = descriptors(here);
    if has_descriptor(bytes, i) {
        let end = descriptor_end(bytes, i);
        let whole = bytes.subrange(i, end);
        assert(here.take(2 + here[1]) =~= whole);
        assert(here.skip(2 + here[1]) =~= bytes.skip(end));
        let rest = descriptors(bytes.skip(end));
        assert(all == seq![whole] + rest);
        assert(all[0] == whole);
        assert(forall|j: int| 0 <= j < rest.len() ==> all[j + 1] == #[trigger] rest[j]);
        lemma_whole_from(bytes, tag, end, k - 1);
        if bytes[i] == tag {
            if k > 0 && k < all.len() {
                assert(all[0][0] == tag);
            }
        } else if forall|j: int| 0 <= j < all.len() ==> (#[trigger] all[j])[0] != tag {
            assert forall|j: int| 0 <= j < rest.len() implies (#[trigger] rest[j])[0] != tag by {
                assert(all[j + 1][0] != tag);
            }
        } else if 0 < k < all.len() && all[k][0] == tag && forall|j: int|
            0 <= j < k ==> (#[trigger] all[j])[0] != tag {
            assert(rest[k - 1] == all[k]);
            assert forall|j: int| 0 <= j < k - 1 implies (#[trigger] rest[j])[0] != tag by {
                assert(all[j + 1][0] != tag);
            }
        }
    }
}

/// The rate a partial stream says it has, in units of four hundred bits a
/// second, is the one it was given, as far as twenty-two bits go.
pub proof fn law_a_stream_says_its_rate(rate: u32)
    ensures
        ({
            let d = stream_rate(rate);
            let said = (d[2] % 64) * 65_536 + d[3] * 256 + d[4];
            &&& d.len() == 2 + d[1]
            &&& d[0] == 0x63
            &&& rate < 0x40_0000 ==> said == rate
            &&& rate >= 0x40_0000 ==> said == 0x3F_FFFF
        }),
{
}

/// When a programme is on is said as the guide said it.
pub proof fn law_a_programme_says_when_it_is_on(p: PresentModel)
    requires
        p.start.len() == 5,
        p.duration.len() == 3,
    ensures
        ({
            let d = times_of(p);
            &&& d.len() == 2 + d[1]
            &&& d[0] == 0xC3
            &&& d[2] == p.version
            &&& d.subrange(3, 8) == p.start
            &&& d.subrange(8, 11) == p.duration
        }),
{
    let d = times_of(p);
    assert(d.subrange(3, 8) =~= p.start);
    assert(d.subrange(8, 11) =~= p.duration);
}

/// A network is named where it is a satellite's or a terrestrial one: by its
/// kind and its own number.
pub proof fn law_a_network_is_named_by_its_number(network: u16)
    ensures
        match network_named(network) {
            Some(d) => {
                &&& network == 4 || network == 6 || network == 7 || 0x7880 <= network <= 0x7FEF
                &&& d.len() == 2 + d[1]
                &&& d[0] == 0xC2
                &&& d[7] * 256 + d[8] == network
                &&& (d[5], d[6]) == (if network == 4 {
                    (66u8, 83u8)
                } else if network < 8 {
                    (67u8, 83u8)
                } else {
                    (84u8, 66u8)
                })
            },
            None => !(network == 4 || network == 6 || network == 7 || 0x7880 <= network <= 0x7FEF),
        },
{
}

/// Whether a stream of a recording has a component's tag.
pub open spec fn is_tagged(s: StreamModel, tag: u8) -> bool {
    exists|k: int|
        #![trigger descriptors(s.descriptors)[k]]
        0 <= k < descriptors(s.descriptors).len() && descriptors(s.descriptors)[k][0] == 0x52
            && descriptors(s.descriptors)[k].len() > 2 && descriptors(s.descriptors)[k][2] == tag
            && forall|j: int|
            0 <= j < k ==> (#[trigger] descriptors(s.descriptors)[j])[0] != 0x52
}

proof fn lemma_tagged(s: StreamModel, tag: u8)
    ensures
        is_tagged(s, tag) == (crate::si::read::tag_in(s.descriptors) == Some(tag)),
{
    let b = s.descriptors;
    let all = descriptors(b);
    law_the_first_descriptor_of_a_tag_is_found(b, 0x52, 0);
    assert(b.skip(0) =~= b);
    match descriptor_from(b, 0x52, 0) {
        Some(body) => {
            let i = choose|i: int|
                0 <= i < all.len() && (#[trigger] all[i])[0] == 0x52 && all[i].skip(2) == body
                    && forall|j: int| 0 <= j < i ==> (#[trigger] all[j])[0] != 0x52;
            lemma_sized(b, i);
            if body.len() > 0 {
                assert(all[i][2] == body[0]);
                assert(descriptors(s.descriptors)[i].len() > 2);
            }
            if is_tagged(s, tag) {
                let k = choose|k: int|
                    #![trigger descriptors(s.descriptors)[k]]
                    0 <= k < all.len() && descriptors(s.descriptors)[k][0] == 0x52 && descriptors(
                        s.descriptors,
                    )[k].len() > 2 && descriptors(s.descriptors)[k][2] == tag && forall|j: int|
                        0 <= j < k ==> (#[trigger] descriptors(s.descriptors)[j])[0] != 0x52;
                if i < k {
                    assert(all[i][0] != 0x52);
                }
                if k < i {
                    assert(all[k][0] != 0x52);
                }
                assert(all[k].skip(2)[0] == all[k][2]);
            }
        },
        None => {
            assert(forall|j: int| 0 <= j < all.len() ==> (#[trigger] all[j])[0] != 0x52);
        },
    }
}

proof fn lemma_sized(b: Seq<u8>, i: int)
    requires
        0 <= i < descriptors(b).len(),
    ensures
        descriptors(b)[i].len() >= 2,
    decreases b.len(),
{
    if i > 0 {
        lemma_sized(b.skip(2 + b[1]), i - 1);
    }
}

/// The components described are those a stream of the recording has the tag of;
/// those carried are the ones of the streams that are kept as they were.
pub proof fn law_the_tags_are_the_streams(
    streams: Seq<StreamModel>,
    kept: Seq<GraftStream>,
    tag: u8,
    k: int,
    i: int,
)
    requires
        0 <= k < streams.len(),
        forall|j: int| 0 <= j < k ==> (#[trigger] streams[j]).pid != streams[k].pid,
        0 <= i < kept.len(),
        kept[i].pid == streams[k].pid,
    ensures
        is_tagged(streams[k], tag) ==> described_tags(streams).contains(tag),
        is_tagged(streams[k], tag) && kept[i].faithful ==> carried_tags(streams, kept).contains(
            tag,
        ),
{
    lemma_tagged(streams[k], tag);
    lemma_stream_on(streams, streams[k].pid, k, 0);
    if is_tagged(streams[k], tag) && kept[i].faithful {
        assert(carried_tag(streams, kept[i]) == Some(tag));
    }
}

/// No tag is described or carried that no stream has.
pub proof fn law_no_other_tag_is_carried(
    streams: Seq<StreamModel>,
    kept: Seq<GraftStream>,
    tag: u8,
)
    ensures
        described_tags(streams).contains(tag) ==> exists|k: int|
            0 <= k < streams.len() && is_tagged(#[trigger] streams[k], tag),
        carried_tags(streams, kept).contains(tag) ==> exists|k: int, i: int|
            #![trigger streams[k], kept[i]]
            0 <= k < streams.len() && 0 <= i < kept.len() && kept[i].faithful && kept[i].pid
                == streams[k].pid && is_tagged(streams[k], tag),
{
    if described_tags(streams).contains(tag) {
        let k = choose|k: int|
            0 <= k < streams.len() && #[trigger] crate::si::read::tag_in(streams[k].descriptors)
                == Some(tag);
        lemma_tagged(streams[k], tag);
    }
    if carried_tags(streams, kept).contains(tag) {
        let i = choose|i: int|
            0 <= i < kept.len() && #[trigger] carried_tag(streams, kept[i]) == Some(tag);
        lemma_stream_is(streams, kept[i].pid, 0);
        let s = stream_on(streams, kept[i].pid, 0)->0;
        let k = choose|k: int|
            0 <= k < streams.len() && #[trigger] streams[k] == s && s.pid == kept[i].pid;
        lemma_tagged(streams[k], tag);
        assert(kept[i].pid == streams[k].pid);
    }
}

proof fn lemma_stream_is(streams: Seq<StreamModel>, pid: u16, i: int)
    requires
        0 <= i,
    ensures
        stream_on(streams, pid, i) matches Some(s) ==> exists|k: int|
            i <= k < streams.len() && #[trigger] streams[k] == s && s.pid == pid,
    decreases streams.len() - i,
{
    if i < streams.len() {
        if streams[i].pid == pid {
            assert(streams[i] == streams[i]);
        } else {
            lemma_stream_is(streams, pid, i + 1);
        }
    }
}

/// A map is its head and its entries: it is about the service, its clock is the
/// one given, what it says of the whole is what the recording said but for the
/// streams that stay behind, and its entries are those of the streams kept.
pub proof fn law_a_map_is_its_head_and_its_entries(
    service: ServiceModel,
    kept: Seq<GraftStream>,
    pcr_pid: u16,
    described: Set<u8>,
    carried: Set<u8>,
)
    ensures
        ({
            let out = map_section(service, kept, pcr_pid, described, carried);
            let info = carried_loop(service.program_info, described, carried);
            let body = map_head(service.service_id, pcr_pid, info) + map_entries(
                service.streams,
                kept,
            );
            &&& out.len() == body.len() + 4
            &&& forall|i: int|
                0 <= i < body.len() && i != 1 && i != 2 ==> #[trigger] out[i] == body[i]
            &&& crc_of(out) == 0
        }),
{
    let info = carried_loop(service.program_info, described, carried);
    let body = map_head(service.service_id, pcr_pid, info) + map_entries(service.streams, kept);
    law_a_checked_run_checks_to_nought(crate::si::loops::lengthened(body));
}

/// The events a run of bytes is made of: of each, what stands before its
/// descriptors, and its descriptors. Nothing where the bytes do not come out.
pub open spec fn events(b: Seq<u8>) -> Option<Seq<(Seq<u8>, int, Seq<Seq<u8>>)>>
    decreases b.len(),
{
    if b.len() == 0 {
        Some(Seq::empty())
    } else if b.len() < 12 || b.len() < 12 + (b[10] % 16) * 256 + b[11] {
        None
    } else {
        let end = 12 + (b[10] % 16) * 256 + b[11];
        match events(b.skip(end)) {
            Some(rest) => Some(
                seq![(b.take(10), (b[10] / 16) as int, descriptors(b.subrange(12, end)))] + rest,
            ),
            None => None,
        }
    }
}

/// An event without what is said of streams that stay behind.
pub open spec fn without_missing(
    e: (Seq<u8>, int, Seq<Seq<u8>>),
    described: Set<u8>,
    carried: Set<u8>,
) -> (Seq<u8>, int, Seq<Seq<u8>>) {
    (
        e.0,
        e.1,
        e.2.filter(
            |d: Seq<u8>|
                forall|tag: u8| #[trigger]
                    speaks_of(d, tag) && described.contains(tag) ==> carried.contains(tag),
        ),
    )
}

proof fn lemma_one_event_in_front(head: Seq<u8>, kept: Seq<u8>, rest: Seq<u8>)
    requires
        head.len() == 12,
        (head[10] % 16) * 256 + head[11] == kept.len(),
        events(rest) is Some,
    ensures
        events(head + kept + rest) == Some(
            seq![(head.take(10), (head[10] / 16) as int, descriptors(kept))] + events(rest)->0,
        ),
{
    let b = head + kept + rest;
    assert(b[10] == head[10] && b[11] == head[11]);
    let end = 12 + kept.len() as int;
    assert(b.skip(end) =~= rest);
    assert(b.take(10) =~= head.take(10));
    assert(b.subrange(12, end) =~= kept);
}

/// A loop that is as long as it was lost nothing.
proof fn lemma_nothing_dropped(bytes: Seq<u8>, i: int, keep: spec_fn(Seq<u8>) -> bool)
    requires
        0 <= i <= bytes.len(),
        kept_from(bytes, i, keep).len() == bytes.len() - i,
    ensures
        kept_from(bytes, i, keep) == bytes.skip(i),
    decreases bytes.len() - i,
{
    if has_descriptor(bytes, i) {
        let end = descriptor_end(bytes, i);
        crate::si::loops::lemma_kept_is_no_longer(bytes, end, keep);
        lemma_nothing_dropped(bytes, end, keep);
        assert(bytes.skip(i) =~= bytes.subrange(i, end) + bytes.skip(end));
    } else {
        assert(bytes.skip(i) =~= Seq::empty());
    }
}

#[verifier::spinoff_prover]
#[verifier::rlimit(60)]
proof fn lemma_events_from(body: Seq<u8>, at: int, described: Set<u8>, carried: Set<u8>)
    requires
        0 <= at <= body.len(),
    ensures
        match (events_from(body, at, described, carried), events(body.skip(at))) {
            (None, before) => before is None,
            (Some((out, _)), None) => false,
            (Some((out, changed)), Some(before)) => {
                let after = before.map_values(
                    |e: (Seq<u8>, int, Seq<Seq<u8>>)| without_missing(e, described, carried),
                );
                events(out) == Some(after) && (!changed ==> after == before)
            },
        },
    decreases body.len() - at,
{
    let here = body.skip(at);
    let f = |e: (Seq<u8>, int, Seq<Seq<u8>>)| without_missing(e, described, carried);
    if at == body.len() {
        assert(Seq::<(Seq<u8>, int, Seq<Seq<u8>>)>::empty().map_values(f) =~= Seq::empty());
    } else if at + 12 <= body.len() {
        let end = at + 12 + (body[at + 10] % 16) * 256 + body[at + 11];
        if end <= body.len() {
            assert(here.skip(end - at) =~= body.skip(end));
            lemma_events_from(body, end, described, carried);
            if let Some((rest, changed)) = events_from(body, end, described, carried) {
                let whole = body.subrange(at + 12, end);
                let kept = carried_loop(whole, described, carried);
                crate::si::loops::lemma_kept_is_no_longer(
                    whole,
                    0,
                    |d: Seq<u8>| may_travel(described, carried, d),
                );
                let hi = (body[at + 10] - body[at + 10] % 16 + kept.len() / 256 % 16) as u8;
                let lo = (kept.len() % 256) as u8;
                let head = body.subrange(at, at + 10) + seq![hi, lo];
                assert(kept.len() < 4096);
                assert(hi / 16 == body[at + 10] / 16 && hi % 16 == kept.len() / 256);
                lemma_one_event_in_front(head, kept, rest);
                law_what_is_said_of_missing_streams_stays_behind(whole, described, carried);
                assert(here.subrange(12, end - at) =~= whole);
                assert(here.take(10) =~= head.take(10));
                let before = events(body.skip(end))->0;
                let first = (here.take(10), (here[10] / 16) as int, descriptors(whole));
                assert((seq![first] + before).map_values(f) =~= seq![f(first)]
                    + before.map_values(f));
                if kept.len() == whole.len() {
                    let keep = |d: Seq<u8>| may_travel(described, carried, d);
                    lemma_nothing_dropped(whole, 0, keep);
                    lemma_kept_descriptors(whole, 0, keep);
                    assert(whole.skip(0) =~= whole);
                    assert(f(first) == first);
                }
            }
        }
    }
}

/// A section of the guide that is trimmed tells of the same events, each with
/// all that was said of it but for streams that stay behind. It is left alone
/// where nothing was, where its events do not come out, and where it is not
/// about the present.
#[verifier::spinoff_prover]
#[verifier::rlimit(60)]
pub proof fn law_a_trimmed_guide_tells_the_same_events(
    section: Seq<u8>,
    described: Set<u8>,
    carried: Set<u8>,
)
    requires
        section.len() < 4096,
    ensures
        match pruned(section, described, carried) {
            Some(out) => {
                &&& section.len() >= 18 && section[6] == 0
                &&& events(section.subrange(14, section.len() - 4)) matches Some(before) && events(
                    out.subrange(14, out.len() - 4),
                ) == Some(
                    before.map_values(
                        |e: (Seq<u8>, int, Seq<Seq<u8>>)| without_missing(e, described, carried),
                    ),
                )
                &&& crc_of(out) == 0
                &&& forall|i: int|
                    0 <= i < 14 && i != 1 && i != 2 ==> #[trigger] out[i] == section[i]
            },
            None => section.len() < 18 || section[6] != 0 || match events(
                section.subrange(14, section.len() - 4),
            ) {
                None => true,
                Some(before) => before.map_values(
                    |e: (Seq<u8>, int, Seq<Seq<u8>>)| without_missing(e, described, carried),
                ) == before,
            },
        },
{
    if section.len() >= 18 {
        let body = section.take(section.len() - 4);
        assert(body.skip(14) =~= section.subrange(14, section.len() - 4));
        lemma_events_from(body, 14, described, carried);
        if let Some(out) = pruned(section, described, carried) {
            let got = (events_from(body, 14, described, carried)->0).0;
            let made = body.take(14) + got;
            law_a_checked_run_checks_to_nought(crate::si::loops::lengthened(made));
            assert(out.subrange(14, out.len() - 4) =~= got);
        }
    }
}

/// A packet's payload starts behind its head, and behind what it says of itself
/// where it says anything; it has none where it says that it has none, or where
/// nothing is left for it.
pub proof fn law_a_payload_stands_behind_the_head(p: Seq<u8>)
    requires
        p.len() == 188,
    ensures
        ({
            let carries = (p[3] / 16) % 2 == 1;
            let says = (p[3] / 32) % 2 == 1;
            match payload_at(p) {
                Some(at) => carries && at < 188 && (!says ==> at == 4) && (says ==> at == 5 + p[4]),
                None => !carries || (says && 5 + p[4] >= 188),
            }
        }),
{
}

/// A clock in a packet is thirty-three bits, most significant first, where the
/// packet says it has one.
pub proof fn law_a_clock_is_thirty_three_bits(p: Seq<u8>)
    requires
        p.len() == 188,
    ensures
        ({
            let there = (p[3] / 32) % 2 == 1 && p[4] >= 7 && (p[5] / 16) % 2 == 1;
            match clock_reference(p) {
                Some(t) => there && 0 <= t < 0x2_0000_0000 && t % 2 == p[10] / 128 && t / 2 == p[6]
                    * 0x100_0000 + p[7] * 0x1_0000 + p[8] * 0x100 + p[9],
                None => !there,
            }
        }),
{
}

} // verus!
