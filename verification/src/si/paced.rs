//! When a pass writes its tables, and at what rate.
use crate::si::graft::{
    clock_of, clocked, events_due, faster, last_second, meter_rate, metered, passed, ranged,
    selections, ticks_since, time_due, trimmed, whole_seconds, written, written_all, MeterModel,
    PassModel, PlanModel,
};
use crate::si::packet::{clock_reference, packet_pid};
use crate::si::read::{ServiceModel, SnapshotModel};
use crate::si::sections::{present_in, selection, time_moved, Tables};
use vstd::prelude::*;

verus! {

/// Clocks count round: from one reading to a later one is what lies between
/// them, past the point where the count starts over where that is on the way.
pub proof fn law_clocks_count_round(first: int, pcr: int)
    requires
        0 <= first < 0x2_0000_0000,
        0 <= pcr < 0x2_0000_0000,
    ensures
        0 <= ticks_since(first, pcr) < 0x2_0000_0000,
        (first + ticks_since(first, pcr)) % 0x2_0000_0000 == pcr,
{
}

/// The stretch in force is the last whose start the clock has reached; going
/// over into one makes its tables due at once. Nothing else is touched.
pub proof fn law_the_range_in_force_is_the_last_begun(plan: PlanModel, st: PassModel, k: int)
    requires
        0 <= st.range < plan.ranges.len(),
    ensures
        ({
            let now = ranged(plan, st);
            &&& st.range <= now.range < plan.ranges.len()
            &&& now.range + 1 < plan.ranges.len() ==> st.now < plan.ranges[now.range + 1].start
            &&& st.range < k <= now.range ==> plan.ranges[k].start <= st.now
            &&& now.range > st.range ==> now.next_eit == st.now && now.next_tot == st.now
            &&& now.range == st.range ==> now == st
            &&& now.now == st.now && now.cc == st.cc && now.stats == st.stats && now.first_pcr
                == st.first_pcr
        }),
    decreases plan.ranges.len() - st.range,
{
    if st.range + 1 < plan.ranges.len() && st.now >= plan.ranges[st.range + 1].start {
        law_the_range_in_force_is_the_last_begun(
            plan,
            PassModel { range: st.range + 1, next_eit: st.now, next_tot: st.now, ..st },
            k,
        );
    }
}

/// The time of a pass is how long ago its first clock was; a packet without a
/// clock of its own leaves it.
pub proof fn law_a_pass_runs_by_its_clock(plan: PlanModel, st: PassModel, p: Seq<u8>)
    ensures
        ({
            let now = clocked(plan, st, p);
            match (packet_pid(p) == plan.pcr_pid, clock_reference(p)) {
                (true, Some(pcr)) => {
                    &&& st.first_pcr is None ==> now.first_pcr == Some(pcr) && now.now == 0
                    &&& st.first_pcr matches Some(f) ==> now.first_pcr == Some(f) && now.now
                        == ticks_since(f, pcr)
                },
                _ => now == st,
            }
        }),
{
}

/// A guide that is due is written whole, and is due again a while later; one
/// that is not due, or that is empty, is not written.
pub proof fn law_a_guide_is_written_when_due(plan: PlanModel, st: PassModel)
    ensures
        ({
            let eit = plan.ranges[st.range].eit;
            let (now, bytes) = events_due(plan, st);
            &&& st.now >= st.next_eit && eit.len() > 0 ==> bytes == written_all(
                st.cc,
                0x12,
                eit,
            ).1 && now.next_eit > st.now && now.stats.eit == (st.stats.eit + 1) as usize
            &&& st.now < st.next_eit || eit.len() == 0 ==> bytes.len() == 0 && now == st
            &&& now.now == st.now && now.range == st.range && now.next_tot == st.next_tot
        }),
{
}

/// How many seconds ticks make, to the nearest.
pub proof fn law_ticks_make_the_nearest_second(ticks: int)
    ensures
        ticks >= 0 ==> ticks - 45_000 < 90_000 * whole_seconds(ticks) <= ticks + 45_000,
        whole_seconds(-ticks) == -whole_seconds(ticks),
{
}

/// A clock that is due is written, moved on by as many seconds as the stretch
/// has run, and is due again a while later.
pub proof fn law_a_clock_is_written_when_due(plan: PlanModel, st: PassModel, seconds: int)
    requires
        st.now >= plan.ranges[st.range].start,
        st.now - plan.ranges[st.range].start - 45_000 < 90_000 * seconds <= st.now
            - plan.ranges[st.range].start + 45_000,
    ensures
        ({
            let clock = plan.ranges[st.range].clock;
            let (now, bytes) = time_due(plan, st);
            &&& clock is None || st.now < st.next_tot ==> bytes.len() == 0 && now == st
            &&& clock is Some && st.now >= st.next_tot ==> {
                &&& now.next_tot > st.now
                &&& match time_moved(clock->0, seconds) {
                    Some(moved) => bytes == written(st.cc, 0x14, moved) && now.stats.tot == (
                    st.stats.tot + 1) as usize,
                    None => bytes.len() == 0,
                }
            }
            &&& now.now == st.now && now.range == st.range && now.next_eit == st.next_eit
        }),
{
    assert(whole_seconds(st.now - plan.ranges[st.range].start) == seconds);
}

/// In the place of a packet of the recording's map or description stands one of
/// the new; what a partial stream has instead of the description is the table
/// of what was selected. Every other packet is passed, before any table due.
pub proof fn law_a_table_stands_in_place_of_the_old(plan: PlanModel, st: PassModel, p: Seq<u8>)
    ensures
        ({
            let out = passed(plan, st, p).1;
            let pid = packet_pid(p);
            let partial = plan.tables == Tables::Partial;
            &&& pid == plan.map_pid ==> out == written(st.cc, pid, plan.pmt)
            &&& pid == 0x11 && pid != plan.map_pid && partial ==> out == written(
                st.cc,
                0x1F,
                plan.ranges[st.range].sit,
            )
            &&& pid == 0x11 && pid != plan.map_pid && !partial && plan.sdt is Some ==> out
                == written(st.cc, 0x11, plan.sdt->0)
            &&& pid != 0x11 && pid != plan.map_pid && partial ==> out == p
            &&& pid != 0x11 && pid != plan.map_pid && !partial ==> out.len() >= p.len() && out.take(
                p.len() as int,
            ) == p && out.skip(p.len() as int) == events_due(plan, st).1 + time_due(
                plan,
                events_due(plan, st).0,
            ).1
        }),
{
    let (st1, events) = events_due(plan, st);
    let (_, time) = time_due(plan, st1);
    let all = p + events + time;
    assert(all.take(p.len() as int) =~= p);
    assert(all.skip(p.len() as int) =~= events + time);
}

/// The time a stretch has is told with its zone where the recording did so.
pub proof fn law_the_fuller_clock_is_taken(snap: SnapshotModel)
    ensures
        snap.tot is Some ==> clock_of(snap) == snap.tot,
        snap.tot is None ==> clock_of(snap) == snap.tdt,
{
}

/// Whether a section is the table of a snapshot under some version.
pub open spec fn is_selection_of(
    sec: Seq<u8>,
    service: ServiceModel,
    snap: SnapshotModel,
    described: Set<u8>,
    carried: Set<u8>,
    rate: u32,
) -> bool {
    exists|v: u8|
        sec == #[trigger] selection(service, present_in(snap, described, carried), v, rate)
}

/// Every stretch has the table of what was on; one that says the same as the one
/// before it is the same, with no new version.
#[verifier::spinoff_prover]
#[verifier::rlimit(60)]
pub proof fn law_every_stretch_has_its_table(
    service: ServiceModel,
    snaps: Seq<SnapshotModel>,
    described: Set<u8>,
    carried: Set<u8>,
    rate: u32,
    k: int,
)
    requires
        0 <= k < snaps.len(),
    ensures
        ({
            let all = selections(service, snaps, described, carried, rate).0;
            &&& all.len() == snaps.len()
            &&& is_selection_of(all[k], service, snaps[k], described, carried, rate)
            &&& k > 0 && present_in(snaps[k], described, carried) == present_in(
                snaps[k - 1],
                described,
                carried,
            ) ==> all[k] == all[k - 1]
        }),
    decreases snaps.len(),
{
    let less = snaps.drop_last();
    let (before, version) = selections(service, less, described, carried, rate);
    let (all, _) = selections(service, snaps, described, carried, rate);
    lemma_last_selection(service, less, described, carried, rate);
    let present = present_in(snaps.last(), described, carried);
    let next = ((version + 1) % 32) as u8;
    assert(selection(service, present, version, rate) == selection(
        service,
        present,
        version,
        rate,
    ));
    assert(selection(service, present, next, rate) == selection(service, present, next, rate));
    if k < less.len() {
        law_every_stretch_has_its_table(service, less, described, carried, rate, k);
        assert(less[k] == snaps[k]);
        assert(all[k] == before[k]);
        if k > 0 {
            assert(less[k - 1] == snaps[k - 1]);
            assert(all[k - 1] == before[k - 1]);
        }
    } else if k > 0 {
        assert(less.last() == snaps[k - 1]);
        assert(before.last() == before[k - 1]);
    }
}

proof fn lemma_last_selection(
    service: ServiceModel,
    snaps: Seq<SnapshotModel>,
    described: Set<u8>,
    carried: Set<u8>,
    rate: u32,
)
    ensures
        ({
            let (all, version) = selections(service, snaps, described, carried, rate);
            &&& all.len() == snaps.len()
            &&& snaps.len() > 0 ==> all.last() == selection(
                service,
                present_in(snaps.last(), described, carried),
                version,
                rate,
            )
        }),
    decreases snaps.len(),
{
    if snaps.len() > 0 {
        lemma_last_selection(service, snaps.drop_last(), described, carried, rate);
    }
}

/// Of two rates the faster is taken.
pub proof fn law_the_faster_rate_is_taken(a: (int, int), b: (int, int))
    requires
        a.1 > 0,
        b.1 > 0,
    ensures
        ({
            let f = faster(a, b);
            (f == a || f == b) && f.0 * a.1 >= a.0 * f.1 && f.0 * b.1 >= b.0 * f.1
        }),
{
    assert(a.0 * b.1 == b.1 * a.0 && b.0 * a.1 == a.1 * b.0 && a.0 * a.1 == a.1 * a.0 && b.0 * b.1
        == b.1 * b.0) by (nonlinear_arith);
}

/// What is measured over is the last second: nothing in it is further back, and
/// what was let go was.
pub proof fn law_a_rate_is_measured_over_a_second(window: Seq<(int, int)>, now: int)
    ensures
        ({
            let kept = last_second(window, now);
            let gone = window.len() - kept.len();
            &&& 0 <= gone
            &&& kept == window.skip(gone)
            &&& kept.len() > 0 ==> now - kept[0].1 <= 90_000
            &&& forall|i: int| 0 <= i < gone ==> now - (#[trigger] window[i]).1 > 90_000
        }),
    decreases window.len(),
{
    if window.len() > 0 && now - window[0].1 > 90_000 {
        let rest = window.drop_first();
        law_a_rate_is_measured_over_a_second(rest, now);
        let kept = last_second(window, now);
        let gone = window.len() - kept.len();
        assert(kept =~= window.skip(gone));
        assert forall|i: int| 0 <= i < gone implies now - (#[trigger] window[i]).1 > 90_000 by {
            if i > 0 {
                assert(rest[i - 1] == window[i]);
            }
        }
    } else {
        assert(window.skip(0) =~= window);
    }
}

/// A meter counts every packet, and the rate it tells is no less than that of
/// any stretch of half a second to a second that it saw; it never goes down.
pub proof fn law_a_meter_tells_the_peak(m: MeterModel, p: Seq<u8>, pcr_pid: u16)
    requires
        m.peak.1 > 0,
    ensures
        ({
            let now = metered(m, p, pcr_pid);
            &&& now.at == m.at + 188
            &&& now.peak.0 * m.peak.1 >= m.peak.0 * now.peak.1
            &&& now.peak.1 > 0
            &&& packet_pid(p) != pcr_pid || clock_reference(p) is None ==> now.peak == m.peak
                && now.window == m.window
            &&& packet_pid(p) == pcr_pid && clock_reference(p) is Some && now.window.len() > 0
                && now.last - now.window[0].1 >= 45_000 ==> now.peak.0 * (now.last
                - now.window[0].1) >= 8 * (now.at - now.window[0].0) * now.peak.1
        }),
{
    let now = metered(m, p, pcr_pid);
    if packet_pid(p) == pcr_pid && clock_reference(p) is Some && now.window.len() > 0 && now.last
        - now.window[0].1 >= 45_000 {
        let here = ((now.at - now.window[0].0) * 8, now.last - now.window[0].1);
        law_the_faster_rate_is_taken(m.peak, here);
        assert(here.0 == 8 * (now.at - now.window[0].0));
    } else {
        assert(now.peak == m.peak);
        assert(now.peak.0 * m.peak.1 >= m.peak.0 * now.peak.1);
    }
}

/// The rate told is in units of four hundred bits a second, rounded up, of the
/// peak and what is added to it; and no more than twenty-two bits hold.
pub proof fn law_the_rate_told_is_enough(m: MeterModel, added: int)
    requires
        m.peak.1 > 0,
        m.peak.0 >= 0,
        m.last == 0,
        0 <= added,
    ensures
        ({
            let units = meter_rate(m, added);
            let (bits, ticks) = (m.peak.0 * 90_000 + added * m.peak.1, m.peak.1);
            &&& units <= 0x3F_FFFF
            &&& units < 0x3F_FFFF ==> (units - 1) * (400 * ticks) < bits <= units * (400 * ticks)
        }),
{
    let (num, den) = (m.peak.0 * 90_000 + added * m.peak.1, 400 * m.peak.1);
    let q = (num + den - 1) / den;
    vstd::arithmetic::div_mod::lemma_fundamental_div_mod(num + den - 1, den);
    vstd::arithmetic::div_mod::lemma_mod_bound(num + den - 1, den);
    assert((q - 1) * den < num <= q * den) by (nonlinear_arith)
        requires
            num + den - 1 == den * q + (num + den - 1) % den,
            0 <= (num + den - 1) % den < den,
    ;
}

/// A guide is trimmed section by section, and none is lost.
pub proof fn law_no_section_of_the_guide_is_lost(
    eit: Seq<Seq<u8>>,
    described: Set<u8>,
    carried: Set<u8>,
    i: int,
)
    requires
        0 <= i < eit.len(),
    ensures
        trimmed(eit, described, carried).len() == eit.len(),
        trimmed(eit, described, carried)[i] == (match crate::si::sections::pruned(
            eit[i],
            described,
            carried,
        ) {
            Some(out) => out,
            None => eit[i],
        }),
{
}

} // verus!
