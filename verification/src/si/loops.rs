//! Descriptor loops: finding one, and copying one with parts left out.
use crate::bytes::put;
use crate::si::packet::{crc32, crc_bytes, crc_of, section_size, sound};
use std::collections::HashSet;
use vstd::prelude::*;
use vstd::slice::slice_subrange;

verus! {

broadcast use vstd::std_specs::hash::group_hash_axioms;

/// The conditional access descriptor, which must not be carried across: the
/// output is not scrambled, and restating it invites a player to wait for a
/// key that never comes.
pub const CONDITIONAL_ACCESS: u8 = 0x09;

/// The descriptor that gives a stream its component tag.
pub const STREAM_IDENTIFIER: u8 = 0x52;

/// Whether a whole descriptor starts at `i`.
pub open spec fn has_descriptor(bytes: Seq<u8>, i: int) -> bool {
    0 <= i && i + 2 <= bytes.len() && i + 2 + bytes[i + 1] <= bytes.len()
}

/// Where the descriptor that starts at `i` ends.
pub open spec fn descriptor_end(bytes: Seq<u8>, i: int) -> int {
    i + 2 + bytes[i + 1]
}

/// The body of the first descriptor with a tag, from `i` on.
pub open spec fn descriptor_from(bytes: Seq<u8>, tag: u8, i: int) -> Option<Seq<u8>>
    decreases bytes.len() - i,
{
    if !has_descriptor(bytes, i) {
        None
    } else if bytes[i] == tag {
        Some(bytes.subrange(i + 2, descriptor_end(bytes, i)))
    } else {
        descriptor_from(bytes, tag, descriptor_end(bytes, i))
    }
}

/// The descriptors from `i` on that are to be kept, as they stand.
pub open spec fn kept_from(bytes: Seq<u8>, i: int, keep: spec_fn(Seq<u8>) -> bool) -> Seq<u8>
    decreases bytes.len() - i,
{
    if !has_descriptor(bytes, i) {
        Seq::empty()
    } else {
        let end = descriptor_end(bytes, i);
        let whole = bytes.subrange(i, end);
        (if keep(whole) {
            whole
        } else {
            Seq::empty()
        }) + kept_from(bytes, end, keep)
    }
}

/// Whether the bytes from `i` on are whole descriptors and nothing else.
pub open spec fn is_loop(bytes: Seq<u8>, i: int) -> bool
    decreases bytes.len() - i,
{
    i == bytes.len() || (has_descriptor(bytes, i) && is_loop(bytes, descriptor_end(bytes, i)))
}

/// A loop read behind other bytes is the loop it was.
pub proof fn lemma_loop_behind(a: Seq<u8>, b: Seq<u8>, j: int)
    requires
        0 <= j <= b.len(),
        is_loop(b, j),
    ensures
        is_loop(a + b, a.len() + j),
    decreases b.len() - j,
{
    if j < b.len() {
        assert((a + b)[a.len() + j + 1] == b[j + 1]);
        lemma_loop_behind(a, b, descriptor_end(b, j));
    }
}

/// A loop with another loop behind it is a loop.
pub proof fn lemma_loops_join(a: Seq<u8>, b: Seq<u8>, i: int)
    requires
        0 <= i <= a.len(),
        is_loop(a, i),
        is_loop(b, 0),
    ensures
        is_loop(a + b, i),
    decreases a.len() - i,
{
    if i == a.len() {
        lemma_loop_behind(a, b, 0);
    } else {
        assert((a + b)[i + 1] == a[i + 1]);
        lemma_loops_join(a, b, descriptor_end(a, i));
    }
}

/// One whole descriptor is a loop.
pub proof fn lemma_one_descriptor_is_a_loop(d: Seq<u8>)
    requires
        d.len() >= 2,
        d.len() == 2 + d[1],
    ensures
        is_loop(d, 0),
{
    assert(is_loop(d, descriptor_end(d, 0)));
}

/// Whatever is kept of a loop is a loop: descriptors stay whole or go whole.
pub proof fn law_what_is_kept_is_a_loop(bytes: Seq<u8>, i: int, keep: spec_fn(Seq<u8>) -> bool)
    ensures
        is_loop(kept_from(bytes, i, keep), 0),
    decreases bytes.len() - i,
{
    if has_descriptor(bytes, i) {
        let end = descriptor_end(bytes, i);
        let whole = bytes.subrange(i, end);
        law_what_is_kept_is_a_loop(bytes, end, keep);
        if keep(whole) {
            lemma_one_descriptor_is_a_loop(whole);
            lemma_loops_join(whole, kept_from(bytes, end, keep), 0);
        } else {
            assert(Seq::<u8>::empty() + kept_from(bytes, end, keep) =~= kept_from(
                bytes,
                end,
                keep,
            ));
        }
    }
}

/// Nothing is kept that was not there: what is kept is no longer than the
/// loop it came from.
pub proof fn lemma_kept_is_no_longer(bytes: Seq<u8>, i: int, keep: spec_fn(Seq<u8>) -> bool)
    requires
        0 <= i <= bytes.len(),
    ensures
        kept_from(bytes, i, keep).len() <= bytes.len() - i,
    decreases bytes.len() - i,
{
    if has_descriptor(bytes, i) {
        lemma_kept_is_no_longer(bytes, descriptor_end(bytes, i), keep);
    }
}

/// The kept bytes of a loop read behind a whole descriptor.
proof fn lemma_kept_behind(a: Seq<u8>, b: Seq<u8>, j: int, keep: spec_fn(Seq<u8>) -> bool)
    requires
        0 <= j <= b.len(),
    ensures
        kept_from(a + b, a.len() + j, keep) == kept_from(b, j, keep),
    decreases b.len() - j,
{
    if j + 2 <= b.len() {
        assert((a + b)[a.len() + j + 1] == b[j + 1]);
        assert((a + b)[a.len() + j] == b[j]);
        if has_descriptor(b, j) {
            lemma_kept_behind(a, b, descriptor_end(b, j), keep);
            assert((a + b).subrange(a.len() + j, descriptor_end(a + b, a.len() + j))
                =~= b.subrange(j, descriptor_end(b, j)));
        }
    }
}

/// Keeping what was already kept changes nothing.
pub proof fn law_keeping_twice_is_keeping_once(
    bytes: Seq<u8>,
    i: int,
    keep: spec_fn(Seq<u8>) -> bool,
)
    ensures
        kept_from(kept_from(bytes, i, keep), 0, keep) == kept_from(bytes, i, keep),
    decreases bytes.len() - i,
{
    if has_descriptor(bytes, i) {
        let end = descriptor_end(bytes, i);
        let whole = bytes.subrange(i, end);
        let rest = kept_from(bytes, end, keep);
        law_keeping_twice_is_keeping_once(bytes, end, keep);
        if keep(whole) {
            let all = whole + rest;
            assert(all[1] == whole[1]);
            assert(all.subrange(0, descriptor_end(all, 0)) =~= whole);
            lemma_kept_behind(whole, rest, 0, keep);
        } else {
            assert(Seq::<u8>::empty() + rest =~= rest);
        }
    }
}

/// Find one descriptor in a loop, by tag.
pub fn descriptor(loop_bytes: &[u8], tag: u8) -> (r: Option<&[u8]>)
    ensures
        match r {
            Some(body) => descriptor_from(loop_bytes@, tag, 0) == Some(body@),
            None => descriptor_from(loop_bytes@, tag, 0) is None,
        },
{
    let mut i: usize = 0;
    while loop_bytes.len() - i >= 2
        invariant
            i <= loop_bytes@.len(),
            descriptor_from(loop_bytes@, tag, 0) == descriptor_from(loop_bytes@, tag, i as int),
        decreases loop_bytes@.len() - i,
    {
        let len: usize = loop_bytes[i + 1] as usize;
        if loop_bytes.len() - i - 2 < len {
            return None;
        }
        if loop_bytes[i] == tag {
            return Some(slice_subrange(loop_bytes, i + 2, i + 2 + len));
        }
        i += 2 + len;
    }
    None
}

/// The component a descriptor is about, when it is about one.
pub open spec fn component_named(whole: Seq<u8>) -> Option<u8> {
    if (whole[0] == 0x50 || whole[0] == 0xC4 || whole[0] == 0xC7) && whole.len() >= 5 {
        Some(whole[4])
    } else {
        None
    }
}

/// The component a descriptor is about, when it is about one.
///
/// Three of the descriptors a programme carries point at a stream by its
/// one-byte tag: the component, audio component and data content descriptors,
/// all of which put it third in the body. Nothing else here refers to a
/// stream.
pub fn component_reference(tag: u8, body: &[u8]) -> (r: Option<u8>)
    ensures
        r == component_named(seq![tag, body@.len() as u8] + body@),
{
    if (tag == 0x50 || tag == 0xC4 || tag == 0xC7) && body.len() >= 3 {
        Some(body[2])
    } else {
        None
    }
}

/// Which component tags the recording described, and which the cut carries.
///
/// The two are compared rather than the second used alone: a recording that
/// names no components at all would otherwise look like a cut that carries
/// nothing.
pub struct Components {
    pub described: HashSet<u8>,
    pub carried: HashSet<u8>,
}

/// Whether a descriptor about this component still describes the output.
/// Only a component the recording itself described can be judged missing.
pub open spec fn holds_of(described: Set<u8>, carried: Set<u8>, tag: u8) -> bool {
    carried.contains(tag) || !described.contains(tag)
}

/// Whether a descriptor may travel, going by the component it names.
pub open spec fn may_travel(described: Set<u8>, carried: Set<u8>, whole: Seq<u8>) -> bool {
    match component_named(whole) {
        Some(tag) => holds_of(described, carried, tag),
        None => true,
    }
}

/// A descriptor loop less what names a component the cut does not carry.
pub open spec fn carried_loop(bytes: Seq<u8>, described: Set<u8>, carried: Set<u8>) -> Seq<u8> {
    kept_from(bytes, 0, |whole: Seq<u8>| may_travel(described, carried, whole))
}

/// A descriptor loop less the conditional access descriptors.
pub open spec fn plain_loop(bytes: Seq<u8>) -> Seq<u8> {
    kept_from(bytes, 0, |whole: Seq<u8>| whole[0] != CONDITIONAL_ACCESS)
}

impl Components {
    /// Whether a descriptor about this component still describes the output.
    pub fn still_true(&self, tag: u8) -> (r: bool)
        ensures
            r == holds_of(self.described@, self.carried@, tag),
    {
        self.carried.contains(&tag) || !self.described.contains(&tag)
    }
}

/// Copy a descriptor loop, leaving out anything that names a component the
/// cut does not carry.
pub fn keep_carried(loop_bytes: &[u8], components: &Components) -> (out: Vec<u8>)
    ensures
        out@ == carried_loop(loop_bytes@, components.described@, components.carried@),
        out@.len() <= loop_bytes@.len(),
        is_loop(out@, 0),
{
    let ghost keep = |whole: Seq<u8>|
        may_travel(components.described@, components.carried@, whole);
    let mut out: Vec<u8> = Vec::with_capacity(loop_bytes.len());
    let mut i: usize = 0;
    proof {
        law_what_is_kept_is_a_loop(loop_bytes@, 0, keep);
        lemma_kept_is_no_longer(loop_bytes@, 0, keep);
    }
    while loop_bytes.len() - i >= 2
        invariant_except_break
            i <= loop_bytes@.len(),
            keep == |whole: Seq<u8>|
                may_travel(components.described@, components.carried@, whole),
            kept_from(loop_bytes@, 0, keep) =~= out@ + kept_from(loop_bytes@, i as int, keep),
        ensures
            kept_from(loop_bytes@, 0, keep) =~= out@,
        decreases loop_bytes@.len() - i,
    {
        let len: usize = loop_bytes[i + 1] as usize;
        if loop_bytes.len() - i - 2 < len {
            break;
        }
        let whole: &[u8] = slice_subrange(loop_bytes, i, i + 2 + len);
        let body: &[u8] = slice_subrange(loop_bytes, i + 2, i + 2 + len);
        assert(seq![whole@[0], body@.len() as u8] + body@ =~= whole@);
        let keeps: bool = match component_reference(loop_bytes[i], body) {
            Some(component) => components.still_true(component),
            None => true,
        };
        assert(keeps == keep(whole@));
        if keeps {
            put(&mut out, whole);
        }
        i += 2 + len;
    }
    out
}

/// Copy a descriptor loop, leaving out the tags that must not travel.
pub fn keep_descriptors(loop_bytes: &[u8]) -> (out: Vec<u8>)
    ensures
        out@ == plain_loop(loop_bytes@),
{
    let ghost keep = |whole: Seq<u8>| whole[0] != CONDITIONAL_ACCESS;
    let mut out: Vec<u8> = Vec::with_capacity(loop_bytes.len());
    let mut i: usize = 0;
    while loop_bytes.len() - i >= 2
        invariant_except_break
            i <= loop_bytes@.len(),
            keep == |whole: Seq<u8>| whole[0] != CONDITIONAL_ACCESS,
            kept_from(loop_bytes@, 0, keep) =~= out@ + kept_from(loop_bytes@, i as int, keep),
        ensures
            kept_from(loop_bytes@, 0, keep) =~= out@,
        decreases loop_bytes@.len() - i,
    {
        let len: usize = loop_bytes[i + 1] as usize;
        if loop_bytes.len() - i - 2 < len {
            break;
        }
        let whole: &[u8] = slice_subrange(loop_bytes, i, i + 2 + len);
        assert(keep(whole@) == (loop_bytes@[i as int] != CONDITIONAL_ACCESS));
        if loop_bytes[i] != CONDITIONAL_ACCESS {
            put(&mut out, whole);
        }
        i += 2 + len;
    }
    out
}

/// A section with its length filled in, before its check.
pub open spec fn lengthened(body: Seq<u8>) -> Seq<u8> {
    let len = body.len() + 1;
    body.update(1, (body[1] - body[1] % 16 + len / 256 % 16) as u8).update(2, (len % 256) as u8)
}

/// A section with its length filled in and its check behind it.
pub open spec fn finished(body: Seq<u8>) -> Seq<u8> {
    lengthened(body) + crc_bytes(crc_of(lengthened(body)))
}

/// A length taken twelve bits at a time comes to the same two bytes.
proof fn lemma_twelve_bits(n: nat)
    ensures
        (n + 1) / 256 % 16 == ((n % 4096 + 1) % 4096) / 256,
        (n + 1) % 256 == ((n % 4096 + 1) % 4096) % 256,
{
    let q = n / 4096;
    let r = n % 4096;
    assert(n == 4096 * q + r);
    if r + 1 < 4096 {
        assert((n + 1) / 256 == 16 * q + (r + 1) / 256);
        assert((n + 1) % 256 == (r + 1) % 256);
    } else {
        assert((n + 1) / 256 == 16 * (q + 1));
    }
}

/// Set a section's length field and append its check.
pub fn finish_section(sec: &mut Vec<u8>)
    requires
        old(sec)@.len() >= 3,
    ensures
        final(sec)@ == finished(old(sec)@),
{
    // Twelve bits are all the field has, so twelve bits are all that is kept.
    let len: usize = (sec.len() % 4096 + 1) % 4096;
    proof {
        lemma_twelve_bits(sec@.len());
    }
    let top: u8 = sec[1];
    sec.set(1, top - top % 16 + (len / 256) as u8);
    sec.set(2, (len % 256) as u8);
    assert(sec@ =~= lengthened(old(sec)@));
    let crc: u32 = crc32(sec.as_slice());
    let ghost body = sec@;
    sec.push((crc / 0x100_0000) as u8);
    sec.push((crc / 0x1_0000 % 256) as u8);
    sec.push((crc / 0x100 % 256) as u8);
    sec.push((crc % 256) as u8);
    assert(sec@ =~= body + crc_bytes(crc));
}

/// A finished section says how long it is and is believed by whoever reads
/// it, as long as its length fits the twelve bits there are for it.
pub proof fn law_a_finished_section_is_sound(body: Seq<u8>)
    requires
        3 <= body.len() < 4095,
    ensures
        crc_of(finished(body)) == 0,
        section_size(finished(body)) == finished(body).len(),
        sound(finished(body)),
        finished(body).len() == body.len() + 4,
{
    crate::si::packet::law_a_checked_run_checks_to_nought(lengthened(body));
}

} // verus!
