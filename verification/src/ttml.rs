//! The subtitles a 4K recording carries, which are XML rather than ARIB text.
//!
//! A high definition broadcast writes its captions as ARIB STD-B24 -- bytes
//! that shift between character sets and carry their own layout. **A 4K
//! broadcast writes TTML instead**: a small XML document per caption, with the
//! words in it, the region they go in stated in pixels of a 3840x2160 screen,
//! and the times it is shown at stated as text.
//!
//! Two things about the stream matter more than the format does.
//!
//! **The times are inside the document, not on the packet.** A recorder
//! stamps these packets with a counter -- 1, 2, 3 -- where a presentation
//! time should be, and the document says `begin="00:02:21.667"` on the
//! recording's own clock. So a cut cannot carry these packets the way it
//! carries every other stream, by moving the timestamp: the times have to be
//! moved inside the document, and a caption that falls outside every kept
//! range has to be left behind. See [`retimed`].
//!
//! **One document is one caption**, with one `<div>` and one pair of times, so
//! a document is a unit a cut can keep or drop whole.
//!
//! What is read here is what a reader needs and no more: the times, the
//! regions, the styles that say how big the characters are and what colour,
//! and the words. There is no XML parser here -- these documents are written
//! by a machine, to one shape, and are read by walking their tags.
use crate::bytes::{
    ascii, ascii_bytes, byte_from, copied, find, find_byte, first_at, lemma_byte_is_first,
    lemma_first_at, stands_at,
};
use crate::chars::from_stored;
use crate::time::{earlier, in_reach, later, max_time, min_time, rounded, SECOND};
pub mod laid;
pub mod layout;
pub mod moved;
pub mod number;

pub use layout::written;
use number::{
    all_digits, digits_number, lemma_plain_digits, lemma_pointed_digits, number, read_number,
};
use vstd::prelude::*;
use vstd::slice::slice_subrange;
use vstd::utf8::{decode_utf8, valid_utf8};

verus! {

/// The screen a 4K recording's subtitles are placed on, where the document
/// does not say: the picture's own size.
pub const SCREEN: (u16, u16) = (3840, 2160);

/// A thousandth of a second, in ticks.
pub const MILLI: i64 = 705_600;

/// Where the document begins inside a packet's payload.
pub open spec fn document_at(payload: Seq<u8>) -> Option<int> {
    first_at(payload, ascii("<?xml"@), 0)
}

/// The document inside a packet's payload, where there is one and it is
/// text.
pub open spec fn document_in(payload: Seq<u8>) -> Option<Seq<u8>> {
    match document_at(payload) {
        Some(at) => if valid_utf8(payload.skip(at)) {
            Some(payload.skip(at))
        } else {
            None
        },
        None => None,
    }
}

/// The document inside a packet's payload, as bytes, and where it begins.
pub(crate) fn document_bytes(payload: &[u8]) -> (r: Option<(usize, &[u8])>)
    ensures
        match r {
            Some((at, doc)) => document_at(payload@) == Some(at as int) && document_in(payload@)
                == Some(doc@) && at <= payload@.len() && doc@ == payload@.skip(at as int),
            None => document_in(payload@) is None,
        },
{
    match find(payload, ascii_bytes("<?xml").as_slice(), 0) {
        None => None,
        Some(at) => {
            let doc: &[u8] = slice_subrange(payload, at, payload.len());
            assert(doc@ =~= payload@.skip(at as int));
            if from_stored(doc).is_some() {
                Some((at, doc))
            } else {
                None
            }
        },
    }
}

/// Where the document begins inside a packet's payload.
///
/// The recorder puts twelve bytes of its own in front of it, the last two of
/// which count the document. Rather than trust that, the document is found
/// by looking for its opening -- which also answers whether the packet holds
/// one at all, and so whether a stream the map called subtitles really is this
/// kind.
pub fn document(payload: &[u8]) -> (r: Option<&str>)
    ensures
        r is Some <==> document_in(payload@) is Some,
        r is Some ==> r->0@ == decode_utf8(document_in(payload@)->0),
{
    match document_bytes(payload) {
        Some((_, doc)) => from_stored(doc),
        None => None,
    }
}

/// The opening tag whose name is `open`, as it stands in the document: where
/// it starts and where it ends.
pub open spec fn tag_span(doc: Seq<u8>, open: Seq<u8>) -> Option<(int, int)> {
    match first_at(doc, open, 0) {
        Some(at) => match byte_from(doc, 62, at) {
            Some(end) => Some((at, end)),
            None => None,
        },
        None => None,
    }
}

/// The opening tag whose name is `open`.
pub open spec fn tag_in(doc: Seq<u8>, open: Seq<u8>) -> Option<Seq<u8>> {
    match tag_span(doc, open) {
        Some((at, end)) => Some(doc.subrange(at, end)),
        None => None,
    }
}

pub(crate) fn tag_at<'a>(doc: &'a [u8], open: &[u8]) -> (r: Option<(usize, &'a [u8])>)
    ensures
        match r {
            Some((at, tag)) => tag_span(doc@, open@) == Some((at as int, at + tag@.len())) && at
                + tag@.len() <= doc@.len() && tag@ == doc@.subrange(at as int, at + tag@.len()),
            None => tag_span(doc@, open@) is None,
        },
{
    match find(doc, open, 0) {
        None => None,
        Some(at) => match find_byte(doc, 62, at) {
            None => None,
            Some(end) => Some((at, slice_subrange(doc, at, end))),
        },
    }
}

/// Whether the character that ends before `at` is white space.
pub open spec fn space_before(b: Seq<u8>, at: int) -> bool {
    &&& 0 < at <= b.len()
    &&& {
        ||| 9 <= b[at - 1] <= 13 || b[at - 1] == 32
        ||| at >= 2 && b[at - 2] == 0xC2 && (b[at - 1] == 0x85 || b[at - 1] == 0xA0)
        ||| at >= 3 && wide_space(b[at - 3], b[at - 2], b[at - 1])
    }
}

/// Whether three bytes are a white space character.
pub open spec fn wide_space(a: u8, b: u8, c: u8) -> bool {
    ||| a == 0xE1 && b == 0x9A && c == 0x80
    ||| a == 0xE2 && b == 0x80 && (0x80 <= c <= 0x8A || c == 0xA8 || c == 0xA9 || c == 0xAF)
    ||| a == 0xE2 && b == 0x81 && c == 0x9F
    ||| a == 0xE3 && b == 0x80 && c == 0x80
}

/// Whether the character that starts at `at` is white space.
pub open spec fn space_behind(b: Seq<u8>, at: int) -> bool {
    &&& 0 <= at < b.len()
    &&& {
        ||| 9 <= b[at] <= 13 || b[at] == 32
        ||| at + 1 < b.len() && b[at] == 0xC2 && (b[at + 1] == 0x85 || b[at + 1] == 0xA0)
        ||| at + 2 < b.len() && wide_space(b[at], b[at + 1], b[at + 2])
    }
}

fn is_wide_space(a: u8, b: u8, c: u8) -> (r: bool)
    ensures
        r == wide_space(a, b, c),
{
    (a == 0xE1 && b == 0x9A && c == 0x80) || (a == 0xE2 && b == 0x80 && ((0x80 <= c && c <= 0x8A)
        || c == 0xA8 || c == 0xA9 || c == 0xAF)) || (a == 0xE2 && b == 0x81 && c == 0x9F) || (a
        == 0xE3 && b == 0x80 && c == 0x80)
}

fn is_space_before(b: &[u8], at: usize) -> (r: bool)
    requires
        at <= b@.len(),
    ensures
        r == space_before(b@, at as int),
{
    at > 0 && ((9 <= b[at - 1] && b[at - 1] <= 13) || b[at - 1] == 32 || (at >= 2 && b[at - 2]
        == 0xC2 && (b[at - 1] == 0x85 || b[at - 1] == 0xA0)) || (at >= 3 && is_wide_space(
        b[at - 3],
        b[at - 2],
        b[at - 1],
    )))
}

pub(crate) fn is_space_behind(b: &[u8], at: usize) -> (r: bool)
    requires
        at <= b@.len(),
    ensures
        r == space_behind(b@, at as int),
{
    let left: usize = b.len() - at;
    left > 0 && ((9 <= b[at] && b[at] <= 13) || b[at] == 32 || (left > 1 && b[at] == 0xC2 && (b[at
        + 1] == 0x85 || b[at + 1] == 0xA0)) || (left > 2 && is_wide_space(
        b[at],
        b[at + 1],
        b[at + 2],
    )))
}

/// A name with what opens an attribute's value behind it.
pub open spec fn opened(name: Seq<u8>) -> Seq<u8> {
    name + seq![61u8, 34]
}

/// Where the value of an attribute starts and ends, looked for from `i` on.
///
/// A name is an attribute's own only where what comes before it is a space:
/// `begin` must not be found inside `xml:begin` or in another attribute's
/// value.
pub open spec fn value_from(tag: Seq<u8>, name: Seq<u8>, i: int) -> Option<(int, int)>
    decreases tag.len() - i,
{
    match first_at(tag, opened(name), i) {
        None => None,
        Some(at) => {
            let start = at + name.len() + 2;
            if i < 0 || at < i || start > tag.len() {
                None
            } else if at == i || space_before(tag, at) {
                Some(
                    (
                        start,
                        match byte_from(tag, 34, start) {
                            Some(end) => end,
                            None => tag.len() as int,
                        },
                    ),
                )
            } else {
                value_from(tag, name, start)
            }
        },
    }
}

/// One attribute out of an opening tag.
pub open spec fn attribute_in(tag: Seq<u8>, name: Seq<u8>) -> Option<Seq<u8>> {
    match value_from(tag, name, 0) {
        Some((start, end)) => Some(tag.subrange(start, end)),
        None => None,
    }
}

/// Where the value of an attribute starts and ends.
fn value_span(tag: &[u8], name: &str) -> (r: Option<(usize, usize)>)
    ensures
        match r {
            Some((start, end)) => value_from(tag@, ascii(name@), 0) == Some(
                (start as int, end as int),
            ) && start <= end <= tag@.len(),
            None => value_from(tag@, ascii(name@), 0) is None,
        },
{
    let mut needle: Vec<u8> = ascii_bytes(name);
    let ghost bare = needle@;
    needle.push(61);
    needle.push(34);
    assert(needle@ =~= opened(bare));
    let len: usize = tag.len();
    let mut i: usize = 0;
    loop
        invariant
            i <= tag@.len(),
            len == tag@.len(),
            needle@ == opened(bare),
            bare == ascii(name@),
            value_from(tag@, bare, 0) == value_from(tag@, bare, i as int),
        decreases tag@.len() - i,
    {
        match find(tag, needle.as_slice(), i) {
            None => {
                return None;
            },
            Some(at) => {
                let start: usize = at + needle.len();
                if at == i || is_space_before(tag, at) {
                    let end: usize = match find_byte(tag, 34, start) {
                        Some(end) => end,
                        None => tag.len(),
                    };
                    return Some((start, end));
                }
                i = start;
            },
        }
    }
}

/// One attribute out of an opening tag.
pub(crate) fn attribute<'a>(tag: &'a [u8], name: &str) -> (r: Option<&'a [u8]>)
    ensures
        match r {
            Some(value) => attribute_in(tag@, ascii(name@)) == Some(value@),
            None => attribute_in(tag@, ascii(name@)) is None,
        },
{
    match value_span(tag, name) {
        Some((start, end)) => Some(slice_subrange(tag, start, end)),
        None => None,
    }
}

/// `HH:MM:SS.mmm` in ticks, as near as ticks come to it, each number taken to
/// the thousand millionth; `None` where it is not three numbers with a colon
/// between, or is further off than ticks can count.
pub open spec fn clock_value(b: Seq<u8>) -> Option<int> {
    match byte_from(b, 58, 0) {
        None => None,
        Some(first) => match byte_from(b, 58, first + 1) {
            None => None,
            Some(second) => match (
                number(b.take(first)),
                number(b.subrange(first + 1, second)),
                number(b.skip(second + 1)),
            ) {
                (Some(h), Some(m), Some(s)) => {
                    let t = rounded((h * 3600 + m * 60 + s) * SECOND, 1_000_000_000);
                    if i64::MIN <= t <= i64::MAX {
                        Some(t)
                    } else {
                        None
                    }
                },
                _ => None,
            },
        },
    }
}

/// `HH:MM:SS.mmm` in ticks.
pub fn clock(b: &[u8]) -> (r: Option<i64>)
    ensures
        match r {
            Some(t) => clock_value(b@) == Some(t as int),
            None => clock_value(b@) is None,
        },
{
    let len: usize = b.len();
    let first: usize = match find_byte(b, 58, 0) {
        Some(at) => at,
        None => return None,
    };
    let second: usize = match find_byte(b, 58, first + 1) {
        Some(at) => at,
        None => return None,
    };
    let hours: &[u8] = slice_subrange(b, 0, first);
    let minutes: &[u8] = slice_subrange(b, first + 1, second);
    let seconds: &[u8] = slice_subrange(b, second + 1, len);
    assert(hours@ =~= b@.take(first as int));
    assert(seconds@ =~= b@.skip(second + 1));
    match (read_number(hours), read_number(minutes), read_number(seconds)) {
        (Some(h), Some(m), Some(s)) => {
            let total: i128 = h * 3600 + m * 60 + s;
            let t: i128 = crate::time::round_div(total * SECOND as i128, 1_000_000_000);
            if i64::MIN as i128 <= t && t <= i64::MAX as i128 {
                Some(t as i64)
            } else {
                None
            }
        },
        _ => None,
    }
}

/// When the caption in a document goes up and comes down, in ticks; `None`
/// where it does not say, or comes down before it is up.
pub open spec fn cue_in(doc: Seq<u8>) -> Option<(int, int)> {
    match tag_in(doc, ascii("<div"@)) {
        None => None,
        Some(div) => match (attribute_in(div, ascii("begin"@)), attribute_in(div, ascii("end"@))) {
            (Some(from), Some(to)) => match (clock_value(from), clock_value(to)) {
                (Some(begin), Some(end)) => if end > begin {
                    Some((begin, end))
                } else {
                    None
                },
                _ => None,
            },
            _ => None,
        },
    }
}

/// When the caption in a packet goes up and comes down.
pub open spec fn cue_of(payload: Seq<u8>) -> Option<(int, int)> {
    match document_in(payload) {
        Some(doc) => cue_in(doc),
        None => None,
    }
}

pub(crate) fn read_cue(doc: &[u8]) -> (r: Option<(i64, i64)>)
    ensures
        match r {
            Some((begin, end)) => cue_in(doc@) == Some((begin as int, end as int)) && begin < end,
            None => cue_in(doc@) is None,
        },
{
    let (_, div): (usize, &[u8]) = match tag_at(doc, ascii_bytes("<div").as_slice()) {
        Some(t) => t,
        None => return None,
    };
    match (attribute(div, "begin"), attribute(div, "end")) {
        (Some(from), Some(to)) => match (clock(from), clock(to)) {
            (Some(begin), Some(end)) => if end > begin {
                Some((begin, end))
            } else {
                None
            },
            _ => None,
        },
        _ => None,
    }
}

/// When the caption in this packet goes up and comes down, in ticks on the
/// recording's own clock.
pub fn cue(payload: &[u8]) -> (r: Option<(i64, i64)>)
    ensures
        match r {
            Some((begin, end)) => cue_of(payload@) == Some((begin as int, end as int)) && begin
                < end,
            None => cue_of(payload@) is None,
        },
{
    match document_bytes(payload) {
        Some((_, doc)) => read_cue(doc),
        None => None,
    }
}

/// Two digits.
pub open spec fn two_digits(n: int) -> Seq<u8> {
    seq![(48 + n / 10 % 10) as u8, (48 + n % 10) as u8]
}

/// Hours: two digits, and more where there are more of them.
pub open spec fn hours_text(n: int) -> Seq<u8>
    decreases n,
{
    if n < 100 {
        two_digits(n)
    } else {
        hours_text(n / 10).push((48 + n % 10) as u8)
    }
}

/// A time to the nearest thousandth, none before nought.
pub open spec fn in_millis(t: int) -> int {
    rounded(later(t, 0), MILLI as int)
}

/// A time the way the document writes one: `HH:MM:SS.mmm`.
pub open spec fn clock_text(t: int) -> Seq<u8> {
    let ms = in_millis(t);
    hours_text(ms / 3_600_000) + seq![58u8] + two_digits(ms / 60_000 % 60) + seq![58u8] + two_digits(
        ms / 1000 % 60,
    ) + seq![46u8, (48 + ms / 100 % 10) as u8, (48 + ms / 10 % 10) as u8, (48 + ms % 10) as u8]
}

fn put_two(out: &mut Vec<u8>, n: i64)
    requires
        0 <= n,
    ensures
        final(out)@ == old(out)@ + two_digits(n as int),
{
    out.push(48 + (n / 10 % 10) as u8);
    out.push(48 + (n % 10) as u8);
    assert(out@ =~= old(out)@ + two_digits(n as int));
}

fn put_hours(out: &mut Vec<u8>, n: i64)
    requires
        0 <= n,
    ensures
        final(out)@ == old(out)@ + hours_text(n as int),
    decreases n,
{
    if n < 100 {
        put_two(out, n);
    } else {
        put_hours(out, n / 10);
        out.push(48 + (n % 10) as u8);
        assert(out@ =~= old(out)@ + hours_text(n as int));
    }
}

/// A time the way the document writes one, in the width it already spends on
/// one.
pub fn written_clock(t: i64) -> (out: Vec<u8>)
    ensures
        out@ == clock_text(t as int),
{
    let from: i128 = if t > 0 {
        t as i128
    } else {
        0
    };
    let ms: i64 = ((2 * from + MILLI as i128) / (2 * MILLI as i128)) as i64;
    let mut out: Vec<u8> = Vec::new();
    put_hours(&mut out, ms / 3_600_000);
    out.push(58);
    put_two(&mut out, ms / 60_000 % 60);
    out.push(58);
    put_two(&mut out, ms / 1000 % 60);
    out.push(46);
    out.push(48 + (ms / 100 % 10) as u8);
    out.push(48 + (ms / 10 % 10) as u8);
    out.push(48 + (ms % 10) as u8);
    assert(out@ =~= clock_text(t as int));
    out
}

/// Bytes with others written over them from `start` on.
pub open spec fn overwritten(b: Seq<u8>, start: int, text: Seq<u8>) -> Seq<u8> {
    Seq::new(
        b.len(),
        |i: int|
            if start <= i < start + text.len() {
                text[i - start]
            } else {
                b[i]
            },
    )
}

/// Where in a packet one of its document's times starts and ends.
pub open spec fn time_span(payload: Seq<u8>, name: Seq<u8>) -> Option<(int, int)> {
    match document_at(payload) {
        None => None,
        Some(doc_at) => match tag_span(payload.skip(doc_at), ascii("<div"@)) {
            None => None,
            Some((at, end)) => {
                match value_from(payload.skip(doc_at).subrange(at, end), name, 0) {
                    None => None,
                    Some((from, to)) => Some((doc_at + at + from, doc_at + at + to)),
                }
            },
        },
    }
}

/// A packet with one of its document's times written over; `None` where the
/// one that stands in `payload` leaves no room for it.
pub open spec fn with_time(
    out: Seq<u8>,
    payload: Seq<u8>,
    name: Seq<u8>,
    t: int,
) -> Option<Seq<u8>> {
    match time_span(payload, name) {
        None => None,
        Some((start, end)) => if end - start < clock_text(t).len() {
            None
        } else {
            Some(overwritten(out, start, clock_text(t)))
        },
    }
}

/// A packet with both its document's times written over; `None` where one of
/// them does not fit.
pub open spec fn with_times(payload: Seq<u8>, up: int, down: int) -> Option<Seq<u8>> {
    match with_time(payload, payload, ascii("begin"@), up) {
        None => None,
        Some(half) => with_time(half, payload, ascii("end"@), down),
    }
}

/// When a caption that is up from `begin` to `end` goes up and comes down in
/// a cut that keeps `window` and moves it by `shift`; `None` where it does not
/// belong in that window at all.
pub open spec fn moved_cue(begin: int, end: int, shift: int, window: (int, int)) -> Option<
    (int, int),
> {
    if end <= window.0 || begin >= window.1 {
        None
    } else {
        Some((later(begin, window.0) + shift, earlier(end, window.1) + shift))
    }
}

/// A packet with its times moved and clipped.
pub open spec fn moved_packet(payload: Seq<u8>, shift: int, window: (int, int)) -> Option<Seq<u8>> {
    match cue_of(payload) {
        None => None,
        Some((begin, end)) => match moved_cue(begin, end, shift, window) {
            None => None,
            Some((up, down)) => with_times(payload, up, down),
        },
    }
}

/// Write a time over the one that is there, where it fits.
fn put_time(out: &mut Vec<u8>, tag_at: usize, tag: &[u8], name: &str, t: i64) -> (r: bool)
    requires
        tag_at + tag@.len() <= old(out)@.len(),
    ensures
        match value_from(tag@, ascii(name@), 0) {
            None => !r,
            Some((start, end)) => if end - start < clock_text(t as int).len() {
                !r
            } else {
                r && final(out)@ == overwritten(
                    old(out)@,
                    tag_at + start,
                    clock_text(t as int),
                )
            },
        },
        final(out)@.len() == old(out)@.len(),
{
    let (from, to): (usize, usize) = match value_span(tag, name) {
        Some(v) => v,
        None => return false,
    };
    let len: usize = out.len();
    let start: usize = tag_at + from;
    let text: Vec<u8> = written_clock(t);
    if to - from < text.len() {
        return false;
    }
    let ghost before = out@;
    let mut i: usize = 0;
    while i < text.len()
        invariant
            i <= text@.len(),
            before.len() == len,
            out@.len() == len,
            start + text@.len() <= len,
            forall|j: int|
                0 <= j < len ==> out@[j] == (if start <= j < start + i {
                    text@[j - start]
                } else {
                    before[j]
                }),
        decreases text@.len() - i,
    {
        out.set(start + i, text[i]);
        i += 1;
    }
    assert(out@ =~= overwritten(before, start as int, text@));
    true
}

/// The times of a packet stand where its document's tag has them.
proof fn lemma_time_of_tag(payload: Seq<u8>, doc_at: int, at: int, tag: Seq<u8>, name: Seq<u8>)
    requires
        document_at(payload) == Some(doc_at),
        tag_span(payload.skip(doc_at), ascii("<div"@)) == Some((at, at + tag.len())),
        tag == payload.skip(doc_at).subrange(at, at + tag.len()),
    ensures
        time_span(payload, name) == (match value_from(tag, name, 0) {
            None => None,
            Some((from, to)) => Some((doc_at + at + from, doc_at + at + to)),
        }),
{
}

/// Write both times of a packet over.
fn put_times(payload: &[u8], up: i64, down: i64) -> (r: Option<Vec<u8>>)
    ensures
        match r {
            Some(out) => with_times(payload@, up as int, down as int) == Some(out@) && out@.len()
                == payload@.len(),
            None => document_in(payload@) is None || with_times(
                payload@,
                up as int,
                down as int,
            ) is None,
        },
{
    let (doc_at, doc): (usize, &[u8]) = match document_bytes(payload) {
        Some(d) => d,
        None => return None,
    };
    let (at, tag): (usize, &[u8]) = match tag_at(doc, ascii_bytes("<div").as_slice()) {
        Some(t) => t,
        None => return None,
    };
    proof {
        lemma_time_of_tag(payload@, doc_at as int, at as int, tag@, ascii("begin"@));
        lemma_time_of_tag(payload@, doc_at as int, at as int, tag@, ascii("end"@));
    }
    let mut out: Vec<u8> = copied(payload);
    assert(out@.len() == out.len());
    if !put_time(&mut out, doc_at + at, tag, "begin", up) {
        return None;
    }
    let ghost half = out@;
    assert(with_time(payload@, payload@, ascii("begin"@), up as int) == Some(half));
    if !put_time(&mut out, doc_at + at, tag, "end", down) {
        return None;
    }
    assert(with_time(half, payload@, ascii("end"@), down as int) == Some(out@));
    Some(out)
}

/// The same document with its times moved by `shift` and clipped to
/// `window`, or `None` where the caption does not belong in that window at
/// all.
///
/// **The document's length does not change.** `HH:MM:SS.mmm` is a fixed
/// width, so a time written back over another takes the same room -- which
/// matters because the twelve bytes the recorder writes in front of the
/// document count it, and a document whose length no longer matched them
/// would be one nothing downstream could believe. A time that does not fit
/// where one stood, as none from a hundred hours on does, is not written: the
/// answer is `None`.
///
/// A caption that was already on screen when the range opened is kept, with
/// its beginning moved up to the range's own: what a viewer should see at
/// the first frame of a cut is what they would have seen at that frame.
pub fn retimed(payload: &[u8], shift: i64, window: (i64, i64)) -> (r: Option<Vec<u8>>)
    requires
        in_reach(shift as int),
        in_reach(window.0 as int),
        in_reach(window.1 as int),
    ensures
        match r {
            Some(out) => moved_packet(payload@, shift as int, (window.0 as int, window.1 as int))
                == Some(out@) && out@.len() == payload@.len(),
            None => moved_packet(payload@, shift as int, (window.0 as int, window.1 as int)) is None,
        },
{
    let (begin, end): (i64, i64) = match cue(payload) {
        Some(c) => c,
        None => return None,
    };
    let (from, to): (i64, i64) = window;
    if end <= from || begin >= to {
        return None;
    }
    let up: i64 = max_time(begin, from) + shift;
    let down: i64 = min_time(end, to) + shift;
    put_times(payload, up, down)
}

/// Whether a byte is one a time is written with.
pub open spec fn on_a_clock(c: u8) -> bool {
    48 <= c <= 58 || c == 46
}

/// Whether two runs of bytes differ in nothing but their times.
pub open spec fn alike(a: Seq<u8>, b: Seq<u8>) -> bool {
    a.len() == b.len() && forall|i: int|
        0 <= i < a.len() ==> #[trigger] a[i] == b[i] || (on_a_clock(a[i]) && on_a_clock(b[i]))
}

/// Whether a run of bytes has nothing in it that a time is written with.
pub open spec fn timeless(b: Seq<u8>) -> bool {
    b.len() > 0 && forall|i: int| 0 <= i < b.len() ==> !on_a_clock(#[trigger] b[i])
}

/// What differs in nothing but times holds the same words at the same places.
proof fn lemma_alike_stands(a: Seq<u8>, b: Seq<u8>, needle: Seq<u8>, i: int)
    requires
        alike(a, b),
        timeless(needle),
    ensures
        stands_at(a, needle, i) == stands_at(b, needle, i),
{
    if 0 <= i && i + needle.len() <= a.len() {
        assert forall|k: int| 0 <= k < needle.len() implies (a[i + k] == #[trigger] needle[k]) == (b[i
            + k] == needle[k]) by {
            assert(!on_a_clock(needle[k]));
            assert(a[i + k] == b[i + k] || (on_a_clock(a[i + k]) && on_a_clock(b[i + k])));
        }
    }
}

/// What differs in nothing but times holds a word first at the same place.
proof fn lemma_alike_first(a: Seq<u8>, b: Seq<u8>, needle: Seq<u8>, i: int)
    requires
        alike(a, b),
        timeless(needle),
    ensures
        first_at(a, needle, i) == first_at(b, needle, i),
    decreases a.len() - i,
{
    lemma_alike_stands(a, b, needle, i);
    if 0 <= i && i + needle.len() <= a.len() && i < a.len() {
        lemma_alike_first(a, b, needle, i + 1);
    }
}

/// The same of one byte.
proof fn lemma_alike_byte(a: Seq<u8>, b: Seq<u8>, c: u8, i: int)
    requires
        alike(a, b),
        !on_a_clock(c),
    ensures
        byte_from(a, c, i) == byte_from(b, c, i),
    decreases a.len() - i,
{
    if 0 <= i < a.len() {
        assert(a[i] == b[i] || (on_a_clock(a[i]) && on_a_clock(b[i])));
        lemma_alike_byte(a, b, c, i + 1);
    }
}

/// Parts of what differs in nothing but times differ in nothing else either.
proof fn lemma_alike_part(a: Seq<u8>, b: Seq<u8>, from: int, to: int)
    requires
        alike(a, b),
        0 <= from <= to <= a.len(),
    ensures
        alike(a.subrange(from, to), b.subrange(from, to)),
{
    let (x, y) = (a.subrange(from, to), b.subrange(from, to));
    assert forall|i: int| 0 <= i < x.len() implies #[trigger] x[i] == y[i] || (on_a_clock(x[i])
        && on_a_clock(y[i])) by {
        assert(a[from + i] == b[from + i] || (on_a_clock(a[from + i]) && on_a_clock(b[from + i])));
    }
}

/// What differs in nothing but times is text where the other is.
proof fn lemma_alike_valid(a: Seq<u8>, b: Seq<u8>)
    requires
        alike(a, b),
        valid_utf8(a),
    ensures
        valid_utf8(b),
    decreases a.len(),
{
    if a.len() > 0 {
        assert(a[0] == b[0] || (on_a_clock(a[0]) && on_a_clock(b[0])));
        let n = vstd::utf8::length_of_first_scalar(a);
        assert forall|i: int| 0 <= i < n && i < a.len() && a[0] >= 0x80 implies a[i] == b[i] by {
            assert(a[i] == b[i] || (on_a_clock(a[i]) && on_a_clock(b[i])));
        }
        assert(vstd::utf8::valid_first_scalar(b));
        assert(vstd::utf8::length_of_first_scalar(b) == n);
        lemma_alike_part(a, b, n, a.len() as int);
        lemma_alike_valid(vstd::utf8::pop_first_scalar(a), vstd::utf8::pop_first_scalar(b));
    }
}

/// What differs in nothing but times has its attributes at the same places.
proof fn lemma_alike_value(a: Seq<u8>, b: Seq<u8>, name: Seq<u8>, i: int)
    requires
        alike(a, b),
        timeless(opened(name)),
        0 <= i,
    ensures
        value_from(a, name, i) == value_from(b, name, i),
    decreases a.len() - i,
{
    lemma_alike_first(a, b, opened(name), i);
    if let Some(at) = first_at(a, opened(name), i) {
        lemma_first_at(a, opened(name), i);
        let start = at + name.len() + 2;
        lemma_alike_byte(a, b, 34, start);
        assert(space_before(a, at) == space_before(b, at)) by {
            if 0 < at <= a.len() {
                assert(a[at - 1] == b[at - 1] || (on_a_clock(a[at - 1]) && on_a_clock(b[at - 1])));
                if at >= 2 {
                    assert(a[at - 2] == b[at - 2] || (on_a_clock(a[at - 2]) && on_a_clock(
                        b[at - 2],
                    )));
                }
                if at >= 3 {
                    assert(a[at - 3] == b[at - 3] || (on_a_clock(a[at - 3]) && on_a_clock(
                        b[at - 3],
                    )));
                }
            }
        }
        if start <= a.len() && at != i && !space_before(a, at) {
            lemma_alike_value(a, b, name, start);
        }
    }
}

/// Two digits read back.
proof fn lemma_two_read(n: int)
    requires
        0 <= n < 100,
    ensures
        all_digits(two_digits(n)),
        digits_number(two_digits(n)) == n,
        number(two_digits(n)) == Some(n * 1_000_000_000),
{
    let b = two_digits(n);
    assert(b.drop_last() =~= seq![b[0]]);
    assert(seq![b[0]].drop_last() =~= Seq::empty());
    reveal_with_fuel(digits_number, 3);
    lemma_plain_digits(b);
}

/// Seconds and thousandths read back.
proof fn lemma_seconds_read(s: int, a: int, b: int, c: int)
    requires
        0 <= s < 100,
        0 <= a < 10,
        0 <= b < 10,
        0 <= c < 10,
    ensures
        number(two_digits(s) + seq![46u8, (48 + a) as u8, (48 + b) as u8, (48 + c) as u8]) == Some(
            s * 1_000_000_000 + (a * 100 + b * 10 + c) * 1_000_000,
        ),
{
    let part = seq![(48 + a) as u8, (48 + b) as u8, (48 + c) as u8];
    assert(two_digits(s) + seq![46u8, (48 + a) as u8, (48 + b) as u8, (48 + c) as u8] =~= two_digits(
        s,
    ) + seq![46u8] + part);
    lemma_two_read(s);
    assert(part.drop_last() =~= seq![part[0], part[1]]);
    assert(part.drop_last().drop_last() =~= seq![part[0]]);
    assert(part.drop_last().drop_last().drop_last() =~= Seq::empty());
    reveal_with_fuel(digits_number, 4);
    assert(digits_number(part) == a * 100 + b * 10 + c);
    assert(all_digits(part));
    lemma_pointed_digits(two_digits(s), part);
}

/// Where the parts of a time that is written out stand.
proof fn lemma_clock_parts(h: int, m: int, s: int, a: int, b: int, c: int)
    requires
        0 <= h < 100,
        0 <= m < 60,
        0 <= s < 60,
        0 <= a < 10,
        0 <= b < 10,
        0 <= c < 10,
    ensures
        ({
            let text = two_digits(h) + seq![58u8] + two_digits(m) + seq![58u8] + two_digits(s)
                + seq![46u8, (48 + a) as u8, (48 + b) as u8, (48 + c) as u8];
            &&& text.len() == 12
            &&& forall|i: int| 0 <= i < 12 ==> on_a_clock(#[trigger] text[i])
            &&& byte_from(text, 58, 0) == Some(2int)
            &&& byte_from(text, 58, 3) == Some(5int)
            &&& text.take(2) == two_digits(h)
            &&& text.subrange(3, 5) == two_digits(m)
            &&& text.skip(6) == two_digits(s) + seq![
                46u8,
                (48 + a) as u8,
                (48 + b) as u8,
                (48 + c) as u8,
            ]
        }),
{
    let text = two_digits(h) + seq![58u8] + two_digits(m) + seq![58u8] + two_digits(s) + seq![
        46u8,
        (48 + a) as u8,
        (48 + b) as u8,
        (48 + c) as u8,
    ];
    lemma_byte_is_first(text, 58, 0, 2);
    lemma_byte_is_first(text, 58, 3, 5);
    assert(text.take(2) =~= two_digits(h));
    assert(text.subrange(3, 5) =~= two_digits(m));
    assert(text.skip(6) =~= two_digits(s) + seq![
        46u8,
        (48 + a) as u8,
        (48 + b) as u8,
        (48 + c) as u8,
    ]);
}

/// Thousandths are a whole number of ticks.
proof fn lemma_millis_are_ticks(ms: int)
    requires
        0 <= ms < 360_000_000,
    ensures
        rounded(ms * 1_000_000 * SECOND, 1_000_000_000) == ms * MILLI,
        in_reach(ms * MILLI),
{
    let v = ms * 705_600;
    assert(ms * 1_000_000 * 705_600_000 == v * 1_000_000_000);
    assert((2 * (v * 1_000_000_000) + 1_000_000_000) / 2_000_000_000int == v);
}

/// A time written out reads back to the thousandth, up to a hundred hours.
pub proof fn law_a_clock_reads_back(t: int)
    requires
        in_millis(t) < 360_000_000,
    ensures
        clock_text(t).len() == 12,
        forall|i: int| 0 <= i < 12 ==> on_a_clock(#[trigger] clock_text(t)[i]),
        clock_value(clock_text(t)) == Some(in_millis(t) * MILLI),
{
    let ms = in_millis(t);
    assert(0 <= ms) by {
        vstd::arithmetic::div_mod::lemma_div_pos_is_pos(2 * later(t, 0) + MILLI, 2 * MILLI as int);
    }
    let (h, m, s) = (ms / 3_600_000, ms / 60_000 % 60, ms / 1000 % 60);
    let (a, b, c) = (ms / 100 % 10, ms / 10 % 10, ms % 10);
    lemma_two_read(h);
    lemma_two_read(m);
    lemma_seconds_read(s, a, b, c);
    lemma_clock_parts(h, m, s, a, b, c);
    lemma_millis_split(ms);
    lemma_millis_are_ticks(ms);
    let tail = s * 1_000_000_000 + (a * 100 + b * 10 + c) * 1_000_000;
    assert(h * 1_000_000_000 * 3600 + m * 1_000_000_000 * 60 + tail == ms * 1_000_000);
}

/// Hours, minutes, seconds and thousandths make up the whole.
proof fn lemma_millis_split(ms: int)
    requires
        0 <= ms,
    ensures
        ms == ms / 3_600_000 * 3_600_000 + ms / 60_000 % 60 * 60_000 + ms / 1000 % 60 * 1000 + ms
            / 100 % 10 * 100 + ms / 10 % 10 * 10 + ms % 10,
{
    assert(ms / 3_600_000 == ms / 60_000 / 60);
    assert(ms / 60_000 == ms / 1000 / 60);
    assert(ms / 100 == ms / 10 / 10);
    assert(ms / 1000 == ms / 100 / 10);
}

/// Whether a document writes one of its times the way a recorder does: in
/// twelve characters of clock.
pub open spec fn clocked(tag: Seq<u8>, name: Seq<u8>) -> bool {
    match value_from(tag, name, 0) {
        None => false,
        Some((start, end)) => end == start + 12 && forall|i: int|
            start <= i < end ==> on_a_clock(#[trigger] tag[i]),
    }
}

/// Whether a packet's document writes both its times the way a recorder does.
pub open spec fn clocked_packet(payload: Seq<u8>) -> bool {
    match document_in(payload) {
        None => false,
        Some(doc) => match tag_in(doc, ascii("<div"@)) {
            None => false,
            Some(tag) => clocked(tag, ascii("begin"@)) && clocked(tag, ascii("end"@)),
        },
    }
}

/// The words looked for have nothing of a clock in them.
proof fn lemma_words_are_timeless()
    ensures
        timeless(ascii("<?xml"@)),
        timeless(ascii("<div"@)),
        timeless(opened(ascii("begin"@))),
        timeless(opened(ascii("end"@))),
        ascii("begin"@).len() == 5,
        ascii("end"@).len() == 3,
        ascii("begin"@)[2] == 103,
        ascii("end"@)[0] == 101,
{
    reveal_strlit("<?xml");
    reveal_strlit("<div");
    reveal_strlit("begin");
    reveal_strlit("end");
    let x = ascii("<?xml"@);
    assert(x.len() == 5 && x[0] == 60 && x[1] == 63 && x[2] == 120 && x[3] == 109 && x[4] == 108);
    let d = ascii("<div"@);
    assert(d.len() == 4 && d[0] == 60 && d[1] == 100 && d[2] == 105 && d[3] == 118);
    let b = ascii("begin"@);
    assert(b.len() == 5 && b[0] == 98 && b[1] == 101 && b[2] == 103 && b[3] == 105 && b[4] == 110);
    let e = ascii("end"@);
    assert(e.len() == 3 && e[0] == 101 && e[1] == 110 && e[2] == 100);
}

/// What opens an attribute stands right before its value, and the value is in
/// the tag.
proof fn lemma_value_stands(tag: Seq<u8>, name: Seq<u8>, i: int)
    requires
        0 <= i,
    ensures
        value_from(tag, name, i) matches Some((start, end)) ==> {
            &&& i + name.len() + 2 <= start <= end <= tag.len()
            &&& stands_at(tag, opened(name), start - name.len() - 2)
        },
    decreases tag.len() - i,
{
    if let Some(at) = first_at(tag, opened(name), i) {
        lemma_first_at(tag, opened(name), i);
        let start = at + name.len() + 2;
        lemma_byte_after(tag, 34, start);
        if start <= tag.len() && at != i && !space_before(tag, at) {
            lemma_value_stands(tag, name, start);
        }
    }
}

/// Two times in one tag stand apart.
proof fn lemma_times_stand_apart(tag: Seq<u8>)
    requires
        clocked(tag, ascii("begin"@)),
        clocked(tag, ascii("end"@)),
    ensures
        ({
            let up = (value_from(tag, ascii("begin"@), 0)->0).0;
            let down = (value_from(tag, ascii("end"@), 0)->0).0;
            up + 12 <= down || down + 12 <= up
        }),
{
    lemma_words_are_timeless();
    let (b, e) = (opened(ascii("begin"@)), opened(ascii("end"@)));
    lemma_value_stands(tag, ascii("begin"@), 0);
    lemma_value_stands(tag, ascii("end"@), 0);
    let i = (value_from(tag, ascii("begin"@), 0)->0).0 - 7;
    let j = (value_from(tag, ascii("end"@), 0)->0).0 - 5;
    assert(stands_at(tag, b, i) && stands_at(tag, e, j));
    // The words themselves stand outside both times.
    assert forall|k: int| 0 <= k < 7 implies !on_a_clock(#[trigger] tag[i + k]) by {
        assert(tag[i + k] == b[k]);
        assert(!on_a_clock(b[k]));
    }
    assert forall|k: int| 0 <= k < 5 implies !on_a_clock(#[trigger] tag[j + k]) by {
        assert(tag[j + k] == e[k]);
        assert(!on_a_clock(e[k]));
    }
    if i + 19 > j + 5 && j + 17 > i + 7 {
        if j + 4 >= i + 7 {
            assert(j + 4 < i + 19);
            assert(on_a_clock(tag[j + 4]));
        } else if i + 6 >= j + 5 {
            assert(i + 6 < j + 17);
            assert(on_a_clock(tag[i + 6]));
        } else {
            assert(j == i + 2);
            assert(tag[i + 2] == b[2] && tag[j + 0] == e[0]);
        }
    }
}

/// Where the parts of a packet's document stand.
proof fn lemma_packet_parts(payload: Seq<u8>)
    requires
        clocked_packet(payload),
    ensures
        ({
            let doc_at = document_at(payload)->0;
            let (at, end) = tag_span(payload.skip(doc_at), ascii("<div"@))->0;
            &&& document_at(payload) is Some
            &&& tag_span(payload.skip(doc_at), ascii("<div"@)) is Some
            &&& 0 <= doc_at <= payload.len()
            &&& 0 <= at <= end <= payload.len() - doc_at
        }),
{
    let doc_at = document_at(payload)->0;
    lemma_first_at(payload, ascii("<?xml"@), 0);
    let doc = payload.skip(doc_at);
    let (at, end) = tag_span(doc, ascii("<div"@))->0;
    lemma_first_at(doc, ascii("<div"@), 0);
    lemma_byte_after(doc, 62, at);
}

/// Both times written over leave a packet that differs in nothing else.
proof fn lemma_both_written(payload: Seq<u8>, u: Seq<u8>, d: Seq<u8>)
    requires
        clocked_packet(payload),
        u.len() == 12,
        d.len() == 12,
        forall|i: int| 0 <= i < 12 ==> on_a_clock(#[trigger] u[i]),
        forall|i: int| 0 <= i < 12 ==> on_a_clock(#[trigger] d[i]),
    ensures
        ({
            let p = (time_span(payload, ascii("begin"@))->0).0;
            let q = (time_span(payload, ascii("end"@))->0).0;
            let out = overwritten(overwritten(payload, p, u), q, d);
            &&& 0 <= p && p + 12 <= payload.len()
            &&& 0 <= q && q + 12 <= payload.len()
            &&& alike(payload, out)
            &&& out.subrange(p, p + 12) == u
            &&& out.subrange(q, q + 12) == d
        }),
{
    lemma_packet_parts(payload);
    lemma_words_are_timeless();
    let doc_at = document_at(payload)->0;
    let (at, end) = tag_span(payload.skip(doc_at), ascii("<div"@))->0;
    let tag = payload.skip(doc_at).subrange(at, end);
    lemma_value_stands(tag, ascii("begin"@), 0);
    lemma_value_stands(tag, ascii("end"@), 0);
    lemma_times_stand_apart(tag);
    let p = (time_span(payload, ascii("begin"@))->0).0;
    let q = (time_span(payload, ascii("end"@))->0).0;
    let out = overwritten(overwritten(payload, p, u), q, d);
    assert forall|k: int| 0 <= k < payload.len() implies #[trigger] payload[k] == out[k] || (
    on_a_clock(payload[k]) && on_a_clock(out[k])) by {
        if p <= k < p + 12 {
            assert(payload[k] == tag[k - doc_at - at]);
            assert(on_a_clock(u[k - p]));
        } else if q <= k < q + 12 {
            assert(payload[k] == tag[k - doc_at - at]);
            assert(on_a_clock(d[k - q]));
        }
    }
    assert(out.subrange(p, p + 12) =~= u);
    assert(out.subrange(q, q + 12) =~= d);
}

/// A packet that differs from another in nothing but its times has them at
/// the same places.
proof fn lemma_alike_packet(payload: Seq<u8>, out: Seq<u8>, name: Seq<u8>)
    requires
        clocked_packet(payload),
        alike(payload, out),
        timeless(opened(name)),
        ({
            let doc = document_in(payload)->0;
            clocked(tag_in(doc, ascii("<div"@))->0, name)
        }),
    ensures
        document_in(out) is Some,
        tag_in(document_in(out)->0, ascii("<div"@)) is Some,
        attribute_in(tag_in(document_in(out)->0, ascii("<div"@))->0, name) == Some(
            out.subrange((time_span(payload, name)->0).0, (time_span(payload, name)->0).1),
        ),
{
    lemma_packet_parts(payload);
    lemma_words_are_timeless();
    let (xml, div) = (ascii("<?xml"@), ascii("<div"@));
    lemma_alike_first(payload, out, xml, 0);
    let doc_at = document_at(payload)->0;
    let (doc, new_doc) = (payload.skip(doc_at), out.skip(doc_at));
    lemma_alike_part(payload, out, doc_at, payload.len() as int);
    assert(payload.subrange(doc_at, payload.len() as int) =~= doc);
    assert(out.subrange(doc_at, payload.len() as int) =~= new_doc);
    lemma_alike_valid(doc, new_doc);
    lemma_alike_first(doc, new_doc, div, 0);
    let (at, end) = tag_span(doc, div)->0;
    lemma_alike_byte(doc, new_doc, 62, at);
    let (tag, new_tag) = (doc.subrange(at, end), new_doc.subrange(at, end));
    lemma_alike_part(doc, new_doc, at, end);
    lemma_alike_value(tag, new_tag, name, 0);
    lemma_value_stands(tag, name, 0);
    let (start, stop) = value_from(tag, name, 0)->0;
    let (from, to) = time_span(payload, name)->0;
    assert(new_tag.subrange(start, stop) =~= out.subrange(from, to));
}

/// Hours of which there are a hundred or more take three characters and over.
proof fn lemma_many_hours(n: int)
    requires
        n >= 100,
    ensures
        hours_text(n).len() >= 3,
    decreases n,
{
    reveal_with_fuel(hours_text, 2);
    if n / 10 >= 100 {
        lemma_many_hours(n / 10);
    }
}

/// A caption whose range is kept is up in the cut from when the cut says to
/// when it says, to the thousandth, and its packet is as long as it was. The
/// one that would come down a hundred hours in, or later, is left behind: its
/// time would take more room than there is.
#[verifier::spinoff_prover]
#[verifier::rlimit(60)]
pub proof fn law_a_kept_caption_moves_with_the_cut(
    payload: Seq<u8>,
    shift: int,
    window: (int, int),
)
    requires
        clocked_packet(payload),
        cue_of(payload) is Some,
        ({
            let (begin, end) = cue_of(payload)->0;
            match moved_cue(begin, end, shift, window) {
                Some((up, down)) => in_millis(up) < in_millis(down),
                None => false,
            }
        }),
    ensures
        ({
            let (begin, end) = cue_of(payload)->0;
            let (up, down) = moved_cue(begin, end, shift, window)->0;
            match moved_packet(payload, shift, window) {
                Some(out) => in_millis(down) < 360_000_000 && out.len() == payload.len() && cue_of(
                    out,
                ) == Some((in_millis(up) * MILLI, in_millis(down) * MILLI)),
                None => in_millis(down) >= 360_000_000,
            }
        }),
{
    let (begin, end) = cue_of(payload)->0;
    let (up, down) = moved_cue(begin, end, shift, window)->0;
    let (bn, en) = (ascii("begin"@), ascii("end"@));
    lemma_words_are_timeless();
    lemma_packet_parts(payload);
    let (p, q) = ((time_span(payload, bn)->0).0, (time_span(payload, en)->0).0);
    if in_millis(down) >= 360_000_000 {
        lemma_many_hours(in_millis(down) / 3_600_000);
        assert(clock_text(down).len() > 12);
        assert(time_span(payload, en) == Some((q, q + 12)));
        assert forall|half: Seq<u8>| #[trigger] with_time(half, payload, en, down) is None by {}
    } else {
        law_a_clock_reads_back(up);
        law_a_clock_reads_back(down);
        let (u, d) = (clock_text(up), clock_text(down));
        lemma_both_written(payload, u, d);
        let half = overwritten(payload, p, u);
        let out = overwritten(half, q, d);
        assert(time_span(payload, bn) == Some((p, p + 12)));
        assert(time_span(payload, en) == Some((q, q + 12)));
        assert(with_time(payload, payload, bn, up) == Some(half));
        assert(with_time(half, payload, en, down) == Some(out));
        lemma_alike_packet(payload, out, bn);
        lemma_alike_packet(payload, out, en);
        assert(in_millis(up) * MILLI < in_millis(down) * MILLI) by (nonlinear_arith)
            requires
                in_millis(up) < in_millis(down),
                MILLI == 705_600,
        ;
    }
}

/// Nothing of a packet changes but its two times: it is as long as it was, and
/// what stands outside them stands there still.
pub proof fn law_only_the_times_are_written_over(payload: Seq<u8>, shift: int, window: (int, int))
    ensures
        moved_packet(payload, shift, window) matches Some(out) ==> {
            &&& time_span(payload, ascii("begin"@)) is Some
            &&& time_span(payload, ascii("end"@)) is Some
            &&& out.len() == payload.len()
            &&& forall|i: int|
                0 <= i < out.len() && !in_time(payload, ascii("begin"@), i) && !in_time(
                    payload,
                    ascii("end"@),
                    i,
                ) ==> #[trigger] out[i] == payload[i]
        },
{
}

/// Whether a byte of a packet belongs to one of its document's times.
pub open spec fn in_time(payload: Seq<u8>, name: Seq<u8>, i: int) -> bool {
    time_span(payload, name) matches Some((start, end)) && start <= i < end
}

/// A byte that is found is found behind where it was looked for.
proof fn lemma_byte_after(b: Seq<u8>, c: u8, i: int)
    requires
        0 <= i,
    ensures
        match byte_from(b, c, i) {
            Some(at) => i <= at < b.len() && b[at] == c,
            None => true,
        },
    decreases b.len() - i,
{
    if i < b.len() && b[i] != c {
        lemma_byte_after(b, c, i + 1);
    }
}

} // verus!
