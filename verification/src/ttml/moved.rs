//! What a caption's packet says, and what a cut makes of it.
use crate::bytes::{
    ascii, byte_from, first_at, lemma_byte_is_first, lemma_first_at, stands_at,
};
use crate::time::{law_rounding_is_to_the_nearest, SECOND};
use crate::ttml::{
    attribute_in, clock_text, clock_value, clocked_packet, cue_of, document_in, in_millis, law_a_clock_reads_back,
    law_a_kept_caption_moves_with_the_cut, lemma_clock_parts, lemma_seconds_read, lemma_two_read,
    lemma_value_stands, lemma_words_are_timeless, moved_packet, opened, tag_in, time_span, two_digits,
    value_from, MILLI,
};
use vstd::prelude::*;
use vstd::utf8::valid_utf8;

verus! {

/// A digit, as it is written.
pub open spec fn digit(n: int) -> u8 {
    (48 + n) as u8
}

/// Whether some bytes are a time as a recorder writes one: `HH:MM:SS.mmm`.
pub open spec fn spells_a_time(text: Seq<u8>) -> bool {
    &&& text.len() == 12
    &&& text[2] == 58 && text[5] == 58 && text[8] == 46
    &&& forall|i: int|
        0 <= i < 12 && i != 2 && i != 5 && i != 8 ==> 48 <= #[trigger] text[i] <= 57
    &&& text[3] < 54 && text[6] < 54
}

/// The number two digits of a text stand for.
pub open spec fn pair_at(text: Seq<u8>, i: int) -> int {
    10 * (text[i] - 48) + (text[i + 1] - 48)
}

/// A clock says what it spells: hours, minutes, seconds and thousandths, each
/// of them in decimal.
pub proof fn law_a_clock_says_what_it_spells(text: Seq<u8>)
    requires
        spells_a_time(text),
    ensures
        clock_value(text) == Some(
            (pair_at(text, 0) * 3600 + pair_at(text, 3) * 60 + pair_at(text, 6)) * SECOND + (10
                * pair_at(text, 9) + (text[11] - 48)) * (SECOND / 1000),
        ),
{
    let (h, m, s) = (pair_at(text, 0), pair_at(text, 3), pair_at(text, 6));
    let (a, b, c) = (text[9] - 48, text[10] - 48, text[11] - 48);
    lemma_text_is(text);
    lemma_spelled(h, m, s, a, b, c);
}

#[verifier::spinoff_prover]
#[verifier::rlimit(60)]
proof fn lemma_text_is(text: Seq<u8>)
    requires
        spells_a_time(text),
    ensures
        text == two_digits(pair_at(text, 0)) + seq![58u8] + two_digits(pair_at(text, 3)) + seq![58u8]
            + two_digits(pair_at(text, 6)) + seq![
            46u8,
            digit(text[9] - 48),
            digit(text[10] - 48),
            digit(text[11] - 48),
        ],
        0 <= pair_at(text, 0) < 100,
        0 <= pair_at(text, 3) < 60,
        0 <= pair_at(text, 6) < 60,
        0 <= text[9] - 48 <= 9,
        0 <= text[10] - 48 <= 9,
        0 <= text[11] - 48 <= 9,
{
    lemma_pair(text, 0);
    lemma_pair(text, 3);
    lemma_pair(text, 6);
    assert(text =~= two_digits(pair_at(text, 0)) + seq![58u8] + two_digits(pair_at(text, 3))
        + seq![58u8] + two_digits(pair_at(text, 6)) + seq![
        46u8,
        digit(text[9] - 48),
        digit(text[10] - 48),
        digit(text[11] - 48),
    ]);
}

proof fn lemma_pair(text: Seq<u8>, i: int)
    requires
        0 <= i,
        i + 1 < text.len(),
        48 <= text[i] <= 57,
        48 <= text[i + 1] <= 57,
    ensures
        two_digits(pair_at(text, i)).len() == 2,
        two_digits(pair_at(text, i))[0] == text[i],
        two_digits(pair_at(text, i))[1] == text[i + 1],
{
}

#[verifier::spinoff_prover]
#[verifier::rlimit(60)]
proof fn lemma_spelled(h: int, m: int, s: int, a: int, b: int, c: int)
    requires
        0 <= h < 100,
        0 <= m < 60,
        0 <= s < 60,
        0 <= a < 10,
        0 <= b < 10,
        0 <= c < 10,
    ensures
        clock_value(
            two_digits(h) + seq![58u8] + two_digits(m) + seq![58u8] + two_digits(s) + seq![
                46u8,
                digit(a),
                digit(b),
                digit(c),
            ],
        ) == Some(
            (h * 3600 + m * 60 + s) * SECOND + (100 * a + 10 * b + c) * (SECOND / 1000),
        ),
{
    lemma_two_read(h);
    lemma_two_read(m);
    lemma_seconds_read(s, a, b, c);
    lemma_clock_parts(h, m, s, a, b, c);
    let ms = h * 3_600_000 + m * 60_000 + s * 1000 + a * 100 + b * 10 + c;
    crate::ttml::lemma_millis_are_ticks(ms);
    let tail = s * 1_000_000_000 + (a * 100 + b * 10 + c) * 1_000_000;
    assert(h * 1_000_000_000 * 3600 + m * 1_000_000_000 * 60 + tail == ms * 1_000_000);
}

/// Whether one moment is another to the nearest thousandth of a second, or is
/// nought where that one is before nought.
pub open spec fn to_the_thousandth(x: int, t: int) -> bool {
    if t >= 0 {
        -SECOND <= 2000 * (x - t) <= SECOND
    } else {
        x == 0
    }
}

proof fn lemma_in_millis(t: int)
    ensures
        to_the_thousandth(in_millis(t) * MILLI, t),
        in_millis(t) >= 0,
{
    let x = if t >= 0 {
        t
    } else {
        0
    };
    law_rounding_is_to_the_nearest(x, MILLI as int);
}

/// When a caption's part in a window starts and ends, moved.
pub open spec fn inside(cue: (int, int), window: (int, int), shift: int) -> (int, int) {
    (
        if cue.0 >= window.0 {
            cue.0 + shift
        } else {
            window.0 + shift
        },
        if cue.1 <= window.1 {
            cue.1 + shift
        } else {
            window.1 + shift
        },
    )
}

/// A caption that is carried is up in the cut only inside its own range, and
/// there exactly when it was: from where it went up, or its range opens if that
/// is later, to where it came down, or its range closes if that is earlier. One
/// that is not up in its range at all is not carried.
#[verifier::spinoff_prover]
#[verifier::rlimit(40)]
pub proof fn law_a_carried_caption_is_up_inside_its_range(
    payload: Seq<u8>,
    begin: int,
    end: int,
    shift: int,
    window: (int, int),
)
    requires
        clocked_packet(payload),
        cue_of(payload) == Some((begin, end)),
    ensures
        end <= window.0 || begin >= window.1 ==> moved_packet(payload, shift, window) is None,
        ({
            let (up, down) = inside((begin, end), window, shift);
            let from = if up >= 0 {
                up
            } else {
                0
            };
            end > window.0 && begin < window.1 && 1000 * (down - from) >= SECOND && 1000 * down
                < 359_999_999 * SECOND ==> {
                &&& moved_packet(payload, shift, window) is Some
                &&& moved_packet(payload, shift, window)->0.len() == payload.len()
                &&& cue_of(moved_packet(payload, shift, window)->0) is Some
                &&& to_the_thousandth((cue_of(moved_packet(payload, shift, window)->0)->0).0, up)
                &&& to_the_thousandth((cue_of(moved_packet(payload, shift, window)->0)->0).1, down)
            }
        }),
{
    let (up, down) = inside((begin, end), window, shift);
    if end > window.0 && begin < window.1 {
        lemma_in_millis(up);
        lemma_in_millis(down);
        let from = if up >= 0 {
            up
        } else {
            0
        };
        if 1000 * (down - from) >= SECOND && 1000 * down < 359_999_999 * SECOND {
            assert(in_millis(up) < in_millis(down)) by {
                lemma_millis_apart(from, down);
                assert(in_millis(up) == in_millis(from));
            }
            assert(in_millis(down) < 360_000_000) by (nonlinear_arith)
                requires
                    2000 * (in_millis(down) * MILLI - down) <= SECOND,
                    1000 * down < 359_999_999 * SECOND,
                    MILLI == 705_600,
                    SECOND == 705_600_000,
            ;
            law_a_kept_caption_moves_with_the_cut(payload, shift, window);
        }
    }
}

/// Two moments a thousandth apart are not the same thousandth.
proof fn lemma_millis_apart(a: int, b: int)
    requires
        0 <= a,
        1000 * (b - a) >= SECOND,
    ensures
        in_millis(a) < in_millis(b),
{
    let m = MILLI as int;
    law_rounding_is_to_the_nearest(a, m);
    law_rounding_is_to_the_nearest(b, m);
    let (x, y) = (in_millis(a), in_millis(b));
    assert(x < y) by (nonlinear_arith)
        requires
            2 * (x * m) <= 2 * a + m,
            2 * b - m < 2 * (y * m),
            b - a >= m,
            m == 705_600,
    ;
}

/// A moment of the range shows a carried caption in the cut where it showed it
/// in the recording, and nowhere else, if it is not within a thousandth of
/// where the caption or the range starts or ends.
#[verifier::spinoff_prover]
#[verifier::rlimit(60)]
pub proof fn law_a_moment_shows_what_it_showed(
    payload: Seq<u8>,
    begin: int,
    end: int,
    shift: int,
    window: (int, int),
    t: int,
)
    requires
        clocked_packet(payload),
        cue_of(payload) == Some((begin, end)),
        moved_packet(payload, shift, window) is Some,
        cue_of(moved_packet(payload, shift, window)->0) is Some,
        ({
            let (up, down) = inside((begin, end), window, shift);
            0 <= up && 1000 * (down - up) >= SECOND && 1000 * down < 359_999_999 * SECOND
        }),
        window.0 + SECOND / 1000 <= t < window.1 - SECOND / 1000,
        t < begin - SECOND / 1000 || begin + SECOND / 1000 <= t,
        t < end - SECOND / 1000 || end + SECOND / 1000 <= t,
    ensures
        ({
            let (up, down) = cue_of(moved_packet(payload, shift, window)->0)->0;
            begin <= t < end <==> up <= t + shift < down
        }),
{
    law_a_carried_caption_is_up_inside_its_range(payload, begin, end, shift, window);
}

/// What opens a value and what closes it are the only quotes about it.
proof fn lemma_value_is_plain(tag: Seq<u8>, name: Seq<u8>, i: int)
    requires
        0 <= i,
    ensures
        value_from(tag, name, i) matches Some((start, end)) ==> forall|k: int|
            start <= k < end ==> #[trigger] tag[k] != 34,
    decreases tag.len() - i,
{
    if let Some(at) = first_at(tag, opened(name), i) {
        lemma_first_at(tag, opened(name), i);
        let start = at + name.len() + 2;
        lemma_no_quote(tag, start);
        if start <= tag.len() && at != i && !crate::ttml::space_before(tag, at) {
            lemma_value_is_plain(tag, name, start);
        }
    }
}

proof fn lemma_no_quote(b: Seq<u8>, i: int)
    requires
        0 <= i,
    ensures
        forall|k: int|
            i <= k < (match byte_from(b, 34, i) {
                Some(end) => end,
                None => b.len() as int,
            }) ==> #[trigger] b[k] != 34,
    decreases b.len() - i,
{
    if i < b.len() && b[i] != 34 {
        lemma_no_quote(b, i + 1);
    }
}

/// The two times of a tag never share a byte.
#[verifier::spinoff_prover]
#[verifier::rlimit(60)]
proof fn lemma_values_stand_apart(tag: Seq<u8>)
    ensures
        value_from(tag, ascii("begin"@), 0) matches Some((a, b)) ==> (value_from(
            tag,
            ascii("end"@),
            0,
        ) matches Some((c, d)) ==> b <= c || d <= a),
{
    let (bn, en) = (ascii("begin"@), ascii("end"@));
    if value_from(tag, bn, 0) is Some && value_from(tag, en, 0) is Some {
        lemma_words_are_timeless();
        lemma_value_stands(tag, bn, 0);
        lemma_value_stands(tag, en, 0);
        lemma_value_is_plain(tag, bn, 0);
        lemma_value_is_plain(tag, en, 0);
        let (a, b) = value_from(tag, bn, 0)->0;
        let (c, d) = value_from(tag, en, 0)->0;
        reveal_strlit("begin");
        reveal_strlit("end");
        assert(opened(bn)[6] == 34 && opened(en)[4] == 34);
        assert(tag[a - 7 + 6] == 34);
        assert(tag[c - 5 + 4] == 34);
        if a == c {
            assert(opened(bn)[4] == 110 && opened(en)[2] == 100);
            assert(tag[a - 7 + 4] == 110);
            assert(tag[c - 5 + 2] == 100);
        }
    }
}

/// What is written over a time of any packet is the moment it was moved to, as
/// far as a hundred hours, and it is written exactly where a time was read and
/// there is room for another. `None` says that the packet has no caption in the
/// range, or has no room for one of its times.
#[verifier::spinoff_prover]
#[verifier::rlimit(40)]
pub proof fn law_the_moved_times_are_written(
    payload: Seq<u8>,
    begin: int,
    end: int,
    shift: int,
    window: (int, int),
)
    requires
        cue_of(payload) == Some((begin, end)),
        begin < window.1,
        window.0 < end,
        ({
            let (up, down) = inside((begin, end), window, shift);
            1000 * up < 359_999_999 * SECOND && 1000 * down < 359_999_999 * SECOND
        }),
    ensures
        ({
            let (up, down) = inside((begin, end), window, shift);
            let (a, b) = time_span(payload, ascii("begin"@))->0;
            let (c, d) = time_span(payload, ascii("end"@))->0;
            &&& time_span(payload, ascii("begin"@)) is Some
            &&& time_span(payload, ascii("end"@)) is Some
            &&& moved_packet(payload, shift, window) is Some <==> b - a >= 12 && d - c >= 12
            &&& moved_packet(payload, shift, window) matches Some(out) ==> {
                &&& clock_value(out.subrange(a, a + 12)) is Some
                &&& to_the_thousandth(clock_value(out.subrange(a, a + 12))->0, up)
                &&& clock_value(out.subrange(c, c + 12)) is Some
                &&& to_the_thousandth(clock_value(out.subrange(c, c + 12))->0, down)
            }
        }),
{
    let (up, down) = inside((begin, end), window, shift);
    let (bn, en) = (ascii("begin"@), ascii("end"@));
    lemma_few_hours(up);
    lemma_few_hours(down);
    law_a_clock_reads_back(up);
    law_a_clock_reads_back(down);
    let doc_at = crate::ttml::document_at(payload)->0;
    lemma_first_at(payload, ascii("<?xml"@), 0);
    let doc = payload.skip(doc_at);
    let (at, stop) = crate::ttml::tag_span(doc, ascii("<div"@))->0;
    lemma_first_at(doc, ascii("<div"@), 0);
    crate::ttml::lemma_byte_after(doc, 62, at);
    let tag = doc.subrange(at, stop);
    lemma_values_stand_apart(tag);
    lemma_value_stands(tag, bn, 0);
    lemma_value_stands(tag, en, 0);
    let (a, b) = time_span(payload, bn)->0;
    let (c, d) = time_span(payload, en)->0;
    if let Some(out) = moved_packet(payload, shift, window) {
        assert(out.subrange(a, a + 12) =~= clock_text(up));
        assert(out.subrange(c, c + 12) =~= clock_text(down));
    }
}

#[verifier::spinoff_prover]
#[verifier::rlimit(60)]
proof fn lemma_few_hours(t: int)
    requires
        1000 * t < 359_999_999 * SECOND,
    ensures
        in_millis(t) < 360_000_000,
        to_the_thousandth(in_millis(t) * MILLI, t),
{
    lemma_in_millis(t);
    let n = in_millis(t);
    if t >= 0 {
        assert(n < 360_000_000) by (nonlinear_arith)
            requires
                2000 * (n * MILLI - t) <= SECOND,
                1000 * t < 359_999_999 * SECOND,
                MILLI == 705_600,
                SECOND == 705_600_000,
        ;
    } else {
        assert(n == 0) by (nonlinear_arith)
            requires
                n * MILLI == 0,
                MILLI == 705_600,
        ;
    }
}

/// Where an attribute of a tag stands: `name="` at `p` behind a space, its
/// value up to the quote at `q`. Another name that ends in this one, as
/// `xml:begin` does in `begin`, may stand before it, at `o`; nothing else that
/// looks like it does.
pub open spec fn is_attribute(
    b: Seq<u8>,
    tag: int,
    close: int,
    name: Seq<u8>,
    o: int,
    p: int,
    q: int,
) -> bool {
    let needle = name + seq![61u8, 34];
    &&& tag < p && p + needle.len() <= q < close
    &&& b[p - 1] == 32
    &&& stands_at(b, needle, p)
    &&& b[q] == 34
    &&& forall|k: int| p + needle.len() <= k < q ==> b[k] != 34
    &&& forall|k: int| tag <= k < p && k != o ==> !#[trigger] stands_at(b, needle, k)
    &&& tag <= o ==> tag < o && o + needle.len() < p && b[o - 1] == 58
}

/// Where a run of bytes first stands.
proof fn lemma_is_first(b: Seq<u8>, needle: Seq<u8>, i: int, at: int)
    requires
        0 <= i <= at,
        stands_at(b, needle, at),
        forall|k: int| i <= k < at ==> !#[trigger] stands_at(b, needle, k),
    ensures
        first_at(b, needle, i) == Some(at),
{
    lemma_first_at(b, needle, i);
    if first_at(b, needle, i) is None {
        assert(!stands_at(b, needle, at));
    }
}

/// A part of some bytes holds a run where they do.
proof fn lemma_stands_in_part(b: Seq<u8>, needle: Seq<u8>, from: int, to: int, k: int)
    requires
        0 <= from <= to <= b.len(),
        0 <= k,
        k + needle.len() <= to - from,
    ensures
        stands_at(b.subrange(from, to), needle, k) == stands_at(b, needle, from + k),
{
    let part = b.subrange(from, to);
    if stands_at(part, needle, k) {
        assert forall|j: int| 0 <= j < needle.len() implies b[from + k + j]
            == #[trigger] needle[j] by {
            assert(part[k + j] == needle[j]);
        }
    }
    if stands_at(b, needle, from + k) {
        assert forall|j: int| 0 <= j < needle.len() implies part[k + j] == #[trigger] needle[j] by {
            assert(b[from + k + j] == needle[j]);
        }
    }
}

#[verifier::spinoff_prover]
#[verifier::rlimit(40)]
proof fn lemma_value_is(
    b: Seq<u8>,
    tag: int,
    close: int,
    name: Seq<u8>,
    o: int,
    p: int,
    q: int,
)
    requires
        0 <= tag <= close <= b.len(),
        is_attribute(b, tag, close, name, o, p, q),
    ensures
        value_from(b.subrange(tag, close), name, 0) == Some((p + name.len() + 2 - tag, q - tag)),
{
    let part = b.subrange(tag, close);
    let needle = opened(name);
    let n = needle.len() as int;
    assert forall|k: int| 0 <= k < p - tag && k != o - tag implies !#[trigger] stands_at(
        part,
        needle,
        k,
    ) by {
        lemma_stands_in_part(b, needle, tag, close, k);
        assert(!stands_at(b, needle, tag + k));
    }
    lemma_stands_in_part(b, needle, tag, close, p - tag);
    let (at, start) = (p - tag, p + n - tag);
    assert(part[at - 1] == b[p - 1]);
    assert forall|k: int| start <= k < q - tag implies part[k] != 34 by {
        assert(part[k] == b[tag + k]);
    }
    assert(part[q - tag] == b[q]);
    lemma_byte_is_first(part, 34, start, q - tag);
    if tag <= o && stands_at(part, needle, o - tag) {
        lemma_is_first(part, needle, 0, o - tag);
        assert(part[o - tag - 1] == b[o - 1]);
        assert forall|k: int| o - tag + n <= k < at implies !#[trigger] stands_at(
            part,
            needle,
            k,
        ) by {
            assert(k != o - tag);
        }
        lemma_is_first(part, needle, o - tag + n, at);
        assert(value_from(part, name, 0) == value_from(part, name, o - tag + n));
    } else {
        lemma_is_first(part, needle, 0, at);
    }
}

/// A packet's caption is up from what the `begin` of its document's `div` says
/// to what the `end` says, where both are times and it comes down after it went
/// up.
#[verifier::spinoff_prover]
#[verifier::rlimit(60)]
pub proof fn law_a_cue_is_read_where_it_stands(
    b: Seq<u8>,
    doc: int,
    tag: int,
    close: int,
    begin: (int, int, int),
    end: (int, int, int),
)
    requires
        0 <= doc <= tag <= close < b.len(),
        stands_at(b, ascii("<?xml"@), doc),
        forall|k: int| 0 <= k < doc ==> !#[trigger] stands_at(b, ascii("<?xml"@), k),
        valid_utf8(b.skip(doc)),
        stands_at(b, ascii("<div"@), tag),
        forall|k: int| doc <= k < tag ==> !#[trigger] stands_at(b, ascii("<div"@), k),
        b[close] == 62,
        forall|k: int| tag <= k < close ==> #[trigger] b[k] != 62,
        is_attribute(b, tag, close, ascii("begin"@), begin.0, begin.1, begin.2),
        is_attribute(b, tag, close, ascii("end"@), end.0, end.1, end.2),
    ensures
        cue_of(b) == (match (
            clock_value(b.subrange(begin.1 + 7, begin.2)),
            clock_value(b.subrange(end.1 + 5, end.2)),
        ) {
            (Some(up), Some(down)) => if up < down {
                Some((up, down))
            } else {
                None
            },
            _ => None,
        }),
{
    lemma_tag_is(b, doc, tag, close);
    let part = b.subrange(tag, close);
    let (bn, en) = (ascii("begin"@), ascii("end"@));
    lemma_value_is(b, tag, close, bn, begin.0, begin.1, begin.2);
    lemma_value_is(b, tag, close, en, end.0, end.1, end.2);
    assert(bn.len() == 5 && en.len() == 3) by {
        lemma_words_are_timeless();
    }
    assert(part.subrange(begin.1 + 7 - tag, begin.2 - tag) =~= b.subrange(begin.1 + 7, begin.2));
    assert(part.subrange(end.1 + 5 - tag, end.2 - tag) =~= b.subrange(end.1 + 5, end.2));
    assert(cue_of(b) == crate::ttml::cue_in(b.skip(doc)));
    assert(attribute_in(part, bn) == Some(b.subrange(begin.1 + 7, begin.2)));
    assert(attribute_in(part, en) == Some(b.subrange(end.1 + 5, end.2)));
}

/// Where a packet's document and its `div` stand.
#[verifier::spinoff_prover]
#[verifier::rlimit(60)]
proof fn lemma_tag_is(b: Seq<u8>, doc: int, tag: int, close: int)
    requires
        0 <= doc <= tag <= close < b.len(),
        stands_at(b, ascii("<?xml"@), doc),
        forall|k: int| 0 <= k < doc ==> !#[trigger] stands_at(b, ascii("<?xml"@), k),
        valid_utf8(b.skip(doc)),
        stands_at(b, ascii("<div"@), tag),
        forall|k: int| doc <= k < tag ==> !#[trigger] stands_at(b, ascii("<div"@), k),
        b[close] == 62,
        forall|k: int| tag <= k < close ==> #[trigger] b[k] != 62,
    ensures
        document_in(b) == Some(b.skip(doc)),
        tag_in(b.skip(doc), ascii("<div"@)) == Some(b.subrange(tag, close)),
{
    let (xml, div) = (ascii("<?xml"@), ascii("<div"@));
    lemma_is_first(b, xml, 0, doc);
    let text = b.skip(doc);
    let n = b.len() as int;
    assert(b.subrange(doc, n) =~= text);
    lemma_stands_in_part(b, div, doc, n, tag - doc);
    assert forall|k: int| 0 <= k < tag - doc implies !#[trigger] stands_at(text, div, k) by {
        if k + div.len() <= n - doc {
            lemma_stands_in_part(b, div, doc, n, k);
            assert(!stands_at(b, div, doc + k));
        }
    }
    lemma_is_first(text, div, 0, tag - doc);
    assert forall|k: int| tag - doc <= k < close - doc implies text[k] != 62 by {
        assert(text[k] == b[doc + k]);
    }
    lemma_byte_is_first(text, 62, tag - doc, close - doc);
    assert(text.subrange(tag - doc, close - doc) =~= b.subrange(tag, close));
}

} // verus!
