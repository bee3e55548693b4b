//! Where the runs of a caption stand.
use crate::caption::RunModel;
use crate::chars::trimmed;
use crate::ttml::layout::{
    colour_in, hex_char, hex_number, laid_over, run_of, span_style, styles_in, text_in, unescaped,
    with_span, with_spans, Laid, Said, Style,
};
use vstd::prelude::*;

verus! {

/// A run is as wide as its characters, each with the space behind it, and
/// stands in the middle of its line: as much is left above it as below, a pixel
/// apart. A line too low for it leaves nothing above.
pub proof fn law_a_run_stands_in_the_middle_of_its_line(
    x: int,
    line: int,
    origin: (int, int),
    style: Style,
    text: Seq<char>,
)
    ensures
        ({
            let r = run_of(x, line, origin, style, text);
            let top = r.y - (origin.1 + line * style.line_height);
            let room = style.line_height - style.height;
            &&& r.x == x
            &&& r.text == text
            &&& r.colour == style.colour
            &&& r.height == style.height
            &&& r.advance == style.width + style.spacing
            &&& r.width == r.advance * text.len()
            &&& room >= 0 ==> 2 * top <= room <= 2 * top + 1
            &&& room < 0 ==> top == 0
        }),
{
}

/// Text follows text on its line, each run starting where the one before ended;
/// a break goes down one line and back to the left edge of the region. What was
/// laid stays.
pub proof fn law_runs_are_laid_side_by_side(
    laid: Laid,
    span: Option<(Seq<u8>, Seq<u8>)>,
    origin: (int, int),
    styles: Seq<(Seq<char>, Said)>,
)
    ensures
        with_span(laid, span, origin, styles) matches Some(now) ==> {
            &&& span is None ==> now.x == origin.0 && now.line == laid.line + 1 && now.runs
                == laid.runs
            &&& span is Some ==> now.line == laid.line && laid.runs.len() <= now.runs.len()
                <= laid.runs.len() + 1 && now.runs.take(laid.runs.len() as int) == laid.runs
            &&& span is Some && now.runs.len() > laid.runs.len() ==> {
                let r = now.runs.last();
                &&& r.x == laid.x
                &&& now.x == r.x + r.width
                &&& r.text.len() > 0
                &&& r.text == crate::chars::text_of(unescaped((span->0).1))
                &&& r.colour == span_style((span->0).0, styles).colour
                &&& r.x + r.width <= 0xFFFF && r.y <= 0xFFFF
            }
            &&& span is Some && now.runs.len() == laid.runs.len() ==> now.x == laid.x
                && crate::chars::text_of(unescaped((span->0).1)).len() == 0
        },
{
    if let Some(now) = with_span(laid, span, origin, styles) {
        assert(now.runs.take(laid.runs.len() as int) =~= laid.runs);
    }
}

/// Spans are laid in order, from the left edge of the region on, on its first
/// line; one that cannot be laid leaves the whole unlaid.
pub proof fn law_spans_are_laid_in_order(
    runs: Seq<RunModel>,
    spans: Seq<Option<(Seq<u8>, Seq<u8>)>>,
    n: int,
    origin: (int, int),
    styles: Seq<(Seq<char>, Said)>,
)
    requires
        0 <= n < spans.len(),
    ensures
        with_spans(runs, spans, 0, origin, styles) == Some(Laid { x: origin.0, line: 0, runs }),
        with_spans(runs, spans, n + 1, origin, styles) == (match with_spans(
            runs,
            spans,
            n,
            origin,
            styles,
        ) {
            Some(laid) => with_span(laid, spans[n], origin, styles),
            None => None,
        }),
{
}

/// A style laid over another says what it says, and leaves the rest.
pub proof fn law_a_style_says_only_what_it_says(under: Style, over: Said)
    ensures
        ({
            let s = laid_over(under, over);
            &&& over.size is None ==> s.width == under.width && s.height == under.height
            &&& over.size matches Some((w, h)) ==> s.width == w && s.height == h
            &&& s.line_height == (if over.line_height is Some {
                over.line_height->0
            } else {
                under.line_height
            })
            &&& s.spacing == (if over.spacing is Some {
                over.spacing->0
            } else {
                under.spacing
            })
            &&& s.colour == (if over.colour is Some {
                over.colour->0
            } else {
                under.colour
            })
        }),
{
}

/// A colour is three pairs of digits to the base sixteen behind a hash: red,
/// green and blue.
pub proof fn law_a_colour_is_three_pairs_of_digits(
    s: Seq<char>,
    a: int,
    b: int,
    c: int,
    d: int,
    e: int,
    f: int,
)
    requires
        trimmed(s).len() >= 7,
        trimmed(s)[0] == '#',
        hex_char(trimmed(s)[1]) == Some(a),
        hex_char(trimmed(s)[2]) == Some(b),
        hex_char(trimmed(s)[3]) == Some(c),
        hex_char(trimmed(s)[4]) == Some(d),
        hex_char(trimmed(s)[5]) == Some(e),
        hex_char(trimmed(s)[6]) == Some(f),
    ensures
        colour_in(s) == Some((a * 16 + b) * 65_536 + (c * 16 + d) * 256 + e * 16 + f),
{
    let t = trimmed(s).subrange(1, 7);
    let (t5, t4, t3, t2, t1, t0) = (t.take(5), t.take(4), t.take(3), t.take(2), t.take(1), t.take(0));
    assert(t.drop_last() =~= t5 && t5.drop_last() =~= t4 && t4.drop_last() =~= t3);
    assert(t3.drop_last() =~= t2 && t2.drop_last() =~= t1 && t1.drop_last() =~= t0);
    assert(t1.last() == trimmed(s)[1] && t2.last() == trimmed(s)[2] && t3.last() == trimmed(s)[3]);
    assert(t4.last() == trimmed(s)[4] && t5.last() == trimmed(s)[5] && t.last() == trimmed(s)[6]);
    assert(hex_number(t0) == Some(0int));
    assert(hex_number(t1) == Some(a));
    assert(hex_number(t2) == Some(a * 16 + b));
    assert(hex_number(t3) == Some((a * 16 + b) * 16 + c));
    assert(hex_number(t4) == Some(((a * 16 + b) * 16 + c) * 16 + d));
    assert(hex_number(t5) == Some((((a * 16 + b) * 16 + c) * 16 + d) * 16 + e));
    assert(trimmed(s)[1] != '+');
}

/// Whatever is a digit to the base sixteen is read as one, in either case.
pub proof fn law_sixteen_digits(c: char)
    ensures
        match hex_char(c) {
            Some(n) => 0 <= n < 16 && (n < 10 ==> c as int == 48 + n) && (n >= 10 ==> c as int == 87
                + n || c as int == 55 + n),
            None => !(48 <= c as int <= 57) && !(97 <= c as int <= 102) && !(65 <= c as int
                <= 70),
        },
{
}

/// The styles of a document are those that have a name, in order.
pub proof fn law_every_named_style_is_read(list: Seq<(Seq<u8>, Seq<u8>)>)
    ensures
        ({
            let named = list.filter(
                |e: (Seq<u8>, Seq<u8>)| text_in(e.0, crate::bytes::ascii("xml:id"@)) is Some,
            );
            let found = styles_in(list);
            &&& found.len() == named.len()
            &&& forall|i: int|
                0 <= i < found.len() ==> text_in(named[i].0, crate::bytes::ascii("xml:id"@))
                    == Some((#[trigger] found[i]).0)
        }),
    decreases list.len(),
{
    reveal(Seq::filter);
    if list.len() > 0 {
        law_every_named_style_is_read(list.drop_last());
    }
}

} // verus!
