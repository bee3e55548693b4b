//! What a document puts on screen: its regions, its styles, and the words.
use crate::bytes::{
    ascii, ascii_bytes, byte_from, find, find_byte, first_at, put, stands, stands_at,
};
use crate::caption::{run_models, Page, Run, RunModel, Written};
use crate::chars::{
    chars_of, from_lossy, same_chars, text_of, texts, trim, trimmed, words, words_from,
};
use crate::decimal::{read_unsigned, unsigned_value};
use crate::ttml::{
    attribute, attribute_in, cue_in, document_bytes, document_in, is_space_behind, read_cue,
    space_behind, tag_at, tag_in, SCREEN,
};
use vstd::prelude::*;
use vstd::slice::slice_subrange;

verus! {

/// The tag that closes what `open` opens.
pub open spec fn closing(open: Seq<u8>) -> Seq<u8> {
    seq![60u8, 47] + open.skip(1) + seq![62u8]
}

/// Whether a name ends at `at`: what follows it is a space or the end of the
/// tag. `<p` must not match `<pre`.
pub open spec fn name_ends(doc: Seq<u8>, at: int) -> bool {
    0 <= at < doc.len() && (space_behind(doc, at) || doc[at] == 62 || doc[at] == 47)
}

/// Where an element's body ends: at its own closing tag, or at the end of
/// what is left.
pub open spec fn body_end(doc: Seq<u8>, open: Seq<u8>, from: int) -> int {
    match first_at(doc, closing(open), from) {
        Some(at) => at,
        None => doc.len() as int,
    }
}

/// The elements whose opening tag begins with `open`, from `i` on, each as
/// its tag and its body.
pub open spec fn elements_from(doc: Seq<u8>, open: Seq<u8>, i: int) -> Seq<(Seq<u8>, Seq<u8>)>
    decreases doc.len() - i,
{
    match first_at(doc, open, i) {
        None => Seq::empty(),
        Some(at) => {
            let past = at + open.len();
            if i < 0 || at < i || open.len() == 0 || past > doc.len() {
                Seq::empty()
            } else if !name_ends(doc, past) {
                elements_from(doc, open, past)
            } else {
                match byte_from(doc, 62, at) {
                    None => Seq::empty(),
                    Some(end) => if end < at || end >= doc.len() {
                        Seq::empty()
                    } else {
                        seq![
                            (doc.subrange(at, end), doc.subrange(
                                end + 1,
                                body_end(doc, open, end + 1),
                            )),
                        ] + elements_from(doc, open, end + 1)
                    },
                }
            }
        },
    }
}

/// A tag and its body, as bytes.
pub open spec fn element_view(e: (&[u8], &[u8])) -> (Seq<u8>, Seq<u8>) {
    (e.0@, e.1@)
}

/// Elements, as bytes.
pub open spec fn element_views(list: Seq<(&[u8], &[u8])>) -> Seq<(Seq<u8>, Seq<u8>)> {
    list.map_values(|e: (&[u8], &[u8])| element_view(e))
}

/// The elements whose opening tag begins with `open`, as (tag, body).
///
/// The body is what stands between the opening tag and its closing one, which
/// for a `<p>` is the whole run of spans inside it: enough for [`spans`] to
/// walk, and nothing that needs a parser to find.
fn elements<'a>(doc: &'a [u8], open: &[u8]) -> (out: Vec<(&'a [u8], &'a [u8])>)
    requires
        open@.len() > 0,
    ensures
        element_views(out@) == elements_from(doc@, open@, 0),
{
    let len: usize = doc.len();
    let mut close: Vec<u8> = Vec::new();
    close.push(60);
    close.push(47);
    put(&mut close, slice_subrange(open, 1, open.len()));
    close.push(62);
    assert(close@ =~= closing(open@));
    let mut out: Vec<(&'a [u8], &'a [u8])> = Vec::new();
    assert(element_views(out@) =~= Seq::empty());
    let mut i: usize = 0;
    loop
        invariant_except_break
            i <= doc@.len(),
            len == doc@.len(),
            open@.len() > 0,
            close@ == closing(open@),
            elements_from(doc@, open@, 0) =~= element_views(out@) + elements_from(
                doc@,
                open@,
                i as int,
            ),
        ensures
            elements_from(doc@, open@, 0) =~= element_views(out@),
        decreases doc@.len() - i,
    {
        let at: usize = match find(doc, open, i) {
            Some(at) => at,
            None => {
                break;
            },
        };
        let past: usize = at + open.len();
        if !(past < len && (is_space_behind(doc, past) || doc[past] == 62 || doc[past] == 47)) {
            i = past;
            continue;
        }
        let end: usize = match find_byte(doc, 62, at) {
            Some(end) => end,
            None => {
                break;
            },
        };
        let stop: usize = match find(doc, close.as_slice(), end + 1) {
            Some(stop) => stop,
            None => len,
        };
        let one: (&'a [u8], &'a [u8]) = (
            slice_subrange(doc, at, end),
            slice_subrange(doc, end + 1, stop),
        );
        let ghost before = element_views(out@);
        out.push(one);
        assert(element_views(out@) =~= before.push(element_view(one)));
        i = end + 1;
    }
    out
}

/// The runs inside a `<p>`, from `i` on: each `<span>` with its text, and
/// nothing for every `<br/>` between them.
pub open spec fn spans_from(body: Seq<u8>, i: int) -> Seq<Option<(Seq<u8>, Seq<u8>)>>
    decreases body.len() - i,
{
    match byte_from(body, 60, i) {
        None => Seq::empty(),
        Some(at) => if i < 0 || at < i || at >= body.len() {
            Seq::empty()
        } else if stands_at(body, ascii("<br"@), at) && at + 3 <= body.len() {
            seq![None] + spans_from(body, at + 3)
        } else if !stands_at(body, ascii("<span"@), at) {
            spans_from(body, at + 1)
        } else {
            match byte_from(body, 62, at) {
                None => Seq::empty(),
                Some(end) => {
                    let stop = match byte_from(body, 60, end + 1) {
                        Some(stop) => stop,
                        None => end + 1,
                    };
                    if end < at || end >= body.len() || stop <= end || stop > body.len() {
                        Seq::empty()
                    } else {
                        seq![Some((body.subrange(at, end), body.subrange(end + 1, stop)))]
                            + spans_from(body, stop)
                    }
                },
            }
        },
    }
}

/// A span, as bytes.
pub open spec fn span_view(s: Option<(&[u8], &[u8])>) -> Option<(Seq<u8>, Seq<u8>)> {
    match s {
        Some(e) => Some(element_view(e)),
        None => None,
    }
}

/// Spans, as bytes.
pub open spec fn span_views(list: Seq<Option<(&[u8], &[u8])>>) -> Seq<Option<(Seq<u8>, Seq<u8>)>> {
    list.map_values(|s: Option<(&[u8], &[u8])>| span_view(s))
}

/// The runs inside a `<p>`: each `<span>` with its text, and `None` for every
/// `<br/>` between them.
fn spans<'a>(body: &'a [u8]) -> (out: Vec<Option<(&'a [u8], &'a [u8])>>)
    ensures
        span_views(out@) == spans_from(body@, 0),
{
    let len: usize = body.len();
    let line: Vec<u8> = ascii_bytes("<br");
    let span: Vec<u8> = ascii_bytes("<span");
    proof {
        reveal_strlit("<br");
        assert("<br"@.len() == 3);
    }
    let mut out: Vec<Option<(&'a [u8], &'a [u8])>> = Vec::new();
    assert(span_views(out@) =~= Seq::empty());
    let mut i: usize = 0;
    loop
        invariant_except_break
            i <= body@.len(),
            len == body@.len(),
            line@ == ascii("<br"@),
            line@.len() == 3,
            span@ == ascii("<span"@),
            spans_from(body@, 0) =~= span_views(out@) + spans_from(body@, i as int),
        ensures
            spans_from(body@, 0) =~= span_views(out@),
        decreases body@.len() - i,
    {
        let at: usize = match find_byte(body, 60, i) {
            Some(at) => at,
            None => {
                break;
            },
        };
        let ghost before = span_views(out@);
        if stands(body, line.as_slice(), at) {
            out.push(None);
            assert(span_views(out@) =~= before.push(None));
            i = at + 3;
            continue;
        }
        if !stands(body, span.as_slice(), at) {
            i = at + 1;
            continue;
        }
        let end: usize = match find_byte(body, 62, at) {
            Some(end) => end,
            None => {
                break;
            },
        };
        let stop: usize = match find_byte(body, 60, end + 1) {
            Some(stop) => stop,
            None => end + 1,
        };
        let one: (&'a [u8], &'a [u8]) = (
            slice_subrange(body, at, end),
            slice_subrange(body, end + 1, stop),
        );
        out.push(Some(one));
        assert(span_views(out@) =~= before.push(Some(element_view(one))));
        i = stop;
    }
    out
}

/// One attribute out of an opening tag, as text.
pub open spec fn text_in(tag: Seq<u8>, name: Seq<u8>) -> Option<Seq<char>> {
    match attribute_in(tag, name) {
        Some(value) => Some(text_of(value)),
        None => None,
    }
}

/// A text that may not be there.
pub open spec fn some_text(t: Option<Vec<char>>) -> Option<Seq<char>> {
    match t {
        Some(v) => Some(v@),
        None => None,
    }
}

fn attribute_text(tag: &[u8], name: &str) -> (r: Option<Vec<char>>)
    ensures
        some_text(r) == text_in(tag@, ascii(name@)),
{
    match attribute(tag, name) {
        Some(value) => Some(chars_of(from_lossy(value).as_str())),
        None => None,
    }
}

/// A text with every `px` at its end taken off.
pub open spec fn without_unit(s: Seq<char>) -> Seq<char>
    decreases s.len(),
{
    if s.len() >= 2 && s[s.len() - 1] == 'x' && s[s.len() - 2] == 'p' {
        without_unit(s.take(s.len() - 2))
    } else {
        s
    }
}

/// `"144px"` as a number.
pub open spec fn px_in(s: Seq<char>) -> Option<int> {
    match unsigned_value(trimmed(without_unit(trimmed(s)))) {
        Some(n) => if n <= 0xFFFF {
            Some(n)
        } else {
            None
        },
        None => None,
    }
}

fn px(s: &[char]) -> (r: Option<u16>)
    ensures
        match r {
            Some(n) => px_in(s@) == Some(n as int),
            None => px_in(s@) is None,
        },
{
    let bare: Vec<char> = trim(s);
    let mut end: usize = bare.len();
    assert(bare@.take(end as int) =~= bare@);
    while end >= 2 && bare[end - 1] == 'x' && bare[end - 2] == 'p'
        invariant
            end <= bare@.len(),
            without_unit(bare@) == without_unit(bare@.take(end as int)),
        decreases end,
    {
        assert(bare@.take(end as int).take(end - 2) =~= bare@.take(end - 2));
        end -= 2;
    }
    let rest: &[char] = slice_subrange(bare.as_slice(), 0, end);
    assert(rest@ =~= bare@.take(end as int));
    match read_unsigned(trim(rest).as_slice()) {
        Some(n) => if n <= 0xFFFF {
            Some(n as u16)
        } else {
            None
        },
        None => None,
    }
}

/// `"1040px 240px"` as a pair, and `"144px"` as one number twice.
pub open spec fn pixels_in(s: Seq<char>) -> Option<(int, int)> {
    let parts = words_from(s, 0);
    if parts.len() == 0 {
        None
    } else if parts.len() == 1 {
        match px_in(parts[0]) {
            Some(n) => Some((n, n)),
            None => None,
        }
    } else {
        match (px_in(parts[0]), px_in(parts[1])) {
            (Some(a), Some(b)) => Some((a, b)),
            _ => None,
        }
    }
}

fn pixels(s: &[char]) -> (r: Option<(u16, u16)>)
    ensures
        match r {
            Some((a, b)) => pixels_in(s@) == Some((a as int, b as int)),
            None => pixels_in(s@) is None,
        },
{
    let parts: Vec<Vec<char>> = words(s);
    let ghost all = texts(parts@);
    if parts.len() == 0 {
        return None;
    }
    assert(all[0] == parts@[0]@);
    let first: u16 = match px(parts[0].as_slice()) {
        Some(n) => n,
        None => return None,
    };
    if parts.len() == 1 {
        return Some((first, first));
    }
    assert(all[1] == parts@[1]@);
    match px(parts[1].as_slice()) {
        Some(second) => Some((first, second)),
        None => None,
    }
}

/// One attribute, as a pair of sizes.
pub open spec fn sizes_in(tag: Seq<u8>, name: Seq<u8>) -> Option<(int, int)> {
    match text_in(tag, name) {
        Some(s) => pixels_in(s),
        None => None,
    }
}

fn attribute_sizes(tag: &[u8], name: &str) -> (r: Option<(u16, u16)>)
    ensures
        match r {
            Some((a, b)) => sizes_in(tag@, ascii(name@)) == Some((a as int, b as int)),
            None => sizes_in(tag@, ascii(name@)) is None,
        },
{
    match attribute_text(tag, name) {
        Some(s) => pixels(s.as_slice()),
        None => None,
    }
}

/// One attribute, as a size.
pub open spec fn size_in(tag: Seq<u8>, name: Seq<u8>) -> Option<int> {
    match text_in(tag, name) {
        Some(s) => px_in(s),
        None => None,
    }
}

fn attribute_size(tag: &[u8], name: &str) -> (r: Option<u16>)
    ensures
        match r {
            Some(n) => size_in(tag@, ascii(name@)) == Some(n as int),
            None => size_in(tag@, ascii(name@)) is None,
        },
{
    match attribute_text(tag, name) {
        Some(s) => px(s.as_slice()),
        None => None,
    }
}

/// The number a hexadecimal digit stands for.
pub open spec fn hex_char(c: char) -> Option<int> {
    if '0' <= c <= '9' {
        Some(c as int - 48)
    } else if 'a' <= c <= 'f' {
        Some(c as int - 87)
    } else if 'A' <= c <= 'F' {
        Some(c as int - 55)
    } else {
        None
    }
}

fn hex_of(c: char) -> (r: Option<u32>)
    ensures
        match r {
            Some(n) => hex_char(c) == Some(n as int) && n < 16,
            None => hex_char(c) is None,
        },
{
    if '0' <= c && c <= '9' {
        Some(c as u32 - 48)
    } else if 'a' <= c && c <= 'f' {
        Some(c as u32 - 87)
    } else if 'A' <= c && c <= 'F' {
        Some(c as u32 - 55)
    } else {
        None
    }
}

/// The number a run of hexadecimal digits stands for.
pub open spec fn hex_number(s: Seq<char>) -> Option<int>
    decreases s.len(),
{
    if s.len() == 0 {
        Some(0)
    } else {
        match (hex_number(s.drop_last()), hex_char(s.last())) {
            (Some(n), Some(d)) => Some(n * 16 + d),
            _ => None,
        }
    }
}

/// `#RRGGBBAA` or `#RRGGBB` as `0xRRGGBB`. The alpha is read and dropped:
/// what draws these puts them over a picture with its own opacity. A plus sign
/// may stand where the first digit would.
pub open spec fn colour_in(s: Seq<char>) -> Option<int> {
    let t = trimmed(s);
    if t.len() < 7 || t[0] != '#' {
        None
    } else if t[1] == '+' {
        hex_number(t.subrange(2, 7))
    } else {
        hex_number(t.subrange(1, 7))
    }
}

fn colour(s: &[char]) -> (r: Option<u32>)
    ensures
        match r {
            Some(n) => colour_in(s@) == Some(n as int),
            None => colour_in(s@) is None,
        },
{
    let t: Vec<char> = trim(s);
    if t.len() < 7 || t[0] != '#' {
        return None;
    }
    let from: usize = if t[1] == '+' {
        2
    } else {
        1
    };
    let ghost digits = t@.subrange(from as int, 7);
    let mut n: u32 = 0;
    let mut i: usize = from;
    assert(digits.take(0) =~= Seq::empty());
    while i < 7
        invariant
            1 <= from <= i <= 7 <= t@.len(),
            digits == t@.subrange(from as int, 7),
            colour_in(s@) == hex_number(digits),
            hex_number(digits.take(i - from)) == Some(n as int),
            i == 1 ==> n < 1,
            i == 2 ==> n < 0x10,
            i == 3 ==> n < 0x100,
            i == 4 ==> n < 0x1000,
            i == 5 ==> n < 0x1_0000,
            i == 6 ==> n < 0x10_0000,
            i == 7 ==> n < 0x100_0000,
        decreases 7 - i,
    {
        assert(digits.take(i + 1 - from).drop_last() =~= digits.take(i - from));
        assert(digits.take(i + 1 - from).last() == t@[i as int]);
        match hex_of(t[i]) {
            Some(d) => {
                n = n * 16 + d;
            },
            None => {
                proof {
                    lemma_no_hex(digits, i + 1 - from);
                }
                return None;
            },
        }
        i += 1;
    }
    assert(digits.take(i - from) =~= digits);
    Some(n)
}

/// A number that is not one part of the way along is not one.
proof fn lemma_no_hex(s: Seq<char>, k: int)
    requires
        0 <= k <= s.len(),
        hex_number(s.take(k)) is None,
    ensures
        hex_number(s) is None,
    decreases s.len(),
{
    if k == s.len() {
        assert(s.take(k) =~= s);
    } else {
        assert(s.drop_last().take(k) =~= s.take(k));
        lemma_no_hex(s.drop_last(), k);
    }
}

/// What characters are like, with the document's own defaults where no
/// `<style>` says otherwise.
#[derive(Debug, Clone, Copy, PartialEq, Eq, Structural)]
pub struct Style {
    /// Character width and height. The two differ: a 4K broadcast writes
    /// half-width characters as `72px 144px`, which is how a bracket or a
    /// kana takes half the room of a kanji beside it.
    pub width: u16,
    pub height: u16,
    pub line_height: u16,
    pub spacing: u16,
    pub colour: u32,
}

/// What characters are like where nothing says otherwise.
pub open spec fn plain_style() -> Style {
    Style { width: 144, height: 144, line_height: 240, spacing: 0, colour: 0xFF_FF_FF }
}

impl Default for Style {
    fn default() -> (r: Style)
        ensures
            r == plain_style(),
    {
        Style { width: 144, height: 144, line_height: 240, spacing: 0, colour: 0xFF_FF_FF }
    }
}

/// What one `<style>` states: nothing of what it does not speak of.
#[derive(Debug, Clone, Copy, PartialEq, Eq)]
pub struct Said {
    pub size: Option<(u16, u16)>,
    pub line_height: Option<u16>,
    pub spacing: Option<u16>,
    pub colour: Option<u32>,
}

/// What one `<style>` states.
pub open spec fn style_in(tag: Seq<u8>) -> Said {
    Said {
        size: match sizes_in(tag, ascii("tts:fontSize"@)) {
            Some((w, h)) => Some((w as u16, h as u16)),
            None => None,
        },
        line_height: match size_in(tag, ascii("tts:lineHeight"@)) {
            Some(h) => Some(h as u16),
            None => None,
        },
        spacing: match size_in(tag, ascii("arib-tt:letter-spacing"@)) {
            Some(s) => Some(s as u16),
            None => None,
        },
        colour: match text_in(tag, ascii("tts:color"@)) {
            Some(s) => match colour_in(s) {
                Some(c) => Some(c as u32),
                None => None,
            },
            None => None,
        },
    }
}

fn read_style(tag: &[u8]) -> (r: Said)
    ensures
        r == style_in(tag@),
{
    Said {
        size: attribute_sizes(tag, "tts:fontSize"),
        line_height: attribute_size(tag, "tts:lineHeight"),
        spacing: attribute_size(tag, "arib-tt:letter-spacing"),
        colour: match attribute_text(tag, "tts:color") {
            Some(s) => colour(s.as_slice()),
            None => None,
        },
    }
}

/// What the styles among some elements are called, and what they say.
pub open spec fn styles_in(list: Seq<(Seq<u8>, Seq<u8>)>) -> Seq<(Seq<char>, Said)>
    decreases list.len(),
{
    if list.len() == 0 {
        Seq::empty()
    } else {
        let before = styles_in(list.drop_last());
        match text_in(list.last().0, ascii("xml:id"@)) {
            Some(id) => before.push((id, style_in(list.last().0))),
            None => before,
        }
    }
}

/// Styles, as what they are called and what they say.
pub open spec fn style_views(list: Seq<(Vec<char>, Said)>) -> Seq<(Seq<char>, Said)> {
    list.map_values(|s: (Vec<char>, Said)| (s.0@, s.1))
}

/// Every `<style>` in the document, by the id a span names it with.
fn styles(doc: &[u8]) -> (out: Vec<(Vec<char>, Said)>)
    ensures
        style_views(out@) == styles_in(elements_from(doc@, ascii("<style"@), 0)),
{
    let open: Vec<u8> = ascii_bytes("<style");
    proof {
        reveal_strlit("<style");
        assert("<style"@.len() == 6);
    }
    let list: Vec<(&[u8], &[u8])> = elements(doc, open.as_slice());
    let ghost all = element_views(list@);
    let mut out: Vec<(Vec<char>, Said)> = Vec::new();
    assert(style_views(out@) =~= styles_in(all.take(0)));
    let mut i: usize = 0;
    while i < list.len()
        invariant
            i <= list@.len(),
            all == element_views(list@),
            style_views(out@) == styles_in(all.take(i as int)),
        decreases list@.len() - i,
    {
        assert(all.take(i + 1).drop_last() =~= all.take(i as int));
        let tag: &[u8] = list[i].0;
        assert(all.take(i + 1).last().0 == tag@);
        if let Some(id) = attribute_text(tag, "xml:id") {
            let ghost before = style_views(out@);
            let one: (Vec<char>, Said) = (id, read_style(tag));
            let ghost v = (one.0@, one.1);
            out.push(one);
            assert(style_views(out@) =~= before.push(v));
        }
        i += 1;
    }
    assert(all.take(i as int) =~= all);
    out
}

/// Where the first of some named things that goes by this name stands.
pub open spec fn named_from<T>(list: Seq<(Seq<char>, T)>, name: Seq<char>, i: int) -> Option<T>
    decreases list.len() - i,
{
    if i < 0 || i >= list.len() {
        None
    } else if list[i].0 == name {
        Some(list[i].1)
    } else {
        named_from(list, name, i + 1)
    }
}

fn find_style(list: &[(Vec<char>, Said)], name: &[char]) -> (r: Option<Said>)
    ensures
        r == named_from(style_views(list@), name@, 0),
{
    let ghost all = style_views(list@);
    let mut i: usize = 0;
    while i < list.len()
        invariant
            i <= list@.len(),
            all == style_views(list@),
            named_from(all, name@, 0) == named_from(all, name@, i as int),
        decreases list@.len() - i,
    {
        assert(all[i as int] == (list@[i as int].0@, list@[i as int].1));
        if same_chars(list[i].0.as_slice(), name) {
            return Some(list[i].1);
        }
        i += 1;
    }
    None
}

/// What a style states laid over what the ones before it came to. A style that
/// exists to say a colour leaves the size where it was, and one that says a
/// size says it whatever the size is.
pub open spec fn laid_over(under: Style, over: Said) -> Style {
    Style {
        width: match over.size {
            Some((w, _)) => w,
            None => under.width,
        },
        height: match over.size {
            Some((_, h)) => h,
            None => under.height,
        },
        line_height: match over.line_height {
            Some(h) => h,
            None => under.line_height,
        },
        spacing: match over.spacing {
            Some(s) => s,
            None => under.spacing,
        },
        colour: match over.colour {
            Some(c) => c,
            None => under.colour,
        },
    }
}

/// The styles of these names, laid over one another in the order named.
pub open spec fn style_named(names: Seq<Seq<char>>, styles: Seq<(Seq<char>, Said)>) -> Style
    decreases names.len(),
{
    if names.len() == 0 {
        plain_style()
    } else {
        let under = style_named(names.drop_last(), styles);
        match named_from(styles, names.last(), 0) {
            Some(over) => laid_over(under, over),
            None => under,
        }
    }
}

/// What the last of some styles states is what comes of them, and what it says
/// nothing about is what came of the ones before it.
pub proof fn law_the_last_style_named_is_followed(
    names: Seq<Seq<char>>,
    name: Seq<char>,
    styles: Seq<(Seq<char>, Said)>,
    said: Said,
)
    requires
        named_from(styles, name, 0) == Some(said),
    ensures
        ({
            let under = style_named(names, styles);
            let out = style_named(names.push(name), styles);
            &&& said.size matches Some((w, h)) ==> out.width == w && out.height == h
            &&& said.size is None ==> out.width == under.width && out.height == under.height
            &&& out.line_height == said.line_height.unwrap_or(under.line_height)
            &&& out.spacing == said.spacing.unwrap_or(under.spacing)
            &&& out.colour == said.colour.unwrap_or(under.colour)
        }),
{
    assert(names.push(name).drop_last() =~= names);
}

/// A span names several styles at once -- the writing mode from one, the
/// size from another, the colour from a third -- and each says only its own
/// part. So they are laid over one another in the order named, and a style
/// that says nothing about a thing leaves what the one before it said.
fn style_of(names: &[char], styles: &[(Vec<char>, Said)]) -> (out: Style)
    ensures
        out == style_named(words_from(names@, 0), style_views(styles@)),
{
    let list: Vec<Vec<char>> = words(names);
    let ghost all = texts(list@);
    let mut out: Style = Style {
        width: 144,
        height: 144,
        line_height: 240,
        spacing: 0,
        colour: 0xFF_FF_FF,
    };
    let mut i: usize = 0;
    while i < list.len()
        invariant
            i <= list@.len(),
            all == texts(list@),
            out == style_named(all.take(i as int), style_views(styles@)),
        decreases list@.len() - i,
    {
        assert(all.take(i + 1).drop_last() =~= all.take(i as int));
        assert(all.take(i + 1).last() == list@[i as int]@);
        if let Some(over) = find_style(styles, list[i].as_slice()) {
            if let Some((w, h)) = over.size {
                out.width = w;
                out.height = h;
            }
            if let Some(h) = over.line_height {
                out.line_height = h;
            }
            if let Some(s) = over.spacing {
                out.spacing = s;
            }
            if let Some(c) = over.colour {
                out.colour = c;
            }
        }
        i += 1;
    }
    assert(all.take(i as int) =~= all);
    out
}

/// What the regions among some elements are called, and where they sit. One
/// that does not say is not one.
pub open spec fn regions_in(list: Seq<(Seq<u8>, Seq<u8>)>) -> Seq<(Seq<char>, (int, int))>
    decreases list.len(),
{
    if list.len() == 0 {
        Seq::empty()
    } else {
        let before = regions_in(list.drop_last());
        match (
            text_in(list.last().0, ascii("xml:id"@)),
            sizes_in(list.last().0, ascii("tts:origin"@)),
        ) {
            (Some(id), Some(origin)) => before.push((id, origin)),
            _ => before,
        }
    }
}

/// Regions, as what they are called and where they sit.
pub open spec fn region_views(list: Seq<(Vec<char>, (u16, u16))>) -> Seq<(Seq<char>, (int, int))> {
    list.map_values(
        |r: (Vec<char>, (u16, u16))| (r.0@, ((r.1).0 as int, (r.1).1 as int)),
    )
}

/// Every `<region>`, by id: where it sits, in the screen's own pixels.
fn regions(doc: &[u8]) -> (out: Vec<(Vec<char>, (u16, u16))>)
    ensures
        region_views(out@) == regions_in(elements_from(doc@, ascii("<region"@), 0)),
{
    let open: Vec<u8> = ascii_bytes("<region");
    proof {
        reveal_strlit("<region");
        assert("<region"@.len() == 7);
    }
    let list: Vec<(&[u8], &[u8])> = elements(doc, open.as_slice());
    let ghost all = element_views(list@);
    let mut out: Vec<(Vec<char>, (u16, u16))> = Vec::new();
    assert(region_views(out@) =~= regions_in(all.take(0)));
    let mut i: usize = 0;
    while i < list.len()
        invariant
            i <= list@.len(),
            all == element_views(list@),
            region_views(out@) == regions_in(all.take(i as int)),
        decreases list@.len() - i,
    {
        assert(all.take(i + 1).drop_last() =~= all.take(i as int));
        let tag: &[u8] = list[i].0;
        assert(all.take(i + 1).last().0 == tag@);
        if let Some(id) = attribute_text(tag, "xml:id") {
            if let Some(origin) = attribute_sizes(tag, "tts:origin") {
                let ghost before = region_views(out@);
                let ghost v = (id@, (origin.0 as int, origin.1 as int));
                out.push((id, origin));
                assert(region_views(out@) =~= before.push(v));
            }
        }
        i += 1;
    }
    assert(all.take(i as int) =~= all);
    out
}

fn find_region(list: &[(Vec<char>, (u16, u16))], name: &[char]) -> (r: Option<(u16, u16)>)
    ensures
        match r {
            Some((x, y)) => named_from(region_views(list@), name@, 0) == Some((x as int, y as int)),
            None => named_from(region_views(list@), name@, 0) is None,
        },
{
    let ghost all = region_views(list@);
    let mut i: usize = 0;
    while i < list.len()
        invariant
            i <= list@.len(),
            all == region_views(list@),
            named_from(all, name@, 0) == named_from(all, name@, i as int),
        decreases list@.len() - i,
    {
        assert(all[i as int] == (list@[i as int].0@, (
            (list@[i as int].1).0 as int,
            (list@[i as int].1).1 as int,
        )));
        if same_chars(list[i].0.as_slice(), name) {
            let (x, y): (u16, u16) = list[i].1;
            return Some((x, y));
        }
        i += 1;
    }
    None
}

/// The bytes from `i` on with one run of them put for another wherever it
/// stands.
pub open spec fn put_for(b: Seq<u8>, from: Seq<u8>, to: Seq<u8>, i: int) -> Seq<u8>
    decreases b.len() - i,
{
    if i < 0 || i >= b.len() {
        Seq::empty()
    } else if from.len() > 0 && stands_at(b, from, i) {
        to + put_for(b, from, to, i + from.len())
    } else {
        seq![b[i]] + put_for(b, from, to, i + 1)
    }
}

fn replace_all(b: &[u8], from: &str, to: u8) -> (out: Vec<u8>)
    requires
        from@.len() > 0,
    ensures
        out@ == put_for(b@, ascii(from@), seq![to], 0),
{
    let needle: Vec<u8> = ascii_bytes(from);
    let mut out: Vec<u8> = Vec::new();
    let mut i: usize = 0;
    while i < b.len()
        invariant
            i <= b@.len(),
            needle@ == ascii(from@),
            needle@.len() > 0,
            put_for(b@, ascii(from@), seq![to], 0) =~= out@ + put_for(
                b@,
                ascii(from@),
                seq![to],
                i as int,
            ),
        decreases b@.len() - i,
    {
        if stands(b, needle.as_slice(), i) {
            out.push(to);
            i += needle.len();
        } else {
            out.push(b[i]);
            i += 1;
        }
    }
    out
}

/// The five entities XML always has, read. A broadcast's subtitles reach for
/// the first three regularly and never for a numeric one.
pub open spec fn unescaped(b: Seq<u8>) -> Seq<u8> {
    let lt = put_for(b, ascii("&lt;"@), seq![60u8], 0);
    let gt = put_for(lt, ascii("&gt;"@), seq![62u8], 0);
    let quot = put_for(gt, ascii("&quot;"@), seq![34u8], 0);
    let apos = put_for(quot, ascii("&apos;"@), seq![39u8], 0);
    put_for(apos, ascii("&amp;"@), seq![38u8], 0)
}

fn unescape(text: &[u8]) -> (out: Vec<u8>)
    ensures
        out@ == unescaped(text@),
{
    proof {
        reveal_strlit("&lt;");
        reveal_strlit("&gt;");
        reveal_strlit("&quot;");
        reveal_strlit("&apos;");
        reveal_strlit("&amp;");
        assert("&lt;"@.len() == 4 && "&gt;"@.len() == 4 && "&quot;"@.len() == 6);
        assert("&apos;"@.len() == 6 && "&amp;"@.len() == 5);
    }
    let lt: Vec<u8> = replace_all(text, "&lt;", 60);
    let gt: Vec<u8> = replace_all(lt.as_slice(), "&gt;", 62);
    let quot: Vec<u8> = replace_all(gt.as_slice(), "&quot;", 34);
    let apos: Vec<u8> = replace_all(quot.as_slice(), "&apos;", 39);
    replace_all(apos.as_slice(), "&amp;", 38)
}

/// Where laying a paragraph out has reached: how far across, which line, and
/// the runs so far.
pub struct Laid {
    pub x: int,
    pub line: int,
    pub runs: Seq<RunModel>,
}

/// The style of a span.
pub open spec fn span_style(tag: Seq<u8>, styles: Seq<(Seq<char>, Said)>) -> Style {
    match text_in(tag, ascii("style"@)) {
        Some(names) => style_named(words_from(names, 0), styles),
        None => plain_style(),
    }
}

/// The run a span puts down.
pub open spec fn run_of(
    x: int,
    line: int,
    origin: (int, int),
    style: Style,
    text: Seq<char>,
) -> RunModel {
    let advance = style.width + style.spacing;
    let leading: int = if style.line_height > style.height {
        (style.line_height - style.height) / 2
    } else {
        0
    };
    RunModel {
        x,
        y: origin.1 + line * style.line_height + leading,
        width: advance * text.len(),
        height: style.height as int,
        advance,
        text,
        colour: style.colour,
    }
}

/// Whether a run, and where the next one would start, can be placed in
/// sixteen bits.
pub open spec fn placeable(r: RunModel) -> bool {
    r.text.len() <= 0xFFFF && r.y <= 0xFFFF && r.advance <= 0xFFFF && r.width <= 0xFFFF && r.x
        + r.width <= 0xFFFF
}

/// One span laid out behind what is there; `None` where it cannot be placed
/// in sixteen bits.
pub open spec fn with_span(
    laid: Laid,
    span: Option<(Seq<u8>, Seq<u8>)>,
    origin: (int, int),
    styles: Seq<(Seq<char>, Said)>,
) -> Option<Laid> {
    match span {
        None => if laid.line < 0xFFFF {
            // Down one line, back to the region's left edge.
            Some(Laid { x: origin.0, line: laid.line + 1, runs: laid.runs })
        } else {
            None
        },
        Some((tag, body)) => {
            let text = text_of(unescaped(body));
            let run = run_of(laid.x, laid.line, origin, span_style(tag, styles), text);
            if text.len() == 0 {
                Some(laid)
            } else if placeable(run) {
                Some(Laid { x: laid.x + run.width, line: laid.line, runs: laid.runs.push(run) })
            } else {
                None
            }
        },
    }
}

/// The first `n` spans of a paragraph, laid out behind what other paragraphs
/// put down.
pub open spec fn with_spans(
    runs: Seq<RunModel>,
    spans: Seq<Option<(Seq<u8>, Seq<u8>)>>,
    n: int,
    origin: (int, int),
    styles: Seq<(Seq<char>, Said)>,
) -> Option<Laid>
    decreases n,
{
    if n <= 0 {
        Some(Laid { x: origin.0, line: 0, runs })
    } else {
        match with_spans(runs, spans, n - 1, origin, styles) {
            Some(laid) => with_span(laid, spans[n - 1], origin, styles),
            None => None,
        }
    }
}

/// The first `n` paragraphs of a document, laid out. One that names no region
/// the document places is not drawn.
pub open spec fn with_paragraphs(
    list: Seq<(Seq<u8>, Seq<u8>)>,
    n: int,
    regions: Seq<(Seq<char>, (int, int))>,
    styles: Seq<(Seq<char>, Said)>,
) -> Option<Seq<RunModel>>
    decreases n,
{
    if n <= 0 {
        Some(Seq::empty())
    } else {
        match with_paragraphs(list, n - 1, regions, styles) {
            None => None,
            Some(runs) => {
                let (tag, body) = list[n - 1];
                match text_in(tag, ascii("region"@)) {
                    None => Some(runs),
                    Some(id) => match named_from(regions, id, 0) {
                        None => Some(runs),
                        Some(origin) => {
                            let spans = spans_from(body, 0);
                            match with_spans(runs, spans, spans.len() as int, origin, styles) {
                                Some(laid) => Some(laid.runs),
                                None => None,
                            }
                        },
                    },
                }
            },
        }
    }
}

/// The runs a document puts on screen.
pub open spec fn runs_in(doc: Seq<u8>) -> Option<Seq<RunModel>> {
    let list = elements_from(doc, ascii("<p"@), 0);
    with_paragraphs(
        list,
        list.len() as int,
        regions_in(elements_from(doc, ascii("<region"@), 0)),
        styles_in(elements_from(doc, ascii("<style"@), 0)),
    )
}

/// The screen a document is placed on.
pub open spec fn plane_in(doc: Seq<u8>) -> (int, int) {
    match tag_in(doc, ascii("<tt"@)) {
        Some(tag) => match sizes_in(tag, ascii("tts:extent"@)) {
            Some(size) => size,
            None => (SCREEN.0 as int, SCREEN.1 as int),
        },
        None => (SCREEN.0 as int, SCREEN.1 as int),
    }
}

/// What laying out has reached.
struct Pen {
    x: u16,
    line: u16,
}

/// Lay one span out behind what is there; `false` where it cannot be placed.
fn put_span(
    pen: &mut Pen,
    runs: &mut Vec<Run>,
    span: &Option<(&[u8], &[u8])>,
    origin: (u16, u16),
    styles: &[(Vec<char>, Said)],
) -> (r: bool)
    ensures
        match with_span(
            Laid { x: old(pen).x as int, line: old(pen).line as int, runs: run_models(old(runs)@) },
            span_view(*span),
            (origin.0 as int, origin.1 as int),
            style_views(styles@),
        ) {
            Some(laid) => r && final(pen).x == laid.x && final(pen).line == laid.line && run_models(
                final(runs)@,
            ) == laid.runs,
            None => !r,
        },
{
    match span {
        None => {
            if pen.line == 0xFFFF {
                return false;
            }
            pen.x = origin.0;
            pen.line = pen.line + 1;
            true
        },
        Some((tag, body)) => {
            let style: Style = match attribute_text(tag, "style") {
                Some(names) => style_of(names.as_slice(), styles),
                None => Style {
                    width: 144,
                    height: 144,
                    line_height: 240,
                    spacing: 0,
                    colour: 0xFF_FF_FF,
                },
            };
            let bytes: Vec<u8> = unescape(body);
            let text: String = from_lossy(bytes.as_slice());
            let count: usize = chars_of(text.as_str()).len();
            if count == 0 {
                return true;
            }
            let advance: u64 = style.width as u64 + style.spacing as u64;
            let leading: u64 = if style.line_height > style.height {
                ((style.line_height - style.height) / 2) as u64
            } else {
                0
            };
            assert(pen.line * style.line_height <= 0xFFFF * 0xFFFF) by (nonlinear_arith)
                requires
                    0 <= pen.line <= 0xFFFF,
                    0 <= style.line_height <= 0xFFFF,
            ;
            let y: u64 = origin.1 as u64 + pen.line as u64 * style.line_height as u64 + leading;
            if count > 0xFFFF || y > 0xFFFF || advance > 0xFFFF {
                return false;
            }
            assert(advance * count <= 0xFFFF * 0xFFFF) by (nonlinear_arith)
                requires
                    0 <= advance <= 0xFFFF,
                    0 <= count <= 0xFFFF,
            ;
            let width: u64 = advance * count as u64;
            if width > 0xFFFF || pen.x as u64 + width > 0xFFFF {
                return false;
            }
            let run: Run = Run {
                x: pen.x,
                y: y as u16,
                width: width as u16,
                height: style.height,
                advance: advance as u16,
                text,
                colour: style.colour,
            };
            let ghost before = run_models(runs@);
            let ghost one = run@;
            runs.push(run);
            assert(run_models(runs@) =~= before.push(one));
            pen.x = pen.x + width as u16;
            true
        },
    }
}

/// Lay one paragraph out behind what is there; `false` where it cannot be
/// placed.
fn put_paragraph(
    runs: &mut Vec<Run>,
    body: &[u8],
    origin: (u16, u16),
    styles: &[(Vec<char>, Said)],
) -> (r: bool)
    ensures
        ({
            let spans = spans_from(body@, 0);
            match with_spans(
                run_models(old(runs)@),
                spans,
                spans.len() as int,
                (origin.0 as int, origin.1 as int),
                style_views(styles@),
            ) {
                Some(laid) => r && run_models(final(runs)@) == laid.runs,
                None => !r,
            }
        }),
{
    let list: Vec<Option<(&[u8], &[u8])>> = spans(body);
    let ghost all = span_views(list@);
    let ghost start = run_models(runs@);
    let ghost place = (origin.0 as int, origin.1 as int);
    let mut pen: Pen = Pen { x: origin.0, line: 0 };
    let mut i: usize = 0;
    while i < list.len()
        invariant
            i <= list@.len(),
            all == span_views(list@),
            all == spans_from(body@, 0),
            place == (origin.0 as int, origin.1 as int),
            with_spans(start, all, i as int, place, style_views(styles@)) == Some(
                Laid { x: pen.x as int, line: pen.line as int, runs: run_models(runs@) },
            ),
            start == run_models(old(runs)@),
        decreases list@.len() - i,
    {
        assert(all[i as int] == span_view(list@[i as int]));
        if !put_span(&mut pen, runs, &list[i], origin, styles) {
            proof {
                lemma_unplaced(start, all, i + 1, all.len() as int, place, style_views(styles@));
            }
            return false;
        }
        i += 1;
    }
    true
}

/// What cannot be placed part of the way along cannot be placed.
proof fn lemma_unplaced(
    runs: Seq<RunModel>,
    spans: Seq<Option<(Seq<u8>, Seq<u8>)>>,
    k: int,
    n: int,
    origin: (int, int),
    styles: Seq<(Seq<char>, Said)>,
)
    requires
        0 <= k <= n,
        with_spans(runs, spans, k, origin, styles) is None,
    ensures
        with_spans(runs, spans, n, origin, styles) is None,
    decreases n,
{
    if k < n {
        lemma_unplaced(runs, spans, k, n - 1, origin, styles);
    }
}

/// The same of paragraphs.
proof fn lemma_undrawn(
    list: Seq<(Seq<u8>, Seq<u8>)>,
    k: int,
    n: int,
    regions: Seq<(Seq<char>, (int, int))>,
    styles: Seq<(Seq<char>, Said)>,
)
    requires
        0 <= k <= n,
        with_paragraphs(list, k, regions, styles) is None,
    ensures
        with_paragraphs(list, n, regions, styles) is None,
    decreases n,
{
    if k < n {
        lemma_undrawn(list, k, n - 1, regions, styles);
    }
}

/// The runs a document puts on screen.
fn runs_of(doc: &[u8]) -> (r: Option<Vec<Run>>)
    ensures
        match r {
            Some(runs) => runs_in(doc@) == Some(run_models(runs@)),
            None => runs_in(doc@) is None,
        },
{
    let styles: Vec<(Vec<char>, Said)> = styles(doc);
    let regions: Vec<(Vec<char>, (u16, u16))> = regions(doc);
    let open: Vec<u8> = ascii_bytes("<p");
    proof {
        reveal_strlit("<p");
        assert("<p"@.len() == 2);
    }
    let list: Vec<(&[u8], &[u8])> = elements(doc, open.as_slice());
    let ghost all = element_views(list@);
    let ghost (rs, ss) = (region_views(regions@), style_views(styles@));
    let mut runs: Vec<Run> = Vec::new();
    assert(run_models(runs@) =~= Seq::empty());
    let mut i: usize = 0;
    while i < list.len()
        invariant
            i <= list@.len(),
            all == element_views(list@),
            rs == region_views(regions@),
            ss == style_views(styles@),
            runs_in(doc@) == with_paragraphs(all, all.len() as int, rs, ss),
            with_paragraphs(all, i as int, rs, ss) == Some(run_models(runs@)),
        decreases list@.len() - i,
    {
        assert(all[i as int] == element_view(list@[i as int]));
        let (tag, body): (&[u8], &[u8]) = list[i];
        if let Some(id) = attribute_text(tag, "region") {
            if let Some(origin) = find_region(regions.as_slice(), id.as_slice()) {
                if !put_paragraph(&mut runs, body, origin, styles.as_slice()) {
                    proof {
                        lemma_undrawn(all, i + 1, all.len() as int, rs, ss);
                    }
                    return None;
                }
            }
        }
        i += 1;
    }
    Some(runs)
}

fn plane_of(doc: &[u8]) -> (r: (u16, u16))
    ensures
        (r.0 as int, r.1 as int) == plane_in(doc@),
{
    match tag_at(doc, ascii_bytes("<tt").as_slice()) {
        Some((_, tag)) => match attribute_sizes(tag, "tts:extent") {
            Some(size) => size,
            None => (3840, 2160),
        },
        None => (3840, 2160),
    }
}

/// What the caption in this packet puts on screen, laid out, so that a window
/// drawing one kind of caption can draw this one without knowing which it has.
/// A caption that would reach past what sixteen bits can place is not one.
///
/// The times come back as they stand in the document -- on the recording's own
/// clock -- rather than as an offset from the packet, which has no clock worth
/// the name.
pub fn written(payload: &[u8]) -> (r: Option<Written>)
    ensures
        match (document_in(payload@), r) {
            (Some(doc), Some(w)) => {
                &&& cue_in(doc) is Some
                &&& runs_in(doc) is Some
                &&& (w.plane.0 as int, w.plane.1 as int) == plane_in(doc)
                &&& w.pages@.len() == 1
                &&& w.pages@[0].at == (cue_in(doc)->0).0
                &&& w.pages@[0].until is Some
                &&& w.pages@[0].until->0 == (cue_in(doc)->0).1
                &&& run_models(w.pages@[0].runs@) == runs_in(doc)->0
            },
            (Some(doc), None) => cue_in(doc) is None || runs_in(doc) is None,
            (None, None) => true,
            (None, Some(_)) => false,
        },
{
    let (_, doc): (usize, &[u8]) = match document_bytes(payload) {
        Some(d) => d,
        None => return None,
    };
    let (begin, end): (i64, i64) = match read_cue(doc) {
        Some(c) => c,
        None => return None,
    };
    let runs: Vec<Run> = match runs_of(doc) {
        Some(runs) => runs,
        None => return None,
    };
    let mut pages: Vec<Page> = Vec::new();
    pages.push(Page { at: begin, until: Some(end), runs });
    Some(Written { plane: plane_of(doc), pages })
}

} // verus!
