//! Reading the text a table says a recording's name in, whichever way the
//! thing that wrote the table wrote it.
//!
//! A Japanese broadcast writes its service and event names in ARIB STD-B24's
//! eight-unit code. Nothing else does. A file that has been through a general
//! multiplexer carries a service description that muxer wrote itself, in the
//! character tables of DVB EN 300 468 -- the ones the rest of the world's
//! broadcasts use -- and reading those bytes against ARIB's code table turns a
//! channel name into mojibake. `ffmpeg` writes `Service01` as plain ASCII and
//! a name with a Japanese character in it as UTF-8 behind the byte that says
//! so; read as ARIB, the first becomes kanji and the second becomes nothing
//! anybody typed.
//!
//! So the bytes are read against whichever of the two they were written in,
//! decided in this order:
//!
//! 1. **The selector.** DVB puts a byte below 0x20 in front of text that is
//!    not in its default table, and that byte says which table. The ones that
//!    matter here -- 0x10 to 0x15, which is where UTF-8 is -- are codes ARIB
//!    assigns nothing to, so a field that begins with one settles the
//!    question on its own, whatever the recording is. See [`selector`].
//! 2. **The network.** A section says which network it came off, and a
//!    Japanese one is written to ARIB's standards by everything that touches
//!    it. Anything else is read as DVB text; see [`Written`].
//! 3. **The bytes.** A Japanese recording whose tables a muxer rewrote keeps
//!    its network number and loses its encoding, so one more check rescues
//!    that: text that is well-formed UTF-8 *and* carries a byte ARIB would
//!    have to read as a control code is UTF-8. See [`rewritten`].
//!
//! What is decided here is only how the name is *read*. The tables themselves
//! are copied into the output as the bytes they arrived as. Reading ARIB's own
//! code is somebody else's work: where a field turns out to be in it, what is
//! handed back is the reading that was handed in.
use crate::chars::{chars_of, find_char, from_stored, index_from, put_chars, string_of};
use crate::decimal::{decimal, put_decimal};
use vstd::prelude::*;
use vstd::slice::slice_subrange;
use vstd::utf8::{decode_utf8, valid_utf8};

verus! {

/// Which standard's conventions a recording's tables are written under.
#[derive(Debug, Clone, Copy, PartialEq, Eq, Structural)]
pub enum Written {
    /// A Japanese broadcast, or a file that says nothing about where it came
    /// from. The default.
    Arib,
    /// Anything else: the character tables of DVB EN 300 468, which is also
    /// what a muxer writing a service description of its own writes.
    Dvb,
}

impl Default for Written {
    fn default() -> (r: Written)
        ensures
            r == Written::Arib,
    {
        Written::Arib
    }
}

impl Written {
    /// What the network a section names says about the text on it.
    ///
    /// Terrestrial Japan is a range of numbers of its own; the satellites
    /// are single numbers. Anything outside those is somebody else's
    /// network -- or a muxer's invention, which `ffmpeg` puts at 0xFF01 --
    /// and its tables are read as DVB text. Zero is not a network at all: a
    /// table that never filled the field in has said nothing, and the
    /// default stands.
    ///
    /// The 124 and 128 degree satellites are deliberately not here. Their
    /// numbers are 1 and 3, which are two of the most used numbers in
    /// European DVB, and a rule that claimed them would read half the
    /// world's broadcasts as ARIB.
    pub fn of_network(onid: u16) -> (r: Written)
        ensures
            r == (if onid == 0 || onid == 4 || onid == 6 || onid == 7 || 0x7880 <= onid <= 0x7FE8 {
                Written::Arib
            } else {
                Written::Dvb
            }),
    {
        if onid == 0 || onid == 4 || onid == 6 || onid == 7 || (0x7880 <= onid && onid <= 0x7FE8) {
            Written::Arib
        } else {
            Written::Dvb
        }
    }
}

/// What the front of a field says of the rest of it.
#[derive(Debug, Clone, PartialEq, Eq)]
pub enum Selector {
    /// Nothing: there is no selector.
    Unsaid,
    /// The rest, from so far in, is in the table of this name.
    Table(String, usize),
    /// The rest, from so far in, is in the table that is used when nothing
    /// says otherwise.
    Unlisted(usize),
}

/// What a [`Selector`] holds.
pub enum SelectorModel {
    Unsaid,
    Table(Seq<char>, int),
    Unlisted(int),
}

impl View for Selector {
    type V = SelectorModel;

    open spec fn view(&self) -> SelectorModel {
        match self {
            Selector::Unsaid => SelectorModel::Unsaid,
            Selector::Table(name, from) => SelectorModel::Table(name@, *from as int),
            Selector::Unlisted(from) => SelectorModel::Unlisted(*from as int),
        }
    }
}

/// What one part of ISO 8859 is called.
pub open spec fn iso_name(part: nat) -> Seq<char> {
    "ISO-8859-"@ + decimal(part)
}

/// What the front of a field says of the rest of it.
///
/// EN 300 468 annex A: text that is not in the default table begins with a
/// byte below 0x20 naming the table it is in, and the rest of the field is
/// that table's bytes.
///
/// Half of those bytes are also ARIB control codes, and `written` is what
/// keeps the two apart. ARIB assigns nothing to 0x10 through 0x15, so the
/// selectors in that run -- UTF-16, the two Chinese tables, Korean, and
/// UTF-8, which is the one a muxer writes -- are read as selectors wherever
/// they turn up. The rest overlap: 0x07 is a bell and 0x09 to 0x0B move a
/// caption's cursor, and a name that began with one and was read as Baltic
/// Latin would be a name this had broken rather than fixed. So those are
/// read as selectors only where the recording is a DVB one to begin with.
pub open spec fn selection(b: Seq<u8>, written: Written) -> SelectorModel {
    let dvb = written == Written::Dvb;
    if b.len() == 0 {
        SelectorModel::Unsaid
    } else if dvb && (1 <= b[0] <= 7 || 9 <= b[0] <= 11) {
        // ISO 8859-5 through -15, in the order the annex lists them, with
        // the reserved ones left out.
        SelectorModel::Table(iso_name((b[0] + 4) as nat), 1)
    } else if b[0] == 0x10 && b.len() >= 3 {
        // The same, said the long way round: the part number in two bytes.
        SelectorModel::Table(iso_name((b[1] * 256 + b[2]) as nat), 3)
    } else if b[0] == 0x11 && b.len() % 2 == 1 {
        // The basic multilingual plane, two bytes a character. An odd number
        // of bytes is not that.
        SelectorModel::Table("UTF-16BE"@, 1)
    } else if b[0] == 0x12 {
        SelectorModel::Table("EUC-KR"@, 1)
    } else if b[0] == 0x13 {
        SelectorModel::Table("GBK"@, 1)
    } else if b[0] == 0x14 {
        SelectorModel::Table("Big5"@, 1)
    } else if b[0] == 0x15 {
        SelectorModel::Table("UTF-8"@, 1)
    } else if b[0] == 0x1F && dvb && b.len() >= 2 {
        // A table named by a registration there is no list of here. The two
        // bytes it takes are stepped over and the rest is read the way
        // anything unlabelled is read.
        SelectorModel::Unlisted(2)
    } else {
        SelectorModel::Unsaid
    }
}

fn iso_table(part: u64) -> (r: String)
    ensures
        r@ == iso_name(part as nat),
{
    let mut name: Vec<char> = chars_of("ISO-8859-");
    put_decimal(&mut name, part);
    string_of(name.as_slice())
}

/// What the front of a field says of the rest of it; see [`selection`].
pub fn selector(bytes: &[u8], written: Written) -> (r: Selector)
    ensures
        r@ == selection(bytes@, written),
{
    if bytes.len() == 0 {
        return Selector::Unsaid;
    }
    let dvb: bool = match written {
        Written::Dvb => true,
        Written::Arib => false,
    };
    let b: u8 = bytes[0];
    if dvb && ((1 <= b && b <= 7) || (9 <= b && b <= 11)) {
        Selector::Table(iso_table(b as u64 + 4), 1)
    } else if b == 0x10 && bytes.len() >= 3 {
        Selector::Table(iso_table(bytes[1] as u64 * 256 + bytes[2] as u64), 3)
    } else if b == 0x11 && bytes.len() % 2 == 1 {
        Selector::Table("UTF-16BE".to_owned(), 1)
    } else if b == 0x12 {
        Selector::Table("EUC-KR".to_owned(), 1)
    } else if b == 0x13 {
        Selector::Table("GBK".to_owned(), 1)
    } else if b == 0x14 {
        Selector::Table("Big5".to_owned(), 1)
    } else if b == 0x15 {
        Selector::Table("UTF-8".to_owned(), 1)
    } else if b == 0x1F && dvb && bytes.len() >= 2 {
        Selector::Unlisted(2)
    } else {
        Selector::Unsaid
    }
}

/// What `encoding_rs` makes of bytes in the table of this name: the text, and
/// whether any of them were not that table's; nothing where it has no table of
/// that name.
pub uninterp spec fn table_text(name: Seq<char>, bytes: Seq<u8>) -> Option<(Seq<char>, bool)>;

/// What was read out of a table, as what it holds.
pub open spec fn read_view(read: Option<(String, bool)>) -> Option<(Seq<char>, bool)> {
    match read {
        Some((text, broken)) => Some((text@, broken)),
        None => None,
    }
}

/// `encoding_rs::Encoding::for_label` and, on the table it finds,
/// `decode_without_bom_handling`: the text, and whether any of the bytes were
/// malformed. No mark at the front is looked for: the selector has already
/// said what the table is, and a name that happens to begin with the two bytes
/// of some other table's mark is a name, not a table. UTF-8 is a table it has,
/// whose text is the one the bytes store and whose malformed bytes are those
/// that store none. The bound is where the size of its buffer would overflow.
#[verifier::external_body]
fn read_table(name: &str, bytes: &[u8]) -> (r: Option<(String, bool)>)
    requires
        bytes@.len() <= usize::MAX / 16,
    ensures
        read_view(r) == table_text(name@, bytes@),
        name@ == "UTF-8"@ ==> r is Some && (r->0).1 == !valid_utf8(bytes@),
        name@ == "UTF-8"@ && valid_utf8(bytes@) ==> (r->0).0@ == decode_utf8(bytes@),
{
    match encoding_rs::Encoding::for_label(name.as_bytes()) {
        Some(encoding) => {
            let (text, broken) = encoding.decode_without_bom_handling(bytes);
            Some((text.into_owned(), broken))
        },
        None => None,
    }
}

/// A text with the byte-order marks in front of it taken off.
pub open spec fn without_marks(s: Seq<char>) -> Seq<char>
    decreases s.len(),
{
    if s.len() > 0 && s[0] == '\u{FEFF}' {
        without_marks(s.skip(1))
    } else {
        s
    }
}

/// What is kept of a reading of a table.
pub open spec fn kept_text(read: Option<(Seq<char>, bool)>) -> Option<Seq<char>> {
    match read {
        Some((text, false)) => Some(without_marks(text)),
        _ => None,
    }
}

/// A text that may not be there, as what it holds.
pub open spec fn text_view(t: Option<String>) -> Option<Seq<char>> {
    match t {
        Some(s) => Some(s@),
        None => None,
    }
}

/// What is kept of a reading of a table: the text with no mark in front.
///
/// A selector that named a table the bytes are not in is a selector this is
/// not reading: a field that begins with the one byte of a longer code, or a
/// recording that never had a selector at all.
pub fn accepted(read: Option<(String, bool)>) -> (r: Option<String>)
    ensures
        text_view(r) == kept_text(read_view(read)),
{
    match read {
        Some((text, broken)) => {
            if broken {
                return None;
            }
            let chars: Vec<char> = chars_of(text.as_str());
            let mut i: usize = 0;
            assert(chars@.skip(0) =~= chars@);
            while i < chars.len() && chars[i] == '\u{FEFF}'
                invariant
                    i <= chars@.len(),
                    without_marks(chars@) == without_marks(chars@.skip(i as int)),
                decreases chars@.len() - i,
            {
                assert(chars@.skip(i as int).skip(1) =~= chars@.skip(i + 1));
                i += 1;
            }
            let rest: &[char] = slice_subrange(chars.as_slice(), i, chars.len());
            assert(rest@ =~= chars@.skip(i as int));
            Some(string_of(rest))
        },
        None => None,
    }
}

/// What a field says where its front settles how it is read.
pub open spec fn selected_text(b: Seq<u8>, written: Written) -> Option<Seq<char>> {
    match selection(b, written) {
        SelectorModel::Unsaid => None,
        SelectorModel::Table(name, from) => kept_text(table_text(name, b.skip(from))),
        SelectorModel::Unlisted(from) => Some(default_text(b.skip(from))),
    }
}

/// The text behind a DVB character-table selector, when there is one.
///
/// `None` where there is no selector, or where the bytes behind one are not
/// the table it named: a field that begins 0x15 and is not UTF-8 is not a
/// field somebody wrote in UTF-8.
pub fn selected(bytes: &[u8], written: Written) -> (r: Option<String>)
    requires
        bytes@.len() <= usize::MAX / 16,
    ensures
        text_view(r) == selected_text(bytes@, written),
        bytes@.len() > 0 && bytes@[0] == 0x15 ==> text_view(r) == (if valid_utf8(bytes@.skip(1)) {
            Some(without_marks(decode_utf8(bytes@.skip(1))))
        } else {
            None
        }),
{
    match selector(bytes, written) {
        Selector::Unsaid => None,
        Selector::Table(name, from) => {
            let rest: &[u8] = slice_subrange(bytes, from, bytes.len());
            assert(rest@ =~= bytes@.skip(from as int));
            accepted(read_table(name.as_str(), rest))
        },
        Selector::Unlisted(from) => {
            let rest: &[u8] = slice_subrange(bytes, from, bytes.len());
            assert(rest@ =~= bytes@.skip(from as int));
            Some(string_of(default_table(rest).as_slice()))
        },
    }
}

/// The high half of ISO 6937, from 0xA0, less the diacritics at 0xC1 to
/// 0xCF, which are not characters and are handled where they are read.
///
/// A cell the table assigns nothing to is the geta mark, which is what is
/// shown everywhere else here for a character there is no drawing.
pub open spec fn high_half() -> Seq<char> {
    " ¡¢£$¥〓§¤‘“«←↑→↓°±²³×µ¶·÷’”»¼½¾¿"@ + "〓〓〓〓〓〓〓〓〓〓〓〓〓〓〓〓"@
        + "―¹®©™♪¬¦〓〓〓〓⅛⅜⅝⅞ΩÆĐªĦ〓ĲĿŁØŒºÞŦŊŉ"@ + "ĸæđðħıĳŀłøœßþŧŋ"@
        + seq!['\u{AD}']
}

fn high_table() -> (out: Vec<char>)
    ensures
        out@ == high_half(),
{
    let mut out: Vec<char> = chars_of(" ¡¢£$¥〓§¤‘“«←↑→↓°±²³×µ¶·÷’”»¼½¾¿");
    put_chars(&mut out, chars_of("〓〓〓〓〓〓〓〓〓〓〓〓〓〓〓〓").as_slice());
    put_chars(&mut out, chars_of("―¹®©™♪¬¦〓〓〓〓⅛⅜⅝⅞ΩÆĐªĦ〓ĲĿŁØŒºÞŦŊŉ").as_slice());
    put_chars(&mut out, chars_of("ĸæđðħıĳŀłøœßþŧŋ").as_slice());
    out.push('\u{AD}');
    assert(out@ =~= high_half());
    out
}

/// The combining character of a diacritic ISO 6937 writes in front of a
/// letter, the letters it is written on, and those letters carrying it, in
/// the same order.
pub open spec fn diacritic(mark: u8) -> (char, Seq<char>, Seq<char>) {
    if mark == 0xC1 {
        ('\u{300}', "aeiouAEIOU"@, "àèìòùÀÈÌÒÙ"@)
    } else if mark == 0xC2 {
        ('\u{301}', "aceilnorsuyzACEILNORSUYZ"@, "áćéíĺńóŕśúýźÁĆÉÍĹŃÓŔŚÚÝŹ"@)
    } else if mark == 0xC3 {
        ('\u{302}', "aceghijosuwyACEGHIJOSUWY"@, "âĉêĝĥîĵôŝûŵŷÂĈÊĜĤÎĴÔŜÛŴŶ"@)
    } else if mark == 0xC4 {
        ('\u{303}', "ainouAINOU"@, "ãĩñõũÃĨÑÕŨ"@)
    } else if mark == 0xC5 {
        ('\u{304}', "aeiouAEIOU"@, "āēīōūĀĒĪŌŪ"@)
    } else if mark == 0xC6 {
        ('\u{306}', "aguAGU"@, "ăğŭĂĞŬ"@)
    } else if mark == 0xC7 {
        ('\u{307}', "cegzICEGZ"@, "ċėġżİĊĖĠŻ"@)
    } else if mark == 0xC8 {
        ('\u{308}', "aeiouyAEIOUY"@, "äëïöüÿÄËÏÖÜŸ"@)
    } else if mark == 0xC9 {
        ('\u{309}', ""@, ""@)
    } else if mark == 0xCA {
        ('\u{30A}', "auAU"@, "åůÅŮ"@)
    } else if mark == 0xCB {
        ('\u{327}', "cgklnrstCGKLNRST"@, "çģķļņŗşţÇĢĶĻŅŖŞŢ"@)
    } else if mark == 0xCC {
        ('\u{332}', ""@, ""@)
    } else if mark == 0xCD {
        ('\u{30B}', "ouOU"@, "őűŐŰ"@)
    } else if mark == 0xCE {
        ('\u{328}', "aeiuAEIU"@, "ąęįųĄĘĮŲ"@)
    } else {
        ('\u{30C}', "cdelnrstzCDELNRSTZ"@, "čďěľňřšťžČĎĚĽŇŘŠŤŽ"@)
    }
}

fn diacritic_of(mark: u8) -> (r: (char, &'static str, &'static str))
    ensures
        (r.0, r.1@, r.2@) == diacritic(mark),
{
    if mark == 0xC1 {
        ('\u{300}', "aeiouAEIOU", "àèìòùÀÈÌÒÙ")
    } else if mark == 0xC2 {
        ('\u{301}', "aceilnorsuyzACEILNORSUYZ", "áćéíĺńóŕśúýźÁĆÉÍĹŃÓŔŚÚÝŹ")
    } else if mark == 0xC3 {
        ('\u{302}', "aceghijosuwyACEGHIJOSUWY", "âĉêĝĥîĵôŝûŵŷÂĈÊĜĤÎĴÔŜÛŴŶ")
    } else if mark == 0xC4 {
        ('\u{303}', "ainouAINOU", "ãĩñõũÃĨÑÕŨ")
    } else if mark == 0xC5 {
        ('\u{304}', "aeiouAEIOU", "āēīōūĀĒĪŌŪ")
    } else if mark == 0xC6 {
        ('\u{306}', "aguAGU", "ăğŭĂĞŬ")
    } else if mark == 0xC7 {
        ('\u{307}', "cegzICEGZ", "ċėġżİĊĖĠŻ")
    } else if mark == 0xC8 {
        ('\u{308}', "aeiouyAEIOUY", "äëïöüÿÄËÏÖÜŸ")
    } else if mark == 0xC9 {
        ('\u{309}', "", "")
    } else if mark == 0xCA {
        ('\u{30A}', "auAU", "åůÅŮ")
    } else if mark == 0xCB {
        ('\u{327}', "cgklnrstCGKLNRST", "çģķļņŗşţÇĢĶĻŅŖŞŢ")
    } else if mark == 0xCC {
        ('\u{332}', "", "")
    } else if mark == 0xCD {
        ('\u{30B}', "ouOU", "őűŐŰ")
    } else if mark == 0xCE {
        ('\u{328}', "aeiuAEIU", "ąęįųĄĘĮŲ")
    } else {
        ('\u{30C}', "cdelnrstzCDELNRSTZ", "čďěľňřšťžČĎĚĽŇŘŠŤŽ")
    }
}

/// A letter with the diacritic ISO 6937 wrote in front of it.
///
/// The letters that have one character of their own get it: a name is
/// compared, sorted and written into a file name, and `é` does all three
/// differently from an `e` with a mark hung on it afterwards. The rest --
/// a diacritic on a letter no alphabet puts it on -- comes out as the letter
/// and the combining mark, which draws the same and says as much as the
/// bytes did.
pub open spec fn composed_text(mark: u8, base: char) -> Seq<char> {
    let (combining, plain, carrying) = diacritic(mark);
    let at = index_from(plain, base, 0);
    if at >= plain.len() {
        seq![base, combining]
    } else if at < carrying.len() {
        seq![carrying[at]]
    } else {
        Seq::empty()
    }
}

/// A letter with the diacritic ISO 6937 wrote in front of it.
fn composed(mark: u8, base: char) -> (out: Vec<char>)
    ensures
        out@ == composed_text(mark, base),
{
    let (combining, plain, carrying): (char, &str, &str) = diacritic_of(mark);
    let letters: Vec<char> = chars_of(plain);
    let marked: Vec<char> = chars_of(carrying);
    let mut out: Vec<char> = Vec::new();
    let at: usize = find_char(letters.as_slice(), base, 0);
    if at >= letters.len() {
        out.push(base);
        out.push(combining);
        assert(out@ =~= seq![base, combining]);
    } else if at < marked.len() {
        out.push(marked[at]);
        assert(out@ =~= seq![marked@[at as int]]);
    } else {
        assert(out@ =~= Seq::empty());
    }
    out
}

/// The bytes of ISO 6937 from `i` on, as text.
///
/// The low half is ASCII, and the one place ISO 6937 differs from it -- 0x24,
/// which the table draws as a currency sign rather than a dollar -- is left as
/// the dollar every muxer that writes this text means by it. Nothing is
/// assigned from 0x80 to 0x9F: it is where the control codes of an eight-bit
/// table go, and this table has none. An accent with nothing behind it stands
/// on a space.
pub open spec fn latin_from(b: Seq<u8>, i: int) -> Seq<char>
    decreases b.len() + 1 - i,
{
    if i < 0 || i >= b.len() {
        Seq::empty()
    } else if b[i] < 0x80 {
        seq![b[i] as char] + latin_from(b, i + 1)
    } else if b[i] < 0xA0 {
        latin_from(b, i + 1)
    } else if 0xC1 <= b[i] <= 0xCF {
        let base = if i + 1 < b.len() {
            b[i + 1] as char
        } else {
            ' '
        };
        composed_text(b[i], base) + latin_from(b, i + 2)
    } else {
        seq![high_half()[b[i] - 0xA0]] + latin_from(b, i + 1)
    }
}

/// Text in the table DVB uses when nothing says otherwise.
pub open spec fn default_text(b: Seq<u8>) -> Seq<char> {
    if valid_utf8(b) {
        decode_utf8(b)
    } else {
        latin_from(b, 0)
    }
}

/// The high half has a cell for every byte of it.
proof fn lemma_high_half()
    ensures
        high_half().len() == 96,
{
    reveal_strlit(" ¡¢£$¥〓§¤‘“«←↑→↓°±²³×µ¶·÷’”»¼½¾¿");
    reveal_strlit("〓〓〓〓〓〓〓〓〓〓〓〓〓〓〓〓");
    reveal_strlit("―¹®©™♪¬¦〓〓〓〓⅛⅜⅝⅞ΩÆĐªĦ〓ĲĿŁØŒºÞŦŊŉ");
    reveal_strlit("ĸæđðħıĳŀłøœßþŧŋ");
    assert(" ¡¢£$¥〓§¤‘“«←↑→↓°±²³×µ¶·÷’”»¼½¾¿"@.len() == 32);
    assert("〓〓〓〓〓〓〓〓〓〓〓〓〓〓〓〓"@.len() == 16);
    assert("―¹®©™♪¬¦〓〓〓〓⅛⅜⅝⅞ΩÆĐªĦ〓ĲĿŁØŒºÞŦŊŉ"@.len() == 32);
    assert("ĸæđðħıĳŀłøœßþŧŋ"@.len() == 15);
}

/// Text in the table DVB uses when nothing says otherwise.
///
/// Which is ISO 6937: ASCII in the low half, and in the high half the
/// symbols and the combining diacritics that write a European language --
/// `0xC2 0x65` is `é`, the accent first. See [`composed_text`].
///
/// UTF-8 first, though. A muxer that writes a name of its own writes it in
/// whatever the operating system handed it, which today is UTF-8, and the
/// selector that would have said so is written by fewer of them than write
/// the text. Well-formed UTF-8 carrying a character outside ASCII is not a
/// coincidence, and ASCII is the same text in both.
fn default_table(bytes: &[u8]) -> (out: Vec<char>)
    ensures
        out@ == default_text(bytes@),
{
    if let Some(text) = from_stored(bytes) {
        return chars_of(text);
    }
    let high: Vec<char> = high_table();
    proof {
        lemma_high_half();
    }
    let mut out: Vec<char> = Vec::new();
    let mut at: usize = 0;
    while at < bytes.len()
        invariant
            at <= bytes@.len(),
            high@ == high_half(),
            high@.len() == 96,
            latin_from(bytes@, 0) =~= out@ + latin_from(bytes@, at as int),
        decreases bytes@.len() - at,
    {
        let b: u8 = bytes[at];
        if b < 0x80 {
            out.push(b as char);
            at += 1;
        } else if b < 0xA0 {
            at += 1;
        } else if 0xC1 <= b && b <= 0xCF {
            let alone: bool = bytes.len() - at < 2;
            let base: char = if alone {
                ' '
            } else {
                bytes[at + 1] as char
            };
            put_chars(&mut out, composed(b, base).as_slice());
            if alone {
                assert(latin_from(bytes@, at + 2) =~= Seq::empty());
                at += 1;
            } else {
                at += 2;
            }
        } else {
            out.push(high[(b - 0xA0) as usize]);
            at += 1;
        }
    }
    out
}

/// Whether text off a Japanese network was written by something that did not
/// know that, and is UTF-8.
///
/// Two things have to hold, because either on its own happens by accident.
/// The field has to be well-formed UTF-8 carrying a character outside ASCII,
/// which a run of ARIB's graphic bytes almost never is; and it has to carry
/// a byte from 0x80 to 0x9F, which in ARIB is a control code with parameters
/// after it and in a name is nothing anybody writes. Both together is a
/// muxer's UTF-8.
pub open spec fn is_rewritten(b: Seq<u8>) -> bool {
    valid_utf8(b) && exists|i: int| 0 <= i < b.len() && 0x80 <= #[trigger] b[i] <= 0x9F
}

/// Whether text off a Japanese network is a muxer's UTF-8; see
/// [`is_rewritten`].
pub fn rewritten(bytes: &[u8]) -> (r: bool)
    ensures
        r == is_rewritten(bytes@),
{
    if from_stored(bytes).is_none() {
        return false;
    }
    let mut i: usize = 0;
    while i < bytes.len()
        invariant
            i <= bytes@.len(),
            valid_utf8(bytes@),
            forall|k: int| 0 <= k < i ==> !(0x80 <= #[trigger] bytes@[k] <= 0x9F),
        decreases bytes@.len() - i,
    {
        if 0x80 <= bytes[i] && bytes[i] <= 0x9F {
            assert(0x80 <= bytes@[i as int] <= 0x9F);
            return true;
        }
        i += 1;
    }
    false
}

/// What a field says where its front did not settle it, going by the network
/// and then by the bytes. `arib` is what ARIB's own code makes of it.
pub open spec fn settled_text(b: Seq<u8>, written: Written, arib: Seq<char>) -> Seq<char> {
    match written {
        Written::Dvb => default_text(b),
        Written::Arib => if is_rewritten(b) {
            decode_utf8(b)
        } else {
            arib
        },
    }
}

/// What a field says once what its front settled is known.
pub fn settled(selected: Option<String>, bytes: &[u8], written: Written, arib: &str) -> (r: String)
    ensures
        r@ == match text_view(selected) {
            Some(text) => text,
            None => settled_text(bytes@, written, arib@),
        },
{
    if let Some(text) = selected {
        return text;
    }
    match written {
        Written::Dvb => string_of(default_table(bytes).as_slice()),
        Written::Arib => {
            if rewritten(bytes) {
                if let Some(text) = from_stored(bytes) {
                    return text.to_owned();
                }
            }
            arib.to_owned()
        },
    }
}

/// Decode the text of a table's descriptor. `arib` is what ARIB's own code
/// makes of it, for where that is what it is written in.
///
/// Never fails: these are somebody else's bytes, and half a name is better
/// than an error where a name should be.
pub fn decode(bytes: &[u8], written: Written, arib: &str) -> (r: String)
    requires
        bytes@.len() <= usize::MAX / 16,
    ensures
        r@ == match selected_text(bytes@, written) {
            Some(text) => text,
            None => settled_text(bytes@, written, arib@),
        },
        bytes@.len() > 0 && bytes@[0] == 0x15 && valid_utf8(bytes@.skip(1)) ==> r@
            == without_marks(decode_utf8(bytes@.skip(1))),
{
    settled(selected(bytes, written), bytes, written, arib)
}

/// UTF-8 a muxer wrote without saying so is read as UTF-8 whichever network
/// the recording says it came off, where the bytes carry what gives it away.
pub proof fn law_utf8_off_any_network_is_utf8(s: Seq<char>, written: Written, arib: Seq<char>)
    requires
        exists|i: int|
            0 <= i < crate::chars::stored(s).len() && 0x80 <= #[trigger] crate::chars::stored(s)[i]
                <= 0x9F,
    ensures
        settled_text(crate::chars::stored(s), written, arib) == s,
{
    vstd::utf8::encode_utf8_valid_utf8(s);
    vstd::utf8::encode_utf8_decode_utf8(s);
}

} // verus!
