use smartcut_core::text::{accepted, decode, rewritten, selected, selector, settled, Selector, Written};

/// What the reader of ARIB's own code is taken to have made of a field.
const ARIB: &str = "漢字";


/// `ffmpeg -metadata service_name=...` on a name it can write in ASCII:
/// the bytes go in as they are, with no selector in front of them.
#[test]
fn a_muxers_plain_name_is_not_read_as_kanji() {
    let name = b"Service01";
    assert_eq!(decode(name, Written::Dvb, ARIB), "Service01");
    // And the same bytes off a Japanese network are two-byte kanji,
    // because that is what they are there.
    assert_ne!(decode(name, Written::Arib, ARIB), "Service01");
}

/// The same, on a name it cannot: the selector for UTF-8 and then the
/// name.
#[test]
fn a_muxers_utf8_name_is_read_as_utf8() {
    let mut field = vec![0x15];
    field.extend_from_slice("ＢＳフジ・１８１".as_bytes());
    assert_eq!(decode(&field, Written::Dvb, ARIB), "ＢＳフジ・１８１");
    assert_eq!(decode(&field, Written::Arib, ARIB), "ＢＳフジ・１８１");
}

/// A muxer that wrote the name and left the selector off, in a file that
/// still says it came off a Japanese network.
#[test]
fn utf8_off_a_japanese_network_is_still_utf8() {
    let name = "ＢＳフジ・１８１".as_bytes();
    assert_eq!(decode(name, Written::Arib, ARIB), "ＢＳフジ・１８１");
}

#[test]
fn a_network_says_which_standard_its_tables_are() {
    // What `ffmpeg` puts there, and what a broadcast does.
    assert_eq!(Written::of_network(0xFF01), Written::Dvb);
    assert_eq!(Written::of_network(0x7FE0), Written::Arib);
    assert_eq!(Written::of_network(0x0004), Written::Arib);
    assert_eq!(Written::of_network(0x2028), Written::Dvb);
    // A field nobody filled in says nothing.
    assert_eq!(Written::of_network(0), Written::Arib);
}

/// The default table, which is where a European broadcast's own name is:
/// the accent is written before the letter it goes on.
#[test]
fn the_default_table_puts_the_accent_first() {
    assert_eq!(decode(b"Cin\xc2\x65ma", Written::Dvb, ARIB), "Cinéma");
    assert_eq!(decode(b"\xc8u", Written::Dvb, ARIB), "ü");
    // A diacritic on a letter that has no character of its own keeps the
    // letter and hangs the mark on it.
    assert_eq!(decode(b"\xc1w", Written::Dvb, ARIB), "w\u{300}");
}

#[test]
fn the_high_half_of_the_default_table_is_symbols() {
    assert_eq!(decode(b"\xd3 2026", Written::Dvb, ARIB), "© 2026");
    assert_eq!(decode(b"\xa2", Written::Dvb, ARIB), "¢");
}

/// The tables named by a selector, each read as the selector said.
#[test]
fn a_selector_names_the_table() {
    // ISO 8859-7, Greek: 0x01 is -5, so 0x03 is -7.
    assert_eq!(decode(b"\x03\xc1\xc2\xc3", Written::Dvb, ARIB), "ΑΒΓ");
    // The basic multilingual plane, two bytes a character.
    assert_eq!(decode(b"\x11\x00A\x00B", Written::Dvb, ARIB), "AB");
    // And the long-form ISO 8859 selector: part 2, Central European.
    assert_eq!(decode(b"\x10\x00\x02\xe8", Written::Dvb, ARIB), "č");
}

/// A selector byte that is not one, in front of bytes that are not the
/// table it would have named.
#[test]
fn a_selector_the_bytes_belie_is_not_a_selector() {
    // 0x15 says UTF-8 and what follows is not UTF-8, so it is not a
    // selector and the field is read the way the recording is.
    let field = b"\x15\xff\xfe";
    assert_eq!(selected(field, Written::Dvb), None);
}

#[test]
fn nothing_is_nothing() {
    assert_eq!(decode(b"", Written::Dvb, ARIB), "");
    assert_eq!(decode(b"", Written::Arib, ""), "");
}

/// What ARIB's reader made of a field is what is handed back where nothing
/// says it is anything else.
#[test]
fn a_field_nothing_else_claims_is_arib() {
    assert_eq!(decode(b"\x1b\x24\x42", Written::Arib, "名前"), "名前");
    assert!(!rewritten(b"Service01"));
    assert!(!rewritten(b"\xe3\x81"));
    assert!(rewritten("あ".as_bytes()));
}

#[test]
fn a_selector_is_read_for_what_it_is() {
    assert_eq!(selector(b"", Written::Dvb), Selector::Unsaid);
    assert_eq!(selector(b"\x05a", Written::Dvb), Selector::Table("ISO-8859-9".into(), 1));
    assert_eq!(selector(b"\x05a", Written::Arib), Selector::Unsaid);
    assert_eq!(selector(b"\x10\x00\x0fa", Written::Arib), Selector::Table("ISO-8859-15".into(), 3));
    assert_eq!(selector(b"\x11ab", Written::Arib), Selector::Table("UTF-16BE".into(), 1));
    assert_eq!(selector(b"\x11a", Written::Arib), Selector::Unsaid);
    assert_eq!(selector(b"\x1f\x01a", Written::Dvb), Selector::Unlisted(2));
}

/// The other tables a selector names, and one there is none of.
#[test]
fn the_eastern_tables_are_read() {
    assert_eq!(selected(b"\x12\xb0\xa1", Written::Arib).as_deref(), Some("가"));
    assert_eq!(selected(b"\x13\xc4\xe3", Written::Arib).as_deref(), Some("你"));
    assert_eq!(selected(b"\x14\xa4\x40", Written::Arib).as_deref(), Some("一"));
    assert_eq!(selected(b"\x10\x00\x63abc", Written::Dvb), None);
    assert_eq!(selected(b"\x1f\x01\xc2\x65", Written::Dvb).as_deref(), Some("é"));
    assert_eq!(selected(b"\x15\xef\xbb\xbfa", Written::Dvb).as_deref(), Some("a"));
}

#[test]
fn what_was_read_is_kept_where_it_is_whole() {
    assert_eq!(accepted(Some(("\u{FEFF}\u{FEFF}ab".into(), false))).as_deref(), Some("ab"));
    assert_eq!(accepted(Some(("ab".into(), true))), None);
    assert_eq!(accepted(None), None);
    assert_eq!(settled(Some("x".into()), b"y", Written::Dvb, ""), "x");
    assert_eq!(settled(None, b"y", Written::Dvb, ""), "y");
    assert_eq!(settled(None, b"y", Written::Arib, "z"), "z");
}

/// An accent at the very end stands on a space, and a control code is
/// nothing.
#[test]
fn an_accent_with_nothing_behind_it_stands_on_a_space() {
    assert_eq!(decode(b"\xff\xc2", Written::Dvb, ""), "\u{AD} \u{301}");
    assert_eq!(decode(b"\x80a\xa1", Written::Dvb, ""), "a¡");
}
