use smartcut_core::time::SECOND;
use smartcut_core::ttml::{clock, cue, document, retimed, written, written_clock, MILLI};


/// One document as a 4K recorder sends it, trimmed to one span and its
/// styles. The twelve bytes in front of it are the recorder's own.
fn packet(begin: &str, end: &str, text: &str) -> Vec<u8> {
    let doc = format!(
        "<?xml version=\"1.0\" encoding=\"utf-8\"?><tt xmlns=\"http://www.w3.org/ns/ttml\" \
         xml:lang=\"ja\"><head><styling>\
         <style xml:id=\"normalSize1\" tts:fontSize=\"144px 144px\" tts:lineHeight=\"240px\" \
         arib-tt:letter-spacing=\"16px\" />\
         <style xml:id=\"middleSize1\" tts:fontSize=\"72px 144px\" tts:lineHeight=\"240px\" \
         arib-tt:letter-spacing=\"8px\" />\
         <style xml:id=\"foreColor1\" tts:color=\"#FFFF00FF\" /></styling><layout>\
         <region xml:id=\"r10\" tts:extent=\"1040px 240px\" tts:origin=\"552px 1796px\" />\
         </layout></head><body><div begin=\"{begin}\" end=\"{end}\">\
         <p xml:id=\"P10-1\" region=\"r10\">\
         <span xml:id=\"S10-1\" style=\"normalSize1 foreColor1\">{text}</span>\
         </p></div></body></tt>"
    );
    let mut out = vec![0u8; 12];
    out.extend_from_slice(doc.as_bytes());
    out
}

#[test]
fn reads_the_times_out_of_the_document() {
    let p = packet("00:02:21.667", "00:02:26.667", "テスト");
    assert_eq!(cue(&p), Some((141_667 * MILLI, 146_667 * MILLI)));
    // A packet with no document in it is not one of these at all.
    assert_eq!(cue(b"\x80\xff\xf0"), None);
}

#[test]
fn moves_the_times_without_changing_the_length() {
    let p = packet("00:02:21.667", "00:02:26.667", "テスト");
    // The range begins at 2:00 and the cut puts it at 0:10.
    let moved = retimed(&p, (10 - 120) * SECOND, (120 * SECOND, 200 * SECOND)).unwrap();
    assert_eq!(moved.len(), p.len());
    assert_eq!(cue(&moved), Some((31_667 * MILLI, 36_667 * MILLI)));
    // A caption already on screen when the range opens is kept, from
    // the range's own beginning.
    let moved = retimed(&p, -145 * SECOND, (145 * SECOND, 200 * SECOND)).unwrap();
    assert_eq!(cue(&moved), Some((0, 1_667 * MILLI)));
    // And one that falls outside every kept range is not carried.
    assert!(retimed(&p, 0, (0, 100 * SECOND)).is_none());
    assert!(retimed(&p, 0, (200 * SECOND, 300 * SECOND)).is_none());
}

#[test]
fn lays_the_words_out_where_the_region_puts_them() {
    let p = packet("00:00:05.000", "00:00:43.000", "あいう");
    let written = written(&p).unwrap();
    assert_eq!(written.plane, (3840, 2160));
    let page = &written.pages[0];
    assert_eq!((page.at, page.until), (5 * SECOND, Some(43 * SECOND)));
    let run = &page.runs[0];
    assert_eq!(run.text, "あいう");
    // The region's own corner, and the character pitch is the size plus
    // the spacing the document asks for.
    assert_eq!(run.x, 552);
    assert_eq!(run.advance, 160);
    assert_eq!(run.width, 480);
    assert_eq!(run.height, 144);
    // Centred in the line the document leaves for it.
    assert_eq!(run.y, 1796 + (240 - 144) / 2);
    assert_eq!(run.colour, 0xFFFF00);
}

#[test]
fn a_half_width_span_advances_by_half() {
    let doc = String::from_utf8(packet("00:00:01.000", "00:00:02.000", "x")[12..].to_vec())
        .unwrap()
        .replace("normalSize1 foreColor1", "middleSize1 foreColor1");
    let mut p = vec![0u8; 12];
    p.extend_from_slice(doc.as_bytes());
    let written = written(&p).unwrap();
    let run = &written.pages[0].runs[0];
    assert_eq!((run.advance, run.width, run.height), (80, 80, 144));
}

#[test]
fn a_document_is_found_by_its_opening() {
    assert_eq!(document(b"\x00\x01<?xml?>a"), Some("<?xml?>a"));
    assert_eq!(document(b"<?xml\xff"), None);
    assert_eq!(document(b"<xml"), None);
}

/// The clock, and back again.
#[test]
fn a_clock_reads_back() {
    assert_eq!(clock(b"01:02:03.004"), Some(3_723_004 * MILLI));
    assert_eq!(clock(b"0:0:.5"), Some(500 * MILLI));
    assert_eq!(clock(b"00:00"), None);
    assert_eq!(clock(b"00:00:00:00"), None);
    assert_eq!(clock(b"aa:00:00"), None);
    assert_eq!(written_clock(3_723_004 * MILLI), b"01:02:03.004");
    assert_eq!(written_clock(-SECOND), b"00:00:00.000");
    // A thousandth that rounds up carries all the way.
    assert_eq!(written_clock(3600 * SECOND - 1), b"01:00:00.000");
    assert_eq!(written_clock(360_000 * SECOND), b"100:00:00.000");
}

/// A line break starts the next line at the region's edge, an entity is what
/// it stands for, and a paragraph with no region is not drawn.
#[test]
fn lines_and_entities_are_laid_out() {
    let doc = "<?xml version=\"1.0\"?><tt tts:extent=\"1920px 1080px\"><head>\
        <region xml:id=\"r\" tts:origin=\"100px 200px\"/></head><body>\
        <div begin=\"0:0:1\" end=\"0:0:2\"><p region=\"r\"><span>A&lt;</span><br/>\
        <span>&amp;gt;</span></p><p region=\"none\"><span>B</span></p></div></body></tt>";
    let written = written(doc.as_bytes()).unwrap();
    assert_eq!(written.plane, (1920, 1080));
    let runs = &written.pages[0].runs;
    assert_eq!(runs.len(), 2);
    assert_eq!((runs[0].text.as_str(), runs[0].x, runs[0].y), ("A<", 100, 248));
    assert_eq!((runs[1].text.as_str(), runs[1].x, runs[1].y), ("&gt;", 100, 488));
    assert_eq!(runs[1].width, 4 * 144);
    assert_eq!(runs[0].colour, 0xFF_FF_FF);
}

/// Styles are laid over one another in the order named, and one that states a
/// thing states it whatever it is.
#[test]
fn a_later_style_states_its_own() {
    let run_of = |names: &str| {
        let doc = format!(
            "<?xml?><tt><style xml:id=\"m\" tts:fontSize=\"72px 144px\" \
             arib-tt:letter-spacing=\"8px\" tts:color=\"#FFFF00\"/>\
             <style xml:id=\"n\" tts:fontSize=\"144px 144px\" arib-tt:letter-spacing=\"16px\"/>\
             <style xml:id=\"w\" tts:color=\"#FFFFFF\" arib-tt:letter-spacing=\"0px\"/>\
             <style xml:id=\"t\" tts:lineHeight=\"300px\"/>\
             <style xml:id=\"u\" tts:lineHeight=\"240px\"/>\
             <region xml:id=\"r\" tts:origin=\"0px 0px\"/>\
             <div begin=\"00:00:01.000\" end=\"00:00:02.000\">\
             <p region=\"r\"><span style=\"{names}\">x</span></p></div></tt>"
        );
        let mut payload = vec![0u8; 12];
        payload.extend_from_slice(doc.as_bytes());
        let run = written(&payload).unwrap().pages.remove(0).runs.remove(0);
        (run.advance, run.width, run.y, run.colour)
    };
    assert_eq!(run_of("m n"), (160, 160, 48, 0xFF_FF_00));
    assert_eq!(run_of("n m"), (80, 80, 48, 0xFF_FF_00));
    assert_eq!(run_of("m w"), (72, 72, 48, 0xFF_FF_FF));
    assert_eq!(run_of("t"), (144, 144, 78, 0xFF_FF_FF));
    assert_eq!(run_of("t u"), (144, 144, 48, 0xFF_FF_FF));
    assert_eq!(run_of("t nothing"), (144, 144, 78, 0xFF_FF_FF));
}

/// The numbers of a clock, however they are written.
#[test]
fn a_clock_is_read_however_it_is_written() {
    assert_eq!(clock(b"0000000000001:00:00"), Some(3600 * SECOND));
    assert_eq!(clock(b"0:0:1.000000000000000000001"), Some(SECOND));
    assert_eq!(clock(b"0:0:0.1234567894999"), clock(b"0:0:0.123456789"));
    assert_eq!(clock(b"0:0:0.1234567895"), clock(b"0:0:0.12345679"));
    assert_eq!(clock(b"0:0:15e-1"), Some(1500 * MILLI));
    assert_eq!(clock(b"1E0:+.5e2:-2.5E+1"), Some((3600 + 3000 - 25) * SECOND));
    assert_eq!(clock(b"0:0:0e99999999999999999999999999999999999999"), Some(0));
    assert_eq!(clock(b"0:0:1e-99999999999999999999999999999999999999"), Some(0));
    assert_eq!(clock(b"0:0:5e-10"), clock(b"0:0:1e-9"));
    assert_eq!(clock(b"0:0:4e-10"), Some(0));
    for none in ["0:0:1e", "0:0:e5", "0:0:.", "0:0:1e5.0", "0:0:1e99", "0:0:1_0", "::", "0:0:inf"] {
        assert_eq!(clock(none.as_bytes()), None, "{none}");
    }
}

/// A time is counted as far as ticks go.
#[test]
fn a_clock_reaches_as_far_as_ticks_do() {
    assert_eq!(clock(b"120000:00:00"), Some(120_000 * 3600 * SECOND));
    assert_eq!(clock(b"-120000:00:00"), Some(-120_000 * 3600 * SECOND));
    assert_eq!(clock(b"3600000:00:00"), Some(3_600_000 * 3600 * SECOND));
    assert_eq!(clock(b"3700000:00:00"), None);
    let far = packet("00:00:05.000", "3600000:00:00", "x");
    assert_eq!(cue(&far), Some((5 * SECOND, 3_600_000 * 3600 * SECOND)));
    assert_eq!(written(&far).unwrap().pages[0].until, Some(3_600_000 * 3600 * SECOND));
    // Clipped to the window, it has room to spare.
    let cut = retimed(&far, 0, (0, 10 * SECOND)).unwrap();
    assert_eq!(cue(&cut).unwrap().0, 5 * SECOND);
    assert_eq!(written_clock(i64::MAX), b"3631020:06:27.833");
}

/// Only the attribute's own value is written over.
#[test]
fn a_time_is_written_where_it_was_read() {
    let packet = |begin: &str, end: &str| {
        format!(
            "<?xml?><tt><div xml:begin=\"99:99:99.999\" begin=\"{begin}\" tts:end=\"88\" \
             end=\"{end}\"/></tt>"
        )
    };
    let was = packet("00:00:05.000", "00:00:07.500");
    let out = retimed(was.as_bytes(), -2 * SECOND, (0, 100 * SECOND)).unwrap();
    assert_eq!(String::from_utf8(out).unwrap(), packet("00:00:03.000", "00:00:05.500"));
    // What leaves no room for a time is left alone altogether.
    assert!(retimed(packet("0:0:5", "00:00:07.500").as_bytes(), 0, (0, 100 * SECOND)).is_none());
}

/// A hundred hours take more room than there is.
#[test]
fn a_time_that_does_not_fit_is_not_written() {
    let p = packet("00:00:05.000", "00:00:07.000", "x");
    let hours = |n: i64| n * 3600 * SECOND;
    let window = (0, 100 * SECOND);
    let last = retimed(&p, hours(100) - 8 * SECOND, window).unwrap();
    assert_eq!(cue(&last), Some((hours(100) - 3 * SECOND, hours(100) - SECOND)));
    assert!(retimed(&p, hours(100) - 7 * SECOND, window).is_none());
    assert!(retimed(&p, hours(100), window).is_none());
    // Where there is room for them they are written.
    let wide = packet("100:00:05.000", "100:00:07.000", "x");
    let later = retimed(&wide, SECOND, (0, hours(200))).unwrap();
    assert_eq!(cue(&later), Some((hours(100) + 6 * SECOND, hours(100) + 8 * SECOND)));
}
