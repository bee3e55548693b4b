//! What a recording is described by: its pictures, its tracks, and the places
//! a cut can start from.
pub mod held;
pub mod index;
pub mod outline;

use crate::cache::hex_digit;
use crate::chars::{chars_of, same_text, string_of};
use crate::decimal::{decimal, put_decimal};
use crate::time::SECOND;
use vstd::prelude::*;

verus! {

/// A random access point and the leading pictures that hang off it.
#[derive(Debug, Clone)]
pub struct AccessPoint {
    /// Presentation time of the I picture, from the start of the file.
    pub time: i64,
    /// Earliest presentation time among its leading pictures; equals `time`
    /// when the GOP is closed.
    pub lead_start: i64,
    /// Decode-order offsets, relative to the I picture, of those leading
    /// pictures.
    pub lead_indices: Vec<usize>,
    /// Whether those leading pictures may be cut away, that is, none of them
    /// is itself a reference picture.
    pub droppable: bool,
    /// Byte offset of the packet the I picture arrives in, or -1 when the
    /// index could not say.
    pub pos: i64,
}

impl AccessPoint {
    /// Whether pictures hang off this point that reference the GOP before it.
    pub open spec fn is_open(&self) -> bool {
        self.lead_indices@.len() > 0
    }

    pub fn open_gop(&self) -> (r: bool)
        ensures
            r == self.is_open(),
    {
        self.lead_indices.len() > 0
    }
}

/// A number of things over another: a rate, or the length of a tick. Nothing
/// over something is "not stated".
#[derive(Debug, Clone, Copy, PartialEq, Eq, Structural)]
pub struct Ratio {
    pub num: u32,
    pub den: u32,
}

impl Ratio {
    /// Whether anything is stated at all.
    pub open spec fn stated(&self) -> bool {
        self.num > 0 && self.den > 0
    }
}

/// What the pictures of a recording are.
#[derive(Debug, Clone)]
pub struct VideoInfo {
    pub stream_index: usize,
    pub codec: String,
    pub width: u32,
    pub height: u32,
    /// Pictures a second, averaged over the recording.
    pub frame_rate: Ratio,
    /// The rate the container says its pictures are meant to come at. On
    /// anything constant the two agree; on a variable recording this is the
    /// only round number in sight.
    pub base_rate: Ratio,
    /// Reorder depth: how far decode times trail presentation times.
    pub has_b_frames: i32,
    /// Seconds a tick of the stream's own clock lasts.
    pub time_base: Ratio,
    /// Pixel aspect ratio. Broadcast 1440x1080 is not square-pixel.
    pub sample_aspect_ratio: Ratio,
    /// Whether pictures are shown for varying numbers of fields.
    pub pulldown: bool,
    /// Whether the pictures come at no one rate.
    pub variable_rate: bool,
    /// The field order of the source; 2 to 5 mean interlaced.
    pub field_order: i32,
    /// Bits per second the pictures actually take, where they were counted.
    pub bit_rate: Option<u64>,
}

/// How long one picture is shown at a rate; a thirtieth of a second where no
/// rate is stated.
pub open spec fn picture_time(rate: Ratio) -> int {
    if rate.stated() {
        SECOND * rate.den / rate.num as int
    } else {
        SECOND as int / 30
    }
}

/// A rate to count pictures by; thirty a second where none is stated.
pub open spec fn counted_rate(rate: Ratio) -> Ratio {
    if rate.stated() {
        rate
    } else {
        Ratio { num: 30, den: 1 }
    }
}

/// The orders that mean the pictures are two fields.
pub open spec fn is_interlaced(field_order: i32) -> bool {
    2 <= field_order <= 5
}

impl VideoInfo {
    pub fn interlaced(&self) -> (r: bool)
        ensures
            r == is_interlaced(self.field_order),
    {
        2 <= self.field_order && self.field_order <= 5
    }

    /// The two orders that lead with the top field.
    pub fn top_field_first(&self) -> (r: bool)
        ensures
            r == (self.field_order == 2 || self.field_order == 4),
    {
        self.field_order == 2 || self.field_order == 4
    }

    /// How long one picture is shown.
    pub fn frame_duration(&self) -> (r: i64)
        ensures
            r == picture_time(self.frame_rate),
            0 <= r <= 0x2A0E_A0FF_D5F1_5F00,
    {
        let rate: Ratio = self.frame_rate;
        if rate.num > 0 && rate.den > 0 {
            let all: u64 = SECOND as u64 * rate.den as u64;
            assert(all / rate.num as u64 <= all) by (nonlinear_arith)
                requires
                    rate.num > 0,
                    all >= 0,
            ;
            (all / rate.num as u64) as i64
        } else {
            SECOND / 30
        }
    }
}

/// What a broadcast says of one of its sound tracks.
#[derive(Debug, Clone, PartialEq, Eq)]
pub struct SoundTrack {
    /// The tag the recording's map names the track by.
    pub component_tag: u8,
    /// Whether it is the main sound.
    pub main: bool,
    pub language: Option<String>,
    /// What the broadcaster calls it.
    pub name: String,
}

/// One sound track of a recording.
#[derive(Debug, Clone, PartialEq, Eq)]
pub struct AudioInfo {
    pub stream_index: usize,
    /// The PID this arrived on, when the recording is a transport stream.
    ///
    /// Written back out as it was. A broadcast names its tracks by PID and
    /// by the component tag beside it in the map -- 0x10 the main sound,
    /// 0x11 the second -- and a bilingual recording whose two tracks come
    /// back on fresh PIDs has lost which was which.
    pub pid: i32,
    /// The language the map declared, when it declared one.
    pub language: Option<String>,
    pub codec: String,
    pub sample_rate: u32,
    pub channels: u16,
    /// How wide this track's samples are once they are written as linear
    /// PCM: 24 for a recording that has more than 16 bits in it, 16 for
    /// everything else.
    pub bits: u8,
    /// Seconds a tick of the stream's own clock lasts.
    pub time_base: Ratio,
    pub bit_rate: Option<u64>,
    /// What the broadcast says this track is: the main sound or a second
    /// one, in what language, under what name.
    ///
    /// `None` for everything that is not a broadcast recording carrying more
    /// than one track.
    pub said: Option<SoundTrack>,
}

/// Which of the two text streams a broadcast sends this is.
///
/// They are the same kind of stream doing different jobs. The captions are
/// the programme's own subtitles and belong to it; the crawl is the station
/// writing across whatever is on air -- an earthquake, a vote count, a
/// missing child -- and belongs to the hour rather than to the programme.
/// Both are carried, and a reader is told which it is looking at.
#[derive(Debug, Clone, Copy, PartialEq, Eq, Structural)]
pub enum TextKind {
    Caption,
    Superimpose,
}

/// And which of the two ways it is written.
///
/// A high definition broadcast writes ARIB STD-B24: characters, where to put
/// them, and what to draw them in, as a byte stream with shifts and escapes
/// in it. A 4K broadcast writes TTML instead -- an XML document per caption,
/// with the words in it and the region they go in stated in pixels.
#[derive(Debug, Clone, Copy, PartialEq, Eq, Structural)]
pub enum TextFormat {
    Arib,
    Ttml,
}

/// Which of the three text streams a stream is, from what the recording's
/// own map says about it and what the demuxer made of it.
pub open spec fn text_kind(
    tag: Option<u8>,
    data_component_id: Option<u16>,
    named: bool,
) -> Option<(TextKind, TextFormat)> {
    let format = if data_component_id is Some || named {
        TextFormat::Arib
    } else {
        TextFormat::Ttml
    };
    if tag is Some && 0x30 <= tag->0 <= 0x37 {
        Some((TextKind::Caption, format))
    } else if tag is Some && 0x38 <= tag->0 <= 0x3F {
        Some((TextKind::Superimpose, format))
    } else if named {
        Some((TextKind::Caption, format))
    } else {
        None
    }
}

/// Which of the three text streams a stream is, from what the recording's
/// own map says about it and what the demuxer made of it.
///
/// **The demuxer names one of them and lumps the other two together.** The
/// captions of a high definition broadcast come back as such; its crawl and a
/// 4K recording's subtitles both come back as bytes of no stated kind. What
/// tells those apart is the component tag the map carries -- 0x30..0x37 the
/// captions, 0x38..0x3F the crawl -- and whether the map also carries the data
/// component descriptor that says the text is ARIB's. A 4K recording carries
/// neither that descriptor nor ARIB text: its subtitles are TTML documents.
///
/// `named` is the demuxer's own answer, which stands in for the map on a
/// recording whose map could not be read -- a clip taken off a disc, or a
/// broadcast that adds its caption stream to the map a minute in.
pub fn text_stream(tag: Option<u8>, data_component_id: Option<u16>, named: bool) -> (r: Option<
    (TextKind, TextFormat),
>)
    ensures
        r == text_kind(tag, data_component_id, named),
{
    let format: TextFormat = if data_component_id.is_some() || named {
        TextFormat::Arib
    } else {
        TextFormat::Ttml
    };
    let kind: TextKind = match tag {
        Some(t) => if 0x30 <= t && t <= 0x37 {
            TextKind::Caption
        } else if 0x38 <= t && t <= 0x3F {
            TextKind::Superimpose
        } else if named {
            TextKind::Caption
        } else {
            return None;
        },
        None => if named {
            TextKind::Caption
        } else {
            return None;
        },
    };
    Some((kind, format))
}

/// A caption stream: the subtitles the broadcast itself sends, or the crawl
/// it writes over them.
///
/// Kept as its own thing rather than as one more elementary stream, because
/// it is the one non-audio stream that can be put on a cut timeline. Its
/// packets carry a presentation time each, so they shift with the pictures
/// the way audio frames do -- and unlike audio there is nothing to splice,
/// since a caption statement is whole in one packet.
///
/// A 4K recording's subtitles are the exception to that presentation time:
/// the packets carry a counter where the clock should be, and the times the
/// words are shown at are inside the document. See [`crate::ttml`].
#[derive(Debug, Clone, PartialEq, Eq)]
pub struct CaptionInfo {
    pub stream_index: usize,
    pub pid: i32,
    pub language: Option<String>,
    pub time_base: Ratio,
    pub kind: TextKind,
    pub format: TextFormat,
    /// The moment the times inside a TTML document are counted from, on the
    /// same clock as everything else here. Zero for ARIB text, whose packets
    /// carry their own times.
    pub base: i64,
}

impl CaptionInfo {
    /// Whether this is the programme's own captions in ARIB's code. The other
    /// two -- a 4K recording's TTML, and a crawl in either -- are carried, and
    /// only the captions themselves are read for where a break is or turned
    /// into the pictures a disc draws.
    pub fn is_arib_caption(&self) -> (r: bool)
        ensures
            r == (self.kind == TextKind::Caption && self.format == TextFormat::Arib),
    {
        self.kind == TextKind::Caption && self.format == TextFormat::Arib
    }
}

/// A graphics stream: the subtitles a disc draws rather than writes.
///
/// Blu-ray's own subtitles are pictures. What arrives is not a statement but
/// a *display set* -- a composition, a window, a palette, a run-length coded
/// image -- spread over several packets that mean nothing apart from one
/// another. See [`crate::pgs`].
#[derive(Debug, Clone, PartialEq, Eq)]
pub struct GraphicsInfo {
    pub stream_index: usize,
    pub pid: i32,
    pub language: Option<String>,
    pub time_base: Ratio,
}

/// A subpicture stream: the subtitles a DVD draws.
///
/// The same kind of thing as [`GraphicsInfo`] and it cannot travel the same
/// way: a transport stream has a number for a Blu-ray's graphics and none at
/// all for a DVD's, so these are written beside the cut instead of inside it.
///
/// Named by the substream id the disc gives it -- 0x20 to 0x3F -- because
/// that is the one name everything agrees on.
#[derive(Debug, Clone, PartialEq, Eq)]
pub struct SubpictureInfo {
    pub id: i32,
    pub language: Option<String>,
}

/// A stream the recording carries that a cut cannot take with it.
///
/// Superimposed crawls and the data broadcast sit on their own PIDs, and
/// neither can be moved onto a new timeline: the demuxer hands over the
/// crawls with no presentation time at all, and the data broadcast is a
/// carousel of sections rather than a stream of timed packets.
///
/// A `"substream"` is the third kind and the odd one: a piece the demuxer
/// split out of a track that *is* being carried.
///
/// Naming them is so the tool can say what it left behind instead of quietly
/// dropping it.
#[derive(Debug, Clone, PartialEq, Eq)]
pub struct DroppedStream {
    pub pid: i32,
    /// Its index among the container's streams, which is how it is named
    /// where the `pid` beside it is not a PID. See [`track_name`].
    pub stream_index: usize,
    /// Which of them it is: `"superimpose"`, `"data"`, `"menu"`,
    /// `"text subtitles"` or `"substream"`. A name rather than a sentence,
    /// because the window says this in the language it is set to and the
    /// command line says it in English.
    pub what: &'static str,
}

/// What a stream that is left behind is called in English.
pub open spec fn left_behind(what: Seq<char>) -> Seq<char> {
    if what == "superimpose"@ {
        "superimposed text"@
    } else if what == "substream"@ {
        "a compatibility stream folded into the track written"@
    } else if what == "menu"@ {
        "a menu"@
    } else if what == "text subtitles"@ {
        "text subtitles, whose typeface is on the disc"@
    } else {
        "data broadcast"@
    }
}

impl DroppedStream {
    /// What to call it in English, which is what the command line prints.
    pub fn describe(&self) -> (r: &'static str)
        ensures
            r@ == left_behind(self.what@),
    {
        if same_text(self.what, "superimpose") {
            "superimposed text"
        } else if same_text(self.what, "substream") {
            "a compatibility stream folded into the track written"
        } else if same_text(self.what, "menu") {
            "a menu"
        } else if same_text(self.what, "text subtitles") {
            "text subtitles, whose typeface is on the disc"
        } else {
            "data broadcast"
        }
    }
}

/// A seam: where a recording that is several stretches of one clip joined
/// together passes from one stretch to the next.
#[derive(Debug, Clone, Copy, PartialEq, Eq, Structural)]
pub struct Seam {
    /// Where the stretch after it begins.
    pub time: i64,
    /// Where the pictures before it end.
    pub ends: i64,
}

/// A number in hexadecimal, with at least so many digits.
pub open spec fn hex_text(n: int, width: int) -> Seq<char>
    decreases n, width,
{
    if n <= 0 && width <= 0 || n < 0 {
        Seq::empty()
    } else if n < 16 && width <= 1 {
        seq![hex_digit(n)]
    } else {
        hex_text(n / 16, width - 1).push(hex_digit(n % 16))
    }
}

fn put_hex(out: &mut Vec<char>, n: u32, width: u32)
    requires
        1 <= width,
    ensures
        final(out)@ == old(out)@ + hex_text(n as int, width as int),
    decreases n, width,
{
    if n >= 16 || width > 1 {
        put_hex(
            out,
            n / 16,
            if width > 1 {
                width - 1
            } else {
                1
            },
        );
        if width == 1 {
            proof {
                lemma_hex_width(n as int / 16);
            }
        }
    }
    let d: u8 = (n % 16) as u8;
    let ghost before = out@;
    out.push(
        if d < 10 {
            (48 + d) as char
        } else {
            (87 + d) as char
        },
    );
    assert(out@ =~= old(out)@ + hex_text(n as int, width as int));
}

/// A number that is not nought needs no digit asked for.
proof fn lemma_hex_width(n: int)
    requires
        n > 0,
    ensures
        hex_text(n, 0) == hex_text(n, 1),
    decreases n,
{
    if n >= 16 {
        lemma_hex_widths(n / 16, -1);
    }
}

/// Nor does it need fewer than none.
proof fn lemma_hex_widths(n: int, width: int)
    requires
        n > 0,
        width <= 0,
    ensures
        hex_text(n, width) == hex_text(n, 0),
    decreases n,
{
    if n >= 16 {
        lemma_hex_widths(n / 16, width - 1);
        lemma_hex_widths(n / 16, -1);
    }
}

/// How one track is named where a person will read it.
pub open spec fn track_text(on_a_ts: bool, pid: i32, stream_index: nat) -> Seq<char> {
    if on_a_ts {
        "pid 0x"@ + hex_text(
            if pid >= 0 {
                pid as int
            } else {
                pid + 0x1_0000_0000
            },
            4,
        )
    } else {
        "stream "@ + decimal(stream_index)
    }
}

/// How to name one track where a person will read it.
///
/// `pid 0x1100` off a transport stream, `stream 1` out of anything else. The
/// number in [`AudioInfo::pid`] is whatever the container calls the track, and
/// only one kind of container calls it a PID.
pub fn track_name(on_a_ts: bool, pid: i32, stream_index: usize) -> (r: String)
    ensures
        r@ == track_text(on_a_ts, pid, stream_index as nat),
{
    if on_a_ts {
        let mut out: Vec<char> = chars_of("pid 0x");
        let bits: u32 = if pid >= 0 {
            pid as u32
        } else {
            (pid as i64 + 0x1_0000_0000) as u32
        };
        put_hex(&mut out, bits, 4);
        string_of(out.as_slice())
    } else {
        let mut out: Vec<char> = chars_of("stream ");
        put_decimal(&mut out, stream_index as u64);
        string_of(out.as_slice())
    }
}

/// What libav says about itself: the versions of the libraries actually
/// loaded, not the ones this was compiled against.
#[derive(Debug, Clone, PartialEq, Eq)]
pub struct Libav {
    /// `major.minor.micro` of libavformat, the demuxer and muxer.
    pub avformat: String,
    /// ...of libavcodec, the decoders and the one encoder.
    pub avcodec: String,
    /// ...of libavutil, which the other two are versioned alongside.
    pub avutil: String,
    /// What the build was licensed under.
    pub license: String,
}

/// A version out of the one word libav packs it into, a byte per part.
pub open spec fn version_text(v: u32) -> Seq<char> {
    decimal((v / 0x1_0000) as nat) + seq!['.'] + decimal((v / 0x100 % 0x100) as nat) + seq!['.']
        + decimal((v % 0x100) as nat)
}

fn triple(v: u32) -> (r: String)
    ensures
        r@ == version_text(v),
{
    let mut out: Vec<char> = Vec::new();
    put_decimal(&mut out, (v / 0x1_0000) as u64);
    out.push('.');
    put_decimal(&mut out, (v / 0x100 % 0x100) as u64);
    out.push('.');
    put_decimal(&mut out, (v % 0x100) as u64);
    assert(out@ =~= version_text(v));
    string_of(out.as_slice())
}

/// What the loaded libraries' version words and licence say.
pub fn libav(avformat: u32, avcodec: u32, avutil: u32, license: &str) -> (r: Libav)
    ensures
        r.avformat@ == version_text(avformat),
        r.avcodec@ == version_text(avcodec),
        r.avutil@ == version_text(avutil),
        r.license@ == license@,
{
    Libav {
        avformat: triple(avformat),
        avcodec: triple(avcodec),
        avutil: triple(avutil),
        license: license.to_owned(),
    }
}

/// The whole of a pass, in the parts its progress is told in.
pub const WHOLE_PASS: i64 = 1_000_000;

/// How much of a pass has to have gone by before it is worth saying so: a
/// five-hundredth of the whole. The bar has a hundred steps, so it moves
/// smoothly, and the count is bounded whatever the pass is over.
pub const TOLD_STEP: i64 = 2_000;

/// How often a pass says where it has got to.
///
/// A pass over a recording knows after every piece it reads how far along it
/// is. Saying so every time is a message a window has to carry, decode and
/// draw for a bar that has not moved; saying so too rarely is a bar that
/// stands still and then jumps. So neither is left to what the pass happens to
/// be reading.
#[derive(Debug, Clone, Copy, PartialEq, Eq, Structural)]
pub struct Told {
    /// What was said last, in parts of [`WHOLE_PASS`]; `None` before anything
    /// was.
    pub said: Option<i64>,
}

impl Default for Told {
    fn default() -> (r: Told)
        ensures
            r.said is None,
    {
        Told { said: None }
    }
}

/// Whether a pass has moved far enough since it last said where it was.
pub open spec fn worth_saying(said: Option<i64>, done: i64) -> bool {
    match said {
        Some(last) => done - last >= TOLD_STEP,
        None => true,
    }
}

impl Told {
    /// Nothing said yet, so that the first thing offered is said.
    pub fn new() -> (r: Told)
        ensures
            r.said is None,
    {
        Told { said: None }
    }

    /// Offer `done`, in parts of [`WHOLE_PASS`]. What comes back is what to
    /// say: nothing unless the pass has moved far enough since the last one.
    pub fn at(&mut self, done: i64) -> (r: Option<i64>)
        ensures
            worth_saying(old(self).said, done) ==> final(self).said == Some(done) && r == Some(
                (if done < 0 {
                    0
                } else if done > WHOLE_PASS {
                    WHOLE_PASS as int
                } else {
                    done as int
                }) as i64,
            ),
            !worth_saying(old(self).said, done) ==> final(self).said == old(self).said && r is None,
    {
        if let Some(last) = self.said {
            if (done as i128) - (last as i128) < TOLD_STEP as i128 {
                return None;
            }
        }
        self.said = Some(done);
        Some(
            if done < 0 {
                0
            } else if done > WHOLE_PASS {
                WHOLE_PASS
            } else {
                done
            },
        )
    }
}

/// What [`EntryPictures::step`] says to do with a packet.
#[derive(Debug, Clone, Copy, PartialEq, Eq, Structural)]
pub enum Step {
    /// No part of an entry picture. Skip it unparsed.
    Skip,
    /// Send it and read nothing back yet: this is one field of a pair.
    Half,
    /// Send it. The entry picture is complete and the decoder can be drained.
    Whole,
}

/// What a pass that decodes only entry pictures has to hand its decoder.
///
/// **A field-coded entry picture is two packets and only the first is
/// marked.** Fed the first half on its own, a decoder holds it back waiting
/// for the other and hands nothing over -- not late, never. So the half is
/// sent, nothing is read back, and the packet that follows it -- always its
/// other half -- goes in behind it. Then the picture is whole and the decoder
/// can be drained.
#[derive(Debug, Clone, Copy, PartialEq, Eq, Structural)]
pub struct EntryPictures {
    /// A half has gone in and the next packet completes it.
    pub partner: bool,
}

impl EntryPictures {
    pub fn new() -> (r: EntryPictures)
        ensures
            !r.partner,
    {
        EntryPictures { partner: false }
    }

    /// What to do with the next packet of the video stream, given whether it
    /// is marked as a key and whether it holds one field of a pair.
    ///
    /// The other half of a pair is taken whether or not it is marked: a
    /// recording that marks both fields of its entry pictures is still
    /// describing one picture.
    pub fn step(&mut self, key: bool, field: bool) -> (r: Step)
        ensures
            r == (if old(self).partner {
                Step::Whole
            } else if !key {
                Step::Skip
            } else if field {
                Step::Half
            } else {
                Step::Whole
            }),
            final(self).partner == (r == Step::Half),
    {
        if self.partner {
            self.partner = false;
            return Step::Whole;
        }
        if !key {
            return Step::Skip;
        }
        self.partner = field;
        if field {
            Step::Half
        } else {
            Step::Whole
        }
    }

    /// Forget a half the caller could not send, so that the packet behind it
    /// is not taken for a partner of nothing.
    pub fn broke(&mut self)
        ensures
            !final(self).partner,
    {
        self.partner = false;
    }
}

} // verus!
