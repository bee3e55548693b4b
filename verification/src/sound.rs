//! The sound of a cut, written on its own.
//!
//! What this decides is what goes into the audio file the cut would have had,
//! with the ranges, the joins and the fades already in it and no pictures
//! anywhere. Somebody keeping a radio programme, or a drama they listen to
//! rather than watch, wants the sound and not a video file to extract it from
//! later.
//!
//! What is not carried is more than one track. A bilingual recording has two,
//! and an audio file with two tracks in it is a thing only some containers
//! hold; the first kept track is written and the run says so.
pub mod lay;
pub mod orders;
pub mod taken;

use crate::chars::{chars_of, contains_text, holds_text, put_text, same_text, string_of};
use crate::decimal::{decimal, put_decimal};
use crate::recording::index::Source;
use crate::recording::AudioInfo;
use crate::time::{earlier, in_reach, later, min_time, round_div, rounded, SECOND};
use crate::transition::{taken, Transition};
use vstd::prelude::*;

verus! {

/// A join between two pieces: how the pictures cross, and how long the sound
/// takes to leave and to come back.
pub struct Join {
    pub crossing: Transition,
    pub fade_out: i64,
    pub fade_in: i64,
}

/// One recording of an audio-only run, and what is kept of it.
///
/// The ranges are the kept stretches in the recording's own time, in the order
/// they are written, and `after` is the join that follows this piece -- which
/// is read for its two fade lengths and for how much of the next piece's head
/// an overlapping crossing takes.
pub struct Piece<'a> {
    pub src: &'a Source,
    pub ranges: &'a [(i64, i64)],
    pub after: Join,
}

/// What of a cut's settings the sound goes by.
pub struct SoundOptions {
    /// The streams that are left out, by the master's numbers.
    pub drop_streams: Vec<usize>,
    /// How long the sound takes to leave and to come back at a seam.
    pub audio_fade: i64,
}

/// Why nothing is written.
#[derive(Debug)]
pub enum SoundError {
    NothingToWrite,
    NothingKept,
    /// The recording of this name has no sound.
    NoSound(String),
    /// The file of this name cannot hold sound of this codec.
    CannotHold(String, String),
}

impl SoundError {
    /// What is said about it.
    pub open spec fn text(&self) -> Seq<char> {
        match self {
            SoundError::NothingToWrite => "nothing to write"@,
            SoundError::NothingKept => "nothing is kept, so there is no sound to write"@,
            SoundError::NoSound(path) => path@ + " has no sound to write"@,
            SoundError::CannotHold(output, codec) => output@ + " cannot hold "@ + codec@
                + " sound. Name the file for that codec (.mp2, .ac3, .aac and so on), or ask for another with --audio-codec"@,
        }
    }

    /// What is said about it.
    pub fn message(&self) -> (r: String)
        ensures
            r@ == self.text(),
    {
        let mut out: Vec<char> = Vec::new();
        match self {
            SoundError::NothingToWrite => {
                put_text(&mut out, "nothing to write");
            },
            SoundError::NothingKept => {
                put_text(&mut out, "nothing is kept, so there is no sound to write");
            },
            SoundError::NoSound(path) => {
                put_text(&mut out, path.as_str());
                put_text(&mut out, " has no sound to write");
            },
            SoundError::CannotHold(output, codec) => {
                put_text(&mut out, output.as_str());
                put_text(&mut out, " cannot hold ");
                put_text(&mut out, codec.as_str());
                put_text(
                    &mut out,
                    " sound. Name the file for that codec (.mp2, .ac3, .aac and so on), or ask for another with --audio-codec",
                );
            },
        }
        assert(out@ =~= self.text());
        string_of(out.as_slice())
    }
}

/// Which of the tracks from the `i`th on is the first that is not left out.
pub open spec fn first_kept(audios: Seq<AudioInfo>, dropped: Seq<usize>, i: int) -> Option<int>
    decreases audios.len() - i,
{
    if i < 0 || i >= audios.len() {
        None
    } else if !dropped.contains(audios[i].stream_index) {
        Some(i)
    } else {
        first_kept(audios, dropped, i + 1)
    }
}

/// How many of the first `n` tracks are not left out.
pub open spec fn kept_tracks(audios: Seq<AudioInfo>, dropped: Seq<usize>, n: int) -> int
    decreases n,
{
    if n <= 0 {
        0
    } else {
        kept_tracks(audios, dropped, n - 1) + (if dropped.contains(audios[n - 1].stream_index) {
            0int
        } else {
            1
        })
    }
}

proof fn lemma_first_kept(audios: Seq<AudioInfo>, dropped: Seq<usize>, i: int)
    requires
        0 <= i,
    ensures
        first_kept(audios, dropped, i) matches Some(k) ==> i <= k < audios.len(),
    decreases audios.len() - i,
{
    if i < audios.len() {
        lemma_first_kept(audios, dropped, i + 1);
    }
}

fn is_dropped(dropped: &[usize], stream: usize) -> (r: bool)
    ensures
        r == dropped@.contains(stream),
{
    let mut i: usize = 0;
    while i < dropped.len()
        invariant
            i <= dropped@.len(),
            forall|k: int| 0 <= k < i ==> dropped@[k] != stream,
        decreases dropped@.len() - i,
    {
        if dropped[i] == stream {
            return true;
        }
        i += 1;
    }
    false
}

/// The place of the track the master supplies, which is its first that the
/// caller has not dropped.
pub fn track_place(src: &Source, opts: &SoundOptions) -> (r: Option<usize>)
    ensures
        match r {
            Some(k) => first_kept(src.audios@, opts.drop_streams@, 0) == Some(k as int) && k
                < src.audios@.len(),
            None => first_kept(src.audios@, opts.drop_streams@, 0) is None,
        },
{
    let mut i: usize = 0;
    while i < src.audios.len()
        invariant
            i <= src.audios@.len(),
            first_kept(src.audios@, opts.drop_streams@, 0) == first_kept(
                src.audios@,
                opts.drop_streams@,
                i as int,
            ),
        decreases src.audios@.len() - i,
    {
        if !is_dropped(opts.drop_streams.as_slice(), src.audios[i].stream_index) {
            return Some(i);
        }
        i += 1;
    }
    None
}

/// The track the master supplies.
pub fn track_of<'a>(src: &'a Source, opts: &SoundOptions) -> (r: Result<&'a AudioInfo, SoundError>)
    ensures
        match first_kept(src.audios@, opts.drop_streams@, 0) {
            Some(k) => r is Ok && *r->Ok_0 == src.audios@[k],
            None => r is Err && r->Err_0 is NoSound && (r->Err_0->NoSound_0)@ == src.path@,
        },
{
    match track_place(src, opts) {
        Some(k) => Ok(&src.audios[k]),
        None => Err(SoundError::NoSound(src.path.clone())),
    }
}

/// The place of the track a piece supplies, among its own: the master's
/// track's place among the master's. `None` where the master has none to
/// give, or the piece has none in that place.
pub open spec fn place_for(pieces: Seq<Piece>, master: int, n: int, opts: SoundOptions) -> Option<
    int,
> {
    match first_kept(pieces[master].src.audios@, opts.drop_streams@, 0) {
        None => None,
        Some(k) => if k < pieces[n].src.audios@.len() {
            Some(k)
        } else {
            None
        },
    }
}

/// The track a piece supplies: the one in the master's track's place among
/// its sound tracks.
///
/// Not the piece's own first undropped one. The streams dropped are the
/// master's numbers, and in another recording the same numbers can be a data
/// stream and the wrong language.
pub fn track_for<'a>(
    pieces: &[Piece<'a>],
    master: usize,
    n: usize,
    opts: &SoundOptions,
) -> (r: Result<&'a AudioInfo, SoundError>)
    requires
        master < pieces@.len(),
        n < pieces@.len(),
    ensures
        match place_for(pieces@, master as int, n as int, *opts) {
            Some(k) => r is Ok && *r->Ok_0 == pieces@[n as int].src.audios@[k],
            None => r is Err && r->Err_0 is NoSound && (r->Err_0->NoSound_0)@ == (if first_kept(
                pieces@[master as int].src.audios@,
                opts.drop_streams@,
                0,
            ) is None {
                pieces@[master as int].src.path@
            } else {
                pieces@[n as int].src.path@
            }),
        },
{
    let shape: &'a Source = pieces[master].src;
    match track_place(shape, opts) {
        None => Err(SoundError::NoSound(shape.path.clone())),
        Some(k) => {
            let src: &'a Source = pieces[n].src;
            if k < src.audios.len() {
                Ok(&src.audios[k])
            } else {
                Err(SoundError::NoSound(src.path.clone()))
            }
        },
    }
}

/// How long the sound takes to come in and to leave at the two ends of one
/// range: a seam inside one recording takes the run's own answer, a join
/// between two takes that join's two.
pub open spec fn fade_of(pieces: Seq<Piece>, n: int, k: int, opts: SoundOptions) -> (i64, i64) {
    (
        if k == 0 && n > 0 {
            pieces[n - 1].after.fade_in
        } else {
            opts.audio_fade
        },
        if k + 1 == pieces[n].ranges@.len() && n + 1 < pieces.len() {
            pieces[n].after.fade_out
        } else {
            opts.audio_fade
        },
    )
}

/// Those of the first `n` pieces, in the order they are written.
pub open spec fn fades_to(pieces: Seq<Piece>, opts: SoundOptions, n: int) -> Seq<(i64, i64)>
    decreases n,
{
    if n <= 0 {
        Seq::empty()
    } else {
        fades_to(pieces, opts, n - 1) + Seq::new(
            pieces[n - 1].ranges@.len(),
            |k: int| fade_of(pieces, n - 1, k, opts),
        )
    }
}

/// How long the sound takes to leave and to come back at each range's two
/// ends: one pair per range, in the order they are written.
pub fn fade_lengths(pieces: &[Piece], opts: &SoundOptions) -> (out: Vec<(i64, i64)>)
    ensures
        out@ == fades_to(pieces@, *opts, pieces@.len() as int),
{
    let len: usize = pieces.len();
    let mut out: Vec<(i64, i64)> = Vec::new();
    let mut n: usize = 0;
    while n < len
        invariant
            n <= len,
            len == pieces@.len(),
            out@ == fades_to(pieces@, *opts, n as int),
        decreases len - n,
    {
        let ghost before = out@;
        let ghost mine = Seq::new(
            pieces@[n as int].ranges@.len(),
            |k: int| fade_of(pieces@, n as int, k, *opts),
        );
        let many: usize = pieces[n].ranges.len();
        let mut k: usize = 0;
        while k < many
            invariant
                k <= many,
                n < len,
                len == pieces@.len(),
                many == pieces@[n as int].ranges@.len(),
                mine == Seq::new(
                    pieces@[n as int].ranges@.len(),
                    |k: int| fade_of(pieces@, n as int, k, *opts),
                ),
                out@ =~= before + mine.take(k as int),
            decreases many - k,
        {
            let head: i64 = if k == 0 && n > 0 {
                pieces[n - 1].after.fade_in
            } else {
                opts.audio_fade
            };
            let tail: i64 = if k + 1 == many && n + 1 < len {
                pieces[n].after.fade_out
            } else {
                opts.audio_fade
            };
            out.push((head, tail));
            k += 1;
        }
        assert(mine.take(many as int) =~= mine);
        n += 1;
    }
    out
}

/// Half of a range: as much of it as a crossing may take.
pub open spec fn half_of(range: (i64, i64)) -> int {
    later((range.1 - range.0) / 2, 0)
}

/// How much of one piece's head the crossing in front of it takes: what it is
/// long, and at most half of the range on either side.
pub open spec fn head_taken(pieces: Seq<Piece>, n: int) -> int {
    if n <= 0 || pieces[n - 1].after.crossing.kind is Hard
        || pieces[n - 1].after.crossing.kind is Fade || pieces[n - 1].ranges@.len() == 0
        || pieces[n].ranges@.len() == 0 {
        0
    } else {
        let t = pieces[n - 1].after.crossing;
        earlier(
            earlier(taken(t.kind, t.seconds as int), half_of(pieces[n - 1].ranges@.last())),
            half_of(pieces[n].ranges@[0]),
        )
    }
}

/// The ranges of one piece as the sound of a joined cut plays them.
pub open spec fn ranges_kept(pieces: Seq<Piece>, n: int) -> Seq<(i64, i64)> {
    let ranges = pieces[n].ranges@;
    let take = head_taken(pieces, n);
    if take > 0 {
        ranges.update(0, ((ranges[0].0 + take) as i64, ranges[0].1))
    } else {
        ranges
    }
}

/// Whether the ranges are ones a recording can have.
pub open spec fn ranges_in_reach(pieces: Seq<Piece>) -> bool {
    forall|n: int, k: int|
        0 <= n < pieces.len() && 0 <= k < pieces[n].ranges@.len() ==> in_reach(
            (#[trigger] pieces[n].ranges@[k]).0 as int,
        ) && in_reach(pieces[n].ranges@[k].1 as int)
}

fn room(range: (i64, i64)) -> (r: i64)
    requires
        in_reach(range.0 as int),
        in_reach(range.1 as int),
    ensures
        r == half_of(range),
{
    let d: i64 = range.1 - range.0;
    if d >= 0 {
        d / 2
    } else {
        0
    }
}

fn copied_ranges(ranges: &[(i64, i64)]) -> (out: Vec<(i64, i64)>)
    ensures
        out@ == ranges@,
{
    let mut out: Vec<(i64, i64)> = Vec::new();
    let mut i: usize = 0;
    while i < ranges.len()
        invariant
            i <= ranges@.len(),
            out@ =~= ranges@.take(i as int),
        decreases ranges@.len() - i,
    {
        out.push(ranges[i]);
        i += 1;
    }
    assert(out@ =~= ranges@);
    out
}

/// The ranges as the sound of a joined cut plays them.
///
/// An overlapping crossing -- a dissolve, a wipe, a slide -- shows the first
/// seconds of the clip after it while the clip before is still sounding, so
/// the clip after starts that much later, sound and all, and the output is
/// that much shorter. Each end gives at most half its range, and the pair is
/// held to the smaller. A fade takes nothing from either side, and nothing
/// follows the last piece.
pub fn overlapped(pieces: &[Piece]) -> (out: Vec<Vec<(i64, i64)>>)
    requires
        ranges_in_reach(pieces@),
    ensures
        out@.len() == pieces@.len(),
        forall|n: int| 0 <= n < out@.len() ==> (#[trigger] out@[n])@ == ranges_kept(pieces@, n),
{
    let len: usize = pieces.len();
    let mut out: Vec<Vec<(i64, i64)>> = Vec::new();
    let mut n: usize = 0;
    while n < len
        invariant
            n <= len,
            len == pieces@.len(),
            ranges_in_reach(pieces@),
            out@.len() == n,
            forall|j: int| 0 <= j < n ==> (#[trigger] out@[j])@ == ranges_kept(pieces@, j),
        decreases len - n,
    {
        let mut ranges: Vec<(i64, i64)> = copied_ranges(pieces[n].ranges);
        if n > 0 && pieces[n - 1].after.crossing.kind.overlaps() && pieces[n - 1].ranges.len() > 0
            && ranges.len() > 0 {
            let before: &[(i64, i64)] = pieces[n - 1].ranges;
            let (last, first): ((i64, i64), (i64, i64)) = (before[before.len() - 1], ranges[0]);
            assert(pieces@[n - 1].ranges@[before@.len() - 1] == last);
            assert(pieces@[n as int].ranges@[0] == first);
            let take: i64 = min_time(
                min_time(pieces[n - 1].after.crossing.takes().1, room(last)),
                room(first),
            );
            assert(take == head_taken(pieces@, n as int));
            if take > 0 {
                ranges.set(0, (first.0 + take, first.1));
            }
        }
        assert(ranges@ =~= ranges_kept(pieces@, n as int));
        out.push(ranges);
        n += 1;
    }
    out
}

/// A crossing takes no more than half of the range it opens: what is left of
/// the range starts no later than its middle, so it is not emptied, and every
/// other range is kept whole.
pub proof fn law_a_crossing_leaves_half_a_range(pieces: Seq<Piece>, n: int, k: int)
    requires
        ranges_in_reach(pieces),
        0 <= n < pieces.len(),
        0 <= k < pieces[n].ranges@.len(),
        pieces[n].ranges@[k].0 <= pieces[n].ranges@[k].1,
    ensures
        ranges_kept(pieces, n).len() == pieces[n].ranges@.len(),
        ranges_kept(pieces, n)[k].1 == pieces[n].ranges@[k].1,
        pieces[n].ranges@[k].0 <= ranges_kept(pieces, n)[k].0,
        2 * ranges_kept(pieces, n)[k].0 <= pieces[n].ranges@[k].0 + pieces[n].ranges@[k].1,
        k > 0 ==> ranges_kept(pieces, n)[k] == pieces[n].ranges@[k],
{
    let first = pieces[n].ranges@[0];
    assert(in_reach(first.0 as int) && in_reach(first.1 as int));
    assert(in_reach(pieces[n].ranges@[k].0 as int));
}

/// A range on the recording's own sample clock.
pub open spec fn window_of(range: (i64, i64), rate: u32) -> (int, int) {
    (rounded(range.0 * rate, SECOND as int), rounded(range.1 * rate, SECOND as int))
}

/// A time on a sample clock.
fn samples(t: i64, rate: u32) -> (r: i64)
    requires
        in_reach(t as int),
    ensures
        r == rounded(t * rate, SECOND as int),
{
    proof {
        assert(-0x400_0000_0000_0000 * 0xFFFF_FFFF <= t * rate <= 0x400_0000_0000_0000 * 0xFFFF_FFFF)
            by (nonlinear_arith)
            requires
                -0x400_0000_0000_0000 <= t <= 0x400_0000_0000_0000,
                0 <= rate <= 0xFFFF_FFFF,
        ;
        crate::sound::lay::lemma_stamp_fits(t * rate, SECOND as int);
    }
    round_div((t as i128) * (rate as i128), SECOND as i128) as i64
}

/// A range on the recording's own sample clock.
pub fn window(range: (i64, i64), rate: u32) -> (r: (i64, i64))
    requires
        in_reach(range.0 as int),
        in_reach(range.1 as int),
    ensures
        (r.0 as int, r.1 as int) == window_of(range, rate),
{
    (samples(range.0, rate), samples(range.1, rate))
}

/// What a track becomes.
#[derive(Debug, Clone, Copy, PartialEq, Eq, Structural)]
pub enum AudioMode {
    /// Its frames are copied.
    Copy,
    /// Its frames are copied but for the ones a boundary falls inside.
    Smart,
    /// It is made again as a whole.
    Reencode,
}

/// How uncompressed sound writes a sample.
#[derive(Debug, Clone, Copy, PartialEq, Eq, Structural)]
pub enum Pcm {
    S16Le,
    S16Be,
    S24Le,
    S24Be,
    S32Le,
    S32Be,
    F32Le,
    F32Be,
    F64Le,
    F64Be,
    /// Some other way, by its number.
    Another(u32),
}

/// What a track is written as.
#[derive(Debug, Clone, Copy, PartialEq, Eq, Structural)]
pub enum SoundCodec {
    Uncompressed(Pcm),
    /// A codec, by its number.
    Coded(u32),
}

/// What a track becomes, as far as the file it goes into has a say in it.
#[derive(Debug, Clone, Copy, PartialEq, Eq, Structural)]
pub struct Shape {
    pub mode: AudioMode,
    /// Whether what is encoded is framed, so it can sit among copied frames.
    pub framed: bool,
    pub target: SoundCodec,
}

/// Made again as a whole, where it was not going to be. A whole re-encode has
/// no copied frames to sit among, and into a file that is not a transport
/// stream it is written raw.
pub open spec fn recoded(shape: Shape) -> Shape {
    if shape.mode is Reencode {
        shape
    } else {
        Shape { mode: AudioMode::Reencode, framed: false, ..shape }
    }
}

fn made_again(shape: Shape) -> (r: Shape)
    ensures
        r == recoded(shape),
{
    if shape.mode == AudioMode::Reencode {
        shape
    } else {
        Shape { mode: AudioMode::Reencode, framed: false, target: shape.target }
    }
}

/// The way of writing samples a container takes, given the one it names by
/// itself and the track's: the muxer names its sixteen-bit default; a track
/// that is wider keeps its width and changes only its byte order.
pub open spec fn order_for(guess: Pcm, target: Pcm) -> Pcm {
    match (guess, target) {
        (Pcm::S16Le, Pcm::S24Be) => Pcm::S24Le,
        (Pcm::S16Le, Pcm::S24Le) => Pcm::S24Le,
        (Pcm::S16Le, Pcm::S32Be) => Pcm::S32Le,
        (Pcm::S16Le, Pcm::S32Le) => Pcm::S32Le,
        (Pcm::S16Be, Pcm::S24Be) => Pcm::S24Be,
        (Pcm::S16Be, Pcm::S24Le) => Pcm::S24Be,
        (Pcm::S16Be, Pcm::S32Be) => Pcm::S32Be,
        (Pcm::S16Be, Pcm::S32Le) => Pcm::S32Be,
        (Pcm::F32Le, Pcm::F32Be) => Pcm::F32Le,
        (Pcm::F32Le, Pcm::F32Le) => Pcm::F32Le,
        (Pcm::S16Le, Pcm::F32Be) => Pcm::F32Le,
        (Pcm::S16Le, Pcm::F32Le) => Pcm::F32Le,
        (Pcm::F64Le, Pcm::F64Be) => Pcm::F64Le,
        (Pcm::F64Le, Pcm::F64Le) => Pcm::F64Le,
        (Pcm::S16Le, Pcm::F64Be) => Pcm::F64Le,
        (Pcm::S16Le, Pcm::F64Le) => Pcm::F64Le,
        _ => guess,
    }
}

/// The way of writing samples a container takes.
pub fn pcm_order(guess: Pcm, target: Pcm) -> (r: Pcm)
    ensures
        r == order_for(guess, target),
{
    match (guess, target) {
        (Pcm::S16Le, Pcm::S24Be) | (Pcm::S16Le, Pcm::S24Le) => Pcm::S24Le,
        (Pcm::S16Le, Pcm::S32Be) | (Pcm::S16Le, Pcm::S32Le) => Pcm::S32Le,
        // And the containers whose default is big-endian (.aiff, .au, .caf):
        // named sixteen bits, they would take a 24-bit track down to 16.
        (Pcm::S16Be, Pcm::S24Be) | (Pcm::S16Be, Pcm::S24Le) => Pcm::S24Be,
        (Pcm::S16Be, Pcm::S32Be) | (Pcm::S16Be, Pcm::S32Le) => Pcm::S32Be,
        (Pcm::F32Le, Pcm::F32Be) | (Pcm::F32Le, Pcm::F32Le) => Pcm::F32Le,
        (Pcm::S16Le, Pcm::F32Be) | (Pcm::S16Le, Pcm::F32Le) => Pcm::F32Le,
        (Pcm::F64Le, Pcm::F64Be) | (Pcm::F64Le, Pcm::F64Le) => Pcm::F64Le,
        (Pcm::S16Le, Pcm::F64Be) | (Pcm::S16Le, Pcm::F64Le) => Pcm::F64Le,
        _ => guess,
    }
}

/// The shape once the container has named the sound it takes by itself.
pub open spec fn ordered(shape: Shape, guess: SoundCodec) -> Shape {
    match (shape.target, guess) {
        (SoundCodec::Uncompressed(target), SoundCodec::Uncompressed(own)) => {
            let wanted = order_for(own, target);
            if own == target || wanted == target {
                shape
            } else {
                recoded(Shape { target: SoundCodec::Uncompressed(wanted), ..shape })
            }
        },
        _ => shape,
    }
}

/// Which way round this container writes samples.
///
/// A `.wav` wants them the other way round from an MP4 and says so only after
/// the file has been created, which is the worst moment to find out. Only PCM
/// is second-guessed here: every other codec is a codec. A different byte
/// order is a different codec, and copied frames are still in the old one:
/// they have to go through the encoder, which for PCM is a rearrangement and
/// loses nothing.
pub fn settle_order(shape: Shape, guess: SoundCodec) -> (r: Shape)
    ensures
        r == ordered(shape, guess),
{
    match (shape.target, guess) {
        (SoundCodec::Uncompressed(target), SoundCodec::Uncompressed(own)) => {
            let wanted: Pcm = pcm_order(own, target);
            if own == target || wanted == target {
                shape
            } else {
                made_again(
                    Shape {
                        mode: shape.mode,
                        framed: shape.framed,
                        target: SoundCodec::Uncompressed(wanted),
                    },
                )
            }
        },
        _ => shape,
    }
}

/// Whether one piece's sound is written another way than the master's: with
/// another codec, rate or count of channels, or framed differently.
pub open spec fn differs(
    pieces: Seq<Piece>,
    master: int,
    n: int,
    opts: SoundOptions,
    framings: Seq<Option<u32>>,
) -> bool {
    match place_for(pieces, master, n, opts) {
        None => false,
        Some(k) => {
            let (a, b) = (pieces[n].src.audios@[k], pieces[master].src.audios@[k]);
            n != master && (a.codec@ != b.codec@ || a.sample_rate != b.sample_rate || a.channels
                != b.channels || (b.codec@ == "aac"@ && framings[n] != framings[master]))
        },
    }
}

/// Whether any piece's sound is written another way than the master's. Such
/// sound cannot be copied into a stream declared as the master's.
///
/// Framed differently counts as well: a broadcast's ADTS frames and an MP4's
/// raw ones are the same AAC, and one stream cannot hold both. `framings` says
/// how each piece's are.
pub fn unlike(
    pieces: &[Piece],
    master: usize,
    opts: &SoundOptions,
    framings: &[Option<u32>],
) -> (r: bool)
    requires
        master < pieces@.len(),
        framings@.len() == pieces@.len(),
    ensures
        r == exists|n: int|
            0 <= n < pieces@.len() && #[trigger] differs(
                pieces@,
                master as int,
                n,
                *opts,
                framings@,
            ),
{
    let ghost gm = master as int;
    let mut n: usize = 0;
    while n < pieces.len()
        invariant
            n <= pieces@.len(),
            gm == master,
            master < pieces@.len(),
            framings@.len() == pieces@.len(),
            forall|j: int|
                0 <= j < n ==> !#[trigger] differs(pieces@, gm, j, *opts, framings@),
        decreases pieces@.len() - n,
    {
        proof {
            lemma_first_kept(pieces@[gm].src.audios@, opts.drop_streams@, 0);
        }
        if n != master {
            match (track_for(pieces, master, n, opts), track_for(pieces, master, master, opts)) {
                (Ok(a), Ok(b)) => {
                    let framed: bool = same_text(b.codec.as_str(), "aac") && !same_framing(
                        framings[n],
                        framings[master],
                    );
                    if !same_text(a.codec.as_str(), b.codec.as_str()) || a.sample_rate
                        != b.sample_rate || a.channels != b.channels || framed {
                        assert(differs(pieces@, gm, n as int, *opts, framings@));
                        return true;
                    }
                },
                _ => {},
            }
        }
        assert(!differs(pieces@, gm, n as int, *opts, framings@));
        n += 1;
    }
    false
}

fn same_framing(a: Option<u32>, b: Option<u32>) -> (r: bool)
    ensures
        r == (a == b),
{
    match (a, b) {
        (None, None) => true,
        (Some(x), Some(y)) => x == y,
        _ => false,
    }
}

/// The shape once it is known whether a piece's sound is written another way.
/// With one track and no pictures, re-encoding the whole of it comes to the
/// same file as re-encoding just that piece.
pub fn settle_unlike(shape: Shape, unlike: bool) -> (r: Shape)
    ensures
        r == (if unlike {
            recoded(shape)
        } else {
            shape
        }),
{
    if unlike {
        made_again(shape)
    } else {
        shape
    }
}

/// What the muxer is told, by name.
///
/// An ADTS header says which AAC it is framing, and a broadcast's is MPEG-2;
/// libavformat writes MPEG-4 unless it is told. A RIFF header counts its sizes
/// in 32 bits, and uncompressed sound runs past four gigabytes inside a film:
/// `auto` reserves room for the RF64 sizes and uses it only where they are
/// needed.
pub fn muxer_options(name: &str, mpeg2: bool) -> (r: (bool, bool))
    ensures
        r.0 == (holds_text(name@, "adts"@) && mpeg2),
        r.1 == (name@ == "wav"@),
{
    let chars: Vec<char> = chars_of(name);
    let adts: Vec<char> = chars_of("adts");
    (contains_text(chars.as_slice(), adts.as_slice()) && mpeg2, same_text(name, "wav"))
}

/// How many ranges the first `n` pieces have.
pub open spec fn ranges_to(pieces: Seq<Piece>, n: int) -> int
    decreases n,
{
    if n <= 0 {
        0
    } else {
        ranges_to(pieces, n - 1) + pieces[n - 1].ranges@.len()
    }
}

/// Which piece the file takes its shape from; out of range is the last.
pub open spec fn shape_from(len: int, master: int) -> int {
    if master < len {
        master
    } else {
        len - 1
    }
}

/// What a run is about: which piece the file takes its shape from, how many
/// ranges there are in all, and the place of the track that is written.
#[derive(Debug, Clone, Copy, PartialEq, Eq, Structural)]
pub struct Run {
    pub master: usize,
    pub ranges_in_all: usize,
    pub place: usize,
    /// How many tracks there are to choose from.
    pub tracks: usize,
}

/// Settle what a run is about.
pub fn settle_run(pieces: &[Piece], master: usize, opts: &SoundOptions) -> (r: Result<
    Run,
    SoundError,
>)
    requires
        ranges_to(pieces@, pieces@.len() as int) <= usize::MAX,
    ensures
        ({
            let len = pieces@.len() as int;
            let m = shape_from(len, master as int);
            let all = ranges_to(pieces@, len);
            match r {
                Err(SoundError::NothingToWrite) => len == 0,
                Err(SoundError::NothingKept) => len > 0 && all == 0,
                Err(SoundError::NoSound(path)) => len > 0 && all > 0 && first_kept(
                    pieces@[m].src.audios@,
                    opts.drop_streams@,
                    0,
                ) is None && path@ == pieces@[m].src.path@,
                Err(SoundError::CannotHold(_, _)) => false,
                Ok(run) => len > 0 && all > 0 && run.master == m && run.ranges_in_all == all
                    && first_kept(pieces@[m].src.audios@, opts.drop_streams@, 0) == Some(
                    run.place as int,
                ) && run.tracks == kept_tracks(
                    pieces@[m].src.audios@,
                    opts.drop_streams@,
                    pieces@[m].src.audios@.len() as int,
                ),
            }
        }),
{
    let len: usize = pieces.len();
    if len == 0 {
        return Err(SoundError::NothingToWrite);
    }
    let at: usize = if master < len {
        master
    } else {
        len - 1
    };
    let all: usize = count_ranges(pieces, len);
    if all == 0 {
        return Err(SoundError::NothingKept);
    }
    let src: &Source = pieces[at].src;
    match track_place(src, opts) {
        None => Err(SoundError::NoSound(src.path.clone())),
        Some(place) => Ok(
            Run { master: at, ranges_in_all: all, place, tracks: count_kept(src, opts) },
        ),
    }
}

proof fn lemma_ranges_grow(pieces: Seq<Piece>, a: int, b: int)
    requires
        0 <= a <= b,
    ensures
        0 <= ranges_to(pieces, a) <= ranges_to(pieces, b),
    decreases b,
{
    if a < b {
        lemma_ranges_grow(pieces, a, b - 1);
    } else if a > 0 {
        lemma_ranges_grow(pieces, a - 1, a - 1);
    }
}

fn count_ranges(pieces: &[Piece], n: usize) -> (r: usize)
    requires
        n <= pieces@.len(),
        ranges_to(pieces@, n as int) <= usize::MAX,
    ensures
        r == ranges_to(pieces@, n as int),
{
    let mut r: usize = 0;
    let mut i: usize = 0;
    while i < n
        invariant
            i <= n <= pieces@.len(),
            ranges_to(pieces@, n as int) <= usize::MAX,
            r == ranges_to(pieces@, i as int),
        decreases n - i,
    {
        proof {
            lemma_ranges_grow(pieces@, i + 1, n as int);
        }
        r = r + pieces[i].ranges.len();
        i += 1;
    }
    r
}

fn count_kept(src: &Source, opts: &SoundOptions) -> (r: usize)
    ensures
        r == kept_tracks(src.audios@, opts.drop_streams@, src.audios@.len() as int),
{
    let mut r: usize = 0;
    let mut i: usize = 0;
    while i < src.audios.len()
        invariant
            i <= src.audios@.len(),
            r <= i,
            r == kept_tracks(src.audios@, opts.drop_streams@, i as int),
        decreases src.audios@.len() - i,
    {
        if !is_dropped(opts.drop_streams.as_slice(), src.audios[i].stream_index) {
            r = r + 1;
        }
        i += 1;
    }
    r
}

/// What is said where a recording carries more tracks than are written.
pub fn note_of_tracks(path: &str, tracks: usize) -> (r: Option<String>)
    ensures
        r is Some <==> tracks > 1,
        r matches Some(s) ==> s@ == "note: "@ + path@ + " carries "@ + decimal(tracks as nat)
            + " sound tracks and an audio file is written with one. The first is written; the rest are left out."@,
{
    if tracks <= 1 {
        return None;
    }
    let mut out: Vec<char> = Vec::new();
    put_text(&mut out, "note: ");
    put_text(&mut out, path);
    put_text(&mut out, " carries ");
    put_decimal(&mut out, tracks as u64);
    put_text(
        &mut out,
        " sound tracks and an audio file is written with one. The first is written; the rest are left out.",
    );
    assert(out@ =~= "note: "@ + path@ + " carries "@ + decimal(tracks as nat)
        + " sound tracks and an audio file is written with one. The first is written; the rest are left out."@);
    Some(string_of(out.as_slice()))
}

/// What is said of a clip joined on with no sound.
pub fn note_of_silence(path: &str) -> (r: String)
    ensures
        r@ == "note: "@ + path@
            + " has no sound, so its part of the join is left out of the audio file"@,
{
    let mut out: Vec<char> = Vec::new();
    put_text(&mut out, "note: ");
    put_text(&mut out, path);
    put_text(&mut out, " has no sound, so its part of the join is left out of the audio file");
    assert(out@ =~= "note: "@ + path@
        + " has no sound, so its part of the join is left out of the audio file"@);
    string_of(out.as_slice())
}

/// One thing a run does.
#[derive(Debug, Clone, Copy, PartialEq, Eq, Structural)]
pub enum Act {
    /// Say that this piece has no sound, and leave it out.
    Leave(usize),
    /// Tell the re-encoder that what follows is this piece's track: a reel of
    /// another recording is another stream, and the decoder inside would
    /// otherwise read its frames against the one before it.
    Retune(usize),
    /// Make the frames again that this piece's boundaries fall inside.
    Patch(usize),
    /// Write one range of a piece; `at` is its place among all the ranges.
    Range { piece: usize, k: usize, at: usize },
    /// Say that so many ranges are done.
    Said(usize),
}

/// What is done for the first `k` ranges of one piece.
pub open spec fn range_acts(n: int, base: int, k: int) -> Seq<Act>
    decreases k,
{
    if k <= 0 {
        Seq::empty()
    } else {
        range_acts(n, base, k - 1).push(
            Act::Range { piece: n as usize, k: (k - 1) as usize, at: (base + k - 1) as usize },
        ).push(Act::Said((base + k) as usize))
    }
}

/// What is done for one piece.
pub open spec fn piece_acts(
    pieces: Seq<Piece>,
    master: int,
    n: int,
    opts: SoundOptions,
    mode: AudioMode,
) -> Seq<Act> {
    let base = ranges_to(pieces, n);
    if place_for(pieces, master, n, opts) is None {
        seq![Act::Leave(n as usize), Act::Said(ranges_to(pieces, n + 1) as usize)]
    } else {
        (if mode is Smart {
            seq![Act::Patch(n as usize)]
        } else {
            Seq::empty()
        }) + (if mode is Reencode && (n > 0 || n != master) {
            seq![Act::Retune(n as usize)]
        } else {
            Seq::empty()
        }) + range_acts(n, base, pieces[n].ranges@.len() as int)
    }
}

/// What is done for the first `n` pieces.
pub open spec fn acts_to(
    pieces: Seq<Piece>,
    master: int,
    opts: SoundOptions,
    mode: AudioMode,
    n: int,
) -> Seq<Act>
    decreases n,
{
    if n <= 0 {
        seq![Act::Said(0)]
    } else {
        acts_to(pieces, master, opts, mode, n - 1) + piece_acts(pieces, master, n - 1, opts, mode)
    }
}

/// What a run does, in order.
///
/// A clip joined on with no sound has none to give, and failing the whole file
/// over it would lose every other clip's. Its ranges are left out, which makes
/// the file that much shorter than the cut with pictures, and that is said.
pub fn schedule(
    pieces: &[Piece],
    master: usize,
    opts: &SoundOptions,
    mode: AudioMode,
) -> (out: Vec<Act>)
    requires
        master < pieces@.len(),
        ranges_to(pieces@, pieces@.len() as int) <= usize::MAX,
    ensures
        out@ == acts_to(pieces@, master as int, *opts, mode, pieces@.len() as int),
{
    let len: usize = pieces.len();
    let ghost gm = master as int;
    let mut out: Vec<Act> = Vec::new();
    out.push(Act::Said(0));
    assert(out@ =~= seq![Act::Said(0)]);
    let mut base: usize = 0;
    let mut n: usize = 0;
    while n < len
        invariant
            n <= len,
            len == pieces@.len(),
            gm == master,
            master < len,
            ranges_to(pieces@, len as int) <= usize::MAX,
            base == ranges_to(pieces@, n as int),
            out@ == acts_to(pieces@, gm, *opts, mode, n as int),
        decreases len - n,
    {
        proof {
            lemma_ranges_grow(pieces@, n + 1, len as int);
        }
        let ghost before = out@;
        let many: usize = pieces[n].ranges.len();
        let found: Result<&AudioInfo, SoundError> = track_for(pieces, master, n, opts);
        match found {
            Err(_) => {
                out.push(Act::Leave(n));
                out.push(Act::Said(base + many));
                assert(out@ =~= before + piece_acts(pieces@, gm, n as int, *opts, mode));
            },
            Ok(_) => {
                if mode == AudioMode::Smart {
                    out.push(Act::Patch(n));
                }
                if mode == AudioMode::Reencode && (n > 0 || n != master) {
                    out.push(Act::Retune(n));
                }
                let ghost opened = out@;
                let mut k: usize = 0;
                while k < many
                    invariant
                        k <= many,
                        base + many <= usize::MAX,
                        out@ =~= opened + range_acts(n as int, base as int, k as int),
                    decreases many - k,
                {
                    out.push(Act::Range { piece: n, k, at: base + k });
                    out.push(Act::Said(base + k + 1));
                    k += 1;
                }
                assert(out@ =~= before + piece_acts(pieces@, gm, n as int, *opts, mode));
            },
        }
        base = base + many;
        n += 1;
    }
    out
}

} // verus!
