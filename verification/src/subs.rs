//! The subtitles a preview draws over the picture.
//!
//! Nothing here is part of a cut. A cut carries subtitles from one file to
//! another without ever asking what they say. This is the other question, and
//! the window asks it: **what is on screen at this instant**, so that the
//! frame under the playhead can be shown the way a player would show it.
//!
//! Three kinds arrive here and two answers come out. A broadcast carries
//! **ARIB captions**, which are characters and where to put them, and those are
//! handed over as text with positions. A disc carries **pictures**: a
//! Blu-ray's display sets and a DVD's units, which come back as one byte per
//! pixel and a table of colours.
//!
//! ## Reading a window rather than the file
//!
//! A timeline is scrubbed, and a preview has to answer at whatever instant the
//! pointer lands on. So a stretch is read at a time -- [`LOOKBACK`] before the
//! instant and [`AHEAD`] after it -- and kept. The lookback is what makes the
//! answer right rather than merely quick: a subtitle that went up twenty
//! seconds ago is still on screen, and a reader that started at the playhead
//! would say there was none.
use crate::cache::hex;
use crate::caption::Run;
use crate::chars::{put_text, string_of};
use crate::decimal::{decimal, put_decimal, put_signed, signed_decimal};
use crate::recording::{CaptionInfo, GraphicsInfo, SubpictureInfo};
use crate::sound::lay::truncated;
use crate::time::{in_reach, later, max_time, SECOND};
use vstd::prelude::*;

verus! {

/// How far before the instant a window begins.
///
/// A subtitle is on screen because something before it put it there, and
/// nothing says how long before. Thirty seconds covers the one that is left up
/// over a long silent shot, which is the case a shorter lookback loses.
pub const LOOKBACK: i64 = 21_168_000_000;

/// And how far past it the window is read on.
///
/// Long enough that playback crosses a window edge once a minute rather than
/// once a second, and short enough that a jump costs a fraction of a second.
pub const AHEAD: i64 = 21_168_000_000;

/// Which kind of subtitle a track carries.
#[derive(Debug, Clone, Copy, PartialEq, Eq, Structural)]
pub enum Kind {
    /// A broadcast's ARIB captions: characters.
    Caption,
    /// A Blu-ray's graphics: pictures.
    Graphics,
    /// A DVD's subtitles: pictures too, and a palette that is not in the
    /// stream.
    Subpicture,
}

/// One subtitle track, as something to choose from a list.
#[derive(Debug, Clone)]
pub struct Track {
    /// What the recording calls it: a PID in a transport stream, a substream
    /// id on a DVD. The same number the track chooser uses.
    pub id: i32,
    pub kind: Kind,
    pub language: Option<String>,
}

/// The tracks of three lists, in the order the recording names them.
pub open spec fn tracks_of(
    captions: Seq<CaptionInfo>,
    graphics: Seq<GraphicsInfo>,
    subpictures: Seq<SubpictureInfo>,
) -> Seq<Track> {
    captions.map_values(
        |c: CaptionInfo| Track { id: c.pid, kind: Kind::Caption, language: c.language },
    ) + graphics.map_values(
        |g: GraphicsInfo| Track { id: g.pid, kind: Kind::Graphics, language: g.language },
    ) + subpictures.map_values(
        |s: SubpictureInfo| Track { id: s.id, kind: Kind::Subpicture, language: s.language },
    )
}

fn copied(language: &Option<String>) -> (r: Option<String>)
    ensures
        r == *language,
{
    match language {
        Some(s) => Some(s.clone()),
        None => None,
    }
}

/// Every subtitle track a recording carries, in the order the recording names
/// them.
///
/// Takes the three lists rather than the recording, because the window asks
/// this of a file it has only glanced at: an outline carries the same three
/// and no index.
pub fn tracks(
    captions: &[CaptionInfo],
    graphics: &[GraphicsInfo],
    subpictures: &[SubpictureInfo],
) -> (out: Vec<Track>)
    ensures
        out@ == tracks_of(captions@, graphics@, subpictures@),
{
    let ghost all = tracks_of(captions@, graphics@, subpictures@);
    let ghost (a, b) = (captions@.len() as int, captions@.len() + graphics@.len());
    let mut out: Vec<Track> = Vec::new();
    let mut i: usize = 0;
    while i < captions.len()
        invariant
            i <= captions@.len(),
            all == tracks_of(captions@, graphics@, subpictures@),
            out@ =~= all.take(i as int),
        decreases captions@.len() - i,
    {
        out.push(
            Track {
                id: captions[i].pid,
                kind: Kind::Caption,
                language: copied(&captions[i].language),
            },
        );
        i += 1;
    }
    let mut j: usize = 0;
    while j < graphics.len()
        invariant
            j <= graphics@.len(),
            a == captions@.len(),
            all == tracks_of(captions@, graphics@, subpictures@),
            out@ =~= all.take(a + j),
        decreases graphics@.len() - j,
    {
        out.push(
            Track {
                id: graphics[j].pid,
                kind: Kind::Graphics,
                language: copied(&graphics[j].language),
            },
        );
        j += 1;
    }
    let mut k: usize = 0;
    while k < subpictures.len()
        invariant
            k <= subpictures@.len(),
            b == captions@.len() + graphics@.len(),
            all == tracks_of(captions@, graphics@, subpictures@),
            out@ =~= all.take(b + k),
        decreases subpictures@.len() - k,
    {
        out.push(
            Track {
                id: subpictures[k].id,
                kind: Kind::Subpicture,
                language: copied(&subpictures[k].language),
            },
        );
        k += 1;
    }
    assert(out@ =~= all);
    out
}

/// That a recording has no subtitle track of this number.
#[derive(Debug, Clone, Copy, PartialEq, Eq, Structural)]
pub struct NoTrack(pub i32);

impl NoTrack {
    /// What is said about it.
    pub fn message(&self) -> (r: String)
        ensures
            r@ == "no subtitle track "@ + signed_decimal(self.0 as int) + " in this recording"@,
    {
        let mut out: Vec<char> = Vec::new();
        put_text(&mut out, "no subtitle track ");
        put_signed(&mut out, self.0 as i64);
        put_text(&mut out, " in this recording");
        assert(out@ =~= "no subtitle track "@ + signed_decimal(self.0 as int)
            + " in this recording"@);
        string_of(out.as_slice())
    }
}

/// The kind of the first track of this number.
pub fn kind_of(tracks: &[Track], id: i32) -> (r: Result<Kind, NoTrack>)
    ensures
        match r {
            Ok(kind) => exists|k: int|
                0 <= k < tracks@.len() && (#[trigger] tracks@[k]).id == id && tracks@[k].kind
                    == kind && forall|j: int| 0 <= j < k ==> (#[trigger] tracks@[j]).id != id,
            Err(e) => e == NoTrack(id) && forall|j: int|
                0 <= j < tracks@.len() ==> (#[trigger] tracks@[j]).id != id,
        },
{
    let mut i: usize = 0;
    while i < tracks.len()
        invariant
            i <= tracks@.len(),
            forall|j: int| 0 <= j < i ==> (#[trigger] tracks@[j]).id != id,
        decreases tracks@.len() - i,
    {
        if tracks[i].id == id {
            return Ok(tracks[i].kind);
        }
        i += 1;
    }
    Err(NoTrack(id))
}

/// What is on screen: characters to draw, or a picture to put up.
#[derive(Debug)]
pub enum Shown {
    /// Characters and where they go, on the plane they were laid out for.
    Text { plane: (u16, u16), runs: Vec<Run> },
    /// A picture, cropped to itself, and where on the screen it sits.
    Picture {
        /// The screen the position is measured against.
        screen: (u16, u16),
        x: u16,
        y: u16,
        width: u16,
        height: u16,
        png: Vec<u8>,
    },
}

/// One thing the stream said, at the moment it said it.
#[derive(Debug)]
pub struct Event {
    pub at: i64,
    /// When it takes itself down, where it says so. A caption says so by
    /// sending the next statement; a disc's subtitle often carries its own
    /// end.
    pub until: Option<i64>,
    /// `None` for the statement or the display set that only clears the
    /// screen, which is how a subtitle comes down.
    pub shown: Option<Shown>,
}

/// How many of the events from the `i`th on have been said by this instant.
pub open spec fn said_by(events: Seq<Event>, t: int, i: int) -> int
    decreases events.len() - i,
{
    if i < 0 || i >= events.len() || events[i].at > t {
        i
    } else {
        said_by(events, t, i + 1)
    }
}

/// The place of the last of the first `n` events that put something up.
pub open spec fn last_up(events: Seq<Event>, n: int) -> Option<int>
    decreases n,
{
    if n <= 0 {
        None
    } else if events[n - 1].shown is Some {
        Some(n - 1)
    } else {
        last_up(events, n - 1)
    }
}

/// The place of the event whose picture or text is standing at this instant:
/// the last thing put up by then, and only if it is still standing. A subtitle
/// that named its own end has gone by then, and anything after it that clears
/// the screen takes it down.
pub open spec fn standing(events: Seq<Event>, t: int) -> Option<int> {
    let n = said_by(events, t, 0);
    match last_up(events, n) {
        None => None,
        Some(k) => if (events[k].until is Some && t >= events[k].until->0) || exists|j: int|
            0 <= j < n && (#[trigger] events[j]).at > events[k].at {
            None
        } else {
            Some(k)
        },
    }
}

/// Events in the order they were said.
pub open spec fn in_turn(events: Seq<Event>) -> bool {
    forall|i: int, j: int| 0 <= i <= j < events.len() ==> (#[trigger] events[i]).at <= (
    #[trigger] events[j]).at
}

pub proof fn lemma_said_by(events: Seq<Event>, t: int, i: int)
    requires
        0 <= i <= events.len(),
    ensures
        i <= said_by(events, t, i) <= events.len(),
        forall|k: int| i <= k < said_by(events, t, i) ==> (#[trigger] events[k]).at <= t,
        said_by(events, t, i) < events.len() ==> events[said_by(events, t, i)].at > t,
    decreases events.len() - i,
{
    if i < events.len() && events[i].at <= t {
        lemma_said_by(events, t, i + 1);
    }
}

proof fn lemma_last_up(events: Seq<Event>, n: int)
    requires
        0 <= n <= events.len(),
    ensures
        match last_up(events, n) {
            None => forall|k: int| 0 <= k < n ==> (#[trigger] events[k]).shown is None,
            Some(k) => 0 <= k < n && events[k].shown is Some && forall|j: int|
                k < j < n ==> (#[trigger] events[j]).shown is None,
        },
    decreases n,
{
    if n > 0 && events[n - 1].shown is None {
        lemma_last_up(events, n - 1);
    }
}

/// What is standing at an instant was put up by then and has not named an end
/// before it, and nothing was said between: of events in the order they were
/// said, every later one up to then was said at that same moment.
pub proof fn law_what_stands_was_put_up_last(events: Seq<Event>, t: int)
    requires
        in_turn(events),
        standing(events, t) is Some,
    ensures
        ({
            let k = standing(events, t)->0;
            &&& 0 <= k < events.len()
            &&& events[k].shown is Some
            &&& events[k].at <= t
            &&& events[k].until is Some ==> t < events[k].until->0
            &&& forall|j: int|
                k < j < events.len() && (#[trigger] events[j]).at <= t ==> events[j].at
                    == events[k].at && events[j].shown is None
        }),
{
    lemma_said_by(events, t, 0);
    let n = said_by(events, t, 0);
    lemma_last_up(events, n);
    let k = standing(events, t)->0;
    assert forall|j: int| k < j < events.len() && (#[trigger] events[j]).at <= t implies events[j].at
        == events[k].at && events[j].shown is None by {
        if j >= n {
            assert(events[n].at <= events[j].at);
        }
        assert(events[k].at <= events[j].at);
    }
}

/// A stretch of one subtitle track, read and kept.
///
/// A question inside the stretch already read is answered without touching
/// the disc.
#[derive(Debug)]
pub struct Window {
    /// From when to when; nothing until the first read.
    pub covers: Option<(i64, i64)>,
    pub events: Vec<Event>,
}

impl Window {
    /// Nothing read yet.
    pub fn new() -> (r: Window)
        ensures
            r.covers is None,
            r.events@.len() == 0,
    {
        Window { covers: None, events: Vec::new() }
    }

    /// Whether an instant is inside the stretch that was read.
    pub fn holds(&self, t: i64) -> (r: bool)
        ensures
            r == (self.covers is Some && (self.covers->0).0 <= t && t < (self.covers->0).1),
    {
        match self.covers {
            Some((from, to)) => t >= from && t < to,
            None => false,
        }
    }

    /// What is on screen at `t`.
    pub fn at(&self, t: i64) -> (r: Option<&Shown>)
        ensures
            match standing(self.events@, t as int) {
                Some(k) => r == Some(&(self.events@[k].shown->0)),
                None => r is None,
            },
    {
        let ghost events = self.events@;
        let len: usize = self.events.len();
        let mut n: usize = 0;
        while n < len && self.events[n].at <= t
            invariant
                n <= len,
                len == self.events@.len(),
                events == self.events@,
                said_by(events, t as int, 0) == said_by(events, t as int, n as int),
            decreases len - n,
        {
            n += 1;
        }
        assert(n == said_by(events, t as int, 0));
        let mut k: usize = n;
        while k > 0 && self.events[k - 1].shown.is_none()
            invariant
                k <= n <= len,
                len == self.events@.len(),
                events == self.events@,
                last_up(events, n as int) == last_up(events, k as int),
            decreases k,
        {
            k -= 1;
        }
        if k == 0 {
            return None;
        }
        let event: &Event = &self.events[k - 1];
        assert(last_up(events, n as int) == Some(k - 1));
        if let Some(until) = event.until {
            if t >= until {
                return None;
            }
        }
        let mut j: usize = 0;
        while j < n
            invariant
                j <= n <= len,
                len == self.events@.len(),
                events == self.events@,
                0 < k <= n,
                *event == events[k - 1],
                n == said_by(events, t as int, 0),
                last_up(events, n as int) == Some(k - 1),
                forall|i: int| 0 <= i < j ==> (#[trigger] events[i]).at <= event.at,
            decreases n - j,
        {
            if self.events[j].at > event.at {
                assert(events[j as int].at > events[k - 1].at);
                return None;
            }
            j += 1;
        }
        match &event.shown {
            Some(shown) => Some(shown),
            None => None,
        }
    }
}

/// A stretch being read.
#[derive(Debug)]
pub struct Filling {
    pub from: i64,
    pub to: i64,
    /// When the recording starts.
    pub start_time: i64,
    pub events: Vec<Event>,
}

/// What is known of a packet that was read.
pub struct PacketFacts {
    /// Whether it is of the track.
    pub mine: bool,
    /// Whether it is a picture's, which are here to be a clock.
    pub picture: bool,
    /// When it is, on the recording's clock, where it says.
    pub at: Option<i64>,
    /// Whether there is anything in it.
    pub data: bool,
}

/// What is done with it.
#[derive(Debug, Clone, Copy, PartialEq, Eq, Structural)]
pub enum Heed {
    /// The stretch is over.
    Stop,
    /// Nothing.
    Pass,
    /// It is read, as said at this moment.
    Read(i64),
}

/// How much of a stream the demuxer is told to leave out.
#[derive(Debug, Clone, Copy, PartialEq, Eq, Structural)]
pub enum Discard {
    /// Nothing: it is the track.
    Nothing,
    /// All but entry points.
    NonKey,
    /// All of it.
    All,
}

/// How much of a stream the demuxer is told to leave out.
///
/// The pictures and the sound are the whole file; without this a window costs
/// the file. The pictures are the exception, and only their entry points: a
/// window ends at a time, and a track that says nothing for a minute would
/// otherwise be read to the end of the recording looking for a packet to end
/// on. An entry point every half second is a clock to stop against.
pub fn discard(mine: bool, picture: bool) -> (r: Discard)
    ensures
        r == (if mine {
            Discard::Nothing
        } else if picture {
            Discard::NonKey
        } else {
            Discard::All
        }),
{
    if mine {
        Discard::Nothing
    } else if picture {
        Discard::NonKey
    } else {
        Discard::All
    }
}

/// A decoded picture of a subtitle: one byte a pixel, and the colours those
/// stand for.
#[derive(Debug)]
pub struct Drawn {
    pub x: u16,
    pub y: u16,
    pub width: u16,
    pub height: u16,
    pub indices: Vec<u8>,
    pub palette: Vec<(u8, u8, u8, u8)>,
    /// How long it stands, where it says.
    pub until: Option<i64>,
}

impl Filling {
    /// Start on the stretch around an instant.
    pub fn begin(t: i64, start_time: i64) -> (r: Filling)
        requires
            in_reach(t as int),
        ensures
            r.from == later(t - LOOKBACK, 0),
            r.to == t + AHEAD,
            r.start_time == start_time,
            r.events@.len() == 0,
    {
        Filling { from: max_time(t - LOOKBACK, 0), to: t + AHEAD, start_time, events: Vec::new() }
    }

    /// Where to seek to, in microseconds.
    pub fn target(&self) -> (r: i64)
        requires
            in_reach(self.start_time as int),
            0 <= self.from <= 0x800_0000_0000_0000,
        ensures
            r == truncated((self.from + self.start_time) * 1_000_000, SECOND as int),
    {
        let at: i128 = (self.from + self.start_time) as i128 * 1_000_000;
        if at >= 0 {
            (at / SECOND as i128) as i64
        } else {
            -(((-at) / SECOND as i128) as i64)
        }
    }

    /// What is done with a packet.
    pub fn heed(&self, p: &PacketFacts) -> (r: Heed)
        ensures
            r == (if !p.mine {
                if p.picture && p.at is Some && p.at->0 > self.to {
                    Heed::Stop
                } else {
                    Heed::Pass
                }
            } else if !p.data || p.at is None {
                Heed::Pass
            } else if p.at->0 > self.to {
                Heed::Stop
            } else {
                Heed::Read(p.at->0)
            }),
    {
        match p.at {
            None => Heed::Pass,
            Some(at) => if !p.mine {
                if p.picture && at > self.to {
                    Heed::Stop
                } else {
                    Heed::Pass
                }
            } else if !p.data {
                Heed::Pass
            } else if at > self.to {
                Heed::Stop
            } else {
                Heed::Read(at)
            },
        }
    }

    /// A caption's statement: what it writes, or that it clears the screen
    /// where it writes nothing.
    pub fn statement(&mut self, at: i64, plane: (u16, u16), runs: Vec<Run>)
        ensures
            final(self).from == old(self).from,
            final(self).to == old(self).to,
            final(self).start_time == old(self).start_time,
            final(self).events@ == old(self).events@.push(
                Event {
                    at,
                    until: None,
                    shown: if runs@.len() > 0 {
                        Some(Shown::Text { plane, runs })
                    } else {
                        None
                    },
                },
            ),
    {
        let shown: Option<Shown> = if runs.len() > 0 {
            Some(Shown::Text { plane, runs })
        } else {
            None
        };
        self.events.push(Event { at, until: None, shown });
    }

    /// A disc's subtitle: the picture it puts up, with what it was written as,
    /// or that it clears the screen.
    pub fn picture(&mut self, at: i64, screen: (u16, u16), drawn: Option<(Drawn, Vec<u8>)>)
        requires
            in_reach(at as int),
            drawn is Some && (drawn->0).0.until is Some ==> in_reach(
                (drawn->0).0.until->0 as int,
            ),
        ensures
            final(self).from == old(self).from,
            final(self).to == old(self).to,
            final(self).start_time == old(self).start_time,
            final(self).events@ == old(self).events@.push(
                match drawn {
                    None => Event { at, until: None, shown: None },
                    Some((d, png)) => Event {
                        at,
                        until: match d.until {
                            Some(long) => Some((at + long) as i64),
                            None => None,
                        },
                        shown: Some(
                            Shown::Picture {
                                screen,
                                x: d.x,
                                y: d.y,
                                width: d.width,
                                height: d.height,
                                png,
                            },
                        ),
                    },
                },
            ),
    {
        match drawn {
            None => {
                self.events.push(Event { at, until: None, shown: None });
            },
            Some((d, png)) => {
                let until: Option<i64> = match d.until {
                    Some(long) => Some(at + long),
                    None => None,
                };
                self.events.push(
                    Event {
                        at,
                        until,
                        shown: Some(
                            Shown::Picture {
                                screen,
                                x: d.x,
                                y: d.y,
                                width: d.width,
                                height: d.height,
                                png,
                            },
                        ),
                    },
                );
            },
        }
    }

    /// The stretch, once it is read.
    pub fn finish(self) -> (r: Window)
        ensures
            r.covers == Some((self.from, self.to)),
            r.events == self.events,
    {
        Window { covers: Some((self.from, self.to)), events: self.events }
    }
}

/// A colour a picture's byte stands for; nothing at all where the table has
/// none.
pub open spec fn colour_of(d: Drawn, i: int) -> (u8, u8, u8, u8) {
    if d.indices@[i] < d.palette@.len() {
        d.palette@[d.indices@[i] as int]
    } else {
        (0, 0, 0, 0)
    }
}

/// One part of a colour.
pub open spec fn part(c: (u8, u8, u8, u8), k: int) -> u8 {
    if k == 0 {
        c.0
    } else if k == 1 {
        c.1
    } else if k == 2 {
        c.2
    } else {
        c.3
    }
}

/// A decoded subtitle in red, green, blue and how solid it is, four bytes a
/// pixel, row by row; `None` where there is no picture in it.
///
/// Cropped to the subtitle's own rectangle, which is where it was already: a
/// page can place a small image far more cheaply than a screen-sized one that
/// is transparent nearly everywhere.
pub fn rgba(d: &Drawn) -> (r: Option<Vec<u8>>)
    requires
        d.indices@.len() >= d.width * d.height,
    ensures
        r is None <==> d.width == 0 || d.height == 0,
        r matches Some(out) ==> out@.len() == 4 * (d.width * d.height) && forall|i: int|
            0 <= i < out@.len() ==> #[trigger] out@[i] == part(colour_of(*d, i / 4), i % 4),
{
    if d.width == 0 || d.height == 0 {
        return None;
    }
    proof {
        assert(0 <= d.width * d.height <= 0xFFFF * 0xFFFF) by (nonlinear_arith)
            requires
                0 <= d.width <= 0xFFFF,
                0 <= d.height <= 0xFFFF,
        ;
    }
    let n: usize = (d.width as u32 * d.height as u32) as usize;
    let mut out: Vec<u8> = Vec::new();
    let mut i: usize = 0;
    while i < n
        invariant
            i <= n,
            n == d.width * d.height,
            d.indices@.len() >= n,
            out@.len() == 4 * i,
            forall|j: int|
                0 <= j < out@.len() ==> #[trigger] out@[j] == part(colour_of(*d, j / 4), j % 4),
        decreases n - i,
    {
        let at: usize = d.indices[i] as usize;
        let c: (u8, u8, u8, u8) = if at < d.palette.len() {
            d.palette[at]
        } else {
            (0, 0, 0, 0)
        };
        assert(c == colour_of(*d, i as int));
        out.push(c.0);
        out.push(c.1);
        out.push(c.2);
        out.push(c.3);
        i += 1;
    }
    Some(out)
}

/// The colours of a palette from the first up to the `n`th, each in six
/// digits.
pub open spec fn colours(palette: Seq<u32>, n: int) -> Seq<char>
    decreases n,
{
    if n <= 0 {
        Seq::empty()
    } else {
        colours(palette, n - 1) + (if n > 1 {
            ", "@
        } else {
            Seq::empty()
        }) + hex(palette[n - 1] as nat, 6)
    }
}

/// What a DVD's decoder is told: the palette, in the text an `.idx` is written
/// in, which is the one thing about a DVD's subtitles that is not in the
/// stream at all.
pub fn palette_text(screen: (u16, u16), palette: &[u32]) -> (r: String)
    requires
        forall|i: int| 0 <= i < palette@.len() ==> #[trigger] palette@[i] < 0x100_0000,
    ensures
        r@ == "size: "@ + decimal(screen.0 as nat) + "x"@ + decimal(screen.1 as nat)
            + "\npalette: "@ + colours(palette@, palette@.len() as int) + "\n"@,
{
    let mut out: Vec<char> = Vec::new();
    put_text(&mut out, "size: ");
    put_decimal(&mut out, screen.0 as u64);
    put_text(&mut out, "x");
    put_decimal(&mut out, screen.1 as u64);
    put_text(&mut out, "\npalette: ");
    let ghost head = out@;
    let mut i: usize = 0;
    while i < palette.len()
        invariant
            i <= palette@.len(),
            out@ =~= head + colours(palette@, i as int),
        decreases palette@.len() - i,
    {
        if i > 0 {
            put_text(&mut out, ", ");
        }
        crate::cache::put_hex(&mut out, palette[i] as u64, 6);
        i += 1;
    }
    put_text(&mut out, "\n");
    assert(out@ =~= "size: "@ + decimal(screen.0 as nat) + "x"@ + decimal(screen.1 as nat)
        + "\npalette: "@ + colours(palette@, palette@.len() as int) + "\n"@);
    string_of(out.as_slice())
}

} // verus!
