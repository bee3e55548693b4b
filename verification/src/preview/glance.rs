//! Pictures out of a recording nothing has been read of yet.
//!
//! A poster is not an exact frame. It stands for the recording, and any
//! picture from around the right part of it will do. So libavformat is asked
//! for its own approximate seek, and the first picture that decodes after it is
//! taken, which costs one seek and one GOP rather than a pass.
use crate::preview::micros;
use crate::sound::lay::truncated;
use crate::time::{in_reach, later, max_time, HAIR, SECOND};
use vstd::prelude::*;

verus! {

/// All of the way in.
pub const WHOLE: i64 = 1_000_000;

/// Where a glance is to land: a fraction of the way in, in millionths, for a
/// picture that only has to stand for the recording, or a given instant, for
/// one that has to stand for a moment in it.
#[derive(Debug, Clone, Copy, PartialEq, Eq, Structural)]
pub enum Landing {
    Fraction(i64),
    At(i64),
}

/// When a landing is, on the container's clock. A recording whose length the
/// container will not say is read from the beginning: there is no fraction to
/// take of nothing.
pub open spec fn landing_at(landing: Landing, start: int, duration: int) -> int {
    match landing {
        Landing::Fraction(into) => start + later(duration, 0) * (if into < 0 {
            0
        } else if into > WHOLE {
            WHOLE as int
        } else {
            into as int
        }) / (WHOLE as int),
        Landing::At(at) => start + later(at as int, 0),
    }
}

/// How a glance gets to where it lands.
#[derive(Debug, Clone, Copy, PartialEq, Eq, Structural)]
pub enum Seek {
    /// To this microsecond.
    To(i64),
    /// Back to the front: on a second glance the file is wherever the first
    /// one left it.
    Rewind,
    /// Not at all: a landing at the very front needs no seek out of a file
    /// that has only just been opened.
    Stay,
}

/// How a glance gets to where it lands.
pub fn seek_for(landing: Landing, start: i64, duration: i64, again: bool) -> (r: Seek)
    requires
        in_reach(start as int),
        in_reach(duration as int),
        landing is At ==> in_reach(landing->At_0 as int),
    ensures
        ({
            let want = landing_at(landing, start as int, duration as int);
            r == (if want > start + HAIR {
                Seek::To(truncated(want * 1_000_000, SECOND as int) as i64)
            } else if again {
                Seek::Rewind
            } else {
                Seek::Stay
            })
        }),
{
    let want: i64 = match landing {
        Landing::Fraction(into) => {
            let share: i64 = if into < 0 {
                0
            } else if into > WHOLE {
                WHOLE
            } else {
                into
            };
            let long: i64 = max_time(duration, 0);
            proof {
                let all = long * share;
                assert(0 <= all <= long * 1_000_000) by (nonlinear_arith)
                    requires
                        all == long * share,
                        0 <= share <= 1_000_000,
                        0 <= long,
                ;
            }
            start + ((long as i128) * (share as i128) / (WHOLE as i128)) as i64
        },
        Landing::At(at) => start + max_time(at, 0),
    };
    if want > start + HAIR {
        Seek::To(micros(want))
    } else if again {
        Seek::Rewind
    } else {
        Seek::Stay
    }
}

/// What is done with a packet.
#[derive(Debug, Clone, Copy, PartialEq, Eq, Structural)]
pub enum Feed {
    /// It is not the decoder's yet.
    Pass,
    /// It goes to the decoder.
    Decode,
    /// The read is given up.
    Stop,
}

/// What is done with a picture that came out.
#[derive(Debug, Clone, Copy, PartialEq, Eq, Structural)]
pub enum Pick {
    /// It is the answer.
    Answer,
    /// It is kept as the answer of last resort.
    Spare,
    /// It goes by.
    Drop,
}

/// How many packets are read for a glance once it has begun: enough to carry a
/// landing that fell inside an open GOP, and to give up on a stretch of the
/// file that decodes to nothing rather than reading to the end of it.
pub const GLANCE: u32 = 900;

/// How many packets go by before a recording is taken to flag no key packet.
pub const WAIT: u32 = 300;

/// A glance being taken.
#[derive(Debug, Clone, Copy, PartialEq, Eq, Structural)]
pub struct Glance {
    /// Whether the decoder has been fed.
    pub started: bool,
    /// How many packets went by before.
    pub waiting: u32,
    /// How many more may be read.
    pub left: u32,
    /// Whether there is an answer of last resort.
    pub spare: bool,
}

impl Glance {
    pub open spec fn wf(&self) -> bool {
        self.waiting <= WAIT + 1 && self.left <= GLANCE
    }

    pub fn new() -> (r: Glance)
        ensures
            r == (Glance { started: false, waiting: 0, left: GLANCE, spare: false }),
            r.wf(),
    {
        Glance { started: false, waiting: 0, left: GLANCE, spare: false }
    }

    /// A packet of the pictures.
    ///
    /// Nothing is fed to the decoder until a key packet has arrived: what
    /// comes out before one references pictures the seek skipped past. A
    /// recording that flags no key packet at all -- and there are containers
    /// that flag none -- is read from wherever the seek put it rather than to
    /// the end and answered with nothing.
    pub fn packet(&mut self, key: bool) -> (r: Feed)
        requires
            old(self).wf(),
        ensures
            final(self).wf(),
            final(self).spare == old(self).spare,
            ({
                let waits = !old(self).started && !key;
                let started = !waits || old(self).waiting + 1 > WAIT;
                &&& final(self).started == started
                &&& final(self).waiting == (if waits && old(self).waiting <= WAIT {
                    old(self).waiting + 1
                } else {
                    old(self).waiting as int
                })
                &&& !started ==> r == Feed::Pass && final(self).left == old(self).left
                &&& started ==> final(self).left == (if old(self).left > 0 {
                    old(self).left - 1
                } else {
                    0
                }) && r == (if old(self).left <= 1 {
                    Feed::Stop
                } else {
                    Feed::Decode
                })
            }),
    {
        if !self.started && !key {
            if self.waiting <= WAIT {
                self.waiting = self.waiting + 1;
            }
            if self.waiting <= WAIT {
                return Feed::Pass;
            }
        }
        self.started = true;
        if self.left > 0 {
            self.left = self.left - 1;
        }
        if self.left == 0 {
            Feed::Stop
        } else {
            Feed::Decode
        }
    }

    /// A picture that came out, by whether it is an I picture.
    ///
    /// The picture to answer with is the first of those: what comes out before
    /// it references pictures the seek skipped past, and decodes to a grey
    /// field with the corner of a logo in it. What was decoded anyway is kept
    /// as the answer of last resort, for a recording whose pictures are not
    /// typed at all: a poster that is a little wrong beats a row that stays
    /// blank.
    pub fn picture(&mut self, intra: bool) -> (r: Pick)
        requires
            old(self).wf(),
        ensures
            final(self).wf(),
            final(self).started == old(self).started,
            final(self).waiting == old(self).waiting,
            final(self).left == old(self).left,
            final(self).spare == (old(self).spare || !intra),
            r == (if intra {
                Pick::Answer
            } else if !old(self).spare {
                Pick::Spare
            } else {
                Pick::Drop
            }),
    {
        if intra {
            return Pick::Answer;
        }
        if !self.spare {
            self.spare = true;
            return Pick::Spare;
        }
        Pick::Drop
    }
}

/// How many packets are read for a sweep once it has begun: a ceiling, for a
/// recording whose pictures carry no time to stop at.
pub const SWEEP: u32 = 4000;

/// A stretch being read through for one picture out of each of its cells.
///
/// **Cells, not a minimum spacing.** Skipping a picture that came within some
/// distance of the last one looks like the same thing and is not: pictures
/// half a second apart, thinned to "no closer than 0.54s", come back one
/// second apart -- and a strip whose cells are 0.6s wide is then empty every
/// other cell.
#[derive(Debug, Clone, Copy, PartialEq, Eq, Structural)]
pub struct Sweep {
    pub from: i64,
    pub to: i64,
    /// How wide a cell is, as a fraction.
    pub wide: i64,
    pub over: u32,
    /// The most pictures to keep.
    pub most: u32,
    /// Which cell the last answer went into.
    pub held: Option<i64>,
    /// How many answers there are.
    pub kept: u32,
    pub started: bool,
    pub left: u32,
}

/// Which cell a moment is in.
pub open spec fn cell_of(s: Sweep, t: int) -> int {
    (t - s.from) * s.over / s.wide as int
}

/// What is done with a picture of a sweep.
#[derive(Debug, Clone, Copy, PartialEq, Eq, Structural)]
pub enum Swept {
    /// The stretch is over.
    Past,
    /// It goes by.
    Pass,
    /// It is kept.
    Keep,
    /// It is kept, and it is the last.
    Last,
}

/// What is done with a picture of a sweep.
pub open spec fn swept(s: Sweep, at: int) -> Swept {
    if at > s.to + HAIR {
        Swept::Past
    } else if at < s.from - HAIR || s.held == Some(cell_of(s, at) as i64) {
        Swept::Pass
    } else if s.kept + 1 >= s.most {
        Swept::Last
    } else {
        Swept::Keep
    }
}

impl Sweep {
    pub open spec fn wf(&self) -> bool {
        &&& in_reach(self.from as int)
        &&& in_reach(self.to as int)
        &&& self.from < self.to
        &&& 0 < self.wide
        &&& 0 < self.over
        &&& self.over == 1 || self.wide == self.to - self.from
        &&& 0 < self.most
        &&& self.left <= SWEEP
    }

    /// Start on a stretch; `None` where there is nothing to read or to keep.
    /// Zero for the cell divides the stretch into as many as may be kept.
    pub fn new(from: i64, to: i64, cell: i64, most: u32) -> (r: Option<Sweep>)
        requires
            in_reach(from as int),
            in_reach(to as int),
        ensures
            r is None <==> to <= from || most == 0,
            r matches Some(s) ==> s.wf() && s == (Sweep {
                from,
                to,
                wide: if cell > 0 {
                    cell
                } else {
                    (to - from) as i64
                },
                over: if cell > 0 {
                    1
                } else {
                    most
                },
                most,
                held: None,
                kept: 0,
                started: false,
                left: SWEEP,
            }),
    {
        if to <= from || most == 0 {
            return None;
        }
        let (wide, over): (i64, u32) = if cell > 0 {
            (cell, 1)
        } else {
            (to - from, most)
        };
        Some(
            Sweep { from, to, wide, over, most, held: None, kept: 0, started: false, left: SWEEP },
        )
    }

    /// Where to seek to, in microseconds.
    pub fn target(&self, start: i64) -> (r: i64)
        requires
            self.wf(),
            in_reach(start as int),
        ensures
            r == truncated((start + later(self.from as int, 0)) * 1_000_000, SECOND as int),
    {
        micros(start + max_time(self.from, 0))
    }

    /// A packet of the pictures.
    pub fn packet(&mut self, key: bool) -> (r: Feed)
        requires
            old(self).wf(),
        ensures
            final(self).wf(),
            ({
                let started = old(self).started || key;
                *final(self) == (Sweep {
                    started,
                    left: if started && old(self).left > 0 {
                        (old(self).left - 1) as u32
                    } else {
                        old(self).left
                    },
                    ..*old(self)
                }) && r == (if !started {
                    Feed::Pass
                } else if old(self).left <= 1 {
                    Feed::Stop
                } else {
                    Feed::Decode
                })
            }),
    {
        self.started = self.started || key;
        if !self.started {
            return Feed::Pass;
        }
        if self.left > 0 {
            self.left = self.left - 1;
        }
        if self.left == 0 {
            Feed::Stop
        } else {
            Feed::Decode
        }
    }

    /// A picture that came out, by when it is.
    ///
    /// Pictures come out of the decoder in presentation order, so the first
    /// one past the far end says the stretch is done. One picture per cell is
    /// all the caller can show, and what this saves is the encoding of the
    /// ones that would land on top of each other.
    pub fn picture(&mut self, at: i64) -> (r: Swept)
        requires
            old(self).wf(),
            in_reach(at as int),
            old(self).kept < old(self).most,
        ensures
            final(self).wf(),
            r == swept(*old(self), at as int),
            *final(self) == (if r is Keep || r is Last {
                Sweep {
                    held: Some(cell_of(*old(self), at as int) as i64),
                    kept: (old(self).kept + 1) as u32,
                    ..*old(self)
                }
            } else {
                *old(self)
            }),
    {
        if at > self.to + HAIR {
            return Swept::Past;
        }
        if at < self.from - HAIR {
            return Swept::Pass;
        }
        let k: i64 = self.cell(at);
        let again: bool = match self.held {
            Some(held) => held == k,
            None => false,
        };
        if again {
            return Swept::Pass;
        }
        self.held = Some(k);
        self.kept = self.kept + 1;
        if self.kept >= self.most {
            Swept::Last
        } else {
            Swept::Keep
        }
    }

    fn cell(&self, at: i64) -> (r: i64)
        requires
            self.wf(),
            in_reach(at as int),
            self.from - HAIR <= at <= self.to + HAIR,
        ensures
            r == cell_of(*self, at as int),
    {
        proof {
            lemma_cell_fits(*self, at as int);
        }
        let d: i128 = (at as i128 - self.from as i128) * (self.over as i128);
        let w: i128 = self.wide as i128;
        if d >= 0 {
            (d / w) as i64
        } else {
            // Rounded down, where the machine rounds towards nought.
            let up: i128 = (-d + w - 1) / w;
            proof {
                let (n, m) = (-d as int, w as int);
                let q = up as int;
                assert(q == (n + m - 1) / m);
                assert(-n == m * (-q) + (m * q - n)) by (nonlinear_arith);
                assert(0 <= m * q - n < m) by (nonlinear_arith)
                    requires
                        q == (n + m - 1) / m,
                        m > 0,
                        n > 0,
                ;
                vstd::arithmetic::div_mod::lemma_fundamental_div_mod_converse(
                    -n,
                    m,
                    -q,
                    m * q - n,
                );
            }
            -(up as i64)
        }
    }
}

proof fn lemma_cell_fits(s: Sweep, at: int)
    requires
        s.wf(),
        s.from - HAIR <= at <= s.to + HAIR,
    ensures
        -0x1000_0000_0000_0000 <= (at - s.from) * s.over <= 0x1000_0000_0000_0000 * 0xFFFF_FFFF,
        -0x1000_0000_0000_0000 <= cell_of(s, at) <= 0x1000_0000_0000_0000,
{
    let (d, o, w) = (at - s.from, s.over as int, s.wide as int);
    assert(-1000 * 0xFFFF_FFFF <= d * o <= 0x900_0000_0000_0000 * 0xFFFF_FFFF) by (nonlinear_arith)
        requires
            -1000 <= d <= 0x900_0000_0000_0000,
            0 <= o <= 0xFFFF_FFFF,
    ;
    let q = d * o / w;
    if o == 1 {
        assert(d * o == d) by (nonlinear_arith)
            requires
                o == 1,
        ;
        assert(-0x1000_0000_0000_0000 <= q <= 0x1000_0000_0000_0000) by (nonlinear_arith)
            requires
                q == (d * o) / w,
                d * o == d,
                -1000 <= d <= 0x900_0000_0000_0000,
                w >= 1,
        ;
    } else {
        assert(d <= w + 1000);
        assert(-0x1000_0000_0000_0000 <= q <= 0x1000_0000_0000_0000) by (nonlinear_arith)
            requires
                q == (d * o) / w,
                -1000 <= d <= w + 1000,
                0 <= o <= 0xFFFF_FFFF,
                w >= 1,
        ;
    }
}

/// No cell is answered twice: of pictures that come out in order of time, one
/// that is kept is in a later cell than the one kept before it.
pub proof fn law_one_picture_for_each_cell(s: Sweep, first: int, second: int)
    requires
        s.wf(),
        s.from - HAIR <= first <= second,
        s.held == Some(cell_of(s, first) as i64),
        swept(s, second) is Keep || swept(s, second) is Last,
    ensures
        cell_of(s, first) < cell_of(s, second),
{
    lemma_cell_fits(s, first);
    lemma_cell_fits(s, second);
    let (o, w) = (s.over as int, s.wide as int);
    assert((first - s.from) * o <= (second - s.from) * o) by (nonlinear_arith)
        requires
            first <= second,
            o >= 0,
    ;
    vstd::arithmetic::div_mod::lemma_div_is_ordered(
        (first - s.from) * o,
        (second - s.from) * o,
        w,
    );
}

} // verus!
