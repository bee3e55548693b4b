//! What happens where one clip gives way to the next.
//!
//! **A transition is the one thing here that cannot be smart rendered, and it
//! is worth saying why before describing it.** Everything else exists to leave
//! the recording's own pictures alone. A transition asks for pictures that are
//! not in either recording -- a frame that is half of one and half of the
//! other, a frame that is a quarter of the way to black -- so every frame it
//! covers is made afresh, whatever the two clips have in common. Asked for two
//! seconds, it costs two seconds of encoding at each join and nothing anywhere
//! else.
//!
//! ## Which clip a transition belongs to
//!
//! To the clip **before** it: a transition is that clip giving way, and the
//! list reads in the order the file is written. On the last clip there is
//! nothing to give way to, so it runs to the colour instead.
//!
//! ## The two timings, and why there are two
//!
//! | | |
//! |---|---|
//! | [`Crossing::Fade`] | The clip before goes down to the colour over half the time, and the clip after comes up out of it over the other half. **The output is as long as it would have been without one** |
//! | Everything else | The two clips are on screen together for the whole of it. Both give that much time, and the output is **that much shorter** than the two clips put together |
//!
//! Not a choice: it is what the two kinds *are*. A fade through black never
//! has both clips up at once; a dissolve has nothing to show but both at once.
pub mod lasting;

use crate::chars::same_text;
use crate::time::SECOND;
use vstd::arithmetic::power2::pow2;
use vstd::prelude::*;

verus! {

/// How one clip gives way to the next.
#[derive(Debug, Clone, Copy, PartialEq, Eq, Structural)]
pub enum Crossing {
    /// A hard join, which is what a cut has always made.
    Hard,
    /// Down to a colour and back up out of it.
    Fade(Shade),
    /// Both at once, the one fading through the other.
    Dissolve,
    /// The next clip arrives as an edge travelling across the frame, the one
    /// before it standing still behind it.
    Wipe(Side),
    /// The same edge, with both pictures moving: the one before is pushed
    /// off the side the next one comes in from.
    Slide(Side),
}

/// The colour a fade goes through.
///
/// Two, and not a colour picker. What a fade through a colour is *for* is a
/// moment where the programme is not on screen, and there are two of those:
/// black, which is every broadcast's own, and white, which is what a
/// photograph fades through.
#[derive(Debug, Clone, Copy, PartialEq, Eq, Structural)]
pub enum Shade {
    Black,
    White,
}

/// Which side of the frame the next clip comes in from.
#[derive(Debug, Clone, Copy, PartialEq, Eq, Structural)]
pub enum Side {
    Left,
    Right,
    Top,
    Bottom,
}

/// How fast the crossing runs at each point of itself. What each of them is,
/// is the standard curve of that name.
#[derive(Debug, Clone, Copy, PartialEq, Eq, Structural)]
pub enum Curve {
    /// A straight line: the crossing runs at one speed throughout.
    Straight,
    Back,
    Bounce,
    Circle,
    Elastic,
    Exponential,
    Power,
    Sine,
    Quadratic,
    Cubic,
    Quartic,
    Quintic,
}

/// Which end of the crossing the curve is applied at.
#[derive(Debug, Clone, Copy, PartialEq, Eq, Structural)]
pub enum Mode {
    /// Slow at the start.
    In,
    /// Slow at the end.
    Out,
    /// Slow at both ends.
    InOut,
    /// Fast at both ends.
    OutIn,
}

/// A curve and the end it is applied at.
#[derive(Debug, Clone, Copy, PartialEq, Eq, Structural)]
pub struct Easing {
    pub curve: Curve,
    pub mode: Mode,
}

impl Default for Crossing {
    fn default() -> (r: Crossing)
        ensures
            r == Crossing::Hard,
    {
        Crossing::Hard
    }
}

impl Default for Curve {
    fn default() -> (r: Curve)
        ensures
            r == Curve::Straight,
    {
        Curve::Straight
    }
}

impl Default for Mode {
    fn default() -> (r: Mode)
        ensures
            r == Mode::In,
    {
        Mode::In
    }
}

impl Default for Easing {
    fn default() -> (r: Easing)
        ensures
            r == (Easing { curve: Curve::Straight, mode: Mode::In }),
    {
        Easing { curve: Curve::Straight, mode: Mode::In }
    }
}

/// What a crossing is called.
pub open spec fn crossing_name(k: Crossing) -> Seq<char> {
    match k {
        Crossing::Hard => "none"@,
        Crossing::Fade(Shade::Black) => "fade-black"@,
        Crossing::Fade(Shade::White) => "fade-white"@,
        Crossing::Dissolve => "dissolve"@,
        Crossing::Wipe(Side::Left) => "wipe-left"@,
        Crossing::Wipe(Side::Right) => "wipe-right"@,
        Crossing::Wipe(Side::Top) => "wipe-top"@,
        Crossing::Wipe(Side::Bottom) => "wipe-bottom"@,
        Crossing::Slide(Side::Left) => "slide-left"@,
        Crossing::Slide(Side::Right) => "slide-right"@,
        Crossing::Slide(Side::Top) => "slide-top"@,
        Crossing::Slide(Side::Bottom) => "slide-bottom"@,
    }
}

/// The crossing a name stands for. Two of them may be left shorter: no name
/// at all is no crossing, and a fade that does not say is to black.
pub open spec fn crossing_named(s: Seq<char>) -> Option<Crossing> {
    if s == "none"@ || s == ""@ {
        Some(Crossing::Hard)
    } else if s == "fade"@ || s == "fade-black"@ {
        Some(Crossing::Fade(Shade::Black))
    } else if s == "fade-white"@ {
        Some(Crossing::Fade(Shade::White))
    } else if s == "dissolve"@ {
        Some(Crossing::Dissolve)
    } else if s == "wipe-left"@ {
        Some(Crossing::Wipe(Side::Left))
    } else if s == "wipe-right"@ {
        Some(Crossing::Wipe(Side::Right))
    } else if s == "wipe-top"@ {
        Some(Crossing::Wipe(Side::Top))
    } else if s == "wipe-bottom"@ {
        Some(Crossing::Wipe(Side::Bottom))
    } else if s == "slide-left"@ {
        Some(Crossing::Slide(Side::Left))
    } else if s == "slide-right"@ {
        Some(Crossing::Slide(Side::Right))
    } else if s == "slide-top"@ {
        Some(Crossing::Slide(Side::Top))
    } else if s == "slide-bottom"@ {
        Some(Crossing::Slide(Side::Bottom))
    } else {
        None
    }
}

/// Every name a project file can hold reads back as the thing it names.
pub proof fn law_every_name_round_trips(k: Crossing)
    ensures
        crossing_named(crossing_name(k)) == Some(k),
{
    reveal_strlit("none");
    reveal_strlit("");
    reveal_strlit("fade");
    reveal_strlit("fade-black");
    reveal_strlit("fade-white");
    reveal_strlit("dissolve");
    reveal_strlit("wipe-left");
    reveal_strlit("wipe-right");
    reveal_strlit("wipe-top");
    reveal_strlit("wipe-bottom");
    reveal_strlit("slide-left");
    reveal_strlit("slide-right");
    reveal_strlit("slide-top");
    reveal_strlit("slide-bottom");
    assert(""@.len() == 0 && "none"@.len() == 4 && "fade"@.len() == 4);
    assert("dissolve"@.len() == 8 && "wipe-top"@.len() == 8);
    assert("wipe-left"@.len() == 9 && "slide-top"@.len() == 9);
    assert("fade-black"@.len() == 10 && "fade-white"@.len() == 10);
    assert("wipe-right"@.len() == 10 && "slide-left"@.len() == 10);
    assert("wipe-bottom"@.len() == 11 && "slide-right"@.len() == 11);
    assert("slide-bottom"@.len() == 12);
    // Two names of one length differ in the letters looked at here.
    assert("none"@[0] == 'n' && "fade"@[0] == 'f');
    assert("dissolve"@[0] == 'd' && "wipe-top"@[0] == 'w');
    assert("wipe-left"@[0] == 'w' && "slide-top"@[0] == 's');
    assert("fade-black"@[5] == 'b' && "fade-white"@[5] == 'w');
    assert("wipe-right"@[5] == 'r' && "slide-left"@[5] == '-');
    assert("wipe-bottom"@[0] == 'w' && "slide-right"@[0] == 's');
}

impl Crossing {
    /// Whether both clips are on screen at once, which is what decides
    /// whether the output comes out shorter. See the page head.
    pub fn overlaps(self) -> (r: bool)
        ensures
            r == !(self is Hard || self is Fade),
    {
        !matches!(self, Crossing::Hard | Crossing::Fade(_))
    }

    pub fn as_str(self) -> (s: &'static str)
        ensures
            s@ == crossing_name(self),
    {
        match self {
            Crossing::Hard => "none",
            Crossing::Fade(Shade::Black) => "fade-black",
            Crossing::Fade(Shade::White) => "fade-white",
            Crossing::Dissolve => "dissolve",
            Crossing::Wipe(s) => match s {
                Side::Left => "wipe-left",
                Side::Right => "wipe-right",
                Side::Top => "wipe-top",
                Side::Bottom => "wipe-bottom",
            },
            Crossing::Slide(s) => match s {
                Side::Left => "slide-left",
                Side::Right => "slide-right",
                Side::Top => "slide-top",
                Side::Bottom => "slide-bottom",
            },
        }
    }

    /// The name back again, for a project file and a command line.
    pub fn parse(s: &str) -> (r: Option<Crossing>)
        ensures
            r == crossing_named(s@),
    {
        if same_text(s, "none") || same_text(s, "") {
            Some(Crossing::Hard)
        } else if same_text(s, "fade") || same_text(s, "fade-black") {
            Some(Crossing::Fade(Shade::Black))
        } else if same_text(s, "fade-white") {
            Some(Crossing::Fade(Shade::White))
        } else if same_text(s, "dissolve") {
            Some(Crossing::Dissolve)
        } else if same_text(s, "wipe-left") {
            Some(Crossing::Wipe(Side::Left))
        } else if same_text(s, "wipe-right") {
            Some(Crossing::Wipe(Side::Right))
        } else if same_text(s, "wipe-top") {
            Some(Crossing::Wipe(Side::Top))
        } else if same_text(s, "wipe-bottom") {
            Some(Crossing::Wipe(Side::Bottom))
        } else if same_text(s, "slide-left") {
            Some(Crossing::Slide(Side::Left))
        } else if same_text(s, "slide-right") {
            Some(Crossing::Slide(Side::Right))
        } else if same_text(s, "slide-top") {
            Some(Crossing::Slide(Side::Top))
        } else if same_text(s, "slide-bottom") {
            Some(Crossing::Slide(Side::Bottom))
        } else {
            None
        }
    }
}

/// Doubled so many times over.
fn doubled(v: u64, times: u32) -> (r: u64)
    requires
        v <= 256,
        times <= 30,
    ensures
        r == v * pow2(times as nat),
{
    let mut r: u64 = v;
    let mut i: u32 = 0;
    assert(v * pow2(0) == v) by {
        vstd::arithmetic::power2::lemma2_to64();
    }
    while i < times
        invariant
            i <= times <= 30,
            v <= 256,
            r == v * pow2(i as nat),
        decreases times - i,
    {
        proof {
            vstd::arithmetic::power2::lemma_pow2_unfold((i + 1) as nat);
            vstd::arithmetic::power2::lemma2_to64();
            if i < 30 {
                vstd::arithmetic::power2::lemma_pow2_strictly_increases(i as nat, 30);
            }
            assert(v * pow2(i as nat) <= 256 * 0x4000_0000) by (nonlinear_arith)
                requires
                    0 <= v <= 256,
                    0 <= pow2(i as nat) <= 0x4000_0000,
            ;
            assert(v * (2 * pow2(i as nat)) == 2 * (v * pow2(i as nat))) by (nonlinear_arith);
        }
        r = r * 2;
        i += 1;
    }
    r
}

impl Shade {
    /// The colour as a decoder would hand it over: luma, then the level of
    /// the two chroma planes, which are neutral for both of these.
    ///
    /// Studio black and studio white, not 0 and full scale: the pictures
    /// around this were coded in the same range, and a frame that goes past
    /// where they can reach is a frame that flashes.
    pub fn yuv(self, depth: u32) -> (r: (u16, u16))
        requires
            8 <= depth <= 31,
        ensures
            r.0 == (match self {
                Shade::Black => 16 * pow2((depth - 8) as nat),
                Shade::White => 235 * pow2((depth - 8) as nat),
            }) % 0x1_0000,
            r.1 == pow2((depth - 1) as nat) % 0x1_0000,
    {
        let neutral: u64 = doubled(1, depth - 1);
        let luma: u64 = match self {
            Shade::Black => doubled(16, depth - 8),
            Shade::White => doubled(235, depth - 8),
        };
        ((luma % 0x1_0000) as u16, (neutral % 0x1_0000) as u16)
    }
}

/// The curve a name stands for: a straight line where it is not one.
pub open spec fn curve_named(s: Seq<char>) -> Curve {
    if s == "back"@ {
        Curve::Back
    } else if s == "bounce"@ {
        Curve::Bounce
    } else if s == "circle"@ {
        Curve::Circle
    } else if s == "elastic"@ {
        Curve::Elastic
    } else if s == "exponential"@ {
        Curve::Exponential
    } else if s == "power"@ {
        Curve::Power
    } else if s == "sine"@ {
        Curve::Sine
    } else if s == "quadratic"@ {
        Curve::Quadratic
    } else if s == "cubic"@ {
        Curve::Cubic
    } else if s == "quartic"@ {
        Curve::Quartic
    } else if s == "quintic"@ {
        Curve::Quintic
    } else {
        Curve::Straight
    }
}

/// The mode a name stands for: slow at the start where it is not one.
pub open spec fn mode_named(s: Seq<char>) -> Mode {
    if s == "out"@ {
        Mode::Out
    } else if s == "in-out"@ || s == "inout"@ {
        Mode::InOut
    } else if s == "out-in"@ || s == "outin"@ {
        Mode::OutIn
    } else {
        Mode::In
    }
}

impl Easing {
    pub fn parse(curve: &str, mode: &str) -> (r: Easing)
        ensures
            r.curve == curve_named(curve@),
            r.mode == mode_named(mode@),
    {
        let curve: Curve = if same_text(curve, "back") {
            Curve::Back
        } else if same_text(curve, "bounce") {
            Curve::Bounce
        } else if same_text(curve, "circle") {
            Curve::Circle
        } else if same_text(curve, "elastic") {
            Curve::Elastic
        } else if same_text(curve, "exponential") {
            Curve::Exponential
        } else if same_text(curve, "power") {
            Curve::Power
        } else if same_text(curve, "sine") {
            Curve::Sine
        } else if same_text(curve, "quadratic") {
            Curve::Quadratic
        } else if same_text(curve, "cubic") {
            Curve::Cubic
        } else if same_text(curve, "quartic") {
            Curve::Quartic
        } else if same_text(curve, "quintic") {
            Curve::Quintic
        } else {
            Curve::Straight
        };
        let mode: Mode = if same_text(mode, "out") {
            Mode::Out
        } else if same_text(mode, "in-out") || same_text(mode, "inout") {
            Mode::InOut
        } else if same_text(mode, "out-in") || same_text(mode, "outin") {
            Mode::OutIn
        } else {
            Mode::In
        };
        Easing { curve, mode }
    }
}

/// How a moment of a crossing is read off a curve's slow-at-the-start half.
///
/// Every mode is that one half read backwards or twice over: the moment `t`
/// reads the curve at `by * t + from`, and what the curve says there, times
/// `times` and `plus` more, is twice what is shown. Everything here is counted
/// in whole crossings, so a moment is somewhere from nought to one.
#[derive(Debug, Clone, Copy, PartialEq, Eq, Structural)]
pub struct Leg {
    pub by: i8,
    pub from: i8,
    pub times: i8,
    pub plus: i8,
}

/// The leg a moment is on, by whether the crossing is past its middle.
pub open spec fn leg_of(mode: Mode, past_the_middle: bool) -> Leg {
    match (mode, past_the_middle) {
        (Mode::In, _) => Leg { by: 1, from: 0, times: 2, plus: 0 },
        (Mode::Out, _) => Leg { by: (-1) as i8, from: 1, times: (-2) as i8, plus: 2 },
        (Mode::InOut, false) => Leg { by: 2, from: 0, times: 1, plus: 0 },
        (Mode::InOut, true) => Leg { by: (-2) as i8, from: 2, times: (-1) as i8, plus: 2 },
        (Mode::OutIn, false) => Leg { by: (-2) as i8, from: 1, times: (-1) as i8, plus: 1 },
        (Mode::OutIn, true) => Leg { by: 2, from: (-1) as i8, times: 1, plus: 1 },
    }
}

impl Leg {
    /// Where the curve is read, in parts of `whole`.
    pub open spec fn reads(self, t: int, whole: int) -> int {
        self.by * t + self.from * whole
    }

    /// Twice what is shown, in parts of `whole`, where the curve says `v`.
    pub open spec fn shows(self, v: int, whole: int) -> int {
        self.times * v + self.plus * whole
    }
}

/// Whether a moment is on this leg.
pub open spec fn on_leg(t: int, whole: int, past_the_middle: bool) -> bool {
    0 <= t <= whole && past_the_middle == (2 * t >= whole)
}

impl Easing {
    /// How far through the crossing is shown at one moment of it, given as
    /// what to read off the curve and what to make of it.
    pub fn leg(&self, past_the_middle: bool) -> (r: Leg)
        ensures
            r == leg_of(self.mode, past_the_middle),
    {
        match self.mode {
            Mode::In => Leg { by: 1, from: 0, times: 2, plus: 0 },
            Mode::Out => Leg { by: -1, from: 1, times: -2, plus: 2 },
            Mode::InOut => if past_the_middle {
                Leg { by: -2, from: 2, times: -1, plus: 2 }
            } else {
                Leg { by: 2, from: 0, times: 1, plus: 0 }
            },
            Mode::OutIn => if past_the_middle {
                Leg { by: 2, from: -1, times: 1, plus: 1 }
            } else {
                Leg { by: -2, from: 1, times: -1, plus: 1 }
            },
        }
    }
}

proof fn lemma_few_times(n: i8, t: int)
    by (nonlinear_arith)
    ensures
        n == 0 ==> n * t == 0,
        n == 1 ==> n * t == t,
        n == 2 ==> n * t == 2 * t,
        n == -1 ==> n * t == -t,
        n == -2 ==> n * t == -2 * t,
{
}

/// What each leg reads and shows, written out.
proof fn lemma_leg(mode: Mode, past_the_middle: bool, t: int, v: int, whole: int)
    ensures
        leg_of(mode, past_the_middle).reads(t, whole) == (match (mode, past_the_middle) {
            (Mode::In, _) => t,
            (Mode::Out, _) => whole - t,
            (Mode::InOut, false) => 2 * t,
            (Mode::InOut, true) => 2 * whole - 2 * t,
            (Mode::OutIn, false) => whole - 2 * t,
            (Mode::OutIn, true) => 2 * t - whole,
        }),
        leg_of(mode, past_the_middle).shows(v, whole) == (match (mode, past_the_middle) {
            (Mode::In, _) => 2 * v,
            (Mode::Out, _) => 2 * whole - 2 * v,
            (Mode::InOut, false) => v,
            (Mode::InOut, true) => 2 * whole - v,
            (Mode::OutIn, false) => whole - v,
            (Mode::OutIn, true) => whole + v,
        }),
{
    let leg = leg_of(mode, past_the_middle);
    lemma_few_times(leg.by, t);
    lemma_few_times(leg.from, whole);
    lemma_few_times(leg.times, v);
    lemma_few_times(leg.plus, whole);
    assert(leg.reads(t, whole) == leg.by * t + leg.from * whole);
    assert(leg.shows(v, whole) == leg.times * v + leg.plus * whole);
    match (mode, past_the_middle) {
        (Mode::In, _) => {
            assert(leg.by == 1 && leg.from == 0 && leg.times == 2 && leg.plus == 0);
            assert(leg.reads(t, whole) == t);
        },
        (Mode::Out, _) => {
            assert(leg.by == -1 && leg.from == 1 && leg.times == -2 && leg.plus == 2);
            assert(leg.reads(t, whole) == whole - t);
        },
        (Mode::InOut, false) => {
            assert(leg.by == 2 && leg.from == 0 && leg.times == 1 && leg.plus == 0);
            assert(leg.reads(t, whole) == 2 * t);
        },
        (Mode::InOut, true) => {
            assert(leg.by == -2 && leg.from == 2 && leg.times == -1 && leg.plus == 2);
            assert(leg.reads(t, whole) == 2 * whole - 2 * t);
        },
        (Mode::OutIn, false) => {
            assert(leg.by == -2 && leg.from == 1 && leg.times == -1 && leg.plus == 1);
            assert(leg.reads(t, whole) == whole - 2 * t);
        },
        (Mode::OutIn, true) => {
            assert(leg.by == 2 && leg.from == -1 && leg.times == 1 && leg.plus == 1);
            assert(leg.reads(t, whole) == 2 * t - whole);
        },
    }
}

/// Every easing runs from end to end and in one piece, in every mode: of a
/// curve that is nought at nought and whole at the end, nothing is shown at
/// the start and everything at the end, and where the two halves of a crossing
/// meet they show the same, which is half.
pub proof fn law_every_easing_runs_from_end_to_end(
    mode: Mode,
    whole: int,
    curve: spec_fn(int) -> int,
)
    requires
        0 < whole,
        whole % 2 == 0,
        curve(0) == 0,
        curve(whole) == whole,
    ensures
        ({
            let shown = |past: bool, t: int|
                leg_of(mode, past).shows(curve(leg_of(mode, past).reads(t, whole)), whole);
            &&& shown(false, 0) == 0
            &&& shown(true, whole) == 2 * whole
            &&& shown(false, whole / 2) == shown(true, whole / 2)
            &&& (mode is InOut || mode is OutIn) ==> shown(true, whole / 2) == whole
        }),
{
    let half = whole / 2;
    assert(2 * half == whole);
    let (first, second) = (leg_of(mode, false), leg_of(mode, true));
    lemma_leg(mode, false, 0, curve(first.reads(0, whole)), whole);
    lemma_leg(mode, true, whole, curve(second.reads(whole, whole)), whole);
    lemma_leg(mode, false, half, curve(first.reads(half, whole)), whole);
    lemma_leg(mode, true, half, curve(second.reads(half, whole)), whole);
}

/// No curve is a straight line, in every mode: what is shown is how much of
/// the crossing has passed.
pub proof fn law_no_curve_is_a_straight_line(mode: Mode, past_the_middle: bool, t: int, whole: int)
    ensures
        ({
            let leg = leg_of(mode, past_the_middle);
            leg.shows(leg.reads(t, whole), whole) == 2 * t
        }),
{
    lemma_leg(mode, past_the_middle, t, leg_of(mode, past_the_middle).reads(t, whole), whole);
}

/// A curve is only ever read inside the crossing, and one that stays inside
/// is shown inside, which is what lets a mix use it as it is.
pub proof fn law_the_quiet_curves_stay_inside(
    mode: Mode,
    past_the_middle: bool,
    t: int,
    v: int,
    whole: int,
)
    requires
        on_leg(t, whole, past_the_middle),
        0 <= v <= whole,
    ensures
        ({
            let leg = leg_of(mode, past_the_middle);
            &&& 0 <= leg.reads(t, whole) <= whole
            &&& 0 <= leg.shows(v, whole) <= 2 * whole
        }),
{
    lemma_leg(mode, past_the_middle, t, v, whole);
}

/// A transition, as one setting.
#[derive(Debug, Clone)]
pub struct Transition {
    pub kind: Crossing,
    /// How long it runs, in ticks.
    pub seconds: i64,
    pub easing: Easing,
    /// A still image drawn over the crossing: a title, a card, a logo.
    ///
    /// **Over the crossing and nowhere else**, which is what makes it
    /// something that can be offered at all. Drawing a picture over a
    /// programme means re-encoding every frame it covers. The frames a
    /// transition covers are being written afresh already, so an image over
    /// them costs the composite and nothing else.
    ///
    /// It comes up and goes down with the crossing's own ends -- see
    /// [`SHOW_IN`] -- so that it is never cut on or off.
    pub overlay: Option<String>,
}

impl Default for Transition {
    fn default() -> (r: Transition)
        ensures
            r.kind == Crossing::Hard,
            r.seconds == SECOND,
            r.easing == (Easing { curve: Curve::Straight, mode: Mode::In }),
            r.overlay is None,
    {
        Transition {
            kind: Crossing::Hard,
            seconds: SECOND,
            easing: Easing { curve: Curve::Straight, mode: Mode::In },
            overlay: None,
        }
    }
}

/// The whole of a crossing, or an overlay at full strength: a million parts.
pub const WHOLE: i64 = 1_000_000;

/// What share of a crossing the overlay spends coming up, and the same again
/// going down.
///
/// A quarter at each end, so the middle half of the crossing has it at full
/// strength. Anything shorter is a card that appears; anything longer never
/// reaches full and the middle of the crossing is the only part it is
/// properly visible in.
pub const SHOW_IN: i64 = 250_000;

/// How solid the overlay is: nothing at either end of the crossing, full
/// across the middle of it, and a straight climb between.
pub open spec fn solid(progress: int) -> int {
    if progress <= 0 || progress >= WHOLE {
        0
    } else if progress < SHOW_IN {
        progress * WHOLE / SHOW_IN as int
    } else if progress > WHOLE - SHOW_IN {
        (WHOLE - progress) * WHOLE / SHOW_IN as int
    } else {
        WHOLE as int
    }
}

/// How solid the overlay is at `progress` through the whole crossing, both in
/// parts of [`WHOLE`].
pub fn showing(progress: i64) -> (r: i64)
    ensures
        r == solid(progress as int),
{
    let p: i64 = if progress < 0 {
        0
    } else if progress > WHOLE {
        WHOLE
    } else {
        progress
    };
    let up: i64 = p * WHOLE / SHOW_IN;
    let down: i64 = (WHOLE - p) * WHOLE / SHOW_IN;
    let less: i64 = if up < down {
        up
    } else {
        down
    };
    if less > WHOLE {
        WHOLE
    } else {
        less
    }
}

/// The overlay goes down as it came up.
pub proof fn law_an_overlay_goes_down_as_it_came_up(progress: int)
    ensures
        solid(WHOLE - progress) == solid(progress),
        0 <= solid(progress) <= WHOLE,
        solid(0) == 0,
        solid(WHOLE as int) == 0,
        SHOW_IN <= progress <= WHOLE - SHOW_IN ==> solid(progress) == WHOLE,
{
}

/// The longest a transition may run, in ticks: thirty seconds.
///
/// What is past it is not a transition between two programmes, it is a third
/// programme made of the two.
pub const LONGEST: i64 = 21_168_000_000;

/// Whether a transition of this kind and length does anything at all.
pub open spec fn does_something(kind: Crossing, seconds: int) -> bool {
    kind != Crossing::Hard && seconds > 0
}

/// How much of the clip before the join it takes, and of the clip after.
pub open spec fn taken(kind: Crossing, seconds: int) -> int {
    let d = if seconds < LONGEST {
        seconds
    } else {
        LONGEST as int
    };
    if !does_something(kind, seconds) {
        0
    } else if kind is Fade {
        d / 2
    } else {
        d
    }
}

impl Transition {
    /// Whether this one does anything at all.
    pub fn happens(&self) -> (r: bool)
        ensures
            r == does_something(self.kind, self.seconds as int),
    {
        self.kind != Crossing::Hard && self.seconds > 0
    }

    /// How much of the clip *before* the join it takes, and how much of the
    /// clip after.
    ///
    /// A fade takes half from each and the output keeps its length; every
    /// other kind takes the whole of it from both, and the output comes out
    /// that much shorter. See the page head.
    pub fn takes(&self) -> (r: (i64, i64))
        ensures
            r.0 == taken(self.kind, self.seconds as int),
            r.1 == taken(self.kind, self.seconds as int),
    {
        if !self.happens() {
            return (0, 0);
        }
        let d: i64 = if self.seconds < LONGEST {
            self.seconds
        } else {
            LONGEST
        };
        if self.kind.overlaps() {
            (d, d)
        } else {
            (d / 2, d / 2)
        }
    }
}

} // verus!
