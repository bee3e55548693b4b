//! What a caption puts on screen, laid out: what a reader of one makes, and
//! what a window draws.
use vstd::prelude::*;

verus! {

/// One run of characters of one size and colour.
#[derive(Debug, Clone, PartialEq, Eq)]
pub struct Run {
    /// Where it starts, from the top left of the plane.
    pub x: u16,
    pub y: u16,
    pub width: u16,
    pub height: u16,
    /// How far each character is from the one before.
    pub advance: u16,
    pub text: String,
    /// Red, green and blue.
    pub colour: u32,
}

/// What a [`Run`] holds.
pub struct RunModel {
    pub x: int,
    pub y: int,
    pub width: int,
    pub height: int,
    pub advance: int,
    pub text: Seq<char>,
    pub colour: u32,
}

impl View for Run {
    type V = RunModel;

    open spec fn view(&self) -> RunModel {
        RunModel {
            x: self.x as int,
            y: self.y as int,
            width: self.width as int,
            height: self.height as int,
            advance: self.advance as int,
            text: self.text@,
            colour: self.colour,
        }
    }
}

/// Runs, as what they hold.
pub open spec fn run_models(runs: Seq<Run>) -> Seq<RunModel> {
    runs.map_values(|r: Run| r@)
}

/// What is on screen from one moment to another.
#[derive(Debug, Clone, PartialEq, Eq)]
pub struct Page {
    /// When it goes up, in ticks.
    pub at: i64,
    /// When it comes down, where that is said.
    pub until: Option<i64>,
    pub runs: Vec<Run>,
}

/// A caption, laid out.
#[derive(Debug, PartialEq, Eq)]
pub struct Written {
    /// The size of the screen it is placed on.
    pub plane: (u16, u16),
    pub pages: Vec<Page>,
}

} // verus!
