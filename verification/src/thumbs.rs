//! A coarse thumbnail track and a scene index, both built in one pass.
//!
//! Hovering the scrubber has to put a picture on screen as fast as the
//! pointer moves, which rules out decoding on demand. So the pictures are
//! decoded once, up front, and kept.
//!
//! Scene detection wants the same pass. Comparing successive key pictures is
//! what finds a cut, and the key pictures are exactly what is being decoded
//! for the thumbnails, so the scene index costs a few hundred bytes on top of
//! work already being done.
pub mod collect;
pub mod cuts;
pub mod telling;

pub use collect::{mark_scenes, Batch, Collector};

use crate::logo::template::Luma;
use crate::rank::in_order;
use crate::time::{in_reach, later, SECOND};
use vstd::prelude::*;

verus! {

/// How different two pictures can be: every cell as far apart as a byte goes,
/// each of those counted in millionths.
pub const DIFFERENT: i64 = 36_720_000_000;

/// What a track is built by. Lengths are in ticks, a difference is a share of
/// [`DIFFERENT`], and a multiple is in millionths.
#[derive(Debug, Clone, Copy, PartialEq, Eq, Structural)]
pub struct ThumbOptions {
    /// Shortest spacing between kept thumbnails. Every key picture is
    /// compared, but only pictures this far apart are held as images.
    ///
    /// Zero means "keep every key picture", which is what a scroll search
    /// wants: dragging across the film strip shows the held pictures, so
    /// their spacing is the granularity of the scroll.
    pub interval: i64,
    /// Ceiling on how many are held, whatever `interval` says. A long
    /// recording widens its own spacing rather than filling memory.
    pub max_thumbs: u32,
    /// Thumbnail width, in pixels.
    pub width: u32,
    /// Picture difference below which nothing counts as a cut, however quiet
    /// the recording is. Without it, a still programme would report a scene
    /// change at every twitch.
    pub floor: i64,
    /// How far above the recording's own typical difference a cut has to
    /// stand. Read from the material because a talk show and a music video
    /// disagree by an order of magnitude about what "typical" is.
    pub over_typical: u32,
    /// Never report scenes closer together, on average, than this. A guard
    /// against material where the whole picture churns.
    pub min_spacing: i64,
}

impl Default for ThumbOptions {
    fn default() -> (r: ThumbOptions)
        ensures
            r.interval == 0,
            r.max_thumbs == 4000,
            r.width == 192,
            r.floor * 1000 == 55 * DIFFERENT,
            r.over_typical == 3_000_000,
            r.min_spacing == 3 * SECOND,
    {
        ThumbOptions {
            interval: 0,
            max_thumbs: 4000,
            width: 192,
            floor: 2_019_600_000,
            over_typical: 3_000_000,
            min_spacing: 3 * SECOND,
        }
    }
}

/// A held picture.
#[derive(Debug)]
pub struct Thumb {
    pub time: i64,
    pub jpeg: Vec<u8>,
}

/// Held pictures, and the scenes found between them.
#[derive(Debug)]
pub struct Track {
    pub width: u32,
    /// The spacing actually used, which is what a caller must go by when
    /// deciding whether the held pictures are fine enough for its purpose.
    pub interval: i64,
    /// How far into the recording the track speaks for; `None` is the whole of
    /// it. One handed over while it is still being built speaks only for what
    /// has been decoded, and the caller has to stop asking past here --
    /// `nearest` is happy to answer with the last picture it has, which is the
    /// wrong picture rather than no picture.
    pub covered: Option<i64>,
    /// Held images, in time order.
    pub thumbs: Vec<Thumb>,
    /// Times of the key pictures that open a new scene, in time order.
    pub scenes: Vec<i64>,
    /// The difference that had to be exceeded to make that list, and the
    /// recording's typical difference -- both reported so the choice can be
    /// judged rather than trusted.
    pub threshold: i64,
    pub typical: i64,
}

/// When the pictures are.
pub open spec fn thumb_times(thumbs: Seq<Thumb>) -> Seq<i64> {
    thumbs.map_values(|t: Thumb| t.time)
}

/// The first place from `i` on whose time is not before this; the length where
/// there is none.
pub open spec fn from_on(times: Seq<i64>, time: int, i: int) -> int
    decreases times.len() - i,
{
    if i < 0 || i >= times.len() {
        times.len() as int
    } else if times[i] >= time {
        i
    } else {
        from_on(times, time, i + 1)
    }
}

/// How far apart two moments are.
pub open spec fn apart(a: int, b: int) -> int {
    if a < b {
        b - a
    } else {
        a - b
    }
}

/// Of times in order, the place of the one nearest to this: the last before
/// it or the first that is not, the former where they are as near.
pub open spec fn nearest_place(times: Seq<i64>, time: int) -> int {
    let i = from_on(times, time, 0);
    if i == 0 {
        0
    } else if i >= times.len() {
        times.len() - 1
    } else if apart(times[i - 1] as int, time) <= apart(times[i] as int, time) {
        i - 1
    } else {
        i
    }
}

pub proof fn lemma_from_on(times: Seq<i64>, time: int, i: int)
    requires
        0 <= i <= times.len(),
    ensures
        i <= from_on(times, time, i) <= times.len(),
        forall|k: int| i <= k < from_on(times, time, i) ==> times[k] < time,
        from_on(times, time, i) < times.len() ==> times[from_on(times, time, i)] >= time,
    decreases times.len() - i,
{
    if i < times.len() && times[i] < time {
        lemma_from_on(times, time, i + 1);
    }
}

/// Of times in order, none is nearer than the one that is picked.
pub proof fn law_the_nearest_is_picked(times: Seq<i64>, time: int, k: int)
    requires
        in_order(times),
        0 <= k < times.len(),
    ensures
        0 <= nearest_place(times, time) < times.len(),
        apart(times[nearest_place(times, time)] as int, time) <= apart(times[k] as int, time),
{
    lemma_from_on(times, time, 0);
    let i = from_on(times, time, 0);
    if k < i {
        assert(times[k] <= times[i - 1]);
        assert(times[i - 1] < time);
    } else {
        assert(times[i] <= times[k]);
        assert(times[i] >= time);
    }
    if i > 0 {
        assert(times[i - 1] < time);
    }
}

/// How far from a scene a moment may be and still be at it.
pub const AT_SCENE: i64 = 705_600;

impl Track {
    /// The held picture nearest `time`, for a hover preview.
    pub fn nearest(&self, time: i64) -> (r: Option<&Thumb>)
        requires
            in_order(thumb_times(self.thumbs@)),
            in_reach(time as int),
            forall|i: int| 0 <= i < self.thumbs@.len() ==> in_reach((#[trigger] self.thumbs@[i]).time as int),
        ensures
            r is Some <==> self.thumbs@.len() > 0,
            r matches Some(t) ==> *t == self.thumbs@[nearest_place(
                thumb_times(self.thumbs@),
                time as int,
            )],
    {
        let len: usize = self.thumbs.len();
        if len == 0 {
            return None;
        }
        let ghost times = thumb_times(self.thumbs@);
        let mut i: usize = 0;
        while i < len && self.thumbs[i].time < time
            invariant
                i <= len,
                len == self.thumbs@.len(),
                times == thumb_times(self.thumbs@),
                from_on(times, time as int, 0) == from_on(times, time as int, i as int),
            decreases len - i,
        {
            assert(times[i as int] == self.thumbs@[i as int].time);
            i += 1;
        }
        proof {
            if i < len {
                assert(times[i as int] == self.thumbs@[i as int].time);
            }
            if i > 0 {
                assert(times[i - 1] == self.thumbs@[i - 1].time);
            }
        }
        let at: usize = if i == 0 {
            0
        } else if i == len {
            len - 1
        } else if distant(self.thumbs[i - 1].time, time) <= distant(self.thumbs[i].time, time) {
            i - 1
        } else {
            i
        };
        Some(&self.thumbs[at])
    }

    /// The first scene after `time`.
    pub fn scene_after(&self, time: i64) -> (r: Option<i64>)
        requires
            in_reach(time as int),
        ensures
            match r {
                Some(s) => exists|i: int|
                    0 <= i < self.scenes@.len() && #[trigger] self.scenes@[i] == s && s > time
                        + AT_SCENE && forall|k: int|
                        0 <= k < i ==> #[trigger] self.scenes@[k] <= time + AT_SCENE,
                None => forall|k: int|
                    0 <= k < self.scenes@.len() ==> #[trigger] self.scenes@[k] <= time + AT_SCENE,
            },
    {
        let mut i: usize = 0;
        while i < self.scenes.len()
            invariant
                i <= self.scenes@.len(),
                in_reach(time as int),
                forall|k: int| 0 <= k < i ==> #[trigger] self.scenes@[k] <= time + AT_SCENE,
            decreases self.scenes@.len() - i,
        {
            let s: i64 = self.scenes[i];
            if s > time + AT_SCENE {
                return Some(s);
            }
            i += 1;
        }
        None
    }

    /// The last scene before `time`.
    pub fn scene_before(&self, time: i64) -> (r: Option<i64>)
        requires
            in_reach(time as int),
        ensures
            match r {
                Some(s) => exists|i: int|
                    0 <= i < self.scenes@.len() && #[trigger] self.scenes@[i] == s && s < time
                        - AT_SCENE && forall|k: int|
                        i < k < self.scenes@.len() ==> #[trigger] self.scenes@[k] >= time
                            - AT_SCENE,
                None => forall|k: int|
                    0 <= k < self.scenes@.len() ==> #[trigger] self.scenes@[k] >= time - AT_SCENE,
            },
    {
        let mut i: usize = self.scenes.len();
        while i > 0
            invariant
                i <= self.scenes@.len(),
                in_reach(time as int),
                forall|k: int|
                    i <= k < self.scenes@.len() ==> #[trigger] self.scenes@[k] >= time - AT_SCENE,
            decreases i,
        {
            i -= 1;
            let s: i64 = self.scenes[i];
            if s < time - AT_SCENE {
                return Some(s);
            }
        }
        None
    }
}

fn distant(a: i64, b: i64) -> (r: i64)
    requires
        in_reach(a as int),
        in_reach(b as int),
    ensures
        r == apart(a as int, b as int),
{
    if a < b {
        b - a
    } else {
        a - b
    }
}

/// Width and height of the picture signature, in cells.
pub const SIG_W: usize = 16;

pub const SIG_H: usize = 9;

pub const SIG: usize = 144;

/// What every fourth pixel of a row comes to, from one column up to another.
pub open spec fn row_sum(data: Seq<u8>, row: int, x: int, until: int) -> nat
    decreases until + 4 - x,
{
    if x >= until {
        0
    } else {
        data[row + x] as nat + row_sum(data, row, x + 4, until)
    }
}

/// What every fourth pixel of every fourth row comes to, from one row up to
/// another.
pub open spec fn cell_sum(
    data: Seq<u8>,
    stride: int,
    y: int,
    below: int,
    x: int,
    until: int,
) -> nat
    decreases below + 4 - y,
{
    if y >= below {
        0
    } else {
        row_sum(data, y * stride, x, until) + cell_sum(data, stride, y + 4, below, x, until)
    }
}

/// How many numbers there are from one up to another, every fourth of them.
pub open spec fn steps(from: int, until: int) -> int {
    if from < until {
        (until - from + 3) / 4
    } else {
        0
    }
}

/// Where a cell starts, of so many along so many pixels.
pub open spec fn cell_from(c: int, size: int, cells: int) -> int {
    c * size / cells
}

/// Where it ends: where the next starts, and never where it starts itself.
pub open spec fn cell_until(c: int, size: int, cells: int) -> int {
    later((c + 1) * size / cells, cell_from(c, size, cells) + 1)
}

/// Whether the pixels of a picture are all there.
pub open spec fn all_there(frame: Luma) -> bool {
    frame.width > 0 && frame.height > 0 && frame.data@.len() >= (frame.height - 1) * frame.stride
        + frame.width
}

/// What a cell of the signature comes to: the average of every fourth pixel of
/// every fourth row in it.
pub open spec fn cell(frame: Luma, k: int) -> int {
    let (cx, cy) = (k % SIG_W as int, k / SIG_W as int);
    let (x0, x1) = (
        cell_from(cx, frame.width as int, SIG_W as int),
        cell_until(cx, frame.width as int, SIG_W as int),
    );
    let (y0, y1) = (
        cell_from(cy, frame.height as int, SIG_H as int),
        cell_until(cy, frame.height as int, SIG_H as int),
    );
    cell_sum(frame.data@, frame.stride as int, y0, y1, x0, x1) as int / (steps(y0, y1) * steps(
        x0,
        x1,
    ))
}

/// A picture reduced to a grid of block averages of its luma; all nought where
/// its pixels are not all there.
pub open spec fn signature_of(frame: Luma) -> Seq<u8> {
    Seq::new(
        SIG as nat,
        |k: int|
            if all_there(frame) {
                cell(frame, k) as u8
            } else {
                0
            },
    )
}

/// A cell is in the picture, and has something in it.
proof fn lemma_cell(c: int, size: int, cells: int)
    requires
        0 <= c < cells,
        0 < size,
    ensures
        0 <= cell_from(c, size, cells) < cell_until(c, size, cells) <= size,
{
    let (a, b) = (c * size / cells, (c + 1) * size / cells);
    assert(0 <= a < size && b <= size) by (nonlinear_arith)
        requires
            a == c * size / cells,
            b == (c + 1) * size / cells,
            0 <= c < cells,
            0 < size,
    ;
}

/// A row adds no more than a byte a pixel.
proof fn lemma_row_bound(data: Seq<u8>, row: int, x: int, until: int)
    ensures
        row_sum(data, row, x, until) <= 255 * steps(x, until),
    decreases until + 4 - x,
{
    if x < until {
        lemma_row_bound(data, row, x + 4, until);
    }
}

fn sum_row(data: &[u8], row: usize, from: usize, until: usize) -> (r: u64)
    requires
        from <= until <= 0x1000_0000,
        row + until <= data@.len(),
    ensures
        r == row_sum(data@, row as int, from as int, until as int),
        r <= 255 * steps(from as int, until as int),
{
    let len: usize = data.len();
    let mut sum: u64 = 0;
    let mut x: usize = from;
    while x < until
        invariant
            from <= x <= until + 3,
            until <= 0x1000_0000,
            len == data@.len(),
            row + until <= len,
            sum + row_sum(data@, row as int, x as int, until as int) == row_sum(
                data@,
                row as int,
                from as int,
                until as int,
            ),
            sum <= 255 * x,
        decreases until + 3 - x,
    {
        sum = sum + data[row + x] as u64;
        x = x + 4;
    }
    proof {
        lemma_row_bound(data@, row as int, from as int, until as int);
    }
    sum
}

/// A cell adds no more than a byte a pixel.
proof fn lemma_cell_bound(data: Seq<u8>, stride: int, y: int, below: int, x: int, until: int)
    ensures
        cell_sum(data, stride, y, below, x, until) <= 255 * (steps(y, below) * steps(x, until)),
    decreases below + 4 - y,
{
    if y < below {
        lemma_row_bound(data, y * stride, x, until);
        lemma_cell_bound(data, stride, y + 4, below, x, until);
        let (a, b) = (steps(y + 4, below), steps(x, until));
        assert(steps(y, below) == a + 1);
        assert((a + 1) * b == a * b + b) by (nonlinear_arith);
    }
}

fn sum_cell(
    data: &[u8],
    stride: usize,
    y0: usize,
    y1: usize,
    x0: usize,
    x1: usize,
) -> (r: u64)
    requires
        y0 < y1 <= 0x1000_0000,
        x0 < x1 <= 0x1000_0000,
        (y1 - 1) * stride + x1 <= data@.len(),
    ensures
        r == cell_sum(data@, stride as int, y0 as int, y1 as int, x0 as int, x1 as int),
{
    let ghost (gs, gx, gu) = (stride as int, x0 as int, x1 as int);
    let len: usize = data.len();
    let mut sum: u64 = 0;
    let mut y: usize = y0;
    while y < y1
        invariant
            y0 <= y <= y1 + 3,
            y1 <= 0x1000_0000,
            x0 < x1 <= 0x1000_0000,
            gs == stride,
            gx == x0,
            gu == x1,
            len == data@.len(),
            (y1 - 1) * stride + x1 <= len,
            sum + cell_sum(data@, gs, y as int, y1 as int, gx, gu) == cell_sum(
                data@,
                gs,
                y0 as int,
                y1 as int,
                gx,
                gu,
            ),
            sum <= 0x4_0000_0000 * y,
        decreases y1 + 3 - y,
    {
        assert(0 <= y * stride <= (y1 - 1) * stride) by (nonlinear_arith)
            requires
                0 <= y <= y1 - 1,
                0 <= stride,
        ;
        sum = sum + sum_row(data, y * stride, x0, x1);
        y = y + 4;
    }
    sum
}

/// Reduce a picture to a grid of block averages of its luma.
///
/// Coarse on purpose: a scene change moves whole regions of the picture, and
/// anything finer would answer camera shake as loudly. And every fourth pixel
/// is enough: the block mean is all that is wanted, and reading them all costs
/// sixteen times as much.
pub fn signature(frame: &Luma) -> (out: Vec<u8>)
    requires
        frame.width <= 0x100_0000,
        frame.height <= 0x100_0000,
    ensures
        out@ == signature_of(*frame),
{
    let (w, h): (usize, usize) = (frame.width, frame.height);
    let stride: usize = frame.stride;
    let mut there: bool = false;
    if w > 0 && h > 0 {
        proof {
            assert(0 <= (h - 1) * stride <= 0x100_0000 * 0xFFFF_FFFF_FFFF_FFFF) by (nonlinear_arith)
                requires
                    0 <= h - 1 <= 0x100_0000,
                    0 <= stride <= 0xFFFF_FFFF_FFFF_FFFF,
            ;
        }
        let least: u128 = (h as u128 - 1) * (stride as u128) + w as u128;
        there = frame.data.len() as u128 >= least;
    }
    assert(there == all_there(*frame));
    let mut out: Vec<u8> = Vec::new();
    let mut k: usize = 0;
    while k < SIG
        invariant
            k <= SIG,
            w == frame.width <= 0x100_0000,
            h == frame.height <= 0x100_0000,
            stride == frame.stride,
            there == all_there(*frame),
            out@ =~= signature_of(*frame).take(k as int),
        decreases SIG - k,
    {
        let mut v: u8 = 0;
        if there {
            let (cx, cy): (usize, usize) = (k % SIG_W, k / SIG_W);
            proof {
                lemma_cell(cx as int, w as int, SIG_W as int);
                lemma_cell(cy as int, h as int, SIG_H as int);
            }
            let x0: usize = cx * w / SIG_W;
            let next_x: usize = (cx + 1) * w / SIG_W;
            let x1: usize = if next_x >= x0 + 1 {
                next_x
            } else {
                x0 + 1
            };
            let y0: usize = cy * h / SIG_H;
            let next_y: usize = (cy + 1) * h / SIG_H;
            let y1: usize = if next_y >= y0 + 1 {
                next_y
            } else {
                y0 + 1
            };
            proof {
                assert((y1 - 1) * stride <= (h - 1) * stride) by (nonlinear_arith)
                    requires
                        0 <= y1 - 1 <= h - 1,
                        0 <= stride,
                ;
                lemma_cell_bound(
                    frame.data@,
                    stride as int,
                    y0 as int,
                    y1 as int,
                    x0 as int,
                    x1 as int,
                );
                let (a, b) = (steps(y0 as int, y1 as int), steps(x0 as int, x1 as int));
                assert(1 <= a * b && a * b <= 0x1_0000_0000_0000) by (nonlinear_arith)
                    requires
                        1 <= a <= 0x100_0000,
                        1 <= b <= 0x100_0000,
                ;
            }
            let sum: u64 = sum_cell(frame.data, stride, y0, y1, x0, x1);
            let many: u64 = ((y1 - y0 + 3) / 4) as u64 * ((x1 - x0 + 3) / 4) as u64;
            proof {
                let c = steps(y0 as int, y1 as int) * steps(x0 as int, x1 as int);
                assert(many == c);
                assert(sum as int / c <= 255) by (nonlinear_arith)
                    requires
                        0 <= sum <= 255 * c,
                        c >= 1,
                ;
            }
            v = (sum / many) as u8;
        }
        out.push(v);
        k += 1;
    }
    out
}

/// How far apart the first `n` cells of two pictures are.
pub open spec fn cells_apart(a: Seq<u8>, b: Seq<u8>, n: int) -> int
    decreases n,
{
    if n <= 0 {
        0
    } else {
        cells_apart(a, b, n - 1) + apart(a[n - 1] as int, b[n - 1] as int)
    }
}

/// How different two pictures are: from nought to [`DIFFERENT`].
pub open spec fn difference(a: Seq<u8>, b: Seq<u8>) -> int {
    cells_apart(a, b, SIG as int) * 1_000_000
}

/// How different two pictures are.
pub fn distance(a: &[u8], b: &[u8]) -> (r: i64)
    requires
        a@.len() == SIG,
        b@.len() == SIG,
    ensures
        r == difference(a@, b@),
        0 <= r <= DIFFERENT,
{
    let mut sum: i64 = 0;
    let mut k: usize = 0;
    while k < SIG
        invariant
            k <= SIG,
            a@.len() == SIG,
            b@.len() == SIG,
            sum == cells_apart(a@, b@, k as int),
            0 <= sum <= 255 * k,
        decreases SIG - k,
    {
        sum = sum + if a[k] < b[k] {
            (b[k] - a[k]) as i64
        } else {
            (a[k] - b[k]) as i64
        };
        k += 1;
    }
    sum * 1_000_000
}

} // verus!
