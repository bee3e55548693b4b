//! What never moves in a corner: the template a logo is looked for with.
use crate::logo::cluster::{largest_cluster, largest_mark};
use crate::rank::{law_one_value_stands_at_a_place, ranked, stands};
use vstd::prelude::*;

verus! {

/// One corner of the frame.
#[derive(Debug, Clone, Copy, PartialEq, Eq, Structural)]
pub enum Corner {
    TopLeft,
    TopRight,
    BottomLeft,
    BottomRight,
}

impl Corner {
    /// Where a corner of this size starts in a frame of that size.
    pub open spec fn start(self, w: int, h: int, cw: int, ch: int) -> (int, int) {
        match self {
            Corner::TopLeft => (0, 0),
            Corner::TopRight => (w - cw, 0),
            Corner::BottomLeft => (0, h - ch),
            Corner::BottomRight => (w - cw, h - ch),
        }
    }

    /// The corners, in the order they are looked at.
    pub open spec fn nth(k: int) -> Corner {
        if k == 0 {
            Corner::TopLeft
        } else if k == 1 {
            Corner::TopRight
        } else if k == 2 {
            Corner::BottomLeft
        } else {
            Corner::BottomRight
        }
    }

    /// The corners, in the order they are looked at.
    pub fn at(k: usize) -> (r: Corner)
        ensures
            r == Corner::nth(k as int),
    {
        if k == 0 {
            Corner::TopLeft
        } else if k == 1 {
            Corner::TopRight
        } else if k == 2 {
            Corner::BottomLeft
        } else {
            Corner::BottomRight
        }
    }

    /// Where a corner of this size starts in a frame of that size.
    pub fn origin(self, w: usize, h: usize, cw: usize, ch: usize) -> (r: (usize, usize))
        requires
            cw <= w,
            ch <= h,
        ensures
            (r.0 as int, r.1 as int) == self.start(w as int, h as int, cw as int, ch as int),
    {
        match self {
            Corner::TopLeft => (0, 0),
            Corner::TopRight => (w - cw, 0),
            Corner::BottomLeft => (0, h - ch),
            Corner::BottomRight => (w - cw, h - ch),
        }
    }
}

/// The brightness of one decoded picture.
pub struct Luma<'a> {
    pub width: usize,
    pub height: usize,
    /// How many bytes a row takes.
    pub stride: usize,
    pub data: &'a [u8],
}

impl<'a> Luma<'a> {
    /// Whether the pixels are all there: every row, though the last need not
    /// take as many bytes as the others.
    pub open spec fn wf(&self) -> bool {
        self.height > 0 ==> (self.height - 1) * self.stride + self.width <= self.data@.len()
    }

    /// Where one pixel of a corner stands in the data.
    pub open spec fn place(&self, corner: Corner, cw: int, ch: int, i: int) -> int {
        let (ox, oy) = corner.start(self.width as int, self.height as int, cw, ch);
        (oy + i / cw) * self.stride + ox + i % cw
    }
}

/// Some pixels of a corner.
pub open spec fn sampled(frame: Luma, corner: Corner, cw: int, ch: int, wanted: Seq<usize>) -> Seq<
    u8,
> {
    Seq::new(wanted.len(), |j: int| frame.data@[frame.place(corner, cw, ch, wanted[j] as int)])
}

/// A pixel of a corner is in the data.
proof fn lemma_place(frame: Luma, corner: Corner, cw: int, ch: int, i: int)
    requires
        frame.wf(),
        0 < cw <= frame.width,
        0 <= ch <= frame.height,
        0 <= i < cw * ch,
    ensures
        ({
            let (ox, oy) = corner.start(frame.width as int, frame.height as int, cw, ch);
            &&& 0 <= i / cw < ch
            &&& 0 <= i % cw < cw
            &&& 0 <= (oy + i / cw) * frame.stride
            &&& (oy + i / cw) * frame.stride + ox + i % cw < frame.data@.len()
        }),
{
    let (ox, oy) = corner.start(frame.width as int, frame.height as int, cw, ch);
    assert(0 <= i / cw < ch) by (nonlinear_arith)
        requires
            0 <= i < cw * ch,
            cw > 0,
    ;
    vstd::arithmetic::div_mod::lemma_mod_bound(i, cw);
    let (y, s) = (oy + i / cw, frame.stride as int);
    assert(0 <= y * s && y * s <= (frame.height - 1) * s) by (nonlinear_arith)
        requires
            0 <= y < frame.height,
            0 <= s,
    ;
}

/// The handful of samples a corner's score is actually worked out from.
///
/// The correlation is taken over the mask alone -- a few hundred pixels of a
/// region of a hundred thousand -- and the high pass in front of it reaches
/// one pixel each way. So the whole of what the second pass needs of a corner
/// is the mask and the ring around it.
pub fn sample(frame: &Luma, corner: Corner, cw: usize, ch: usize, wanted: &[usize]) -> (out: Vec<u8>)
    requires
        frame.wf(),
        0 < cw <= frame.width,
        ch <= frame.height,
        forall|j: int| 0 <= j < wanted@.len() ==> #[trigger] wanted@[j] < cw * ch,
    ensures
        out@ == sampled(*frame, corner, cw as int, ch as int, wanted@),
{
    let (ox, oy): (usize, usize) = corner.origin(frame.width, frame.height, cw, ch);
    let len: usize = frame.data.len();
    let mut out: Vec<u8> = Vec::new();
    let mut j: usize = 0;
    while j < wanted.len()
        invariant
            j <= wanted@.len(),
            frame.wf(),
            len == frame.data@.len(),
            0 < cw <= frame.width,
            ch <= frame.height,
            (ox as int, oy as int) == corner.start(
                frame.width as int,
                frame.height as int,
                cw as int,
                ch as int,
            ),
            forall|k: int| 0 <= k < wanted@.len() ==> #[trigger] wanted@[k] < cw * ch,
            out@ =~= sampled(*frame, corner, cw as int, ch as int, wanted@).take(j as int),
        decreases wanted@.len() - j,
    {
        let i: usize = wanted[j];
        assert(wanted@[j as int] < cw * ch);
        proof {
            lemma_place(*frame, corner, cw as int, ch as int, i as int);
        }
        out.push(frame.data[(oy + i / cw) * frame.stride + ox + i % cw]);
        j += 1;
    }
    out
}

/// Every pixel of a region, in order.
pub open spec fn whole_region(n: int) -> Seq<usize> {
    Seq::new(n as nat, |i: int| i as usize)
}

/// Pull one corner's luma out of a decoded frame.
pub fn crop(frame: &Luma, corner: Corner, cw: usize, ch: usize) -> (out: Vec<u8>)
    requires
        frame.wf(),
        0 < cw <= frame.width,
        ch <= frame.height,
        cw * ch <= usize::MAX,
    ensures
        out@ == sampled(*frame, corner, cw as int, ch as int, whole_region(cw * ch)),
{
    let n: usize = cw * ch;
    let mut all: Vec<usize> = Vec::new();
    let mut i: usize = 0;
    while i < n
        invariant
            i <= n,
            all@ =~= whole_region(n as int).take(i as int),
        decreases n - i,
    {
        all.push(i);
        i += 1;
    }
    assert(all@ =~= whole_region(n as int));
    sample(frame, corner, cw, ch, all.as_slice())
}

/// All four corners of one picture, at full size; `None` where the picture is
/// smaller than a corner. What the first pass averages.
pub fn corners_of(frame: &Luma, cw: usize, ch: usize) -> (r: Option<Vec<Vec<u8>>>)
    requires
        frame.wf(),
        0 < cw,
        cw * ch <= usize::MAX,
    ensures
        r is None <==> frame.width < cw || frame.height < ch,
        r matches Some(all) ==> all@.len() == 4 && forall|k: int|
            0 <= k < 4 ==> (#[trigger] all@[k])@ == sampled(
                *frame,
                Corner::nth(k),
                cw as int,
                ch as int,
                whole_region(cw * ch),
            ),
{
    if frame.width < cw || frame.height < ch {
        return None;
    }
    let mut all: Vec<Vec<u8>> = Vec::new();
    let mut k: usize = 0;
    while k < 4
        invariant
            k <= 4,
            frame.wf(),
            0 < cw <= frame.width,
            ch <= frame.height,
            cw * ch <= usize::MAX,
            all@.len() == k,
            forall|j: int|
                0 <= j < k ==> (#[trigger] all@[j])@ == sampled(
                    *frame,
                    Corner::nth(j),
                    cw as int,
                    ch as int,
                    whole_region(cw * ch),
                ),
        decreases 4 - k,
    {
        all.push(crop(frame, Corner::at(k), cw, ch));
        k += 1;
    }
    Some(all)
}

/// The wanted samples of all four corners of one picture; `None` where the
/// picture is smaller than a corner.
pub fn wanted_of(frame: &Luma, cw: usize, ch: usize, wanted: &[Vec<usize>]) -> (r: Option<
    Vec<Vec<u8>>,
>)
    requires
        frame.wf(),
        0 < cw,
        wanted@.len() == 4,
        forall|k: int, j: int|
            0 <= k < 4 && 0 <= j < wanted@[k]@.len() ==> #[trigger] wanted@[k]@[j] < cw * ch,
    ensures
        r is None <==> frame.width < cw || frame.height < ch,
        r matches Some(all) ==> all@.len() == 4 && forall|k: int|
            0 <= k < 4 ==> (#[trigger] all@[k])@ == sampled(
                *frame,
                Corner::nth(k),
                cw as int,
                ch as int,
                wanted@[k]@,
            ),
{
    if frame.width < cw || frame.height < ch {
        return None;
    }
    let mut all: Vec<Vec<u8>> = Vec::new();
    let mut k: usize = 0;
    while k < 4
        invariant
            k <= 4,
            frame.wf(),
            0 < cw <= frame.width,
            ch <= frame.height,
            wanted@.len() == 4,
            forall|i: int, j: int|
                0 <= i < 4 && 0 <= j < wanted@[i]@.len() ==> #[trigger] wanted@[i]@[j] < cw * ch,
            all@.len() == k,
            forall|j: int|
                0 <= j < k ==> (#[trigger] all@[j])@ == sampled(
                    *frame,
                    Corner::nth(j),
                    cw as int,
                    ch as int,
                    wanted@[j]@,
                ),
        decreases 4 - k,
    {
        all.push(sample(frame, Corner::at(k), cw, ch, wanted[k].as_slice()));
        k += 1;
    }
    Some(all)
}

/// What the pictures of a pass add up to in one corner, pixel by pixel, and
/// how far apart they stand.
pub struct Averages {
    /// For each corner, the sum of each of its pixels.
    pub sums: Vec<Vec<u64>>,
    /// How many pictures there were.
    pub count: u64,
    /// How far apart the pictures stand. Taken from the pictures themselves
    /// rather than from the count over the length: the pass may have sampled
    /// the recording in runs.
    pub gaps: Vec<i64>,
    /// When the last of them was.
    pub previous: Option<i64>,
}

/// The most pictures a template is built from: more than any recording holds.
pub const PICTURES_MAX: u64 = 0x40_0000;

impl Averages {
    /// How many pixels the region has.
    pub open spec fn size(&self) -> int {
        self.sums@[0]@.len() as int
    }

    /// Whether the sums are all of one region, and no more than so many
    /// pictures can come to.
    pub open spec fn wf(&self) -> bool {
        &&& self.sums@.len() == 4
        &&& self.count <= PICTURES_MAX
        &&& self.previous is Some ==> crate::time::in_reach(self.previous->0 as int)
        &&& forall|k: int| 0 <= k < 4 ==> (#[trigger] self.sums@[k])@.len() == self.size()
        &&& forall|k: int, i: int|
            0 <= k < 4 && 0 <= i < self.size() ==> #[trigger] self.sums@[k]@[i] <= 255 * self.count
    }

    /// Nothing added up yet.
    pub fn new(n: usize) -> (a: Averages)
        ensures
            a.wf(),
            a.size() == n,
            a.count == 0,
            a.gaps@.len() == 0,
            a.previous is None,
            forall|k: int, i: int| 0 <= k < 4 && 0 <= i < n ==> #[trigger] a.sums@[k]@[i] == 0,
    {
        let mut sums: Vec<Vec<u64>> = Vec::new();
        let mut k: usize = 0;
        while k < 4
            invariant
                k <= 4,
                sums@.len() == k,
                forall|c: int| 0 <= c < k ==> (#[trigger] sums@[c])@.len() == n,
                forall|c: int, i: int| 0 <= c < k && 0 <= i < n ==> #[trigger] sums@[c]@[i] == 0,
            decreases 4 - k,
        {
            let mut one: Vec<u64> = Vec::new();
            one.resize(n, 0);
            sums.push(one);
            k += 1;
        }
        Averages { sums, count: 0, gaps: Vec::new(), previous: None }
    }

    /// Add one picture's corners up, and how far it is from the one before.
    pub fn take(&mut self, t: i64, corners: &[Vec<u8>])
        requires
            old(self).wf(),
            old(self).count < PICTURES_MAX,
            corners@.len() == 4,
            forall|k: int| 0 <= k < 4 ==> (#[trigger] corners@[k])@.len() == old(self).size(),
            crate::time::in_reach(t as int),
        ensures
            final(self).wf(),
            final(self).size() == old(self).size(),
            final(self).count == old(self).count + 1,
            final(self).previous == Some(t),
            final(self).gaps@ == (if old(self).previous is Some && t > old(self).previous->0 {
                old(self).gaps@.push((t - old(self).previous->0) as i64)
            } else {
                old(self).gaps@
            }),
            forall|k: int, i: int|
                0 <= k < 4 && 0 <= i < old(self).size() ==> #[trigger] final(self).sums@[k]@[i] == old(
                    self,
                ).sums@[k]@[i] + corners@[k]@[i],
    {
        let ghost n = self.size();
        let mut k: usize = 0;
        while k < 4
            invariant
                k <= 4,
                n == old(self).size(),
                corners@.len() == 4,
                forall|c: int| 0 <= c < 4 ==> (#[trigger] corners@[c])@.len() == n,
                self.sums@.len() == 4,
                old(self).wf(),
                self.count == old(self).count,
                self.gaps == old(self).gaps,
                self.previous == old(self).previous,
                self.count < PICTURES_MAX,
                forall|c: int| 0 <= c < 4 ==> (#[trigger] self.sums@[c])@.len() == n,
                forall|c: int, i: int|
                    0 <= c < k && 0 <= i < n ==> #[trigger] self.sums@[c]@[i] == old(
                        self,
                    ).sums@[c]@[i] + corners@[c]@[i],
                forall|c: int| k <= c < 4 ==> #[trigger] self.sums@[c] == old(self).sums@[c],
            decreases 4 - k,
        {
            let one: &mut Vec<u64> = &mut self.sums[k];
            let ghost was = one@;
            assert(was == old(self).sums@[k as int]@);
            let corner: &Vec<u8> = &corners[k];
            let mut i: usize = 0;
            while i < corner.len()
                invariant
                    i <= corner@.len(),
                    corner@.len() == n,
                    was.len() == n,
                    one@.len() == n,
                    forall|j: int| 0 <= j < n ==> was[j] <= 255 * PICTURES_MAX,
                    forall|j: int| 0 <= j < i ==> #[trigger] one@[j] == was[j] + corner@[j],
                    forall|j: int| i <= j < n ==> #[trigger] one@[j] == was[j],
                decreases corner@.len() - i,
            {
                let sum: u64 = one[i] + corner[i] as u64;
                one.set(i, sum);
                i += 1;
            }
            k += 1;
        }
        if let Some(before) = self.previous {
            if t > before {
                self.gaps.push(t - before);
            }
        }
        self.previous = Some(t);
        self.count = self.count + 1;
    }
}

/// Whether a pixel is not on the border of a region.
pub open spec fn interior(i: int, w: int, h: int) -> bool {
    1 <= i % w < w - 1 && 1 <= i / w < h - 1
}

/// How far a pixel stands out from the four beside it, times four.
pub open spec fn stands_out(s: Seq<u64>, w: int, h: int, i: int) -> int {
    if interior(i, w, h) {
        4 * s[i] - (s[i - 1] + s[i + 1] + s[i - w] + s[i + w])
    } else {
        0
    }
}

/// What stands out of sums, pixel by pixel.
pub open spec fn high_passed(s: Seq<u64>, w: int, h: int) -> Seq<int> {
    Seq::new(s.len(), |i: int| stands_out(s, w, h, i))
}

/// Numbers, as what they are.
pub open spec fn numbers(v: Seq<i64>) -> Seq<int> {
    v.map_values(|x: i64| x as int)
}

/// A pixel that is not on the border has one on each side.
proof fn lemma_interior(i: int, w: int, h: int)
    requires
        0 < w,
        0 <= i < w * h,
        interior(i, w, h),
    ensures
        w <= i < w * h - w,
        1 <= i,
        i + 1 < w * h,
{
    vstd::arithmetic::div_mod::lemma_fundamental_div_mod(i, w);
    let (y, x) = (i / w, i % w);
    assert(w * y >= w && w * y + w <= w * h - w) by (nonlinear_arith)
        requires
            1 <= y <= h - 2,
            0 < w,
    ;
}

/// How far each pixel of a region stands out from the four beside it. The
/// average over the pictures is that over four times how many there were,
/// which is the same for every pixel and so tells none from another.
pub fn highpass(s: &[u64], w: usize, h: usize) -> (out: Vec<i64>)
    requires
        0 < w,
        w * h == s@.len(),
        forall|i: int| 0 <= i < s@.len() ==> #[trigger] s@[i] <= 255 * PICTURES_MAX,
    ensures
        numbers(out@) == high_passed(s@, w as int, h as int),
{
    let n: usize = s.len();
    let mut out: Vec<i64> = Vec::new();
    let mut i: usize = 0;
    while i < n
        invariant
            i <= n,
            n == s@.len(),
            0 < w,
            w * h == n,
            forall|k: int| 0 <= k < s@.len() ==> #[trigger] s@[k] <= 255 * PICTURES_MAX,
            numbers(out@) =~= high_passed(s@, w as int, h as int).take(i as int),
        decreases n - i,
    {
        let (x, y): (usize, usize) = (i % w, i / w);
        let mut v: i64 = 0;
        if x >= 1 && w - x > 1 && y >= 1 && h > y && h - y > 1 {
            proof {
                lemma_interior(i as int, w as int, h as int);
            }
            assert(s@[i - 1] <= 255 * PICTURES_MAX && s@[i + 1] <= 255 * PICTURES_MAX);
            assert(s@[i - w] <= 255 * PICTURES_MAX && s@[i + w] <= 255 * PICTURES_MAX);
            v = 4 * s[i] as i64 - (s[i - 1] as i64 + s[i + 1] as i64 + s[i - w] as i64 + s[i
                + w] as i64);
        }
        let ghost before = numbers(out@);
        out.push(v);
        assert(numbers(out@) =~= before.push(v as int));
        i += 1;
    }
    out
}

/// How much of the region's own border the mask may not be drawn from.
///
/// Four pixels is enough to clear the step between a pillar-box bar and the
/// picture, which is what the mask latched onto otherwise. No station sets
/// its logo that tight against the edge of the frame.
pub const MARGIN: usize = 4;

/// Whether a pixel is clear of the border.
pub open spec fn clear_of_border(i: int, w: int, h: int) -> bool {
    MARGIN <= i % w < w - MARGIN && MARGIN <= i / w < h - MARGIN
}

/// How large a number is.
pub open spec fn size_of_number(v: i64) -> i64 {
    if v < 0 {
        (-v) as i64
    } else {
        v
    }
}

/// How strongly the pixels among the first `n` that are clear of the border
/// stand out.
pub open spec fn sizes(t: Seq<i64>, w: int, h: int, n: int) -> Seq<i64>
    decreases n,
{
    if n <= 0 {
        Seq::empty()
    } else if clear_of_border(n - 1, w, h) {
        sizes(t, w, h, n - 1).push(size_of_number(t[n - 1]))
    } else {
        sizes(t, w, h, n - 1)
    }
}

/// The pixels among the first `n` that are clear of the border and stand out
/// at least so much.
pub open spec fn strong(t: Seq<i64>, w: int, h: int, cutoff: int, n: int) -> Seq<usize>
    decreases n,
{
    if n <= 0 {
        Seq::empty()
    } else if clear_of_border(n - 1, w, h) && size_of_number(t[n - 1]) >= cutoff {
        strong(t, w, h, cutoff, n - 1).push((n - 1) as usize)
    } else {
        strong(t, w, h, cutoff, n - 1)
    }
}

/// At which place the cutoff stands, of so many values in order: so many are
/// greater, or as many as there are.
pub open spec fn cut_place(len: int, keep: int) -> int {
    if keep < len {
        len - 1 - keep
    } else {
        0
    }
}

/// Whether these are the pixels kept at a cutoff that `keep` others stand out
/// more than.
pub open spec fn cut_at(t: Seq<i64>, w: int, h: int, keep: int, out: Seq<usize>, cutoff: int) -> bool {
    let all = sizes(t, w, h, t.len() as int);
    &&& stands(all, cut_place(all.len() as int, keep), cutoff)
    &&& out == strong(t, w, h, cutoff, t.len() as int)
}

/// Whether these are the pixels a template keeps: those that stand out at
/// least as much as the one that `keep` others stand out more than, or as much
/// as the least of them where there are not so many.
pub open spec fn strongest(t: Seq<i64>, w: int, h: int, keep: int, out: Seq<usize>) -> bool {
    if sizes(t, w, h, t.len() as int).len() == 0 {
        out.len() == 0
    } else {
        exists|cutoff: int| cut_at(t, w, h, keep, out, cutoff)
    }
}

/// The pixels a template keeps.
///
/// A station logo is small, so a fixed count focuses on it however large the
/// search region is -- a percentage of a big region is mostly the noise around
/// it. The picture's own edge stands as still as any logo does, and it is the
/// strongest thing in the region, so the border is left out.
pub fn pick(t: &[i64], w: usize, h: usize, keep: usize) -> (out: Vec<usize>)
    requires
        0 < w,
        w * h == t@.len(),
        forall|i: int| 0 <= i < t@.len() ==> #[trigger] t@[i] > i64::MIN,
    ensures
        strongest(t@, w as int, h as int, keep as int, out@),
        forall|k: int| 0 <= k < out@.len() ==> #[trigger] out@[k] < w * h,
        forall|k: int|
            0 <= k < out@.len() ==> #[trigger] clear_of_border(out@[k] as int, w as int, h as int),
{
    let n: usize = t.len();
    let ghost (gw, gh) = (w as int, h as int);
    let mut all: Vec<i64> = Vec::new();
    let mut i: usize = 0;
    while i < n
        invariant
            i <= n,
            n == t@.len(),
            0 < w,
            w * h == n,
            gw == w,
            gh == h,
            forall|k: int| 0 <= k < t@.len() ==> #[trigger] t@[k] > i64::MIN,
            all@ =~= sizes(t@, gw, gh, i as int),
            all@.len() <= i,
        decreases n - i,
    {
        if is_clear(i, w, h) {
            let v: i64 = t[i];
            all.push(
                if v < 0 {
                    -v
                } else {
                    v
                },
            );
        }
        i += 1;
    }
    let mut out: Vec<usize> = Vec::new();
    if all.len() == 0 {
        return out;
    }
    let place: usize = if keep < all.len() {
        all.len() - 1 - keep
    } else {
        0
    };
    let cutoff: i64 = ranked(all.as_slice(), place);
    let mut j: usize = 0;
    while j < n
        invariant
            j <= n,
            n == t@.len(),
            0 < w,
            w * h == n,
            gw == w,
            gh == h,
            forall|k: int| 0 <= k < t@.len() ==> #[trigger] t@[k] > i64::MIN,
            out@ =~= strong(t@, gw, gh, cutoff as int, j as int),
            forall|k: int| 0 <= k < out@.len() ==> #[trigger] out@[k] < n,
            forall|k: int|
                0 <= k < out@.len() ==> #[trigger] clear_of_border(out@[k] as int, gw, gh),
        decreases n - j,
    {
        if is_clear(j, w, h) {
            let v: i64 = t[j];
            let size: i64 = if v < 0 {
                -v
            } else {
                v
            };
            if size >= cutoff {
                out.push(j);
            }
        }
        j += 1;
    }
    assert(all@ =~= sizes(t@, gw, gh, t@.len() as int));
    assert(cut_at(t@, gw, gh, keep as int, out@, cutoff as int));
    out
}

fn is_clear(i: usize, w: usize, h: usize) -> (r: bool)
    requires
        0 < w,
    ensures
        r == clear_of_border(i as int, w as int, h as int),
{
    let (x, y): (usize, usize) = (i % w, i / w);
    x >= MARGIN && w - x > MARGIN && y >= MARGIN && h > y && h - y > MARGIN
}

/// The pixels a template keeps are told by what stands out alone.
pub proof fn law_a_template_keeps_one_set_of_pixels(
    t: Seq<i64>,
    w: int,
    h: int,
    keep: int,
    a: Seq<usize>,
    b: Seq<usize>,
)
    requires
        strongest(t, w, h, keep, a),
        strongest(t, w, h, keep, b),
    ensures
        a == b,
{
    let all = sizes(t, w, h, t.len() as int);
    if all.len() == 0 {
        assert(a =~= b);
    } else {
        let x = choose|c: int| cut_at(t, w, h, keep, a, c);
        let y = choose|c: int| cut_at(t, w, h, keep, b, c);
        law_one_value_stands_at_a_place(all, cut_place(all.len() as int, keep), x, y);
    }
}

/// Whether a mask is the largest mark among the pixels that were picked.
pub open spec fn mask_from(
    t: Seq<i64>,
    w: int,
    h: int,
    keep: int,
    mask: Seq<usize>,
    picked: Seq<usize>,
) -> bool {
    &&& strongest(t, w, h, keep, picked)
    &&& picked.len() == 0 ==> mask.len() == 0
    &&& picked.len() > 0 ==> exists|s: int| #[trigger] largest_mark(picked, w, mask, s)
}

/// How much of a template there is over a mask.
pub open spec fn energy_of(t: Seq<i64>, mask: Seq<usize>) -> int
    decreases mask.len(),
{
    if mask.len() == 0 {
        0
    } else {
        energy_of(t, mask.drop_last()) + t[mask.last() as int] * t[mask.last() as int]
    }
}

/// What a corner is looked for with: how far each pixel stands out, and the
/// pixels of the one mark that is kept.
pub struct Template {
    pub corner: Corner,
    /// How far each pixel stands out, times four and summed over the pictures.
    pub stands_out: Vec<i64>,
    pub mask: Vec<usize>,
    /// The squares of what stands out, summed over the mask.
    pub energy: u128,
}

/// The furthest a pixel can stand out.
pub const OUT_MAX: i64 = 0x1_0000_0000;

/// The largest a region can be.
pub const REGION_MAX: usize = 0x40_0000;

impl Template {
    pub open spec fn wf(&self, w: int, h: int) -> bool {
        &&& self.stands_out@.len() == w * h
        &&& forall|i: int|
            0 <= i < w * h ==> -OUT_MAX <= #[trigger] self.stands_out@[i] <= OUT_MAX
        &&& self.energy == energy_of(self.stands_out@, self.mask@)
        &&& self.mask@.len() <= REGION_MAX
        &&& forall|k: int|
            0 <= k < self.mask@.len() ==> #[trigger] self.mask@[k] < w * h && clear_of_border(
                self.mask@[k] as int,
                w,
                h,
            )
    }
}

fn energy(t: &[i64], mask: &[usize]) -> (r: u128)
    requires
        mask@.len() <= REGION_MAX,
        forall|k: int| 0 <= k < mask@.len() ==> #[trigger] mask@[k] < t@.len(),
        forall|i: int| 0 <= i < t@.len() ==> -OUT_MAX <= #[trigger] t@[i] <= OUT_MAX,
    ensures
        r == energy_of(t@, mask@),
        r <= 0x1_0000_0000_0000_0000 * REGION_MAX,
{
    let mut r: u128 = 0;
    let mut k: usize = 0;
    while k < mask.len()
        invariant
            k <= mask@.len() <= REGION_MAX,
            forall|j: int| 0 <= j < mask@.len() ==> #[trigger] mask@[j] < t@.len(),
            forall|i: int| 0 <= i < t@.len() ==> -OUT_MAX <= #[trigger] t@[i] <= OUT_MAX,
            r == energy_of(t@, mask@.take(k as int)),
            r <= 0x1_0000_0000_0000_0000 * k,
        decreases mask@.len() - k,
    {
        assert(mask@.take(k + 1).drop_last() =~= mask@.take(k as int));
        assert(mask@[k as int] < t@.len());
        let v: i64 = t[mask[k]];
        let size: u128 = if v < 0 {
            (-v) as u128
        } else {
            v as u128
        };
        assert(size * size == v * v && size * size <= 0x1_0000_0000_0000_0000) by (nonlinear_arith)
            requires
                size == v || size == -v,
                0 <= size <= 0x1_0000_0000,
        ;
        r = r + size * size;
        k += 1;
    }
    assert(mask@.take(k as int) =~= mask@);
    r
}

/// Build the template of one corner.
///
/// A logo is one mark. Whatever else happened to sit still -- the edge of a
/// caption box, a graphic a commercial holds on screen -- is somewhere else in
/// the corner, and only adds noise to the correlation.
pub fn template(corner: Corner, sums: &[u64], w: usize, h: usize, keep: usize) -> (r: Template)
    requires
        0 < w,
        w * h == sums@.len(),
        sums@.len() <= REGION_MAX,
        h <= REGION_MAX,
        forall|i: int| 0 <= i < sums@.len() ==> #[trigger] sums@[i] <= 255 * PICTURES_MAX,
    ensures
        r.corner == corner,
        r.wf(w as int, h as int),
        numbers(r.stands_out@) == high_passed(sums@, w as int, h as int),
        exists|picked: Seq<usize>|
            mask_from(r.stands_out@, w as int, h as int, keep as int, r.mask@, picked),
{
    let ghost (gw, gh) = (w as int, h as int);
    let t: Vec<i64> = highpass(sums, w, h);
    let n: usize = sums.len();
    assert(t@.len() == numbers(t@).len());
    assert forall|i: int| 0 <= i < t@.len() implies -OUT_MAX <= #[trigger] t@[i] <= OUT_MAX by {
        assert(numbers(t@)[i] == stands_out(sums@, gw, gh, i));
        if interior(i, gw, gh) {
            lemma_interior(i, gw, gh);
            assert(sums@[i - 1] <= 255 * PICTURES_MAX && sums@[i + 1] <= 255 * PICTURES_MAX);
            assert(sums@[i - gw] <= 255 * PICTURES_MAX && sums@[i + gw] <= 255 * PICTURES_MAX);
        }
    }
    let picked: Vec<usize> = pick(t.as_slice(), w, h, keep);
    proof {
        assert(w <= REGION_MAX || h == 0) by (nonlinear_arith)
            requires
                w * h <= REGION_MAX,
                0 <= h,
                0 < w,
        ;
    }
    let mask: Vec<usize> = if picked.len() == 0 {
        Vec::new()
    } else {
        assert(picked@[0] < w * h);
        largest_cluster(picked.as_slice(), w, h)
    };
    proof {
        lemma_mask(picked@, gw, gh, n as int, mask@);
    }
    let e: u128 = energy(t.as_slice(), mask.as_slice());
    let r = Template { corner, stands_out: t, mask, energy: e };
    assert(mask_from(r.stands_out@, w as int, h as int, keep as int, r.mask@, picked@));
    r
}

/// A mask is of picked pixels, and no more of them than the region has.
proof fn lemma_mask(picked: Seq<usize>, w: int, h: int, n: int, mask: Seq<usize>)
    requires
        0 < w,
        0 <= n == w * h,
        forall|k: int| 0 <= k < picked.len() ==> #[trigger] picked[k] < n,
        forall|k: int| 0 <= k < picked.len() ==> #[trigger] clear_of_border(picked[k] as int, w, h),
        picked.len() == 0 ==> mask.len() == 0,
        picked.len() > 0 ==> exists|s: int| #[trigger] largest_mark(picked, w, mask, s),
    ensures
        mask.len() <= n,
        forall|k: int|
            0 <= k < mask.len() ==> #[trigger] mask[k] < n && clear_of_border(mask[k] as int, w, h),
{
    if picked.len() > 0 {
        let s = choose|s: int| #[trigger] largest_mark(picked, w, mask, s);
        assert forall|k: int| 0 <= k < mask.len() implies #[trigger] mask[k] < n && clear_of_border(
            mask[k] as int,
            w,
            h,
        ) by {
            assert(crate::logo::cluster::among(mask, mask[k] as int));
            assert(crate::logo::cluster::pixels(mask).contains(mask[k] as int));
            crate::logo::cluster::lemma_linked_is_picked(
                picked,
                w,
                picked[s] as int,
                mask[k] as int,
            );
            let j = choose|j: int| 0 <= j < picked.len() && #[trigger] picked[j] == mask[k];
            assert(picked[j] < n);
            assert(clear_of_border(picked[j] as int, w, h));
        }
        crate::logo::cluster::lemma_distinct_bound(mask, n);
    }
}

} // verus!
