//! How much of a template a moment shows.
use crate::logo::template::{clear_of_border, Template, OUT_MAX, REGION_MAX};
use vstd::prelude::*;

verus! {

/// A score of this much is a moment that shows the template and nothing else.
pub const WHOLE: i64 = 1_000_000;

/// Whether `r` is the whole part of the root of `n`.
pub open spec fn is_root(n: int, r: int) -> bool {
    0 <= r && r * r <= n && n < (r + 1) * (r + 1)
}

/// The whole part of the root of a number.
pub open spec fn root(n: int) -> int {
    choose|r: int| is_root(n, r)
}

/// A number has one root.
proof fn lemma_one_root(n: int, a: int, b: int)
    requires
        is_root(n, a),
        is_root(n, b),
    ensures
        a == b,
{
    if a < b {
        assert((a + 1) * (a + 1) <= b * b) by (nonlinear_arith)
            requires
                0 <= a < b,
        ;
    } else if b < a {
        assert((b + 1) * (b + 1) <= a * a) by (nonlinear_arith)
            requires
                0 <= b < a,
        ;
    }
}

/// The whole part of the root of a number.
pub fn square_root(n: u128) -> (r: u128)
    ensures
        r == root(n as int),
        is_root(n as int, r as int),
        r < 0x1_0000_0000_0000_0000,
{
    let mut low: u128 = 0;
    let mut high: u128 = 0x1_0000_0000_0000_0000;
    assert(high * high > n) by (nonlinear_arith)
        requires
            high == 0x1_0000_0000_0000_0000,
            n <= 0xFFFF_FFFF_FFFF_FFFF_FFFF_FFFF_FFFF_FFFF,
    ;
    while high - low > 1
        invariant
            low < high <= 0x1_0000_0000_0000_0000,
            low * low <= n,
            n < high * high,
        decreases high - low,
    {
        let middle: u128 = low + (high - low) / 2;
        assert(middle * middle <= 0xFFFF_FFFF_FFFF_FFFF_FFFF_FFFF_FFFF_FFFF) by (nonlinear_arith)
            requires
                0 <= middle <= 0xFFFF_FFFF_FFFF_FFFF,
        ;
        if middle * middle <= n {
            low = middle;
        } else {
            high = middle;
        }
    }
    proof {
        assert(high == low + 1);
        assert(is_root(n as int, low as int));
        lemma_one_root(n as int, low as int, root(n as int));
    }
    low
}

/// Whether a pixel is one that the high pass at another reaches for: that
/// one itself, or one of the four beside it.
pub open spec fn reached(m: int, w: int, i: int) -> bool {
    i == m || i == m - 1 || i == m + 1 || i == m - w || i == m + w
}

/// Whether a pixel is one that the high pass over a mask reaches for.
pub open spec fn needed(mask: Seq<usize>, w: int, i: int) -> bool {
    exists|k: int| 0 <= k < mask.len() && reached(#[trigger] mask[k] as int, w, i)
}

/// Whether these are the pixels the high pass over a mask reaches for, each
/// once and in order.
pub open spec fn is_wanted(mask: Seq<usize>, w: int, n: int, wanted: Seq<usize>) -> bool {
    &&& forall|a: int, b: int| 0 <= a < b < wanted.len() ==> wanted[a] < wanted[b]
    &&& forall|a: int|
        0 <= a < wanted.len() ==> #[trigger] wanted[a] < n && needed(mask, w, wanted[a] as int)
    &&& forall|i: int|
        0 <= i < n && #[trigger] needed(mask, w, i) ==> wanted.contains(i as usize)
}

/// What a pixel comes to over the pictures held.
pub open spec fn total(ring: Seq<Vec<u8>>, j: int) -> int
    decreases ring.len(),
{
    if ring.len() == 0 {
        0
    } else {
        total(ring.drop_last(), j) + ring.last()@[j]
    }
}

/// What one pixel of a corner comes to over the pictures held, of each of
/// which only the wanted pixels are kept.
pub open spec fn shown(ring: Seq<Vec<u8>>, wanted: Seq<usize>, i: int) -> int {
    total(ring, wanted.index_of(i as usize))
}

/// How far a pixel stands out over the pictures held, times four and summed
/// over them.
pub open spec fn shown_out(ring: Seq<Vec<u8>>, wanted: Seq<usize>, w: int, i: int) -> int {
    4 * shown(ring, wanted, i) - (shown(ring, wanted, i - 1) + shown(ring, wanted, i + 1) + shown(
        ring,
        wanted,
        i - w,
    ) + shown(ring, wanted, i + w))
}

/// What is held, against the template, over the first `n` pixels of the mask.
pub open spec fn likeness(
    t: Seq<i64>,
    mask: Seq<usize>,
    ring: Seq<Vec<u8>>,
    wanted: Seq<usize>,
    w: int,
    n: int,
) -> int
    decreases n,
{
    if n <= 0 {
        0
    } else {
        likeness(t, mask, ring, wanted, w, n - 1) + shown_out(
            ring,
            wanted,
            w,
            mask[n - 1] as int,
        ) * t[mask[n - 1] as int]
    }
}

/// What is held, against itself, over the first `n` pixels of the mask.
pub open spec fn loudness(
    mask: Seq<usize>,
    ring: Seq<Vec<u8>>,
    wanted: Seq<usize>,
    w: int,
    n: int,
) -> int
    decreases n,
{
    if n <= 0 {
        0
    } else {
        let v = shown_out(ring, wanted, w, mask[n - 1] as int);
        loudness(mask, ring, wanted, w, n - 1) + v * v
    }
}

/// By how much a square is widened before its root is taken, so that the root
/// of a small one is not all rounding.
pub const WIDEN: u128 = 0x10_0000_0000;

/// A likeness, over the root of what each side is worth: from `-WHOLE` to
/// `WHOLE`, and nought where there is nothing on either side.
pub open spec fn correlation(likeness: int, loudness: int, energy: int) -> int {
    if loudness > 0 && energy > 0 {
        let of = root(loudness * WIDEN) * root(energy * WIDEN);
        let size = (if likeness < 0 {
            -likeness
        } else {
            likeness
        }) * WHOLE * WIDEN / of;
        let held = if size < WHOLE {
            size
        } else {
            WHOLE as int
        };
        if likeness < 0 {
            -held
        } else {
            held
        }
    } else {
        0
    }
}

/// A likeness, over the root of what each side is worth.
fn correlate(likeness: i128, loudness: u128, energy: u128) -> (r: i64)
    requires
        -0x40_0000_0000_0000_0000 <= likeness <= 0x40_0000_0000_0000_0000,
        loudness <= 0x40_0000_0000_0000,
        energy <= 0x80_0000_0000_0000_0000_0000,
    ensures
        r == correlation(likeness as int, loudness as int, energy as int),
        -WHOLE <= r <= WHOLE,
{
    if loudness == 0 || energy == 0 {
        return 0;
    }
    let a: u128 = square_root(loudness * WIDEN);
    let b: u128 = square_root(energy * WIDEN);
    let size: u128 = if likeness < 0 {
        (-likeness) as u128
    } else {
        likeness as u128
    };
    proof {
        assert(1 <= a < 0x1_0000_0000_0000) by (nonlinear_arith)
            requires
                a * a <= loudness * WIDEN,
                loudness * WIDEN < (a + 1) * (a + 1),
                1 <= loudness <= 0x40_0000_0000_0000,
                WIDEN == 0x10_0000_0000,
                0 <= a,
        ;
        assert(1 <= b) by (nonlinear_arith)
            requires
                energy * WIDEN < (b + 1) * (b + 1),
                1 <= energy,
                WIDEN == 0x10_0000_0000,
                0 <= b,
        ;
        assert(1 <= a * b && a * b <= 0x1_0000_0000_0000 * 0x1_0000_0000_0000_0000) by (nonlinear_arith)
            requires
                1 <= a < 0x1_0000_0000_0000,
                1 <= b < 0x1_0000_0000_0000_0000,
        ;
    }
    assert(size * 1_000_000 <= 0x40_0000_0000_0000_0000 * 1_000_000);
    assert(size * 1_000_000 * WIDEN <= 0x4000_0000_0000_0000_0000_0000_0000_0000) by (nonlinear_arith)
        requires
            0 <= size * 1_000_000 <= 0x40_0000_0000_0000_0000 * 1_000_000,
            WIDEN == 0x10_0000_0000,
    ;
    let over: u128 = size * (WHOLE as u128) * WIDEN / (a * b);
    let held: i64 = if over < WHOLE as u128 {
        over as i64
    } else {
        WHOLE
    };
    if likeness < 0 {
        -held
    } else {
        held
    }
}

/// The pictures behind a moment, and how much of one corner's template they
/// show.
pub struct Scorer {
    pub template: Template,
    /// How wide and how tall the corner is.
    pub width: usize,
    pub height: usize,
    /// The pixels a picture is sampled at.
    pub wanted: Vec<usize>,
    /// Where each pixel stands among those.
    pub slots: Vec<usize>,
    /// The pictures held, of each the wanted pixels.
    pub ring: Vec<Vec<u8>>,
    /// How many are held at most.
    pub window: usize,
    /// What each wanted pixel comes to over them.
    ///
    /// Kept rather than worked out afresh: a picture joins the ring and the
    /// picture that falls out of the other end leaves it, which is two touches
    /// of each sample where summing the whole ring is as many as it holds.
    pub sums: Vec<u32>,
}

/// Whether each pixel the high pass over a mask reaches for can be looked up.
pub open spec fn looked_up(mask: Seq<usize>, w: int, wanted: Seq<usize>, slots: Seq<usize>) -> bool {
    forall|i: int|
        0 <= i < slots.len() && #[trigger] needed(mask, w, i) ==> slots[i] < wanted.len()
            && wanted[slots[i] as int] == i
}

impl Scorer {
    /// Whether what is kept agrees with what is held.
    pub open spec fn kept(&self) -> bool {
        &&& self.slots@.len() == self.width * self.height
        &&& looked_up(self.template.mask@, self.width as int, self.wanted@, self.slots@)
        &&& self.sums@.len() == self.wanted@.len()
        &&& forall|j: int|
            0 <= j < self.sums@.len() ==> #[trigger] self.sums@[j] == total(self.ring@, j)
    }

    pub open spec fn wf(&self) -> bool {
        &&& 0 < self.width
        &&& self.width * self.height <= REGION_MAX
        &&& self.template.wf(self.width as int, self.height as int)
        &&& is_wanted(
            self.template.mask@,
            self.width as int,
            self.width * self.height,
            self.wanted@,
        )
        &&& self.ring@.len() <= self.window <= 64
        &&& 0 < self.window
        &&& forall|k: int|
            0 <= k < self.ring@.len() ==> (#[trigger] self.ring@[k])@.len() == self.wanted@.len()
        &&& self.kept()
    }

    /// What a moment scores with these pictures held.
    pub open spec fn score(&self, ring: Seq<Vec<u8>>) -> int {
        let (t, mask) = (self.template.stands_out@, self.template.mask@);
        let (wanted, w, n) = (self.wanted@, self.width as int, mask.len() as int);
        correlation(
            likeness(t, mask, ring, wanted, w, n),
            loudness(mask, ring, wanted, w, n),
            self.template.energy as int,
        )
    }
}

/// No picture adds more than a byte holds.
proof fn lemma_total_bound(ring: Seq<Vec<u8>>, j: int)
    ensures
        0 <= total(ring, j) <= 255 * ring.len(),
    decreases ring.len(),
{
    if ring.len() > 0 {
        lemma_total_bound(ring.drop_last(), j);
    }
}

/// What the first of the pictures comes to is what the rest come to less.
proof fn lemma_total_without_first(ring: Seq<Vec<u8>>, j: int)
    requires
        ring.len() > 0,
    ensures
        total(ring.remove(0), j) == total(ring, j) - ring[0]@[j],
    decreases ring.len(),
{
    let rest = ring.remove(0);
    if ring.len() == 1 {
        assert(rest.len() == 0);
        assert(ring.drop_last().len() == 0);
    } else {
        lemma_total_without_first(ring.drop_last(), j);
        assert(rest.drop_last() =~= ring.drop_last().remove(0));
        assert(rest.last() == ring.last());
    }
}

/// A pixel clear of the border has one on each side.
proof fn lemma_sides(m: int, w: int, h: int)
    requires
        0 < w,
        0 <= m < w * h,
        clear_of_border(m, w, h),
    ensures
        1 <= m,
        w <= m,
        m + 1 < w * h,
        m + w < w * h,
{
    vstd::arithmetic::div_mod::lemma_fundamental_div_mod(m, w);
    let y = m / w;
    assert(w <= w * y && w * y + w + w <= w * h) by (nonlinear_arith)
        requires
            4 <= y <= h - 5,
            0 < w,
    ;
}

/// Which samples of a corner its score is worked out from: the mask, and the
/// four neighbours the high pass reaches for at each of its pixels.
fn ticks(mask: &[usize], w: usize, h: usize, n: usize) -> (ticked: Vec<bool>)
    requires
        0 < w,
        w * h == n <= REGION_MAX,
        forall|k: int|
            0 <= k < mask@.len() ==> #[trigger] mask@[k] < n && clear_of_border(
                mask@[k] as int,
                w as int,
                h as int,
            ),
    ensures
        ticked@.len() == n,
        forall|i: int| 0 <= i < n ==> #[trigger] ticked@[i] == needed(mask@, w as int, i),
{
    let ghost (gw, gh) = (w as int, h as int);
    let mut ticked: Vec<bool> = Vec::new();
    ticked.resize(n, false);
    let mut k: usize = 0;
    while k < mask.len()
        invariant
            k <= mask@.len(),
            0 < w,
            gw == w,
            gh == h,
            w * h == n <= REGION_MAX,
            forall|j: int|
                0 <= j < mask@.len() ==> #[trigger] mask@[j] < n && clear_of_border(
                    mask@[j] as int,
                    gw,
                    gh,
                ),
            ticked@.len() == n,
            forall|i: int|
                0 <= i < n ==> #[trigger] ticked@[i] == needed(mask@.take(k as int), gw, i),
        decreases mask@.len() - k,
    {
        let m: usize = mask[k];
        assert(mask@[k as int] < n);
        proof {
            lemma_sides(m as int, gw, gh);
        }
        let ghost before = ticked@;
        ticked.set(m, true);
        ticked.set(m - 1, true);
        ticked.set(m + 1, true);
        ticked.set(m - w, true);
        ticked.set(m + w, true);
        proof {
            let (short, long) = (mask@.take(k as int), mask@.take(k + 1));
            assert forall|i: int| 0 <= i < n implies #[trigger] ticked@[i] == needed(
                long,
                gw,
                i,
            ) by {
                assert(ticked@[i] == (before[i] || reached(m as int, gw, i)));
                if needed(short, gw, i) {
                    let j = choose|j: int|
                        0 <= j < short.len() && reached(#[trigger] short[j] as int, gw, i);
                    assert(reached(long[j] as int, gw, i));
                }
                if reached(m as int, gw, i) {
                    assert(reached(long[k as int] as int, gw, i));
                }
                if needed(long, gw, i) {
                    let j = choose|j: int|
                        0 <= j < long.len() && reached(#[trigger] long[j] as int, gw, i);
                    if j < k {
                        assert(reached(short[j] as int, gw, i));
                    }
                }
            }
        }
        k += 1;
    }
    assert(mask@.take(k as int) =~= mask@);
    ticked
}

impl Scorer {
    /// Nothing held yet.
    pub fn new(template: Template, width: usize, height: usize, window: usize) -> (r: Scorer)
        requires
            0 < width,
            width * height <= REGION_MAX,
            template.wf(width as int, height as int),
            0 < window <= 64,
        ensures
            r.wf(),
            r.template == template,
            r.width == width,
            r.height == height,
            r.window == window,
            r.ring@.len() == 0,
    {
        let n: usize = width * height;
        let ghost gw = width as int;
        let ghost mask = template.mask@;
        let ticked: Vec<bool> = ticks(template.mask.as_slice(), width, height, n);
        let mut wanted: Vec<usize> = Vec::new();
        let mut slots: Vec<usize> = Vec::new();
        let mut sums: Vec<u32> = Vec::new();
        let mut i: usize = 0;
        while i < n
            invariant
                i <= n,
                ticked@.len() == n,
                slots@.len() == i,
                sums@.len() == wanted@.len(),
                wanted@.len() <= i,
                forall|k: int| 0 <= k < n ==> #[trigger] ticked@[k] == needed(mask, gw, k),
                forall|a: int, b: int| 0 <= a < b < wanted@.len() ==> wanted@[a] < wanted@[b],
                forall|a: int|
                    0 <= a < wanted@.len() ==> #[trigger] wanted@[a] < i && needed(
                        mask,
                        gw,
                        wanted@[a] as int,
                    ),
                forall|k: int|
                    0 <= k < i && #[trigger] needed(mask, gw, k) ==> slots@[k] < wanted@.len()
                        && wanted@[slots@[k] as int] == k,
                forall|j: int| 0 <= j < sums@.len() ==> #[trigger] sums@[j] == 0,
            decreases n - i,
        {
            let place: usize = wanted.len();
            slots.push(place);
            if ticked[i] {
                wanted.push(i);
                sums.push(0);
            }
            i += 1;
        }
        assert forall|k: int| 0 <= k < n && #[trigger] needed(mask, gw, k) implies wanted@.contains(
            k as usize,
        ) by {
            assert(wanted@[slots@[k] as int] == k as usize);
        }
        Scorer { template, width, height, wanted, slots, ring: Vec::new(), window, sums }
    }

    /// The pictures held once one more has come: the first goes where there
    /// is no more room.
    pub open spec fn held_with(&self, sample: Vec<u8>) -> Seq<Vec<u8>> {
        let all = self.ring@.push(sample);
        if all.len() > self.window {
            all.remove(0)
        } else {
            all
        }
    }

    /// One picture's samples join the sums.
    fn join(&mut self, sample: Vec<u8>)
        requires
            old(self).wf(),
            sample@.len() == old(self).wanted@.len(),
        ensures
            final(self).ring@ == old(self).ring@.push(sample),
            final(self).template == old(self).template,
            final(self).width == old(self).width,
            final(self).height == old(self).height,
            final(self).window == old(self).window,
            final(self).wanted == old(self).wanted,
            final(self).kept(),
    {
        let ghost was = self.sums@;
        let ghost ring = self.ring@;
        let mut j: usize = 0;
        while j < sample.len()
            invariant
                j <= sample@.len(),
                sample@.len() == was.len(),
                self.sums@.len() == was.len(),
                ring.len() <= 64,
                forall|k: int| 0 <= k < was.len() ==> #[trigger] was[k] == total(ring, k),
                forall|k: int| 0 <= k < j ==> #[trigger] self.sums@[k] == was[k] + sample@[k],
                forall|k: int| j <= k < was.len() ==> #[trigger] self.sums@[k] == was[k],
                self.ring == old(self).ring,
                self.template == old(self).template,
                self.width == old(self).width,
                self.height == old(self).height,
                self.window == old(self).window,
                self.wanted == old(self).wanted,
                self.slots == old(self).slots,
            decreases sample@.len() - j,
        {
            proof {
                lemma_total_bound(ring, j as int);
                assert(was[j as int] == total(ring, j as int));
            }
            let sum: u32 = self.sums[j] + sample[j] as u32;
            self.sums.set(j, sum);
            j += 1;
        }
        let ghost given = sample;
        self.ring.push(sample);
        proof {
            assert forall|k: int| 0 <= k < self.sums@.len() implies #[trigger] self.sums@[k] == total(
                self.ring@,
                k,
            ) by {
                assert(self.ring@.drop_last() =~= ring);
                assert(self.ring@.last() == given);
            }
        }
    }

    /// The oldest picture's samples leave the sums.
    fn leave(&mut self)
        requires
            old(self).kept(),
            0 < old(self).ring@.len() <= 65,
            old(self).ring@[0]@.len() == old(self).wanted@.len(),
        ensures
            final(self).ring@ == old(self).ring@.remove(0),
            final(self).template == old(self).template,
            final(self).width == old(self).width,
            final(self).height == old(self).height,
            final(self).window == old(self).window,
            final(self).wanted == old(self).wanted,
            final(self).kept(),
    {
        let ghost was = self.sums@;
        let ghost ring = self.ring@;
        let gone: Vec<u8> = self.ring.remove(0);
        let mut j: usize = 0;
        while j < gone.len()
            invariant
                j <= gone@.len(),
                gone@.len() == was.len(),
                self.sums@.len() == was.len(),
                0 < ring.len() <= 65,
                ring[0] == gone,
                forall|k: int| 0 <= k < was.len() ==> #[trigger] was[k] == total(ring, k),
                forall|k: int| 0 <= k < j ==> #[trigger] self.sums@[k] == was[k] - gone@[k],
                forall|k: int| j <= k < was.len() ==> #[trigger] self.sums@[k] == was[k],
                self.ring@ == ring.remove(0),
                self.template == old(self).template,
                self.width == old(self).width,
                self.height == old(self).height,
                self.window == old(self).window,
                self.wanted == old(self).wanted,
                self.slots == old(self).slots,
            decreases gone@.len() - j,
        {
            proof {
                lemma_total_without_first(ring, j as int);
                lemma_total_bound(ring.remove(0), j as int);
                assert(was[j as int] == total(ring, j as int));
            }
            let sum: u32 = self.sums[j] - gone[j] as u32;
            self.sums.set(j, sum);
            j += 1;
        }
        proof {
            assert forall|k: int| 0 <= k < self.sums@.len() implies #[trigger] self.sums@[k] == total(
                self.ring@,
                k,
            ) by {
                lemma_total_without_first(ring, k);
            }
        }
    }

    /// What a pixel comes to over the pictures held.
    fn at(&self, i: usize) -> (r: i64)
        requires
            self.wf(),
            i < self.width * self.height,
            needed(self.template.mask@, self.width as int, i as int),
        ensures
            r == shown(self.ring@, self.wanted@, i as int),
            0 <= r <= 16320,
    {
        let slot: usize = self.slots[i];
        proof {
            let wanted = self.wanted@;
            assert(wanted[slot as int] == i);
            assert(wanted.contains(i));
            let other = wanted.index_of(i);
            assert(wanted[other] == i);
            assert(other == slot);
            lemma_total_bound(self.ring@, slot as int);
            assert(self.sums@[slot as int] == total(self.ring@, slot as int));
        }
        self.sums[slot] as i64
    }

    /// How far a pixel of the mask stands out over the pictures held.
    fn out(&self, k: usize) -> (r: i64)
        requires
            self.wf(),
            k < self.template.mask@.len(),
        ensures
            r == shown_out(
                self.ring@,
                self.wanted@,
                self.width as int,
                self.template.mask@[k as int] as int,
            ),
            -65280 <= r <= 65280,
    {
        let i: usize = self.template.mask[k];
        let w: usize = self.width;
        proof {
            let mask = self.template.mask@;
            let gw = w as int;
            lemma_sides(i as int, gw, self.height as int);
            assert(reached(mask[k as int] as int, gw, i as int));
            assert(reached(mask[k as int] as int, gw, i - 1));
            assert(reached(mask[k as int] as int, gw, i + 1));
            assert(reached(mask[k as int] as int, gw, i - w));
            assert(reached(mask[k as int] as int, gw, i + w));
        }
        4 * self.at(i) - (self.at(i - 1) + self.at(i + 1) + self.at(i - w) + self.at(i + w))
    }

    /// What this moment scores.
    fn reading(&self) -> (r: i64)
        requires
            self.wf(),
        ensures
            r == self.score(self.ring@),
            -WHOLE <= r <= WHOLE,
    {
        let ghost (t, mask) = (self.template.stands_out@, self.template.mask@);
        let ghost (ring, wanted, w) = (self.ring@, self.wanted@, self.width as int);
        let mut like: i128 = 0;
        let mut loud: u128 = 0;
        let mut k: usize = 0;
        while k < self.template.mask.len()
            invariant
                k <= mask.len() <= REGION_MAX,
                self.wf(),
                t == self.template.stands_out@,
                mask == self.template.mask@,
                ring == self.ring@,
                wanted == self.wanted@,
                w == self.width,
                like == likeness(t, mask, ring, wanted, w, k as int),
                loud == loudness(mask, ring, wanted, w, k as int),
                -0x1_0000_0000_0000 * k <= like <= 0x1_0000_0000_0000 * k,
                loud <= 0x1_0000_0000 * k,
            decreases mask.len() - k,
        {
            let v: i64 = self.out(k);
            let i: usize = self.template.mask[k];
            assert(mask[k as int] < w * self.height);
            let e: i64 = self.template.stands_out[i];
            assert(-OUT_MAX <= t[i as int] <= OUT_MAX);
            assert(-0x1_0000_0000_0000 <= v * e <= 0x1_0000_0000_0000) by (nonlinear_arith)
                requires
                    -65280 <= v <= 65280,
                    -0x1_0000_0000 <= e <= 0x1_0000_0000,
            ;
            let size: u128 = if v < 0 {
                (-v) as u128
            } else {
                v as u128
            };
            assert(size * size == v * v && size * size <= 0x1_0000_0000) by (nonlinear_arith)
                requires
                    size == v || size == -v,
                    0 <= size <= 65280,
            ;
            like = like + (v as i128) * (e as i128);
            loud = loud + size * size;
            k += 1;
        }
        proof {
            lemma_energy_bound(t, mask);
        }
        correlate(like, loud, self.template.energy)
    }

    /// Take one picture's samples, and say what the moment it stands for
    /// scores.
    pub fn take(&mut self, sample: Vec<u8>) -> (r: i64)
        requires
            old(self).wf(),
            sample@.len() == old(self).wanted@.len(),
        ensures
            final(self).wf(),
            final(self).template == old(self).template,
            final(self).width == old(self).width,
            final(self).height == old(self).height,
            final(self).window == old(self).window,
            final(self).wanted == old(self).wanted,
            final(self).ring@ == old(self).held_with(sample),
            r == old(self).score(old(self).held_with(sample)),
            -WHOLE <= r <= WHOLE,
    {
        let ghost given = sample;
        self.join(sample);
        if self.ring.len() > self.window {
            assert(self.ring@[0]@.len() == self.wanted@.len());
            self.leave();
        }
        assert forall|k: int| 0 <= k < self.ring@.len() implies (#[trigger] self.ring@[k])@.len()
            == self.wanted@.len() by {
            let all = old(self).ring@.push(given);
            if all.len() > self.window {
                assert(self.ring@[k] == all[k + 1]);
            } else {
                assert(self.ring@[k] == all[k]);
            }
        }
        self.reading()
    }
}

/// No pixel of a mask adds more than the furthest it can stand out, squared.
proof fn lemma_energy_bound(t: Seq<i64>, mask: Seq<usize>)
    requires
        forall|k: int| 0 <= k < mask.len() ==> #[trigger] mask[k] < t.len(),
        forall|i: int| 0 <= i < t.len() ==> -OUT_MAX <= #[trigger] t[i] <= OUT_MAX,
    ensures
        0 <= crate::logo::template::energy_of(t, mask) <= 0x1_0000_0000_0000_0000 * mask.len(),
    decreases mask.len(),
{
    if mask.len() > 0 {
        let less = mask.drop_last();
        assert forall|k: int| 0 <= k < less.len() implies #[trigger] less[k] < t.len() by {
            assert(less[k] == mask[k]);
        }
        lemma_energy_bound(t, less);
        assert(mask[mask.len() - 1] < t.len());
        let v = t[mask.last() as int] as int;
        assert(0 <= v * v <= 0x1_0000_0000_0000_0000) by (nonlinear_arith)
            requires
                -0x1_0000_0000 <= v <= 0x1_0000_0000,
        ;
    }
}

} // verus!
