//! What makes a pixel part of a mark, and how alike two marks are.
use crate::logo::score::{correlation, is_root, root, WHOLE, WIDEN};
use crate::logo::template::{clear_of_border, size_of_number, sizes, stands_out, strong, Corner};
use vstd::prelude::*;

verus! {

/// A pixel stands out by as much as it differs from the four beside it; where a
/// picture is lighter all over it stands out no more. At the edge of the region
/// nothing does.
pub proof fn law_only_what_differs_stands_out(s: Seq<u64>, t: Seq<u64>, w: int, h: int, i: int, c: int)
    requires
        1 < w,
        1 < h,
        s.len() == w * h,
        t.len() == s.len(),
        0 <= i < s.len(),
        forall|k: int| 0 <= k < s.len() ==> (#[trigger] t[k]) == s[k] + c,
    ensures
        stands_out(t, w, h, i) == stands_out(s, w, h, i),
        i % w == 0 || i % w == w - 1 || i / w == 0 || i / w == h - 1 ==> stands_out(s, w, h, i)
            == 0,
{
    if crate::logo::template::interior(i, w, h) {
        lemma_inside(i, w, h);
        assert(t[i] == s[i] + c && t[i - 1] == s[i - 1] + c && t[i + 1] == s[i + 1] + c && t[i - w]
            == s[i - w] + c && t[i + w] == s[i + w] + c);
    }
}

/// One pixel that is lighter by some stands out by four times as much more, and
/// each of the four beside it by as much less.
pub proof fn law_a_pixel_weighs_four_times(s: Seq<u64>, w: int, h: int, i: int, v: u64)
    requires
        crate::logo::template::interior(i, w, h),
        w > 1,
        s.len() == w * h,
        0 <= i < s.len(),
    ensures
        stands_out(s.update(i, v), w, h, i) - stands_out(s, w, h, i) == 4 * (v - s[i]),
        crate::logo::template::interior(i + 1, w, h) && i + 1 < s.len() ==> stands_out(
            s.update(i, v),
            w,
            h,
            i + 1,
        ) - stands_out(s, w, h, i + 1) == s[i] - v,
        crate::logo::template::interior(i + w, w, h) && i + w < s.len() ==> stands_out(
            s.update(i, v),
            w,
            h,
            i + w,
        ) - stands_out(s, w, h, i + w) == s[i] - v,
{
    lemma_inside(i, w, h);
    if crate::logo::template::interior(i + w, w, h) {
        lemma_inside(i + w, w, h);
    }
    if crate::logo::template::interior(i + 1, w, h) {
        lemma_inside(i + 1, w, h);
    }
}

proof fn lemma_inside(i: int, w: int, h: int)
    requires
        crate::logo::template::interior(i, w, h),
        w > 1,
    ensures
        0 <= i - w,
        i + w < w * h,
{
    let (x, y) = (i % w, i / w);
    vstd::arithmetic::div_mod::lemma_fundamental_div_mod(i, w);
    assert(w * y + x == i && w <= w * y && w * y + w + w <= w * h) by (nonlinear_arith)
        requires
            i == w * y + x,
            1 <= y < h - 1,
            w > 1,
    ;
}

/// The strong pixels are those that stand out as much as the cutoff and keep
/// four away from the edge: all of them, and no others.
pub proof fn law_every_strong_pixel_is_picked(
    t: Seq<i64>,
    w: int,
    h: int,
    cutoff: int,
    n: int,
    i: int,
)
    requires
        0 <= n <= t.len() <= usize::MAX,
        0 <= i < n,
        t[i] > i64::MIN,
    ensures
        strong(t, w, h, cutoff, n).contains(i as usize) == ((t[i] >= cutoff || -t[i] >= cutoff)
            && 4 <= i % w < w - 4 && 4 <= i / w < h - 4),
    decreases n,
{
    lemma_picked_below(t, w, h, cutoff, n - 1);
    let less = strong(t, w, h, cutoff, n - 1);
    let all = strong(t, w, h, cutoff, n);
    let takes = clear_of_border(n - 1, w, h) && size_of_number(t[n - 1]) >= cutoff;
    if i < n - 1 {
        law_every_strong_pixel_is_picked(t, w, h, cutoff, n - 1, i);
        if takes {
            if less.contains(i as usize) {
                let k = choose|k: int| 0 <= k < less.len() && less[k] == i as usize;
                assert(all[k] == i as usize);
            }
            if all.contains(i as usize) {
                let k = choose|k: int| 0 <= k < all.len() && all[k] == i as usize;
                assert(k < less.len());
                assert(less[k] == i as usize);
            }
        }
    } else if takes {
        assert(all[less.len() as int] == i as usize);
    } else {
        if all.contains(i as usize) {
            let k = choose|k: int| 0 <= k < all.len() && all[k] == i as usize;
            assert(less[k] < n - 1);
        }
    }
}

proof fn lemma_picked_below(t: Seq<i64>, w: int, h: int, cutoff: int, n: int)
    requires
        n <= t.len() <= usize::MAX,
    ensures
        forall|k: int|
            0 <= k < strong(t, w, h, cutoff, n).len() ==> (#[trigger] strong(
                t,
                w,
                h,
                cutoff,
                n,
            )[k]) < n,
    decreases n,
{
    if n > 0 {
        lemma_picked_below(t, w, h, cutoff, n - 1);
        let (less, all) = (strong(t, w, h, cutoff, n - 1), strong(t, w, h, cutoff, n));
        assert forall|k: int| 0 <= k < all.len() implies (#[trigger] all[k]) < n by {
            if k < less.len() {
                assert(less[k] < n - 1);
            }
        }
    }
}

/// What is like a mark is as much unlike its opposite; what has nothing in
/// common with it is neither, and nothing is more like it than it is itself.
pub proof fn law_likeness_goes_both_ways(likeness: int, loudness: int, energy: int)
    requires
        0 <= loudness,
        0 <= energy,
    ensures
        correlation(-likeness, loudness, energy) == -correlation(likeness, loudness, energy),
        correlation(0, loudness, energy) == 0,
        correlation(likeness, loudness, energy) == correlation(likeness, energy, loudness),
        -1_000_000 <= correlation(likeness, loudness, energy) <= 1_000_000,
        likeness >= 0 ==> correlation(likeness, loudness, energy) >= 0,
{
    if loudness > 0 && energy > 0 {
        let (a, b) = (root(loudness * WIDEN), root(energy * WIDEN));
        lemma_positive_root(loudness * WIDEN);
        lemma_positive_root(energy * WIDEN);
        assert(a * b == b * a && a * b > 0) by (nonlinear_arith)
            requires
                a > 0,
                b > 0,
        ;
        let size = if likeness < 0 {
            -likeness
        } else {
            likeness
        };
        let v = size * WHOLE * WIDEN;
        assert(v >= 0) by (nonlinear_arith)
            requires
                v == size * WHOLE * WIDEN,
                size >= 0,
                WHOLE == 1_000_000,
                WIDEN == 0x10_0000_0000,
        ;
        vstd::arithmetic::div_mod::lemma_div_pos_is_pos(v, a * b);
        let z = 0 * WHOLE * WIDEN;
        assert(z == 0);
        vstd::arithmetic::div_mod::lemma_div_basics(a * b);
    }
}

/// Every number has a root.
proof fn lemma_a_root(n: int) -> (r: int)
    requires
        n >= 0,
    ensures
        is_root(n, r),
    decreases n,
{
    if n == 0 {
        assert(is_root(0, 0));
        0
    } else {
        let r = lemma_a_root(n - 1);
        assert((r + 1) * (r + 1) >= n && (r + 2) * (r + 2) > (r + 1) * (r + 1)) by (nonlinear_arith)
            requires
                0 <= r,
                n - 1 < (r + 1) * (r + 1),
        ;
        if (r + 1) * (r + 1) <= n {
            r + 1
        } else {
            r
        }
    }
}

proof fn lemma_positive_root(n: int)
    requires
        n >= 1,
    ensures
        root(n) > 0,
        is_root(n, root(n)),
{
    let some = lemma_a_root(n);
    let r = root(n);
    assert(is_root(n, r));
    if r == 0 {
        assert((r + 1) * (r + 1) == 1) by (nonlinear_arith)
            requires
                r == 0,
        ;
    }
}

/// A mark is wholly like itself.
pub proof fn law_a_mark_is_like_itself(energy: int)
    requires
        0 < energy,
    ensures
        correlation(energy, energy, energy) == 1_000_000,
{
    let n = energy * WIDEN;
    lemma_positive_root(n);
    let r = root(n);
    let v = energy * WHOLE * WIDEN;
    assert(v == n * 1_000_000) by (nonlinear_arith)
        requires
            v == energy * WHOLE * WIDEN,
            n == energy * WIDEN,
            WHOLE == 1_000_000,
    ;
    assert(r * r * 1_000_000 <= v) by (nonlinear_arith)
        requires
            v == n * 1_000_000,
            r * r <= n,
    ;
    assert(r * r > 0) by (nonlinear_arith)
        requires
            r > 0,
    ;
    assert(v / (r * r) >= 1_000_000) by {
        let d = r * r;
        assert(1_000_000 * d <= v);
        vstd::arithmetic::div_mod::lemma_div_is_ordered(1_000_000 * d, v, d);
        vstd::arithmetic::div_mod::lemma_div_multiples_vanish(1_000_000, d);
        assert(d * 1_000_000 == 1_000_000 * d);
    }
}

/// A corner's region is in that corner, and inside the picture.
pub proof fn law_a_region_is_in_its_corner(k: int, w: int, h: int, cw: int, ch: int)
    requires
        0 <= k < 4,
        0 <= cw <= w,
        0 <= ch <= h,
    ensures
        ({
            let (x, y) = Corner::nth(k).start(w, h, cw, ch);
            &&& k % 2 == 0 ==> x == 0
            &&& k % 2 == 1 ==> x + cw == w
            &&& k < 2 ==> y == 0
            &&& k >= 2 ==> y + ch == h
        }),
{
}

/// How strong pixels are is told of every one that keeps away from the edge.
pub proof fn law_every_pixel_inside_is_ranked(t: Seq<i64>, w: int, h: int, n: int)
    requires
        0 <= n <= t.len(),
    ensures
        sizes(t, w, h, n).len() == Seq::new(n as nat, |i: int| i).filter(
            |i: int| 4 <= i % w < w - 4 && 4 <= i / w < h - 4,
        ).len(),
    decreases n,
{
    reveal(Seq::filter);
    if n > 0 {
        law_every_pixel_inside_is_ranked(t, w, h, n - 1);
        assert(Seq::new(n as nat, |i: int| i).drop_last() =~= Seq::new(
            (n - 1) as nat,
            |i: int| i,
        ));
    }
}

} // verus!
