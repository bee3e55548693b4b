//! Which of some pixels belong to one mark.
use vstd::prelude::*;

verus! {

/// How far apart two mask pixels may sit and still belong to the same mark.
///
/// Touching is too strict a test for a logo made of thin strokes. A pale
/// watermark high-passes to a scatter of one- and two-pixel fragments: on the
/// recording this was measured against, the top 500 pixels of the corner fell
/// into 290 clusters, the largest of them fifteen pixels of a single stroke,
/// and a correlation over fifteen pixels is noise.
///
/// Three pixels of reach joins the strokes of one mark without joining marks
/// that sit apart. The same corner then gives one cluster of 156 pixels
/// covering the whole logo, while the commercial's own graphics, ten pixels
/// below it, stay a cluster of their own.
pub const REACH: i64 = 3;

/// How far apart two numbers are.
pub open spec fn apart(a: int, b: int) -> int {
    if a < b {
        b - a
    } else {
        a - b
    }
}

/// Whether two pixels of a region so wide are within reach of each other.
pub open spec fn near(i: int, j: int, w: int) -> bool {
    apart(i % w, j % w) <= REACH && apart(i / w, j / w) <= REACH
}

/// Whether a pixel is one of these.
pub open spec fn among(picked: Seq<usize>, i: int) -> bool {
    exists|k: int| 0 <= k < picked.len() && #[trigger] picked[k] == i
}

/// Whether a way leads through picked pixels, each within reach of the one
/// before.
pub open spec fn a_way(picked: Seq<usize>, w: int, way: Seq<int>) -> bool {
    &&& way.len() > 0
    &&& forall|k: int| 0 <= k < way.len() ==> among(picked, #[trigger] way[k])
    &&& forall|k: int| 0 < k < way.len() ==> near(way[k - 1], #[trigger] way[k], w)
}

/// Whether two pixels belong to one mark: a way leads from one to the other.
pub open spec fn linked(picked: Seq<usize>, w: int, a: int, b: int) -> bool {
    exists|way: Seq<int>|
        #[trigger] a_way(picked, w, way) && way[0] == a && way[way.len() - 1] == b
}

/// The mark a pixel belongs to.
pub open spec fn mark_of(picked: Seq<usize>, w: int, a: int) -> Set<int> {
    Set::new(|b: int| linked(picked, w, a, b))
}

/// Whether every picked pixel within reach of one of these is one of these.
pub open spec fn closed_under_reach(picked: Seq<usize>, w: int, s: Set<int>) -> bool {
    forall|i: int, j: int|
        s.contains(i) && among(picked, j) && #[trigger] near(i, j, w) ==> s.contains(j)
}

/// What is closed under reach and holds one end of a way holds the other.
proof fn lemma_way_stays(picked: Seq<usize>, w: int, s: Set<int>, way: Seq<int>, k: int)
    requires
        closed_under_reach(picked, w, s),
        a_way(picked, w, way),
        s.contains(way[0]),
        0 <= k < way.len(),
    ensures
        s.contains(way[k]),
    decreases k,
{
    if k > 0 {
        lemma_way_stays(picked, w, s, way, k - 1);
        assert(near(way[k - 1], way[k], w));
        assert(among(picked, way[k]));
    }
}

/// A way goes on to a picked pixel within reach of its end.
proof fn lemma_way_goes_on(picked: Seq<usize>, w: int, a: int, b: int, c: int)
    requires
        linked(picked, w, a, b),
        among(picked, c),
        near(b, c, w),
    ensures
        linked(picked, w, a, c),
{
    let way = choose|way: Seq<int>|
        #[trigger] a_way(picked, w, way) && way[0] == a && way[way.len() - 1] == b;
    let on = way.push(c);
    assert forall|k: int| 0 <= k < on.len() implies among(picked, #[trigger] on[k]) by {
        if k < way.len() {
            assert(on[k] == way[k]);
        }
    }
    assert forall|k: int| 0 < k < on.len() implies near(on[k - 1], #[trigger] on[k], w) by {
        if k < way.len() {
            assert(on[k] == way[k] && on[k - 1] == way[k - 1]);
            assert(near(way[k - 1], way[k], w));
        } else {
            assert(on[k - 1] == way[way.len() - 1]);
        }
    }
    assert(a_way(picked, w, on));
    assert(on[on.len() - 1] == c);
}

/// A pixel belongs to its own mark.
proof fn lemma_linked_to_itself(picked: Seq<usize>, w: int, a: int)
    requires
        among(picked, a),
    ensures
        linked(picked, w, a, a),
{
    let way = seq![a];
    assert(a_way(picked, w, way));
    assert(way[0] == a);
}

/// What is closed under reach, holds a pixel and holds nothing that is not
/// linked to it, is the mark that pixel belongs to.
proof fn lemma_is_the_mark(picked: Seq<usize>, w: int, a: int, s: Set<int>)
    requires
        closed_under_reach(picked, w, s),
        s.contains(a),
        forall|b: int| s.contains(b) ==> #[trigger] linked(picked, w, a, b),
    ensures
        s == mark_of(picked, w, a),
{
    assert forall|b: int| mark_of(picked, w, a).contains(b) implies s.contains(b) by {
        assert(linked(picked, w, a, b));
        let way = choose|way: Seq<int>|
            #[trigger] a_way(picked, w, way) && way[0] == a && way[way.len() - 1] == b;
        lemma_way_stays(picked, w, s, way, way.len() - 1);
    }
    assert(s =~= mark_of(picked, w, a));
}

/// A pixel of a mark and the pixel the mark was found by have the same mark.
proof fn lemma_same_mark(picked: Seq<usize>, w: int, a: int, b: int)
    requires
        linked(picked, w, a, b),
    ensures
        mark_of(picked, w, b) == mark_of(picked, w, a),
{
    let m = mark_of(picked, w, b);
    lemma_mark_closed(picked, w, b);
    lemma_linked_back(picked, w, a, b);
    assert(m.contains(a));
    assert forall|c: int| m.contains(c) implies #[trigger] linked(picked, w, a, c) by {
        assert(linked(picked, w, b, c));
        lemma_linked_through(picked, w, a, b, c);
    }
    lemma_is_the_mark(picked, w, a, m);
}

/// A mark is closed under reach.
proof fn lemma_mark_closed(picked: Seq<usize>, w: int, a: int)
    ensures
        closed_under_reach(picked, w, mark_of(picked, w, a)),
{
    let m = mark_of(picked, w, a);
    assert forall|i: int, j: int| m.contains(i) && among(picked, j) && #[trigger] near(i, j, w)
        implies m.contains(j) by {
        lemma_way_goes_on(picked, w, a, i, j);
    }
}

/// A way there is a way back.
proof fn lemma_linked_back(picked: Seq<usize>, w: int, a: int, b: int)
    requires
        linked(picked, w, a, b),
    ensures
        linked(picked, w, b, a),
{
    let way = choose|way: Seq<int>|
        #[trigger] a_way(picked, w, way) && way[0] == a && way[way.len() - 1] == b;
    let back = way.reverse();
    assert forall|k: int| 0 <= k < back.len() implies among(picked, #[trigger] back[k]) by {
        assert(back[k] == way[way.len() - 1 - k]);
    }
    assert forall|k: int| 0 < k < back.len() implies near(back[k - 1], #[trigger] back[k], w) by {
        let n = way.len() - k;
        assert(back[k] == way[n - 1] && back[k - 1] == way[n]);
        assert(near(way[n - 1], way[n], w));
    }
    assert(a_way(picked, w, back));
    assert(back[0] == b && back[back.len() - 1] == a);
}

/// A way on from where another ends is one way.
proof fn lemma_linked_through(picked: Seq<usize>, w: int, a: int, b: int, c: int)
    requires
        linked(picked, w, a, b),
        linked(picked, w, b, c),
    ensures
        linked(picked, w, a, c),
{
    let m = mark_of(picked, w, a);
    lemma_mark_closed(picked, w, a);
    let way = choose|way: Seq<int>|
        #[trigger] a_way(picked, w, way) && way[0] == b && way[way.len() - 1] == c;
    assert(m.contains(way[0]));
    lemma_way_stays(picked, w, m, way, way.len() - 1);
}

/// Whether what has been found of a mark is sound: nothing is there twice, all
/// of it is linked to where the mark was found, and it is, with what was there
/// before, what is ticked off.
pub open spec fn gathered(
    picked: Seq<usize>,
    w: int,
    start: int,
    before: Set<int>,
    ticked: Seq<bool>,
    list: Seq<usize>,
) -> bool {
    &&& list.no_duplicates()
    &&& forall|k: int|
        0 <= k < ticked.len() ==> (#[trigger] ticked[k] <==> before.contains(k) || among(list, k))
    &&& forall|k: int| #[trigger]
        among(list, k) ==> 0 <= k < ticked.len() && !before.contains(k) && linked(
            picked,
            w,
            start,
            k,
        )
}

/// One more pixel within reach of what is found is found too.
proof fn lemma_gather_one(
    picked: Seq<usize>,
    w: int,
    start: int,
    before: Set<int>,
    ticked: Seq<bool>,
    list: Seq<usize>,
    i: int,
    j: usize,
)
    requires
        gathered(picked, w, start, before, ticked, list),
        among(list, i),
        among(picked, j as int),
        near(i, j as int, w),
        j < ticked.len(),
        !ticked[j as int],
    ensures
        gathered(picked, w, start, before, ticked.update(j as int, true), list.push(j)),
{
    lemma_way_goes_on(picked, w, start, i, j as int);
    lemma_among_push(list, j);
    let (more, now) = (list.push(j), ticked.update(j as int, true));
    assert(!among(list, j as int));
    assert forall|a: int, b: int| 0 <= a < more.len() && 0 <= b < more.len() && a != b implies more[a]
        != more[b] by {
        if a == list.len() {
            assert(list[b] == more[b]);
            assert(among(list, list[b] as int));
        } else if b == list.len() {
            assert(list[a] == more[a]);
            assert(among(list, list[a] as int));
        } else {
            assert(list[a] == more[a] && list[b] == more[b]);
        }
    }
    assert forall|k: int| 0 <= k < now.len() implies (#[trigger] now[k] <==> before.contains(k)
        || among(more, k)) by {
        if k != j {
            assert(now[k] == ticked[k]);
        }
    }
    assert forall|k: int| #[trigger] among(more, k) implies 0 <= k < now.len() && !before.contains(k)
        && linked(picked, w, start, k) by {
        if k != j {
            assert(among(list, k));
        }
    }
}

/// Whether every picked pixel within reach of `i` that comes before a place,
/// rows first, is ticked off.
pub open spec fn looked_over(
    picked: Seq<usize>,
    w: int,
    i: int,
    ticked: Seq<bool>,
    y: int,
    x: int,
) -> bool {
    forall|q: int| #[trigger]
        among(picked, q) && near(i, q, w) && 0 <= q < ticked.len() && (q / w < y || (q / w == y && q
            % w < x)) ==> ticked[q]
}

/// Ticking one off takes none off that were.
proof fn lemma_still_looked_over(
    picked: Seq<usize>,
    w: int,
    i: int,
    ticked: Seq<bool>,
    j: int,
    y: int,
    x: int,
)
    requires
        looked_over(picked, w, i, ticked, y, x),
        0 <= j < ticked.len(),
    ensures
        looked_over(picked, w, i, ticked.update(j, true), y, x),
{
    let now = ticked.update(j, true);
    assert forall|q: int| #[trigger]
        among(picked, q) && near(i, q, w) && 0 <= q < now.len() && (q / w < y || (q / w == y && q
            % w < x)) implies now[q] by {
        if q != j {
            assert(ticked[q]);
        }
    }
}

/// Look round one pixel for others within reach, and put those not ticked off
/// yet on the stack.
fn look_round(
    i: usize,
    w: usize,
    h: usize,
    inside: &Vec<bool>,
    ticked: &mut Vec<bool>,
    stack: &mut Vec<usize>,
    Ghost(picked): Ghost<Seq<usize>>,
    Ghost(start): Ghost<int>,
    Ghost(before): Ghost<Set<int>>,
    Ghost(group): Ghost<Seq<usize>>,
)
    requires
        0 < w <= 0xFFFF_FFFF,
        h <= 0xFFFF_FFFF,
        w * h <= usize::MAX,
        i < w * h,
        inside@.len() == w * h,
        old(ticked)@.len() == w * h,
        forall|k: int| 0 <= k < w * h ==> #[trigger] inside@[k] == among(picked, k),
        gathered(picked, w as int, start, before, old(ticked)@, group + old(stack)@),
        among(group, i as int),
    ensures
        final(ticked)@.len() == w * h,
        gathered(picked, w as int, start, before, final(ticked)@, group + final(stack)@),
        forall|k: int| 0 <= k < w * h && old(ticked)@[k] ==> #[trigger] final(ticked)@[k],
        looked_over(picked, w as int, i as int, final(ticked)@, h as int, 0),
{
    let size: usize = inside.len();
    let ghost (gw, gi) = (w as int, i as int);
    let (x, y): (i64, i64) = ((i % w) as i64, (i / w) as i64);
    proof {
        lemma_row_in_region(gi, gw, h as int);
    }
    let from: i64 = if y > REACH {
        y - REACH
    } else {
        0
    };
    let to: i64 = if y + REACH < h as i64 {
        y + REACH
    } else {
        h as i64 - 1
    };
    let left: i64 = if x > REACH {
        x - REACH
    } else {
        0
    };
    let right: i64 = if x + REACH < w as i64 {
        x + REACH
    } else {
        w as i64 - 1
    };
    let mut ny: i64 = from;
    while ny <= to
        invariant
            0 < w <= 0xFFFF_FFFF,
            h <= 0xFFFF_FFFF,
            w * h == size,
            gw == w,
            gi == i,
            x == gi % gw,
            y == gi / gw,
            0 <= x < w,
            0 <= y < h,
            from == later_of(y - REACH, 0),
            to == lesser_of(y + REACH, h - 1),
            left == later_of(x - REACH, 0),
            right == lesser_of(x + REACH, w - 1),
            from <= ny <= to + 1,
            inside@.len() == size,
            ticked@.len() == size,
            forall|k: int| 0 <= k < size ==> #[trigger] inside@[k] == among(picked, k),
            gathered(picked, gw, start, before, ticked@, group + stack@),
            among(group, gi),
            forall|k: int| 0 <= k < size && old(ticked)@[k] ==> #[trigger] ticked@[k],
            looked_over(picked, gw, gi, ticked@, ny as int, 0),
        decreases to + 1 - ny,
    {
        let mut nx: i64 = left;
        proof {
            lemma_row_begins(picked, gw, gi, ticked@, ny as int, left as int);
        }
        while nx <= right
            invariant
                0 < w <= 0xFFFF_FFFF,
                h <= 0xFFFF_FFFF,
                w * h == size,
                gw == w,
                gi == i,
                x == gi % gw,
                y == gi / gw,
                0 <= x < w,
                from == later_of(y - REACH, 0),
                to == lesser_of(y + REACH, h - 1),
                left == later_of(x - REACH, 0),
                right == lesser_of(x + REACH, w - 1),
                from <= ny <= to,
                left <= nx <= right + 1,
                inside@.len() == size,
                ticked@.len() == size,
                forall|k: int| 0 <= k < size ==> #[trigger] inside@[k] == among(picked, k),
                gathered(picked, gw, start, before, ticked@, group + stack@),
                among(group, gi),
                forall|k: int| 0 <= k < size && old(ticked)@[k] ==> #[trigger] ticked@[k],
                looked_over(picked, gw, gi, ticked@, ny as int, nx as int),
            decreases right + 1 - nx,
        {
            proof {
                lemma_place(nx as int, ny as int, gw, h as int);
            }
            let j: usize = ny as usize * w + nx as usize;
            assert(near(gi, j as int, gw));
            if inside[j] && !ticked[j] {
                let ghost (list, was) = (group + stack@, ticked@);
                proof {
                    lemma_among_prefix(group, stack@, gi);
                    lemma_gather_one(picked, gw, start, before, was, list, gi, j);
                    lemma_still_looked_over(
                        picked,
                        gw,
                        gi,
                        was,
                        j as int,
                        ny as int,
                        nx as int,
                    );
                }
                ticked.set(j, true);
                stack.push(j);
                assert(group + stack@ =~= list.push(j));
            }
            assert(inside@[j as int] == among(picked, j as int));
            proof {
                assert forall|q: int| #[trigger]
                    among(picked, q) && near(gi, q, gw) && 0 <= q < ticked@.len() && (q / gw < ny
                        || (q / gw == ny && q % gw < nx + 1)) implies ticked@[q] by {
                    if q / gw == ny && q % gw == nx {
                        lemma_same_place(q, nx as int, ny as int, gw);
                    }
                }
            }
            nx += 1;
        }
        proof {
            assert forall|q: int| #[trigger]
                among(picked, q) && near(gi, q, gw) && 0 <= q < ticked@.len() && (q / gw < ny + 1
                    || (q / gw == ny + 1 && q % gw < 0)) implies ticked@[q] by {
                vstd::arithmetic::div_mod::lemma_mod_bound(q, gw);
            }
        }
        ny += 1;
    }
    proof {
        assert forall|q: int| #[trigger]
            among(picked, q) && near(gi, q, gw) && 0 <= q < ticked@.len() && (q / gw < h || (q / gw
                == h && q % gw < 0)) implies ticked@[q] by {
            vstd::arithmetic::div_mod::lemma_mod_bound(q, gw);
            lemma_row_in_region(q, gw, h as int);
        }
    }
}

/// The greater of two.
spec fn later_of(a: int, b: int) -> int {
    if a > b {
        a
    } else {
        b
    }
}

/// The lesser of two.
spec fn lesser_of(a: int, b: int) -> int {
    if a < b {
        a
    } else {
        b
    }
}

/// A row is looked over as far as its first column within reach as soon as
/// the rows before it are.
proof fn lemma_row_begins(
    picked: Seq<usize>,
    w: int,
    i: int,
    ticked: Seq<bool>,
    y: int,
    left: int,
)
    requires
        w > 0,
        looked_over(picked, w, i, ticked, y, 0),
        left == later_of(i % w - REACH, 0),
    ensures
        looked_over(picked, w, i, ticked, y, left),
{
    assert forall|q: int| #[trigger]
        among(picked, q) && near(i, q, w) && 0 <= q < ticked.len() && (q / w < y || (q / w == y && q
            % w < left)) implies ticked[q] by {
        vstd::arithmetic::div_mod::lemma_mod_bound(q, w);
    }
}

/// What is in the first of two lists is in both together.
proof fn lemma_among_prefix(a: Seq<usize>, b: Seq<usize>, k: int)
    requires
        among(a, k),
    ensures
        among(a + b, k),
{
    let i = choose|i: int| 0 <= i < a.len() && #[trigger] a[i] == k;
    assert((a + b)[i] == k);
}

/// A row and a column of a region name one pixel of it.
proof fn lemma_place(x: int, y: int, w: int, h: int)
    requires
        0 <= x < w,
        0 <= y < h,
    ensures
        0 <= y * w,
        y * w + x < w * h,
        (y * w + x) % w == x,
        (y * w + x) / w == y,
{
    assert(0 <= y * w && y * w + x < w * h) by (nonlinear_arith)
        requires
            0 <= x < w,
            0 <= y < h,
    ;
    vstd::arithmetic::div_mod::lemma_fundamental_div_mod_converse(y * w + x, w, y, x);
}

/// A pixel is where its row and its column say.
proof fn lemma_same_place(q: int, x: int, y: int, w: int)
    requires
        w > 0,
        q / w == y,
        q % w == x,
    ensures
        q == y * w + x,
{
    vstd::arithmetic::div_mod::lemma_fundamental_div_mod(q, w);
    assert(w * (q / w) == y * w) by (nonlinear_arith)
        requires
            q / w == y,
    ;
}

/// A pixel of a region is in one of its rows.
proof fn lemma_row_in_region(q: int, w: int, h: int)
    requires
        0 < w,
        0 <= q < w * h,
    ensures
        0 <= q / w < h,
{
    assert(0 <= q / w < h) by (nonlinear_arith)
        requires
            0 <= q < w * h,
            w > 0,
    ;
}

/// One more in a list is that one and those that were there.
proof fn lemma_among_push(list: Seq<usize>, j: usize)
    ensures
        forall|k: int| among(list.push(j), k) <==> among(list, k) || k == j,
{
    let more = list.push(j);
    assert forall|k: int| among(more, k) <==> among(list, k) || k == j by {
        if among(list, k) {
            let a = choose|a: int| 0 <= a < list.len() && #[trigger] list[a] == k;
            assert(more[a] == k);
        }
        if k == j {
            assert(more[list.len() as int] == j);
        }
        if among(more, k) {
            let a = choose|a: int| 0 <= a < more.len() && #[trigger] more[a] == k;
            if a < list.len() {
                assert(list[a] == k);
            }
        }
    }
}

/// The pixels that are ticked off.
pub open spec fn ticked_off(ticked: Seq<bool>) -> Set<int> {
    Set::new(|k: int| 0 <= k < ticked.len() && ticked[k])
}

/// Pixels, as a set.
pub open spec fn pixels(list: Seq<usize>) -> Set<int> {
    Set::new(|k: int| among(list, k))
}

/// Gather the mark one pixel belongs to, ticking it off.
fn gather(
    start: usize,
    w: usize,
    h: usize,
    inside: &Vec<bool>,
    ticked: &mut Vec<bool>,
    Ghost(picked): Ghost<Seq<usize>>,
) -> (group: Vec<usize>)
    requires
        0 < w <= 0xFFFF_FFFF,
        h <= 0xFFFF_FFFF,
        w * h <= usize::MAX,
        start < w * h,
        inside@.len() == w * h,
        old(ticked)@.len() == w * h,
        forall|k: int| 0 <= k < picked.len() ==> #[trigger] picked[k] < w * h,
        forall|k: int| 0 <= k < w * h ==> #[trigger] inside@[k] == among(picked, k),
        among(picked, start as int),
        !old(ticked)@[start as int],
        closed_under_reach(picked, w as int, ticked_off(old(ticked)@)),
        forall|k: int| ticked_off(old(ticked)@).contains(k) ==> #[trigger] among(picked, k),
    ensures
        final(ticked)@.len() == w * h,
        group@.no_duplicates(),
        pixels(group@) == mark_of(picked, w as int, start as int),
        ticked_off(final(ticked)@) == ticked_off(old(ticked)@).union(
            mark_of(picked, w as int, start as int),
        ),
{
    let size: usize = inside.len();
    let ghost (gw, gs) = (w as int, start as int);
    let ghost before = ticked_off(ticked@);
    let mut group: Vec<usize> = Vec::new();
    let mut stack: Vec<usize> = Vec::new();
    stack.push(start);
    ticked.set(start, true);
    proof {
        lemma_linked_to_itself(picked, gw, gs);
        let list = group@ + stack@;
        assert(list =~= seq![start]);
        assert(list[0] == start);
        assert forall|k: int| #[trigger] among(list, k) implies k == start by {
            let a = choose|a: int| 0 <= a < list.len() && #[trigger] list[a] == k;
        }
        assert(among(list, gs));
        assert forall|k: int| 0 <= k < ticked@.len() implies (#[trigger] ticked@[k]
            <==> before.contains(k) || among(list, k)) by {
            if k != start {
                assert(before.contains(k) == ticked@[k]);
            }
        }
    }
    while stack.len() > 0
        invariant
            0 < w <= 0xFFFF_FFFF,
            h <= 0xFFFF_FFFF,
            w * h == size,
            gw == w,
            gs == start,
            inside@.len() == size,
            ticked@.len() == size,
            forall|k: int| 0 <= k < picked.len() ==> #[trigger] picked[k] < size,
            forall|k: int| 0 <= k < size ==> #[trigger] inside@[k] == among(picked, k),
            gathered(picked, gw, gs, before, ticked@, group@ + stack@),
            among(group@ + stack@, gs),
            forall|i: int| #[trigger]
                among(group@, i) ==> looked_over(picked, gw, i, ticked@, h as int, 0),
        decreases size - group@.len(),
    {
        let ghost (old_group, old_stack, old_ticked) = (group@, stack@, ticked@);
        let i: usize = stack.pop().unwrap();
        group.push(i);
        proof {
            let (a, b) = (old_group + old_stack, group@ + stack@);
            assert(old_stack[old_stack.len() - 1] == i);
            lemma_reordered(old_group, old_stack);
            assert(b =~= old_group.push(old_stack.last()) + old_stack.drop_last());
            lemma_gathered_reordered(picked, gw, gs, before, ticked@, a, b);
            assert forall|k: int| 0 <= k < group@.len() implies #[trigger] group@[k] < size by {
                assert(b[k] == group@[k]);
                assert(among(b, group@[k] as int));
            }
            assert forall|p: int, q: int|
                0 <= p < group@.len() && 0 <= q < group@.len() && p != q implies group@[p]
                != group@[q] by {
                assert(b[p] == group@[p] && b[q] == group@[q]);
            }
            lemma_distinct_bound(group@, size as int);
            assert(group@[group@.len() - 1] == i);
            assert(among(group@, i as int));
            assert(b[group@.len() - 1] == i);
            assert(among(b, i as int));
        }
        look_round(
            i,
            w,
            h,
            inside,
            ticked,
            &mut stack,
            Ghost(picked),
            Ghost(gs),
            Ghost(before),
            Ghost(group@),
        );
        proof {
            assert forall|k: int| #[trigger] among(group@, k) implies looked_over(
                picked,
                gw,
                k,
                ticked@,
                h as int,
                0,
            ) by {
                lemma_among_push(old_group, i);
                if k != i {
                    assert(among(old_group, k));
                    assert(looked_over(picked, gw, k, old_ticked, h as int, 0));
                    assert forall|q: int| #[trigger]
                        among(picked, q) && near(k, q, gw) && 0 <= q < ticked@.len() && (q / gw < h
                            || (q / gw == h && q % gw < 0)) implies ticked@[q] by {
                        assert(old_ticked[q]);
                    }
                }
            }
            assert(among(group@ + stack@, gs)) by {
                if !among(group@ + stack@, gs) {
                    assert(!ticked@[gs]);
                    assert(old_ticked[gs]);
                }
            }
        }
    }
    proof {
        let all = group@ + stack@;
        assert(all =~= group@);
        let found = pixels(group@);
        assert(found.contains(gs));
        assert(closed_under_reach(picked, gw, found)) by {
            assert forall|i: int, j: int|
                found.contains(i) && among(picked, j) && #[trigger] near(i, j, gw) implies found.contains(
                j,
            ) by {
                let k = choose|k: int| 0 <= k < picked.len() && #[trigger] picked[k] == j;
                assert(picked[k] < size);
                lemma_row_in_region(j, gw, h as int);
                assert(looked_over(picked, gw, i, ticked@, h as int, 0));
                assert(ticked@[j]);
                if before.contains(j) {
                    assert(near(j, i, gw));
                    assert(linked(picked, gw, gs, i));
                    lemma_linked_is_picked(picked, gw, gs, i);
                    assert(before.contains(i));
                }
            }
        }
        lemma_is_the_mark(picked, gw, gs, found);
        assert(ticked_off(ticked@) =~= before.union(found));
    }
    group
}

/// What is linked is picked.
pub proof fn lemma_linked_is_picked(picked: Seq<usize>, w: int, a: int, b: int)
    requires
        linked(picked, w, a, b),
    ensures
        among(picked, b),
{
    let way = choose|way: Seq<int>|
        #[trigger] a_way(picked, w, way) && way[0] == a && way[way.len() - 1] == b;
    assert(among(picked, way[way.len() - 1]));
}

/// Moving the top of the stack to the group moves nothing in or out.
proof fn lemma_reordered(group: Seq<usize>, stack: Seq<usize>)
    requires
        stack.len() > 0,
        (group + stack).no_duplicates(),
    ensures
        (group.push(stack.last()) + stack.drop_last()).no_duplicates(),
        forall|k: int|
            among(group.push(stack.last()) + stack.drop_last(), k) <==> among(group + stack, k),
{
    let (a, b) = (group + stack, group.push(stack.last()) + stack.drop_last());
    let n = a.len() as int;
    // The place in the one of what stands at a place in the other.
    let from = |p: int|
        if p < group.len() {
            p
        } else if p == group.len() {
            n - 1
        } else {
            p - 1
        };
    let to = |p: int|
        if p < group.len() {
            p
        } else if p == n - 1 {
            group.len() as int
        } else {
            p + 1
        };
    assert forall|p: int| 0 <= p < n implies #[trigger] b[p] == a[from(p)] by {}
    assert forall|p: int| 0 <= p < n implies #[trigger] a[p] == b[to(p)] by {}
    assert forall|p: int, q: int| 0 <= p < n && 0 <= q < n && p != q implies b[p] != b[q] by {
        assert(a[from(p)] != a[from(q)]);
    }
    assert forall|k: int| among(b, k) <==> among(a, k) by {
        if among(b, k) {
            let p = choose|p: int| 0 <= p < b.len() && #[trigger] b[p] == k;
            assert(a[from(p)] == k);
        }
        if among(a, k) {
            let p = choose|p: int| 0 <= p < a.len() && #[trigger] a[p] == k;
            assert(b[to(p)] == k);
        }
    }
}

/// What is found of a mark is found in whatever order it is listed.
proof fn lemma_gathered_reordered(
    picked: Seq<usize>,
    w: int,
    start: int,
    before: Set<int>,
    ticked: Seq<bool>,
    a: Seq<usize>,
    b: Seq<usize>,
)
    requires
        gathered(picked, w, start, before, ticked, a),
        b.no_duplicates(),
        forall|k: int| among(b, k) <==> among(a, k),
    ensures
        gathered(picked, w, start, before, ticked, b),
{
    assert forall|k: int| 0 <= k < ticked.len() implies (#[trigger] ticked[k] <==> before.contains(k)
        || among(b, k)) by {
        assert(among(a, k) == among(b, k));
    }
    assert forall|k: int| #[trigger] among(b, k) implies 0 <= k < ticked.len() && !before.contains(k)
        && linked(picked, w, start, k) by {
        assert(among(a, k));
    }
}

/// So many different pixels come from a region at least as large.
pub proof fn lemma_distinct_bound(s: Seq<usize>, n: int)
    requires
        0 <= n,
        s.no_duplicates(),
        forall|k: int| 0 <= k < s.len() ==> #[trigger] s[k] < n,
    ensures
        s.len() <= n,
    decreases n,
{
    if n == 0 {
        if s.len() > 0 {
            assert(s[0] < 0);
        }
    } else if exists|p: int| 0 <= p < s.len() && #[trigger] s[p] == n - 1 {
        let p = choose|p: int| 0 <= p < s.len() && #[trigger] s[p] == n - 1;
        let t = s.remove(p);
        assert forall|k: int| 0 <= k < t.len() implies #[trigger] t[k] < n - 1 by {
            if k < p {
                assert(t[k] == s[k]);
            } else {
                assert(t[k] == s[k + 1]);
            }
        }
        assert forall|a: int, b: int| 0 <= a < t.len() && 0 <= b < t.len() && a != b implies t[a]
            != t[b] by {
            let x = if a < p {
                a
            } else {
                a + 1
            };
            let y = if b < p {
                b
            } else {
                b + 1
            };
            assert(t[a] == s[x] && t[b] == s[y]);
        }
        lemma_distinct_bound(t, n - 1);
    } else {
        lemma_distinct_bound(s, n - 1);
    }
}

/// A list of different pixels is as long as there are of them.
proof fn lemma_pixels_len(list: Seq<usize>)
    requires
        list.no_duplicates(),
    ensures
        pixels(list).finite(),
        pixels(list).len() == list.len(),
    decreases list.len(),
{
    if list.len() == 0 {
        assert(pixels(list) =~= Set::empty());
    } else {
        let (rest, last) = (list.drop_last(), list.last());
        assert(rest.no_duplicates());
        lemma_pixels_len(rest);
        assert(rest.push(last) =~= list);
        lemma_among_push(rest, last);
        assert(pixels(list) =~= pixels(rest).insert(last as int));
        assert(!pixels(rest).contains(last as int)) by {
            if among(rest, last as int) {
                let k = choose|k: int| 0 <= k < rest.len() && #[trigger] rest[k] == last;
                assert(list[k] == list[list.len() - 1]);
            }
        }
    }
}

/// How large the mark of a pixel is.
pub open spec fn mark_size(picked: Seq<usize>, w: int, k: int) -> nat {
    mark_of(picked, w, picked[k] as int).len()
}

/// Whether a list of pixels is the largest mark there is, and of several as
/// large the one that is met first.
pub open spec fn largest_mark(picked: Seq<usize>, w: int, list: Seq<usize>, s: int) -> bool {
    &&& 0 <= s < picked.len()
    &&& list.no_duplicates()
    &&& pixels(list) == mark_of(picked, w, picked[s] as int)
    &&& list.len() == mark_size(picked, w, s)
    &&& forall|k: int|
        0 <= k < picked.len() ==> #[trigger] mark_size(picked, w, k) <= mark_size(picked, w, s)
    &&& forall|k: int| 0 <= k < s ==> #[trigger] mark_size(picked, w, k) < mark_size(picked, w, s)
}

/// Keep only the biggest connected run of mask pixels.
///
/// Pixels within [`REACH`] of each other count as connected, but only the
/// pixels that were actually picked are kept: the reach decides what belongs
/// to one mark, and is not itself part of the template.
pub fn largest_cluster(picked: &[usize], w: usize, h: usize) -> (best: Vec<usize>)
    requires
        0 < w <= 0xFFFF_FFFF,
        h <= 0xFFFF_FFFF,
        w * h <= usize::MAX,
        forall|k: int| 0 <= k < picked@.len() ==> #[trigger] picked@[k] < w * h,
    ensures
        picked@.len() == 0 ==> best@.len() == 0,
        picked@.len() > 0 ==> exists|s: int| #[trigger]
            largest_mark(picked@, w as int, best@, s),
{
    let size: usize = w * h;
    let ghost gw = w as int;
    let mut inside: Vec<bool> = Vec::new();
    inside.resize(size, false);
    let mut i: usize = 0;
    while i < picked.len()
        invariant
            i <= picked@.len(),
            w * h == size,
            inside@.len() == size,
            forall|k: int| 0 <= k < picked@.len() ==> #[trigger] picked@[k] < size,
            forall|k: int|
                0 <= k < size ==> #[trigger] inside@[k] == among(picked@.take(i as int), k),
        decreases picked@.len() - i,
    {
        assert(picked@.take(i + 1) =~= picked@.take(i as int).push(picked@[i as int]));
        proof {
            lemma_among_push(picked@.take(i as int), picked@[i as int]);
        }
        assert(picked@[i as int] < size);
        let ghost was = inside@;
        inside.set(picked[i], true);
        assert forall|k: int| 0 <= k < size implies #[trigger] inside@[k] == among(
            picked@.take(i + 1),
            k,
        ) by {
            assert(was[k] == among(picked@.take(i as int), k));
        }
        i += 1;
    }
    assert(picked@.take(i as int) =~= picked@);
    let mut ticked: Vec<bool> = Vec::new();
    ticked.resize(size, false);
    let mut best: Vec<usize> = Vec::new();
    let ghost mut s: int = -1;
    let mut n: usize = 0;
    assert(ticked_off(ticked@) =~= Set::empty());
    while n < picked.len()
        invariant
            n <= picked@.len(),
            0 < w <= 0xFFFF_FFFF,
            h <= 0xFFFF_FFFF,
            w * h == size,
            gw == w,
            inside@.len() == size,
            ticked@.len() == size,
            forall|k: int| 0 <= k < picked@.len() ==> #[trigger] picked@[k] < size,
            forall|k: int| 0 <= k < size ==> #[trigger] inside@[k] == among(picked@, k),
            closed_under_reach(picked@, gw, ticked_off(ticked@)),
            forall|q: int| #[trigger]
                ticked_off(ticked@).contains(q) ==> exists|k: int|
                    0 <= k < n && linked(picked@, gw, #[trigger] picked@[k] as int, q),
            n == 0 ==> best@.len() == 0,
            n > 0 ==> 0 <= s < n && best@.no_duplicates() && pixels(best@) == mark_of(
                picked@,
                gw,
                picked@[s] as int,
            ) && best@.len() == mark_size(picked@, gw, s),
            forall|k: int| 0 <= k < n ==> #[trigger] mark_size(picked@, gw, k) <= best@.len(),
            forall|k: int| 0 <= k < s ==> #[trigger] mark_size(picked@, gw, k) < best@.len(),
        decreases picked@.len() - n,
    {
        let start: usize = picked[n];
        assert(picked@[n as int] < size);
        assert(among(picked@, start as int));
        if ticked[start] {
            proof {
                assert(ticked_off(ticked@).contains(start as int));
                let k = choose|k: int|
                    0 <= k < n && linked(picked@, gw, #[trigger] picked@[k] as int, start as int);
                lemma_same_mark(picked@, gw, picked@[k] as int, start as int);
                assert(mark_size(picked@, gw, n as int) == mark_size(picked@, gw, k));
            }
            n += 1;
            continue;
        }
        let ghost was = ticked_off(ticked@);
        proof {
            assert forall|q: int| was.contains(q) implies #[trigger] among(picked@, q) by {
                let k = choose|k: int|
                    0 <= k < n && linked(picked@, gw, #[trigger] picked@[k] as int, q);
                lemma_linked_is_picked(picked@, gw, picked@[k] as int, q);
            }
        }
        let group: Vec<usize> = gather(start, w, h, &inside, &mut ticked, Ghost(picked@));
        proof {
            let mark = mark_of(picked@, gw, start as int);
            lemma_pixels_len(group@);
            assert(mark_size(picked@, gw, n as int) == group@.len());
            lemma_mark_closed(picked@, gw, start as int);
            let now = ticked_off(ticked@);
            assert(now == was.union(mark));
            assert forall|a: int, b: int|
                now.contains(a) && among(picked@, b) && #[trigger] near(a, b, gw) implies now.contains(
                b,
            ) by {
                if was.contains(a) {
                    assert(was.contains(b));
                } else {
                    assert(mark.contains(b));
                }
            }
            assert forall|q: int| #[trigger] now.contains(q) implies exists|k: int|
                0 <= k < n + 1 && linked(picked@, gw, #[trigger] picked@[k] as int, q) by {
                if was.contains(q) {
                    let k = choose|k: int|
                        0 <= k < n && linked(picked@, gw, #[trigger] picked@[k] as int, q);
                    assert(linked(picked@, gw, picked@[k] as int, q));
                } else {
                    assert(linked(picked@, gw, picked@[n as int] as int, q));
                }
            }
        }
        if group.len() > best.len() {
            best = group;
            proof {
                s = n as int;
            }
        } else {
            proof {
                if n == 0 {
                    lemma_linked_to_itself(picked@, gw, start as int);
                    assert(pixels(group@).contains(start as int));
                }
            }
        }
        n += 1;
    }
    proof {
        if picked@.len() > 0 {
            assert(largest_mark(picked@, gw, best@, s));
        }
    }
    best
}

} // verus!
