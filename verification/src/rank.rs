//! Which value stands where, once values are put in order.
use vstd::prelude::*;

verus! {

/// How many values are under this one.
pub open spec fn under(v: Seq<i64>, c: int) -> nat
    decreases v.len(),
{
    if v.len() == 0 {
        0
    } else {
        under(v.drop_last(), c) + (if v.last() < c {
            1nat
        } else {
            0
        })
    }
}

/// Whether `c` is the value that stands at place `k`, from nought, once the
/// values are in order: it is one of them, no more than `k` are under it, and
/// with its equals there are more.
pub open spec fn stands(v: Seq<i64>, k: int, c: int) -> bool {
    under(v, c) <= k < under(v, c + 1)
}

/// What stands at place `k`, from nought, once the values are in order.
pub open spec fn at_place(v: Seq<i64>, k: int) -> int {
    choose|c: int| stands(v, k, c)
}

/// No more values are under something than there are values.
pub proof fn lemma_under_bound(v: Seq<i64>, c: int)
    ensures
        under(v, c) <= v.len(),
    decreases v.len(),
{
    if v.len() > 0 {
        lemma_under_bound(v.drop_last(), c);
    }
}

/// Nothing is under the least value there can be, and everything is under
/// what is past the greatest.
proof fn lemma_under_ends(v: Seq<i64>)
    ensures
        under(v, i64::MIN as int) == 0,
        under(v, i64::MAX + 1) == v.len(),
    decreases v.len(),
{
    if v.len() > 0 {
        lemma_under_ends(v.drop_last());
    }
}

/// More values are under something greater.
pub proof fn lemma_under_grows(v: Seq<i64>, a: int, b: int)
    requires
        a <= b,
    ensures
        under(v, a) <= under(v, b),
    decreases v.len(),
{
    if v.len() > 0 {
        lemma_under_grows(v.drop_last(), a, b);
    }
}

/// A value is under what is just past it, and not under itself.
pub proof fn lemma_under_counts(v: Seq<i64>, i: int)
    requires
        0 <= i < v.len(),
    ensures
        under(v, v[i] as int) < under(v, v[i] + 1),
    decreases v.len(),
{
    lemma_under_grows(v.drop_last(), v[i] as int, v[i] + 1);
    if i < v.len() - 1 {
        assert(v.drop_last()[i] == v[i]);
        lemma_under_counts(v.drop_last(), i);
    }
}

/// Something stands at every place there is.
pub proof fn lemma_at_place(v: Seq<i64>, k: int)
    requires
        0 <= k < v.len(),
    ensures
        stands(v, k, at_place(v, k)),
{
    lemma_under_ends(v);
    let c = lemma_stands_between(v, k, i64::MIN as int, i64::MAX + 1);
    assert(stands(v, k, c));
}

/// What stands at a place is between what too few are under and what enough
/// are.
proof fn lemma_stands_between(v: Seq<i64>, k: int, low: int, high: int) -> (c: int)
    requires
        low < high,
        under(v, low) <= k < under(v, high),
    ensures
        stands(v, k, c),
    decreases high - low,
{
    if k < under(v, low + 1) {
        low
    } else {
        lemma_stands_between(v, k, low + 1, high)
    }
}

/// Where more values are under the next number, this one is among them.
pub proof fn lemma_stands_among(v: Seq<i64>, c: int)
    requires
        under(v, c) < under(v, c + 1),
    ensures
        exists|i: int| 0 <= i < v.len() && #[trigger] v[i] == c,
    decreases v.len(),
{
    if v.last() == c {
        assert(v[v.len() - 1] == c);
    } else {
        lemma_stands_among(v.drop_last(), c);
        let i = choose|i: int| 0 <= i < v.drop_last().len() && #[trigger] v.drop_last()[i] == c;
        assert(v[i] == c);
    }
}

/// Only one value stands at a place.
pub proof fn law_one_value_stands_at_a_place(v: Seq<i64>, k: int, a: int, b: int)
    requires
        stands(v, k, a),
        stands(v, k, b),
    ensures
        a == b,
{
    if a < b {
        lemma_under_grows(v, a + 1, b);
    } else if b < a {
        lemma_under_grows(v, b + 1, a);
    }
}

/// Values in order, each no less than the one before.
pub open spec fn in_order(v: Seq<i64>) -> bool {
    forall|i: int, j: int| 0 <= i <= j < v.len() ==> v[i] <= v[j]
}

/// Where the values are in order already, what stands at a place is what is
/// there.
pub proof fn law_what_is_in_order_stands_where_it_is(v: Seq<i64>, k: int)
    requires
        in_order(v),
        0 <= k < v.len(),
    ensures
        stands(v, k, v[k] as int),
{
    lemma_prefix_under(v, v[k] as int, k);
    lemma_prefix_upto(v, v[k] + 1, k);
}

/// Of values in order, none from place `k` on is under the one there.
proof fn lemma_prefix_under(v: Seq<i64>, c: int, k: int)
    requires
        0 <= k <= v.len(),
        forall|i: int| k <= i < v.len() ==> #[trigger] v[i] >= c,
    ensures
        under(v, c) <= k,
    decreases v.len(),
{
    if k == v.len() {
        lemma_under_bound(v, c);
    } else {
        assert(v[v.len() - 1] >= c);
        assert forall|i: int| k <= i < v.drop_last().len() implies #[trigger] v.drop_last()[i] >= c by {
            assert(v.drop_last()[i] == v[i]);
        }
        lemma_prefix_under(v.drop_last(), c, k);
    }
}

/// Of values in order, every one up to place `k` is under what is past the
/// one there.
proof fn lemma_prefix_upto(v: Seq<i64>, c: int, k: int)
    requires
        0 <= k < v.len(),
        in_order(v),
        v[k] < c,
    ensures
        under(v, c) > k,
    decreases v.len(),
{
    let w = v.drop_last();
    if k == v.len() - 1 {
        if k > 0 {
            assert(v[k - 1] <= v[k]);
            assert(in_order(w));
            lemma_prefix_upto(w, c, k - 1);
        }
    } else {
        assert(in_order(w));
        lemma_prefix_upto(w, c, k);
    }
}

pub(crate) fn count_under(v: &[i64], c: i128) -> (n: usize)
    ensures
        n == under(v@, c as int),
{
    let mut n: usize = 0;
    let mut i: usize = 0;
    while i < v.len()
        invariant
            i <= v@.len(),
            n <= i,
            n == under(v@.take(i as int), c as int),
        decreases v@.len() - i,
    {
        assert(v@.take(i + 1).drop_last() =~= v@.take(i as int));
        if (v[i] as i128) < c {
            n += 1;
        }
        i += 1;
    }
    assert(v@.take(i as int) =~= v@);
    n
}

/// The value that stands at place `k`, from nought, once the values are in
/// order.
pub fn ranked(v: &[i64], k: usize) -> (c: i64)
    requires
        k < v@.len(),
    ensures
        stands(v@, k as int, c as int),
        c == at_place(v@, k as int),
        exists|i: int| 0 <= i < v@.len() && #[trigger] v@[i] == c,
{
    let mut lo: i128 = i64::MIN as i128;
    let mut hi: i128 = i64::MAX as i128;
    proof {
        lemma_under_ends(v@);
    }
    while lo < hi
        invariant
            i64::MIN <= lo <= hi <= i64::MAX,
            under(v@, lo as int) <= k < under(v@, hi + 1),
        decreases hi - lo,
    {
        let mid: i128 = lo + (hi - lo) / 2;
        if count_under(v, mid + 1) > k {
            hi = mid;
        } else {
            lo = mid + 1;
        }
    }
    proof {
        lemma_stands_among(v@, lo as int);
        assert(stands(v@, k as int, lo as int));
        law_one_value_stands_at_a_place(v@, k as int, lo as int, at_place(v@, k as int));
    }
    lo as i64
}

} // verus!
