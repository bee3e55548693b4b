//! How time is counted here.
//!
//! A time is a whole number of ticks, 705,600,000 to the second. That many is
//! a multiple of every rate a recording is met at: a picture at 24, 25, 30 or
//! 60 a second and their 1000/1001 fellows, a tick of the 90 kHz clock, and a
//! sample at 44.1 or 48 kHz are all a whole number of these, so the
//! arithmetic on them is exact.
use vstd::prelude::*;

verus! {

/// One second.
pub const SECOND: i64 = 705_600_000;

/// One tick of the 90 kHz clock a transport stream keeps.
pub const CLOCK_TICK: i64 = 7_840;

/// As many whole ticks as there are in a microsecond: a difference of this or
/// less is no difference.
pub const HAIR: i64 = 705;

/// The furthest from nought a time may be: about thirteen years either way,
/// which leaves room for every sum made of times here.
pub const FURTHEST: i64 = 0x400_0000_0000_0000;

/// Whether a time is one a recording can have.
pub open spec fn in_reach(t: int) -> bool {
    -FURTHEST <= t <= FURTHEST
}

/// `a` over `b` to the nearest whole number, the half going away from nought.
pub open spec fn rounded(a: int, b: int) -> int {
    if a >= 0 {
        (2 * a + b) / (2 * b)
    } else {
        -((2 * (-a) + b) / (2 * b))
    }
}

/// `a` over `b` to the nearest whole number, the half going away from nought.
pub fn round_div(a: i128, b: i128) -> (r: i128)
    requires
        0 < b <= 0x1000_0000_0000_0000_0000_0000,
        -0x2000_0000_0000_0000_0000_0000_0000_0000 <= a <= 0x2000_0000_0000_0000_0000_0000_0000_0000,
    ensures
        r == rounded(a as int, b as int),
{
    if a >= 0 {
        (2 * a + b) / (2 * b)
    } else {
        -((2 * (-a) + b) / (2 * b))
    }
}

/// What a division is rounded to is the whole number nearest it: no further
/// than half of one off, the half itself going away from nought, and the same
/// on either side of nought.
pub proof fn law_rounding_is_to_the_nearest(a: int, b: int)
    requires
        b > 0,
    ensures
        a >= 0 ==> 2 * a - b < 2 * (rounded(a, b) * b) <= 2 * a + b,
        a >= 0 ==> rounded(a, b) >= 0,
        rounded(-a, b) == -rounded(a, b),
{
    if a >= 0 {
        let d = 2 * b;
        let q = (2 * a + b) / d;
        vstd::arithmetic::div_mod::lemma_fundamental_div_mod(2 * a + b, d);
        vstd::arithmetic::div_mod::lemma_div_pos_is_pos(2 * a + b, d);
        assert(d * q == 2 * (q * b)) by (nonlinear_arith)
            requires
                d == 2 * b,
        ;
    }
    if a == 0 {
        assert(b / (2 * b) == 0) by (nonlinear_arith)
            requires
                b > 0,
        ;
    }
}

/// Rounding keeps the order of things.
pub proof fn lemma_rounded_keeps_order(a: int, c: int, b: int)
    requires
        a <= c,
        b > 0,
    ensures
        rounded(a, b) <= rounded(c, b),
{
    let d = 2 * b;
    if a >= 0 {
        vstd::arithmetic::div_mod::lemma_div_is_ordered(2 * a + b, 2 * c + b, d);
    } else if c < 0 {
        vstd::arithmetic::div_mod::lemma_div_is_ordered(2 * (-c) + b, 2 * (-a) + b, d);
    } else {
        vstd::arithmetic::div_mod::lemma_div_pos_is_pos(2 * c + b, d);
        vstd::arithmetic::div_mod::lemma_div_pos_is_pos(2 * (-a) + b, d);
    }
}

/// The larger of two times.
pub open spec fn later(a: int, b: int) -> int {
    if a >= b {
        a
    } else {
        b
    }
}

/// The smaller of two times.
pub open spec fn earlier(a: int, b: int) -> int {
    if a <= b {
        a
    } else {
        b
    }
}

/// The larger of two times.
pub fn max_time(a: i64, b: i64) -> (r: i64)
    ensures
        r == later(a as int, b as int),
{
    if a >= b {
        a
    } else {
        b
    }
}

/// The smaller of two times.
pub fn min_time(a: i64, b: i64) -> (r: i64)
    ensures
        r == earlier(a as int, b as int),
{
    if a <= b {
        a
    } else {
        b
    }
}

} // verus!
