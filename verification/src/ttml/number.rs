//! The numbers a clock is written with, as a decimal may be written anywhere:
//! a sign, digits with a point among them, and a power of ten behind.
use crate::bytes::{byte_from, find_byte, put};
use crate::time::rounded;
use vstd::arithmetic::div_mod::lemma_fundamental_div_mod_converse;
use vstd::prelude::*;
use vstd::slice::slice_subrange;

verus! {

/// Whether every byte is a digit.
pub open spec fn all_digits(b: Seq<u8>) -> bool {
    forall|i: int| 0 <= i < b.len() ==> 48 <= #[trigger] b[i] <= 57
}

/// The number a run of digits stands for.
pub open spec fn digits_number(b: Seq<u8>) -> int
    decreases b.len(),
{
    if b.len() == 0 {
        0
    } else {
        digits_number(b.drop_last()) * 10 + (b.last() - 48)
    }
}

/// Ten to this power.
pub open spec fn ten_to(n: int) -> int
    decreases n,
{
    if n <= 0 {
        1
    } else {
        10 * ten_to(n - 1)
    }
}

/// The largest number that is read, in thousand millionths. What is larger is
/// further off than a time can be.
pub const MOST: i128 = 1_000_000_000_000_000_000_000_000;

/// Where a power of ten is announced, from the `i`th byte on; the end where
/// none is.
pub open spec fn power_from(b: Seq<u8>, i: int) -> int
    decreases b.len() - i,
{
    if i < 0 || i >= b.len() {
        b.len() as int
    } else if b[i] == 101 || b[i] == 69 {
        i
    } else {
        power_from(b, i + 1)
    }
}

/// The power of ten some bytes write: digits, with a sign in front where there
/// is one.
pub open spec fn power_of(b: Seq<u8>) -> Option<int> {
    let signed = b.len() > 0 && (b[0] == 45 || b[0] == 43);
    let digits = if signed {
        b.skip(1)
    } else {
        b
    };
    if digits.len() == 0 || !all_digits(digits) {
        None
    } else if signed && b[0] == 45 {
        Some(-digits_number(digits))
    } else {
        Some(digits_number(digits))
    }
}

/// A whole number with its point moved this far to the right, to the nearest
/// whole number.
pub open spec fn moved(n: int, by: int) -> int {
    if by >= 0 {
        n * ten_to(by)
    } else {
        rounded(n, ten_to(-by))
    }
}

/// A number with no sign, to the nearest thousand millionth and in those.
pub open spec fn unsigned_number(b: Seq<u8>) -> Option<int> {
    let end = power_from(b, 0);
    let body = b.take(end);
    let dot = match byte_from(body, 46, 0) {
        Some(at) => at,
        None => body.len() as int,
    };
    let whole = body.take(dot);
    let part = if dot < body.len() {
        body.skip(dot + 1)
    } else {
        Seq::empty()
    };
    let power = if end < b.len() {
        power_of(b.skip(end + 1))
    } else {
        Some(0)
    };
    match power {
        None => None,
        Some(e) => {
            let n = moved(digits_number(whole + part), 9 + e - part.len());
            if all_digits(whole) && all_digits(part) && whole.len() + part.len() > 0 && n <= MOST {
                Some(n)
            } else {
                None
            }
        },
    }
}

/// A number, to the nearest thousand millionth and in those, with a sign in
/// front where one is written.
pub open spec fn number(b: Seq<u8>) -> Option<int> {
    if b.len() > 0 && b[0] == 45 {
        match unsigned_number(b.skip(1)) {
            Some(n) => Some(-n),
            None => None,
        }
    } else if b.len() > 0 && b[0] == 43 {
        unsigned_number(b.skip(1))
    } else {
        unsigned_number(b)
    }
}

/// A run of digits is under ten to how many there are.
proof fn lemma_digits_bound(b: Seq<u8>)
    requires
        all_digits(b),
    ensures
        0 <= digits_number(b) < ten_to(b.len() as int),
    decreases b.len(),
{
    if b.len() > 0 {
        assert forall|i: int| 0 <= i < b.drop_last().len() implies 48 <= #[trigger] b.drop_last()[i]
            <= 57 by {
            assert(b.drop_last()[i] == b[i]);
        }
        assert(48 <= b[b.len() - 1] <= 57);
        lemma_digits_bound(b.drop_last());
    }
}

/// More noughts make a larger number.
proof fn lemma_ten_grows(a: int, b: int)
    requires
        0 <= a <= b,
    ensures
        1 <= ten_to(a) <= ten_to(b),
    decreases b,
{
    if b > 0 {
        if a < b {
            lemma_ten_grows(a, b - 1);
        } else {
            lemma_ten_grows(a - 1, b - 1);
        }
    }
}

/// Digits behind others move those to the left.
proof fn lemma_digits_join(a: Seq<u8>, b: Seq<u8>)
    ensures
        digits_number(a + b) == digits_number(a) * ten_to(b.len() as int) + digits_number(b),
    decreases b.len(),
{
    if b.len() == 0 {
        assert(a + b =~= a);
        assert(digits_number(a) * 1 == digits_number(a));
    } else {
        lemma_digits_join(a, b.drop_last());
        assert((a + b).drop_last() =~= a + b.drop_last());
        let (x, t, y) = (
            digits_number(a),
            ten_to(b.len() - 1),
            digits_number(b.drop_last()),
        );
        assert((x * t + y) * 10 == x * (10 * t) + y * 10) by (nonlinear_arith);
    }
}

/// A part of a run of digits is a run of digits.
proof fn lemma_part_of_digits(b: Seq<u8>, from: int, to: int)
    requires
        all_digits(b),
        0 <= from <= to <= b.len(),
    ensures
        all_digits(b.subrange(from, to)),
{
    assert forall|i: int| 0 <= i < to - from implies 48 <= #[trigger] b.subrange(from, to)[i]
        <= 57 by {
        assert(b.subrange(from, to)[i] == b[from + i]);
    }
}

/// The first digits of a run stand for no more than the run does.
proof fn lemma_first_digits(b: Seq<u8>, n: int)
    requires
        all_digits(b),
        0 <= n <= b.len(),
    ensures
        all_digits(b.take(n)),
        0 <= digits_number(b.take(n)) <= digits_number(b),
{
    let rest = b.skip(n);
    lemma_part_of_digits(b, 0, n);
    lemma_part_of_digits(b, n, b.len() as int);
    assert(b.subrange(0, n) =~= b.take(n));
    assert(b.subrange(n, b.len() as int) =~= rest);
    assert(b.take(n) + rest =~= b);
    lemma_digits_join(b.take(n), rest);
    lemma_digits_bound(b.take(n));
    lemma_digits_bound(rest);
    lemma_ten_grows(0, rest.len() as int);
    let (x, t) = (digits_number(b.take(n)), ten_to(rest.len() as int));
    assert(x * t >= x) by (nonlinear_arith)
        requires
            x >= 0,
            t >= 1,
    ;
}

/// A number over another rounds up where at least half of one is left over.
proof fn lemma_round_split(q: int, r: int, t: int)
    requires
        0 <= q,
        0 <= r < t,
    ensures
        rounded(q * t + r, t) == q + if 2 * r >= t {
            1int
        } else {
            0
        },
{
    assert(q * t >= 0) by (nonlinear_arith)
        requires
            q >= 0,
            t >= 0,
    ;
    let x = 2 * (q * t + r) + t;
    if 2 * r >= t {
        assert(x == (q + 1) * (2 * t) + (2 * r - t)) by (nonlinear_arith)
            requires
                x == 2 * (q * t + r) + t,
        ;
        lemma_fundamental_div_mod_converse(x, 2 * t, q + 1, 2 * r - t);
    } else {
        assert(x == q * (2 * t) + (2 * r + t)) by (nonlinear_arith)
            requires
                x == 2 * (q * t + r) + t,
        ;
        lemma_fundamental_div_mod_converse(x, 2 * t, q, 2 * r + t);
    }
}

/// A run of digits whose point is moved to the left past some of them is the
/// ones before it, and one more where the first behind it is five or over.
proof fn lemma_moved_left(d: Seq<u8>, keep: int)
    requires
        all_digits(d),
        0 <= keep < d.len(),
    ensures
        moved(digits_number(d), keep - d.len()) == digits_number(d.take(keep)) + if d[keep] >= 53 {
            1int
        } else {
            0
        },
{
    let m = d.len() - keep;
    let (head, tail) = (d.take(keep), d.skip(keep));
    let (one, rest) = (d.subrange(keep, keep + 1), d.skip(keep + 1));
    lemma_part_of_digits(d, 0, keep);
    lemma_part_of_digits(d, keep, d.len() as int);
    lemma_part_of_digits(d, keep + 1, d.len() as int);
    assert(d.subrange(0, keep) =~= head);
    assert(d.subrange(keep, d.len() as int) =~= tail);
    assert(d.subrange(keep + 1, d.len() as int) =~= rest);
    assert(head + tail =~= d);
    assert(one + rest =~= tail);
    lemma_digits_join(head, tail);
    lemma_digits_join(one, rest);
    lemma_digits_bound(head);
    lemma_digits_bound(tail);
    lemma_digits_bound(rest);
    assert(one.drop_last() =~= Seq::empty());
    assert(digits_number(one) == d[keep] - 48) by {
        reveal_with_fuel(digits_number, 2);
    }
    let (u, c, r) = (ten_to(m - 1), d[keep] - 48, digits_number(rest));
    assert(ten_to(m) == 10 * u);
    assert(48 <= d[keep] <= 57);
    lemma_round_split(digits_number(head), digits_number(tail), ten_to(m));
    assert(digits_number(tail) == c * u + r);
    assert((2 * (c * u + r) >= 10 * u) == (c >= 5)) by (nonlinear_arith)
        requires
            0 <= c <= 9,
            0 <= r < u,
    ;
}

/// A run of digits whose point is moved to the left past all of them and
/// further is nothing.
proof fn lemma_moved_away(d: Seq<u8>, by: int)
    requires
        all_digits(d),
        by < -d.len(),
    ensures
        moved(digits_number(d), by) == 0,
{
    let (n, t) = (digits_number(d), ten_to(-by));
    lemma_digits_bound(d);
    lemma_ten_grows(d.len() as int, -by - 1);
    assert(t == 10 * ten_to(-by - 1));
    lemma_round_split(0, n, t);
    assert(0 * t + n == n);
}

/// A number whose point is moved a long way to the right is too large, unless
/// it is nought.
proof fn lemma_moved_far(n: int, by: int)
    requires
        0 <= n,
        by >= 25,
    ensures
        n == 0 ==> moved(n, by) == 0,
        n > 0 ==> moved(n, by) > MOST,
{
    lemma_ten_grows(25, by);
    assert(ten_to(25) == 10_000_000_000_000_000_000_000_000) by {
        reveal_with_fuel(ten_to, 26);
    }
    let t = ten_to(by);
    assert(n > 0 ==> n * t >= t) by (nonlinear_arith)
        requires
            n >= 0,
            t >= 1,
    ;
    assert(0 * t == 0);
}

fn is_digits(b: &[u8]) -> (r: bool)
    ensures
        r == all_digits(b@),
{
    let mut i: usize = 0;
    while i < b.len()
        invariant
            i <= b@.len(),
            forall|k: int| 0 <= k < i ==> 48 <= #[trigger] b@[k] <= 57,
        decreases b@.len() - i,
    {
        if b[i] < 48 || b[i] > 57 {
            assert(!(48 <= b@[i as int] <= 57));
            return false;
        }
        i += 1;
    }
    true
}

/// How far a point is followed.
const EDGE: i128 = 1_000_000_000_000_000_000_000_000_000_000;

/// A power of ten, no further from nought than is followed.
spec fn followed(e: int) -> int {
    if e > EDGE {
        EDGE as int
    } else if e < -EDGE {
        -EDGE
    } else {
        e
    }
}

/// Read a power of ten, as far as it is followed.
fn read_power(b: &[u8]) -> (r: Option<i128>)
    ensures
        match r {
            Some(e) => power_of(b@) is Some && e == followed(power_of(b@)->0),
            None => power_of(b@) is None,
        },
{
    let signed: bool = b.len() > 0 && (b[0] == 45 || b[0] == 43);
    let digits: &[u8] = if signed {
        slice_subrange(b, 1, b.len())
    } else {
        b
    };
    assert(signed ==> digits@ =~= b@.skip(1));
    if digits.len() == 0 || !is_digits(digits) {
        return None;
    }
    let mut n: i128 = 0;
    let mut i: usize = 0;
    while i < digits.len()
        invariant
            i <= digits@.len(),
            all_digits(digits@),
            0 <= n <= EDGE,
            digits_number(digits@.take(i as int)) >= 0,
            n == followed(digits_number(digits@.take(i as int))),
        decreases digits@.len() - i,
    {
        assert(digits@.take(i + 1).drop_last() =~= digits@.take(i as int));
        assert(48 <= digits@[i as int] <= 57);
        n = if n >= EDGE {
            EDGE
        } else {
            let next: i128 = n * 10 + (digits[i] - 48) as i128;
            if next > EDGE {
                EDGE
            } else {
                next
            }
        };
        i += 1;
    }
    assert(digits@.take(i as int) =~= digits@);
    if signed && b[0] == 45 {
        Some(-n)
    } else {
        Some(n)
    }
}

/// Read the first digits of a run; `None` where they come to too much.
fn read_first(d: &[u8], keep: usize) -> (r: Option<i128>)
    requires
        all_digits(d@),
        keep <= d@.len(),
    ensures
        match r {
            Some(n) => n == digits_number(d@.take(keep as int)) && 0 <= n <= MOST,
            None => digits_number(d@.take(keep as int)) > MOST,
        },
{
    let ghost whole = d@.take(keep as int);
    let mut n: i128 = 0;
    let mut i: usize = 0;
    proof {
        lemma_first_digits(d@, keep as int);
    }
    while i < keep
        invariant
            i <= keep <= d@.len(),
            whole == d@.take(keep as int),
            all_digits(d@),
            all_digits(whole),
            0 <= n <= MOST,
            n == digits_number(whole.take(i as int)),
        decreases keep - i,
    {
        assert(whole.take(i + 1).drop_last() =~= whole.take(i as int));
        assert(48 <= d@[i as int] <= 57);
        n = n * 10 + (d[i] - 48) as i128;
        i += 1;
        if n > MOST {
            proof {
                lemma_first_digits(whole, i as int);
            }
            return None;
        }
    }
    assert(whole.take(i as int) =~= whole);
    Some(n)
}

/// Move the point of a run of digits; `None` where it comes to too much.
fn read_moved(d: &[u8], by: i128) -> (r: Option<i128>)
    requires
        all_digits(d@),
        -2 * EDGE <= by <= 2 * EDGE,
    ensures
        match r {
            Some(n) => n == moved(digits_number(d@), by as int) && 0 <= n <= MOST,
            None => moved(digits_number(d@), by as int) > MOST,
        },
{
    let len: usize = d.len();
    let ghost all = digits_number(d@);
    if by < 0 {
        if by < -(len as i128) {
            proof {
                lemma_moved_away(d@, by as int);
            }
            return Some(0);
        }
        let keep: usize = (len as i128 + by) as usize;
        proof {
            lemma_moved_left(d@, keep as int);
        }
        return match read_first(d, keep) {
            None => None,
            Some(n) => {
                let up: i128 = if d[keep] >= 53 {
                    n + 1
                } else {
                    n
                };
                if up > MOST {
                    None
                } else {
                    Some(up)
                }
            },
        };
    }
    assert(d@.take(len as int) =~= d@);
    let mut n: i128 = match read_first(d, len) {
        None => {
            proof {
                lemma_ten_grows(0, by as int);
                let t = ten_to(by as int);
                assert(all * t >= all) by (nonlinear_arith)
                    requires
                        all >= 0,
                        t >= 1,
                ;
            }
            return None;
        },
        Some(n) => n,
    };
    if n == 0 {
        assert(0 * ten_to(by as int) == 0);
        return Some(0);
    }
    let mut i: i128 = 0;
    assert(all * ten_to(0) == all);
    while i < by
        invariant
            0 <= i <= by,
            1 <= n <= MOST,
            1 <= all == digits_number(d@),
            n == all * ten_to(i as int),
        decreases by - i,
    {
        proof {
            let t = ten_to(i as int);
            assert(ten_to(i + 1) == 10 * t);
            assert(all * (10 * t) == 10 * (all * t)) by (nonlinear_arith);
        }
        n = n * 10;
        i += 1;
        if n > MOST {
            proof {
                lemma_ten_grows(i as int, by as int);
                let (a, b) = (ten_to(i as int), ten_to(by as int));
                assert(all * a <= all * b) by (nonlinear_arith)
                    requires
                        1 <= all,
                        a <= b,
                ;
            }
            return None;
        }
    }
    Some(n)
}

fn find_power(b: &[u8]) -> (r: usize)
    ensures
        r == power_from(b@, 0),
        r <= b@.len(),
{
    let mut i: usize = 0;
    while i < b.len() && b[i] != 101 && b[i] != 69
        invariant
            i <= b@.len(),
            power_from(b@, 0) == power_from(b@, i as int),
        decreases b@.len() - i,
    {
        i += 1;
    }
    i
}

/// A power of ten that is not followed to its end comes to the same.
proof fn lemma_followed(d: Seq<u8>, e: int, part: int)
    requires
        all_digits(d),
        0 <= part <= d.len() <= usize::MAX,
    ensures
        ({
            let (far, near) = (
                moved(digits_number(d), 9 + e - part),
                moved(digits_number(d), 9 + followed(e) - part),
            );
            far == near || (far > MOST && near > MOST)
        }),
{
    lemma_digits_bound(d);
    if e > EDGE {
        lemma_moved_far(digits_number(d), 9 + e - part);
        lemma_moved_far(digits_number(d), 9 + EDGE - part);
    } else if e < -EDGE {
        lemma_moved_away(d, 9 + e - part);
        lemma_moved_away(d, 9 - EDGE - part);
    }
}

/// Read a number with no sign.
fn read_unsigned(b: &[u8]) -> (r: Option<i128>)
    ensures
        match r {
            Some(n) => unsigned_number(b@) == Some(n as int) && 0 <= n <= MOST,
            None => unsigned_number(b@) is None,
        },
{
    let end: usize = find_power(b);
    let body: &[u8] = slice_subrange(b, 0, end);
    assert(body@ =~= b@.take(end as int));
    let power: i128 = if end < b.len() {
        let behind: &[u8] = slice_subrange(b, end + 1, b.len());
        assert(behind@ =~= b@.skip(end + 1));
        match read_power(behind) {
            Some(e) => e,
            None => return None,
        }
    } else {
        0
    };
    let dot: usize = match find_byte(body, 46, 0) {
        Some(at) => at,
        None => body.len(),
    };
    let whole: &[u8] = slice_subrange(body, 0, dot);
    assert(whole@ =~= body@.take(dot as int));
    let part: &[u8] = if dot < body.len() {
        slice_subrange(body, dot + 1, body.len())
    } else {
        slice_subrange(body, body.len(), body.len())
    };
    assert(part@ =~= (if dot < body@.len() {
        body@.skip(dot + 1)
    } else {
        Seq::empty()
    }));
    if !is_digits(whole) || !is_digits(part) || (whole.len() == 0 && part.len() == 0) {
        return None;
    }
    let mut digits: Vec<u8> = Vec::new();
    put(&mut digits, whole);
    put(&mut digits, part);
    assert(digits@ =~= whole@ + part@);
    proof {
        let d = digits@;
        assert forall|i: int| 0 <= i < d.len() implies 48 <= #[trigger] d[i] <= 57 by {
            if i < whole@.len() {
                assert(d[i] == whole@[i]);
            } else {
                assert(d[i] == part@[i - whole@.len()]);
            }
        }
        if end < b@.len() {
            lemma_followed(d, power_of(b@.skip(end + 1))->0, part@.len() as int);
        }
    }
    read_moved(digits.as_slice(), 9 + power - part.len() as i128)
}

/// Read a number, with its sign.
pub fn read_number(b: &[u8]) -> (r: Option<i128>)
    ensures
        match r {
            Some(n) => number(b@) == Some(n as int) && -MOST <= n <= MOST,
            None => number(b@) is None,
        },
{
    if b.len() > 0 && (b[0] == 45 || b[0] == 43) {
        let rest: &[u8] = slice_subrange(b, 1, b.len());
        assert(rest@ =~= b@.skip(1));
        match read_unsigned(rest) {
            Some(n) => if b[0] == 45 {
                Some(-n)
            } else {
                Some(n)
            },
            None => None,
        }
    } else {
        read_unsigned(b)
    }
}

/// Digits with no point and no power of ten among them read as what they stand
/// for.
pub proof fn lemma_plain_digits(b: Seq<u8>)
    requires
        b.len() > 0,
        all_digits(b),
        digits_number(b) <= 1_000_000,
    ensures
        number(b) == Some(digits_number(b) * 1_000_000_000),
{
    lemma_no_power(b, 0);
    lemma_no_point(b, 0);
    assert(48 <= b[0] <= 57);
    assert(b.take(b.len() as int) =~= b);
    assert(b + Seq::<u8>::empty() =~= b);
    lemma_digits_bound(b);
    assert(ten_to(9) == 1_000_000_000) by {
        reveal_with_fuel(ten_to, 10);
    }
}

/// And with a point among them, as what they stand for either side of it.
pub proof fn lemma_pointed_digits(whole: Seq<u8>, part: Seq<u8>)
    requires
        whole.len() > 0,
        part.len() == 3,
        all_digits(whole),
        all_digits(part),
        digits_number(whole) <= 1_000_000,
    ensures
        number(whole + seq![46u8] + part) == Some(
            digits_number(whole) * 1_000_000_000 + digits_number(part) * 1_000_000,
        ),
{
    let b = whole + seq![46u8] + part;
    let dot = whole.len() as int;
    assert forall|i: int| 0 <= i < b.len() implies #[trigger] b[i] == 46 || 48 <= b[i] <= 57 by {
        if i < dot {
            assert(b[i] == whole[i]);
        } else if i > dot {
            assert(b[i] == part[i - dot - 1]);
        }
    }
    assert forall|i: int| 0 <= i < dot implies #[trigger] b[i] != 46 by {
        assert(b[i] == whole[i]);
    }
    lemma_no_power(b, 0);
    crate::bytes::lemma_byte_is_first(b, 46, 0, dot);
    assert(48 <= whole[0] <= 57 && b[0] == whole[0]);
    assert(b.take(b.len() as int) =~= b);
    assert(b.take(dot) =~= whole);
    assert(b.skip(dot + 1) =~= part);
    lemma_digits_join(whole, part);
    lemma_digits_bound(whole);
    lemma_digits_bound(part);
    assert(ten_to(3) == 1000 && ten_to(6) == 1_000_000) by {
        reveal_with_fuel(ten_to, 7);
    }
}

/// Digits and points announce no power of ten.
proof fn lemma_no_power(b: Seq<u8>, i: int)
    requires
        0 <= i <= b.len(),
        forall|k: int| 0 <= k < b.len() ==> #[trigger] b[k] == 46 || 48 <= b[k] <= 57,
    ensures
        power_from(b, i) == b.len(),
    decreases b.len() - i,
{
    if i < b.len() {
        assert(b[i] == 46 || 48 <= b[i] <= 57);
        lemma_no_power(b, i + 1);
    }
}

/// There is no point among digits.
proof fn lemma_no_point(b: Seq<u8>, i: int)
    requires
        0 <= i <= b.len(),
        all_digits(b),
    ensures
        byte_from(b, 46, i) is None,
    decreases b.len() - i,
{
    if i < b.len() {
        assert(48 <= b[i] <= 57);
        lemma_no_point(b, i + 1);
    }
}

} // verus!
