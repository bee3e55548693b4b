//! Whole numbers written out in decimal, and read back.
use vstd::prelude::*;

verus! {

/// The digit that stands for a number under ten.
pub open spec fn digit_char(d: int) -> char {
    (48 + d) as char
}

/// The number a digit stands for.
pub open spec fn digit_value(c: char) -> Option<int> {
    if '0' <= c <= '9' {
        Some(c as int - 48)
    } else {
        None
    }
}

/// A number written out in decimal.
pub open spec fn decimal(n: nat) -> Seq<char>
    decreases n,
{
    if n < 10 {
        seq![digit_char(n as int)]
    } else {
        decimal(n / 10).push(digit_char((n % 10) as int))
    }
}

/// A number that may be below nought, written out.
pub open spec fn signed_decimal(n: int) -> Seq<char> {
    if n < 0 {
        seq!['-'] + decimal((-n) as nat)
    } else {
        decimal(n as nat)
    }
}

/// The number a run of digits stands for; `None` where it is not one, or is
/// not there at all.
pub open spec fn digits_value(s: Seq<char>) -> Option<nat>
    decreases s.len(),
{
    if s.len() == 0 {
        None
    } else {
        match digit_value(s.last()) {
            None => None,
            Some(d) => if s.len() == 1 {
                Some(d as nat)
            } else {
                match digits_value(s.drop_last()) {
                    None => None,
                    Some(rest) => Some((rest * 10 + d) as nat),
                }
            },
        }
    }
}

/// The number a text stands for: digits, with a sign in front where one is
/// written.
pub open spec fn signed_value(s: Seq<char>) -> Option<int> {
    if s.len() > 0 && s[0] == '-' {
        match digits_value(s.skip(1)) {
            Some(n) => Some(-(n as int)),
            None => None,
        }
    } else if s.len() > 0 && s[0] == '+' {
        match digits_value(s.skip(1)) {
            Some(n) => Some(n as int),
            None => None,
        }
    } else {
        match digits_value(s) {
            Some(n) => Some(n as int),
            None => None,
        }
    }
}

/// The same, for a number that cannot be below nought: a minus sign is not
/// part of one.
pub open spec fn unsigned_value(s: Seq<char>) -> Option<int> {
    if s.len() > 0 && s[0] == '-' {
        None
    } else {
        signed_value(s)
    }
}

/// A number written out is digits, and reads back as itself.
pub proof fn lemma_decimal_reads_back(n: nat)
    ensures
        decimal(n).len() > 0,
        digits_value(decimal(n)) == Some(n),
        forall|i: int| 0 <= i < decimal(n).len() ==> '0' <= #[trigger] decimal(n)[i] <= '9',
    decreases n,
{
    if n >= 10 {
        let short = decimal(n / 10);
        let d = digit_char((n % 10) as int);
        lemma_decimal_reads_back(n / 10);
        assert(decimal(n).drop_last() =~= short);
    }
}

/// What is written out reads back as the number it was.
pub proof fn law_a_number_reads_back(n: int)
    ensures
        signed_value(signed_decimal(n)) == Some(n),
        n >= 0 ==> unsigned_value(signed_decimal(n)) == Some(n),
{
    if n < 0 {
        lemma_decimal_reads_back((-n) as nat);
        assert(signed_decimal(n).skip(1) =~= decimal((-n) as nat));
    } else {
        lemma_decimal_reads_back(n as nat);
    }
}

/// Write a number out behind what is there.
pub fn put_decimal(out: &mut Vec<char>, n: u64)
    ensures
        final(out)@ == old(out)@ + decimal(n as nat),
    decreases n,
{
    if n < 10 {
        out.push((48 + n as u8) as char);
        assert(out@ =~= old(out)@ + decimal(n as nat));
    } else {
        put_decimal(out, n / 10);
        out.push((48 + (n % 10) as u8) as char);
        assert(out@ =~= old(out)@ + decimal(n as nat));
    }
}

/// Write a number that may be below nought out behind what is there.
pub fn put_signed(out: &mut Vec<char>, n: i64)
    ensures
        final(out)@ == old(out)@ + signed_decimal(n as int),
{
    if n < 0 {
        out.push('-');
        let ghost with_sign = out@;
        // One short of the number and one more, so that the lowest has room.
        let size: u64 = (-(n + 1)) as u64 + 1;
        put_decimal(out, size);
        assert(out@ =~= old(out)@ + (seq!['-'] + decimal(size as nat)));
    } else {
        put_decimal(out, n as u64);
    }
}

/// A run of digits with more in front of it is no smaller a number.
proof fn lemma_value_grows(s: Seq<char>, k: int)
    requires
        0 < k <= s.len(),
        digits_value(s) is Some,
    ensures
        digits_value(s.take(k)) is Some,
        digits_value(s.take(k))->0 <= digits_value(s)->0,
    decreases s.len(),
{
    if k == s.len() {
        assert(s.take(k) =~= s);
    } else {
        lemma_value_grows(s.drop_last(), k);
        assert(s.drop_last().take(k) =~= s.take(k));
    }
}

/// A run with something in it that is not a digit is no number.
proof fn lemma_no_value(s: Seq<char>, k: int)
    requires
        0 < k <= s.len(),
        digits_value(s.take(k)) is None,
    ensures
        digits_value(s) is None,
    decreases s.len(),
{
    if k == s.len() {
        assert(s.take(k) =~= s);
    } else {
        assert(s.drop_last().take(k) =~= s.take(k));
        lemma_no_value(s.drop_last(), k);
    }
}

/// Read a run of digits; `None` where it is no number or is past `u64`.
pub fn read_digits(s: &[char]) -> (r: Option<u64>)
    ensures
        match r {
            Some(n) => digits_value(s@) == Some(n as nat),
            None => match digits_value(s@) {
                Some(n) => n > u64::MAX,
                None => true,
            },
        },
{
    if s.len() == 0 {
        return None;
    }
    let mut n: u64 = 0;
    let mut i: usize = 0;
    while i < s.len()
        invariant
            0 < s@.len(),
            i <= s@.len(),
            i == 0 ==> n == 0,
            i > 0 ==> digits_value(s@.take(i as int)) == Some(n as nat),
        decreases s@.len() - i,
    {
        let c: char = s[i];
        assert(s@.take(i + 1).drop_last() =~= s@.take(i as int));
        assert(s@.take(i + 1).last() == c);
        if c < '0' || c > '9' {
            proof {
                lemma_no_value(s@, i + 1);
            }
            return None;
        }
        let d: u64 = (c as u32 - 48) as u64;
        if n > (u64::MAX - d) / 10 {
            proof {
                assert(digits_value(s@.take(i + 1)) == Some((n * 10 + d) as nat));
                if digits_value(s@) is Some {
                    lemma_value_grows(s@, i + 1);
                }
            }
            return None;
        }
        n = n * 10 + d;
        i += 1;
    }
    assert(s@.take(i as int) =~= s@);
    Some(n)
}

/// Read a number that cannot be below nought; `None` where the text is not
/// one or is past `u64`.
pub fn read_unsigned(s: &[char]) -> (r: Option<u64>)
    ensures
        match r {
            Some(n) => unsigned_value(s@) == Some(n as int),
            None => match unsigned_value(s@) {
                Some(n) => n > u64::MAX,
                None => true,
            },
        },
{
    if s.len() > 0 && s[0] == '+' {
        let rest: &[char] = vstd::slice::slice_subrange(s, 1, s.len());
        assert(rest@ =~= s@.skip(1));
        return read_digits(rest);
    }
    if s.len() > 0 && s[0] == '-' {
        return None;
    }
    read_digits(s)
}

/// Read a number that may be below nought; `None` where the text is not one
/// or does not fit an `i64`.
pub fn read_signed(s: &[char]) -> (r: Option<i64>)
    ensures
        match r {
            Some(n) => signed_value(s@) == Some(n as int),
            None => match signed_value(s@) {
                Some(n) => n > i64::MAX || n < i64::MIN,
                None => true,
            },
        },
{
    if s.len() > 0 && (s[0] == '-' || s[0] == '+') {
        let rest: &[char] = vstd::slice::slice_subrange(s, 1, s.len());
        assert(rest@ =~= s@.skip(1));
        let size: u64 = match read_digits(rest) {
            Some(n) => n,
            None => return None,
        };
        if s[0] == '+' {
            return if size <= i64::MAX as u64 {
                Some(size as i64)
            } else {
                None
            };
        }
        return if size == 0 {
            Some(0)
        } else if size <= 0x8000_0000_0000_0000 {
            Some(-((size - 1) as i64) - 1)
        } else {
            None
        };
    }
    match read_digits(s) {
        Some(n) => if n <= i64::MAX as u64 {
            Some(n as i64)
        } else {
            None
        },
        None => None,
    }
}

} // verus!
