//! The passes that read a recording, put behind the rest of the machine.
//!
//! A pass asks for what is left over rather than for its share. Nice 10
//! carries about a ninth of the weight of ordinary work, which on a busy
//! machine is the difference between a pass nobody notices and a pass
//! everybody does. **On an idle machine it is no difference at all**: a thread
//! with nothing competing for the core gets the core whatever its nice value
//! is.
use crate::chars::{chars_of, trim, trimmed};
use crate::decimal::{read_signed, signed_value};
use vstd::prelude::*;

verus! {

/// How far behind, as a Unix nice value. The traditional value for work that
/// is welcome to whatever is going spare and has no claim on anything else.
pub const BEHIND: i32 = 10;

/// The number a setting stands for, where it is one that fits.
pub open spec fn small_number(s: Seq<char>) -> Option<int> {
    match signed_value(trimmed(s)) {
        Some(n) => if i32::MIN <= n <= i32::MAX {
            Some(n)
        } else {
            None
        },
        None => None,
    }
}

/// What the environment has to say about it, given what it holds: nought
/// leaves every pass where it is, and any other number is the nice value to
/// take on Unix. What is no number is as good as nothing said.
pub fn asked(setting: Option<&str>) -> (r: i32)
    ensures
        r == (match setting {
            Some(s) => match small_number(s@) {
                Some(n) => n,
                None => BEHIND as int,
            },
            None => BEHIND as int,
        }),
{
    match setting {
        None => BEHIND,
        Some(s) => {
            let chars: Vec<char> = chars_of(s);
            let inner: Vec<char> = trim(chars.as_slice());
            match read_signed(inner.as_slice()) {
                Some(n) => if i32::MIN as i64 <= n && n <= i32::MAX as i64 {
                    n as i32
                } else {
                    BEHIND
                },
                None => BEHIND,
            }
        },
    }
}

/// The nice value a thread takes, where it takes one: none where nought was
/// asked for, and otherwise what was, as far as a thread may go.
pub fn behind(asked: i32) -> (r: Option<i32>)
    ensures
        r is None <==> asked == 0,
        r matches Some(n) ==> n == (if asked < 0 {
            0int
        } else if asked > 19 {
            19
        } else {
            asked as int
        }),
{
    if asked == 0 {
        None
    } else if asked < 0 {
        Some(0)
    } else if asked > 19 {
        Some(19)
    } else {
        Some(asked)
    }
}

} // verus!
