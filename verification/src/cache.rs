//! Files kept about a recording so that opening it again is cheap: what they
//! are called, and which of them go when there are too many.
use crate::chars::{chars_of, put_text, stored, string_of};
use crate::le::{le_bytes, put_u32, put_u64};
use vstd::prelude::*;

verus! {

/// What a sum starts from, which is where FNV-1a starts.
pub const SUM_START: u64 = 0xcbf2_9ce4_8422_2325;

/// What it is multiplied by at each byte.
pub const SUM_FACTOR: u64 = 0x1_0000_01b3;

/// A sum with more bytes in it, each taken in the way FNV-1a takes one.
pub open spec fn eaten(h: u64, bytes: Seq<u8>) -> u64
    decreases bytes.len(),
{
    if bytes.len() == 0 {
        h
    } else {
        (eaten(h, bytes.drop_last()) ^ (bytes.last() as u64)).wrapping_mul(SUM_FACTOR)
    }
}

/// A sum with more bytes in it, which is plenty for telling one opened
/// file from another and costs no dependency.
pub fn eat(h: u64, bytes: &[u8]) -> (r: u64)
    ensures
        r == eaten(h, bytes@),
{
    let mut sum: u64 = h;
    let mut i: usize = 0;
    while i < bytes.len()
        invariant
            i <= bytes@.len(),
            sum == eaten(h, bytes@.take(i as int)),
        decreases bytes@.len() - i,
    {
        assert(bytes@.take(i + 1).drop_last() =~= bytes@.take(i as int));
        sum = (sum ^ (bytes[i] as u64)).wrapping_mul(SUM_FACTOR);
        i += 1;
    }
    assert(bytes@.take(i as int) =~= bytes@);
    sum
}

/// What tells one recording from another, and one version of what is kept
/// about it from another: its path, its size, when it was last changed, and
/// the version. What else changes what the file is comes between.
pub open spec fn key_bytes(
    path: Seq<char>,
    size: u64,
    mtime: u64,
    more: Seq<u8>,
    version: u32,
) -> Seq<u8> {
    stored(path) + le_bytes(size as nat, 8) + le_bytes(mtime as nat, 8) + more + le_bytes(
        version as nat,
        4,
    )
}

/// The sum a recording is known by.
pub fn key(path: &str, size: u64, mtime: u64, more: &[u8], version: u32) -> (r: u64)
    ensures
        r == eaten(SUM_START, key_bytes(path@, size, mtime, more@, version)),
{
    let mut all: Vec<u8> = Vec::new();
    crate::bytes::put(&mut all, path.as_bytes());
    put_u64(&mut all, size);
    put_u64(&mut all, mtime);
    crate::bytes::put(&mut all, more);
    put_u32(&mut all, version);
    assert(all@ =~= key_bytes(path@, size, mtime, more@, version));
    eat(SUM_START, all.as_slice())
}

/// What `char::is_alphanumeric` says of a character.
pub uninterp spec fn alphanumeric(c: char) -> bool;

/// `char::is_alphanumeric`: whether a character is a letter or a number, as
/// Unicode has them.
#[verifier::external_body]
fn is_alphanumeric(c: char) -> (r: bool)
    ensures
        r == alphanumeric(c),
{
    c.is_alphanumeric()
}

/// Whether a character may stand in the name of a kept file.
pub open spec fn may_stand(c: char) -> bool {
    alphanumeric(c) || c == '-' || c == '_'
}

/// How much of a recording's name a kept file carries.
pub const STEM: usize = 40;

/// What of the first `n` characters of a recording's name a kept file's
/// carries: those that may stand in one, and no more than so many.
pub open spec fn stem_kept(stem: Seq<char>, n: int) -> Seq<char>
    decreases n,
{
    if n <= 0 {
        Seq::empty()
    } else {
        let less = stem_kept(stem, n - 1);
        if less.len() < STEM && may_stand(stem[n - 1]) {
            less.push(stem[n - 1])
        } else {
            less
        }
    }
}

/// A digit of base sixteen.
pub open spec fn hex_digit(d: int) -> char {
    if d < 10 {
        (48 + d) as char
    } else {
        (87 + d) as char
    }
}

/// The last `n` digits of a number in base sixteen.
pub open spec fn hex(v: nat, n: nat) -> Seq<char>
    decreases n,
{
    if n == 0 {
        Seq::empty()
    } else {
        hex(v / 16, (n - 1) as nat).push(hex_digit((v % 16) as int))
    }
}

pub(crate) fn put_hex(out: &mut Vec<char>, v: u64, n: usize)
    ensures
        final(out)@ == old(out)@ + hex(v as nat, n as nat),
    decreases n,
{
    if n > 0 {
        put_hex(out, v / 16, n - 1);
        let d: u8 = (v % 16) as u8;
        out.push(
            if d < 10 {
                (48 + d) as char
            } else {
                (87 + d) as char
            },
        );
        assert(out@ =~= old(out)@ + hex(v as nat, n as nat));
    } else {
        assert(out@ =~= old(out)@ + hex(v as nat, 0));
    }
}

/// The name of a kept file.
pub open spec fn name_of(stem: Seq<char>, sum: u64, extension: Seq<char>) -> Seq<char> {
    stem_kept(stem, stem.len() as int) + seq!['-'] + hex(sum as nat, 16) + seq!['.'] + extension
}

/// The name of the file kept about a recording: what may stand of its own
/// name, and the sum it is known by.
pub fn file_name(stem: &str, sum: u64, extension: &str) -> (r: String)
    ensures
        r@ == name_of(stem@, sum, extension@),
{
    let chars: Vec<char> = chars_of(stem);
    let mut out: Vec<char> = Vec::new();
    let mut i: usize = 0;
    while i < chars.len()
        invariant
            i <= chars@.len(),
            chars@ == stem@,
            out@ == stem_kept(stem@, i as int),
        decreases chars@.len() - i,
    {
        let c: char = chars[i];
        if out.len() < STEM && (is_alphanumeric(c) || c == '-' || c == '_') {
            out.push(c);
        }
        i += 1;
    }
    out.push('-');
    put_hex(&mut out, sum, 16);
    out.push('.');
    put_text(&mut out, extension);
    assert(out@ =~= name_of(stem@, sum, extension@));
    string_of(out.as_slice())
}

/// A kept file: when it was last used, and how large it is.
#[derive(Debug, Clone, Copy, PartialEq, Eq, Structural)]
pub struct Kept {
    pub when: i128,
    pub bytes: u64,
}

/// Whether one file comes before another once they are in order: the more
/// recently used first, and as they were found where that is the same.
pub open spec fn before(found: Seq<Kept>, j: int, i: int) -> bool {
    found[j].when > found[i].when || (found[j].when == found[i].when && j < i)
}

/// How many of the first `n` files come before this one.
pub open spec fn ahead(found: Seq<Kept>, i: int, n: int) -> nat
    decreases n,
{
    if n <= 0 {
        0
    } else {
        ahead(found, i, n - 1) + (if before(found, n - 1, i) {
            1nat
        } else {
            0
        })
    }
}

/// How much those of the first `n` files take that come before this one, or
/// are it.
pub open spec fn taken(found: Seq<Kept>, i: int, n: int) -> nat
    decreases n,
{
    if n <= 0 {
        0
    } else {
        taken(found, i, n - 1) + (if before(found, n - 1, i) || n - 1 == i {
            found[n - 1].bytes as nat
        } else {
            0
        })
    }
}

/// What a `u64` holds of a sum that does not wrap.
pub open spec fn saturated(v: nat) -> nat {
    if v > u64::MAX {
        u64::MAX as nat
    } else {
        v
    }
}

/// Whether a file goes: it is not the most recently used, and it is past the
/// count that is kept or past what they may take between them.
pub open spec fn goes(found: Seq<Kept>, keep: int, budget: u64, i: int) -> bool {
    let place = ahead(found, i, found.len() as int);
    place != 0 && !(place < keep && saturated(taken(found, i, found.len() as int)) <= budget)
}

/// Which files go so that at most `keep` remain and they take no more than
/// `budget` bytes between them, the least recently used first.
///
/// A count alone is the wrong limit. What a file costs depends on how long
/// the recording is and how good the picture was asked to be, and both of
/// those move. The byte budget is the limit that means the same thing whatever
/// is in the cache; the count is only there to stop it filling with thousands
/// of tiny ones.
///
/// The most recent never goes, however far over budget it is on its own -- it
/// is almost certainly the recording being edited right now.
pub fn prune(found: &[Kept], keep: usize, budget: u64) -> (r: Vec<bool>)
    ensures
        r@.len() == found@.len(),
        forall|i: int|
            0 <= i < found@.len() ==> #[trigger] r@[i] == goes(found@, keep as int, budget, i),
{
    let mut out: Vec<bool> = Vec::new();
    let mut i: usize = 0;
    while i < found.len()
        invariant
            i <= found@.len(),
            out@.len() == i,
            forall|k: int|
                0 <= k < i ==> #[trigger] out@[k] == goes(found@, keep as int, budget, k),
        decreases found@.len() - i,
    {
        let mut place: usize = 0;
        let mut running: u64 = 0;
        let mut j: usize = 0;
        while j < found.len()
            invariant
                j <= found@.len(),
                i < found@.len(),
                place <= j,
                place == ahead(found@, i as int, j as int),
                running == saturated(taken(found@, i as int, j as int)),
            decreases found@.len() - j,
        {
            let first: bool = found[j].when > found[i].when || (found[j].when == found[i].when && j
                < i);
            if first {
                place = place + 1;
            }
            if first || j == i {
                running = if found[j].bytes > u64::MAX - running {
                    u64::MAX
                } else {
                    running + found[j].bytes
                };
            }
            j += 1;
        }
        out.push(place != 0 && !(place < keep && running <= budget));
        i += 1;
    }
    out
}

proof fn lemma_before_counts(found: Seq<Kept>, j: int, i: int, n: int)
    requires
        0 <= i < found.len(),
        0 <= j < found.len(),
        before(found, j, i),
        n <= found.len(),
    ensures
        ahead(found, j, n) + (if j < n {
            1nat
        } else {
            0
        }) <= ahead(found, i, n),
        taken(found, j, n) <= taken(found, i, n),
    decreases n,
{
    if n > 0 {
        lemma_before_counts(found, j, i, n - 1);
    }
}

/// What goes is what was least recently used: where a file stays, so does
/// every one used more recently.
pub proof fn law_the_least_recently_used_go(
    found: Seq<Kept>,
    keep: int,
    budget: u64,
    j: int,
    i: int,
)
    requires
        0 <= i < found.len(),
        0 <= j < found.len(),
        before(found, j, i),
        !goes(found, keep, budget, i),
    ensures
        !goes(found, keep, budget, j),
{
    lemma_before_counts(found, j, i, found.len() as int);
}

/// However little may be kept, the file used last stays.
pub proof fn law_the_latest_stays(found: Seq<Kept>, keep: int, budget: u64, i: int)
    requires
        0 <= i < found.len(),
        forall|j: int| 0 <= j < found.len() ==> !#[trigger] before(found, j, i),
    ensures
        !goes(found, keep, budget, i),
{
    lemma_none_ahead(found, i, found.len() as int);
}

proof fn lemma_none_ahead(found: Seq<Kept>, i: int, n: int)
    requires
        n <= found.len(),
        forall|j: int| 0 <= j < found.len() ==> !#[trigger] before(found, j, i),
    ensures
        ahead(found, i, n) == 0,
    decreases n,
{
    if n > 0 {
        lemma_none_ahead(found, i, n - 1);
    }
}

} // verus!
