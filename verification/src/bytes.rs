//! Small steps on runs of bytes, shared by the readers and the writers.
use vstd::prelude::*;

verus! {

/// Two bytes, most significant first.
pub open spec fn be16(hi: u8, lo: u8) -> int {
    hi * 256 + lo
}

/// The two bytes of `v`, most significant first.
pub open spec fn be16_bytes(v: int) -> Seq<u8> {
    seq![(v / 256 % 256) as u8, (v % 256) as u8]
}

/// The contents of a list of byte strings.
pub open spec fn contents(lists: Seq<Vec<u8>>) -> Seq<Seq<u8>> {
    lists.map_values(|l: Vec<u8>| l@)
}

/// The contents of a byte string that may be absent.
pub open spec fn content(held: Option<Vec<u8>>) -> Option<Seq<u8>> {
    match held {
        Some(v) => Some(v@),
        None => None,
    }
}

/// Append `more` to `out`.
pub fn put(out: &mut Vec<u8>, more: &[u8])
    ensures
        final(out)@ == old(out)@ + more@,
{
    out.extend_from_slice(more);
    assert(out@ =~= old(out)@ + more@);
}

/// A copy of a byte string.
pub fn copied(bytes: &[u8]) -> (out: Vec<u8>)
    ensures
        out@ == bytes@,
{
    let mut out: Vec<u8> = Vec::with_capacity(bytes.len());
    put(&mut out, bytes);
    assert(out@ =~= bytes@);
    out
}

/// A copy of a byte string that may be absent.
pub fn copied_if(held: &Option<Vec<u8>>) -> (out: Option<Vec<u8>>)
    ensures
        content(out) == content(*held),
{
    match held {
        Some(v) => Some(copied(v.as_slice())),
        None => None,
    }
}

/// Whether two byte strings are the same.
pub fn same(a: &[u8], b: &[u8]) -> (r: bool)
    ensures
        r == (a@ == b@),
{
    if a.len() != b.len() {
        return false;
    }
    let mut i: usize = 0;
    while i < a.len()
        invariant
            a@.len() == b@.len(),
            i <= a@.len(),
            forall|j: int| 0 <= j < i ==> a@[j] == b@[j],
        decreases a@.len() - i,
    {
        if a[i] != b[i] {
            return false;
        }
        i += 1;
    }
    assert(a@ =~= b@);
    true
}

/// The bytes of a text that is all ASCII.
pub open spec fn ascii(s: Seq<char>) -> Seq<u8> {
    Seq::new(s.len(), |i: int| s[i] as u8)
}

/// The bytes of a text that is all ASCII.
pub fn ascii_bytes(s: &str) -> (out: Vec<u8>)
    ensures
        out@ == ascii(s@),
{
    let chars: Vec<char> = crate::chars::chars_of(s);
    let mut out: Vec<u8> = Vec::new();
    let mut i: usize = 0;
    while i < chars.len()
        invariant
            i <= chars@.len(),
            out@ =~= ascii(chars@).take(i as int),
        decreases chars@.len() - i,
    {
        out.push(chars[i] as u8);
        i += 1;
    }
    assert(out@ =~= ascii(s@));
    out
}

/// Whether one run of bytes stands in another at `i`.
pub open spec fn stands_at(b: Seq<u8>, needle: Seq<u8>, i: int) -> bool {
    0 <= i && i + needle.len() <= b.len() && forall|k: int|
        0 <= k < needle.len() ==> b[i + k] == #[trigger] needle[k]
}

/// Where one run of bytes first stands in another, from `i` on.
pub open spec fn first_at(b: Seq<u8>, needle: Seq<u8>, i: int) -> Option<int>
    decreases b.len() - i,
{
    if i < 0 || i + needle.len() > b.len() {
        None
    } else if stands_at(b, needle, i) {
        Some(i)
    } else if i < b.len() {
        first_at(b, needle, i + 1)
    } else {
        None
    }
}

/// Whether one run of bytes stands in another at `i`.
pub fn stands(b: &[u8], needle: &[u8], i: usize) -> (r: bool)
    requires
        i <= b@.len(),
    ensures
        r == stands_at(b@, needle@, i as int),
{
    if b.len() - i < needle.len() {
        return false;
    }
    let len: usize = b.len();
    let mut k: usize = 0;
    while k < needle.len()
        invariant
            len == b@.len(),
            i + needle@.len() <= len,
            k <= needle@.len(),
            forall|j: int| 0 <= j < k ==> b@[i + j] == #[trigger] needle@[j],
        decreases needle@.len() - k,
    {
        if b[i + k] != needle[k] {
            assert(b@[i + k] != needle@[k as int]);
            return false;
        }
        k += 1;
    }
    true
}

/// What is found is there, and nothing before it is.
pub proof fn lemma_first_at(b: Seq<u8>, needle: Seq<u8>, i: int)
    requires
        0 <= i,
    ensures
        match first_at(b, needle, i) {
            Some(at) => i <= at && stands_at(b, needle, at) && forall|k: int|
                i <= k < at ==> !#[trigger] stands_at(b, needle, k),
            None => forall|k: int| i <= k ==> !#[trigger] stands_at(b, needle, k),
        },
    decreases b.len() - i,
{
    if i + needle.len() <= b.len() && !stands_at(b, needle, i) && i < b.len() {
        lemma_first_at(b, needle, i + 1);
    }
}

/// Find one run of bytes in another, from `from` on.
pub fn find(b: &[u8], needle: &[u8], from: usize) -> (r: Option<usize>)
    requires
        from <= b@.len(),
    ensures
        match r {
            Some(at) => first_at(b@, needle@, from as int) == Some(at as int) && from <= at && at
                + needle@.len() <= b@.len() && stands_at(b@, needle@, at as int),
            None => first_at(b@, needle@, from as int) is None,
        },
{
    let mut i: usize = from;
    while i <= b.len() && b.len() - i >= needle.len()
        invariant
            from <= i <= b@.len(),
            first_at(b@, needle@, from as int) == first_at(b@, needle@, i as int),
        decreases b@.len() + 1 - i,
    {
        if stands(b, needle, i) {
            return Some(i);
        }
        if i == b.len() {
            return None;
        }
        i += 1;
    }
    None
}

/// Where a byte first stands, from `i` on.
pub open spec fn byte_from(b: Seq<u8>, c: u8, i: int) -> Option<int>
    decreases b.len() - i,
{
    if i < 0 || i >= b.len() {
        None
    } else if b[i] == c {
        Some(i)
    } else {
        byte_from(b, c, i + 1)
    }
}

/// A byte with none of it before is the first of it.
pub proof fn lemma_byte_is_first(b: Seq<u8>, c: u8, i: int, at: int)
    requires
        0 <= i <= at <= b.len(),
        forall|k: int| i <= k < at ==> b[k] != c,
        at < b.len() ==> b[at] == c,
    ensures
        byte_from(b, c, i) == (if at < b.len() {
            Some(at)
        } else {
            None
        }),
    decreases at - i,
{
    if i < at {
        lemma_byte_is_first(b, c, i + 1, at);
    }
}

/// Find a byte, from `from` on.
pub fn find_byte(b: &[u8], c: u8, from: usize) -> (r: Option<usize>)
    requires
        from <= b@.len(),
    ensures
        match r {
            Some(at) => byte_from(b@, c, from as int) == Some(at as int) && from <= at < b@.len()
                && b@[at as int] == c,
            None => byte_from(b@, c, from as int) is None,
        },
{
    let mut i: usize = from;
    while i < b.len()
        invariant
            from <= i <= b@.len(),
            byte_from(b@, c, from as int) == byte_from(b@, c, i as int),
        decreases b@.len() - i,
    {
        if b[i] == c {
            return Some(i);
        }
        i += 1;
    }
    None
}

} // verus!
