//! Strings taken apart into characters and put together again.
use vstd::prelude::*;

verus! {

/// `String::push` appends one character.
pub assume_specification[ String::push ](s: &mut String, c: char)
    ensures
        final(s)@ == old(s)@.push(c),
;

/// The characters of a string.
pub fn chars_of(s: &str) -> (out: Vec<char>)
    ensures
        out@ == s@,
{
    let mut out: Vec<char> = Vec::new();
    for c in it: s.chars()
        invariant
            out@ == it.seq().take(it.index() as int),
            it.seq() == s@,
    {
        out.push(c);
        assert(it.seq().take(it.index() + 1) =~= it.seq().take(it.index() as int).push(c));
    }
    assert(out@ =~= s@);
    out
}

/// A string of these characters.
pub fn string_of(chars: &[char]) -> (out: String)
    ensures
        out@ == chars@,
{
    let mut out: String = String::new();
    let mut i: usize = 0;
    while i < chars.len()
        invariant
            i <= chars@.len(),
            out@ == chars@.take(i as int),
        decreases chars@.len() - i,
    {
        out.push(chars[i]);
        assert(chars@.take(i + 1) =~= chars@.take(i as int).push(chars@[i as int]));
        i += 1;
    }
    assert(chars@.take(i as int) =~= chars@);
    out
}

/// Whether two runs of characters are the same.
pub fn same_chars(a: &[char], b: &[char]) -> (r: bool)
    ensures
        r == (a@ == b@),
{
    if a.len() != b.len() {
        return false;
    }
    let mut i: usize = 0;
    while i < a.len()
        invariant
            a@.len() == b@.len(),
            i <= a@.len(),
            forall|j: int| 0 <= j < i ==> a@[j] == b@[j],
        decreases a@.len() - i,
    {
        if a[i] != b[i] {
            return false;
        }
        i += 1;
    }
    assert(a@ =~= b@);
    true
}

/// Whether two strings are the same.
pub fn same_text(a: &str, b: &str) -> (r: bool)
    ensures
        r == (a@ == b@),
{
    let (x, y): (Vec<char>, Vec<char>) = (chars_of(a), chars_of(b));
    same_chars(x.as_slice(), y.as_slice())
}

/// Append characters to a list of them.
pub fn put_chars(out: &mut Vec<char>, more: &[char])
    ensures
        final(out)@ == old(out)@ + more@,
{
    out.extend_from_slice(more);
    assert(out@ =~= old(out)@ + more@);
}

/// Append a string to a list of characters.
pub fn put_text(out: &mut Vec<char>, more: &str)
    ensures
        final(out)@ == old(out)@ + more@,
{
    let chars: Vec<char> = chars_of(more);
    put_chars(out, chars.as_slice());
}

/// A copy of a run of characters.
pub fn copied_chars(chars: &[char]) -> (out: Vec<char>)
    ensures
        out@ == chars@,
{
    let mut out: Vec<char> = Vec::new();
    put_chars(&mut out, chars);
    assert(out@ =~= chars@);
    out
}

/// Where a character first stands, from `i` on; the length where it does not.
pub open spec fn index_from(s: Seq<char>, c: char, i: int) -> int
    decreases s.len() - i,
{
    if i < 0 || i >= s.len() {
        s.len() as int
    } else if s[i] == c {
        i
    } else {
        index_from(s, c, i + 1)
    }
}

/// Find a character from `from` on; the length where it is not there.
pub fn find_char(s: &[char], c: char, from: usize) -> (r: usize)
    requires
        from <= s@.len(),
    ensures
        r == index_from(s@, c, from as int),
        from <= r <= s@.len(),
        r < s@.len() ==> s@[r as int] == c,
        forall|k: int| from <= k < r ==> s@[k] != c,
{
    let mut i: usize = from;
    while i < s.len()
        invariant
            from <= i <= s@.len(),
            index_from(s@, c, from as int) == index_from(s@, c, i as int),
            forall|k: int| from <= k < i ==> s@[k] != c,
        decreases s@.len() - i,
    {
        if s[i] == c {
            return i;
        }
        i += 1;
    }
    i
}

/// Where the character first stands is settled by what stands before it.
pub proof fn lemma_index_is_first(s: Seq<char>, c: char, i: int, at: int)
    requires
        0 <= i <= at <= s.len(),
        forall|k: int| i <= k < at ==> s[k] != c,
        at < s.len() ==> s[at] == c,
    ensures
        index_from(s, c, i) == at,
    decreases at - i,
{
    if i < at {
        lemma_index_is_first(s, c, i + 1, at);
    }
}

/// The characters of a list of strings.
pub open spec fn texts(list: Seq<Vec<char>>) -> Seq<Seq<char>> {
    list.map_values(|l: Vec<char>| l@)
}

/// The bytes a run of characters is stored as.
pub open spec fn stored(s: Seq<char>) -> Seq<u8> {
    vstd::utf8::encode_utf8(s)
}

/// What `String::from_utf8_lossy` makes of bytes that do not store a text.
pub uninterp spec fn lossy(bytes: Seq<u8>) -> Seq<char>;

/// `String::from_utf8_lossy`: the text some bytes store. Bytes that are not
/// UTF-8 give replacement characters in their place; which ones is left to the
/// name, bytes that are UTF-8 give exactly what they say.
#[verifier::external_body]
pub(crate) fn from_lossy(bytes: &[u8]) -> (out: String)
    ensures
        vstd::utf8::valid_utf8(bytes@) ==> out@ == vstd::utf8::decode_utf8(bytes@),
        !vstd::utf8::valid_utf8(bytes@) ==> out@ == lossy(bytes@),
{
    String::from_utf8_lossy(bytes).into_owned()
}

/// `std::str::from_utf8`: the text some bytes store, where they are UTF-8;
/// nothing where they are not.
#[verifier::external_body]
pub(crate) fn from_stored(bytes: &[u8]) -> (r: Option<&str>)
    ensures
        r is Some <==> vstd::utf8::valid_utf8(bytes@),
        r is Some ==> r->0@ == vstd::utf8::decode_utf8(bytes@),
{
    std::str::from_utf8(bytes).ok()
}

/// The text some bytes store, or what can be had of one.
pub open spec fn text_of(bytes: Seq<u8>) -> Seq<char> {
    if vstd::utf8::valid_utf8(bytes) {
        vstd::utf8::decode_utf8(bytes)
    } else {
        lossy(bytes)
    }
}

/// Bytes that store a text are read as that text.
pub proof fn lemma_stored_reads_back(s: Seq<char>)
    ensures
        text_of(stored(s)) == s,
{
    vstd::utf8::encode_utf8_valid_utf8(s);
    vstd::utf8::encode_utf8_decode_utf8(s);
}

/// Whether a character is white space, as Unicode has it.
pub open spec fn spacing(c: char) -> bool {
    ||| '\u{9}' <= c <= '\u{d}'
    ||| c == ' '
    ||| c == '\u{85}'
    ||| c == '\u{a0}'
    ||| c == '\u{1680}'
    ||| '\u{2000}' <= c <= '\u{200a}'
    ||| c == '\u{2028}'
    ||| c == '\u{2029}'
    ||| c == '\u{202f}'
    ||| c == '\u{205f}'
    ||| c == '\u{3000}'
}

/// Whether a character is white space, as Unicode has it.
pub fn is_space(c: char) -> (r: bool)
    ensures
        r == spacing(c),
{
    ('\u{9}' <= c && c <= '\u{d}') || c == ' ' || c == '\u{85}' || c == '\u{a0}' || c == '\u{1680}'
        || ('\u{2000}' <= c && c <= '\u{200a}') || c == '\u{2028}' || c == '\u{2029}' || c
        == '\u{202f}' || c == '\u{205f}' || c == '\u{3000}'
}

/// Where the white space that starts at `i` ends.
pub open spec fn space_end(s: Seq<char>, i: int) -> int
    decreases s.len() - i,
{
    if 0 <= i < s.len() && spacing(s[i]) {
        space_end(s, i + 1)
    } else {
        i
    }
}

/// Where the word that starts at `i` ends.
pub open spec fn word_end(s: Seq<char>, i: int) -> int
    decreases s.len() - i,
{
    if 0 <= i < s.len() && !spacing(s[i]) {
        word_end(s, i + 1)
    } else {
        i
    }
}

/// Where what stands before the white space at the end of the first `n` ends.
pub open spec fn space_start(s: Seq<char>, n: int) -> int
    decreases n,
{
    if 0 < n <= s.len() && spacing(s[n - 1]) {
        space_start(s, n - 1)
    } else {
        n
    }
}

/// White space ends where it ends.
pub proof fn lemma_space_end(s: Seq<char>, i: int)
    requires
        0 <= i <= s.len(),
    ensures
        i <= space_end(s, i) <= s.len(),
        space_end(s, i) < s.len() ==> !spacing(s[space_end(s, i)]),
        forall|k: int| i <= k < space_end(s, i) ==> spacing(s[k]),
    decreases s.len() - i,
{
    if i < s.len() && spacing(s[i]) {
        lemma_space_end(s, i + 1);
    }
}

/// A word ends where white space or the text does.
pub proof fn lemma_word_end(s: Seq<char>, i: int)
    requires
        0 <= i <= s.len(),
    ensures
        i <= word_end(s, i) <= s.len(),
        i < s.len() && !spacing(s[i]) ==> i < word_end(s, i),
    decreases s.len() - i,
{
    if i < s.len() && !spacing(s[i]) {
        lemma_word_end(s, i + 1);
    }
}

/// A text with the white space at both ends taken off.
pub open spec fn trimmed(s: Seq<char>) -> Seq<char> {
    let from = space_end(s, 0);
    if from >= s.len() {
        Seq::empty()
    } else {
        s.subrange(from, space_start(s, s.len() as int))
    }
}

/// Take the white space off both ends.
pub fn trim(s: &[char]) -> (out: Vec<char>)
    ensures
        out@ == trimmed(s@),
{
    let mut from: usize = 0;
    while from < s.len() && is_space(s[from])
        invariant
            from <= s@.len(),
            space_end(s@, 0) == space_end(s@, from as int),
        decreases s@.len() - from,
    {
        from += 1;
    }
    proof {
        lemma_space_end(s@, 0);
    }
    let mut to: usize = s.len();
    while to > from && is_space(s[to - 1])
        invariant
            from <= to <= s@.len(),
            from < s@.len() ==> from < to && !spacing(s@[from as int]),
            space_start(s@, s@.len() as int) == space_start(s@, to as int),
        decreases to,
    {
        to -= 1;
    }
    if from >= s.len() {
        return Vec::new();
    }
    copied_chars(vstd::slice::slice_subrange(s, from, to))
}

/// The words of a text, from `i` on.
pub open spec fn words_from(s: Seq<char>, i: int) -> Seq<Seq<char>>
    decreases s.len() - i,
{
    let from = space_end(s, i);
    let to = word_end(s, from);
    if i < 0 || from < i || from >= s.len() || to <= from || to > s.len() {
        Seq::empty()
    } else {
        seq![s.subrange(from, to)] + words_from(s, to)
    }
}

/// The words of a text: what stands between white space.
pub fn words(s: &[char]) -> (out: Vec<Vec<char>>)
    ensures
        texts(out@) == words_from(s@, 0),
{
    let mut out: Vec<Vec<char>> = Vec::new();
    assert(texts(out@) =~= Seq::empty());
    let mut i: usize = 0;
    loop
        invariant_except_break
            i <= s@.len(),
            words_from(s@, 0) =~= texts(out@) + words_from(s@, i as int),
        ensures
            words_from(s@, 0) =~= texts(out@),
        decreases s@.len() - i,
    {
        let ghost start = i;
        let ghost from = space_end(s@, i as int);
        proof {
            lemma_space_end(s@, i as int);
            lemma_word_end(s@, from);
        }
        while i < s.len() && is_space(s[i])
            invariant
                i <= s@.len(),
                from == space_end(s@, i as int),
            decreases s@.len() - i,
        {
            i += 1;
        }
        if i >= s.len() {
            break;
        }
        let at: usize = i;
        while i < s.len() && !is_space(s[i])
            invariant
                at <= i <= s@.len(),
                word_end(s@, from) == word_end(s@, i as int),
            decreases s@.len() - i,
        {
            i += 1;
        }
        let ghost before = texts(out@);
        let word: Vec<char> = copied_chars(vstd::slice::slice_subrange(s, at, i));
        let ghost w = word@;
        out.push(word);
        assert(texts(out@) =~= before.push(w));
    }
    out
}

/// A text taken apart at every `c`.
pub open spec fn split_at(s: Seq<char>, c: char) -> Seq<Seq<char>> {
    split_from(s, c, 0)
}

/// A text from `i` on, taken apart at every `c`.
pub open spec fn split_from(s: Seq<char>, c: char, i: int) -> Seq<Seq<char>>
    decreases s.len() - i,
{
    let at = index_from(s, c, i);
    if i < 0 || i > s.len() {
        Seq::empty()
    } else if at < i || at >= s.len() {
        seq![s.skip(i)]
    } else {
        seq![s.subrange(i, at)] + split_from(s, c, at + 1)
    }
}

/// Take a text apart at every `c`.
pub fn split_chars(s: &[char], c: char) -> (out: Vec<Vec<char>>)
    ensures
        texts(out@) == split_at(s@, c),
{
    let mut out: Vec<Vec<char>> = Vec::new();
    assert(texts(out@) =~= Seq::empty());
    let mut i: usize = 0;
    loop
        invariant_except_break
            i <= s@.len(),
            split_at(s@, c) =~= texts(out@) + split_from(s@, c, i as int),
        ensures
            split_at(s@, c) =~= texts(out@),
        decreases s@.len() - i,
    {
        let at: usize = find_char(s, c, i);
        let part: Vec<char> = copied_chars(vstd::slice::slice_subrange(s, i, at));
        let ghost before = texts(out@);
        let ghost p = part@;
        out.push(part);
        assert(texts(out@) =~= before.push(p));
        if at >= s.len() {
            assert(p =~= s@.skip(i as int));
            break;
        }
        i = at + 1;
    }
    out
}

/// The lines of a text, from `i` on: what a line feed ends, and the carriage
/// return before it with it.
pub open spec fn lines_from(s: Seq<char>, i: int) -> Seq<Seq<char>>
    decreases s.len() - i,
{
    let at = index_from(s, '\n', i);
    if i < 0 || i >= s.len() || at < i {
        Seq::empty()
    } else if at >= s.len() {
        seq![s.skip(i)]
    } else {
        seq![
            s.subrange(
                i,
                if at > i && s[at - 1] == '\r' {
                    at - 1
                } else {
                    at
                },
            ),
        ] + lines_from(s, at + 1)
    }
}

/// The lines of a text.
pub fn lines(s: &[char]) -> (out: Vec<Vec<char>>)
    ensures
        texts(out@) == lines_from(s@, 0),
{
    let mut out: Vec<Vec<char>> = Vec::new();
    assert(texts(out@) =~= Seq::empty());
    let mut i: usize = 0;
    while i < s.len()
        invariant
            i <= s@.len(),
            lines_from(s@, 0) =~= texts(out@) + lines_from(s@, i as int),
        decreases s@.len() - i,
    {
        let at: usize = find_char(s, '\n', i);
        let end: usize = if at < s.len() && at > i && s[at - 1] == '\r' {
            at - 1
        } else {
            at
        };
        let line: Vec<char> = copied_chars(vstd::slice::slice_subrange(s, i, end));
        let ghost before = texts(out@);
        let ghost l = line@;
        out.push(line);
        assert(texts(out@) =~= before.push(l));
        if at >= s.len() {
            assert(l =~= s@.skip(i as int));
            i = at;
        } else {
            i = at + 1;
        }
    }
    out
}

/// Whether a text opens with another.
pub open spec fn opens_with(s: Seq<char>, head: Seq<char>) -> bool {
    s.len() >= head.len() && s.take(head.len() as int) == head
}

/// Whether a text opens with another.
pub fn starts_with(s: &[char], head: &[char]) -> (r: bool)
    ensures
        r == opens_with(s@, head@),
{
    if s.len() < head.len() {
        return false;
    }
    same_chars(vstd::slice::slice_subrange(s, 0, head.len()), head)
}

/// Whether a text stands somewhere in another.
pub open spec fn holds_text(s: Seq<char>, part: Seq<char>) -> bool {
    exists|i: int| 0 <= i <= s.len() && #[trigger] opens_with(s.skip(i), part)
}

/// Whether a text stands somewhere in another.
pub fn contains_text(s: &[char], part: &[char]) -> (r: bool)
    ensures
        r == holds_text(s@, part@),
{
    let len: usize = s.len();
    let mut i: usize = 0;
    loop
        invariant
            i <= len == s@.len(),
            forall|k: int| 0 <= k < i ==> !#[trigger] opens_with(s@.skip(k), part@),
        decreases len - i,
    {
        let rest: &[char] = vstd::slice::slice_subrange(s, i, len);
        assert(rest@ =~= s@.skip(i as int));
        if starts_with(rest, part) {
            return true;
        }
        if i == len {
            return false;
        }
        i += 1;
    }
}

/// A letter of the alphabet with no accents, made small.
pub open spec fn small(c: char) -> char {
    if 'A' <= c <= 'Z' {
        (c as int + 32) as char
    } else {
        c
    }
}

/// Texts put together with a character between them.
pub open spec fn joined(parts: Seq<Seq<char>>, c: char) -> Seq<char> {
    joined_from(parts, c, 0)
}

/// The texts from the `i`th on, each with the character in front that parts
/// it from the one before.
pub open spec fn joined_from(parts: Seq<Seq<char>>, c: char, i: int) -> Seq<char>
    decreases parts.len() - i,
{
    if i < 0 || i >= parts.len() {
        Seq::empty()
    } else {
        (if i > 0 {
            seq![c]
        } else {
            Seq::empty()
        }) + parts[i] + joined_from(parts, c, i + 1)
    }
}

/// Put texts together with a character between them.
pub fn join(parts: &[Vec<char>], c: char) -> (out: Vec<char>)
    ensures
        out@ == joined(texts(parts@), c),
{
    let mut out: Vec<char> = Vec::new();
    let mut i: usize = 0;
    while i < parts.len()
        invariant
            i <= parts@.len(),
            joined(texts(parts@), c) =~= out@ + joined_from(texts(parts@), c, i as int),
        decreases parts@.len() - i,
    {
        if i > 0 {
            out.push(c);
        }
        put_chars(&mut out, parts[i].as_slice());
        assert(texts(parts@)[i as int] == parts@[i as int]@);
        i += 1;
    }
    out
}

/// What was put together comes apart again, from a part on.
proof fn lemma_splits_from(parts: Seq<Seq<char>>, c: char, i: int, s: Seq<char>, k: int)
    requires
        0 <= i < parts.len(),
        0 <= k <= s.len(),
        s.skip(k) == parts[i] + joined_from(parts, c, i + 1),
        forall|a: int, b: int|
            0 <= a < parts.len() && 0 <= b < parts[a].len() ==> #[trigger] parts[a][b] != c,
    ensures
        split_from(s, c, k) == parts.skip(i),
    decreases parts.len() - i,
{
    let tail = joined_from(parts, c, i + 1);
    let n = parts[i].len() as int;
    assert(s.skip(k).len() == s.len() - k);
    assert(s.len() == k + n + tail.len());
    assert forall|j: int| k <= j < k + n implies s[j] != c by {
        assert(s[j] == s.skip(k)[j - k]);
        assert(s[j] == parts[i][j - k]);
    }
    if i + 1 == parts.len() {
        lemma_index_is_first(s, c, k, k + n);
        assert(s.skip(k) =~= parts[i]);
        assert(parts.skip(i) =~= seq![parts[i]]);
    } else {
        assert(tail[0] == c);
        assert(s[k + n] == s.skip(k)[n]);
        assert(s[k + n] == c);
        lemma_index_is_first(s, c, k, k + n);
        assert(s.subrange(k, k + n) =~= parts[i]);
        assert(s.skip(k + n + 1) =~= s.skip(k).skip(n + 1));
        assert(s.skip(k + n + 1) =~= parts[i + 1] + joined_from(parts, c, i + 2));
        lemma_splits_from(parts, c, i + 1, s, k + n + 1);
        assert(parts.skip(i) =~= seq![parts[i]] + parts.skip(i + 1));
    }
}

/// What was put together comes apart again, where no part holds what parts
/// them.
pub proof fn lemma_joined_splits(parts: Seq<Seq<char>>, c: char)
    requires
        parts.len() > 0,
        forall|a: int, b: int|
            0 <= a < parts.len() && 0 <= b < parts[a].len() ==> #[trigger] parts[a][b] != c,
    ensures
        split_at(joined(parts, c), c) == parts,
{
    let s = joined(parts, c);
    assert(s.skip(0) =~= parts[0] + joined_from(parts, c, 1));
    lemma_splits_from(parts, c, 0, s, 0);
    assert(parts.skip(0) =~= parts);
}

/// A text with one character put for another.
pub open spec fn replaced(s: Seq<char>, from: char, to: char) -> Seq<char> {
    s.map_values(
        |c: char|
            if c == from {
                to
            } else {
                c
            },
    )
}

/// Put one character for another.
pub fn replace(s: &[char], from: char, to: char) -> (out: Vec<char>)
    ensures
        out@ == replaced(s@, from, to),
{
    let mut out: Vec<char> = Vec::new();
    let mut i: usize = 0;
    while i < s.len()
        invariant
            i <= s@.len(),
            out@ =~= replaced(s@, from, to).take(i as int),
        decreases s@.len() - i,
    {
        out.push(
            if s[i] == from {
                to
            } else {
                s[i]
            },
        );
        i += 1;
    }
    out
}

} // verus!
