//! Where a network share is, once the machine has already mounted it.
//!
//! A recording on a NAS is named twice: `smb://nas/rec/2026-09-01.ts` is what
//! the file manager, the phone and the sticky note say, and
//! `/run/user/1000/gvfs/smb-share:server=nas,share=rec/2026-09-01.ts` is what
//! can be opened. Nothing here mounts anything -- mounting is where the
//! password lives, and that belongs to the desktop's own keyring. This is only
//! the step between the two names, so that a share the machine has *already*
//! mounted can be pasted in the form the user has it written down in.
//!
//! Two mounters are looked for, because a share arrives one of two ways:
//!
//!   * **cifs**, mounted by the kernel (`mount -t cifs`, an `fstab` line),
//!     which shows up in `/proc/self/mounts` as `//host/share`;
//!   * **gvfs**, mounted by the desktop, which is FUSE and shows up as a
//!     directory named `smb-share:server=…,share=…` under the session's
//!     runtime directory.
//!
//! Both end in an ordinary path, which is the point: everything downstream
//! goes on working without knowing a network was involved. What is on the
//! machine -- the mount table, the directories the desktop made -- is read
//! elsewhere and handed in here as text.
pub mod kept;

use crate::chars::{
    chars_of, copied_chars, find_char, from_lossy, index_from, join, joined, joined_from,
    lemma_joined_splits, lemma_stored_reads_back, lines, lines_from, opens_with, put_chars,
    replace, replaced, same_chars, same_text, small, spacing, split_at, split_chars, starts_with,
    stored, string_of, text_of, texts, trim, trimmed, words, words_from,
};
use vstd::prelude::*;
use vstd::slice::slice_subrange;
use vstd::utf8::is_ascii_chars;

verus! {

/// A share, and the path inside it. `rest` is empty when the input named the
/// share itself, and uses forward slashes whichever spelling it came in as.
#[derive(Debug, Clone, PartialEq, Eq)]
pub struct Share {
    pub host: String,
    pub share: String,
    pub rest: String,
}

/// What a [`Share`] holds.
pub struct ShareModel {
    pub host: Seq<char>,
    pub share: Seq<char>,
    pub rest: Seq<char>,
}

impl View for Share {
    type V = ShareModel;

    open spec fn view(&self) -> ShareModel {
        ShareModel { host: self.host@, share: self.share@, rest: self.rest@ }
    }
}

/// A share, spelled the way Windows spells it.
pub open spec fn unc_of(s: ShareModel) -> Seq<char> {
    seq!['\\', '\\'] + s.host + seq!['\\'] + s.share + (if s.rest.len() == 0 {
        Seq::empty()
    } else {
        seq!['\\'] + replaced(s.rest, '/', '\\')
    })
}

/// A share, spelled the way a file manager spells it.
pub open spec fn url_of(s: ShareModel) -> Seq<char> {
    seq!['s', 'm', 'b', ':', '/', '/'] + s.host + seq!['/'] + s.share + (if s.rest.len() == 0 {
        Seq::empty()
    } else {
        seq!['/'] + s.rest
    })
}

impl Share {
    /// `\\host\share\dir\file`, the spelling to hand to Windows and the one
    /// to print when saying which share is missing.
    pub fn unc(&self) -> (r: String)
        ensures
            r@ == unc_of(self@),
    {
        let mut out: Vec<char> = Vec::new();
        out.push('\\');
        out.push('\\');
        put_chars(&mut out, chars_of(self.host.as_str()).as_slice());
        out.push('\\');
        put_chars(&mut out, chars_of(self.share.as_str()).as_slice());
        let rest: Vec<char> = chars_of(self.rest.as_str());
        if rest.len() > 0 {
            out.push('\\');
            put_chars(&mut out, replace(rest.as_slice(), '/', '\\').as_slice());
        }
        assert(out@ =~= unc_of(self@));
        string_of(out.as_slice())
    }

    /// `smb://host/share/dir/file`, the spelling a file manager takes.
    pub fn url(&self) -> (r: String)
        ensures
            r@ == url_of(self@),
    {
        let mut out: Vec<char> = Vec::new();
        out.push('s');
        out.push('m');
        out.push('b');
        out.push(':');
        out.push('/');
        out.push('/');
        put_chars(&mut out, chars_of(self.host.as_str()).as_slice());
        out.push('/');
        put_chars(&mut out, chars_of(self.share.as_str()).as_slice());
        let rest: Vec<char> = chars_of(self.rest.as_str());
        if rest.len() > 0 {
            out.push('/');
            put_chars(&mut out, rest.as_slice());
        }
        assert(out@ =~= url_of(self@));
        string_of(out.as_slice())
    }
}

/// The number a hexadecimal digit stands for.
pub open spec fn hex_value(c: u8) -> Option<u8> {
    if 48 <= c <= 57 {
        Some((c - 48) as u8)
    } else if 97 <= c <= 102 {
        Some((c - 87) as u8)
    } else if 65 <= c <= 70 {
        Some((c - 55) as u8)
    } else {
        None
    }
}

fn hex(c: u8) -> (r: Option<u8>)
    ensures
        r == hex_value(c),
{
    if 48 <= c && c <= 57 {
        Some(c - 48)
    } else if 97 <= c && c <= 102 {
        Some(c - 87)
    } else if 65 <= c && c <= 70 {
        Some(c - 55)
    } else {
        None
    }
}

/// Whether what stands at `i` is an escape: a percent sign and two
/// hexadecimal digits.
pub open spec fn escape_at(b: Seq<u8>, i: int) -> bool {
    &&& b[i] == 37
    &&& i + 2 < b.len()
    &&& hex_value(b[i + 1]) is Some
    &&& hex_value(b[i + 2]) is Some
}

/// The bytes from `i` on with every escape read. One that is not an escape is
/// left as it stands, since the alternative is losing a file name over a stray
/// percent sign.
pub open spec fn unpercent(b: Seq<u8>, i: int) -> Seq<u8>
    decreases b.len() - i,
{
    if i < 0 || i >= b.len() {
        Seq::empty()
    } else if escape_at(b, i) {
        seq![(hex_value(b[i + 1])->0 * 16 + hex_value(b[i + 2])->0) as u8] + unpercent(b, i + 3)
    } else {
        seq![b[i]] + unpercent(b, i + 1)
    }
}

/// A text with every escape read.
pub open spec fn decoded(s: Seq<char>) -> Seq<char> {
    text_of(unpercent(stored(s), 0))
}

/// `%20` and friends.
pub fn decode(text: &str) -> (r: String)
    ensures
        r@ == decoded(text@),
{
    let bytes: &[u8] = text.as_bytes();
    let mut out: Vec<u8> = Vec::new();
    let mut i: usize = 0;
    while i < bytes.len()
        invariant
            i <= bytes@.len(),
            unpercent(bytes@, 0) =~= out@ + unpercent(bytes@, i as int),
        decreases bytes@.len() - i,
    {
        if bytes[i] == 37 && bytes.len() - i > 2 {
            if let (Some(h), Some(l)) = (hex(bytes[i + 1]), hex(bytes[i + 2])) {
                out.push(h * 16 + l);
                i += 3;
                continue;
            }
        }
        out.push(bytes[i]);
        i += 1;
    }
    from_lossy(out.as_slice())
}

/// What is left behind `smb://`, however it is capitalised; not asked of a
/// text that does not open so.
pub open spec fn opens_smb(text: Seq<char>) -> bool {
    &&& text.len() >= 6
    &&& small(text[0]) == 's'
    &&& small(text[1]) == 'm'
    &&& small(text[2]) == 'b'
    &&& text[3] == ':'
    &&& text[4] == '/'
    &&& text[5] == '/'
}

/// Whether a text opens as a share does on Windows, and not as one of the two
/// spellings of a path there that open the same way.
pub open spec fn opens_unc(text: Seq<char>) -> bool {
    &&& opens_with(text, seq!['\\', '\\'])
    &&& !opens_with(text, seq!['\\', '\\', '?', '\\'])
    &&& !opens_with(text, seq!['\\', '\\', '.', '\\'])
}

/// The parts of a path that are there: two slashes together part nothing.
pub open spec fn present(parts: Seq<Seq<char>>) -> Seq<Seq<char>>
    decreases parts.len(),
{
    if parts.len() == 0 {
        Seq::empty()
    } else if parts.last().len() == 0 {
        present(parts.drop_last())
    } else {
        present(parts.drop_last()).push(parts.last())
    }
}

/// What the parts of a path say: the host, the share, and what is inside.
pub open spec fn share_in(parts: Seq<Seq<char>>) -> Option<ShareModel> {
    if parts.len() < 2 || parts[0].len() == 0 || parts[1].len() == 0 {
        None
    } else {
        Some(
            ShareModel {
                host: parts[0],
                share: parts[1],
                rest: joined(parts.skip(2), '/'),
            },
        )
    }
}

/// The parts of what follows the opening of a share.
pub open spec fn parts_of(body: Seq<char>) -> Seq<Seq<char>> {
    present(split_at(replaced(body, '\\', '/'), '/'))
}

/// The share a text names; `None` for anything else, which is to say for an
/// ordinary path.
pub open spec fn parsed(input: Seq<char>) -> Option<ShareModel> {
    let text = trimmed(input);
    if opens_smb(text) {
        share_in(parts_of(text.skip(6)).map_values(|p: Seq<char>| decoded(p)))
    } else if opens_unc(text) {
        share_in(parts_of(text.skip(2)))
    } else {
        None
    }
}

/// Keep the parts that are there, reading the escapes in them where the
/// spelling has any.
fn read_parts(body: &[char], encoded: bool) -> (out: Vec<Vec<char>>)
    ensures
        encoded ==> texts(out@) == parts_of(body@).map_values(|p: Seq<char>| decoded(p)),
        !encoded ==> texts(out@) == parts_of(body@),
{
    let pieces: Vec<Vec<char>> = split_chars(replace(body, '\\', '/').as_slice(), '/');
    let ghost all = texts(pieces@);
    let ghost read = |p: Seq<char>|
        if encoded {
            decoded(p)
        } else {
            p
        };
    let mut out: Vec<Vec<char>> = Vec::new();
    assert(texts(out@) =~= present(all.take(0)).map_values(read));
    let mut i: usize = 0;
    while i < pieces.len()
        invariant
            i <= pieces@.len(),
            all == texts(pieces@),
            read == (|p: Seq<char>|
                if encoded {
                    decoded(p)
                } else {
                    p
                }),
            texts(out@) == present(all.take(i as int)).map_values(read),
        decreases pieces@.len() - i,
    {
        assert(all.take(i + 1).drop_last() =~= all.take(i as int));
        assert(all.take(i + 1).last() == pieces@[i as int]@);
        if pieces[i].len() > 0 {
            let ghost before = texts(out@);
            let part: Vec<char> = if encoded {
                let text: String = string_of(pieces[i].as_slice());
                chars_of(decode(text.as_str()).as_str())
            } else {
                copied_chars(pieces[i].as_slice())
            };
            let ghost p = part@;
            out.push(part);
            assert(texts(out@) =~= before.push(p));
            assert(present(all.take(i + 1)).map_values(read) =~= before.push(p));
        }
        i += 1;
    }
    assert(all.take(i as int) =~= all);
    if encoded {
        assert(texts(out@) =~= parts_of(body@).map_values(|p: Seq<char>| decoded(p)));
    } else {
        assert(texts(out@) =~= parts_of(body@));
    }
    out
}

/// A share named as `smb://host/share/…` or `\\host\share\…`, or `None` for
/// anything else -- which is to say for an ordinary path, the common case,
/// left alone.
///
/// `//host/share` is deliberately *not* accepted: on Unix that is a plain
/// path, and a recording under a directory called `nas` would be mistaken for
/// a share of that name.
///
/// Only the URL form is percent-encoded; a UNC path with a `%` in a file name
/// means the `%`.
pub fn parse(input: &str) -> (r: Option<Share>)
    ensures
        match r {
            Some(s) => parsed(input@) == Some(s@),
            None => parsed(input@) is None,
        },
{
    let text: Vec<char> = trim(chars_of(input).as_slice());
    let parts: Vec<Vec<char>> = if text.len() >= 6 && (text[0] == 's' || text[0] == 'S') && (text[1]
        == 'm' || text[1] == 'M') && (text[2] == 'b' || text[2] == 'B') && text[3] == ':' && text[4]
        == '/' && text[5] == '/' {
        let body: &[char] = slice_subrange(text.as_slice(), 6, text.len());
        assert(body@ =~= text@.skip(6));
        read_parts(body, true)
    } else if text.len() >= 2 && text[0] == '\\' && text[1] == '\\' && !(text.len() >= 4 && (text[2]
        == '?' || text[2] == '.') && text[3] == '\\') {
        proof {
            lemma_opens_unc(text@);
        }
        let body: &[char] = slice_subrange(text.as_slice(), 2, text.len());
        assert(body@ =~= text@.skip(2));
        read_parts(body, false)
    } else {
        proof {
            lemma_opens_unc(text@);
        }
        return None;
    };
    proof {
        lemma_opens_unc(text@);
    }
    let ghost all = texts(parts@);
    assert(parsed(input@) == share_in(all));
    if parts.len() < 2 {
        return None;
    }
    assert(all[0] == parts@[0]@ && all[1] == parts@[1]@);
    if parts[0].len() == 0 || parts[1].len() == 0 {
        return None;
    }
    let tail: &[Vec<char>] = slice_subrange(parts.as_slice(), 2, parts.len());
    assert(texts(tail@) =~= all.skip(2));
    let rest: Vec<char> = join(tail, '/');
    let share: Share = Share {
        host: string_of(parts[0].as_slice()),
        share: string_of(parts[1].as_slice()),
        rest: string_of(rest.as_slice()),
    };
    Some(share)
}

/// How a text opens, letter by letter.
proof fn lemma_opens_unc(t: Seq<char>)
    ensures
        opens_unc(t) == (t.len() >= 2 && t[0] == '\\' && t[1] == '\\' && !(t.len() >= 4 && (t[2]
            == '?' || t[2] == '.') && t[3] == '\\')),
        opens_unc(t) ==> !opens_smb(t),
{
    let two = seq!['\\', '\\'];
    let asked = seq!['\\', '\\', '?', '\\'];
    let dotted = seq!['\\', '\\', '.', '\\'];
    if t.len() >= 2 {
        assert(t.take(2)[0] == t[0] && t.take(2)[1] == t[1]);
        assert(opens_with(t, two) == (t[0] == '\\' && t[1] == '\\')) by {
            if t[0] == '\\' && t[1] == '\\' {
                assert(t.take(2) =~= two);
            }
        }
    }
    if t.len() >= 4 {
        let four = t.take(4);
        assert(four[0] == t[0] && four[1] == t[1] && four[2] == t[2] && four[3] == t[3]);
        if t[0] == '\\' && t[1] == '\\' && t[2] == '?' && t[3] == '\\' {
            assert(four =~= asked);
        }
        if t[0] == '\\' && t[1] == '\\' && t[2] == '.' && t[3] == '\\' {
            assert(four =~= dotted);
        }
        assert(four == asked ==> four[2] == '?' && four[3] == '\\');
        assert(four == dotted ==> four[2] == '.' && four[3] == '\\');
    }
}

/// A part of a path that stands for itself: there, and with nothing in it
/// that parts a path.
pub open spec fn plain_part(p: Seq<char>) -> bool {
    p.len() > 0 && forall|k: int| 0 <= k < p.len() ==> p[k] != '/' && p[k] != '\\'
}

/// Parts that are all there are all kept.
proof fn lemma_present_all(parts: Seq<Seq<char>>)
    requires
        forall|i: int| 0 <= i < parts.len() ==> (#[trigger] parts[i]).len() > 0,
    ensures
        present(parts) == parts,
    decreases parts.len(),
{
    if parts.len() > 0 {
        lemma_present_all(parts.drop_last());
        assert(parts.drop_last().push(parts.last()) =~= parts);
    }
}

/// Where no part holds either slash, putting one slash for the other leaves
/// only what parts them changed.
proof fn lemma_joined_replaced(parts: Seq<Seq<char>>, i: int, from: char, to: char)
    requires
        0 <= i <= parts.len(),
        from == '/' && to == '\\' || from == '\\' && to == '/',
        forall|a: int| 0 <= a < parts.len() ==> plain_part(#[trigger] parts[a]),
    ensures
        replaced(joined_from(parts, from, i), from, to) == joined_from(parts, to, i),
        forall|k: int|
            0 <= k < joined_from(parts, to, i).len() ==> joined_from(parts, to, i)[k] != from,
    decreases parts.len() - i,
{
    if i < parts.len() {
        lemma_joined_replaced(parts, i + 1, from, to);
        assert(plain_part(parts[i]));
        assert(replaced(joined_from(parts, from, i), from, to) =~= joined_from(parts, to, i));
    }
}

/// A text with nothing to take off its ends is left as it is.
proof fn lemma_trimmed(s: Seq<char>)
    requires
        s.len() > 0,
        !spacing(s[0]),
        !spacing(s[s.len() - 1]),
    ensures
        trimmed(s) == s,
{
    assert(s.subrange(0, s.len() as int) =~= s);
}

/// A share made of plain parts, as its parts.
pub open spec fn share_of(host: Seq<char>, share: Seq<char>, inside: Seq<Seq<char>>) -> ShareModel {
    ShareModel { host, share, rest: joined(inside, '/') }
}

/// Whether nothing in these parts would be taken for something else: every
/// one plain, and the last of them not ending in white space.
pub open spec fn spellable(host: Seq<char>, share: Seq<char>, inside: Seq<Seq<char>>) -> bool {
    let last = if inside.len() == 0 {
        share
    } else {
        inside.last()
    };
    &&& plain_part(host)
    &&& plain_part(share)
    &&& forall|i: int| 0 <= i < inside.len() ==> plain_part(#[trigger] inside[i])
    &&& !spacing(last[last.len() - 1])
}

/// What follows the opening of a share is its parts put together.
proof fn lemma_spelled(host: Seq<char>, share: Seq<char>, inside: Seq<Seq<char>>, c: char)
    requires
        spellable(host, share, inside),
        c == '/' || c == '\\',
    ensures
        ({
            let s = share_of(host, share, inside);
            let all = seq![host, share] + inside;
            let tail = if s.rest.len() == 0 {
                Seq::empty()
            } else {
                seq![c] + (if c == '/' {
                    s.rest
                } else {
                    replaced(s.rest, '/', '\\')
                })
            };
            host + seq![c] + share + tail == joined(all, c)
        }),
        ({
            let text = joined(seq![host, share] + inside, c);
            text.len() > 0 && !spacing(text[text.len() - 1])
        }),
{
    let all = seq![host, share] + inside;
    assert forall|a: int| 0 <= a < all.len() implies plain_part(#[trigger] all[a]) by {
        if a >= 2 {
            assert(all[a] == inside[a - 2]);
        }
    }
    lemma_joined_ends(all, c, 0);
    assert(all.last() == (if inside.len() == 0 {
        share
    } else {
        inside.last()
    }));
    assert(all.skip(2) =~= inside);
    lemma_joined_inside(all, inside, c, 0);
    lemma_first_two(all, c);
    if inside.len() == 0 {
        assert(joined(inside, '/') =~= Seq::empty());
        assert(joined_from(inside, c, 0) =~= Seq::empty());
    } else {
        lemma_joined_ends(inside, '/', 0);
        lemma_joined_replaced(inside, 0, '/', '\\');
    }
}

/// The first two of a list, put together in front of the others.
proof fn lemma_first_two(all: Seq<Seq<char>>, c: char)
    requires
        all.len() >= 2,
    ensures
        joined(all, c) == all[0] + seq![c] + all[1] + joined_from(all, c, 2),
{
    let rest = joined_from(all, c, 2);
    assert(joined_from(all, c, 1) == seq![c] + all[1] + rest);
    assert(joined(all, c) == Seq::<char>::empty() + all[0] + joined_from(all, c, 1));
    assert(joined(all, c) =~= all[0] + seq![c] + all[1] + rest);
}

/// What is put together ends as its last part does.
proof fn lemma_joined_ends(parts: Seq<Seq<char>>, c: char, i: int)
    requires
        0 <= i < parts.len(),
        forall|a: int| 0 <= a < parts.len() ==> plain_part(#[trigger] parts[a]),
    ensures
        joined_from(parts, c, i).len() > 0,
        joined_from(parts, c, i)[joined_from(parts, c, i).len() - 1] == parts.last()[parts.last().len()
            - 1],
    decreases parts.len() - i,
{
    assert(plain_part(parts[i]));
    if i + 1 < parts.len() {
        lemma_joined_ends(parts, c, i + 1);
    } else {
        assert(joined_from(parts, c, i + 1) =~= Seq::empty());
    }
}

/// The tail of a list, put together, is the list of the tail put together
/// with what parts it in front.
proof fn lemma_joined_inside(all: Seq<Seq<char>>, inside: Seq<Seq<char>>, c: char, i: int)
    requires
        all.len() == inside.len() + 2,
        all.skip(2) == inside,
        0 <= i <= inside.len(),
    ensures
        i > 0 || inside.len() == 0 ==> joined_from(all, c, i + 2) == joined_from(inside, c, i),
        i == 0 && inside.len() > 0 ==> joined_from(all, c, 2) == seq![c] + joined_from(
            inside,
            c,
            0,
        ),
    decreases inside.len() - i,
{
    if i < inside.len() {
        assert(all[i + 2] == all.skip(2)[i]);
        lemma_joined_inside(all, inside, c, i + 1);
        assert(joined_from(all, c, i + 2) =~= seq![c] + inside[i] + joined_from(inside, c, i + 1));
        if i == 0 {
            assert(joined_from(all, c, 2) =~= seq![c] + joined_from(inside, c, 0));
        }
    }
}

/// A share put together and taken apart is the same parts.
proof fn lemma_parts_read_back(all: Seq<Seq<char>>, c: char)
    requires
        all.len() > 0,
        c == '/' || c == '\\',
        forall|a: int| 0 <= a < all.len() ==> plain_part(#[trigger] all[a]),
    ensures
        parts_of(joined(all, c)) == all,
{
    if c == '\\' {
        lemma_joined_replaced(all, 0, '\\', '/');
    } else {
        lemma_joined_replaced(all, 0, '\\', '/');
        let s = joined(all, '/');
        assert(replaced(s, '\\', '/') =~= s);
    }
    assert forall|a: int, b: int| 0 <= a < all.len() && 0 <= b < all[a].len() implies #[trigger] all[a][b]
        != '/' by {
        assert(plain_part(all[a]));
    }
    lemma_joined_splits(all, '/');
    assert forall|i: int| 0 <= i < all.len() implies (#[trigger] all[i]).len() > 0 by {
        assert(plain_part(all[i]));
    }
    lemma_present_all(all);
}

/// A share spelled the way Windows spells it names that share. The two hosts
/// it is not true of are the ones Windows gives a meaning of its own.
pub proof fn law_a_windows_spelling_reads_back(
    host: Seq<char>,
    share: Seq<char>,
    inside: Seq<Seq<char>>,
)
    requires
        spellable(host, share, inside),
        host != seq!['?'],
        host != seq!['.'],
    ensures
        parsed(unc_of(share_of(host, share, inside))) == Some(share_of(host, share, inside)),
{
    let s = share_of(host, share, inside);
    let all = seq![host, share] + inside;
    let text = unc_of(s);
    lemma_spelled(host, share, inside, '\\');
    assert(text =~= seq!['\\', '\\'] + joined(all, '\\'));
    assert(text[text.len() - 1] == joined(all, '\\')[joined(all, '\\').len() - 1]);
    lemma_trimmed(text);
    lemma_opens_unc(text);
    assert(joined(all, '\\')[0] == host[0]) by {
        assert(joined(all, '\\') =~= host + joined_from(all, '\\', 1));
    }
    assert(text[2] == host[0] && host[0] != '\\');
    if text.len() >= 4 && text[3] == '\\' && (text[2] == '?' || text[2] == '.') {
        assert(joined(all, '\\') =~= host + joined_from(all, '\\', 1));
        if host.len() > 1 {
            assert(text[3] == host[1]);
        }
        assert(host.len() == 1);
        assert(host =~= seq![host[0]]);
    }
    assert(text.skip(2) =~= joined(all, '\\'));
    assert forall|a: int| 0 <= a < all.len() implies plain_part(#[trigger] all[a]) by {
        if a >= 2 {
            assert(all[a] == inside[a - 2]);
        }
    }
    lemma_parts_read_back(all, '\\');
    assert(all.skip(2) =~= inside);
}

/// Whether a text is stored with no percent sign in it.
pub open spec fn unescaped(p: Seq<char>) -> bool {
    forall|k: int| 0 <= k < stored(p).len() ==> stored(p)[k] != 37
}

/// Bytes with no percent sign among them are read as they stand.
proof fn lemma_no_escapes(b: Seq<u8>, i: int)
    requires
        0 <= i <= b.len(),
        forall|k: int| 0 <= k < b.len() ==> b[k] != 37,
    ensures
        unpercent(b, i) == b.skip(i),
    decreases b.len() - i,
{
    if i < b.len() {
        lemma_no_escapes(b, i + 1);
        assert(b.skip(i) =~= seq![b[i]] + b.skip(i + 1));
    } else {
        assert(b.skip(i) =~= Seq::empty());
    }
}

/// A share spelled the way a file manager spells it names that share, where
/// no name in it holds the percent sign that spelling gives a meaning of its
/// own.
pub proof fn law_a_url_reads_back(host: Seq<char>, share: Seq<char>, inside: Seq<Seq<char>>)
    requires
        spellable(host, share, inside),
        unescaped(host),
        unescaped(share),
        forall|i: int| 0 <= i < inside.len() ==> unescaped(#[trigger] inside[i]),
    ensures
        parsed(url_of(share_of(host, share, inside))) == Some(share_of(host, share, inside)),
{
    let s = share_of(host, share, inside);
    let all = seq![host, share] + inside;
    let text = url_of(s);
    let head = seq!['s', 'm', 'b', ':', '/', '/'];
    lemma_spelled(host, share, inside, '/');
    assert(text =~= head + joined(all, '/'));
    assert(text[text.len() - 1] == joined(all, '/')[joined(all, '/').len() - 1]);
    lemma_trimmed(text);
    assert(text.skip(6) =~= joined(all, '/'));
    assert forall|a: int| 0 <= a < all.len() implies plain_part(#[trigger] all[a]) by {
        if a >= 2 {
            assert(all[a] == inside[a - 2]);
        }
    }
    lemma_parts_read_back(all, '/');
    assert(all.map_values(|p: Seq<char>| decoded(p)) =~= all) by {
        assert forall|a: int| 0 <= a < all.len() implies decoded(#[trigger] all[a]) == all[a] by {
            if a >= 2 {
                assert(all[a] == inside[a - 2]);
            }
            assert(unescaped(all[a]));
            lemma_no_escapes(stored(all[a]), 0);
            assert(stored(all[a]).skip(0) =~= stored(all[a]));
            lemma_stored_reads_back(all[a]);
        }
    }
    assert(all.skip(2) =~= inside);
}

/// Where the machine has put a share it has mounted.
#[derive(Debug, Clone, PartialEq, Eq)]
pub struct Mount {
    pub host: String,
    pub share: String,
    pub at: String,
}

/// What a [`Mount`] holds.
pub struct MountModel {
    pub host: Seq<char>,
    pub share: Seq<char>,
    pub at: Seq<char>,
}

impl View for Mount {
    type V = MountModel;

    open spec fn view(&self) -> MountModel {
        MountModel { host: self.host@, share: self.share@, at: self.at@ }
    }
}

/// A list of mounts, as what they hold.
pub open spec fn mount_models(list: Seq<Mount>) -> Seq<MountModel> {
    list.map_values(|m: Mount| m@)
}

/// The byte three octal digits stand for, where they stand for one.
pub open spec fn octal_at(b: Seq<u8>, i: int) -> Option<u8> {
    if b[i] != 92 || i + 3 >= b.len() || !(48 <= b[i + 1] <= 55) || !(48 <= b[i + 2] <= 55) || !(48
        <= b[i + 3] <= 55) {
        None
    } else {
        let v = (b[i + 1] - 48) * 64 + (b[i + 2] - 48) * 8 + (b[i + 3] - 48);
        if v <= 0xff {
            Some(v as u8)
        } else {
            None
        }
    }
}

/// The bytes from `i` on with every octal escape read.
pub open spec fn unoctal(b: Seq<u8>, i: int) -> Seq<u8>
    decreases b.len() - i,
{
    if i < 0 || i >= b.len() {
        Seq::empty()
    } else {
        match octal_at(b, i) {
            Some(v) => seq![v] + unoctal(b, i + 4),
            None => seq![b[i]] + unoctal(b, i + 1),
        }
    }
}

/// A field of a mount table as it was before it was written down.
pub open spec fn unescaped_field(s: Seq<char>) -> Seq<char> {
    text_of(unoctal(stored(s), 0))
}

/// `/proc/self/mounts` writes a space as `\040`, and the backslash that
/// starts one as `\134`. A share called `録画 2026` is not exotic.
pub fn unescape(field: &str) -> (r: String)
    ensures
        r@ == unescaped_field(field@),
{
    let bytes: &[u8] = field.as_bytes();
    let mut out: Vec<u8> = Vec::new();
    let mut i: usize = 0;
    while i < bytes.len()
        invariant
            i <= bytes@.len(),
            unoctal(bytes@, 0) =~= out@ + unoctal(bytes@, i as int),
        decreases bytes@.len() - i,
    {
        if bytes[i] == 92 && bytes.len() - i > 3 {
            let (a, b, c): (u8, u8, u8) = (bytes[i + 1], bytes[i + 2], bytes[i + 3]);
            if 48 <= a && a <= 55 && 48 <= b && b <= 55 && 48 <= c && c <= 55 {
                let value: u32 = (a - 48) as u32 * 64 + (b - 48) as u32 * 8 + (c - 48) as u32;
                if value <= 0xff {
                    out.push(value as u8);
                    i += 4;
                    continue;
                }
            }
        }
        out.push(bytes[i]);
        i += 1;
    }
    from_lossy(out.as_slice())
}

/// The kinds of filesystem a kernel mounts a share as.
pub open spec fn share_kind(kind: Seq<char>) -> bool {
    kind == "cifs"@ || kind == "smb3"@ || kind == "smbfs"@ || kind == "smbfs2"@
}

/// Where either slash first stands, from `i` on.
pub open spec fn slash_from(s: Seq<char>, i: int) -> int
    decreases s.len() - i,
{
    if i < 0 || i >= s.len() {
        s.len() as int
    } else if s[i] == '/' || s[i] == '\\' {
        i
    } else {
        slash_from(s, i + 1)
    }
}

/// A text with the slashes at its end taken off.
pub open spec fn without_slashes(s: Seq<char>) -> Seq<char>
    decreases s.len(),
{
    if s.len() > 0 && (s.last() == '/' || s.last() == '\\') {
        without_slashes(s.drop_last())
    } else {
        s
    }
}

/// The host and the share a mount names as its source.
pub open spec fn source_in(source: Seq<char>) -> Option<(Seq<char>, Seq<char>)> {
    if !opens_with(source, seq!['/', '/']) && !opens_with(source, seq!['\\', '\\']) {
        None
    } else {
        let rest = source.skip(2);
        let at = slash_from(rest, 0);
        if at >= rest.len() {
            None
        } else {
            let host = rest.take(at);
            let share = without_slashes(rest.skip(at + 1));
            if host.len() == 0 || share.len() == 0 {
                None
            } else {
                Some((host, share))
            }
        }
    }
}

/// What one line of a mount table says, where it is of a share.
pub open spec fn mount_in(line: Seq<char>) -> Option<MountModel> {
    let fields = words_from(line, 0);
    if fields.len() < 3 || !share_kind(fields[2]) {
        None
    } else {
        match source_in(unescaped_field(fields[0])) {
            Some((host, share)) => Some(
                MountModel { host, share, at: unescaped_field(fields[1]) },
            ),
            None => None,
        }
    }
}

/// One field of a mount table, read back.
fn read_field(field: &[char]) -> (r: Vec<char>)
    ensures
        r@ == unescaped_field(field@),
{
    let text: String = string_of(field);
    chars_of(unescape(text.as_str()).as_str())
}

/// Whether a run of characters is this word.
fn is_word(s: &[char], word: &str) -> (r: bool)
    ensures
        r == (s@ == word@),
{
    same_chars(s, chars_of(word).as_slice())
}

/// The host and the share a mount names as its source.
fn read_source(source: &[char]) -> (r: Option<(Vec<char>, Vec<char>)>)
    ensures
        match r {
            Some((host, share)) => source_in(source@) == Some((host@, share@)),
            None => source_in(source@) is None,
        },
{
    if !((source.len() >= 2 && source[0] == '/' && source[1] == '/') || (source.len() >= 2
        && source[0] == '\\' && source[1] == '\\')) {
        proof {
            if source@.len() >= 2 {
                assert(source@.take(2)[0] == source@[0] && source@.take(2)[1] == source@[1]);
            }
        }
        return None;
    }
    assert(source@.take(2) =~= seq![source@[0], source@[1]]);
    let rest: &[char] = slice_subrange(source, 2, source.len());
    assert(rest@ =~= source@.skip(2));
    let mut at: usize = 0;
    while at < rest.len() && rest[at] != '/' && rest[at] != '\\'
        invariant
            at <= rest@.len(),
            slash_from(rest@, 0) == slash_from(rest@, at as int),
        decreases rest@.len() - at,
    {
        at += 1;
    }
    if at >= rest.len() {
        return None;
    }
    let host: &[char] = slice_subrange(rest, 0, at);
    assert(host@ =~= rest@.take(at as int));
    let behind: &[char] = slice_subrange(rest, at + 1, rest.len());
    assert(behind@ =~= rest@.skip(at + 1));
    let mut end: usize = behind.len();
    assert(behind@.take(end as int) =~= behind@);
    while end > 0 && (behind[end - 1] == '/' || behind[end - 1] == '\\')
        invariant
            end <= behind@.len(),
            without_slashes(behind@) == without_slashes(behind@.take(end as int)),
        decreases end,
    {
        assert(behind@.take(end as int).drop_last() =~= behind@.take(end - 1));
        end -= 1;
    }
    let share: &[char] = slice_subrange(behind, 0, end);
    assert(share@ =~= behind@.take(end as int));
    if host.len() == 0 || share.len() == 0 {
        return None;
    }
    Some((copied_chars(host), copied_chars(share)))
}

/// One line of `/proc/self/mounts`, kept when it is an SMB one:
/// `//nas/rec /mnt/rec cifs rw,…`.
pub fn mount_line(line: &str) -> (r: Option<Mount>)
    ensures
        match r {
            Some(m) => mount_in(line@) == Some(m@),
            None => mount_in(line@) is None,
        },
{
    let fields: Vec<Vec<char>> = words(chars_of(line).as_slice());
    let ghost all = texts(fields@);
    if fields.len() < 3 {
        return None;
    }
    assert(all[0] == fields@[0]@ && all[1] == fields@[1]@ && all[2] == fields@[2]@);
    let kind: &[char] = fields[2].as_slice();
    if !(is_word(kind, "cifs") || is_word(kind, "smb3") || is_word(kind, "smbfs") || is_word(
        kind,
        "smbfs2",
    )) {
        return None;
    }
    let source: Vec<char> = read_field(fields[0].as_slice());
    let at: Vec<char> = read_field(fields[1].as_slice());
    match read_source(source.as_slice()) {
        None => None,
        Some((host, share)) => Some(
            Mount {
                host: string_of(host.as_slice()),
                share: string_of(share.as_slice()),
                at: string_of(at.as_slice()),
            },
        ),
    }
}

/// What stands before the first `c` and behind it.
pub open spec fn split_once(s: Seq<char>, c: char) -> Option<(Seq<char>, Seq<char>)> {
    let at = index_from(s, c, 0);
    if at >= s.len() {
        None
    } else {
        Some((s.take(at), s.skip(at + 1)))
    }
}

/// What the fields of a directory's name say of the server and the share: the
/// last of each that is there.
pub open spec fn gvfs_fields(fields: Seq<Seq<char>>) -> (Option<Seq<char>>, Option<Seq<char>>)
    decreases fields.len(),
{
    if fields.len() == 0 {
        (None, None)
    } else {
        let (host, share) = gvfs_fields(fields.drop_last());
        match split_once(fields.last(), '=') {
            None => (host, share),
            Some((key, value)) => if key == "server"@ {
                (Some(decoded(value)), share)
            } else if key == "share"@ {
                (host, Some(decoded(value)))
            } else {
                (host, share)
            },
        }
    }
}

/// The host and the share a directory of the desktop's stands for.
pub open spec fn gvfs_in(name: Seq<char>) -> Option<(Seq<char>, Seq<char>)> {
    if !opens_with(name, "smb-share:"@) {
        None
    } else {
        match gvfs_fields(split_at(name.skip("smb-share:"@.len() as int), ',')) {
            (Some(host), Some(share)) => Some((host, share)),
            _ => None,
        }
    }
}

/// A field that may not be there, as what it holds.
pub open spec fn field_text(f: Option<String>) -> Option<Seq<char>> {
    match f {
        Some(s) => Some(s@),
        None => None,
    }
}

/// A gvfs mount directory name -- `smb-share:server=nas,share=rec`, with
/// `domain=` and `user=` fields when the connection had them.
pub fn gvfs_share(name: &str) -> (r: Option<(String, String)>)
    ensures
        match r {
            Some((host, share)) => gvfs_in(name@) == Some((host@, share@)),
            None => gvfs_in(name@) is None,
        },
{
    let text: Vec<char> = chars_of(name);
    let head: Vec<char> = chars_of("smb-share:");
    if !starts_with(text.as_slice(), head.as_slice()) {
        return None;
    }
    let body: &[char] = slice_subrange(text.as_slice(), head.len(), text.len());
    assert(body@ =~= text@.skip(head@.len() as int));
    let fields: Vec<Vec<char>> = split_chars(body, ',');
    let ghost all = texts(fields@);
    let mut host: Option<String> = None;
    let mut share: Option<String> = None;
    let mut i: usize = 0;
    while i < fields.len()
        invariant
            i <= fields@.len(),
            all == texts(fields@),
            gvfs_fields(all.take(i as int)) == (field_text(host), field_text(share)),
        decreases fields@.len() - i,
    {
        assert(all.take(i + 1).drop_last() =~= all.take(i as int));
        assert(all.take(i + 1).last() == fields@[i as int]@);
        let field: &[char] = fields[i].as_slice();
        let at: usize = find_char(field, '=', 0);
        if at < field.len() {
            let key: &[char] = slice_subrange(field, 0, at);
            let value: &[char] = slice_subrange(field, at + 1, field.len());
            assert(key@ =~= field@.take(at as int));
            assert(value@ =~= field@.skip(at + 1));
            let text: String = string_of(value);
            if is_word(key, "server") {
                host = Some(decode(text.as_str()));
            } else if is_word(key, "share") {
                share = Some(decode(text.as_str()));
            }
        }
        i += 1;
    }
    assert(all.take(i as int) =~= all);
    match (host, share) {
        (Some(h), Some(s)) => Some((h, s)),
        _ => None,
    }
}

/// A directory the desktop keeps mounts in holds: what it is called, and
/// where it is.
pub struct Entry {
    pub name: String,
    pub path: String,
}

/// The shares in the first `n` lines of a mount table.
pub open spec fn kernel_mounts(table: Seq<Seq<char>>) -> Seq<MountModel>
    decreases table.len(),
{
    if table.len() == 0 {
        Seq::empty()
    } else {
        match mount_in(table.last()) {
            Some(m) => kernel_mounts(table.drop_last()).push(m),
            None => kernel_mounts(table.drop_last()),
        }
    }
}

/// The shares among the directories of the desktop's.
pub open spec fn gvfs_mounts(entries: Seq<Entry>) -> Seq<MountModel>
    decreases entries.len(),
{
    if entries.len() == 0 {
        Seq::empty()
    } else {
        let before = gvfs_mounts(entries.drop_last());
        match gvfs_in(entries.last().name@) {
            Some((host, share)) => before.push(
                MountModel { host, share, at: entries.last().path@ },
            ),
            None => before,
        }
    }
}

/// Every SMB share mounted right now, kernel mounts first: those in the
/// machine's mount table, and those among the directories the desktop keeps
/// its own in.
pub fn mounts(table: &str, entries: &[Entry]) -> (out: Vec<Mount>)
    ensures
        mount_models(out@) == kernel_mounts(lines_from(table@, 0)) + gvfs_mounts(entries@),
{
    let mut out: Vec<Mount> = Vec::new();
    let rows: Vec<Vec<char>> = lines(chars_of(table).as_slice());
    let ghost all = texts(rows@);
    assert(mount_models(out@) =~= kernel_mounts(all.take(0)));
    let mut i: usize = 0;
    while i < rows.len()
        invariant
            i <= rows@.len(),
            all == texts(rows@),
            mount_models(out@) == kernel_mounts(all.take(i as int)),
        decreases rows@.len() - i,
    {
        assert(all.take(i + 1).drop_last() =~= all.take(i as int));
        assert(all.take(i + 1).last() == rows@[i as int]@);
        let row: String = string_of(rows[i].as_slice());
        if let Some(m) = mount_line(row.as_str()) {
            let ghost before = mount_models(out@);
            let ghost one = m@;
            out.push(m);
            assert(mount_models(out@) =~= before.push(one));
        }
        i += 1;
    }
    assert(all.take(i as int) =~= all);
    let ghost kernel = mount_models(out@);
    let mut j: usize = 0;
    assert(mount_models(out@) =~= kernel + gvfs_mounts(entries@.take(0)));
    while j < entries.len()
        invariant
            j <= entries@.len(),
            mount_models(out@) =~= kernel + gvfs_mounts(entries@.take(j as int)),
        decreases entries@.len() - j,
    {
        assert(entries@.take(j + 1).drop_last() =~= entries@.take(j as int));
        assert(entries@.take(j + 1).last() == entries@[j as int]);
        if let Some((host, share)) = gvfs_share(entries[j].name.as_str()) {
            let m: Mount = Mount { host, share, at: entries[j].path.clone() };
            let ghost before = mount_models(out@);
            let ghost one = m@;
            out.push(m);
            assert(mount_models(out@) =~= before.push(one));
        }
        j += 1;
    }
    assert(entries@.take(j as int) =~= entries@);
    out
}

/// What `str::to_lowercase` makes of a text that is not ASCII alone.
pub uninterp spec fn lowered(s: Seq<char>) -> Seq<char>;

/// A text in small letters.
pub open spec fn in_small(s: Seq<char>) -> Seq<char> {
    if is_ascii_chars(s) {
        s.map_values(|c: char| small(c))
    } else {
        lowered(s)
    }
}

/// `str::to_lowercase`: the text in small letters, as Unicode has them. Of
/// ASCII the capitals become the small letters they stand beside and the rest
/// stays as it is; what becomes of any other text is left to the name.
#[verifier::external_body]
fn to_lower(s: &str) -> (r: String)
    ensures
        is_ascii_chars(s@) ==> r@ == s@.map_values(|c: char| small(c)),
        !is_ascii_chars(s@) ==> r@ == lowered(s@),
{
    s.to_lowercase()
}

/// Whether two names are one to SMB: as long as each other, and the same once
/// both are in small letters.
pub open spec fn one_name(a: Seq<char>, b: Seq<char>) -> bool {
    stored(a).len() == stored(b).len() && in_small(a) == in_small(b)
}

/// Whether two names are one to SMB.
pub fn eq_ci(a: &str, b: &str) -> (r: bool)
    ensures
        r == one_name(a@, b@),
{
    if a.as_bytes().len() != b.as_bytes().len() {
        return false;
    }
    let (x, y): (String, String) = (to_lower(a), to_lower(b));
    same_text(x.as_str(), y.as_str())
}

/// Where the first of the mounts from `i` on that is of this share is.
pub open spec fn mounted_from(
    mounts: Seq<MountModel>,
    host: Seq<char>,
    share: Seq<char>,
    i: int,
) -> Option<Seq<char>>
    decreases mounts.len() - i,
{
    if i < 0 || i >= mounts.len() {
        None
    } else if one_name(mounts[i].host, host) && one_name(mounts[i].share, share) {
        Some(mounts[i].at)
    } else {
        mounted_from(mounts, host, share, i + 1)
    }
}

/// The mount point of `share`, or `None` when it is not mounted. Host and
/// share names are matched case-insensitively, the way SMB itself treats
/// them.
pub fn mount_of(share: &Share, mounts: &[Mount]) -> (r: Option<String>)
    ensures
        field_text(r) == mounted_from(mount_models(mounts@), share@.host, share@.share, 0),
{
    let ghost all = mount_models(mounts@);
    let mut i: usize = 0;
    while i < mounts.len()
        invariant
            i <= mounts@.len(),
            all == mount_models(mounts@),
            mounted_from(all, share@.host, share@.share, 0) == mounted_from(
                all,
                share@.host,
                share@.share,
                i as int,
            ),
        decreases mounts@.len() - i,
    {
        assert(all[i as int] == mounts@[i as int]@);
        if eq_ci(mounts[i].host.as_str(), share.host.as_str()) && eq_ci(
            mounts[i].share.as_str(),
            share.share.as_str(),
        ) {
            return Some(mounts[i].at.clone());
        }
        i += 1;
    }
    None
}

/// Whether a mount is of this share.
pub open spec fn is_of(mount: MountModel, host: Seq<char>, share: Seq<char>) -> bool {
    one_name(mount.host, host) && one_name(mount.share, share)
}

/// A share is found where the first mount of it is, and is not found where
/// there is none.
pub proof fn law_the_first_mount_is_found(
    mounts: Seq<MountModel>,
    host: Seq<char>,
    share: Seq<char>,
)
    ensures
        match mounted_from(mounts, host, share, 0) {
            Some(at) => exists|i: int|
                0 <= i < mounts.len() && #[trigger] is_of(mounts[i], host, share) && mounts[i].at
                    == at && forall|k: int|
                    0 <= k < i ==> !#[trigger] is_of(mounts[k], host, share),
            None => forall|k: int|
                0 <= k < mounts.len() ==> !#[trigger] is_of(mounts[k], host, share),
        },
{
    lemma_mounted_first(mounts, host, share, 0);
}

/// The same of the mounts from one of them on.
proof fn lemma_mounted_first(mounts: Seq<MountModel>, host: Seq<char>, share: Seq<char>, i: int)
    requires
        0 <= i <= mounts.len(),
        forall|k: int| 0 <= k < i ==> !#[trigger] is_of(mounts[k], host, share),
    ensures
        match mounted_from(mounts, host, share, i) {
            Some(at) => exists|j: int|
                0 <= j < mounts.len() && #[trigger] is_of(mounts[j], host, share) && mounts[j].at
                    == at && forall|k: int|
                    0 <= k < j ==> !#[trigger] is_of(mounts[k], host, share),
            None => forall|k: int|
                0 <= k < mounts.len() ==> !#[trigger] is_of(mounts[k], host, share),
        },
    decreases mounts.len() - i,
{
    if i < mounts.len() && !is_of(mounts[i], host, share) {
        lemma_mounted_first(mounts, host, share, i + 1);
    }
}

/// Whether two names differ in nothing but the case of their letters.
pub open spec fn alike_but_for_case(a: Seq<char>, b: Seq<char>) -> bool {
    &&& is_ascii_chars(a)
    &&& is_ascii_chars(b)
    &&& a.len() == b.len()
    &&& forall|i: int| 0 <= i < a.len() ==> small(#[trigger] a[i]) == small(b[i])
}

/// Two spellings of a share that differ in nothing but the case of their
/// letters find the same mount.
pub proof fn law_a_share_is_found_in_any_case(
    mounts: Seq<MountModel>,
    host: Seq<char>,
    share: Seq<char>,
    other_host: Seq<char>,
    other_share: Seq<char>,
)
    requires
        alike_but_for_case(host, other_host),
        alike_but_for_case(share, other_share),
    ensures
        mounted_from(mounts, host, share, 0) == mounted_from(mounts, other_host, other_share, 0),
{
    lemma_same_name(host, other_host);
    lemma_same_name(share, other_share);
    lemma_mounted_alike(mounts, host, share, other_host, other_share, 0);
}

/// Names alike but for case come to the same.
proof fn lemma_same_name(a: Seq<char>, b: Seq<char>)
    requires
        alike_but_for_case(a, b),
    ensures
        stored(a).len() == stored(b).len(),
        in_small(a) == in_small(b),
{
    vstd::utf8::is_ascii_chars_encode_utf8(a);
    vstd::utf8::is_ascii_chars_encode_utf8(b);
    assert(in_small(a) =~= in_small(b));
}

/// Names that come to the same find the same mount.
proof fn lemma_mounted_alike(
    mounts: Seq<MountModel>,
    host: Seq<char>,
    share: Seq<char>,
    other_host: Seq<char>,
    other_share: Seq<char>,
    i: int,
)
    requires
        stored(host).len() == stored(other_host).len(),
        in_small(host) == in_small(other_host),
        stored(share).len() == stored(other_share).len(),
        in_small(share) == in_small(other_share),
    ensures
        mounted_from(mounts, host, share, i) == mounted_from(mounts, other_host, other_share, i),
    decreases mounts.len() - i,
{
    if 0 <= i < mounts.len() {
        lemma_mounted_alike(mounts, host, share, other_host, other_share, i + 1);
    }
}

/// A path inside another. One that opens at the root is where it says it is.
pub open spec fn inside(at: Seq<char>, rest: Seq<char>) -> Seq<char> {
    if rest.len() == 0 {
        at
    } else if rest[0] == '/' || at.len() == 0 {
        rest
    } else if at.last() == '/' {
        at + rest
    } else {
        at + seq!['/'] + rest
    }
}

/// That a share is not mounted, and which.
#[derive(Debug, Clone, PartialEq, Eq)]
pub struct NotMounted {
    pub share: String,
}

impl NotMounted {
    /// What to say of it.
    pub fn message(&self) -> (r: String)
        ensures
            r@ == self.share@ + " is not mounted"@,
    {
        let mut out: Vec<char> = chars_of(self.share.as_str());
        put_chars(&mut out, chars_of(" is not mounted").as_slice());
        string_of(out.as_slice())
    }
}

/// The path to open for a share -- its mount point plus what was named inside
/// it. Fails only when the share is not mounted; that the file exists is the
/// caller's question.
pub fn local(share: &Share, mounts: &[Mount]) -> (r: Result<String, NotMounted>)
    ensures
        match (r, mounted_from(mount_models(mounts@), share@.host, share@.share, 0)) {
            (Ok(path), Some(at)) => path@ == inside(at, share@.rest),
            (Err(e), None) => e.share@ == unc_of(share@),
            _ => false,
        },
{
    match mount_of(share, mounts) {
        None => Err(NotMounted { share: share.unc() }),
        Some(at) => {
            let mut out: Vec<char> = chars_of(at.as_str());
            let rest: Vec<char> = chars_of(share.rest.as_str());
            if rest.len() > 0 {
                if rest[0] == '/' || out.len() == 0 {
                    return Ok(share.rest.clone());
                }
                if out[out.len() - 1] != '/' {
                    out.push('/');
                }
                put_chars(&mut out, rest.as_slice());
            }
            assert(out@ =~= inside(at@, share@.rest));
            Ok(string_of(out.as_slice()))
        },
    }
}

/// [`parse`] and [`local`] in one step, for callers that just want a path
/// they can open. An ordinary path passes through untouched.
pub fn resolve(input: &str, mounts: &[Mount]) -> (r: Result<String, NotMounted>)
    ensures
        match parsed(input@) {
            None => r is Ok && r->Ok_0@ == input@,
            Some(s) => match (r, mounted_from(mount_models(mounts@), s.host, s.share, 0)) {
                (Ok(path), Some(at)) => path@ == inside(at, s.rest),
                (Err(e), None) => e.share@ == unc_of(s),
                _ => false,
            },
        },
{
    match parse(input) {
        Some(share) => local(&share, mounts),
        None => Ok(input.to_owned()),
    }
}

/// Filesystems the machine reaches over a network. What they have in common
/// is the only thing being asked about here: reading a file on one of them
/// twice costs twice, where reading a local file twice usually costs once
/// because the page cache kept the first read.
pub open spec fn remote_kind(kind: Seq<char>) -> bool {
    ||| kind == "cifs"@
    ||| kind == "smb3"@
    ||| kind == "smbfs"@
    ||| kind == "smbfs2"@
    ||| kind == "nfs"@
    ||| kind == "nfs4"@
    ||| kind == "9p"@
    ||| kind == "afs"@
    ||| kind == "ncpfs"@
    ||| kind == "ceph"@
    ||| kind == "glusterfs"@
    ||| kind == "fuse.sshfs"@
    ||| kind == "fuse.gvfsd-fuse"@
}

/// Whether a filesystem of this kind is reached over a network.
pub fn is_remote_kind(kind: &str) -> (r: bool)
    ensures
        r == remote_kind(kind@),
{
    same_text(kind, "cifs") || same_text(kind, "smb3") || same_text(kind, "smbfs") || same_text(
        kind,
        "smbfs2",
    ) || same_text(kind, "nfs") || same_text(kind, "nfs4") || same_text(kind, "9p") || same_text(
        kind,
        "afs",
    ) || same_text(kind, "ncpfs") || same_text(kind, "ceph") || same_text(kind, "glusterfs")
        || same_text(kind, "fuse.sshfs") || same_text(kind, "fuse.gvfsd-fuse")
}

/// Whether a piece of a path is one of its components: not one of nothing
/// between two slashes, and not the dot that stands for where it is, which is
/// kept only where a path that opens nowhere in particular opens with it.
pub open spec fn component(pieces: Seq<Seq<char>>, i: int) -> bool {
    pieces[i].len() > 0 && (pieces[i] != seq!['.'] || i == 0)
}

/// The components among the first `n` pieces of a path.
pub open spec fn components_in(pieces: Seq<Seq<char>>, n: int) -> Seq<Seq<char>>
    decreases n,
{
    if n <= 0 {
        Seq::empty()
    } else if component(pieces, n - 1) {
        components_in(pieces, n - 1).push(pieces[n - 1])
    } else {
        components_in(pieces, n - 1)
    }
}

/// The components of a path, the root first where it opens there.
pub open spec fn components(path: Seq<char>) -> Seq<Seq<char>> {
    let pieces = split_at(path, '/');
    (if path.len() > 0 && path[0] == '/' {
        seq![seq!['/']]
    } else {
        Seq::empty()
    }) + components_in(pieces, pieces.len() as int)
}

/// The components of a path, the root first where it opens there.
fn components_of(path: &[char]) -> (out: Vec<Vec<char>>)
    ensures
        texts(out@) == components(path@),
{
    let mut out: Vec<Vec<char>> = Vec::new();
    assert(texts(out@) =~= Seq::empty());
    if path.len() > 0 && path[0] == '/' {
        let mut root: Vec<char> = Vec::new();
        root.push('/');
        let ghost r = root@;
        out.push(root);
        assert(r =~= seq!['/']);
        assert(texts(out@) =~= seq![r]);
    }
    let ghost head = texts(out@);
    let pieces: Vec<Vec<char>> = split_chars(path, '/');
    let ghost all = texts(pieces@);
    let mut i: usize = 0;
    while i < pieces.len()
        invariant
            i <= pieces@.len(),
            all == texts(pieces@),
            texts(out@) =~= head + components_in(all, i as int),
        decreases pieces@.len() - i,
    {
        assert(all[i as int] == pieces@[i as int]@);
        let dot: bool = pieces[i].len() == 1 && pieces[i][0] == '.';
        assert(dot == (all[i as int] == seq!['.'])) by {
            if dot {
                assert(all[i as int] =~= seq!['.']);
            }
        }
        if pieces[i].len() > 0 && (!dot || i == 0) {
            let ghost before = texts(out@);
            let part: Vec<char> = copied_chars(pieces[i].as_slice());
            let ghost p = part@;
            out.push(part);
            assert(texts(out@) =~= before.push(p));
        }
        i += 1;
    }
    out
}

/// Whether a path is at another or under it. It has to match at a path
/// boundary: `/mnt/recordings` is not under `/mnt/rec`, and comparing the
/// strings alone would say it was.
pub open spec fn under(full: Seq<char>, at: Seq<char>) -> bool {
    let (f, a) = (components(full), components(at));
    f.len() >= a.len() && f.take(a.len() as int) == a
}

/// Whether a path is at another or under it.
fn is_under(full: &[char], at: &[char]) -> (r: bool)
    ensures
        r == under(full@, at@),
{
    let f: Vec<Vec<char>> = components_of(full);
    let a: Vec<Vec<char>> = components_of(at);
    let ghost (fs, under_) = (texts(f@), texts(a@));
    if f.len() < a.len() {
        return false;
    }
    let mut i: usize = 0;
    while i < a.len()
        invariant
            i <= a@.len() <= f@.len(),
            fs == texts(f@),
            under_ == texts(a@),
            fs == components(full@),
            under_ == components(at@),
            forall|k: int| 0 <= k < i ==> fs[k] == under_[k],
        decreases a@.len() - i,
    {
        assert(fs[i as int] == f@[i as int]@ && under_[i as int] == a@[i as int]@);
        if !same_chars(f[i].as_slice(), a[i].as_slice()) {
            assert(fs.take(under_.len() as int)[i as int] == fs[i as int]);
            return false;
        }
        i += 1;
    }
    assert(fs.take(under_.len() as int) =~= under_);
    true
}

/// The mount a path sits on among the first of a table's lines: how long its
/// mount point is, and what kind of filesystem it is of. The longest matching
/// mount point wins, and the first of those where there are more.
pub open spec fn holding_in(table: Seq<Seq<char>>, full: Seq<char>) -> Option<(nat, Seq<char>)>
    decreases table.len(),
{
    if table.len() == 0 {
        None
    } else {
        let best = holding_in(table.drop_last(), full);
        let fields = words_from(table.last(), 0);
        if fields.len() < 3 || !under(full, unescaped_field(fields[1])) {
            best
        } else {
            let long = stored(unescaped_field(fields[1])).len();
            match best {
                Some((len, _)) => if long > len {
                    Some((long, fields[2]))
                } else {
                    best
                },
                None => Some((long, fields[2])),
            }
        }
    }
}

/// The filesystem type of the mount `full` sits on, out of a mount table in
/// the shape `/proc/self/mounts` has: source, mount point, type, and options.
pub fn holding(table: &str, full: &str) -> (r: Option<String>)
    ensures
        match holding_in(lines_from(table@, 0), full@) {
            Some((_, kind)) => r is Some && r->0@ == kind,
            None => r is None,
        },
{
    let path: Vec<char> = chars_of(full);
    let rows: Vec<Vec<char>> = lines(chars_of(table).as_slice());
    let ghost all = texts(rows@);
    let mut best: Option<(usize, Vec<char>)> = None;
    let mut i: usize = 0;
    while i < rows.len()
        invariant
            i <= rows@.len(),
            all == texts(rows@),
            path@ == full@,
            match (best, holding_in(all.take(i as int), full@)) {
                (Some((len, kind)), Some((long, k))) => len == long && kind@ == k,
                (None, None) => true,
                _ => false,
            },
        decreases rows@.len() - i,
    {
        assert(all.take(i + 1).drop_last() =~= all.take(i as int));
        assert(all.take(i + 1).last() == rows@[i as int]@);
        let fields: Vec<Vec<char>> = words(rows[i].as_slice());
        let ghost fs = texts(fields@);
        i += 1;
        if fields.len() < 3 {
            continue;
        }
        assert(fs[1] == fields@[1]@ && fs[2] == fields@[2]@);
        let text: String = string_of(fields[1].as_slice());
        let at: String = unescape(text.as_str());
        if !is_under(path.as_slice(), chars_of(at.as_str()).as_slice()) {
            continue;
        }
        let long: usize = at.as_str().as_bytes().len();
        let better: bool = match &best {
            Some((len, _)) => long > *len,
            None => true,
        };
        if better {
            best = Some((long, copied_chars(fields[2].as_slice())));
        }
    }
    assert(all.take(i as int) =~= all);
    match best {
        Some((_, kind)) => Some(string_of(kind.as_slice())),
        None => None,
    }
}

/// Whether `path`, spelled from the root and with every link in it followed,
/// lives on something reached over a network, going by the machine's mount
/// table.
///
/// Asked about cost, not about correctness -- everything works either way.
/// The index and the pictures can be had in one read of a recording or in
/// two, and which is cheaper depends on whether the second read comes off the
/// wire or out of the machine's own memory.
///
/// Answered from the longest mount point the path sits under, because mounts
/// nest: a share at `/mnt/rec` inside a local `/mnt` is a network path, and
/// the shorter prefix would say it was not.
pub fn is_remote(path: &str, table: &str) -> (r: bool)
    ensures
        r == match holding_in(lines_from(table@, 0), path@) {
            Some((_, kind)) => remote_kind(kind),
            None => false,
        },
{
    match holding(table, path) {
        Some(kind) => is_remote_kind(kind.as_str()),
        None => false,
    }
}

/// Whether a path names a share by itself, which is how Windows has it: there
/// is no table to consult. A mapped drive letter hides that it is one, and is
/// answered for as local.
pub fn is_share_path(path: &str) -> (r: bool)
    ensures
        r == (opens_with(path@, seq!['\\', '\\']) && !opens_with(
            path@,
            seq!['\\', '\\', '?', '\\'],
        )),
{
    let text: Vec<char> = chars_of(path);
    let mut two: Vec<char> = Vec::new();
    two.push('\\');
    two.push('\\');
    assert(two@ =~= seq!['\\', '\\']);
    let mut four: Vec<char> = copied_chars(two.as_slice());
    four.push('?');
    four.push('\\');
    assert(four@ =~= seq!['\\', '\\', '?', '\\']);
    starts_with(text.as_slice(), two.as_slice()) && !starts_with(text.as_slice(), four.as_slice())
}

} // verus!
