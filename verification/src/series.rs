//! What a disc of recordings is called, read out of the programmes on it.
//!
//! A recorder shows one line over the list of what a disc holds. The channel
//! the first recording came off is right for an evening scraped off one
//! channel and wrong for the disc most people make, which is a run of one
//! series: six weeks of the same programme, named after the transponder it
//! arrived on.
//!
//! The name to use is in the recordings, but not by itself. What a broadcast
//! calls a programme is the series, the episode, the episode's own title and
//! a row of marks about the broadcast, run together in one field:
//!
//! ```text
//! [字]アニメA・星降る夜の郵便局　＃03「初めての配達」
//! ```
//!
//! A disc named that is a disc named after one episode of it. What belongs
//! over the list is `星降る夜の郵便局`, which is the part every recording of
//! the series shares -- and where they do not all share one, [`shared`] says
//! so rather than guessing. So this module takes a name apart: the marks in
//! brackets go, the block a channel puts its animation in goes, and the name
//! is cut where the episode begins -- because everything from the episode
//! number rightwards is about the episode and not about the series.
//!
//! None of it is a standard. What is here is the shapes Japanese broadcasts
//! actually use, and a name that fits none of them comes through unchanged.
//! Getting it wrong costs a disc a good title, which somebody can type over,
//! so this leans towards cutting only where the evidence is plain.
pub mod left;

use crate::chars::{chars_of, copied_chars, is_space, same_chars, small, spacing, string_of};
use vstd::prelude::*;
use vstd::slice::slice_subrange;

verus! {

/// The longest text in square brackets that is taken for a mark rather than
/// for part of a name. The marks a listing carries are one or two
/// characters -- `[字]`, `[再]`, `[解]` -- and the longest anyone writes is a
/// classification like `[PG12相当]`.
pub const MARK_MAX: usize = 8;

/// How far into a name a block in angle brackets may reach. Long enough to
/// hold a season of a programme's name, and no longer: what this is looking
/// for is a label, and a title that opens with a bracket keeps it.
pub const BLOCK_MAX: usize = 26;

/// The character as it would be written in ASCII, for the shapes here to be
/// looked for once rather than once a width. One character for one, so that
/// what is found in the folded text is at the same place in the name.
pub open spec fn folded(c: char) -> char {
    if c == '　' {
        ' '
    } else if '０' <= c <= '９' || 'Ａ' <= c <= 'Ｚ' || 'ａ' <= c <= 'ｚ' {
        small((c as int - 0xFEE0) as char)
    } else if c == '．' {
        '.'
    } else if c == '＃' {
        '#'
    } else if c == '（' {
        '('
    } else if c == '）' {
        ')'
    } else if c == '［' {
        '['
    } else if c == '］' {
        ']'
    } else if c == '＜' {
        '<'
    } else if c == '＞' {
        '>'
    } else {
        small(c)
    }
}

fn make_small(c: char) -> (r: char)
    ensures
        r == small(c),
{
    if 'A' <= c && c <= 'Z' {
        (c as u8 + 32) as char
    } else {
        c
    }
}

fn fold(c: char) -> (r: char)
    ensures
        r == folded(c),
{
    if c == '　' {
        ' '
    } else if ('０' <= c && c <= '９') || ('Ａ' <= c && c <= 'Ｚ') || ('ａ' <= c && c <= 'ｚ') {
        let plain: u8 = (c as u32 - 0xFEE0) as u8;
        make_small(plain as char)
    } else if c == '．' {
        '.'
    } else if c == '＃' {
        '#'
    } else if c == '（' {
        '('
    } else if c == '）' {
        ')'
    } else if c == '［' {
        '['
    } else if c == '］' {
        ']'
    } else if c == '＜' {
        '<'
    } else if c == '＞' {
        '>'
    } else {
        make_small(c)
    }
}

/// Where a character first stands in either width, from `i` on and before
/// `stop`; `stop` where it does not.
pub open spec fn folded_from(s: Seq<char>, c: char, i: int, stop: int) -> int
    decreases stop - i,
{
    if i >= stop || folded(s[i]) == c {
        if i >= stop {
            stop
        } else {
            i
        }
    } else {
        folded_from(s, c, i + 1, stop)
    }
}

fn find_folded(s: &[char], c: char, from: usize, stop: usize) -> (r: usize)
    requires
        from <= stop <= s@.len(),
    ensures
        r == folded_from(s@, c, from as int, stop as int),
        from <= r <= stop,
{
    let mut i: usize = from;
    while i < stop
        invariant
            from <= i <= stop <= s@.len(),
            folded_from(s@, c, from as int, stop as int) == folded_from(
                s@,
                c,
                i as int,
                stop as int,
            ),
        decreases stop - i,
    {
        if fold(s[i]) == c {
            return i;
        }
        i += 1;
    }
    i
}

/// The smaller of two.
pub open spec fn lesser(a: int, b: int) -> int {
    if a < b {
        a
    } else {
        b
    }
}

/// Where the mark that opens at `i` ends, where one does. Short ones stand in
/// square brackets; what stands in `【】` is a block's name or an episode's
/// however long it is.
pub open spec fn mark_end(s: Seq<char>, i: int) -> Option<int> {
    if folded(s[i]) == '[' {
        let stop = lesser(s.len() as int, i + 2 + MARK_MAX);
        let at = folded_from(s, ']', i + 1, stop);
        if i < at < stop {
            Some(at + 1)
        } else {
            None
        }
    } else if folded(s[i]) == '【' {
        let at = folded_from(s, '】', i + 1, s.len() as int);
        if i < at < s.len() {
            Some(at + 1)
        } else {
            None
        }
    } else {
        None
    }
}

/// A name from `i` on with the marks taken out.
pub open spec fn unmarked(s: Seq<char>, i: int) -> Seq<char>
    decreases s.len() - i,
{
    if i < 0 || i >= s.len() {
        Seq::empty()
    } else {
        match mark_end(s, i) {
            Some(end) => unmarked(s, end),
            None => seq![s[i]] + unmarked(s, i + 1),
        }
    }
}

/// The name with the marks a listing hangs off it taken out.
///
/// `[字]` and its fellows sit in front of a name as often as behind it, and
/// `【…】` carries either a block's name or an episode's -- neither of which
/// is the series -- so both go wherever they are found.
fn without_marks(raw: &[char]) -> (out: Vec<char>)
    ensures
        out@ == unmarked(raw@, 0),
{
    let mut out: Vec<char> = Vec::new();
    let mut i: usize = 0;
    while i < raw.len()
        invariant
            i <= raw@.len(),
            unmarked(raw@, 0) =~= out@ + unmarked(raw@, i as int),
        decreases raw@.len() - i,
    {
        let c: char = fold(raw[i]);
        if c == '[' {
            let stop: usize = if raw.len() - i < 2 + MARK_MAX {
                raw.len()
            } else {
                i + 2 + MARK_MAX
            };
            let at: usize = find_folded(raw, ']', i + 1, stop);
            if at < stop {
                i = at + 1;
                continue;
            }
        } else if c == '【' {
            let at: usize = find_folded(raw, '】', i + 1, raw.len());
            if at < raw.len() {
                i = at + 1;
                continue;
            }
        }
        out.push(raw[i]);
        i += 1;
    }
    out
}

/// A name with the spaces in front of it gone, in either width.
pub open spec fn unspaced(s: Seq<char>) -> Seq<char>
    decreases s.len(),
{
    if s.len() > 0 && folded(s[0]) == ' ' {
        unspaced(s.skip(1))
    } else {
        s
    }
}

/// How much of the front of a name is the label of a block, where any is.
pub open spec fn label_end(s: Seq<char>) -> Option<int> {
    let stop = lesser(s.len() as int, BLOCK_MAX as int);
    if s.len() > 0 && folded(s[0]) == '<' && folded_from(s, '>', 0, stop) < stop {
        Some(folded_from(s, '>', 0, stop) + 1)
    } else if s.len() >= 3 && s[0] == 'ア' && s[1] == 'ニ' && s[2] == 'メ' {
        // The letter that tells one channel's two blocks apart, and then the
        // space or the `・` that ends a label.
        let after: int = if s.len() > 3 && 'a' <= folded(s[3]) <= 'z' {
            4
        } else {
            3
        };
        if s.len() > after && (folded(s[after]) == ' ' || folded(s[after]) == '・') {
            Some(after + 1)
        } else {
            None
        }
    } else {
        None
    }
}

/// Spaces in front take nothing but themselves.
proof fn lemma_unspaced(s: Seq<char>)
    ensures
        unspaced(s).len() <= s.len(),
    decreases s.len(),
{
    if s.len() > 0 && folded(s[0]) == ' ' {
        lemma_unspaced(s.skip(1));
    }
}

/// A name with the slot it went out in taken off the front.
pub open spec fn unblocked(s: Seq<char>) -> Seq<char>
    decreases s.len(),
{
    let t = unspaced(s);
    match label_end(t) {
        Some(end) => if 0 < end <= t.len() && t.len() <= s.len() {
            unblocked(t.skip(end))
        } else {
            t
        },
        None => t,
    }
}

/// The name with the slot it went out in taken off the front.
///
/// Channels put their animation in a named block and write the block in
/// front of the programme: `＜アニメギルド＞`, `アニメA・`, or plain `アニメ`
/// and a space. Only the front of the name, and only these shapes: `・` is a
/// character titles use themselves, and a rule that cut at the first one
/// would take the title off `シャングリラ・フロンティア`.
fn without_block(raw: &[char]) -> (out: Vec<char>)
    ensures
        out@ == unblocked(raw@),
{
    let mut from: usize = 0;
    assert(raw@.skip(0) =~= raw@);
    loop
        invariant_except_break
            from <= raw@.len(),
            unblocked(raw@) == unblocked(raw@.skip(from as int)),
        ensures
            from <= raw@.len(),
            unblocked(raw@) == raw@.skip(from as int),
        decreases raw@.len() - from,
    {
        let ghost whole = raw@.skip(from as int);
        proof {
            lemma_unspaced(whole);
        }
        let ghost start = from;
        while from < raw.len() && fold(raw[from]) == ' '
            invariant
                start <= from <= raw@.len(),
                unspaced(whole) == unspaced(raw@.skip(from as int)),
            decreases raw@.len() - from,
        {
            assert(raw@.skip(from as int).skip(1) =~= raw@.skip(from + 1));
            from += 1;
        }
        let rest: &[char] = slice_subrange(raw, from, raw.len());
        assert(rest@ =~= raw@.skip(from as int));
        assert(unspaced(whole) == rest@);
        let stop: usize = if rest.len() < BLOCK_MAX {
            rest.len()
        } else {
            BLOCK_MAX
        };
        let mut end: usize = 0;
        if rest.len() > 0 && fold(rest[0]) == '<' {
            let at: usize = find_folded(rest, '>', 0, stop);
            if at < stop {
                end = at + 1;
            }
        }
        if end == 0 && rest.len() >= 3 && rest[0] == 'ア' && rest[1] == 'ニ' && rest[2] == 'メ' {
            let after: usize = if rest.len() > 3 && 'a' <= fold(rest[3]) && fold(rest[3]) <= 'z' {
                4
            } else {
                3
            };
            if rest.len() > after && (fold(rest[after]) == ' ' || fold(rest[after]) == '・') {
                end = after + 1;
            }
        }
        assert(end > 0 ==> label_end(rest@) == Some(end as int));
        assert(end == 0 ==> label_end(rest@) is None);
        if end == 0 {
            break;
        }
        assert(rest@.skip(end as int) =~= raw@.skip(from + end));
        from += end;
    }
    let out: Vec<char> = copied_chars(slice_subrange(raw, from, raw.len()));
    assert(out@ =~= raw@.skip(from as int));
    out
}

/// Whether a digit stands at `i`, in either width.
pub open spec fn digit_at(s: Seq<char>, i: int) -> bool {
    0 <= i < s.len() && '0' <= folded(s[i]) <= '9'
}

fn digit(s: &[char], i: usize) -> (r: bool)
    ensures
        r == digit_at(s@, i as int),
{
    i < s.len() && '0' <= fold(s[i]) && fold(s[i]) <= '9'
}

/// Whether a character is one a number is written with: a digit in either
/// width, or a kanji numeral.
pub open spec fn numeral(c: char) -> bool {
    ||| '0' <= folded(c) <= '9'
    ||| c == '一'
    ||| c == '二'
    ||| c == '三'
    ||| c == '四'
    ||| c == '五'
    ||| c == '六'
    ||| c == '七'
    ||| c == '八'
    ||| c == '九'
    ||| c == '十'
    ||| c == '百'
    ||| c == '零'
    ||| c == '壱'
    ||| c == '参'
    ||| c == '參'
}

fn is_numeral(c: char) -> (r: bool)
    ensures
        r == numeral(c),
{
    ('0' <= fold(c) && fold(c) <= '9') || c == '一' || c == '二' || c == '三' || c == '四' || c
        == '五' || c == '六' || c == '七' || c == '八' || c == '九' || c == '十' || c == '百' || c
        == '零' || c == '壱' || c == '参' || c == '參'
}

/// Where the run of numerals that starts at `i` ends.
pub open spec fn numerals_end(s: Seq<char>, i: int) -> int
    decreases s.len() - i,
{
    if 0 <= i < s.len() && numeral(s[i]) {
        numerals_end(s, i + 1)
    } else {
        i
    }
}

/// Where the number starting at `i` ends, or `None` where there is not one.
///
/// Both ways of writing one: `08` and `十九`, in either width. `最終` counts
/// as a number, because `最終話` is the last episode and is numbered exactly
/// as plainly as `第12話`.
pub open spec fn number_end(s: Seq<char>, i: int) -> Option<int> {
    if 0 <= i && i + 1 < s.len() && s[i] == '最' && s[i + 1] == '終' {
        Some(i + 2)
    } else if numerals_end(s, i) > i {
        Some(numerals_end(s, i))
    } else {
        None
    }
}

fn numbered(raw: &[char], i: usize) -> (r: Option<usize>)
    requires
        i <= raw@.len(),
    ensures
        match r {
            Some(n) => number_end(raw@, i as int) == Some(n as int) && i < n <= raw@.len(),
            None => number_end(raw@, i as int) is None,
        },
{
    if raw.len() - i > 1 && raw[i] == '最' && raw[i + 1] == '終' {
        return Some(i + 2);
    }
    let mut end: usize = i;
    while end < raw.len() && is_numeral(raw[end])
        invariant
            i <= end <= raw@.len(),
            numerals_end(raw@, i as int) == numerals_end(raw@, end as int),
        decreases raw@.len() - end,
    {
        end += 1;
    }
    if end > i {
        Some(end)
    } else {
        None
    }
}

/// The counters that make `第三十二X` an episode rather than a season.
///
/// `第2期` and `第2シリーズ` are the series, not a part of it, and a disc of
/// the second season is called after the second season; they are absent
/// from here deliberately. The rest are what programmes number their
/// episodes with, including the ones that number them in their own voice --
/// a monster of the week is a `怪`, a concert programme a `番`.
pub open spec fn episode_counter(c: char) -> bool {
    ||| c == '話'
    ||| c == '回'
    ||| c == '幕'
    ||| c == '夜'
    ||| c == '章'
    ||| c == '篇'
    ||| c == '編'
    ||| c == '部'
    ||| c == '怪'
    ||| c == '番'
}

fn is_counter(c: char) -> (r: bool)
    ensures
        r == episode_counter(c),
{
    c == '話' || c == '回' || c == '幕' || c == '夜' || c == '章' || c == '篇' || c == '編' || c
        == '部' || c == '怪' || c == '番'
}

/// Whether the run of digits or kanji numerals at `i` is followed by one of
/// the counters an episode is numbered with.
pub open spec fn counted_at(s: Seq<char>, i: int) -> bool {
    match number_end(s, i) {
        Some(n) => n < s.len() && episode_counter(s[n]),
        None => false,
    }
}

fn counted(raw: &[char], i: usize) -> (r: bool)
    requires
        i <= raw@.len(),
    ensures
        r == counted_at(raw@, i as int),
{
    match numbered(raw, i) {
        Some(n) => n < raw.len() && is_counter(raw[n]),
        None => false,
    }
}

/// Whether the bracket at `i` holds a number and nothing else.
pub open spec fn bracketed(s: Seq<char>, i: int) -> bool {
    let end = folded_from(s, ')', i + 1, s.len() as int);
    end < s.len() && end > i + 1 && forall|k: int| i < k < end ==> digit_at(s, k)
}

fn bracketed_number(raw: &[char], i: usize) -> (r: bool)
    requires
        i < raw@.len(),
    ensures
        r == bracketed(raw@, i as int),
{
    let len: usize = raw.len();
    let end: usize = find_folded(raw, ')', i + 1, len);
    if end >= len || end <= i + 1 {
        return false;
    }
    let mut k: usize = i + 1;
    while k < end
        invariant
            i < k <= end < raw@.len(),
            end == folded_from(raw@, ')', i + 1, raw@.len() as int),
            forall|j: int| i < j < k ==> digit_at(raw@, j),
        decreases end - k,
    {
        if !digit(raw, k) {
            assert(!digit_at(raw@, k as int));
            return false;
        }
        k += 1;
    }
    true
}

/// Where the white space that starts at `i` ends, in either width.
pub open spec fn wide_space_end(s: Seq<char>, i: int) -> int
    decreases s.len() - i,
{
    if 0 <= i < s.len() && spacing(folded(s[i])) {
        wide_space_end(s, i + 1)
    } else {
        i
    }
}

/// Whether a letter or a digit stands before `i`.
pub open spec fn letter_before(s: Seq<char>, i: int) -> bool {
    0 < i <= s.len() && ('a' <= folded(s[i - 1]) <= 'z' || 'A' <= folded(s[i - 1]) <= 'Z' || '0'
        <= folded(s[i - 1]) <= '9')
}

/// Whether `word` stands at `i` as a word of its own, with the episode's
/// number after it.
pub open spec fn word_at(s: Seq<char>, i: int, word: Seq<char>) -> bool {
    let past = i + word.len();
    let dotted = if past < s.len() && folded(s[past]) == '.' {
        past + 1
    } else {
        past
    };
    &&& !letter_before(s, i)
    &&& past <= s.len()
    &&& forall|k: int| 0 <= k < word.len() ==> folded(s[i + k]) == word[k]
    &&& digit_at(s, wide_space_end(s, dotted))
}

fn word(raw: &[char], i: usize, name: &[char]) -> (r: bool)
    requires
        i < raw@.len(),
    ensures
        r == word_at(raw@, i as int, name@),
{
    if i > 0 {
        let c: char = fold(raw[i - 1]);
        if ('a' <= c && c <= 'z') || ('A' <= c && c <= 'Z') || ('0' <= c && c <= '9') {
            return false;
        }
    }
    if raw.len() - i < name.len() {
        return false;
    }
    let mut k: usize = 0;
    while k < name.len()
        invariant
            k <= name@.len(),
            i + name@.len() <= raw@.len() <= usize::MAX,
            forall|j: int| 0 <= j < k ==> folded(raw@[i + j]) == name@[j],
        decreases name@.len() - k,
    {
        if fold(raw[i + k]) != name[k] {
            assert(folded(raw@[i + k]) != name@[k as int]);
            return false;
        }
        k += 1;
    }
    let mut j: usize = i + name.len();
    if j < raw.len() && fold(raw[j]) == '.' {
        j += 1;
    }
    let ghost dotted = j;
    while j < raw.len() && is_space(fold(raw[j]))
        invariant
            j <= raw@.len(),
            wide_space_end(raw@, dotted as int) == wide_space_end(raw@, j as int),
        decreases raw@.len() - j,
    {
        j += 1;
    }
    digit(raw, j)
}

/// Whether the episode begins at `i`.
///
/// * `#3`, `＃03`, `#11-14`, `Season1#16` -- a hash and a digit.
/// * `第7幕`, `第十九章`, `第08話` -- see [`episode_counter`] for what is a
///   season.
/// * `42話`, `最終話` -- the same without the `第`.
/// * `(1)`, `（３２）` -- a number in brackets and nothing else in them, so
///   that `(2nd season)` stays.
/// * `ep．６`, `EPISODE　24`.
pub open spec fn episode_at(s: Seq<char>, i: int) -> bool {
    ||| folded(s[i]) == '#' && digit_at(s, i + 1)
    ||| s[i] == '第' && counted_at(s, i + 1)
    ||| (digit_at(s, i) || s[i] == '最') && match number_end(s, i) {
        Some(n) => n < s.len() && s[n] == '話',
        None => false,
    }
    ||| folded(s[i]) == '(' && bracketed(s, i)
    ||| word_at(s, i, seq!['e', 'p'])
    ||| word_at(s, i, seq!['e', 'p', 'i', 's', 'o', 'd', 'e'])
}

/// Where the episode begins, from `i` on; the end of the name where it does
/// not.
pub open spec fn episode_from(s: Seq<char>, i: int) -> int
    decreases s.len() - i,
{
    if i < 0 || i >= s.len() {
        s.len() as int
    } else if episode_at(s, i) {
        i
    } else {
        episode_from(s, i + 1)
    }
}

fn begins_episode(raw: &[char], i: usize) -> (r: bool)
    requires
        i < raw@.len(),
    ensures
        r == episode_at(raw@, i as int),
{
    let mut ep: Vec<char> = Vec::new();
    ep.push('e');
    ep.push('p');
    assert(ep@ =~= seq!['e', 'p']);
    let mut episode: Vec<char> = copied_chars(ep.as_slice());
    episode.push('i');
    episode.push('s');
    episode.push('o');
    episode.push('d');
    episode.push('e');
    assert(episode@ =~= seq!['e', 'p', 'i', 's', 'o', 'd', 'e']);
    let told: bool = (digit(raw, i) || raw[i] == '最') && match numbered(raw, i) {
        Some(n) => n < raw.len() && raw[n] == '話',
        None => false,
    };
    (fold(raw[i]) == '#' && digit(raw, i + 1)) || (raw[i] == '第' && counted(raw, i + 1)) || told || (
    fold(raw[i]) == '(' && bracketed_number(raw, i)) || word(raw, i, ep.as_slice()) || word(
        raw,
        i,
        episode.as_slice(),
    )
}

/// The name up to where the episode begins.
///
/// Everything from the episode number rightwards belongs to the episode: the
/// number, what that episode is called, and often a mark or two. So the
/// earliest of these ends the name.
fn before_episode(raw: &[char]) -> (out: Vec<char>)
    ensures
        out@ == raw@.take(episode_from(raw@, 0)),
{
    let mut i: usize = 0;
    while i < raw.len()
        invariant_except_break
            i <= raw@.len(),
            episode_from(raw@, 0) == episode_from(raw@, i as int),
        ensures
            i <= raw@.len(),
            i == episode_from(raw@, 0),
        decreases raw@.len() - i,
    {
        if begins_episode(raw, i) {
            break;
        }
        i += 1;
    }
    let out: Vec<char> = copied_chars(slice_subrange(raw, 0, i));
    assert(out@ =~= raw@.take(i as int));
    out
}

/// Where the last of a name that is not white space ends.
pub open spec fn told_end(s: Seq<char>, n: int) -> int
    decreases n,
{
    if 0 < n <= s.len() && spacing(folded(s[n - 1])) {
        told_end(s, n - 1)
    } else {
        n
    }
}

/// Where the last `「` before `n` stands, one past it; nought where there is
/// none.
pub open spec fn opened_before(s: Seq<char>, n: int) -> int
    decreases n,
{
    if n <= 0 || n > s.len() {
        0
    } else if s[n - 1] == '「' {
        n
    } else {
        opened_before(s, n - 1)
    }
}

/// A name with the episode's own title taken off the end.
pub open spec fn untitled(s: Seq<char>) -> Seq<char> {
    let end = told_end(s, s.len() as int);
    let open = opened_before(s, s.len() as int);
    if end <= 0 || s[end - 1] != '」' || open <= 1 {
        s
    } else {
        s.take(open - 1)
    }
}

/// The name with the episode's own title taken off the end.
///
/// A programme that numbers its episodes has had them cut off already; this
/// is for the ones that do not, and write what tonight's is about in corner
/// brackets instead. It is only ever the last of them and only at the end,
/// which is where an episode's title goes -- a title with brackets of its
/// own keeps them, because something follows them.
fn without_subtitle(raw: &[char]) -> (out: Vec<char>)
    ensures
        out@ == untitled(raw@),
{
    let mut end: usize = raw.len();
    while end > 0 && is_space(fold(raw[end - 1]))
        invariant
            end <= raw@.len(),
            told_end(raw@, raw@.len() as int) == told_end(raw@, end as int),
        decreases end,
    {
        end -= 1;
    }
    if end == 0 || raw[end - 1] != '」' {
        return copied_chars(raw);
    }
    let mut open: usize = raw.len();
    while open > 0 && raw[open - 1] != '「'
        invariant
            open <= raw@.len(),
            opened_before(raw@, raw@.len() as int) == opened_before(raw@, open as int),
        decreases open,
    {
        open -= 1;
    }
    if open <= 1 {
        return copied_chars(raw);
    }
    let out: Vec<char> = copied_chars(slice_subrange(raw, 0, open - 1));
    assert(out@ =~= raw@.take(open - 1));
    out
}

/// Whether a character may hang off an end of a name: white space of either
/// width, and a `・` that had a label after it. A dash is left where it is:
/// the ones that turn up at the end of a cut name are the closing half of a
/// pair around a subtitle, and half a pair reads worse than the whole of one.
pub open spec fn hanging(c: char) -> bool {
    spacing(folded(c)) || c == '・'
}

/// Where what hangs off the front ends.
pub open spec fn hanging_end(s: Seq<char>, i: int) -> int
    decreases s.len() - i,
{
    if 0 <= i < s.len() && hanging(s[i]) {
        hanging_end(s, i + 1)
    } else {
        i
    }
}

/// Where what hangs off the end of what is left from `from` starts.
pub open spec fn hanging_start(s: Seq<char>, from: int, n: int) -> int
    decreases n,
{
    if 0 <= from < n <= s.len() && hanging(s[n - 1]) {
        hanging_start(s, from, n - 1)
    } else {
        n
    }
}

/// A name with the spaces and the hanging separator off both ends.
pub open spec fn tidied(s: Seq<char>) -> Seq<char> {
    let from = hanging_end(s, 0);
    s.subrange(from, hanging_start(s, from, s.len() as int))
}

/// The spaces and the hanging separator off both ends.
fn tidy(raw: &[char]) -> (out: Vec<char>)
    ensures
        out@ == tidied(raw@),
{
    let mut from: usize = 0;
    while from < raw.len() && (is_space(fold(raw[from])) || raw[from] == '・')
        invariant
            from <= raw@.len(),
            hanging_end(raw@, 0) == hanging_end(raw@, from as int),
        decreases raw@.len() - from,
    {
        from += 1;
    }
    let mut to: usize = raw.len();
    while to > from && (is_space(fold(raw[to - 1])) || raw[to - 1] == '・')
        invariant
            from <= to <= raw@.len(),
            hanging_start(raw@, from as int, raw@.len() as int) == hanging_start(
                raw@,
                from as int,
                to as int,
            ),
        decreases to,
    {
        to -= 1;
    }
    copied_chars(slice_subrange(raw, from, to))
}

/// What is left of a name once everything that is not the series is taken
/// off it.
pub open spec fn cut_down(name: Seq<char>) -> Seq<char> {
    let plain = unblocked(unmarked(name, 0));
    tidied(untitled(plain.take(episode_from(plain, 0))))
}

/// The name the series goes by. Where everything would be cut away the name is
/// its own answer, tidied where that leaves anything of it.
pub open spec fn series_name(name: Seq<char>) -> Seq<char> {
    if cut_down(name).len() > 0 {
        cut_down(name)
    } else if tidied(name).len() > 0 {
        tidied(name)
    } else {
        name
    }
}

/// What comes back is never empty for a name that was not.
pub proof fn law_a_name_is_never_lost(name: Seq<char>)
    ensures
        name.len() > 0 ==> series_name(name).len() > 0,
{
}

fn of_chars(name: &[char]) -> (out: Vec<char>)
    ensures
        out@ == series_name(name@),
{
    let plain: Vec<char> = without_block(without_marks(name).as_slice());
    let told: Vec<char> = without_subtitle(before_episode(plain.as_slice()).as_slice());
    let text: Vec<char> = tidy(told.as_slice());
    if text.len() > 0 {
        return text;
    }
    let whole: Vec<char> = tidy(name);
    if whole.len() > 0 {
        whole
    } else {
        copied_chars(name)
    }
}

/// The name the series goes by, out of one recording's name.
///
/// What comes back is never empty for a name that was not: a name this can
/// find nothing to cut is its own answer.
pub fn of(name: &str) -> (r: String)
    ensures
        r@ == series_name(name@),
        name@.len() > 0 ==> r@.len() > 0,
{
    string_of(of_chars(chars_of(name).as_slice()).as_slice())
}

/// The names of the series of some recordings, those that have one.
pub open spec fn titles(names: Seq<&str>) -> Seq<Seq<char>>
    decreases names.len(),
{
    if names.len() == 0 {
        Seq::empty()
    } else {
        let title = series_name(names.last()@);
        if title.len() == 0 {
            titles(names.drop_last())
        } else {
            titles(names.drop_last()).push(title)
        }
    }
}

/// What to call a disc holding these recordings, or `None` where they do not
/// all say the same thing.
///
/// Every recording of one series answers [`of`] with the same text, and that
/// text is the disc's. Anything else has no name of its own to find: four
/// unrelated programmes plainly, and two seasons of one programme just as
/// much -- the season is part of the series' name, and a disc holding both
/// is not a disc of either.
pub fn shared(names: &[&str]) -> (r: Option<String>)
    ensures
        r is Some <==> titles(names@).len() > 0 && forall|i: int|
            0 <= i < titles(names@).len() ==> #[trigger] titles(names@)[i] == titles(names@)[0],
        r is Some ==> r->0@ == titles(names@)[0],
{
    let mut first: Option<Vec<char>> = None;
    let mut agreed: bool = true;
    let mut i: usize = 0;
    while i < names.len()
        invariant
            i <= names@.len(),
            match first {
                None => titles(names@.take(i as int)).len() == 0 && agreed,
                Some(f) => titles(names@.take(i as int)).len() > 0 && titles(
                    names@.take(i as int),
                )[0] == f@ && (agreed <==> forall|k: int|
                    0 <= k < titles(names@.take(i as int)).len() ==> titles(
                        names@.take(i as int),
                    )[k] == f@),
            },
        decreases names@.len() - i,
    {
        let ghost before = titles(names@.take(i as int));
        assert(names@.take(i + 1).drop_last() =~= names@.take(i as int));
        let title: Vec<char> = of_chars(chars_of(names[i]).as_slice());
        let ghost after = titles(names@.take(i + 1));
        if title.len() > 0 {
            assert(after == before.push(title@));
            first = match first {
                None => {
                    assert(after =~= seq![title@]);
                    Some(title)
                },
                Some(f) => {
                    if !same_chars(f.as_slice(), title.as_slice()) {
                        assert(after[before.len() as int] == title@);
                        agreed = false;
                    } else {
                        assert forall|k: int| agreed && 0 <= k < after.len() implies after[k] == f@ by {
                            if k < before.len() {
                                assert(before[k] == f@);
                            }
                        }
                        assert(!agreed ==> exists|k: int|
                            0 <= k < after.len() && #[trigger] after[k] != f@) by {
                            if !agreed {
                                let k = choose|k: int|
                                    0 <= k < before.len() && #[trigger] before[k] != f@;
                                assert(after[k] != f@);
                            }
                        }
                    }
                    Some(f)
                },
            };
        }
        i += 1;
    }
    assert(names@.take(i as int) =~= names@);
    match first {
        Some(f) => if agreed {
            Some(string_of(f.as_slice()))
        } else {
            None
        },
        None => None,
    }
}

/// A disc of one series is called after it, however many recordings of it
/// there are.
pub proof fn law_a_run_of_one_series_shares_its_name(names: Seq<&str>, name: Seq<char>)
    requires
        names.len() > 0,
        name.len() > 0,
        forall|i: int| 0 <= i < names.len() ==> series_name(#[trigger] names[i]@) == name,
    ensures
        titles(names).len() > 0,
        forall|i: int| 0 <= i < titles(names).len() ==> titles(names)[i] == name,
    decreases names.len(),
{
    assert(series_name(names.last()@) == name) by {
        assert(names[names.len() - 1]@ == names.last()@);
    }
    if names.len() > 1 {
        assert forall|i: int| 0 <= i < names.drop_last().len() implies series_name(
            #[trigger] names.drop_last()[i]@,
        ) == name by {
            assert(names.drop_last()[i]@ == names[i]@);
        }
        law_a_run_of_one_series_shares_its_name(names.drop_last(), name);
    } else {
        assert(titles(names.drop_last()) =~= Seq::empty());
    }
}

} // verus!
