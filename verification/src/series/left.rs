//! What is left of a recording's name.
use crate::chars::spacing;
use crate::series::{
    cut_down, episode_at, episode_from, folded, hanging, hanging_end, hanging_start, label_end,
    mark_end, opened_before, series_name, tidied, told_end, unblocked, unmarked, unspaced,
    untitled,
};
use vstd::prelude::*;

verus! {

/// An episode is found where one begins, and none begins before it; where none
/// does at all, the name is all of it.
pub proof fn law_the_first_episode_mark_is_found(s: Seq<char>, i: int, k: int)
    requires
        0 <= i <= s.len(),
    ensures
        i <= episode_from(s, i) <= s.len(),
        i <= k < episode_from(s, i) ==> !episode_at(s, k),
        episode_from(s, i) < s.len() ==> episode_at(s, episode_from(s, i)),
    decreases s.len() - i,
{
    if i < s.len() && !episode_at(s, i) {
        law_the_first_episode_mark_is_found(s, i + 1, k);
    }
}

/// A tidied name is a part of the name, nothing hangs at either end of it, and
/// all that is gone hung there.
pub proof fn law_nothing_hangs_on_a_tidied_name(s: Seq<char>)
    ensures
        ({
            let t = tidied(s);
            &&& t.len() > 0 ==> !hanging(t[0]) && !hanging(t.last())
            &&& exists|a: int, b: int|
                #![trigger s.subrange(a, b)]
                0 <= a <= b <= s.len() && t == s.subrange(a, b) && (forall|k: int|
                    0 <= k < a || b <= k < s.len() ==> hanging(#[trigger] s[k]))
        }),
{
    lemma_hanging_end(s, 0);
    let a = hanging_end(s, 0);
    lemma_hanging_start(s, a, s.len() as int);
    let b = hanging_start(s, a, s.len() as int);
    assert(tidied(s) == s.subrange(a, b));
    if a < b {
        assert(tidied(s)[0] == s[a]);
        assert(tidied(s).last() == s[b - 1]);
    }
}

proof fn lemma_hanging_end(s: Seq<char>, i: int)
    requires
        0 <= i <= s.len(),
    ensures
        i <= hanging_end(s, i) <= s.len(),
        forall|k: int| i <= k < hanging_end(s, i) ==> hanging(#[trigger] s[k]),
        hanging_end(s, i) < s.len() ==> !hanging(s[hanging_end(s, i)]),
    decreases s.len() - i,
{
    if i < s.len() && hanging(s[i]) {
        lemma_hanging_end(s, i + 1);
    }
}

proof fn lemma_hanging_start(s: Seq<char>, from: int, n: int)
    requires
        0 <= from <= n <= s.len(),
    ensures
        from <= hanging_start(s, from, n) <= n,
        forall|k: int| hanging_start(s, from, n) <= k < n ==> hanging(#[trigger] s[k]),
        hanging_start(s, from, n) > from ==> !hanging(s[hanging_start(s, from, n) - 1]),
    decreases n,
{
    if from < n && hanging(s[n - 1]) {
        lemma_hanging_start(s, from, n - 1);
    }
}

/// A name that ends in a quoted title loses it from the last quote that opens
/// on, unless that would leave nothing; any other name is left alone.
pub proof fn law_a_quoted_title_is_taken_off(s: Seq<char>, open: int, close: int)
    requires
        0 <= open < close < s.len(),
        s[open] == '「',
        s[close] == '」',
        forall|k: int| open < k < s.len() ==> #[trigger] s[k] != '「',
        forall|k: int| close < k < s.len() ==> spacing(folded(#[trigger] s[k])),
        !spacing(folded(s[close])),
    ensures
        open > 0 ==> untitled(s) == s.take(open),
        open == 0 ==> untitled(s) == s,
{
    lemma_told_end(s, close, s.len() as int);
    lemma_opened_before(s, open, s.len() as int);
}

proof fn lemma_told_end(s: Seq<char>, close: int, n: int)
    requires
        0 <= close < n <= s.len(),
        forall|k: int| close < k < s.len() ==> spacing(folded(#[trigger] s[k])),
        !spacing(folded(s[close])),
    ensures
        told_end(s, n) == close + 1,
    decreases n,
{
    if n > close + 1 {
        assert(spacing(folded(s[n - 1])));
        lemma_told_end(s, close, n - 1);
    }
}

proof fn lemma_opened_before(s: Seq<char>, open: int, n: int)
    requires
        0 <= open < n <= s.len(),
        s[open] == '「',
        forall|k: int| open < k < s.len() ==> #[trigger] s[k] != '「',
    ensures
        opened_before(s, n) == open + 1,
    decreases n,
{
    if n > open + 1 {
        assert(s[n - 1] != '「');
        lemma_opened_before(s, open, n - 1);
    }
}

/// A name without marks in brackets keeps every character.
pub proof fn law_a_plain_name_keeps_its_characters(s: Seq<char>, i: int)
    requires
        0 <= i <= s.len(),
        forall|k: int| 0 <= k < s.len() ==> mark_end(s, k) is None,
    ensures
        unmarked(s, i) == s.skip(i),
    decreases s.len() - i,
{
    if i < s.len() {
        law_a_plain_name_keeps_its_characters(s, i + 1);
        assert(mark_end(s, i) is None);
        assert(s.skip(i) =~= seq![s[i]] + s.skip(i + 1));
    } else {
        assert(s.skip(i) =~= Seq::empty());
    }
}

/// A mark in brackets goes whole: what is before it and what is behind it stay.
pub proof fn law_a_mark_goes_whole(s: Seq<char>, i: int, end: int)
    requires
        0 <= i < s.len(),
        mark_end(s, i) == Some(end),
    ensures
        unmarked(s, i) == unmarked(s, end),
        i < end,
{
}

/// What comes before the name of a series is taken off: the space it starts in,
/// and the label of the slot it was broadcast in, however many there are.
pub proof fn law_a_label_is_taken_off(s: Seq<char>)
    ensures
        ({
            let t = unspaced(s);
            &&& (t.len() > 0 ==> folded(t[0]) != ' ')
            &&& label_end(t) is None ==> unblocked(s) == t
            &&& label_end(t) matches Some(e) ==> (0 < e <= t.len() ==> unblocked(s) == unblocked(
                t.skip(e),
            ))
        }),
{
    lemma_unspaced(s);
}

proof fn lemma_unspaced(s: Seq<char>)
    ensures
        unspaced(s).len() <= s.len(),
        unspaced(s).len() > 0 ==> folded(unspaced(s)[0]) != ' ',
    decreases s.len(),
{
    if s.len() > 0 && folded(s[0]) == ' ' {
        lemma_unspaced(s.skip(1));
    }
}

/// A series is what stands before the episode, tidied; where that leaves
/// nothing, the whole name, tidied, and where even that does, the name.
pub proof fn law_a_series_is_what_stands_before_the_episode(name: Seq<char>)
    ensures
        ({
            let plain = unblocked(unmarked(name, 0));
            let head = tidied(untitled(plain.take(episode_from(plain, 0))));
            &&& head.len() > 0 ==> series_name(name) == head
            &&& head.len() == 0 && tidied(name).len() > 0 ==> series_name(name) == tidied(name)
            &&& head.len() == 0 && tidied(name).len() == 0 ==> series_name(name) == name
        }),
{
    assert(cut_down(name) == cut_down(name));
}

} // verus!
