//! Which corner is taken to hold the logo.
use crate::logo::watch::found;
use crate::logo::{
    lengths, limits, plausible, reaching, steadiest, window_of, LogoOptions,
};
use crate::rank::{at_place, law_one_value_stands_at_a_place, lemma_at_place, stands};
use crate::time::{law_rounding_is_to_the_nearest, SECOND};
use vstd::prelude::*;

verus! {

/// The logo is taken to be up where a score is two fifths of the middle one, and
/// to be gone where it is under three twentieths of it; but neither goes under a
/// hundredth and four thousandths. `median` is the middle score.
pub proof fn law_the_limits_are_parts_of_the_median(scores: Seq<i64>, median: int)
    requires
        scores.len() > 0,
        stands(scores, (scores.len() / 2) as int, median),
    ensures
        ({
            let (up, down) = limits(scores);
            &&& up >= 10_000 && 5 * up >= 2 * median
            &&& up == 10_000 || 5 * (up - 1) < 2 * median
            &&& down >= 4_000 && 20 * down >= 3 * median
            &&& down == 4_000 || 20 * (down - 1) < 3 * median
        }),
        limits(Seq::empty()) == (10_000int, 4_000int),
{
    let k = (scores.len() / 2) as int;
    lemma_at_place(scores, k);
    law_one_value_stands_at_a_place(scores, k, median, at_place(scores, k));
}

proof fn lemma_count(scores: Seq<i64>, least: int)
    ensures
        reaching(scores, least) == scores.filter(|s: i64| s >= least).len(),
    decreases scores.len(),
{
    reveal(Seq::filter);
    if scores.len() > 0 {
        lemma_count(scores.drop_last(), least);
    }
}

/// A corner is believed to hold a logo where it is up in half the pictures or
/// more, and is not gone oftener than a broadcast has breaks nor, in the middle
/// of how long it is gone, for less than a break takes.
pub proof fn law_a_corner_is_believed_where_it_looks_like_a_logo(
    times: Seq<i64>,
    scores: Seq<i64>,
    opts: LogoOptions,
    typical: int,
)
    requires
        ({
            let gone = found(times, scores, limits(scores).0, limits(scores).1, opts).absent;
            gone.len() > 0 ==> stands(
                gone.map_values(|x: (i64, i64)| (x.1 - x.0) as i64),
                (gone.len() / 2) as int,
                typical,
            )
        }),
    ensures
        ({
            let gone = found(times, scores, limits(scores).0, limits(scores).1, opts).absent;
            let up = scores.filter(|s: i64| s >= limits(scores).0).len();
            plausible(times, scores, opts) == (scores.len() > 0 && 2 * up >= scores.len()
                && gone.len() <= opts.max_breaks && (gone.len() > 0 ==> typical
                >= opts.typical_break))
        }),
{
    let gone = found(times, scores, limits(scores).0, limits(scores).1, opts).absent;
    lemma_count(scores, limits(scores).0);
    if gone.len() > 0 {
        let l = gone.map_values(|x: (i64, i64)| (x.1 - x.0) as i64);
        let k = (gone.len() / 2) as int;
        assert(l =~= lengths(gone));
        lemma_at_place(l, k);
        law_one_value_stands_at_a_place(l, k, typical, at_place(l, k));
    }
}

/// How often what a corner shows changes.
pub open spec fn changes(times: Seq<i64>, scores: Seq<i64>, opts: LogoOptions) -> int {
    found(times, scores, limits(scores).0, limits(scores).1, opts).transitions
}

/// In how many pictures it is up.
pub open spec fn ups(scores: Seq<i64>) -> nat {
    scores.filter(|s: i64| s >= limits(scores).0).len()
}

/// The corner taken is one that is believed, and of those the one that changes
/// least often; where two change as often, the one that is up in more pictures,
/// and where those are the same, the first. None is taken exactly where none is
/// believed.
#[verifier::spinoff_prover]
#[verifier::rlimit(60)]
pub proof fn law_the_steadiest_corner_is_taken(
    times: Seq<i64>,
    scores: Seq<Vec<i64>>,
    opts: LogoOptions,
    n: int,
    k: int,
)
    requires
        0 <= n <= scores.len(),
        0 <= k < n,
    ensures
        match steadiest(times, scores, opts, n) {
            Some(b) => {
                let (x, y) = (scores[b]@, scores[k]@);
                &&& 0 <= b < n
                &&& plausible(times, x, opts)
                &&& plausible(times, y, opts) ==> {
                    ||| changes(times, x, opts) < changes(times, y, opts)
                    ||| changes(times, x, opts) == changes(times, y, opts) && ups(x) > ups(y)
                    ||| changes(times, x, opts) == changes(times, y, opts) && ups(x) == ups(y) && b
                        <= k
                }
            },
            None => !plausible(times, scores[k]@, opts),
        },
    decreases n,
{
    let best = steadiest(times, scores, opts, n - 1);
    lemma_count(scores[k]@, limits(scores[k]@).0);
    lemma_count(scores[n - 1]@, limits(scores[n - 1]@).0);
    if n > 1 {
        let j = if k < n - 1 {
            k
        } else {
            0
        };
        law_the_steadiest_corner_is_taken(times, scores, opts, n - 1, j);
        if let Some(b) = best {
            lemma_count(scores[b]@, limits(scores[b]@).0);
        }
    }
}

/// Over how many key pictures a score is smoothed: as many as come nearest to
/// the time asked for, the middle gap between them taken for all, but two at
/// least and sixty-four at most.
pub proof fn law_the_window_is_as_long_as_asked(gaps: Seq<i64>, window: int, gap: int)
    requires
        gaps.len() > 0,
        stands(gaps, (gaps.len() / 2) as int, gap),
        gap > 705,
        0 <= window,
    ensures
        ({
            let many = window_of(gaps, window);
            &&& 2 <= many <= 64
            &&& 2 < many < 64 ==> 2 * window - gap < 2 * (many * gap) <= 2 * window + gap
            &&& 2 * window >= 128 * gap ==> many == 64
            &&& 2 * window < 3 * gap ==> many == 2
        }),
{
    let k = (gaps.len() / 2) as int;
    lemma_at_place(gaps, k);
    law_one_value_stands_at_a_place(gaps, k, gap, at_place(gaps, k));
    law_rounding_is_to_the_nearest(window, gap);
    let r = crate::time::rounded(window, gap);
    assert(2 * window >= 128 * gap ==> r >= 64) by (nonlinear_arith)
        requires
            2 * window - gap < 2 * (r * gap),
            gap > 0,
    ;
    assert(2 * window < 3 * gap ==> r < 2) by (nonlinear_arith)
        requires
            2 * (r * gap) <= 2 * window + gap,
            gap > 0,
    ;
}

/// Without a gap to go by, key pictures are taken to be half a second apart.
pub proof fn law_without_gaps_half_a_second_is_taken(window: int)
    requires
        0 <= window,
    ensures
        ({
            let many = window_of(Seq::empty(), window);
            2 < many < 64 ==> 4 * window - SECOND < 2 * (many * SECOND) <= 4 * window + SECOND
        }),
{
    law_rounding_is_to_the_nearest(window, (SECOND / 2) as int);
}

} // verus!
