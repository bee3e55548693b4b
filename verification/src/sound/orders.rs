//! What a run is made of: every range once and in order, and how it comes up
//! and goes down.
use crate::recording::AudioInfo;
use crate::sound::{
    acts_to, differs, fade_of, fades_to, first_kept, head_taken, kept_tracks, order_for,
    piece_acts, place_for, range_acts, ranges_in_reach, ranges_kept, ranges_to, window_of, Act,
    AudioMode, Pcm, Piece, SoundOptions,
};
use crate::time::{in_reach, law_rounding_is_to_the_nearest, SECOND};
use crate::transition::Crossing;
use vstd::prelude::*;

verus! {

/// The track taken is the first that is not left out; there is none exactly
/// where every track is.
pub proof fn law_the_first_track_kept_is_taken(audios: Seq<AudioInfo>, dropped: Seq<usize>, i: int)
    requires
        0 <= i <= audios.len(),
    ensures
        match first_kept(audios, dropped, i) {
            Some(k) => i <= k < audios.len() && !dropped.contains(audios[k].stream_index)
                && forall|j: int|
                i <= j < k ==> dropped.contains((#[trigger] audios[j]).stream_index),
            None => forall|j: int|
                i <= j < audios.len() ==> dropped.contains((#[trigger] audios[j]).stream_index),
        },
    decreases audios.len() - i,
{
    if i < audios.len() && dropped.contains(audios[i].stream_index) {
        law_the_first_track_kept_is_taken(audios, dropped, i + 1);
    }
}

/// How many tracks there are to choose from is how many are not left out.
pub proof fn law_the_tracks_are_those_not_left_out(
    audios: Seq<AudioInfo>,
    dropped: Seq<usize>,
    n: int,
)
    requires
        0 <= n <= audios.len(),
    ensures
        kept_tracks(audios, dropped, n) == audios.take(n).filter(
            |a: AudioInfo| !dropped.contains(a.stream_index),
        ).len(),
    decreases n,
{
    reveal(Seq::filter);
    if n > 0 {
        law_the_tracks_are_those_not_left_out(audios, dropped, n - 1);
        assert(audios.take(n).drop_last() =~= audios.take(n - 1));
        assert(audios.take(n).last() == audios[n - 1]);
    }
}

/// How many ranges stand before the ones of a piece.
pub open spec fn before(pieces: Seq<Piece>, n: int) -> int
    decreases pieces.len(),
{
    if n <= 0 || pieces.len() == 0 {
        0
    } else {
        pieces[0].ranges@.len() + before(pieces.skip(1), n - 1)
    }
}

proof fn lemma_before(pieces: Seq<Piece>, n: int)
    requires
        0 <= n <= pieces.len(),
    ensures
        before(pieces, n) == ranges_to(pieces, n),
        n < pieces.len() ==> before(pieces, n + 1) == before(pieces, n) + pieces[n].ranges@.len(),
    decreases n,
{
    if n > 0 {
        lemma_before(pieces, n - 1);
    }
    if n < pieces.len() {
        lemma_before_step(pieces, n);
    }
}

proof fn lemma_before_step(pieces: Seq<Piece>, n: int)
    requires
        0 <= n < pieces.len(),
    ensures
        before(pieces, n + 1) == before(pieces, n) + pieces[n].ranges@.len(),
    decreases n,
{
    if n > 0 {
        lemma_before_step(pieces.skip(1), n - 1);
        assert(pieces.skip(1)[n - 1] == pieces[n]);
    } else {
        assert(before(pieces.skip(1), 0) == 0);
        assert(before(pieces, 1) == pieces[0].ranges@.len() + before(pieces.skip(1), 0));
    }
}

proof fn lemma_before_grows(pieces: Seq<Piece>, a: int, b: int)
    requires
        0 <= a <= b <= pieces.len(),
    ensures
        0 <= before(pieces, a) <= before(pieces, b),
    decreases b,
{
    if b > a {
        lemma_before_grows(pieces, a, b - 1);
        lemma_before_step(pieces, b - 1);
    } else if b > 0 {
        lemma_before_grows(pieces, b - 1, b - 1);
        lemma_before_step(pieces, b - 1);
    }
}

/// Whether a piece has the track that is written.
pub open spec fn has_the_track(
    pieces: Seq<Piece>,
    master: int,
    n: int,
    dropped: Seq<usize>,
) -> bool {
    exists|k: int|
        #![trigger pieces[master].src.audios@[k]]
        0 <= k < pieces[master].src.audios@.len() && k < pieces[n].src.audios@.len()
            && !dropped.contains(pieces[master].src.audios@[k].stream_index) && forall|j: int|
            0 <= j < k ==> dropped.contains(
                (#[trigger] pieces[master].src.audios@[j]).stream_index,
            )
}

proof fn lemma_has_the_track(pieces: Seq<Piece>, master: int, n: int, opts: SoundOptions)
    requires
        0 <= master < pieces.len(),
        0 <= n < pieces.len(),
    ensures
        has_the_track(pieces, master, n, opts.drop_streams@) == (place_for(
            pieces,
            master,
            n,
            opts,
        ) is Some),
{
    let audios = pieces[master].src.audios@;
    let dropped = opts.drop_streams@;
    law_the_first_track_kept_is_taken(audios, dropped, 0);
    if let Some(k) = first_kept(audios, dropped, 0) {
        assert(audios[k] == audios[k]);
        if has_the_track(pieces, master, n, dropped) {
            let j = choose|j: int|
                #![trigger pieces[master].src.audios@[j]]
                0 <= j < audios.len() && j < pieces[n].src.audios@.len() && !dropped.contains(
                    pieces[master].src.audios@[j].stream_index,
                ) && forall|i: int|
                    0 <= i < j ==> dropped.contains(
                        (#[trigger] pieces[master].src.audios@[i]).stream_index,
                    );
            if j < k {
                assert(dropped.contains(audios[j].stream_index));
            }
            if k < j {
                assert(dropped.contains(audios[k].stream_index));
            }
        }
    }
}

/// The place of an act that writes a range.
pub open spec fn range_at(acts: Seq<Act>, i: int) -> Option<(int, int, int)> {
    match acts[i] {
        Act::Range { piece, k, at } => Some((piece as int, k as int, at as int)),
        _ => None,
    }
}

/// Whether acts write the ranges from one place on and up to another, no range
/// twice and none before its turn, and each of them one that there is.
pub open spec fn write_in_turn(acts: Seq<Act>, from: int, to: int) -> bool {
    &&& forall|i: int|
        0 <= i < acts.len() && #[trigger] range_at(acts, i) is Some ==> from <= (range_at(
            acts,
            i,
        )->0).2 < to
    &&& forall|i: int, j: int|
        0 <= i < j < acts.len() && #[trigger] range_at(acts, i) is Some && #[trigger] range_at(
            acts,
            j,
        ) is Some ==> (range_at(acts, i)->0).2 < (range_at(acts, j)->0).2
}

proof fn lemma_in_turn_join(a: Seq<Act>, b: Seq<Act>, from: int, mid: int, to: int)
    requires
        from <= mid <= to,
        write_in_turn(a, from, mid),
        write_in_turn(b, mid, to),
    ensures
        write_in_turn(a + b, from, to),
{
    let c = a + b;
    let n = a.len() as int;
    assert forall|i: int| 0 <= i < c.len() implies #[trigger] range_at(c, i) == (if i < n {
        range_at(a, i)
    } else {
        range_at(b, i - n)
    }) by {}
}

#[verifier::spinoff_prover]
#[verifier::rlimit(60)]
proof fn lemma_range_acts(n: int, base: int, k: int, r: int)
    requires
        0 <= n <= usize::MAX,
        0 <= base,
        0 <= k,
        base + k <= usize::MAX,
    ensures
        write_in_turn(range_acts(n, base, k), base, base + k),
        0 <= r < k ==> range_acts(n, base, k).contains(
            Act::Range { piece: n as usize, k: r as usize, at: (base + r) as usize },
        ),
        forall|i: int|
            0 <= i < range_acts(n, base, k).len() && #[trigger] range_at(
                range_acts(n, base, k),
                i,
            ) is Some ==> {
                let (p, q, at) = range_at(range_acts(n, base, k), i)->0;
                p == n && 0 <= q < k && at == base + q
            },
        forall|i: int|
            0 <= i < range_acts(n, base, k).len() ==> !((#[trigger] range_acts(n, base, k)[i])
                is Leave),
    decreases k,
{
    let all = range_acts(n, base, k);
    if k > 0 {
        let less = range_acts(n, base, k - 1);
        lemma_range_acts(n, base, k - 1, r);
        let one = Act::Range { piece: n as usize, k: (k - 1) as usize, at: (base + k - 1) as usize };
        let m = less.len() as int;
        assert(all =~= less.push(one).push(Act::Said((base + k) as usize)));
        assert forall|i: int| 0 <= i < all.len() implies #[trigger] range_at(all, i) == (if i < m {
            range_at(less, i)
        } else if i == m {
            Some((n, k - 1, base + k - 1))
        } else {
            None
        }) by {}
        if r == k - 1 {
            assert(all[m] == one);
        } else if 0 <= r < k - 1 {
            let w = Act::Range { piece: n as usize, k: r as usize, at: (base + r) as usize };
            let i = choose|i: int| 0 <= i < less.len() && less[i] == w;
            assert(all[i] == w);
        }
    }
}

/// One act in front of others that is no range changes nothing of the ranges.
proof fn lemma_in_front(front: Seq<Act>, acts: Seq<Act>, from: int, to: int)
    requires
        write_in_turn(acts, from, to),
        forall|i: int| 0 <= i < front.len() ==> #[trigger] range_at(front, i) is None,
    ensures
        write_in_turn(front + acts, from, to),
{
    let c = front + acts;
    let n = front.len() as int;
    assert forall|i: int| 0 <= i < c.len() implies #[trigger] range_at(c, i) == (if i < n {
        range_at(front, i)
    } else {
        range_at(acts, i - n)
    }) by {}
}

#[verifier::spinoff_prover]
#[verifier::rlimit(60)]
proof fn lemma_piece_acts(
    pieces: Seq<Piece>,
    master: int,
    n: int,
    opts: SoundOptions,
    mode: AudioMode,
    r: int,
)
    requires
        0 <= master < pieces.len(),
        0 <= n < pieces.len() <= usize::MAX,
        ranges_to(pieces, pieces.len() as int) <= usize::MAX,
    ensures
        ({
            let acts = piece_acts(pieces, master, n, opts, mode);
            let there = has_the_track(pieces, master, n, opts.drop_streams@);
            let base = before(pieces, n);
            &&& write_in_turn(acts, base, base + pieces[n].ranges@.len())
            &&& there && 0 <= r < pieces[n].ranges@.len() ==> acts.contains(
                Act::Range { piece: n as usize, k: r as usize, at: (base + r) as usize },
            )
            &&& forall|i: int|
                0 <= i < acts.len() && #[trigger] range_at(acts, i) is Some ==> {
                    let (p, q, at) = range_at(acts, i)->0;
                    there && p == n && 0 <= q < pieces[n].ranges@.len() && at == base + q
                }
            &&& !there ==> acts.contains(Act::Leave(n as usize))
            &&& forall|i: int|
                0 <= i < acts.len() && (#[trigger] acts[i]) is Leave ==> !there && acts[i]
                    == Act::Leave(n as usize)
            &&& there && mode is Smart ==> acts.contains(Act::Patch(n as usize))
            &&& there && mode is Reencode && n > 0 ==> acts.contains(Act::Retune(n as usize))
        }),
{
    lemma_has_the_track(pieces, master, n, opts);
    lemma_before(pieces, n);
    lemma_before_grows(pieces, n + 1, pieces.len() as int);
    lemma_before(pieces, pieces.len() as int);
    let acts = piece_acts(pieces, master, n, opts, mode);
    let base = before(pieces, n);
    let many = pieces[n].ranges@.len() as int;
    lemma_before_grows(pieces, 0, n);
    if place_for(pieces, master, n, opts) is None {
        assert(acts[0] == Act::Leave(n as usize));
    } else {
        let rest = range_acts(n, base, many);
        lemma_range_acts(n, base, many, r);
        let a: Seq<Act> = if mode is Smart {
            seq![Act::Patch(n as usize)]
        } else {
            Seq::empty()
        };
        let b: Seq<Act> = if mode is Reencode && (n > 0 || n != master) {
            seq![Act::Retune(n as usize)]
        } else {
            Seq::empty()
        };
        let front = a + b;
        assert(acts == front + rest);
        assert forall|i: int| 0 <= i < front.len() implies #[trigger] range_at(front, i) is None
            && !(front[i] is Leave) by {}
        lemma_in_front(front, rest, base, base + many);
        let m = front.len() as int;
        assert forall|i: int| 0 <= i < acts.len() implies acts[i] == (if i < m {
            front[i]
        } else {
            rest[i - m]
        }) by {}
        assert forall|i: int| 0 <= i < acts.len() && #[trigger] range_at(acts, i)
            is Some implies ({
            let (p, q, at) = range_at(acts, i)->0;
            p == n && 0 <= q < many && at == base + q
        }) by {
            assert(acts[i] == (if i < m {
                front[i]
            } else {
                rest[i - m]
            }));
            if i < m {
                assert(range_at(front, i) is None);
            } else {
                assert(range_at(rest, i - m) is Some);
            }
        }
        if 0 <= r < many {
            let w = Act::Range { piece: n as usize, k: r as usize, at: (base + r) as usize };
            let i = choose|i: int| 0 <= i < rest.len() && rest[i] == w;
            assert(acts[m + i] == w);
        }
        if mode is Smart {
            assert(acts[0] == Act::Patch(n as usize));
        }
        if mode is Reencode && n > 0 {
            assert(acts[0] == Act::Retune(n as usize));
        }
    }
}

/// A run writes every range of every piece that has the track, once, and in
/// order; and no other. A piece without it is left out, and said to be. Where
/// frames are patched, each piece's are, and where the sound is made again,
/// what makes it is told of each piece that follows another.
#[verifier::spinoff_prover]
#[verifier::rlimit(60)]
pub proof fn law_a_run_writes_every_range_once(
    pieces: Seq<Piece>,
    master: int,
    opts: SoundOptions,
    mode: AudioMode,
    m: int,
    n: int,
    r: int,
)
    requires
        0 <= master < pieces.len() <= usize::MAX,
        ranges_to(pieces, pieces.len() as int) <= usize::MAX,
        0 <= n < m <= pieces.len(),
    ensures
        ({
            let acts = acts_to(pieces, master, opts, mode, m);
            let there = has_the_track(pieces, master, n, opts.drop_streams@);
            &&& write_in_turn(acts, 0, before(pieces, m))
            &&& there && 0 <= r < pieces[n].ranges@.len() ==> acts.contains(
                Act::Range { piece: n as usize, k: r as usize, at: (before(pieces, n) + r) as usize },
            )
            &&& acts.contains(Act::Leave(n as usize)) == !there
            &&& there && mode is Smart ==> acts.contains(Act::Patch(n as usize))
            &&& there && mode is Reencode && n > 0 ==> acts.contains(Act::Retune(n as usize))
        }),
    decreases m,
{
    let less = acts_to(pieces, master, opts, mode, m - 1);
    let more = piece_acts(pieces, master, m - 1, opts, mode);
    let acts = acts_to(pieces, master, opts, mode, m);
    let there = has_the_track(pieces, master, n, opts.drop_streams@);
    lemma_piece_acts(pieces, master, m - 1, opts, mode, r);
    lemma_before(pieces, m - 1);
    lemma_before_grows(pieces, 0, m - 1);
    assert(acts == less + more);
    let l = less.len() as int;
    assert forall|x: Act| #[trigger] acts.contains(x) == (less.contains(x) || more.contains(x)) by {
        if less.contains(x) {
            let i = choose|i: int| 0 <= i < less.len() && less[i] == x;
            assert(acts[i] == x);
        }
        if more.contains(x) {
            let i = choose|i: int| 0 <= i < more.len() && more[i] == x;
            assert(acts[l + i] == x);
        }
        if acts.contains(x) {
            let i = choose|i: int| 0 <= i < acts.len() && acts[i] == x;
            if i < l {
                assert(less[i] == x);
            } else {
                assert(more[i - l] == x);
            }
        }
    }
    if m == 1 {
        assert(less =~= seq![Act::Said(0)]);
        assert(write_in_turn(less, 0, 0));
        assert(!less.contains(Act::Leave(n as usize)));
    } else if n < m - 1 {
        law_a_run_writes_every_range_once(pieces, master, opts, mode, m - 1, n, r);
        assert(!more.contains(Act::Leave(n as usize))) by {
            if more.contains(Act::Leave(n as usize)) {
                let i = choose|i: int| 0 <= i < more.len() && more[i] == Act::Leave(n as usize);
                assert(more[i] is Leave);
            }
        }
    } else {
        law_a_run_writes_every_range_once(pieces, master, opts, mode, m - 1, 0, r);
        lemma_not_left_yet(pieces, master, opts, mode, m - 1, n);
    }
    lemma_in_turn_join(less, more, 0, before(pieces, m - 1), before(pieces, m));
}

proof fn lemma_not_left_yet(
    pieces: Seq<Piece>,
    master: int,
    opts: SoundOptions,
    mode: AudioMode,
    m: int,
    n: int,
)
    requires
        0 <= master < pieces.len() <= usize::MAX,
        ranges_to(pieces, pieces.len() as int) <= usize::MAX,
        0 <= m <= n < pieces.len(),
    ensures
        !acts_to(pieces, master, opts, mode, m).contains(Act::Leave(n as usize)),
    decreases m,
{
    let acts = acts_to(pieces, master, opts, mode, m);
    if m > 0 {
        let less = acts_to(pieces, master, opts, mode, m - 1);
        let more = piece_acts(pieces, master, m - 1, opts, mode);
        lemma_not_left_yet(pieces, master, opts, mode, m - 1, n);
        lemma_piece_acts(pieces, master, m - 1, opts, mode, 0);
        if acts.contains(Act::Leave(n as usize)) {
            let i = choose|i: int| 0 <= i < acts.len() && acts[i] == Act::Leave(n as usize);
            if i < less.len() {
                assert(less[i] == Act::Leave(n as usize));
            } else {
                assert(more[i - less.len()] is Leave);
            }
        }
    }
}

proof fn lemma_fades(pieces: Seq<Piece>, opts: SoundOptions, m: int, n: int, k: int)
    requires
        0 <= n < m <= pieces.len(),
        0 <= k < pieces[n].ranges@.len(),
    ensures
        fades_to(pieces, opts, m).len() == before(pieces, m),
        0 <= before(pieces, n) + k < before(pieces, m),
        fades_to(pieces, opts, m)[before(pieces, n) + k] == fade_of(pieces, n, k, opts),
    decreases m,
{
    lemma_fades_len(pieces, opts, m - 1);
    lemma_before(pieces, m - 1);
    lemma_before_grows(pieces, n + 1, m);
    lemma_before_grows(pieces, 0, n);
    lemma_before_step(pieces, n);
    if n < m - 1 {
        lemma_fades(pieces, opts, m - 1, n, k);
    }
}

proof fn lemma_fades_len(pieces: Seq<Piece>, opts: SoundOptions, m: int)
    requires
        0 <= m <= pieces.len(),
    ensures
        fades_to(pieces, opts, m).len() == before(pieces, m),
    decreases m,
{
    if m > 0 {
        lemma_fades_len(pieces, opts, m - 1);
        lemma_before_step(pieces, m - 1);
    }
}

/// Within a piece the sound goes down and comes back in the time asked for
/// every cut; where one piece follows another it takes the time of their join.
/// There is one pair for each range.
pub proof fn law_a_join_has_its_own_fades(
    pieces: Seq<Piece>,
    opts: SoundOptions,
    n: int,
    k: int,
)
    requires
        0 <= n < pieces.len(),
        0 <= k < pieces[n].ranges@.len(),
    ensures
        ({
            let fades = fades_to(pieces, opts, pieces.len() as int);
            let (up, down) = fades[before(pieces, n) + k];
            let last = pieces[n].ranges@.len() - 1;
            &&& fades.len() == before(pieces, pieces.len() as int)
            &&& 0 <= before(pieces, n) + k < fades.len()
            &&& k > 0 ==> up == opts.audio_fade
            &&& k < last ==> down == opts.audio_fade
            &&& n == 0 ==> up == opts.audio_fade
            &&& n == pieces.len() - 1 ==> down == opts.audio_fade
            &&& n > 0 && k == 0 ==> up == pieces[n - 1].after.fade_in
            &&& n < pieces.len() - 1 && k == last ==> down == pieces[n].after.fade_out
        }),
{
    lemma_fades(pieces, opts, pieces.len() as int, n, k);
}

/// Where pictures of one piece cross into the next, the next starts as much
/// later as the crossing takes, which is no more than half of either range.
/// Where they do not cross, nothing is taken.
pub proof fn law_a_crossing_takes_its_time(pieces: Seq<Piece>, n: int)
    requires
        ranges_in_reach(pieces),
        0 < n < pieces.len(),
        pieces[n].ranges@.len() > 0,
        pieces[n - 1].ranges@.len() > 0,
        ({
            let (a, b) = (pieces[n - 1].ranges@.last(), pieces[n].ranges@[0]);
            a.0 <= a.1 && b.0 <= b.1
        }),
    ensures
        ({
            let t = pieces[n - 1].after.crossing;
            let (a, b) = (pieces[n - 1].ranges@.last(), pieces[n].ranges@[0]);
            let take = ranges_kept(pieces, n)[0].0 - b.0;
            let crosses = t.kind != Crossing::Hard && !(t.kind is Fade) && t.seconds > 0;
            &&& !crosses ==> ranges_kept(pieces, n) == pieces[n].ranges@
            &&& crosses ==> 0 <= take <= t.seconds && take <= 30 * SECOND && 2 * take <= a.1 - a.0
                && 2 * take <= b.1 - b.0
            &&& crosses ==> take == t.seconds || take == 30 * SECOND || 2 * take + 1 >= a.1 - a.0
                || 2 * take + 1 >= b.1 - b.0
        }),
{
    let (a, b) = (pieces[n - 1].ranges@.last(), pieces[n].ranges@[0]);
    let j = pieces[n - 1].ranges@.len() - 1;
    assert(in_reach(pieces[n - 1].ranges@[j].0 as int) && in_reach(
        pieces[n - 1].ranges@[j].1 as int,
    ));
    assert(in_reach(b.0 as int) && in_reach(b.1 as int));
    let take = head_taken(pieces, n);
    assert(0 <= take && 2 * take <= b.1 - b.0);
}

/// The first piece starts where it is kept from.
pub proof fn law_nothing_is_taken_from_the_first(pieces: Seq<Piece>)
    requires
        pieces.len() > 0,
    ensures
        ranges_kept(pieces, 0) == pieces[0].ranges@,
{
}

/// A range starts and ends on the samples nearest to it.
pub proof fn law_a_range_runs_between_the_nearest_samples(range: (i64, i64), rate: u32)
    requires
        0 <= range.0,
        0 <= range.1,
    ensures
        ({
            let (a, b) = window_of(range, rate);
            &&& 2 * (range.0 * rate) - SECOND < 2 * (a * SECOND) <= 2 * (range.0 * rate) + SECOND
            &&& 2 * (range.1 * rate) - SECOND < 2 * (b * SECOND) <= 2 * (range.1 * rate) + SECOND
        }),
{
    assert(range.0 * rate >= 0 && range.1 * rate >= 0) by (nonlinear_arith)
        requires
            range.0 >= 0,
            range.1 >= 0,
            rate >= 0,
    ;
    law_rounding_is_to_the_nearest(range.0 * rate, SECOND as int);
    law_rounding_is_to_the_nearest(range.1 * rate, SECOND as int);
}

/// Whether the least byte of a sample is written first.
pub open spec fn least_first(p: Pcm) -> bool {
    p is S16Le || p is S24Le || p is S32Le || p is F32Le || p is F64Le
}

/// How many bits a sample has, and whether it is a fraction.
pub open spec fn grain(p: Pcm) -> (int, bool) {
    match p {
        Pcm::S16Le | Pcm::S16Be => (16, false),
        Pcm::S24Le | Pcm::S24Be => (24, false),
        Pcm::S32Le | Pcm::S32Be => (32, false),
        Pcm::F32Le | Pcm::F32Be => (32, true),
        Pcm::F64Le | Pcm::F64Be => (64, true),
        Pcm::Another(_) => (0, false),
    }
}

/// A file that writes its samples one way round keeps doing so, with as many
/// bits as are wanted where it has such a way: a file of whole sixteen-bit
/// samples with the least byte first has one for every grain.
pub proof fn law_a_file_keeps_its_way_round(own: Pcm, wanted: Pcm)
    requires
        !(own is Another),
        !(wanted is Another),
    ensures
        least_first(order_for(own, wanted)) == least_first(own),
        order_for(own, wanted) == own || grain(order_for(own, wanted)) == grain(wanted),
        grain(own) == grain(wanted) ==> order_for(own, wanted) == own,
        own == Pcm::S16Le ==> grain(order_for(own, wanted)) == grain(wanted),
        own == Pcm::S16Be && !grain(wanted).1 ==> grain(order_for(own, wanted)) == grain(wanted),
{
}

/// A piece is unlike the one the file takes its shape from where their tracks
/// are of another codec, another rate or other channels, and where AAC is
/// framed another way; and nowhere else.
#[verifier::spinoff_prover]
#[verifier::rlimit(60)]
pub proof fn law_unlike_sound_is_told(
    pieces: Seq<Piece>,
    master: int,
    n: int,
    opts: SoundOptions,
    framings: Seq<Option<u32>>,
    k: int,
)
    requires
        0 <= master < pieces.len(),
        0 <= n < pieces.len(),
        0 <= k < pieces[master].src.audios@.len(),
        !opts.drop_streams@.contains(pieces[master].src.audios@[k].stream_index),
        forall|j: int|
            0 <= j < k ==> opts.drop_streams@.contains(
                (#[trigger] pieces[master].src.audios@[j]).stream_index,
            ),
    ensures
        n == master ==> !differs(pieces, master, n, opts, framings),
        k >= pieces[n].src.audios@.len() ==> !differs(pieces, master, n, opts, framings),
        n != master && k < pieces[n].src.audios@.len() ==> {
            let (a, b) = (pieces[n].src.audios@[k], pieces[master].src.audios@[k]);
            let same = a.codec@ == b.codec@ && a.sample_rate == b.sample_rate && a.channels
                == b.channels;
            &&& !same ==> differs(pieces, master, n, opts, framings)
            &&& same && framings[n] == framings[master] ==> !differs(
                pieces,
                master,
                n,
                opts,
                framings,
            )
            &&& same && framings[n] != framings[master] ==> differs(
                pieces,
                master,
                n,
                opts,
                framings,
            ) == (a.codec@ == "aac"@)
        },
{
    let audios = pieces[master].src.audios@;
    law_the_first_track_kept_is_taken(audios, opts.drop_streams@, 0);
    match first_kept(audios, opts.drop_streams@, 0) {
        Some(j) => {
            if j < k {
                assert(opts.drop_streams@.contains(audios[j].stream_index));
            }
            if k < j {
                assert(opts.drop_streams@.contains(audios[k].stream_index));
            }
        },
        None => {
            assert(opts.drop_streams@.contains(audios[k].stream_index));
        },
    }
}

} // verus!
