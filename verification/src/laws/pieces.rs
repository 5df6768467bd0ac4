//! What the pieces of a word and the parts of a run are.
use crate::laws::segmentation::{
    above_floor, best_cuts, cuts_pieces, cuts_run, cuts_score, floor_holds, last_start,
    law_best_pieces_are_a_segmentation, law_no_better_pieces, law_no_better_run, lemma_best_at,
    lemma_best_in, lemma_candidate, lemma_cuts_in, lemma_run_best_in, lemma_run_score_in,
    ordered_on, run_score, scored_in,
};
use crate::lexicon::{Lexicon, Spelled};
use crate::score::Score;
use crate::segment::{
    compound_of, lemma_piece_back, piece_best, piece_best_from, piece_path, reached, run_best,
    run_parts,
};
use crate::trie::matches_up_to;
use vstd::prelude::*;

verus! {

/// Where the part `i` of a segmentation with the given ends starts.
pub open spec fn cut_start(cuts: Seq<int>, i: int) -> int {
    if i == 0 {
        0
    } else {
        cuts[i - 1]
    }
}

/// That the tokens are the pieces of `input` between the given ends, each with the id that it has
/// in the vocabulary of pieces, or else that of the unknown token.
pub open spec fn pieces_at<S>(
    m: Lexicon<S>,
    tokens: Seq<Spelled>,
    input: Seq<char>,
    cuts: Seq<int>,
) -> bool {
    &&& tokens.len() == cuts.len()
    &&& forall|i: int|
        0 <= i < cuts.len() ==> (#[trigger] tokens[i]).0 == input.subrange(
            cut_start(cuts, i),
            cuts[i],
        ) && tokens[i].1 == if m.sp_vocab.contains_key(tokens[i].0) {
            m.sp_vocab[tokens[i].0]
        } else {
            m.unk_id
        }
}

/// That `cuts` are the ends of pieces of the whole of `input` with a score above the floor.
pub open spec fn segments<S: Score>(
    pieces: Map<Seq<char>, S>,
    input: Seq<char>,
    cuts: Seq<int>,
) -> bool {
    cuts_pieces(pieces, input, cuts, input.len() as int) && reached(
        cuts_score(pieces, input, cuts),
    )
}

/// The chosen pieces are those between the chosen ends.
proof fn lemma_path_at_cuts<S: Score>(pieces: Map<Seq<char>, S>, input: Seq<char>, end: int)
    requires
        0 <= end <= input.len(),
    ensures
        ({
            let path = piece_path(pieces, input, end);
            let cuts = best_cuts(pieces, input, end);
            &&& path.len() == cuts.len()
            &&& end > 0 ==> cuts.len() > 0 && cuts.last() == end
            &&& end == 0 ==> cuts.len() == 0
            &&& forall|i: int|
                0 <= i < cuts.len() ==> #[trigger] path[i] == input.subrange(
                    cut_start(cuts, i),
                    cuts[i],
                )
        }),
    decreases end,
{
    if end > 0 {
        lemma_piece_back(pieces, input, end, end);
        let back = piece_best(pieces, input, end).back;
        lemma_path_at_cuts(pieces, input, back);
        let before = best_cuts(pieces, input, back);
        let cuts = best_cuts(pieces, input, end);
        let path = piece_path(pieces, input, end);
        assert forall|i: int| 0 <= i < cuts.len() implies #[trigger] path[i] == input.subrange(
            cut_start(cuts, i),
            cuts[i],
        ) by {
            if i < before.len() {
                assert(path[i] == piece_path(pieces, input, back)[i]);
                assert(cut_start(cuts, i) == cut_start(before, i));
            } else if i > 0 {
                assert(cuts[i - 1] == before.last());
            }
        }
    }
}

/// A word that with its mark is a piece among the tokens is that token.
pub proof fn law_whole_word<S: Score>(m: Lexicon<S>, word: Seq<char>)
    requires
        m.sp_vocab.contains_key(seq!['\u{2581}'] + word),
    ensures
        m.sp_tokens(word) == seq![
            (seq!['\u{2581}'] + word, m.sp_vocab[seq!['\u{2581}'] + word]),
        ],
{
}

/// A word that has a segmentation into pieces above the floor, with its mark, and is no piece
/// itself is tokenized as such a segmentation, and none is better.
pub proof fn law_word_in_pieces<S: Score>(set: Set<S>, m: Lexicon<S>, word: Seq<char>)
    requires
        ordered_on(set),
        scored_in(m.pieces, set),
        floor_holds(set) || above_floor(m.pieces, seq!['\u{2581}'] + word),
        !m.sp_vocab.contains_key(seq!['\u{2581}'] + word),
        exists|cuts: Seq<int>| segments(m.pieces, seq!['\u{2581}'] + word, cuts),
    ensures
        exists|best: Seq<int>| #[trigger]
            segments(m.pieces, seq!['\u{2581}'] + word, best) && pieces_at(
                m,
                m.sp_tokens(word),
                seq!['\u{2581}'] + word,
                best,
            ) && forall|cuts: Seq<int>| #[trigger]
                segments(m.pieces, seq!['\u{2581}'] + word, cuts) ==> !cuts_score(
                    m.pieces,
                    seq!['\u{2581}'] + word,
                    cuts,
                ).exceeds(cuts_score(m.pieces, seq!['\u{2581}'] + word, best)),
{
    let input = seq!['\u{2581}'] + word;
    let n = input.len() as int;
    let given = choose|cuts: Seq<int>| segments(m.pieces, input, cuts);
    let best = best_cuts(m.pieces, input, n);
    law_no_better_pieces(set, m.pieces, input, given, n);
    lemma_floor(set);
    law_best_pieces_are_a_segmentation(m.pieces, input, n);
    lemma_path_at_cuts(m.pieces, input, n);
    assert(segments(m.pieces, input, best));
    let tokens = m.sp_tokens(word);
    let path = piece_path(m.pieces, input, n);
    assert forall|i: int| 0 <= i < best.len() implies (#[trigger] tokens[i]).0 == input.subrange(
        cut_start(best, i),
        best[i],
    ) && tokens[i].1 == if m.sp_vocab.contains_key(tokens[i].0) {
        m.sp_vocab[tokens[i].0]
    } else {
        m.unk_id
    } by {
        assert(tokens[i] == (path[i], m.piece_id(path[i])));
    }
    assert forall|cuts: Seq<int>| #[trigger] segments(m.pieces, input, cuts) implies !cuts_score(
        m.pieces,
        input,
        cuts,
    ).exceeds(cuts_score(m.pieces, input, best)) by {
        law_no_better_pieces(set, m.pieces, input, cuts, n);
    }
}

/// The floor does not count as reached.
proof fn lemma_floor<S: Score>(set: Set<S>)
    requires
        ordered_on(set),
    ensures
        !reached(S::floor_spec()),
{
    let floor = S::floor_spec();
    assert(!floor.exceeds(floor));
}

/// A word becomes the unknown token only where it is no piece and has no segmentation above the
/// floor.
pub proof fn law_unknown_word<S: Score>(m: Lexicon<S>, word: Seq<char>)
    requires
        !reached(S::floor_spec()),
        !m.sp_vocab.contains_key(seq!['\u{2581}'] + word),
        forall|cuts: Seq<int>| !segments(m.pieces, seq!['\u{2581}'] + word, cuts),
    ensures
        m.sp_tokens(word) == seq![(m.unk_token, m.unk_id)],
{
    let input = seq!['\u{2581}'] + word;
    let n = input.len() as int;
    if reached(piece_best(m.pieces, input, n).score) {
        law_best_pieces_are_a_segmentation(m.pieces, input, n);
        assert(segments(m.pieces, input, best_cuts(m.pieces, input, n)));
    }
}

/// A best segmentation that ends later than a limit is better than any before the limit.
proof fn lemma_late_is_better<S: Score>(
    set: Set<S>,
    pieces: Map<Seq<char>, S>,
    input: Seq<char>,
    end: int,
    low: int,
    limit: int,
)
    requires
        ordered_on(set),
        scored_in(pieces, set),
        0 < low <= limit <= end,
        piece_best_from(pieces, input, end, limit).back >= low,
    ensures
        piece_best_from(pieces, input, end, limit).score.exceeds(
            piece_best_from(pieces, input, end, low).score,
        ),
    decreases limit,
{
    lemma_back_below(pieces, input, end, limit);
    let at = piece_best_from(pieces, input, end, low).score;
    let before = piece_best_from(pieces, input, end, limit - 1);
    let now = piece_best_from(pieces, input, end, limit);
    lemma_best_in(set, pieces, input, end, low);
    lemma_best_in(set, pieces, input, end, limit - 1);
    lemma_best_in(set, pieces, input, end, limit);
    if now.back < limit - 1 || now == before {
        assert(now == before);
        lemma_back_below(pieces, input, end, limit - 1);
        lemma_late_is_better(set, pieces, input, end, low, limit - 1);
    } else {
        assert(now.score.exceeds(before.score));
        lemma_grows(set, pieces, input, end, low, limit - 1);
        if !now.score.exceeds(at) {
            assert(!at.exceeds(before.score));
            assert(!now.score.exceeds(before.score));
        }
    }
}

/// The last piece of a best segmentation starts before the limit, or at the start.
proof fn lemma_back_below<S: Score>(
    pieces: Map<Seq<char>, S>,
    input: Seq<char>,
    end: int,
    limit: int,
)
    requires
        0 <= limit <= end,
    ensures
        piece_best_from(pieces, input, end, limit).back < limit || piece_best_from(
            pieces,
            input,
            end,
            limit,
        ).back == 0,
    decreases limit,
{
    if limit > 0 {
        lemma_back_below(pieces, input, end, limit - 1);
    }
}

/// With more starts the best does not get worse.
proof fn lemma_grows<S: Score>(
    set: Set<S>,
    pieces: Map<Seq<char>, S>,
    input: Seq<char>,
    end: int,
    low: int,
    limit: int,
)
    requires
        ordered_on(set),
        scored_in(pieces, set),
        0 <= low <= limit <= end,
    ensures
        !piece_best_from(pieces, input, end, low).score.exceeds(
            piece_best_from(pieces, input, end, limit).score,
        ),
    decreases limit,
{
    let at = piece_best_from(pieces, input, end, low).score;
    let now = piece_best_from(pieces, input, end, limit).score;
    lemma_best_in(set, pieces, input, end, low);
    lemma_best_in(set, pieces, input, end, limit);
    if low < limit {
        let before = piece_best_from(pieces, input, end, limit - 1).score;
        lemma_best_in(set, pieces, input, end, limit - 1);
        lemma_grows(set, pieces, input, end, low, limit - 1);
        if now != before {
            assert(now.exceeds(before));
            assert(!before.exceeds(now));
        }
    } else {
        assert(!at.exceeds(at));
    }
}

/// Of equally good segmentations one is chosen whose last piece is the longest.
pub proof fn law_longest_last_piece<S: Score>(
    set: Set<S>,
    pieces: Map<Seq<char>, S>,
    input: Seq<char>,
    cuts: Seq<int>,
    end: int,
)
    requires
        ordered_on(set),
        scored_in(pieces, set),
        floor_holds(set) || above_floor(pieces, input),
        cuts_pieces(pieces, input, cuts, end),
        0 < end,
        reached(cuts_score(pieces, input, cuts)),
        !piece_best(pieces, input, end).score.exceeds(cuts_score(pieces, input, cuts)),
    ensures
        piece_best(pieces, input, end).back <= last_start(cuts),
{
    let start = last_start(cuts);
    let piece = input.subrange(start, end);
    let score = cuts_score(pieces, input, cuts);
    let given = cuts_score(pieces, input, cuts.drop_last());
    let best = piece_best(pieces, input, end);
    let best_start = piece_best(pieces, input, start).score;
    let candidate = best_start.plus(pieces[piece]);
    let early = piece_best_from(pieces, input, end, start + 1).score;
    assert(cuts_pieces(pieces, input, cuts.drop_last(), start));
    lemma_cuts_in(set, pieces, input, cuts, end);
    lemma_cuts_in(set, pieces, input, cuts.drop_last(), start);
    lemma_best_at(set, pieces, input, start);
    lemma_best_at(set, pieces, input, end);
    lemma_best_in(set, pieces, input, end, start + 1);
    assert(set.contains(pieces[piece]));
    assert(reached(given)) by {
        if floor_holds(set) && !reached(given) {
            assert(!reached(given.plus(pieces[piece])));
        }
    }
    law_no_better_pieces(set, pieces, input, cuts.drop_last(), start);
    lemma_candidate(set, pieces, input, end, start + 1, start);
    assert(!given.plus(pieces[piece]).exceeds(candidate));
    assert(!score.exceeds(candidate));
    assert(!score.exceeds(early));
    assert(!best.score.exceeds(early));
    if best.back > start {
        lemma_late_is_better(set, pieces, input, end, start + 1, end);
    }
}

/// The pieces before the last are those of the text before it.
pub proof fn law_pieces_before_the_last<S: Score>(
    pieces: Map<Seq<char>, S>,
    input: Seq<char>,
    end: int,
)
    requires
        0 < end <= input.len(),
    ensures
        ({
            let back = piece_best(pieces, input, end).back;
            &&& 0 <= back < end
            &&& piece_path(pieces, input, end) == piece_path(pieces, input, back).push(
                input.subrange(back, end),
            )
        }),
{
    lemma_piece_back(pieces, input, end, end);
}

/// Whatever the scores, a start counts for a position where it is reached, what lies between is a
/// piece, and the sum is better than those of all earlier starts.
pub proof fn law_start_counts<S: Score>(
    pieces: Map<Seq<char>, S>,
    input: Seq<char>,
    end: int,
    start: int,
)
    requires
        0 <= start < end <= input.len(),
    ensures
        ({
            let before = piece_best_from(pieces, input, end, start);
            let now = piece_best_from(pieces, input, end, start + 1);
            let from = piece_best(pieces, input, start).score;
            let piece = input.subrange(start, end);
            let counts = !from.same(S::floor_spec()) && pieces.contains_key(piece) && from.plus(
                pieces[piece],
            ).exceeds(before.score);
            &&& counts ==> now.score == from.plus(pieces[piece]) && now.back == start
            &&& !counts ==> now == before
            &&& piece_best_from(pieces, input, end, 0).score == S::floor_spec()
            &&& piece_best(pieces, input, 0).score == S::zero_spec()
            &&& piece_best(pieces, input, end) == piece_best_from(pieces, input, end, end)
        }),
{
}

// Runs

/// A run is cut into a compound at its end only where that is better than any segmentation that
/// ends in a single word.
pub proof fn law_compound_is_better<S: Score>(
    set: Set<S>,
    compounds: Map<Seq<char>, S>,
    unigram: S,
    run: Seq<Seq<char>>,
    cuts: Seq<int>,
    k: int,
)
    requires
        ordered_on(set),
        scored_in(compounds, set),
        set.contains(unigram),
        cuts_run(compounds, run, cuts, k),
        k > 0,
        last_start(cuts) == k - 1,
        run_best(compounds, unigram, run, k).back == k - 2,
    ensures
        run_best(compounds, unigram, run, k).score.exceeds(
            run_score(compounds, unigram, run, cuts),
        ),
{
    let given = run_score(compounds, unigram, run, cuts.drop_last());
    let score = run_score(compounds, unigram, run, cuts);
    let before = run_best(compounds, unigram, run, k - 1).score;
    let single = before.plus(unigram);
    let best = run_best(compounds, unigram, run, k).score;
    law_no_better_run(set, compounds, unigram, run, cuts.drop_last(), k - 1);
    lemma_run_score_in(set, compounds, unigram, run, cuts, k);
    lemma_run_score_in(set, compounds, unigram, run, cuts.drop_last(), k - 1);
    lemma_run_best_in(set, compounds, unigram, run, k - 1);
    lemma_run_best_in(set, compounds, unigram, run, k);
    assert(!given.plus(unigram).exceeds(single));
    assert(best.exceeds(single));
    if !best.exceeds(score) {
        assert(!best.exceeds(single));
    }
}

/// Whatever the scores, the last word of a run stands alone unless it forms a compound with the one
/// before it whose sum is better.
pub proof fn law_end_of_run<S: Score>(
    compounds: Map<Seq<char>, S>,
    unigram: S,
    run: Seq<Seq<char>>,
    k: int,
)
    requires
        0 < k <= run.len() <= usize::MAX,
    ensures
        ({
            let key = compound_of(run[k - 2], run[k - 1]);
            let alone = run_best(compounds, unigram, run, k - 1).score.plus(unigram);
            let joined = run_best(compounds, unigram, run, k - 2).score.plus(compounds[key]);
            let joins = k >= 2 && compounds.contains_key(key) && joined.exceeds(alone);
            let best = run_best(compounds, unigram, run, k).score;
            let parts = run_parts(compounds, unigram, run, k);
            &&& joins ==> best == joined && parts == run_parts(
                compounds,
                unigram,
                run,
                k - 2,
            ).push(((k - 2) as usize, k as usize))
            &&& !joins ==> best == alone && parts == run_parts(
                compounds,
                unigram,
                run,
                k - 1,
            ).push(((k - 1) as usize, k as usize))
            &&& run_best(compounds, unigram, run, 0).score == S::zero_spec()
            &&& run_parts(compounds, unigram, run, 0) == Seq::<(usize, usize)>::empty()
        }),
{
}

// Matches

/// The matches of pieces at a place of a text are the ends of all pieces that start there, in
/// ascending order, each with its score.
pub proof fn law_matches<S>(pieces: Map<Seq<char>, S>, text: Seq<char>, start: int, end: int)
    requires
        0 <= start <= end <= text.len() <= usize::MAX,
    ensures
        ({
            let list = matches_up_to(pieces, text, start, end);
            &&& forall|j: int|
                0 <= j < list.len() ==> start < (#[trigger] list[j]).0 <= end
                    && pieces.contains_key(text.subrange(start, list[j].0 as int))
                    && pieces[text.subrange(start, list[j].0 as int)] == list[j].1
            &&& forall|i: int, j: int|
                0 <= i < j < list.len() ==> (#[trigger] list[i]).0 < (#[trigger] list[j]).0
            &&& forall|e: int|
                start < e <= end && #[trigger] pieces.contains_key(text.subrange(start, e))
                    ==> exists|j: int| 0 <= j < list.len() && (#[trigger] list[j]).0 == e
        }),
    decreases end - start,
{
    if start < end {
        law_matches(pieces, text, start, end - 1);
        let before = matches_up_to(pieces, text, start, end - 1);
        let list = matches_up_to(pieces, text, start, end);
        assert forall|e: int|
            start < e <= end && #[trigger] pieces.contains_key(
                text.subrange(start, e),
            ) implies exists|j: int| 0 <= j < list.len() && (#[trigger] list[j]).0 == e by {
            if e < end {
                let j = choose|j: int| 0 <= j < before.len() && (#[trigger] before[j]).0 == e;
                assert(list[j].0 == e);
            } else {
                assert(list[list.len() - 1].0 == e);
            }
        }
    }
}

} // verus!
