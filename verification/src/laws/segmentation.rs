//! What holds of every segmentation.
use crate::score::{FixedScore, Score};
use crate::segment::{
    compound_of, lemma_piece_back, lemma_run_parts, piece_best, piece_best_from, piece_path,
    reached, run_best, run_parts,
};
use crate::text::concat;
use crate::words::lemma_concat_push;
use vstd::prelude::*;

verus! {

/// That the scores of a set compare as numbers do: sums stay in the set, and on it there is a total
/// order that addition keeps, with the floor at its bottom and everything above that reached. The
/// log-probabilities that are numbers and not positive are such a set.
pub open spec fn ordered_on<S: Score>(set: Set<S>) -> bool {
    &&& set.contains(S::zero_spec())
    &&& set.contains(S::floor_spec())
    &&& forall|a: S, b: S|
        set.contains(a) && set.contains(b) ==> set.contains(#[trigger] a.plus(b))
    &&& forall|a: S, b: S|
        set.contains(a) && set.contains(b) && #[trigger] a.exceeds(b) ==> !b.exceeds(a)
    &&& forall|a: S, b: S, c: S|
        set.contains(a) && set.contains(b) && set.contains(c) && !(#[trigger] a.exceeds(b)) && !(
        #[trigger] b.exceeds(c)) ==> !a.exceeds(c)
    &&& forall|a: S, b: S, c: S|
        set.contains(a) && set.contains(b) && set.contains(c) && !a.exceeds(b) ==> !(
        #[trigger] a.plus(c)).exceeds(#[trigger] b.plus(c))
    &&& forall|a: S|
        set.contains(a) ==> (#[trigger] a.exceeds(S::floor_spec()) <==> reached(a))
    &&& forall|a: S| set.contains(a) ==> !(#[trigger] S::floor_spec().exceeds(a))
}

/// That a sum with a score at the floor is at the floor, for the scores of a set.
pub open spec fn floor_holds<S: Score>(set: Set<S>) -> bool {
    forall|a: S, b: S|
        set.contains(a) && set.contains(b) && !reached(a) ==> !reached(#[trigger] a.plus(b))
}

/// That the scores of a map are in a set.
pub open spec fn scored_in<S>(scores: Map<Seq<char>, S>, set: Set<S>) -> bool {
    forall|k: Seq<char>| #[trigger] scores.contains_key(k) ==> set.contains(scores[k])
}

/// The scores in fixed point that are not positive.
pub open spec fn no_gains() -> Set<FixedScore> {
    Set::new(|s: FixedScore| s.units <= 0)
}

/// Scores in fixed point compare as numbers do, all of them, and also those that are not positive;
/// for the latter a sum with a score at the floor is at the floor.
pub proof fn law_fixed_scores_are_ordered()
    ensures
        ordered_on(Set::<FixedScore>::full()),
        ordered_on(no_gains()),
        floor_holds(no_gains()),
{
}

/// Where the last part of a segmentation with the given ends starts.
pub open spec fn last_start(cuts: Seq<int>) -> int {
    if cuts.len() <= 1 {
        0
    } else {
        cuts[cuts.len() - 2]
    }
}

/// That `cuts` are the ends of pieces that make up the first `end` characters of `input`.
pub open spec fn cuts_pieces<S>(
    pieces: Map<Seq<char>, S>,
    input: Seq<char>,
    cuts: Seq<int>,
    end: int,
) -> bool
    decreases cuts.len(),
{
    if cuts.len() == 0 {
        end == 0
    } else {
        let start = last_start(cuts);
        &&& cuts.last() == end
        &&& 0 <= start < end <= input.len()
        &&& pieces.contains_key(input.subrange(start, end))
        &&& cuts_pieces(pieces, input, cuts.drop_last(), start)
    }
}

/// The score of the pieces that `cuts` are the ends of.
pub open spec fn cuts_score<S: Score>(
    pieces: Map<Seq<char>, S>,
    input: Seq<char>,
    cuts: Seq<int>,
) -> S
    decreases cuts.len(),
{
    if cuts.len() == 0 {
        S::zero_spec()
    } else {
        cuts_score(pieces, input, cuts.drop_last()).plus(
            pieces[input.subrange(last_start(cuts), cuts.last())],
        )
    }
}

/// That no sum of the scores of pieces falls to the floor.
pub open spec fn above_floor<S: Score>(pieces: Map<Seq<char>, S>, input: Seq<char>) -> bool {
    forall|cuts: Seq<int>, end: int| #[trigger]
        cuts_pieces(pieces, input, cuts, end) ==> reached(cuts_score(pieces, input, cuts))
}

/// The ends of the pieces of the best segmentation of the first `end` characters.
pub open spec fn best_cuts<S: Score>(
    pieces: Map<Seq<char>, S>,
    input: Seq<char>,
    end: int,
) -> Seq<int>
    decreases end,
{
    let back = piece_best(pieces, input, end).back;
    if 0 <= back < end {
        best_cuts(pieces, input, back).push(end)
    } else {
        Seq::empty()
    }
}

/// The scores of best segmentations are in the set of the scores of the pieces.
pub(crate) proof fn lemma_best_in<S: Score>(
    set: Set<S>,
    pieces: Map<Seq<char>, S>,
    input: Seq<char>,
    end: int,
    limit: int,
)
    requires
        ordered_on(set),
        scored_in(pieces, set),
    ensures
        set.contains(piece_best_from(pieces, input, end, limit).score),
    decreases end, limit,
{
    if 0 < limit <= end {
        lemma_best_in(set, pieces, input, end, limit - 1);
        lemma_best_at(set, pieces, input, limit - 1);
    }
}

/// The score of the best segmentation up to a position is in the set of the scores of the pieces.
pub(crate) proof fn lemma_best_at<S: Score>(
    set: Set<S>,
    pieces: Map<Seq<char>, S>,
    input: Seq<char>,
    end: int,
)
    requires
        ordered_on(set),
        scored_in(pieces, set),
    ensures
        set.contains(piece_best(pieces, input, end).score),
    decreases end, end + 1,
{
    if end > 0 {
        lemma_best_in(set, pieces, input, end, end);
    }
}

/// The score of a segmentation is in the set of the scores of the pieces.
pub(crate) proof fn lemma_cuts_in<S: Score>(
    set: Set<S>,
    pieces: Map<Seq<char>, S>,
    input: Seq<char>,
    cuts: Seq<int>,
    end: int,
)
    requires
        ordered_on(set),
        scored_in(pieces, set),
        cuts_pieces(pieces, input, cuts, end),
    ensures
        set.contains(cuts_score(pieces, input, cuts)),
    decreases cuts.len(),
{
    if cuts.len() > 0 {
        lemma_cuts_in(set, pieces, input, cuts.drop_last(), last_start(cuts));
        assert(pieces.contains_key(input.subrange(last_start(cuts), cuts.last())));
    }
}

/// A reached position got its score from the one where its last piece starts.
proof fn lemma_best_from_step<S: Score>(
    pieces: Map<Seq<char>, S>,
    input: Seq<char>,
    end: int,
    limit: int,
)
    requires
        !reached(S::floor_spec()),
        0 <= limit <= end,
        reached(piece_best_from(pieces, input, end, limit).score),
    ensures
        ({
            let best = piece_best_from(pieces, input, end, limit);
            let start = piece_best(pieces, input, best.back);
            let piece = input.subrange(best.back, end);
            &&& 0 <= best.back < limit
            &&& reached(start.score)
            &&& pieces.contains_key(piece)
            &&& best.score == start.score.plus(pieces[piece])
        }),
    decreases limit,
{
    if limit > 0 {
        let before = piece_best_from(pieces, input, end, limit - 1);
        if reached(before.score) {
            lemma_best_from_step(pieces, input, end, limit - 1);
        }
    }
}

/// The best segmentation of a reached position is a segmentation, and has the score that is claimed
/// for it, whatever the scores, as long as the floor itself does not count as reached.
pub proof fn law_best_pieces_are_a_segmentation<S: Score>(
    pieces: Map<Seq<char>, S>,
    input: Seq<char>,
    end: int,
)
    requires
        !reached(S::floor_spec()),
        0 <= end <= input.len(),
        reached(piece_best(pieces, input, end).score),
    ensures
        cuts_pieces(pieces, input, best_cuts(pieces, input, end), end),
        cuts_score(pieces, input, best_cuts(pieces, input, end)) == piece_best(
            pieces,
            input,
            end,
        ).score,
        best_cuts(pieces, input, end).len() == piece_path(pieces, input, end).len(),
    decreases end,
{
    if end > 0 {
        lemma_best_from_step(pieces, input, end, end);
        let back = piece_best(pieces, input, end).back;
        law_best_pieces_are_a_segmentation(pieces, input, back);
        let before = best_cuts(pieces, input, back);
        let cuts = best_cuts(pieces, input, end);
        assert(cuts.drop_last() == before);
        assert(last_start(cuts) == back) by {
            if before.len() > 0 {
                assert(before.last() == back);
            }
        }
    }
}

/// No candidate is better than the best of those at its start and before a later limit.
pub(crate) proof fn lemma_candidate<S: Score>(
    set: Set<S>,
    pieces: Map<Seq<char>, S>,
    input: Seq<char>,
    end: int,
    limit: int,
    start: int,
)
    requires
        ordered_on(set),
        scored_in(pieces, set),
        0 <= start < limit <= end <= input.len(),
        reached(piece_best(pieces, input, start).score),
        pieces.contains_key(input.subrange(start, end)),
    ensures
        !piece_best(pieces, input, start).score.plus(pieces[input.subrange(start, end)]).exceeds(
            piece_best_from(pieces, input, end, limit).score,
        ),
    decreases limit,
{
    let piece = input.subrange(start, end);
    let candidate = piece_best(pieces, input, start).score.plus(pieces[piece]);
    let before = piece_best_from(pieces, input, end, limit - 1).score;
    let now = piece_best_from(pieces, input, end, limit).score;
    lemma_best_at(set, pieces, input, start);
    lemma_best_in(set, pieces, input, end, limit - 1);
    lemma_best_in(set, pieces, input, end, limit);
    assert(set.contains(candidate));
    assert(!candidate.exceeds(candidate));
    if start < limit - 1 {
        lemma_candidate(set, pieces, input, end, limit - 1, start);
        assert(now == before || now.exceeds(before));
        if now != before {
            assert(!before.exceeds(now));
            assert(!candidate.exceeds(before));
        }
    }
}

/// No segmentation of a text into pieces is better than the one that is chosen, and where there is
/// one above the floor, one is chosen. This is said of scores that compare as numbers do, where
/// either the floor holds or no sum of pieces falls to it.
pub proof fn law_no_better_pieces<S: Score>(
    set: Set<S>,
    pieces: Map<Seq<char>, S>,
    input: Seq<char>,
    cuts: Seq<int>,
    end: int,
)
    requires
        ordered_on(set),
        scored_in(pieces, set),
        floor_holds(set) || above_floor(pieces, input),
        cuts_pieces(pieces, input, cuts, end),
    ensures
        reached(cuts_score(pieces, input, cuts)) ==> reached(piece_best(pieces, input, end).score),
        !cuts_score(pieces, input, cuts).exceeds(piece_best(pieces, input, end).score),
    decreases cuts.len(),
{
    let score = cuts_score(pieces, input, cuts);
    let best = piece_best(pieces, input, end).score;
    let floor = S::floor_spec();
    lemma_cuts_in(set, pieces, input, cuts, end);
    lemma_best_at(set, pieces, input, end);
    if cuts.len() == 0 {
        assert(!score.exceeds(score));
    } else if reached(score) {
        let start = last_start(cuts);
        let piece = input.subrange(start, end);
        let given = cuts_score(pieces, input, cuts.drop_last());
        let best_start = piece_best(pieces, input, start).score;
        let candidate = best_start.plus(pieces[piece]);
        law_no_better_pieces(set, pieces, input, cuts.drop_last(), start);
        lemma_cuts_in(set, pieces, input, cuts.drop_last(), start);
        lemma_best_at(set, pieces, input, start);
        assert(set.contains(pieces[piece]));
        assert(reached(given)) by {
            assert(cuts_pieces(pieces, input, cuts.drop_last(), start));
            if floor_holds(set) && !reached(given) {
                assert(!reached(given.plus(pieces[piece])));
            }
        }
        lemma_candidate(set, pieces, input, end, end, start);
        assert(!given.plus(pieces[piece]).exceeds(candidate));
        assert(!candidate.exceeds(best));
        assert(!score.exceeds(best));
        if !reached(best) {
            assert(!best.exceeds(floor));
            assert(!score.exceeds(floor));
        }
    } else {
        assert(!score.exceeds(floor));
        assert(!floor.exceeds(best));
    }
}

/// The pieces of a segmentation, one after the other, are the text.
pub proof fn law_pieces_spell_text<S: Score>(
    pieces: Map<Seq<char>, S>,
    input: Seq<char>,
    end: int,
)
    requires
        0 <= end <= input.len(),
    ensures
        concat(piece_path(pieces, input, end)) == input.take(end),
    decreases end,
{
    if end > 0 {
        lemma_piece_back(pieces, input, end, end);
        let back = piece_best(pieces, input, end).back;
        law_pieces_spell_text(pieces, input, back);
        lemma_concat_push(piece_path(pieces, input, back), input.subrange(back, end));
        assert(input.take(back) + input.subrange(back, end) == input.take(end));
    } else {
        assert(piece_path(pieces, input, end) == Seq::<Seq<char>>::empty());
        assert(input.take(0) == Seq::<char>::empty());
    }
}

/// That `cuts` are the ends of single words and compounds that make up the first `k` words of a
/// run.
pub open spec fn cuts_run<S>(
    compounds: Map<Seq<char>, S>,
    run: Seq<Seq<char>>,
    cuts: Seq<int>,
    k: int,
) -> bool
    decreases cuts.len(),
{
    if cuts.len() == 0 {
        k == 0
    } else {
        let start = last_start(cuts);
        &&& cuts.last() == k
        &&& 0 <= start < k <= run.len()
        &&& start == k - 1 || (start == k - 2 && compounds.contains_key(
            compound_of(run[k - 2], run[k - 1]),
        ))
        &&& cuts_run(compounds, run, cuts.drop_last(), start)
    }
}

/// The score of the single words and compounds that `cuts` are the ends of.
pub open spec fn run_score<S: Score>(
    compounds: Map<Seq<char>, S>,
    unigram: S,
    run: Seq<Seq<char>>,
    cuts: Seq<int>,
) -> S
    decreases cuts.len(),
{
    if cuts.len() == 0 {
        S::zero_spec()
    } else {
        let k = cuts.last();
        let part = if last_start(cuts) == k - 1 {
            unigram
        } else {
            compounds[compound_of(run[k - 2], run[k - 1])]
        };
        run_score(compounds, unigram, run, cuts.drop_last()).plus(part)
    }
}

/// The score of the best segmentation of a run is in the set of the given scores.
pub(crate) proof fn lemma_run_best_in<S: Score>(
    set: Set<S>,
    compounds: Map<Seq<char>, S>,
    unigram: S,
    run: Seq<Seq<char>>,
    k: int,
)
    requires
        ordered_on(set),
        scored_in(compounds, set),
        set.contains(unigram),
    ensures
        set.contains(run_best(compounds, unigram, run, k).score),
    decreases k,
{
    if k > 0 {
        lemma_run_best_in(set, compounds, unigram, run, k - 1);
        if k >= 2 {
            lemma_run_best_in(set, compounds, unigram, run, k - 2);
        }
    }
}

/// The score of a segmentation of a run is in the set of the given scores.
pub(crate) proof fn lemma_run_score_in<S: Score>(
    set: Set<S>,
    compounds: Map<Seq<char>, S>,
    unigram: S,
    run: Seq<Seq<char>>,
    cuts: Seq<int>,
    k: int,
)
    requires
        ordered_on(set),
        scored_in(compounds, set),
        set.contains(unigram),
        cuts_run(compounds, run, cuts, k),
    ensures
        set.contains(run_score(compounds, unigram, run, cuts)),
    decreases cuts.len(),
{
    if cuts.len() > 0 {
        lemma_run_score_in(set, compounds, unigram, run, cuts.drop_last(), last_start(cuts));
    }
}

/// No segmentation of a run into single words and compounds is better than the one that is chosen.
/// This is said of scores that compare as numbers do.
pub proof fn law_no_better_run<S: Score>(
    set: Set<S>,
    compounds: Map<Seq<char>, S>,
    unigram: S,
    run: Seq<Seq<char>>,
    cuts: Seq<int>,
    k: int,
)
    requires
        ordered_on(set),
        scored_in(compounds, set),
        set.contains(unigram),
        cuts_run(compounds, run, cuts, k),
    ensures
        !run_score(compounds, unigram, run, cuts).exceeds(
            run_best(compounds, unigram, run, k).score,
        ),
    decreases cuts.len(),
{
    let score = run_score(compounds, unigram, run, cuts);
    let best = run_best(compounds, unigram, run, k).score;
    lemma_run_score_in(set, compounds, unigram, run, cuts, k);
    lemma_run_best_in(set, compounds, unigram, run, k);
    assert(!best.exceeds(best));
    if cuts.len() > 0 {
        let start = last_start(cuts);
        let given = run_score(compounds, unigram, run, cuts.drop_last());
        let best_start = run_best(compounds, unigram, run, start).score;
        let single = run_best(compounds, unigram, run, k - 1).score.plus(unigram);
        law_no_better_run(set, compounds, unigram, run, cuts.drop_last(), start);
        lemma_run_score_in(set, compounds, unigram, run, cuts.drop_last(), start);
        lemma_run_best_in(set, compounds, unigram, run, start);
        lemma_run_best_in(set, compounds, unigram, run, k - 1);
        assert(set.contains(single));
        assert(best.exceeds(single) ==> !single.exceeds(best));
        assert(!single.exceeds(best));
        if start == k - 1 {
            assert(!given.plus(unigram).exceeds(best_start.plus(unigram)));
        } else {
            let c = compounds[compound_of(run[k - 2], run[k - 1])];
            let double = best_start.plus(c);
            assert(set.contains(c) && set.contains(double));
            assert(!given.plus(c).exceeds(double));
            assert(!double.exceeds(best)) by {
                if !double.exceeds(single) {
                    assert(!double.exceeds(best));
                }
            }
        }
    }
}

/// The ends of the parts of a run.
pub open spec fn part_ends(parts: Seq<(usize, usize)>) -> Seq<int> {
    parts.map_values(|p: (usize, usize)| p.1 as int)
}

/// The parts that are chosen for a run are a segmentation of it, and have the score that is claimed
/// for them.
pub proof fn law_best_run_is_a_segmentation<S: Score>(
    compounds: Map<Seq<char>, S>,
    unigram: S,
    run: Seq<Seq<char>>,
    k: int,
)
    requires
        0 <= k <= run.len() <= usize::MAX,
    ensures
        cuts_run(compounds, run, part_ends(run_parts(compounds, unigram, run, k)), k),
        run_score(
            compounds,
            unigram,
            run,
            part_ends(run_parts(compounds, unigram, run, k)),
        ) == run_best(compounds, unigram, run, k).score,
    decreases k,
{
    let cuts = part_ends(run_parts(compounds, unigram, run, k));
    if k > 0 {
        let back = run_best(compounds, unigram, run, k).back;
        law_best_run_is_a_segmentation(compounds, unigram, run, back);
        let before = part_ends(run_parts(compounds, unigram, run, back));
        assert(cuts.drop_last() == before);
        assert(cuts.last() == k);
        assert(last_start(cuts) == back) by {
            if before.len() > 0 {
                assert(before.last() == back);
            }
        }
    }
}

/// That each part starts where the one before it ends.
pub open spec fn in_sequence(parts: Seq<(usize, usize)>) -> bool {
    forall|i: int, j: int|
        0 <= i && i + 1 == j && j < parts.len() ==> (#[trigger] parts[i]).1 == (
        #[trigger] parts[j]).0
}

/// The parts that are chosen for a run follow each other from its start to its end, with one or two
/// words in each.
pub proof fn law_run_parts_tile_run<S: Score>(
    compounds: Map<Seq<char>, S>,
    unigram: S,
    run: Seq<Seq<char>>,
    k: int,
)
    requires
        0 <= k <= usize::MAX,
    ensures
        ({
            let parts = run_parts(compounds, unigram, run, k);
            &&& k > 0 ==> parts.len() > 0 && parts[0].0 == 0 && parts.last().1 == k
            &&& k == 0 ==> parts.len() == 0
            &&& forall|j: int|
                0 <= j < parts.len() ==> (#[trigger] parts[j]).0 < parts[j].1 && parts[j].1
                    - parts[j].0 <= 2
            &&& in_sequence(parts)
        }),
    decreases k,
{
    lemma_run_parts(compounds, unigram, run, k);
    if k > 0 {
        let back = run_best(compounds, unigram, run, k).back;
        law_run_parts_tile_run(compounds, unigram, run, back);
        let before = run_parts(compounds, unigram, run, back);
        let parts = run_parts(compounds, unigram, run, k);
        assert(parts == before.push((back as usize, k as usize)));
        assert forall|i: int, j: int| 0 <= i && i + 1 == j && j < parts.len() implies (
        #[trigger] parts[i]).1 == (#[trigger] parts[j]).0 by {
            if j < before.len() {
                assert(parts[i] == before[i] && parts[j] == before[j]);
            }
        }
    }
}

} // verus!
