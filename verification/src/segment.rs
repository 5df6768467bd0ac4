//! Best segmentations: of a word into pieces, and of a run of words into compounds.
use crate::chars::{char_lower, char_to_lower};
use crate::score::Score;
use crate::str_map::StrMap;
use crate::text::{text_of, texts};
use crate::trie::{matches_up_to, SpTrieNode};
use vstd::prelude::*;
use vstd::string::StringExecFns;

verus! {

/// The score of the best segmentation up to a position, and where its last part starts.
pub struct Best<S> {
    pub score: S,
    pub back: int,
}

/// Whether a position with this score counts as reached.
pub open spec fn reached<S: Score>(score: S) -> bool {
    !score.same(S::floor_spec())
}

/// The best segmentation of the first `end` characters of `input` into pieces.
pub open spec fn piece_best<S: Score>(
    pieces: Map<Seq<char>, S>,
    input: Seq<char>,
    end: int,
) -> Best<S>
    decreases end, end + 1,
{
    if end <= 0 {
        Best { score: S::zero_spec(), back: 0 }
    } else {
        piece_best_from(pieces, input, end, end)
    }
}

/// The best segmentation of the first `end` characters of `input` whose last piece starts before
/// `limit`. Of equally good ones, the one whose last piece is longest.
pub open spec fn piece_best_from<S: Score>(
    pieces: Map<Seq<char>, S>,
    input: Seq<char>,
    end: int,
    limit: int,
) -> Best<S>
    decreases end, limit,
{
    if limit <= 0 || limit > end {
        Best { score: S::floor_spec(), back: 0 }
    } else {
        let before = piece_best_from(pieces, input, end, limit - 1);
        let start = piece_best(pieces, input, limit - 1);
        let piece = input.subrange(limit - 1, end);
        if reached(start.score) && pieces.contains_key(piece) && start.score.plus(
            pieces[piece],
        ).exceeds(before.score) {
            Best { score: start.score.plus(pieces[piece]), back: limit - 1 }
        } else {
            before
        }
    }
}

/// The last piece of a segmentation starts before its end.
pub proof fn lemma_piece_back<S: Score>(
    pieces: Map<Seq<char>, S>,
    input: Seq<char>,
    end: int,
    limit: int,
)
    requires
        0 <= limit <= end,
        0 < end,
    ensures
        0 <= piece_best_from(pieces, input, end, limit).back < end,
    decreases limit,
{
    if limit > 0 {
        lemma_piece_back(pieces, input, end, limit - 1);
    }
}

/// The pieces of the best segmentation of the first `end` characters of `input`.
pub open spec fn piece_path<S: Score>(
    pieces: Map<Seq<char>, S>,
    input: Seq<char>,
    end: int,
) -> Seq<Seq<char>>
    decreases end,
{
    let back = piece_best(pieces, input, end).back;
    if 0 <= back < end {
        piece_path(pieces, input, back).push(input.subrange(back, end))
    } else {
        Seq::empty()
    }
}

/// Whether `e` is one of the first `k` ends of a list of matches.
spec fn hit<S>(list: Seq<(usize, S)>, k: int, e: int) -> bool {
    exists|j: int| 0 <= j < k && (#[trigger] list[j]).0 == e
}

/// A list of matches holds each end of a piece, once, with its score.
proof fn lemma_matches<S>(pieces: Map<Seq<char>, S>, text: Seq<char>, start: int, end: int)
    requires
        0 <= start <= end <= text.len() <= usize::MAX,
    ensures
        ({
            let list = matches_up_to(pieces, text, start, end);
            &&& forall|j: int|
                0 <= j < list.len() ==> start < (#[trigger] list[j]).0 <= end
                    && pieces.contains_key(text.subrange(start, list[j].0 as int))
                    && pieces[text.subrange(start, list[j].0 as int)] == list[j].1
            &&& forall|i: int, j: int|
                0 <= i < j < list.len() ==> (#[trigger] list[i]).0 < (#[trigger] list[j]).0
            &&& forall|e: int|
                start < e <= end && #[trigger] pieces.contains_key(text.subrange(start, e))
                    ==> hit(list, list.len() as int, e)
        }),
    decreases end - start,
{
    if start < end {
        lemma_matches(pieces, text, start, end - 1);
        let before = matches_up_to(pieces, text, start, end - 1);
        let list = matches_up_to(pieces, text, start, end);
        assert forall|e: int|
            start < e <= end && #[trigger] pieces.contains_key(text.subrange(start, e)) implies hit(
            list,
            list.len() as int,
            e,
        ) by {
            if e < end {
                assert(hit(before, before.len() as int, e));
                let j = choose|j: int| 0 <= j < before.len() && (#[trigger] before[j]).0 == e;
                assert(list[j].0 == e);
            } else {
                assert(list[list.len() - 1].0 == e);
            }
        }
    }
}

/// The best segmentation of `input` into pieces of the trie, or nothing where there is none.
pub fn best_pieces<S: Score>(trie: &SpTrieNode<S>, input: &Vec<char>) -> (r: Option<Vec<String>>)
    ensures
        r is Some <==> reached(
            piece_best(trie.pieces(), input@, input@.len() as int).score,
        ),
        r is Some ==> texts(r->0@) == piece_path(trie.pieces(), input@, input@.len() as int),
{
    let n: usize = input.len();
    let ghost pieces = trie.pieces();
    let mut dp: Vec<S> = Vec::new();
    let mut back: Vec<usize> = Vec::new();
    dp.push(S::zero());
    back.push(0);
    for i in 0..n
        invariant
            dp@.len() == i + 1,
            back@.len() == i + 1,
            dp@[0] == S::zero_spec(),
            forall|e: int| 1 <= e <= i ==> #[trigger] dp@[e] == S::floor_spec(),
            forall|e: int| 0 <= e <= i ==> #[trigger] back@[e] == 0,
    {
        dp.push(S::floor());
        back.push(0);
    }
    for start in 0..n
        invariant
            n == input@.len(),
            pieces == trie.pieces(),
            dp@.len() == n + 1,
            back@.len() == n + 1,
            dp@[0] == S::zero_spec(),
            forall|e: int|
                #![trigger dp@[e]]
                #![trigger back@[e]]
                1 <= e <= n ==> (Best { score: dp@[e], back: back@[e] as int }) == piece_best_from(
                    pieces,
                    input@,
                    e,
                    if e < start {
                        e
                    } else {
                        start as int
                    },
                ),
    {
        let here = dp[start];
        assert(here == piece_best(pieces, input@, start as int).score);
        if !here.is_same_as(S::floor()) {
            let found = trie.matches(input, start);
            proof {
                lemma_matches(pieces, input@, start as int, n as int);
            }
            for k in 0..found.len()
                invariant
                    n == input@.len(),
                    start < n,
                    dp@.len() == n + 1,
                    back@.len() == n + 1,
                    dp@[0] == S::zero_spec(),
                    here == piece_best(pieces, input@, start as int).score,
                    reached(here),
                    forall|j: int|
                        0 <= j < found@.len() ==> start < (#[trigger] found@[j]).0 <= n
                            && pieces.contains_key(
                            input@.subrange(start as int, found@[j].0 as int),
                        ) && pieces[input@.subrange(start as int, found@[j].0 as int)]
                            == found@[j].1,
                    forall|i: int, j: int|
                        0 <= i < j < found@.len() ==> (#[trigger] found@[i]).0 < (
                        #[trigger] found@[j]).0,
                    forall|e: int|
                        #![trigger dp@[e]]
                        #![trigger back@[e]]
                        1 <= e <= n ==> (Best { score: dp@[e], back: back@[e] as int })
                            == piece_best_from(
                            pieces,
                            input@,
                            e,
                            if e < start {
                                e
                            } else if hit(found@, k as int, e) {
                                start + 1
                            } else {
                                start as int
                            },
                        ),
            {
                let end: usize = found[k].0;
                let score = here.add_score(found[k].1);
                let ghost dp0 = dp@;
                let ghost back0 = back@;
                assert(!hit(found@, k as int, end as int));
                if score.is_better_than(dp[end]) {
                    dp[end] = score;
                    back[end] = start;
                }
                assert forall|e: int|
                    #![trigger dp@[e]]
                    #![trigger back@[e]]
                    1 <= e <= n implies (Best { score: dp@[e], back: back@[e] as int })
                    == piece_best_from(
                    pieces,
                    input@,
                    e,
                    if e < start {
                        e
                    } else if hit(found@, k + 1, e) {
                        start + 1
                    } else {
                        start as int
                    },
                ) by {
                    let same = (Best { score: dp0[e], back: back0[e] as int });
                    if e == end {
                        assert(found@[k as int].0 == e);
                        assert(hit(found@, k + 1, e));
                        assert(same == piece_best_from(pieces, input@, e, start as int));
                    } else {
                        assert(dp@[e] == dp0[e] && back@[e] == back0[e]);
                        if hit(found@, k + 1, e) {
                            let j = choose|j: int|
                                0 <= j < k + 1 && (#[trigger] found@[j]).0 == e;
                            assert(found@[j].0 == e && j < k);
                            assert(hit(found@, k as int, e));
                        }
                        if hit(found@, k as int, e) {
                            let j = choose|j: int| 0 <= j < k && (#[trigger] found@[j]).0 == e;
                            assert(found@[j].0 == e && j < k + 1);
                            assert(hit(found@, k + 1, e));
                        }
                    }
                }
            }
            assert forall|e: int|
                #![trigger dp@[e]]
                #![trigger back@[e]]
                1 <= e <= n implies (Best { score: dp@[e], back: back@[e] as int })
                == piece_best_from(
                pieces,
                input@,
                e,
                if e < start + 1 {
                    e
                } else {
                    start + 1
                },
            ) by {
                if e > start && !hit(found@, found@.len() as int, e) {
                    assert(!pieces.contains_key(input@.subrange(start as int, e)));
                }
            }
        }
    }
    assert(dp@[n as int] == piece_best(pieces, input@, n as int).score);
    if dp[n].is_same_as(S::floor()) {
        return None;
    }
    let mut rev: Vec<String> = Vec::new();
    let mut pos: usize = n;
    let ghost whole = piece_path(pieces, input@, n as int);
    assert(whole == piece_path(pieces, input@, pos as int) + texts(rev@).reverse());
    while pos > 0
        invariant
            pos <= n,
            n == input@.len(),
            back@.len() == n + 1,
            forall|e: int|
                1 <= e <= n ==> #[trigger] back@[e] == piece_best(pieces, input@, e).back,
            whole == piece_path(pieces, input@, pos as int) + texts(rev@).reverse(),
        decreases pos,
    {
        proof {
            lemma_piece_back(pieces, input@, pos as int, pos as int);
        }
        let start: usize = back[pos];
        let piece = text_of(input, start, pos);
        let ghost tail = texts(rev@).reverse();
        rev.push(piece);
        assert(texts(rev@).reverse() == seq![piece@] + tail);
        assert(piece_path(pieces, input@, start as int).push(piece@) + tail == piece_path(
            pieces,
            input@,
            start as int,
        ) + (seq![piece@] + tail));
        pos = start;
    }
    let out = reversed(&rev);
    assert(piece_path(pieces, input@, 0) == Seq::<Seq<char>>::empty());
    assert(whole == texts(rev@).reverse());
    Some(out)
}

/// The texts of `v` in the opposite order.
fn reversed(v: &Vec<String>) -> (r: Vec<String>)
    ensures
        texts(r@) == texts(v@).reverse(),
{
    let mut out: Vec<String> = Vec::new();
    let n: usize = v.len();
    for i in 0..n
        invariant
            n == v@.len(),
            texts(out@) == texts(v@).reverse().take(i as int),
    {
        let ghost before = texts(out@);
        out.push(v[n - 1 - i].clone());
        assert(texts(out@) == before.push(v@[n - 1 - i]@));
    }
    assert(texts(v@).reverse().take(n as int) == texts(v@).reverse());
    out
}

/// The lowercase forms of the characters of `s`, one after the other.
pub open spec fn lower_each(s: Seq<char>) -> Seq<char>
    decreases s.len(),
{
    if s.len() == 0 {
        s
    } else {
        lower_each(s.drop_last()) + char_lower(s.last())
    }
}

/// The key of the compound of two words: both in lowercase, with an underscore between them.
pub open spec fn compound_of(a: Seq<char>, b: Seq<char>) -> Seq<char> {
    lower_each(a).push('_') + lower_each(b)
}

/// Appends the lowercase forms of the characters of `s`.
fn push_lower(out: &mut String, s: &str)
    ensures
        final(out)@ == old(out)@ + lower_each(s@),
{
    let ghost start = out@;
    for c in it: s.chars()
        invariant
            it.seq() == s@,
            out@ == start + lower_each(s@.take(it.index())),
    {
        assert(s@.take(it.index() + 1).drop_last() == s@.take(it.index()));
        let lower = char_to_lower(c);
        out.append(lower.as_str());
    }
    assert(s@.take(s@.len() as int) == s@);
}

/// The key of the compound of two words.
pub fn compound_key(a: &str, b: &str) -> (r: String)
    ensures
        r@ == compound_of(a@, b@),
{
    let mut key = String::new();
    push_lower(&mut key, a);
    key.push('_');
    push_lower(&mut key, b);
    key
}

/// The best segmentation of the first `k` words of a run into single words, each with the score
/// `unigram`, and compounds of two.
pub open spec fn run_best<S: Score>(
    compounds: Map<Seq<char>, S>,
    unigram: S,
    run: Seq<Seq<char>>,
    k: int,
) -> Best<S>
    decreases k,
{
    if k <= 0 {
        Best { score: S::zero_spec(), back: 0 }
    } else {
        let single = run_best(compounds, unigram, run, k - 1).score.plus(unigram);
        if k >= 2 {
            let key = compound_of(run[k - 2], run[k - 1]);
            let double = run_best(compounds, unigram, run, k - 2).score.plus(compounds[key]);
            if compounds.contains_key(key) && double.exceeds(single) {
                Best { score: double, back: k - 2 }
            } else {
                Best { score: single, back: k - 1 }
            }
        } else {
            Best { score: single, back: k - 1 }
        }
    }
}

/// The parts of the best segmentation of the first `k` words of a run: where each starts and ends.
pub open spec fn run_parts<S: Score>(
    compounds: Map<Seq<char>, S>,
    unigram: S,
    run: Seq<Seq<char>>,
    k: int,
) -> Seq<(usize, usize)>
    decreases k,
{
    let back = run_best(compounds, unigram, run, k).back;
    if k <= 0 || back < 0 || back >= k {
        Seq::empty()
    } else {
        run_parts(compounds, unigram, run, back).push((back as usize, k as usize))
    }
}

/// The parts of a segmentation hold one or two words each, and lie within the run.
pub proof fn lemma_run_parts<S: Score>(
    compounds: Map<Seq<char>, S>,
    unigram: S,
    run: Seq<Seq<char>>,
    k: int,
)
    requires
        0 <= k <= usize::MAX,
    ensures
        forall|j: int|
            0 <= j < run_parts(compounds, unigram, run, k).len() ==> {
                let part = #[trigger] run_parts(compounds, unigram, run, k)[j];
                part.0 < part.1 <= k && part.1 - part.0 <= 2
            },
    decreases k,
{
    if k > 0 {
        let back = run_best(compounds, unigram, run, k).back;
        lemma_run_parts(compounds, unigram, run, back);
        let before = run_parts(compounds, unigram, run, back);
        let parts = run_parts(compounds, unigram, run, k);
        assert(parts == before.push((back as usize, k as usize)));
        assert forall|j: int| 0 <= j < parts.len() implies {
            let part = #[trigger] parts[j];
            part.0 < part.1 <= k && part.1 - part.0 <= 2
        } by {
            if j < before.len() {
                assert(parts[j] == before[j]);
            }
        }
    }
}

/// The best segmentation of a run of words into single words and compounds of two: where each part
/// starts and ends.
pub fn best_run<S: Score>(compounds: &StrMap<S>, unigram: S, run: &Vec<String>) -> (r: Vec<
    (usize, usize),
>)
    requires
        compounds.wf(),
    ensures
        r@ == run_parts(compounds@, unigram, texts(run@), run@.len() as int),
{
    let n: usize = run.len();
    let ghost words = texts(run@);
    let mut dp: Vec<S> = Vec::new();
    let mut back: Vec<usize> = Vec::new();
    dp.push(S::zero());
    back.push(0);
    for i in 0..n
        invariant
            n == run@.len(),
            words == texts(run@),
            compounds.wf(),
            dp@.len() == i + 1,
            back@.len() == i + 1,
            forall|j: int|
                #![trigger dp@[j]]
                #![trigger back@[j]]
                0 <= j <= i ==> (Best { score: dp@[j], back: back@[j] as int }) == run_best(
                    compounds@,
                    unigram,
                    words,
                    j,
                ),
    {
        let k: usize = i + 1;
        let mut score = dp[k - 1].add_score(unigram);
        let mut from: usize = k - 1;
        assert(dp@[k - 1] == run_best(compounds@, unigram, words, k - 1).score);
        if k >= 2 {
            let key = compound_key(run[k - 2].as_str(), run[k - 1].as_str());
            assert(key@ == compound_of(words[k - 2], words[k - 1]));
            assert(dp@[k - 2] == run_best(compounds@, unigram, words, k - 2).score);
            match compounds.get(key.as_str()) {
                Some(c) => {
                    let double = dp[k - 2].add_score(c);
                    if double.is_better_than(score) {
                        score = double;
                        from = k - 2;
                    }
                },
                None => {},
            }
        }
        dp.push(score);
        back.push(from);
        assert((Best { score, back: from as int }) == run_best(
            compounds@,
            unigram,
            words,
            k as int,
        ));
    }
    let mut rev: Vec<(usize, usize)> = Vec::new();
    let mut pos: usize = n;
    let ghost whole = run_parts(compounds@, unigram, words, n as int);
    assert(whole == run_parts(compounds@, unigram, words, pos as int) + rev@.reverse());
    while pos > 0
        invariant
            pos <= n,
            back@.len() == n + 1,
            forall|j: int|
                0 <= j <= n ==> #[trigger] back@[j] == run_best(
                    compounds@,
                    unigram,
                    words,
                    j,
                ).back,
            whole == run_parts(compounds@, unigram, words, pos as int) + rev@.reverse(),
        decreases pos,
    {
        let prev: usize = back[pos];
        let ghost tail = rev@.reverse();
        rev.push((prev, pos));
        assert(rev@.reverse() == seq![(prev, pos)] + tail);
        assert(run_parts(compounds@, unigram, words, prev as int).push((prev, pos)) + tail
            == run_parts(compounds@, unigram, words, prev as int) + (seq![(prev, pos)] + tail));
        pos = prev;
    }
    assert(whole == rev@.reverse());
    let mut out: Vec<(usize, usize)> = Vec::new();
    let m: usize = rev.len();
    for i in 0..m
        invariant
            m == rev@.len(),
            out@ == rev@.reverse().take(i as int),
    {
        out.push(rev[m - 1 - i]);
    }
    out
}

} // verus!
