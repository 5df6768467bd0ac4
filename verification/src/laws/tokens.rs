//! What holds of the tokens of every text.
use crate::chars::str_lower;
use crate::config::{lexicon_of, made_of_config, tokens_by_id, ConfigView};
use crate::lang::Lang;
use crate::laws::segmentation::{in_sequence, law_run_parts_tile_run};
use crate::lexicon::{placed, run_form, Lexicon, Spelled};
use crate::score::Score;
use crate::segment::run_parts;
use crate::str_map::{lemma_map_of_key, map_of};
use crate::text::{byte_token, concat, fields, join};
use crate::token::TokenView;
use crate::words::{
    lemma_word_start_step, lemma_words_tile_text, nonempty_words, offsets_of, word_start, words_of,
};
use vstd::prelude::*;
use vstd::utf8::encode_utf8;

verus! {

// Ids and tokens

/// The token of an id has that id.
proof fn lemma_tokens_by_id_sound(
    list: Seq<(Seq<char>, u32)>,
    ids: Map<Seq<char>, u32>,
    id: u32,
)
    requires
        forall|i: int| 0 <= i < list.len() ==> ids.contains_key((#[trigger] list[i]).0),
        tokens_by_id(list, ids).contains_key(id),
    ensures
        ids.contains_key(tokens_by_id(list, ids)[id]),
        ids[tokens_by_id(list, ids)[id]] == id,
    decreases list.len(),
{
    if list.len() > 0 {
        let before = list.drop_last();
        assert(list[list.len() - 1] == list.last());
        assert forall|i: int| 0 <= i < before.len() implies ids.contains_key(
            (#[trigger] before[i]).0,
        ) by {
            assert(before[i] == list[i]);
        }
        if tokens_by_id(before, ids).contains_key(id) {
            lemma_tokens_by_id_sound(before, ids, id);
        }
    }
}

/// A pair that counts gives its id a token.
proof fn lemma_tokens_by_id_complete(
    list: Seq<(Seq<char>, u32)>,
    ids: Map<Seq<char>, u32>,
    i: int,
)
    requires
        0 <= i < list.len(),
        ids[list[i].0] == list[i].1,
    ensures
        tokens_by_id(list, ids).contains_key(list[i].1),
    decreases list.len(),
{
    if i < list.len() - 1 {
        assert(list.drop_last()[i] == list[i]);
        lemma_tokens_by_id_complete(list.drop_last(), ids, i);
    }
}

/// The value of a key is that of some pair.
proof fn lemma_map_of_pair<V>(v: Seq<(Seq<char>, V)>, key: Seq<char>)
    requires
        map_of(v).contains_key(key),
    ensures
        exists|i: int| 0 <= i < v.len() && #[trigger] v[i] == (key, map_of(v)[key]),
    decreases v.len(),
{
    if v.last().0 == key {
        assert(v[v.len() - 1] == (key, map_of(v)[key]));
    } else {
        let before = v.drop_last();
        lemma_map_of_pair(before, key);
        let i = choose|i: int| 0 <= i < before.len() && #[trigger] before[i] == (
            key,
            map_of(before)[key],
        );
        assert(v[i] == (key, map_of(v)[key]));
    }
}

/// The token of an id has that id, and every id of a token has a token.
pub proof fn law_ids_and_tokens_agree<S>(m: Lexicon<S>)
    requires
        made_of_config(m),
    ensures
        forall|id: u32| #[trigger]
            m.id2token.contains_key(id) ==> m.token2id.contains_key(m.id2token[id])
                && m.token2id[m.id2token[id]] == id,
        forall|t: Seq<char>| #[trigger]
            m.token2id.contains_key(t) ==> m.id2token.contains_key(m.token2id[t]),
{
    let c = choose|c: ConfigView<S>| #[trigger] lexicon_of(c) == m;
    let list = c.token2id;
    assert forall|i: int| 0 <= i < list.len() implies m.token2id.contains_key(
        (#[trigger] list[i]).0,
    ) by {
        lemma_map_of_key(list, list[i].0);
    }
    assert forall|id: u32| #[trigger] m.id2token.contains_key(id) implies m.token2id.contains_key(
        m.id2token[id],
    ) && m.token2id[m.id2token[id]] == id by {
        lemma_tokens_by_id_sound(list, m.token2id, id);
    }
    assert forall|t: Seq<char>| #[trigger]
        m.token2id.contains_key(t) implies m.id2token.contains_key(m.token2id[t]) by {
        lemma_map_of_pair(list, t);
        let i = choose|i: int| 0 <= i < list.len() && #[trigger] list[i] == (t, m.token2id[t]);
        lemma_tokens_by_id_complete(list, m.token2id, i);
    }
}

/// An id of the vocabulary: that of a token, or that of the unknown token.
pub open spec fn known_id<S>(m: Lexicon<S>, id: u32) -> bool {
    id == m.unk_id || exists|t: Seq<char>| #[trigger]
        m.token2id.contains_key(t) && m.token2id[t] == id
}

/// That the ids of pieces and bytes are ids of tokens.
spec fn coherent<S>(m: Lexicon<S>) -> bool {
    &&& forall|p: Seq<char>| #[trigger] m.sp_vocab.contains_key(p) ==> known_id(m, m.sp_vocab[p])
    &&& forall|b: u8| #[trigger] m.byte_ids.contains_key(b) ==> known_id(m, m.byte_ids[b])
}

/// The vocabulary of a configuration is coherent.
proof fn lemma_coherent<S>(m: Lexicon<S>)
    requires
        made_of_config(m),
    ensures
        coherent(m),
{
    assert forall|p: Seq<char>| #[trigger] m.sp_vocab.contains_key(p) implies known_id(
        m,
        m.sp_vocab[p],
    ) by {
        assert(m.token2id.contains_key(p));
    }
    assert forall|b: u8| #[trigger] m.byte_ids.contains_key(b) implies known_id(
        m,
        m.byte_ids[b],
    ) by {
        assert(m.token2id.contains_key(byte_token(b)));
    }
}

/// That every id is one of the vocabulary.
spec fn all_known<S>(m: Lexicon<S>, tokens: Seq<Spelled>) -> bool {
    forall|i: int| 0 <= i < tokens.len() ==> known_id(m, (#[trigger] tokens[i]).1)
}

/// The ids of an English word are ids of the vocabulary.
proof fn lemma_en_known<S: Score>(m: Lexicon<S>, word: Seq<char>)
    requires
        coherent(m),
    ensures
        all_known(m, m.byte_tokens(word)),
        all_known(m, m.en_tokens(word)),
        all_known(m, m.code_tokens(word)),
        all_known(m, m.known_or_bytes(word)),
{
    assert(forall|t: Seq<char>| #[trigger]
        m.token2id.contains_key(t) ==> known_id(m, m.token2id[t]));
    assert(forall|t: Seq<char>| (#[trigger] m.id(t)) is Some ==> known_id(m, m.id(t)->0));
    let lower = str_lower(word);
    assert(all_known(m, m.sp_tokens(lower)));
}

/// The ids of English words are ids of the vocabulary.
proof fn lemma_en_each_known<S: Score>(m: Lexicon<S>, words: Seq<Seq<char>>)
    requires
        coherent(m),
    ensures
        all_known(m, m.en_tokens_each(words)),
    decreases words.len(),
{
    if words.len() > 0 {
        lemma_en_each_known(m, words.drop_last());
        lemma_en_known(m, words.last());
    }
}

/// The id of a known spelling is an id of the vocabulary.
proof fn lemma_first_known<S: Score>(m: Lexicon<S>, spellings: Seq<Seq<char>>)
    ensures
        all_known(m, m.first_known(spellings)),
    decreases spellings.len(),
{
    if spellings.len() > 0 {
        if m.id(spellings[0]) is Some {
            assert(m.token2id.contains_key(spellings[0]));
        }
        lemma_first_known(m, spellings.drop_first());
    }
}

/// The ids of a part of a run are ids of the vocabulary.
proof fn lemma_part_known<S: Score>(m: Lexicon<S>, part: Seq<char>, orig: Seq<Seq<char>>)
    requires
        coherent(m),
    ensures
        all_known(m, m.part_tokens(part, orig)),
{
    lemma_first_known(m, m.part_spellings(part, orig));
    lemma_en_each_known(m, fields(part, '_'));
    lemma_en_known(m, part);
    if m.id(part) is Some {
        assert(m.token2id.contains_key(part));
    }
}

// Places

/// That a place starts where the word `a` does, and ends where the word before `b` does.
pub open spec fn spans(
    place: (usize, usize),
    offsets: Seq<(usize, usize)>,
    a: int,
    b: int,
) -> bool {
    place == (offsets[a].0, offsets[b - 1].1)
}

/// That each token has an id of the vocabulary and stands for one or more of the words from `lo`
/// up to `hi`.
spec fn sound<S>(
    m: Lexicon<S>,
    tokens: Seq<TokenView>,
    offsets: Seq<(usize, usize)>,
    lo: int,
    hi: int,
) -> bool {
    forall|k: int|
        0 <= k < tokens.len() ==> known_id(m, (#[trigger] tokens[k]).id) && exists|a: int, b: int|
            lo <= a < b <= hi && spans(tokens[k].offsets, offsets, a, b)
}

/// That the tokens are in the order of the text.
pub open spec fn in_order(tokens: Seq<TokenView>) -> bool {
    forall|i: int, j: int|
        0 <= i < j < tokens.len() ==> (#[trigger] tokens[i]).offsets.0 <= (
        #[trigger] tokens[j]).offsets.0 && tokens[i].offsets.1 <= tokens[j].offsets.1
}

/// That no place is empty, and that each ends where or before the next starts.
pub(crate) open spec fn ascending_places(offsets: Seq<(usize, usize)>) -> bool {
    &&& forall|i: int| 0 <= i < offsets.len() ==> (#[trigger] offsets[i]).0 < offsets[i].1
    &&& forall|i: int, j: int|
        0 <= i < j < offsets.len() ==> (#[trigger] offsets[i]).1 <= (#[trigger] offsets[j]).0
}

/// Tokens at one place of sound ids are sound and in order.
proof fn lemma_placed<S: Score>(
    m: Lexicon<S>,
    tokens: Seq<Spelled>,
    offsets: Seq<(usize, usize)>,
    a: int,
    b: int,
)
    requires
        all_known(m, tokens),
        0 <= a < b <= offsets.len(),
    ensures
        sound(m, placed(tokens, (offsets[a].0, offsets[b - 1].1)), offsets, a, b),
        in_order(placed(tokens, (offsets[a].0, offsets[b - 1].1))),
{
    let place = (offsets[a].0, offsets[b - 1].1);
    assert(spans(place, offsets, a, b));
    let now = placed(tokens, place);
    assert forall|k: int| 0 <= k < now.len() implies known_id(m, (#[trigger] now[k]).id) && exists|
        x: int,
        y: int,
    |
        a <= x < y <= b && spans(now[k].offsets, offsets, x, y) by {
        assert(known_id(m, tokens[k].1));
        assert(spans(now[k].offsets, offsets, a, b));
    }
}

/// Sound tokens of some words and then of later words are sound and in order.
proof fn lemma_sound_add<S>(
    m: Lexicon<S>,
    x: Seq<TokenView>,
    y: Seq<TokenView>,
    offsets: Seq<(usize, usize)>,
    lo: int,
    mid: int,
    hi: int,
)
    requires
        ascending_places(offsets),
        0 <= lo <= mid <= hi <= offsets.len(),
        sound(m, x, offsets, lo, mid),
        sound(m, y, offsets, mid, hi),
        in_order(x),
        in_order(y),
    ensures
        sound(m, x + y, offsets, lo, hi),
        in_order(x + y),
{
    let all = x + y;
    assert forall|k: int| 0 <= k < all.len() implies known_id(m, (#[trigger] all[k]).id) && exists|
        a: int,
        b: int,
    |
        lo <= a < b <= hi && spans(all[k].offsets, offsets, a, b) by {
        if k < x.len() {
            assert(all[k] == x[k]);
            let (a, b) = choose|a: int, b: int|
                lo <= a < b <= mid && spans(x[k].offsets, offsets, a, b);
            assert(lo <= a < b <= hi && spans(all[k].offsets, offsets, a, b));
        } else {
            let l = k - x.len();
            assert(all[k] == y[l]);
            let (a, b) = choose|a: int, b: int|
                mid <= a < b <= hi && spans(y[l].offsets, offsets, a, b);
            assert(lo <= a < b <= hi && spans(all[k].offsets, offsets, a, b));
        }
    }
    assert forall|i: int, j: int| 0 <= i < j < all.len() implies (#[trigger] all[i]).offsets.0 <= (
    #[trigger] all[j]).offsets.0 && all[i].offsets.1 <= all[j].offsets.1 by {
        if j < x.len() {
            assert(all[i] == x[i] && all[j] == x[j]);
        } else if i >= x.len() {
            assert(all[i] == y[i - x.len()] && all[j] == y[j - x.len()]);
        } else {
            let l = j - x.len();
            assert(all[i] == x[i] && all[j] == y[l]);
            let (a, b) = choose|a: int, b: int|
                lo <= a < b <= mid && spans(x[i].offsets, offsets, a, b);
            let (c, d) = choose|c: int, d: int|
                mid <= c < d <= hi && spans(y[l].offsets, offsets, c, d);
            assert(offsets[a].0 <= offsets[a].1 <= offsets[c].0);
            assert(offsets[b - 1].1 <= offsets[d - 1].0 <= offsets[d - 1].1);
        }
    }
}

/// Sound tokens stay so where more words are in reach.
proof fn lemma_sound_wider<S>(
    m: Lexicon<S>,
    x: Seq<TokenView>,
    offsets: Seq<(usize, usize)>,
    lo: int,
    hi: int,
    lower: int,
    higher: int,
)
    requires
        sound(m, x, offsets, lo, hi),
        lower <= lo,
        hi <= higher,
    ensures
        sound(m, x, offsets, lower, higher),
{
    assert forall|k: int| 0 <= k < x.len() implies known_id(m, (#[trigger] x[k]).id) && exists|
        a: int,
        b: int,
    |
        lower <= a < b <= higher && spans(x[k].offsets, offsets, a, b) by {
        let (a, b) = choose|a: int, b: int| lo <= a < b <= hi && spans(x[k].offsets, offsets, a, b);
        assert(lower <= a < b <= higher && spans(x[k].offsets, offsets, a, b));
    }
}

/// The tokens of the first parts of a run that starts at the word `i`.
proof fn lemma_parts_sound<S: Score>(
    m: Lexicon<S>,
    lower: Seq<Seq<char>>,
    raw: Seq<Seq<char>>,
    offsets: Seq<(usize, usize)>,
    i: int,
    end: int,
    parts: Seq<(usize, usize)>,
    k: int,
)
    requires
        coherent(m),
        ascending_places(offsets),
        0 <= i <= end <= offsets.len(),
        0 <= k <= parts.len(),
        forall|j: int|
            0 <= j < parts.len() ==> (#[trigger] parts[j]).0 < parts[j].1 <= end - i,
        in_sequence(parts),
    ensures
        ({
            let now = m.parts_tokens(lower, raw, offsets.subrange(i, end), parts.take(k));
            &&& sound(
                m,
                now,
                offsets,
                i,
                if k == 0 {
                    i
                } else {
                    i + parts[k - 1].1
                },
            )
            &&& in_order(now)
        }),
    decreases k,
{
    let places = offsets.subrange(i, end);
    if k > 0 {
        lemma_parts_sound(m, lower, raw, offsets, i, end, parts, k - 1);
        let before = m.parts_tokens(lower, raw, places, parts.take(k - 1));
        let a = parts[k - 1].0 as int;
        let b = parts[k - 1].1 as int;
        let part = join(lower.subrange(a, b), '_');
        let orig = raw.subrange(a, b);
        let here = placed(m.part_tokens(part, orig), (places[a].0, places[b - 1].1));
        assert(parts.take(k).drop_last() == parts.take(k - 1));
        assert(parts.take(k).last() == parts[k - 1]);
        lemma_part_known(m, part, orig);
        assert(places[a] == offsets[i + a] && places[b - 1] == offsets[i + b - 1]);
        lemma_placed(m, m.part_tokens(part, orig), offsets, i + a, i + b);
        if k > 1 {
            assert(parts[k - 1].0 == parts[k - 2].1);
            lemma_sound_add(m, before, here, offsets, i, i + a, i + b);
        } else {
            assert(parts.take(0) == Seq::<(usize, usize)>::empty());
            lemma_sound_wider(m, here, offsets, i + a, i + b, i, i + b);
            assert(before + here == here);
        }
    }
}

/// The tokens of a run that starts at the word `i`.
proof fn lemma_run_sound<S: Score>(
    m: Lexicon<S>,
    raw: Seq<Seq<char>>,
    offsets: Seq<(usize, usize)>,
    i: int,
    end: int,
)
    requires
        coherent(m),
        ascending_places(offsets),
        0 <= i < end <= offsets.len() <= usize::MAX,
        raw.len() == end - i,
    ensures
        ({
            let run = m.run_tokens(
                raw.map_values(|w: Seq<char>| run_form(w)),
                raw,
                offsets.subrange(i, end),
            );
            sound(m, run, offsets, i, end) && in_order(run)
        }),
{
    let lower = raw.map_values(|w: Seq<char>| run_form(w));
    let parts = run_parts(m.vi_compounds, m.unigram, lower, lower.len() as int);
    law_run_parts_tile_run(m.vi_compounds, m.unigram, lower, lower.len() as int);
    lemma_parts_end(parts, parts.len() - 1);
    lemma_parts_sound(m, lower, raw, offsets, i, end, parts, parts.len() as int);
    assert(parts.take(parts.len() as int) == parts);
}

/// The tokens of the words from `i` on.
proof fn lemma_tokens_sound<S: Score>(
    m: Lexicon<S>,
    words: Seq<Seq<char>>,
    offsets: Seq<(usize, usize)>,
    i: int,
    before: Option<Lang>,
)
    requires
        coherent(m),
        ascending_places(offsets),
        offsets.len() == words.len(),
        words.len() <= usize::MAX,
        0 <= i <= words.len(),
    ensures
        sound(m, m.tokens_from(words, offsets, i, before), offsets, i, words.len() as int),
        in_order(m.tokens_from(words, offsets, i, before)),
    decreases words.len() - i,
{
    let n = words.len() as int;
    if i < n {
        let lang = m.lang(words[i]);
        lemma_first_known(m, seq![m.cs_vi_en]);
        lemma_first_known(m, seq![m.cs_en_vi]);
        let switch = placed(m.switch(before, lang), offsets[i]);
        lemma_placed(m, m.switch(before, lang), offsets, i, i + 1);
        if lang == Lang::Vi {
            let end = m.run_end(words, i + 1);
            m.lemma_run_end(words, i + 1);
            let raw = words.subrange(i, end);
            let run = m.run_tokens(
                raw.map_values(|w: Seq<char>| run_form(w)),
                raw,
                offsets.subrange(i, end),
            );
            let rest = m.tokens_from(words, offsets, end, Some(Lang::Vi));
            lemma_run_sound(m, raw, offsets, i, end);
            lemma_tokens_sound(m, words, offsets, end, Some(Lang::Vi));
            lemma_marked_run(m, switch, run, offsets, i, end);
            lemma_sound_add(m, switch + run, rest, offsets, i, end, n);
            assert(m.tokens_from(words, offsets, i, before) == switch + run + rest);
        } else {
            let here = placed(m.word_tokens(words[i], lang), offsets[i]);
            lemma_en_known(m, words[i]);
            lemma_placed(m, m.word_tokens(words[i], lang), offsets, i, i + 1);
            if lang == Lang::Punct {
                lemma_tokens_sound(m, words, offsets, i + 1, before);
                let rest = m.tokens_from(words, offsets, i + 1, before);
                lemma_sound_add(m, here, rest, offsets, i, i + 1, n);
            } else {
                lemma_tokens_sound(m, words, offsets, i + 1, Some(lang));
                let rest = m.tokens_from(words, offsets, i + 1, Some(lang));
                lemma_marked_run(m, switch, here, offsets, i, i + 1);
                lemma_sound_add(m, switch + here, rest, offsets, i, i + 1, n);
            }
        }
    }
}

/// Parts that follow each other end no later than the last does.
pub(crate) proof fn lemma_parts_end(parts: Seq<(usize, usize)>, k: int)
    requires
        k < parts.len(),
        forall|j: int| 0 <= j < parts.len() ==> (#[trigger] parts[j]).0 < parts[j].1,
        in_sequence(parts),
    ensures
        forall|j: int| 0 <= j <= k ==> (#[trigger] parts[j]).1 <= parts[k].1,
    decreases k,
{
    if k > 0 {
        lemma_parts_end(parts, k - 1);
        assert(parts[k].0 == parts[k - 1].1);
    }
}

/// The marker of a switch stands at the first word of what it introduces, so that it comes before
/// the tokens of those words.
proof fn lemma_marked_run<S: Score>(
    m: Lexicon<S>,
    marker: Seq<TokenView>,
    tokens: Seq<TokenView>,
    offsets: Seq<(usize, usize)>,
    i: int,
    end: int,
)
    requires
        ascending_places(offsets),
        0 <= i < end <= offsets.len(),
        sound(m, marker, offsets, i, i + 1),
        sound(m, tokens, offsets, i, end),
        in_order(marker),
        in_order(tokens),
    ensures
        sound(m, marker + tokens, offsets, i, end),
        in_order(marker + tokens),
{
    let all = marker + tokens;
    lemma_sound_wider(m, marker, offsets, i, i + 1, i, end);
    assert forall|k: int| 0 <= k < all.len() implies known_id(m, (#[trigger] all[k]).id) && exists|
        a: int,
        b: int,
    |
        i <= a < b <= end && spans(all[k].offsets, offsets, a, b) by {
        if k < marker.len() {
            assert(all[k] == marker[k]);
        } else {
            assert(all[k] == tokens[k - marker.len()]);
        }
    }
    assert forall|x: int, y: int| 0 <= x < y < all.len() implies (#[trigger] all[x]).offsets.0 <= (
    #[trigger] all[y]).offsets.0 && all[x].offsets.1 <= all[y].offsets.1 by {
        if y < marker.len() {
            assert(all[x] == marker[x] && all[y] == marker[y]);
        } else if x >= marker.len() {
            assert(all[x] == tokens[x - marker.len()] && all[y] == tokens[y - marker.len()]);
        } else {
            let l = y - marker.len();
            assert(all[x] == marker[x] && all[y] == tokens[l]);
            let (a, b) = choose|a: int, b: int|
                i <= a < b <= i + 1 && spans(marker[x].offsets, offsets, a, b);
            let (c, d) = choose|c: int, d: int|
                i <= c < d <= end && spans(tokens[l].offsets, offsets, c, d);
            assert(a == i && b == i + 1);
            if c > i {
                assert(offsets[i].0 <= offsets[i].1 <= offsets[c].0);
            }
            if d - 1 > i {
                assert(offsets[i].1 <= offsets[d - 1].0 <= offsets[d - 1].1);
            }
        }
    }
}

/// The places of the words of a text ascend.
pub(crate) proof fn lemma_places_ascend(words: Seq<Seq<char>>)
    requires
        nonempty_words(words),
        encode_utf8(concat(words)).len() <= usize::MAX,
    ensures
        ascending_places(offsets_of(words)),
        forall|i: int|
            0 <= i < words.len() ==> (#[trigger] offsets_of(words)[i]).1 <= encode_utf8(
                concat(words),
            ).len(),
{
    let offsets = offsets_of(words);
    assert forall|i: int| 0 <= i < offsets.len() implies (#[trigger] offsets[i]).0 < offsets[i].1
        && offsets[i].1 <= encode_utf8(concat(words)).len() by {
        lemma_word_start_step(words, i);
        lemma_encode_nonempty(words[i]);
    }
    assert forall|i: int, j: int| 0 <= i < j < offsets.len() implies (#[trigger] offsets[i]).1 <= (
    #[trigger] offsets[j]).0 by {
        lemma_starts_ascend(words, i + 1, j);
        lemma_word_start_step(words, i);
        lemma_word_start_step(words, j);
    }
}

/// A later word starts no earlier.
proof fn lemma_starts_ascend(words: Seq<Seq<char>>, i: int, j: int)
    requires
        0 <= i <= j <= words.len(),
    ensures
        word_start(words, i) <= word_start(words, j),
    decreases j - i,
{
    if i < j {
        lemma_starts_ascend(words, i, j - 1);
        lemma_word_start_step(words, j - 1);
    }
}

/// A text has no more words than bytes.
pub(crate) proof fn lemma_word_count(words: Seq<Seq<char>>, i: int)
    requires
        nonempty_words(words),
        0 <= i <= words.len(),
    ensures
        i <= word_start(words, i),
    decreases i,
{
    if i > 0 {
        lemma_word_count(words, i - 1);
        lemma_word_start_step(words, i - 1);
        lemma_encode_nonempty(words[i - 1]);
    }
}

/// A text that is not empty takes some bytes.
proof fn lemma_encode_nonempty(s: Seq<char>)
    requires
        s.len() > 0,
    ensures
        encode_utf8(s).len() > 0,
{
    let head = vstd::utf8::encode_scalar(s[0] as u32);
    assert(head.len() > 0);
}

/// Every token of a text has an id of the vocabulary.
pub proof fn law_token_ids_are_known<S: Score>(m: Lexicon<S>, text: Seq<char>, k: int)
    requires
        made_of_config(m),
        encode_utf8(text).len() <= usize::MAX,
        0 <= k < m.tokens(text).len(),
    ensures
        known_id(m, m.tokens(text)[k].id),
{
    lemma_tokens_of_text(m, text);
}

/// That a place starts where a word does and ends where that word or a later one does.
pub open spec fn on_words(place: (usize, usize), offsets: Seq<(usize, usize)>) -> bool {
    exists|a: int, b: int| 0 <= a < b <= offsets.len() && spans(place, offsets, a, b)
}

/// Every token of a text stands for one or more of its words, one after the other: its place is not
/// empty, lies within the text, and has the ends of words as its ends.
pub proof fn law_tokens_stand_for_words<S: Score>(m: Lexicon<S>, text: Seq<char>, k: int)
    requires
        made_of_config(m),
        encode_utf8(text).len() <= usize::MAX,
        0 <= k < m.tokens(text).len(),
    ensures
        m.tokens(text)[k].offsets.0 < m.tokens(text)[k].offsets.1 <= encode_utf8(text).len(),
        on_words(m.tokens(text)[k].offsets, offsets_of(words_of(text))),
{
    let words = words_of(text);
    let offsets = offsets_of(words);
    let tokens = m.tokens(text);
    lemma_tokens_of_text(m, text);
    lemma_words_tile_text(text);
    lemma_places_ascend(words);
    assert(known_id(m, tokens[k].id));
    let (a, b) = choose|a: int, b: int|
        0 <= a < b <= words.len() && spans(tokens[k].offsets, offsets, a, b);
    assert(offsets[a].0 < offsets[a].1);
    if a < b - 1 {
        assert(offsets[a].1 <= offsets[b - 1].0 < offsets[b - 1].1);
    }
    assert(offsets[b - 1].1 <= encode_utf8(text).len());
}

/// The tokens of a text come in its order.
pub proof fn law_tokens_are_in_order<S: Score>(m: Lexicon<S>, text: Seq<char>)
    requires
        made_of_config(m),
        encode_utf8(text).len() <= usize::MAX,
    ensures
        in_order(m.tokens(text)),
{
    lemma_tokens_of_text(m, text);
}

/// The tokens of a text are sound and in order.
proof fn lemma_tokens_of_text<S: Score>(m: Lexicon<S>, text: Seq<char>)
    requires
        made_of_config(m),
        encode_utf8(text).len() <= usize::MAX,
    ensures
        sound(m, m.tokens(text), offsets_of(words_of(text)), 0, words_of(text).len() as int),
        in_order(m.tokens(text)),
{
    let words = words_of(text);
    let offsets = offsets_of(words);
    lemma_coherent(m);
    lemma_words_tile_text(text);
    lemma_places_ascend(words);
    lemma_word_count(words, words.len() as int);
    assert(words.take(words.len() as int) == words);
    lemma_tokens_sound(m, words, offsets, 0, None);
}

/// A text without characters has no tokens.
pub proof fn law_empty_text_has_no_tokens<S: Score>(m: Lexicon<S>)
    ensures
        m.tokens(Seq::empty()) == Seq::<TokenView>::empty(),
{
}

} // verus!
