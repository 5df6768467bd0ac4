//! That every word of a text has a token.
use crate::chars::{alphabetic, lemma_ascii_spoken, spoken};
use crate::lang::{count_alphabetic, Lang};
use crate::laws::segmentation::{in_sequence, law_run_parts_tile_run};
use crate::laws::tokens::{ascending_places, lemma_parts_end, lemma_places_ascend, lemma_word_count};
use crate::lexicon::{placed, run_form, Lexicon, Spelled};
use crate::score::Score;
use crate::segment::run_parts;
use crate::text::{
    fields, join, lemma_fields_nonempty, trim_both, trim_end, trim_start, trims, Trim,
};
use crate::token::TokenView;
use crate::words::{lemma_words_tile_text, nonempty_words, offsets_of, words_of};
use vstd::prelude::*;
use vstd::utf8::{encode_utf8, is_ascii_chars};

verus! {

/// That some token stands for the bytes at a place.
pub open spec fn covered(tokens: Seq<TokenView>, place: (usize, usize)) -> bool {
    exists|k: int|
        0 <= k < tokens.len() && (#[trigger] tokens[k]).offsets.0 <= place.0 && place.1
            <= tokens[k].offsets.1
}

/// What is covered stays so among more tokens.
proof fn lemma_covered_add(x: Seq<TokenView>, y: Seq<TokenView>, place: (usize, usize))
    ensures
        covered(x, place) ==> covered(x + y, place),
        covered(y, place) ==> covered(x + y, place),
{
    if covered(x, place) {
        let k = choose|k: int|
            0 <= k < x.len() && (#[trigger] x[k]).offsets.0 <= place.0 && place.1
                <= x[k].offsets.1;
        assert((x + y)[k] == x[k]);
    }
    if covered(y, place) {
        let k = choose|k: int|
            0 <= k < y.len() && (#[trigger] y[k]).offsets.0 <= place.0 && place.1
                <= y[k].offsets.1;
        assert((x + y)[x.len() + k] == y[k]);
    }
}

/// A word that is not empty has tokens, whatever it is.
proof fn lemma_word_has_tokens<S: Score>(m: Lexicon<S>, word: Seq<char>)
    requires
        word.len() > 0,
    ensures
        m.en_tokens(word).len() > 0,
        m.known_or_bytes(word).len() > 0,
        m.code_tokens(word).len() > 0,
{
    assert(vstd::utf8::encode_scalar(word[0] as u32).len() > 0);
    assert(m.byte_tokens(word).len() > 0);
}

/// Words of which one is not empty have tokens.
proof fn lemma_words_have_tokens<S: Score>(m: Lexicon<S>, words: Seq<Seq<char>>, j: int)
    requires
        0 <= j < words.len(),
        words[j].len() > 0,
    ensures
        m.en_tokens_each(words).len() > 0,
    decreases words.len(),
{
    if j == words.len() - 1 {
        lemma_word_has_tokens(m, words.last());
    } else {
        assert(words.drop_last()[j] == words[j]);
        lemma_words_have_tokens(m, words.drop_last(), j);
    }
}

/// A text that holds more than the separator has a field that is not empty.
proof fn lemma_solid_field(s: Seq<char>, i: int) -> (j: int)
    requires
        0 <= i < s.len(),
        s[i] != '_',
    ensures
        0 <= j < fields(s, '_').len(),
        fields(s, '_')[j].len() > 0,
    decreases s.len(),
{
    let before = s.drop_last();
    lemma_fields_nonempty(before, '_');
    if i == s.len() - 1 {
        fields(s, '_').len() - 1
    } else {
        assert(before[i] == s[i]);
        lemma_solid_field(before, i)
    }
}

/// Joined texts hold the characters of each.
proof fn lemma_join_spoken(v: Seq<Seq<char>>, j: int)
    requires
        0 <= j < v.len(),
        spoken(v[j]),
    ensures
        spoken(join(v, '_')),
    decreases v.len(),
{
    if v.len() > 1 {
        let head = join(v.drop_last(), '_');
        let all = join(v, '_');
        if j == v.len() - 1 {
            let i = choose|i: int| 0 <= i < v[j].len() && #[trigger] v[j][i] != '_';
            assert(all[head.len() + 1 + i] == v[j][i]);
        } else {
            assert(v.drop_last()[j] == v[j]);
            lemma_join_spoken(v.drop_last(), j);
            let i = choose|i: int| 0 <= i < head.len() && #[trigger] head[i] != '_';
            assert(all[i] == head[i]);
        }
    }
}

/// A part that holds more than underscores has tokens.
proof fn lemma_part_has_tokens<S: Score>(m: Lexicon<S>, part: Seq<char>, orig: Seq<Seq<char>>)
    requires
        spoken(part),
    ensures
        m.part_tokens(part, orig).len() > 0,
{
    let i = choose|i: int| 0 <= i < part.len() && #[trigger] part[i] != '_';
    let j = lemma_solid_field(part, i);
    lemma_words_have_tokens(m, fields(part, '_'), j);
    lemma_word_has_tokens(m, part);
}

/// Tokens at one place cover what lies within it.
proof fn lemma_placed_covers(
    tokens: Seq<Spelled>,
    at: (usize, usize),
    place: (usize, usize),
)
    requires
        tokens.len() > 0,
        at.0 <= place.0,
        place.1 <= at.1,
    ensures
        covered(placed(tokens, at), place),
{
    assert(placed(tokens, at)[0].offsets == at);
}

/// The first parts of a run that starts at the word `i` cover their words.
proof fn lemma_parts_cover<S: Score>(
    m: Lexicon<S>,
    lower: Seq<Seq<char>>,
    raw: Seq<Seq<char>>,
    offsets: Seq<(usize, usize)>,
    i: int,
    end: int,
    parts: Seq<(usize, usize)>,
    k: int,
    w: int,
)
    requires
        ascending_places(offsets),
        0 <= i <= end <= offsets.len(),
        lower.len() == end - i,
        0 < k <= parts.len(),
        parts[0].0 == 0,
        forall|j: int|
            0 <= j < parts.len() ==> (#[trigger] parts[j]).0 < parts[j].1 <= end - i,
        in_sequence(parts),
        0 <= w < parts[k - 1].1,
        spoken(lower[w]),
    ensures
        covered(
            m.parts_tokens(lower, raw, offsets.subrange(i, end), parts.take(k)),
            offsets[i + w],
        ),
    decreases k,
{
    let places = offsets.subrange(i, end);
    let before = m.parts_tokens(lower, raw, places, parts.take(k - 1));
    let a = parts[k - 1].0 as int;
    let b = parts[k - 1].1 as int;
    let forms = lower.subrange(a, b);
    let part = join(forms, '_');
    let orig = raw.subrange(a, b);
    let here = placed(m.part_tokens(part, orig), (places[a].0, places[b - 1].1));
    assert(parts.take(k).drop_last() == parts.take(k - 1));
    assert(parts.take(k).last() == parts[k - 1]);
    if w >= a {
        assert(forms[w - a] == lower[w]);
        lemma_join_spoken(forms, w - a);
        lemma_part_has_tokens(m, part, orig);
        assert(places[a] == offsets[i + a] && places[b - 1] == offsets[i + b - 1]);
        if a < w {
            assert(offsets[i + a].0 <= offsets[i + a].1 <= offsets[i + w].0);
        }
        if w < b - 1 {
            assert(offsets[i + w].1 <= offsets[i + b - 1].0 <= offsets[i + b - 1].1);
        }
        lemma_placed_covers(
            m.part_tokens(part, orig),
            (places[a].0, places[b - 1].1),
            offsets[i + w],
        );
    } else {
        assert(k > 1);
        assert(parts[k - 1].0 == parts[k - 2].1);
        lemma_parts_cover(m, lower, raw, offsets, i, end, parts, k - 1, w);
    }
    lemma_covered_add(before, here, offsets[i + w]);
}

/// The tokens of a run that starts at the word `i` cover its words.
proof fn lemma_run_covers<S: Score>(
    m: Lexicon<S>,
    raw: Seq<Seq<char>>,
    offsets: Seq<(usize, usize)>,
    i: int,
    end: int,
    w: int,
)
    requires
        ascending_places(offsets),
        0 <= i <= w < end <= offsets.len() <= usize::MAX,
        raw.len() == end - i,
        spoken(run_form(raw[w - i])),
    ensures
        covered(
            m.run_tokens(
                raw.map_values(|w: Seq<char>| run_form(w)),
                raw,
                offsets.subrange(i, end),
            ),
            offsets[w],
        ),
{
    let lower = raw.map_values(|w: Seq<char>| run_form(w));
    let parts = run_parts(m.vi_compounds, m.unigram, lower, lower.len() as int);
    law_run_parts_tile_run(m.vi_compounds, m.unigram, lower, lower.len() as int);
    lemma_parts_end(parts, parts.len() - 1);
    assert(lower[w - i] == run_form(raw[w - i]));
    lemma_parts_cover(m, lower, raw, offsets, i, end, parts, parts.len() as int, w - i);
    assert(parts.take(parts.len() as int) == parts);
}

/// The tokens of the words from `i` on cover them.
proof fn lemma_tokens_cover<S: Score>(
    m: Lexicon<S>,
    words: Seq<Seq<char>>,
    offsets: Seq<(usize, usize)>,
    i: int,
    before: Option<Lang>,
    w: int,
)
    requires
        nonempty_words(words),
        ascending_places(offsets),
        offsets.len() == words.len(),
        words.len() <= usize::MAX,
        0 <= i <= w < words.len(),
        m.lang(words[w]) == Lang::Vi ==> spoken(run_form(words[w])),
    ensures
        covered(m.tokens_from(words, offsets, i, before), offsets[w]),
    decreases words.len() - i,
{
    let lang = m.lang(words[i]);
    let switch = placed(m.switch(before, lang), offsets[i]);
    if lang == Lang::Vi {
        let end = m.run_end(words, i + 1);
        m.lemma_run_end(words, i + 1);
        let raw = words.subrange(i, end);
        let run = m.run_tokens(
            raw.map_values(|w: Seq<char>| run_form(w)),
            raw,
            offsets.subrange(i, end),
        );
        let rest = m.tokens_from(words, offsets, end, Some(Lang::Vi));
        if w < end {
            if w > i {
                lemma_run_is_vietnamese(m, words, i + 1, w);
            }
            assert(raw[w - i] == words[w]);
            lemma_run_covers(m, raw, offsets, i, end, w);
        } else {
            lemma_tokens_cover(m, words, offsets, end, Some(Lang::Vi), w);
        }
        lemma_covered_add(switch, run, offsets[w]);
        lemma_covered_add(switch + run, rest, offsets[w]);
        assert(m.tokens_from(words, offsets, i, before) == switch + run + rest);
    } else {
        let here = placed(m.word_tokens(words[i], lang), offsets[i]);
        let after = if lang == Lang::Punct {
            before
        } else {
            Some(lang)
        };
        let rest = m.tokens_from(words, offsets, i + 1, after);
        if w == i {
            lemma_word_has_tokens(m, words[i]);
            lemma_placed_covers(m.word_tokens(words[i], lang), offsets[i], offsets[i]);
        } else {
            lemma_tokens_cover(m, words, offsets, i + 1, after, w);
        }
        lemma_covered_add(switch, here, offsets[w]);
        lemma_covered_add(here, rest, offsets[w]);
        lemma_covered_add(switch + here, rest, offsets[w]);
    }
}

/// The words of a run are Vietnamese.
pub(crate) proof fn lemma_run_is_vietnamese<S: Score>(
    m: Lexicon<S>,
    words: Seq<Seq<char>>,
    i: int,
    w: int,
)
    requires
        0 <= i <= words.len(),
        i <= w < m.run_end(words, i),
    ensures
        m.lang(words[w]) == Lang::Vi,
    decreases words.len() - i,
{
    if w > i {
        lemma_run_is_vietnamese(m, words, i + 1, w);
    }
}

/// What a trim of the end does not take stays in its place.
proof fn lemma_kept_by_trim_end(s: Seq<char>, trim: Trim, i: int)
    requires
        0 <= i < s.len(),
        !trims(trim, s[i]),
    ensures
        i < trim_end(s, trim).len() <= s.len(),
        trim_end(s, trim) == s.take(trim_end(s, trim).len() as int),
    decreases s.len(),
{
    if trims(trim, s.last()) {
        let before = s.drop_last();
        lemma_kept_by_trim_end(before, trim, i);
        let n = trim_end(s, trim).len() as int;
        assert(before.take(n) == s.take(n));
    } else {
        assert(s.take(s.len() as int) == s);
    }
}

/// What a trim of the start does not take stays, and nothing is added.
proof fn lemma_kept_by_trim_start(s: Seq<char>, trim: Trim, i: int)
    requires
        0 <= i < s.len(),
        !trims(trim, s[i]),
    ensures
        ({
            let n = trim_start(s, trim).len();
            &&& s.len() - n <= i
            &&& n <= s.len()
            &&& trim_start(s, trim) == s.skip(s.len() - n)
        }),
    decreases s.len(),
{
    if trims(trim, s[0]) {
        let rest = s.drop_first();
        lemma_kept_by_trim_start(rest, trim, i - 1);
        let n = trim_start(s, trim).len();
        assert(rest.skip(rest.len() - n) == s.skip(s.len() - n));
    } else {
        assert(s.skip(0) == s);
    }
}

/// The punctuation around words holds no letters.
proof fn lemma_letters_stay(c: char)
    requires
        alphabetic(c),
    ensures
        !trims(Trim::Punct, c),
{
    reveal_strlit(".,!?;:()[]{}\"'");
    let marks = ".,!?;:()[]{}\"'"@;
    assert forall|i: int| 0 <= i < marks.len() implies !alphabetic(#[trigger] marks[i]) by {}
}

/// A word with an alphabetic character has one.
proof fn lemma_has_letter(s: Seq<char>) -> (i: int)
    requires
        count_alphabetic(s) > 0,
    ensures
        0 <= i < s.len(),
        alphabetic(s[i]),
    decreases s.len(),
{
    if alphabetic(s.last()) {
        s.len() - 1
    } else {
        let i = lemma_has_letter(s.drop_last());
        assert(s.drop_last()[i] == s[i]);
        i
    }
}

/// A Vietnamese word holds a letter, and so holds more than underscores without the punctuation
/// around it. In lowercase that is clear of an ASCII word.
pub(crate) proof fn lemma_vietnamese_is_spoken<S: Score>(m: Lexicon<S>, word: Seq<char>)
    requires
        m.lang(word) == Lang::Vi,
    ensures
        spoken(trim_both(word, Trim::Punct)),
        is_ascii_chars(word) ==> spoken(run_form(word)),
{
    let i = lemma_has_letter(word);
    lemma_letters_stay(word[i]);
    lemma_kept_by_trim_end(word, Trim::Punct, i);
    let kept = trim_end(word, Trim::Punct);
    lemma_kept_by_trim_start(kept, Trim::Punct, i);
    let bare = trim_both(word, Trim::Punct);
    let j = i - (kept.len() - bare.len());
    assert(bare[j] == word[i]);
    if is_ascii_chars(word) {
        assert(is_ascii_chars(bare)) by {
            assert(forall|k: int|
                0 <= k < bare.len() ==> #[trigger] bare[k] == word[k + (kept.len() - bare.len())]);
        }
        lemma_ascii_spoken(bare);
    }
}

/// A word of a text is covered where, if it is Vietnamese, its form in the run holds more than
/// underscores.
pub(crate) proof fn lemma_word_covered<S: Score>(m: Lexicon<S>, text: Seq<char>, w: int)
    requires
        encode_utf8(text).len() <= usize::MAX,
        0 <= w < words_of(text).len(),
        m.lang(words_of(text)[w]) == Lang::Vi ==> spoken(run_form(words_of(text)[w])),
    ensures
        covered(m.tokens(text), offsets_of(words_of(text))[w]),
{
    let words = words_of(text);
    lemma_words_tile_text(text);
    lemma_places_ascend(words);
    lemma_word_count(words, words.len() as int);
    assert(words.take(words.len() as int) == words);
    lemma_tokens_cover(m, words, offsets_of(words), 0, None, w);
}

/// No word of a text is dropped: some token stands for it. Of a Vietnamese word beyond ASCII this
/// is stated where lowercase leaves more than underscores of it; that it always does is known where
/// the lowercase is made, and so it is [`crate::model::ViLLMModel::tokenize`] that promises a token
/// for every word.
pub proof fn law_no_word_is_dropped<S: Score>(m: Lexicon<S>, text: Seq<char>, w: int)
    requires
        encode_utf8(text).len() <= usize::MAX,
        0 <= w < words_of(text).len(),
    ensures
        ({
            let word = words_of(text)[w];
            m.lang(word) == Lang::Vi && !is_ascii_chars(word) ==> spoken(run_form(word))
        }) ==> covered(m.tokens(text), offsets_of(words_of(text))[w]),
{
    let word = words_of(text)[w];
    if m.lang(word) == Lang::Vi {
        lemma_vietnamese_is_spoken(m, word);
    }
    if m.lang(word) == Lang::Vi ==> spoken(run_form(word)) {
        lemma_word_covered(m, text, w);
    }
}

} // verus!
