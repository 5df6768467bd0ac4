//! How the tokens of a text follow each other.
use crate::lang::Lang;
use crate::lexicon::{placed, run_form, Lexicon, Spelled};
use crate::score::Score;
use crate::segment::run_parts;
use crate::text::join;
use crate::token::TokenView;
use crate::words::{offsets_of, words_of};
use vstd::prelude::*;

verus! {

/// The tokens of a text are those of its words at their places, from the first on, with no language
/// before it.
pub proof fn law_tokens_of_text<S: Score>(m: Lexicon<S>, text: Seq<char>)
    ensures
        m.tokens(text) == m.tokens_from(words_of(text), offsets_of(words_of(text)), 0, None),
{
}

/// Behind the last word there are no tokens.
pub proof fn law_no_words_no_tokens<S: Score>(
    m: Lexicon<S>,
    words: Seq<Seq<char>>,
    offsets: Seq<(usize, usize)>,
    before: Option<Lang>,
)
    ensures
        m.tokens_from(words, offsets, words.len() as int, before) == Seq::<TokenView>::empty(),
{
}

/// Tokens at a place keep their ids and spellings.
pub proof fn law_placed(tokens: Seq<Spelled>, place: (usize, usize), i: int)
    requires
        0 <= i < tokens.len(),
    ensures
        placed(tokens, place).len() == tokens.len(),
        placed(tokens, place)[i].id == tokens[i].1,
        placed(tokens, place)[i].value == tokens[i].0,
        placed(tokens, place)[i].offsets == place,
{
}

/// A word that is neither Vietnamese nor punctuation gives the marker of a switch, where there is
/// one, and its tokens, all at its place, and sets the language for what follows.
pub proof fn law_word_then_rest<S: Score>(
    m: Lexicon<S>,
    words: Seq<Seq<char>>,
    offsets: Seq<(usize, usize)>,
    i: int,
    before: Option<Lang>,
)
    requires
        0 <= i < words.len(),
        m.lang(words[i]) != Lang::Vi,
        m.lang(words[i]) != Lang::Punct,
    ensures
        m.tokens_from(words, offsets, i, before) == placed(
            m.switch(before, m.lang(words[i])),
            offsets[i],
        ) + placed(m.word_tokens(words[i], m.lang(words[i])), offsets[i]) + m.tokens_from(
            words,
            offsets,
            i + 1,
            Some(m.lang(words[i])),
        ),
{
}

/// Punctuation gives its tokens at its place, and leaves the language as it is.
pub proof fn law_punctuation_then_rest<S: Score>(
    m: Lexicon<S>,
    words: Seq<Seq<char>>,
    offsets: Seq<(usize, usize)>,
    i: int,
    before: Option<Lang>,
)
    requires
        0 <= i < words.len(),
        m.lang(words[i]) == Lang::Punct,
    ensures
        m.tokens_from(words, offsets, i, before) == placed(
            m.word_tokens(words[i], Lang::Punct),
            offsets[i],
        ) + m.tokens_from(words, offsets, i + 1, before),
{
}

/// A run ends before the first word that is not Vietnamese.
proof fn lemma_run_ends<S: Score>(m: Lexicon<S>, words: Seq<Seq<char>>, i: int, end: int)
    requires
        0 <= i <= end <= words.len(),
        forall|j: int| i <= j < end ==> m.lang(#[trigger] words[j]) == Lang::Vi,
        end < words.len() ==> m.lang(words[end]) != Lang::Vi,
    ensures
        m.run_end(words, i) == end,
    decreases end - i,
{
    if i < end {
        assert(m.lang(words[i]) == Lang::Vi);
        lemma_run_ends(m, words, i + 1, end);
    }
}

/// Neighbouring Vietnamese words, up to the first word that is not, make one run: the marker of a
/// switch, where there is one, at the first of them, then the tokens of the run, and Vietnamese is
/// the language for what follows.
pub proof fn law_run_then_rest<S: Score>(
    m: Lexicon<S>,
    words: Seq<Seq<char>>,
    offsets: Seq<(usize, usize)>,
    i: int,
    end: int,
    before: Option<Lang>,
)
    requires
        0 <= i < end <= words.len(),
        forall|j: int| i <= j < end ==> m.lang(#[trigger] words[j]) == Lang::Vi,
        end < words.len() ==> m.lang(words[end]) != Lang::Vi,
    ensures
        m.tokens_from(words, offsets, i, before) == placed(
            m.switch(before, Lang::Vi),
            offsets[i],
        ) + m.run_tokens(
            words.subrange(i, end).map_values(|w: Seq<char>| run_form(w)),
            words.subrange(i, end),
            offsets.subrange(i, end),
        ) + m.tokens_from(words, offsets, end, Some(Lang::Vi)),
{
    assert(m.lang(words[i]) == Lang::Vi);
    lemma_run_ends(m, words, i + 1, end);
}

/// The tokens of a run are those of its best parts, one after the other. A part is the forms of its
/// words with underscores between them; it stands from the start of its first word to the end of
/// its last.
pub proof fn law_parts_of_run<S: Score>(
    m: Lexicon<S>,
    lower: Seq<Seq<char>>,
    raw: Seq<Seq<char>>,
    offsets: Seq<(usize, usize)>,
    parts: Seq<(usize, usize)>,
    a: usize,
    b: usize,
)
    ensures
        m.run_tokens(lower, raw, offsets) == m.parts_tokens(
            lower,
            raw,
            offsets,
            run_parts(m.vi_compounds, m.unigram, lower, lower.len() as int),
        ),
        m.parts_tokens(lower, raw, offsets, Seq::empty()) == Seq::<TokenView>::empty(),
        m.parts_tokens(lower, raw, offsets, parts.push((a, b))) == m.parts_tokens(
            lower,
            raw,
            offsets,
            parts,
        ) + placed(
            m.part_tokens(
                join(lower.subrange(a as int, b as int), '_'),
                raw.subrange(a as int, b as int),
            ),
            (offsets[a as int].0, offsets[b - 1].1),
        ),
{
    assert(parts.push((a, b)).drop_last() == parts);
}

/// The marker of a switch: from Vietnamese to English and from English to Vietnamese the token for
/// it, where there is one, and nothing else.
pub proof fn law_switch<S: Score>(m: Lexicon<S>, before: Option<Lang>, lang: Lang)
    ensures
        before == Some(Lang::Vi) && lang == Lang::En && m.token2id.contains_key(m.cs_vi_en)
            ==> m.switch(before, lang) == seq![(m.cs_vi_en, m.token2id[m.cs_vi_en])],
        before == Some(Lang::En) && lang == Lang::Vi && m.token2id.contains_key(m.cs_en_vi)
            ==> m.switch(before, lang) == seq![(m.cs_en_vi, m.token2id[m.cs_en_vi])],
        before == Some(Lang::Vi) && lang == Lang::En && !m.token2id.contains_key(m.cs_vi_en)
            ==> m.switch(before, lang) == Seq::<Spelled>::empty(),
        before == Some(Lang::En) && lang == Lang::Vi && !m.token2id.contains_key(m.cs_en_vi)
            ==> m.switch(before, lang) == Seq::<Spelled>::empty(),
        !(before == Some(Lang::Vi) && lang == Lang::En) && !(before == Some(Lang::En) && lang
            == Lang::Vi) ==> m.switch(before, lang) == Seq::<Spelled>::empty(),
{
    reveal_with_fuel(Lexicon::first_known, 2);
    assert(seq![m.cs_vi_en].drop_first() == Seq::<Seq<char>>::empty());
    assert(seq![m.cs_en_vi].drop_first() == Seq::<Seq<char>>::empty());
}

} // verus!
