//! In what case the tokens of Vietnamese words come.
use crate::chars::{str_lower, str_upper, uppercase};
use crate::lexicon::{
    all_uppercase, cased_compound_of, recased_parts, run_form, starts_uppercase, Lexicon, Spelled,
};
use crate::score::Score;
use crate::text::{fields, join, titled, trim_both, Trim};
use vstd::prelude::*;

verus! {

/// That a word is written all in capitals.
pub open spec fn in_capitals(word: Seq<char>) -> bool {
    forall|i: int| 0 <= i < word.len() ==> uppercase(#[trigger] word[i])
}

/// That a word is written with a capital first, but not all in capitals.
pub open spec fn capitalised(word: Seq<char>) -> bool {
    word.len() > 0 && uppercase(word[0]) && exists|i: int|
        0 <= i < word.len() && !uppercase(#[trigger] word[i])
}

/// The first of three spellings that is a token.
proof fn lemma_first_of<S: Score>(m: Lexicon<S>, a: Seq<char>, b: Seq<char>, c: Seq<char>)
    ensures
        ({
            let known = m.first_known(seq![a, b, c]);
            &&& m.token2id.contains_key(a) ==> known == seq![(a, m.token2id[a])]
            &&& !m.token2id.contains_key(a) && m.token2id.contains_key(b) ==> known == seq![
                (b, m.token2id[b]),
            ]
            &&& !m.token2id.contains_key(a) && !m.token2id.contains_key(b)
                && m.token2id.contains_key(c) ==> known == seq![(c, m.token2id[c])]
            &&& !m.token2id.contains_key(a) && !m.token2id.contains_key(b)
                && !m.token2id.contains_key(c) ==> known == Seq::<Spelled>::empty()
        }),
{
    reveal_with_fuel(Lexicon::first_known, 4);
    assert(seq![a, b, c].drop_first() == seq![b, c]);
    assert(seq![b, c].drop_first() == seq![c]);
    assert(seq![c].drop_first() == Seq::<Seq<char>>::empty());
}

/// The first of two spellings that is a token.
proof fn lemma_first_of_two<S: Score>(m: Lexicon<S>, b: Seq<char>, c: Seq<char>)
    ensures
        ({
            let known = m.first_known(seq![b, c]);
            &&& m.token2id.contains_key(b) ==> known == seq![(b, m.token2id[b])]
            &&& !m.token2id.contains_key(b) && m.token2id.contains_key(c) ==> known == seq![
                (c, m.token2id[c]),
            ]
            &&& !m.token2id.contains_key(b) && !m.token2id.contains_key(c) ==> known == Seq::<
                Spelled,
            >::empty()
        }),
{
    reveal_with_fuel(Lexicon::first_known, 3);
    assert(seq![b, c].drop_first() == seq![c]);
    assert(seq![c].drop_first() == Seq::<Seq<char>>::empty());
}

/// A word with a capital first comes in title case where that is a token, whatever else is; else in
/// uppercase; else in lowercase; else as an English word.
pub proof fn law_capitalised_word<S: Score>(m: Lexicon<S>, part: Seq<char>, orig: Seq<Seq<char>>)
    requires
        orig.len() > 0,
        !part.contains('_'),
        capitalised(orig[0]),
    ensures
        ({
            let title = titled(part);
            let upper = str_upper(part);
            let tokens = m.part_tokens(part, orig);
            &&& m.token2id.contains_key(title) ==> tokens == seq![(title, m.token2id[title])]
            &&& !m.token2id.contains_key(title) && m.token2id.contains_key(upper) ==> tokens
                == seq![(upper, m.token2id[upper])]
            &&& !m.token2id.contains_key(title) && !m.token2id.contains_key(upper)
                && m.token2id.contains_key(part) ==> tokens == seq![(part, m.token2id[part])]
            &&& !m.token2id.contains_key(title) && !m.token2id.contains_key(upper)
                && !m.token2id.contains_key(part) ==> tokens == m.en_tokens(part)
        }),
{
    let i = choose|i: int| 0 <= i < orig[0].len() && !uppercase(#[trigger] orig[0][i]);
    assert(!uppercase(orig[0][i]));
    assert(!all_uppercase(orig[0]));
    lemma_first_of(m, titled(part), str_upper(part), part);
}

/// A word all in capitals comes in uppercase where that is a token; else in lowercase; else as an
/// English word.
pub proof fn law_word_in_capitals<S: Score>(m: Lexicon<S>, part: Seq<char>, orig: Seq<Seq<char>>)
    requires
        orig.len() > 0,
        !part.contains('_'),
        in_capitals(orig[0]),
    ensures
        ({
            let upper = str_upper(part);
            let tokens = m.part_tokens(part, orig);
            &&& m.token2id.contains_key(upper) ==> tokens == seq![(upper, m.token2id[upper])]
            &&& !m.token2id.contains_key(upper) && m.token2id.contains_key(part) ==> tokens
                == seq![(part, m.token2id[part])]
            &&& !m.token2id.contains_key(upper) && !m.token2id.contains_key(part) ==> tokens
                == m.en_tokens(part)
        }),
{
    assert(all_uppercase(orig[0]));
    lemma_first_of_two(m, str_upper(part), part);
}

/// A word without a capital first keeps its own spelling, with the id of its form, where that is a
/// token, and else is as an English word.
pub proof fn law_small_word<S: Score>(m: Lexicon<S>, part: Seq<char>, orig: Seq<Seq<char>>)
    requires
        orig.len() > 0,
        !part.contains('_'),
        orig[0].len() > 0,
        !uppercase(orig[0][0]),
    ensures
        m.token2id.contains_key(part) ==> m.part_tokens(part, orig) == seq![
            (orig[0], m.token2id[part]),
        ],
        !m.token2id.contains_key(part) ==> m.part_tokens(part, orig) == m.en_tokens(part),
{
    assert(!all_uppercase(orig[0])) by {
        assert(!uppercase(orig[0][0]));
    }
}

/// A compound comes in the case of its words where that is a token; else in uppercase; else in
/// lowercase; else its fields are English words, one after the other.
pub proof fn law_compound<S: Score>(m: Lexicon<S>, part: Seq<char>, orig: Seq<Seq<char>>)
    requires
        part.contains('_'),
    ensures
        ({
            let cased = cased_compound_of(part, orig);
            let upper = str_upper(part);
            let tokens = m.part_tokens(part, orig);
            &&& m.token2id.contains_key(cased) ==> tokens == seq![(cased, m.token2id[cased])]
            &&& !m.token2id.contains_key(cased) && m.token2id.contains_key(upper) ==> tokens
                == seq![(upper, m.token2id[upper])]
            &&& !m.token2id.contains_key(cased) && !m.token2id.contains_key(upper)
                && m.token2id.contains_key(part) ==> tokens == seq![(part, m.token2id[part])]
            &&& !m.token2id.contains_key(cased) && !m.token2id.contains_key(upper)
                && !m.token2id.contains_key(part) ==> tokens == m.en_tokens_each(fields(part, '_'))
        }),
{
    lemma_first_of(m, cased_compound_of(part, orig), str_upper(part), part);
}

/// English words follow each other.
pub proof fn law_english_words_follow<S: Score>(
    m: Lexicon<S>,
    words: Seq<Seq<char>>,
    word: Seq<char>,
)
    ensures
        m.en_tokens_each(Seq::empty()) == Seq::<Spelled>::empty(),
        m.en_tokens_each(words.push(word)) == m.en_tokens_each(words) + m.en_tokens(word),
{
    assert(words.push(word).drop_last() == words);
}

/// Each field of a compound takes the case of the word in its place: all in capitals, in title
/// case, or as it is; without a word it stays.
pub proof fn law_case_of_compound(compound: Seq<char>, orig: Seq<Seq<char>>, i: int)
    requires
        0 <= i < fields(compound, '_').len(),
    ensures
        ({
            let parts = fields(compound, '_');
            let cased = recased_parts(parts, orig);
            &&& cased_compound_of(compound, orig) == join(cased, '_')
            &&& cased.len() == parts.len()
            &&& i < orig.len() && in_capitals(orig[i]) ==> cased[i] == str_upper(parts[i])
            &&& i < orig.len() && capitalised(orig[i]) ==> cased[i] == titled(parts[i])
            &&& i < orig.len() && orig[i].len() > 0 && !uppercase(orig[i][0]) ==> cased[i]
                == parts[i]
            &&& i >= orig.len() ==> cased[i] == parts[i]
        }),
{
    if i < orig.len() {
        let o = orig[i];
        assert(all_uppercase(o) == in_capitals(o));
        if capitalised(o) {
            let k = choose|k: int| 0 <= k < o.len() && !uppercase(#[trigger] o[k]);
            assert(!uppercase(o[k]));
            assert(starts_uppercase(o));
        }
        if o.len() > 0 && !uppercase(o[0]) {
            assert(!in_capitals(o));
        }
    }
}

/// A run holds its words in lowercase without the punctuation around them.
pub proof fn law_form_in_run(word: Seq<char>)
    ensures
        run_form(word) == str_lower(trim_both(word, Trim::Punct)),
{
}

} // verus!
