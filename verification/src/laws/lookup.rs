//! Which tokens a word has.
use crate::chars::{lowercase, str_lower};
use crate::config::{byte_ids_of, lexicon_of, made_of_config, ConfigView};
use crate::lang::Lang;
use crate::lexicon::{Lexicon, Spelled};
use crate::score::Score;
use crate::text::{byte_token, trim_end, trims, Trim};
use vstd::prelude::*;
use vstd::utf8::encode_utf8;

verus! {

/// A text has an id exactly where it is a token, and that of the token.
pub proof fn law_id<S: Score>(m: Lexicon<S>, token: Seq<char>)
    ensures
        m.token2id.contains_key(token) ==> m.id(token) == Some(m.token2id[token]),
        !m.token2id.contains_key(token) ==> m.id(token) is None,
{
}

/// A word that is a token is that token, whatever kind of word it is.
pub proof fn law_known_word<S: Score>(m: Lexicon<S>, word: Seq<char>, lang: Lang)
    requires
        m.token2id.contains_key(word),
    ensures
        m.word_tokens(word, lang) == seq![(word, m.token2id[word])],
        m.en_tokens(word) == seq![(word, m.token2id[word])],
        m.vi_tokens(word) == seq![(word, m.token2id[word])],
{
}

/// A text in bytes has a token for each byte, spelled as the byte token, with the id of that token
/// or else of the unknown one.
pub proof fn law_bytes_of_text<S: Score>(m: Lexicon<S>, text: Seq<char>, i: int)
    requires
        made_of_config(m),
        0 <= i < encode_utf8(text).len(),
    ensures
        m.byte_tokens(text).len() == encode_utf8(text).len(),
        m.byte_tokens(text)[i].0 == byte_token(encode_utf8(text)[i]),
        m.byte_tokens(text)[i].1 == if m.token2id.contains_key(byte_token(encode_utf8(text)[i])) {
            m.token2id[byte_token(encode_utf8(text)[i])]
        } else {
            m.unk_id
        },
{
    let c = choose|c: ConfigView<S>| #[trigger] lexicon_of(c) == m;
    let b = encode_utf8(text)[i];
    assert(m.byte_ids == byte_ids_of(m.token2id));
    assert(m.byte_ids.contains_key(b) <==> m.token2id.contains_key(byte_token(b)));
}

/// Punctuation and numbers that are no tokens become bytes.
pub proof fn law_unknown_number<S: Score>(m: Lexicon<S>, word: Seq<char>, lang: Lang)
    requires
        !m.token2id.contains_key(word),
        lang == Lang::Punct || lang == Lang::Num,
    ensures
        m.word_tokens(word, lang) == m.byte_tokens(word),
{
}

/// A small letter is no punctuation.
proof fn lemma_small_letters_stay(c: char)
    requires
        lowercase(c),
    ensures
        !trims(Trim::Punct, c),
{
    reveal_strlit(".,!?;:()[]{}\"'");
    let marks = ".,!?;:()[]{}\"'"@;
    assert forall|i: int| 0 <= i < marks.len() implies !lowercase(#[trigger] marks[i]) by {}
}

/// An English word that is no token becomes bytes where some character of it is not lowercase. Else
/// it is the token of its lowercase form, where there is one. Else it is in pieces, where one of
/// them is spelled otherwise than the unknown token, and else in bytes.
pub proof fn law_unknown_english_word<S: Score>(m: Lexicon<S>, word: Seq<char>)
    requires
        !m.token2id.contains_key(word),
    ensures
        (exists|i: int| 0 <= i < word.len() && !lowercase(#[trigger] word[i])) ==> m.en_tokens(word)
            == m.byte_tokens(word),
        (forall|i: int| 0 <= i < word.len() ==> lowercase(#[trigger] word[i])) ==> {
            let lower = str_lower(word);
            let pieces = m.sp_tokens(lower);
            let told = exists|i: int|
                0 <= i < pieces.len() && (#[trigger] pieces[i]).0 != m.unk_token;
            &&& m.token2id.contains_key(lower) ==> m.en_tokens(word) == seq![
                (word, m.token2id[lower]),
            ]
            &&& !m.token2id.contains_key(lower) && told ==> m.en_tokens(word) == pieces
            &&& !m.token2id.contains_key(lower) && !told ==> m.en_tokens(word) == m.byte_tokens(
                word,
            )
        },
{
    if forall|i: int| 0 <= i < word.len() ==> lowercase(#[trigger] word[i]) {
        if word.len() > 0 {
            assert(lowercase(word[word.len() - 1]));
            lemma_small_letters_stay(word.last());
        }
        assert(trim_end(word, Trim::Punct) == word);
    }
}

/// A word of code that is no token is as an English word, or in bytes where that gives nothing but
/// the unknown token. A word of a language that makes no run is as an English word.
pub proof fn law_unknown_code<S: Score>(m: Lexicon<S>, word: Seq<char>)
    requires
        !m.token2id.contains_key(word),
    ensures
        m.word_tokens(word, Lang::En) == m.en_tokens(word),
        m.word_tokens(word, Lang::Vi) == m.en_tokens(word),
        (exists|i: int|
            0 <= i < m.en_tokens(word).len() && (#[trigger] m.en_tokens(word)[i]).0 != m.unk_token)
            ==> m.word_tokens(word, Lang::Code) == m.en_tokens(word),
        (forall|i: int|
            0 <= i < m.en_tokens(word).len() ==> (#[trigger] m.en_tokens(word)[i]).0 == m.unk_token)
            ==> m.word_tokens(word, Lang::Code) == m.byte_tokens(word),
{
}

/// The id of a word in its own case, or else in lowercase, given that it has one.
pub open spec fn either_id<S>(m: Lexicon<S>, word: Seq<char>) -> u32 {
    if m.token2id.contains_key(word) {
        m.token2id[word]
    } else {
        m.token2id[str_lower(word)]
    }
}

/// That a word is a token in its own case or in lowercase.
pub open spec fn known_either<S>(m: Lexicon<S>, word: Seq<char>) -> bool {
    m.token2id.contains_key(word) || m.token2id.contains_key(str_lower(word))
}

/// That a word splits after `i` characters into two syllables of at least two bytes each that are
/// tokens.
pub open spec fn two_syllables<S>(m: Lexicon<S>, word: Seq<char>, i: int) -> bool {
    let left = word.subrange(0, i);
    let right = word.subrange(i, word.len() as int);
    &&& encode_utf8(left).len() >= 2 && encode_utf8(right).len() >= 2
    &&& m.vi_syllables.contains(str_lower(left)) && m.vi_syllables.contains(str_lower(right))
    &&& known_either(m, left) && known_either(m, right)
}

/// A word is split at the first place where it gives two syllables that are tokens, and not at all
/// where there is none.
pub proof fn law_split<S: Score>(m: Lexicon<S>, word: Seq<char>, from: int, i: int)
    requires
        1 <= from <= i <= word.len(),
        forall|j: int| from <= j < i ==> !#[trigger] two_syllables(m, word, j),
        i < word.len() ==> two_syllables(m, word, i),
    ensures
        i == word.len() ==> m.split_from(word, from) == Seq::<Spelled>::empty(),
        i < word.len() ==> m.split_from(word, from) == seq![
            (word.subrange(0, i), either_id(m, word.subrange(0, i))),
            (
                word.subrange(i, word.len() as int),
                either_id(m, word.subrange(i, word.len() as int)),
            ),
        ],
    decreases i - from,
{
    if from < word.len() {
        assert(word.take(from) == word.subrange(0, from));
        assert(word.skip(from) == word.subrange(from, word.len() as int));
        assert(m.splits_at(word, from) == two_syllables(m, word, from));
        if from < i {
            assert(!two_syllables(m, word, from));
            law_split(m, word, from + 1, i);
        }
    }
}

/// A Vietnamese word that stands alone has the id of its own or its lowercase form; or of that
/// without the punctuation at its end; or is split; or is in bytes.
pub proof fn law_vietnamese_word<S: Score>(m: Lexicon<S>, word: Seq<char>)
    ensures
        ({
            let bare = trim_end(word, Trim::Punct);
            let bares = 0 < bare.len() < word.len() && known_either(m, bare);
            let split = m.split_from(word, 1);
            let tokens = m.vi_tokens(word);
            &&& known_either(m, word) ==> tokens == seq![(word, either_id(m, word))]
            &&& !known_either(m, word) && bares ==> tokens == seq![(word, either_id(m, bare))]
            &&& !known_either(m, word) && !bares && split.len() > 0 ==> tokens == split
            &&& !known_either(m, word) && !bares && split.len() == 0 ==> tokens == m.byte_tokens(
                word,
            )
        }),
{
}

} // verus!
