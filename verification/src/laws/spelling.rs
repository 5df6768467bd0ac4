//! What the tokens of words say of the words.
use crate::chars::{str_lower, white_space};
use crate::decoder::{
    bytes_text, chain_of, chained, cleaned, decode_parts, spaced_marks, starts_word, Chain, Markers,
    WORD_START,
};
use crate::lang::Lang;
use crate::laws::decoding::{
    cleaned_all, law_bytes_round_trip, law_continuations_fuse, law_plain_tokens_unchanged,
    spelled_in_bytes, unmarked,
};
use crate::laws::segmentation::law_pieces_spell_text;
use crate::lexicon::{placed, some_known, Lexicon, Spelled};
use crate::score::Score;
use crate::segment::{lemma_piece_back, piece_best, piece_path};
use crate::text::{byte_token, concat, lemma_byte_token_round_trip, token_byte};
use crate::token::TokenView;
use crate::words::{
    lemma_concat_add, lemma_concat_push, lemma_encode_add, lemma_words_tile_text, nonempty_words,
    offsets_of, words_of,
};
use vstd::prelude::*;
use vstd::utf8::{encode_utf8, encode_utf8_decode_utf8, encode_utf8_valid_utf8};

verus! {

/// The spellings of tokens.
pub open spec fn spellings(tokens: Seq<Spelled>) -> Seq<Seq<char>> {
    tokens.map_values(|t: Spelled| t.0)
}

/// That the tokens are the word itself.
pub open spec fn is_word(tokens: Seq<Spelled>, word: Seq<char>) -> bool {
    tokens.len() == 1 && tokens[0].0 == word
}

/// That tokens spell a word: as the word itself, as its bytes, or as pieces of its lowercase form
/// with the mark of a word start before it.
pub open spec fn spells<S: Score>(m: Lexicon<S>, tokens: Seq<Spelled>, word: Seq<char>) -> bool {
    ||| is_word(tokens, word)
    ||| tokens == m.byte_tokens(word)
    ||| concat(spellings(tokens)) == seq![WORD_START] + str_lower(word)
}

/// The pieces of a word spell it, unless there is nothing but the unknown token.
proof fn lemma_sp_spells<S: Score>(m: Lexicon<S>, word: Seq<char>)
    requires
        some_known(m.sp_tokens(word), m.unk_token),
    ensures
        concat(spellings(m.sp_tokens(word))) == seq![WORD_START] + word,
{
    let input = seq![WORD_START] + word;
    let n = input.len() as int;
    let tokens = m.sp_tokens(word);
    if m.sp_vocab.contains_key(input) {
        assert(spellings(tokens) == seq![input]);
        lemma_concat_push(Seq::empty(), input);
        assert(Seq::<Seq<char>>::empty().push(input) == seq![input]);
        assert(concat(Seq::empty()) + input == input);
    } else {
        assert(spellings(tokens) == piece_path(m.pieces, input, n));
        law_pieces_spell_text(m.pieces, input, n);
        assert(input.take(n) == input);
    }
}

/// Nothing of a word that is not Vietnamese is lost: its tokens spell it.
pub proof fn law_words_are_spelled_out<S: Score>(m: Lexicon<S>, word: Seq<char>, lang: Lang)
    requires
        lang != Lang::Vi,
    ensures
        spells(m, m.word_tokens(word, lang), word),
{
    let lower = str_lower(word);
    if some_known(m.sp_tokens(lower), m.unk_token) {
        lemma_sp_spells(m, lower);
    }
    assert(spells(m, m.en_tokens(word), word));
    assert(spells(m, m.code_tokens(word), word));
}

/// A number or punctuation comes back from the decoder as it was.
pub proof fn law_known_or_bytes_round_trip<S: Score>(
    markers: Markers,
    m: Lexicon<S>,
    word: Seq<char>,
)
    requires
        word.len() > 0,
        !markers.has(word),
        token_byte(word) is None,
        forall|b: u8| !markers.has(#[trigger] byte_token(b)),
    ensures
        chained(markers, spellings(m.known_or_bytes(word))) == seq![word],
{
    let tokens = spellings(m.known_or_bytes(word));
    if m.id(word) is Some {
        assert(tokens == seq![word]);
        law_plain_tokens_unchanged(markers, tokens);
    } else {
        assert(tokens == spelled_in_bytes(word));
        assert forall|i: int| 0 <= i < tokens.len() implies !markers.has(#[trigger] tokens[i]) by {
            assert(tokens[i] == byte_token(encode_utf8(word)[i]));
        }
        law_bytes_round_trip(markers, word);
    }
}

/// The words of parts, one after the other, are the word of the text that the parts make, where
/// only the first part starts a word.
proof fn lemma_cleaned_concat(parts: Seq<Seq<char>>)
    requires
        parts.len() > 0,
        parts[0].len() > 0,
        forall|i: int| 0 < i < parts.len() ==> !starts_word(#[trigger] parts[i]),
    ensures
        concat(cleaned_all(parts)) == cleaned(concat(parts)),
        concat(parts).len() > 0,
        concat(parts)[0] == parts[0][0],
    decreases parts.len(),
{
    let before = parts.drop_last();
    let last = parts[parts.len() - 1];
    let head = concat(before);
    let words = cleaned_all(before);
    assert(cleaned_all(parts).drop_last() == words);
    assert(cleaned_all(parts).last() == cleaned(last));
    if before.len() == 0 {
        assert(head + last == last);
        assert(concat(words) + cleaned(last) == cleaned(last));
    } else {
        assert(before[0] == parts[0]);
        assert forall|i: int| 0 < i < before.len() implies !starts_word(#[trigger] before[i]) by {
            assert(before[i] == parts[i]);
        }
        lemma_cleaned_concat(before);
        assert((head + last)[0] == head[0]);
        assert((head + last).drop_first() == head.drop_first() + last);
        assert(cleaned(head + last) == cleaned(head) + cleaned(last));
    }
}

/// A text without marks is its own word.
proof fn lemma_unmarked_is_clean(s: Seq<char>)
    requires
        unmarked(s),
    ensures
        spaced_marks(s) == s,
{
}

/// The characters of a part stand in the text that the parts make, after those of the parts before
/// it.
proof fn lemma_part_in_text(parts: Seq<Seq<char>>, i: int, k: int)
    requires
        0 <= i < parts.len(),
        0 <= k < parts[i].len(),
    ensures
        concat(parts.take(i)).len() + k < concat(parts).len(),
        concat(parts)[concat(parts.take(i)).len() + k] == parts[i][k],
{
    let head = parts.take(i);
    let tail = parts.skip(i + 1);
    assert(head.push(parts[i]) + tail == parts);
    lemma_concat_add(head.push(parts[i]), tail);
    lemma_concat_push(head, parts[i]);
}

/// The pieces of a word are not empty, and there is at least one.
proof fn lemma_pieces_nonempty<S: Score>(
    pieces: Map<Seq<char>, S>,
    input: Seq<char>,
    end: int,
)
    requires
        0 <= end <= input.len(),
    ensures
        nonempty_words(piece_path(pieces, input, end)),
        end > 0 ==> piece_path(pieces, input, end).len() > 0,
    decreases end,
{
    if end > 0 {
        lemma_piece_back(pieces, input, end, end);
        let back = piece_best(pieces, input, end).back;
        lemma_pieces_nonempty(pieces, input, back);
    }
}

/// An English word comes back from the decoder out of its pieces.
pub proof fn law_pieces_round_trip<S: Score>(markers: Markers, m: Lexicon<S>, word: Seq<char>)
    requires
        some_known(m.sp_tokens(word), m.unk_token),
        unmarked(word),
        word.len() > 0 ==> !white_space(word[0]),
        forall|i: int|
            0 <= i < m.sp_tokens(word).len() ==> !markers.has((#[trigger] m.sp_tokens(word)[i]).0)
                && token_byte(m.sp_tokens(word)[i].0) is None,
    ensures
        decode_parts(markers, chained(markers, spellings(m.sp_tokens(word)))).text == word,
{
    let input = seq![WORD_START] + word;
    let n = input.len() as int;
    let tokens = m.sp_tokens(word);
    let parts = spellings(tokens);
    lemma_sp_spells(m, word);
    lemma_pieces_nonempty(m.pieces, input, n);
    assert(parts.len() > 0 && nonempty_words(parts)) by {
        if !m.sp_vocab.contains_key(input) {
            assert(parts == piece_path(m.pieces, input, n));
        }
    }
    assert forall|i: int| 0 <= i < parts.len() implies !markers.has(#[trigger] parts[i])
        && token_byte(parts[i]) is None && (i > 0 ==> !starts_word(parts[i])) by {
        assert(parts[i] == tokens[i].0);
        if i > 0 {
            lemma_part_in_text(parts, i, 0);
            lemma_part_in_text(parts.take(i), 0, 0);
            assert(parts.take(i)[0] == parts[0]);
            let at = concat(parts.take(i)).len() as int;
            assert(at > 0);
            assert(input[at] == word[at - 1]);
        }
    }
    law_plain_tokens_unchanged(markers, parts);
    lemma_part_in_text(parts, 0, 0);
    assert(parts.take(0) == Seq::<Seq<char>>::empty());
    lemma_cleaned_concat(parts);
    lemma_unmarked_is_clean(word);
    assert(input.drop_first() == word);
    law_continuations_fuse(markers, parts);
}

/// That a word is one that the decoder gives back: not Vietnamese, neither a marker nor of the form
/// of a byte token, and not broken into pieces.
pub open spec fn kept<S: Score>(markers: Markers, m: Lexicon<S>, word: Seq<char>) -> bool {
    let lang = m.lang(word);
    let tokens = m.word_tokens(word, lang);
    &&& lang != Lang::Vi
    &&& !markers.has(word)
    &&& token_byte(word) is None
    &&& is_word(tokens, word) || tokens == m.byte_tokens(word)
}

/// The spellings of placed tokens.
pub open spec fn values(tokens: Seq<TokenView>) -> Seq<Seq<char>> {
    tokens.map_values(|t: TokenView| t.value)
}

/// That a chain holds a text: its parts, and then a text whose bytes wait.
spec fn holds(chain: Chain, text: Seq<char>, rest: Seq<char>) -> bool {
    &&& chain.pending == encode_utf8(rest)
    &&& concat(chain.parts) + rest == text
}

/// Bytes of a text that wait stand for it.
proof fn lemma_pending_text(rest: Seq<char>)
    ensures
        bytes_text(encode_utf8(rest)) == rest,
        encode_utf8(rest).len() == 0 <==> rest.len() == 0,
{
    encode_utf8_valid_utf8(rest);
    encode_utf8_decode_utf8(rest);
    if rest.len() > 0 {
        assert(vstd::utf8::encode_scalar(rest[0] as u32).len() > 0);
    }
}

/// The bytes of a word, one after the other, are added to those that wait.
proof fn lemma_chain_bytes(markers: Markers, head: Seq<Seq<char>>, bytes: Seq<u8>)
    requires
        forall|b: u8| !markers.has(#[trigger] byte_token(b)),
    ensures
        ({
            let before = chain_of(markers, head);
            chain_of(markers, head + bytes.map_values(|b: u8| byte_token(b))) == (Chain {
                parts: before.parts,
                pending: before.pending + bytes,
                marked: before.marked,
            })
        }),
    decreases bytes.len(),
{
    let tokens = bytes.map_values(|b: u8| byte_token(b));
    let before = chain_of(markers, head);
    if bytes.len() == 0 {
        assert(head + tokens == head);
        assert(before.pending + bytes == before.pending);
    } else {
        let fewer = bytes.drop_last();
        lemma_chain_bytes(markers, head, fewer);
        assert((head + tokens).drop_last() == head + fewer.map_values(|b: u8| byte_token(b)));
        assert((head + tokens).last() == byte_token(bytes.last()));
        lemma_byte_token_round_trip(bytes.last());
        assert((before.pending + fewer).push(bytes.last()) == before.pending + bytes);
    }
}

/// A kept word adds itself to the text that a chain holds.
proof fn lemma_chain_word<S: Score>(
    markers: Markers,
    m: Lexicon<S>,
    head: Seq<Seq<char>>,
    text: Seq<char>,
    rest: Seq<char>,
    word: Seq<char>,
) -> (next: Seq<char>)
    requires
        forall|b: u8| !markers.has(#[trigger] byte_token(b)),
        kept(markers, m, word),
        holds(chain_of(markers, head), text, rest),
    ensures
        holds(
            chain_of(markers, head + spellings(m.word_tokens(word, m.lang(word)))),
            text + word,
            next,
        ),
{
    let tokens = m.word_tokens(word, m.lang(word));
    let before = chain_of(markers, head);
    if is_word(tokens, word) {
        let all = head + spellings(tokens);
        assert(all.drop_last() == head);
        assert(all.last() == word);
        lemma_pending_text(rest);
        lemma_concat_push(before.parts, word);
        lemma_concat_push(before.parts, rest + word);
        if rest.len() == 0 {
            assert(concat(before.parts) + rest == concat(before.parts));
        }
        assert(concat(before.parts) + (rest + word) == text + word);
        assert(chain_of(markers, all).parts == before.parts.push(rest + word)) by {
            if rest.len() == 0 {
                assert(rest + word == word);
            }
        }
        let none = Seq::<char>::empty();
        assert(text + word + none == text + word);
        none
    } else {
        let bytes = encode_utf8(word);
        assert(spellings(tokens) == bytes.map_values(|b: u8| byte_token(b)));
        lemma_chain_bytes(markers, head, bytes);
        lemma_encode_add(rest, word);
        assert(concat(before.parts) + (rest + word) == text + word);
        rest + word
    }
}

/// The words of a text up to the word `i` are in the chain of their tokens.
proof fn lemma_chain_text<S: Score>(
    markers: Markers,
    m: Lexicon<S>,
    words: Seq<Seq<char>>,
    offsets: Seq<(usize, usize)>,
    i: int,
    before: Option<Lang>,
    head: Seq<Seq<char>>,
    rest: Seq<char>,
) -> (next: Seq<char>)
    requires
        forall|b: u8| !markers.has(#[trigger] byte_token(b)),
        forall|j: int| 0 <= j < words.len() ==> kept(markers, m, #[trigger] words[j]),
        0 <= i <= words.len(),
        before != Some(Lang::Vi),
        holds(chain_of(markers, head), concat(words.take(i)), rest),
    ensures
        holds(
            chain_of(markers, head + values(m.tokens_from(words, offsets, i, before))),
            concat(words),
            next,
        ),
    decreases words.len() - i,
{
    if i == words.len() {
        assert(words.take(i) == words);
        assert(head + values(m.tokens_from(words, offsets, i, before)) == head);
        rest
    } else {
        let word = words[i];
        let lang = m.lang(word);
        let here = spellings(m.word_tokens(word, lang));
        let after = if lang == Lang::Punct {
            before
        } else {
            Some(lang)
        };
        let more = m.tokens_from(words, offsets, i + 1, after);
        assert(kept(markers, m, words[i]));
        let mid = lemma_chain_word(markers, m, head, concat(words.take(i)), rest, word);
        assert(words.take(i + 1) == words.take(i).push(word));
        lemma_concat_push(words.take(i), word);
        let next = lemma_chain_text(markers, m, words, offsets, i + 1, after, head + here, mid);
        let placed_here = placed(m.word_tokens(word, lang), offsets[i]);
        assert(m.switch(before, lang) == Seq::<Spelled>::empty());
        assert(placed(m.switch(before, lang), offsets[i]) == Seq::<TokenView>::empty());
        assert(Seq::<TokenView>::empty() + placed_here == placed_here);
        assert(m.tokens_from(words, offsets, i, before) == placed_here + more);
        assert(values(placed_here) == here);
        assert(head + values(placed_here + more) == head + here + values(more));
        next
    }
}

/// No character is dropped: what the tokens of a text of kept words decode to, part by part, is the
/// text.
pub proof fn law_text_round_trip<S: Score>(markers: Markers, m: Lexicon<S>, text: Seq<char>)
    requires
        forall|b: u8| !markers.has(#[trigger] byte_token(b)),
        forall|j: int|
            0 <= j < words_of(text).len() ==> kept(markers, m, #[trigger] words_of(text)[j]),
    ensures
        concat(chained(markers, values(m.tokens(text)))) == text,
{
    let words = words_of(text);
    let offsets = offsets_of(words);
    let none = Seq::<Seq<char>>::empty();
    let nothing = Seq::<char>::empty();
    lemma_words_tile_text(text);
    assert(words.take(0) == none);
    assert(holds(chain_of(markers, none), concat(words.take(0)), nothing)) by {
        assert(encode_utf8(nothing) == Seq::<u8>::empty());
        assert(concat(none) + nothing == concat(none));
    }
    let rest = lemma_chain_text(markers, m, words, offsets, 0, None, none, nothing);
    let tokens = values(m.tokens(text));
    assert(none + tokens == tokens);
    let chain = chain_of(markers, tokens);
    lemma_pending_text(rest);
    if rest.len() == 0 {
        assert(concat(chain.parts) + rest == concat(chain.parts));
    } else if chain.parts.len() == 0 || chain.marked {
        lemma_concat_push(chain.parts, rest);
    } else {
        let last = chain.parts.last();
        lemma_concat_push(chain.parts.drop_last(), last + rest);
        assert(concat(chain.parts.drop_last()) + (last + rest) == concat(chain.parts.drop_last())
            + last + rest);
    }
}

// Language

/// The tokens of punctuation from the word `i` up to the word `k`.
pub open spec fn punctuation_tokens<S: Score>(
    m: Lexicon<S>,
    words: Seq<Seq<char>>,
    offsets: Seq<(usize, usize)>,
    i: int,
    k: int,
) -> Seq<TokenView>
    decreases k - i,
{
    if i >= k {
        Seq::empty()
    } else {
        placed(m.known_or_bytes(words[i]), offsets[i]) + punctuation_tokens(
            m,
            words,
            offsets,
            i + 1,
            k,
        )
    }
}

/// Punctuation leaves the language as it is: what follows it is tokenized as if it were not there.
pub proof fn law_punctuation_keeps_language<S: Score>(
    m: Lexicon<S>,
    words: Seq<Seq<char>>,
    offsets: Seq<(usize, usize)>,
    i: int,
    k: int,
    before: Option<Lang>,
)
    requires
        0 <= i <= k <= words.len(),
        forall|j: int| i <= j < k ==> m.lang(#[trigger] words[j]) == Lang::Punct,
    ensures
        m.tokens_from(words, offsets, i, before) == punctuation_tokens(m, words, offsets, i, k)
            + m.tokens_from(words, offsets, k, before),
    decreases k - i,
{
    let rest = m.tokens_from(words, offsets, k, before);
    if i < k {
        assert(m.lang(words[i]) == Lang::Punct);
        law_punctuation_keeps_language(m, words, offsets, i + 1, k, before);
        let here = placed(m.known_or_bytes(words[i]), offsets[i]);
        let more = punctuation_tokens(m, words, offsets, i + 1, k);
        assert(here + (more + rest) == here + more + rest);
    } else {
        assert(punctuation_tokens(m, words, offsets, i, k) + rest == rest);
    }
}

/// A switch from Vietnamese to English, or back, is marked at the first word after it, where the
/// marker is a token.
pub proof fn law_switch_is_marked<S: Score>(
    m: Lexicon<S>,
    words: Seq<Seq<char>>,
    offsets: Seq<(usize, usize)>,
    i: int,
    to_english: bool,
)
    requires
        0 <= i < words.len(),
        m.lang(words[i]) == (if to_english {
            Lang::En
        } else {
            Lang::Vi
        }),
        m.id(if to_english {
            m.cs_vi_en
        } else {
            m.cs_en_vi
        }) is Some,
    ensures
        ({
            let before = if to_english {
                Lang::Vi
            } else {
                Lang::En
            };
            let marker = if to_english {
                m.cs_vi_en
            } else {
                m.cs_en_vi
            };
            let tokens = m.tokens_from(words, offsets, i, Some(before));
            tokens.len() > 0 && tokens[0] == (TokenView {
                id: m.id(marker)->0,
                value: marker,
                offsets: offsets[i],
            })
        }),
{
    m.lemma_run_end(words, i + 1);
}

/// There is no marker between any other languages.
pub proof fn law_no_other_markers<S: Score>(m: Lexicon<S>, before: Option<Lang>, lang: Lang)
    requires
        !(before == Some(Lang::Vi) && lang == Lang::En),
        !(before == Some(Lang::En) && lang == Lang::Vi),
    ensures
        m.switch(before, lang) == Seq::<Spelled>::empty(),
{
}

} // verus!
