//! What holds of every decoding.
use crate::chars::white_space;
use crate::decoder::{
    bytes_text, chain_of, chained, cleaned, decode_parts, hugs_left, hugs_right, spaced,
    starts_word, Chain, Markers, WORD_START,
};
use crate::text::{
    byte_token, concat, join, lemma_byte_token_round_trip, token_byte, trim_start, trims, Trim,
};
use vstd::prelude::*;
use vstd::utf8::{encode_utf8, encode_utf8_decode_utf8, encode_utf8_valid_utf8};

verus! {

/// The byte tokens that spell a text.
pub open spec fn spelled_in_bytes(text: Seq<char>) -> Seq<Seq<char>> {
    encode_utf8(text).map_values(|b: u8| byte_token(b))
}

/// Tokens that stand for no byte come out as they went in, and so do markers.
pub proof fn law_plain_tokens_unchanged(m: Markers, tokens: Seq<Seq<char>>)
    requires
        forall|i: int|
            0 <= i < tokens.len() ==> m.has(#[trigger] tokens[i]) || token_byte(tokens[i]) is None,
    ensures
        chained(m, tokens) == tokens,
{
    lemma_plain_chain(m, tokens);
}

/// The chain of tokens that stand for no byte.
proof fn lemma_plain_chain(m: Markers, tokens: Seq<Seq<char>>)
    requires
        forall|i: int|
            0 <= i < tokens.len() ==> m.has(#[trigger] tokens[i]) || token_byte(tokens[i]) is None,
    ensures
        chain_of(m, tokens).parts == tokens,
        chain_of(m, tokens).pending == Seq::<u8>::empty(),
    decreases tokens.len(),
{
    if tokens.len() == 0 {
        assert(tokens == Seq::<Seq<char>>::empty());
    } else {
        let before = tokens.drop_last();
        assert forall|i: int| 0 <= i < before.len() implies m.has(#[trigger] before[i])
            || token_byte(before[i]) is None by {
            assert(before[i] == tokens[i]);
        }
        lemma_plain_chain(m, before);
        assert(tokens[tokens.len() - 1] == tokens.last());
        assert(before.push(tokens.last()) == tokens);
    }
}

/// The bytes of a text wait until something follows them.
proof fn lemma_bytes_wait(m: Markers, bytes: Seq<u8>)
    requires
        forall|i: int| 0 <= i < bytes.len() ==> !m.has(byte_token(#[trigger] bytes[i])),
    ensures
        chain_of(m, bytes.map_values(|b: u8| byte_token(b))) == (Chain {
            parts: Seq::<Seq<char>>::empty(),
            pending: bytes,
            marked: false,
        }),
    decreases bytes.len(),
{
    let tokens = bytes.map_values(|b: u8| byte_token(b));
    if bytes.len() == 0 {
        assert(bytes == Seq::<u8>::empty());
    } else {
        let before = bytes.drop_last();
        assert forall|i: int| 0 <= i < before.len() implies !m.has(
            byte_token(#[trigger] before[i]),
        ) by {
            assert(before[i] == bytes[i]);
        }
        lemma_bytes_wait(m, before);
        assert(tokens.drop_last() == before.map_values(|b: u8| byte_token(b)));
        assert(bytes[bytes.len() - 1] == bytes.last());
        lemma_byte_token_round_trip(bytes.last());
        assert(before.push(bytes.last()) == bytes);
    }
}

/// A text spelled in byte tokens comes back whole, as one part.
pub proof fn law_bytes_round_trip(m: Markers, text: Seq<char>)
    requires
        text.len() > 0,
        forall|i: int|
            0 <= i < spelled_in_bytes(text).len() ==> !m.has(#[trigger] spelled_in_bytes(text)[i]),
    ensures
        chained(m, spelled_in_bytes(text)) == seq![text],
{
    let bytes = encode_utf8(text);
    assert forall|i: int| 0 <= i < bytes.len() implies !m.has(byte_token(#[trigger] bytes[i])) by {
        assert(spelled_in_bytes(text)[i] == byte_token(bytes[i]));
    }
    lemma_bytes_wait(m, bytes);
    encode_utf8_valid_utf8(text);
    encode_utf8_decode_utf8(text);
    assert(Seq::<Seq<char>>::empty().push(text) == seq![text]);
}

/// A text spelled in byte tokens joins the plain token after it.
pub proof fn law_bytes_join_next_token(m: Markers, text: Seq<char>, token: Seq<char>)
    requires
        text.len() > 0,
        forall|i: int|
            0 <= i < spelled_in_bytes(text).len() ==> !m.has(#[trigger] spelled_in_bytes(text)[i]),
        !m.has(token),
        token_byte(token) is None,
    ensures
        chained(m, spelled_in_bytes(text).push(token)) == seq![text + token],
{
    let bytes = encode_utf8(text);
    assert forall|i: int| 0 <= i < bytes.len() implies !m.has(byte_token(#[trigger] bytes[i])) by {
        assert(spelled_in_bytes(text)[i] == byte_token(bytes[i]));
    }
    lemma_bytes_wait(m, bytes);
    encode_utf8_valid_utf8(text);
    encode_utf8_decode_utf8(text);
    assert(spelled_in_bytes(text).push(token).drop_last() == spelled_in_bytes(text));
    assert(Seq::<Seq<char>>::empty().push(text + token) == seq![text + token]);
}

/// The parts of tokens that a marker follows.
pub open spec fn before_marker(m: Markers, tokens: Seq<Seq<char>>) -> Seq<Seq<char>> {
    let chain = chain_of(m, tokens);
    if chain.pending.len() == 0 {
        chain.parts
    } else {
        chain.parts.push(bytes_text(chain.pending))
    }
}

/// A chain goes on after a marker as it would from the start.
proof fn lemma_chain_after_marker(
    m: Markers,
    a: Seq<Seq<char>>,
    marker: Seq<char>,
    b: Seq<Seq<char>>,
)
    requires
        m.has(marker),
    ensures
        chain_of(m, a.push(marker) + b).parts == before_marker(m, a).push(marker) + chain_of(
            m,
            b,
        ).parts,
        chain_of(m, a.push(marker) + b).pending == chain_of(m, b).pending,
        chain_of(m, a.push(marker) + b).marked == (chain_of(m, b).marked || chain_of(
            m,
            b,
        ).parts.len() == 0),
    decreases b.len(),
{
    let head = before_marker(m, a).push(marker);
    if b.len() == 0 {
        assert(a.push(marker) + b == a.push(marker));
        assert(a.push(marker).drop_last() == a);
        assert(head + Seq::<Seq<char>>::empty() == head);
    } else {
        let all = a.push(marker) + b;
        lemma_chain_after_marker(m, a, marker, b.drop_last());
        assert(all.drop_last() == a.push(marker) + b.drop_last());
        assert(all.last() == b.last());
        let rest = chain_of(m, b.drop_last());
        let token = b.last();
        let text = bytes_text(rest.pending);
        assert((head + rest.parts).push(token) == head + rest.parts.push(token));
        assert((head + rest.parts).push(text).push(token) == head + rest.parts.push(text).push(
            token,
        ));
        assert((head + rest.parts).push(text + token) == head + rest.parts.push(text + token));
    }
}

/// A marker comes out intact, and what stands before it and after it is decoded on its own.
pub proof fn law_marker_stays_intact(
    m: Markers,
    a: Seq<Seq<char>>,
    marker: Seq<char>,
    b: Seq<Seq<char>>,
)
    requires
        m.has(marker),
    ensures
        chained(m, a.push(marker) + b) == before_marker(m, a).push(marker) + chained(m, b),
{
    lemma_chain_after_marker(m, a, marker, b);
    let head = before_marker(m, a).push(marker);
    let rest = chain_of(m, b);
    let text = bytes_text(rest.pending);
    let all = head + rest.parts;
    if rest.parts.len() == 0 {
        assert(all == head);
        assert(all.last() == marker);
        assert(head.push(text) == head + rest.parts.push(text));
        assert(head + rest.parts == head);
    } else {
        assert(all.last() == rest.parts.last());
        assert(all.push(text) == head + rest.parts.push(text));
        assert(all.drop_last().push(all.last() + text) == head + rest.parts.drop_last().push(
            rest.parts.last() + text,
        ));
    }
}

/// A marker leaves no text. It sets the region: English after one marker, Vietnamese after the
/// other.
pub proof fn law_marker_leaves_no_text(m: Markers, parts: Seq<Seq<char>>, marker: Seq<char>)
    requires
        m.has(marker),
    ensures
        decode_parts(m, parts.push(marker)).text == decode_parts(m, parts).text,
        decode_parts(m, parts.push(marker)).english == (marker == m.vi_en),
{
    assert(parts.push(marker).drop_last() == parts);
}

/// That a text holds neither a word-start mark nor an underscore.
pub open spec fn unmarked(text: Seq<char>) -> bool {
    forall|i: int| 0 <= i < text.len() ==> #[trigger] text[i] != WORD_START && text[i] != '_'
}

/// A word holds neither a word-start mark nor an underscore.
proof fn lemma_cleaned_unmarked(part: Seq<char>)
    ensures
        unmarked(cleaned(part)),
{
}

/// What is left of a text after a trim is its end.
proof fn lemma_trim_start(s: Seq<char>, trim: Trim)
    ensures
        trim_start(s, trim).len() <= s.len(),
        trim_start(s, trim) == s.skip(s.len() - trim_start(s, trim).len()),
    decreases s.len(),
{
    if s.len() > 0 && trims(trim, s[0]) {
        lemma_trim_start(s.drop_first(), trim);
        let rest = trim_start(s.drop_first(), trim);
        assert(s.drop_first().skip(s.drop_first().len() - rest.len()) == s.skip(
            s.len() - rest.len(),
        ));
    } else {
        assert(s.skip(0) == s);
    }
}

/// No word-start mark and no underscore is left in a decoded text.
pub proof fn law_no_marks_left(m: Markers, parts: Seq<Seq<char>>)
    ensures
        unmarked(decode_parts(m, parts).text),
    decreases parts.len(),
{
    if parts.len() > 0 {
        law_no_marks_left(m, parts.drop_last());
        let text = decode_parts(m, parts.drop_last()).text;
        let word = cleaned(parts.last());
        lemma_cleaned_unmarked(parts.last());
        lemma_trim_start(word, Trim::Space);
        assert(unmarked(trim_start(word, Trim::Space)));
        assert(unmarked(text + word));
        assert(unmarked(text.push(' ') + word));
    }
}

/// A decoded text does not start with white space.
pub proof fn law_no_leading_space(m: Markers, parts: Seq<Seq<char>>)
    ensures
        decode_parts(m, parts).text.len() > 0 ==> !white_space(decode_parts(m, parts).text[0]),
    decreases parts.len(),
{
    if parts.len() > 0 {
        law_no_leading_space(m, parts.drop_last());
        let text = decode_parts(m, parts.drop_last()).text;
        let word = cleaned(parts.last());
        lemma_trimmed_head(word);
        if text.len() > 0 {
            assert((text + word)[0] == text[0]);
            assert((text.push(' ') + word)[0] == text[0]);
        }
    }
}

/// A trimmed text does not start with what the trim takes away.
proof fn lemma_trimmed_head(s: Seq<char>)
    ensures
        trim_start(s, Trim::Space).len() > 0 ==> !white_space(trim_start(s, Trim::Space)[0]),
    decreases s.len(),
{
    if s.len() > 0 && white_space(s[0]) {
        lemma_trimmed_head(s.drop_first());
    }
}

/// That a part is an ordinary word: no marker, and no punctuation or white space at either end of
/// its text.
pub open spec fn ordinary_word(m: Markers, part: Seq<char>) -> bool {
    let word = cleaned(part);
    &&& !m.has(part)
    &&& word.len() > 0
    &&& !white_space(word[0])
    &&& !hugs_left(word[0])
    &&& !hugs_right(word.last())
}

/// The words of the parts.
pub open spec fn cleaned_all(parts: Seq<Seq<char>>) -> Seq<Seq<char>> {
    parts.map_values(|p: Seq<char>| cleaned(p))
}

/// Ordinary words come out with one space between them, in Vietnamese, where no part starts an
/// English word, and in English, where every part does.
pub proof fn law_words_are_spaced(m: Markers, parts: Seq<Seq<char>>, english: bool)
    requires
        forall|i: int|
            0 <= i < parts.len() ==> ordinary_word(m, #[trigger] parts[i]) && starts_word(parts[i])
                == english,
    ensures
        decode_parts(m, parts).text == join(cleaned_all(parts), ' '),
{
    lemma_words_are_spaced(m, parts, english);
}

/// The text and the region after ordinary words.
proof fn lemma_words_are_spaced(m: Markers, parts: Seq<Seq<char>>, english: bool)
    requires
        forall|i: int|
            0 <= i < parts.len() ==> ordinary_word(m, #[trigger] parts[i]) && starts_word(parts[i])
                == english,
    ensures
        decode_parts(m, parts).text == join(cleaned_all(parts), ' '),
        parts.len() > 0 ==> decode_parts(m, parts).english == english,
        parts.len() > 0 ==> decode_parts(m, parts).text.len() > 0 && !hugs_right(
            decode_parts(m, parts).text.last(),
        ),
    decreases parts.len(),
{
    if parts.len() > 0 {
        let before = parts.drop_last();
        let part = parts[parts.len() - 1];
        let word = cleaned(part);
        assert forall|i: int| 0 <= i < before.len() implies ordinary_word(m, #[trigger] before[i])
            && starts_word(before[i]) == english by {
            assert(before[i] == parts[i]);
        }
        lemma_words_are_spaced(m, before, english);
        assert(cleaned_all(parts).drop_last() == cleaned_all(before));
        assert(cleaned_all(parts).last() == word);
        if before.len() == 0 {
            assert(decode_parts(m, before).text.len() == 0);
            assert(trim_start(word, Trim::Space) == word);
        } else {
            let text = decode_parts(m, before).text;
            assert(spaced(text, word) == text.push(' ') + word);
            assert((text.push(' ') + word).last() == word.last());
        }
    }
}

/// A bare word-start mark opens a word: it adds no text itself, and the first text after it is set
/// off as a word of its own, whether or not that starts a word.
pub proof fn law_bare_mark_opens_word(m: Markers, parts: Seq<Seq<char>>, part: Seq<char>)
    requires
        !m.has(seq![WORD_START]),
        !m.has(part),
        decode_parts(m, parts).text.len() > 0,
    ensures
        decode_parts(m, parts.push(seq![WORD_START])).text == decode_parts(m, parts).text,
        decode_parts(m, parts.push(seq![WORD_START]).push(part)).text == spaced(
            decode_parts(m, parts).text,
            cleaned(part),
        ),
{
    let mark = seq![WORD_START];
    assert(parts.push(mark).drop_last() == parts);
    assert(parts.push(mark).push(part).drop_last() == parts.push(mark));
    assert(cleaned(mark) == Seq::<char>::empty());
    let opened = decode_parts(m, parts.push(mark));
    assert(opened.english && opened.opened);
}

/// In an English word, parts that start no word continue it without a space.
pub proof fn law_continuations_fuse(m: Markers, parts: Seq<Seq<char>>)
    requires
        parts.len() > 0,
        starts_word(parts[0]),
        forall|i: int|
            0 <= i < parts.len() ==> !m.has(#[trigger] parts[i]) && (i > 0 ==> !starts_word(
                parts[i],
            )),
        concat(cleaned_all(parts)).len() > 0 ==> !white_space(concat(cleaned_all(parts))[0]),
    ensures
        decode_parts(m, parts).text == concat(cleaned_all(parts)),
        decode_parts(m, parts).english,
        decode_parts(m, parts).text.len() > 0 ==> !decode_parts(m, parts).opened,
    decreases parts.len(),
{
    let before = parts.drop_last();
    let part = parts[parts.len() - 1];
    let word = cleaned(part);
    let head = concat(cleaned_all(before));
    assert(cleaned_all(parts).drop_last() == cleaned_all(before));
    assert(cleaned_all(parts).last() == word);
    if head.len() > 0 {
        assert((head + word)[0] == head[0]);
    } else {
        assert(head + word == word);
        assert(trim_start(word, Trim::Space) == word);
    }
    if before.len() == 0 {
        assert(decode_parts(m, before).text.len() == 0);
    } else {
        assert(before[0] == parts[0]);
        assert forall|i: int| 0 <= i < before.len() implies !m.has(#[trigger] before[i]) && (i > 0
            ==> !starts_word(before[i])) by {
            assert(before[i] == parts[i]);
        }
        law_continuations_fuse(m, before);
    }
}

} // verus!
