//! How decoded words are spaced.
use crate::chars::{alphanumeric, white_space};
use crate::decoder::{
    chained, cleaned, decode_parts, hugs_left, hugs_right, spaced, starts_word, Decoded, Markers,
};
use crate::laws::decoding::{
    cleaned_all, law_plain_tokens_unchanged, law_words_are_spaced, ordinary_word,
};
use crate::laws::language::one_of;
use crate::text::{join, token_byte, trim_start, Trim};
use vstd::prelude::*;

verus! {

/// A word follows a text without a space where it starts with one of `.,!?;:%)]}"'` or the text
/// ends with one of `([{`, and else with one.
pub proof fn law_space_between(text: Seq<char>, word: Seq<char>)
    requires
        text.len() > 0,
    ensures
        word.len() == 0 ==> spaced(text, word) == text,
        word.len() > 0 && (one_of(word[0], ".,!?;:%)]}\"'"@) || one_of(text.last(), "([{"@))
            ==> spaced(text, word) == text + word,
        word.len() > 0 && !one_of(word[0], ".,!?;:%)]}\"'"@) && !one_of(text.last(), "([{"@)
            ==> spaced(text, word) == text + seq![' '] + word,
{
    reveal_strlit(".,!?;:%)]}\"'");
    reveal_strlit("([{");
    let closing = ".,!?;:%)]}\"'"@;
    let opening = "([{"@;
    assert(text.push(' ') == text + seq![' ']);
    if word.len() > 0 {
        let c = word[0];
        let d = text.last();
        assert(closing[0] == '.' && closing[1] == ',' && closing[2] == '!' && closing[3] == '?'
            && closing[4] == ';' && closing[5] == ':' && closing[6] == '%' && closing[7] == ')'
            && closing[8] == ']' && closing[9] == '}' && closing[10] == '"' && closing[11] == '\'');
        assert(opening[0] == '(' && opening[1] == '[' && opening[2] == '{');
        assert(hugs_left(c) == one_of(c, closing));
        assert(hugs_right(d) == one_of(d, opening));
    }
}

/// No letter and no digit hugs what stands beside it.
proof fn lemma_letters_do_not_hug(c: char)
    requires
        alphanumeric(c),
    ensures
        !one_of(c, ".,!?;:%)]}\"'"@),
        !one_of(c, "([{"@),
{
    reveal_strlit(".,!?;:%)]}\"'");
    reveal_strlit("([{");
}

/// Between a letter or digit at the end of a text and one at the start of a word there is exactly
/// one space.
pub proof fn law_letters_are_spaced(text: Seq<char>, word: Seq<char>)
    requires
        text.len() > 0,
        word.len() > 0,
        alphanumeric(text.last()),
        alphanumeric(word[0]),
    ensures
        spaced(text, word) == text + seq![' '] + word,
{
    lemma_letters_do_not_hug(text.last());
    lemma_letters_do_not_hug(word[0]);
    law_space_between(text, word);
}

/// In a Vietnamese region a word that starts with a letter or a digit comes one space after a text
/// that ends with one.
pub proof fn law_vietnamese_words_are_spaced(m: Markers, parts: Seq<Seq<char>>, part: Seq<char>)
    requires
        !decode_parts(m, parts).english,
        decode_parts(m, parts).text.len() > 0,
        alphanumeric(decode_parts(m, parts).text.last()),
        !m.has(part),
        cleaned(part).len() > 0,
        alphanumeric(cleaned(part)[0]),
    ensures
        decode_parts(m, parts.push(part)).text == decode_parts(m, parts).text + seq![' '] + cleaned(
            part,
        ),
{
    law_decode_more(m, parts, part);
    law_letters_are_spaced(decode_parts(m, parts).text, cleaned(part));
}

/// A text of Vietnamese tokens, each with a letter or a digit at both ends, is their words with one
/// space between neighbours.
pub proof fn law_vietnamese_text(m: Markers, tokens: Seq<Seq<char>>)
    requires
        forall|i: int|
            0 <= i < tokens.len() ==> {
                let t = #[trigger] tokens[i];
                &&& !m.has(t)
                &&& token_byte(t) is None
                &&& t.len() > 0 && t[0] != '\u{2581}' && t[0] != '_'
                &&& alphanumeric(t[0]) && !white_space(t[0])
                &&& alphanumeric(cleaned(t).last())
            },
    ensures
        decode_parts(m, chained(m, tokens)).text == join(cleaned_all(tokens), ' '),
{
    law_plain_tokens_unchanged(m, tokens);
    reveal_strlit(".,!?;:%)]}\"'");
    reveal_strlit("([{");
    assert forall|i: int| 0 <= i < tokens.len() implies ordinary_word(m, #[trigger] tokens[i])
        && starts_word(tokens[i]) == false by {
        let t = tokens[i];
        assert(cleaned(t)[0] == t[0]);
    }
    law_words_are_spaced(m, tokens, false);
}

/// In an English region a part that opens no word follows the text at once, unless a bare mark
/// opened the word that it begins.
pub proof fn law_english_parts_continue(m: Markers, parts: Seq<Seq<char>>, part: Seq<char>)
    requires
        decode_parts(m, parts).english,
        !decode_parts(m, parts).opened,
        decode_parts(m, parts).text.len() > 0,
        !m.has(part),
        part.len() == 0 || part[0] != '\u{2581}',
    ensures
        decode_parts(m, parts.push(part)).text == decode_parts(m, parts).text + cleaned(part),
{
    law_decode_more(m, parts, part);
}

/// What one more part adds to a decoded text. A marker adds nothing and sets the region. The first
/// text loses its leading white space. Later ones follow at once where they continue an English
/// word, and else spaced.
pub proof fn law_decode_more(m: Markers, parts: Seq<Seq<char>>, part: Seq<char>)
    ensures
        ({
            let was = decode_parts(m, parts);
            let is = decode_parts(m, parts.push(part));
            let word = cleaned(part);
            let opens = part.len() > 0 && part[0] == '\u{2581}';
            &&& m.has(part) ==> is.text == was.text && is.opened == was.opened && (is.english
                <==> part == m.vi_en)
            &&& !m.has(part) ==> {
                &&& is.english <==> was.english || opens
                &&& is.opened <==> word.len() == 0 && (was.opened || opens)
                &&& was.text.len() == 0 ==> is.text == trim_start(word, Trim::Space)
                &&& was.text.len() > 0 && was.english && !opens && !was.opened ==> is.text
                    == was.text + word
                &&& was.text.len() > 0 && (!was.english || opens || was.opened) ==> is.text
                    == spaced(was.text, word)
            }
        }),
{
    assert(parts.push(part).drop_last() == parts);
}

/// Nothing decodes to nothing, in Vietnamese.
pub proof fn law_decode_nothing(m: Markers)
    ensures
        decode_parts(m, Seq::empty()) == (Decoded {
            text: Seq::empty(),
            english: false,
            opened: false,
        }),
{
}

/// The word of a part is the part without a word-start mark at its start, with a space for each
/// other mark and each underscore, and every other character as it is.
pub proof fn law_word_of_part(part: Seq<char>, i: int)
    requires
        0 <= i < part.len(),
    ensures
        part[0] == '\u{2581}' ==> cleaned(part).len() == part.len() - 1,
        part[0] != '\u{2581}' ==> cleaned(part).len() == part.len(),
        part[0] == '\u{2581}' && i > 0 ==> cleaned(part)[i - 1] == if part[i] == '\u{2581}'
            || part[i] == '_' {
            ' '
        } else {
            part[i]
        },
        part[0] != '\u{2581}' ==> cleaned(part)[i] == if part[i] == '\u{2581}' || part[i] == '_' {
            ' '
        } else {
            part[i]
        },
{
}

} // verus!
