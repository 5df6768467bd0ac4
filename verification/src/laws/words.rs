//! What holds of the words of every text.
use crate::chars::white_space;
use crate::laws::segmentation::in_sequence;
use crate::text::concat;
use crate::words::{
    classes, cut, cut_between, fused, lemma_classes_len, lemma_concat_add, lemma_concat_push,
    lemma_encode_add, lemma_word_start_step, lemma_words_tile_text, nonempty_words, offsets_of,
    operator, operator_chars, word_start, words_of, CharClass,
};
use vstd::prelude::*;
use vstd::utf8::encode_utf8;

verus! {

/// The words of a text, one after the other, are the text, and none of them is empty.
pub proof fn law_words_tile_text(text: Seq<char>)
    ensures
        concat(words_of(text)) == text,
        nonempty_words(words_of(text)),
{
    lemma_words_tile_text(text);
}

/// That white space stands alone, and that no operator is spread over two words.
pub(crate) open spec fn well_cut(words: Seq<Seq<char>>) -> bool {
    &&& nonempty_words(words)
    &&& forall|j: int, i: int|
        0 <= j < words.len() && 0 <= i < words[j].len() && white_space(#[trigger] words[j][i])
            ==> words[j].len() == 1
    &&& forall|i: int, j: int|
        0 <= i && i + 1 == j && j < words.len() ==> !operator_chars(
            (#[trigger] words[i]).last(),
            (#[trigger] words[j])[0],
        )
}

/// That white space has a class of its own, and the characters of operators another.
spec fn classes_fit(text: Seq<char>, class: Seq<CharClass>) -> bool {
    &&& class.len() >= text.len()
    &&& forall|i: int|
        0 <= i < text.len() ==> (white_space(#[trigger] text[i]) <==> class[i] == CharClass::Space)
    &&& forall|i: int|
        0 <= i < text.len() && operator_char(#[trigger] text[i]) ==> class[i] == CharClass::Symbol
}

/// A character of an operator.
spec fn operator_char(c: char) -> bool {
    c == '-' || c == '=' || c == '!' || c == '+' || c == '*' || c == '/' || c == '%' || c == '>'
        || c == '<' || c == ':' || c == '.'
}

/// The classes of a text fit it.
proof fn lemma_classes_fit(text: Seq<char>)
    ensures
        classes_fit(text, classes(text)),
    decreases text.len(),
{
    lemma_classes_len(text);
    if text.len() > 0 {
        let before = text.drop_last();
        lemma_classes_fit(before);
        lemma_classes_len(before);
        let class = classes(text);
        assert(class.drop_last() == classes(before));
        assert forall|i: int| 0 <= i < text.len() implies (white_space(#[trigger] text[i])
            <==> class[i] == CharClass::Space) && (operator_char(text[i]) ==> class[i]
            == CharClass::Symbol) by {
            if i < before.len() {
                assert(before[i] == text[i]);
                assert(class[i] == classes(before)[i]);
            }
        }
    }
}

/// A cut by fitting classes leaves white space alone, and no operator spread over two words.
proof fn lemma_cut(text: Seq<char>, class: Seq<CharClass>)
    requires
        classes_fit(text, class),
    ensures
        well_cut(cut(text, class)),
        text.len() > 0 ==> cut(text, class).len() > 0 && cut(text, class).last().last()
            == text.last(),
        text.len() > 0 && white_space(text.last()) ==> cut(text, class).last().len() == 1,
        text.len() > 0 && !white_space(text.last()) ==> forall|i: int|
            0 <= i < cut(text, class).last().len() ==> !white_space(
                #[trigger] cut(text, class).last()[i],
            ),
    decreases text.len(),
{
    if text.len() > 0 {
        let n = text.len() - 1;
        let before = text.drop_last();
        assert forall|i: int| 0 <= i < before.len() implies (white_space(#[trigger] before[i])
            <==> class[i] == CharClass::Space) && (operator_char(before[i]) ==> class[i]
            == CharClass::Symbol) by {
            assert(before[i] == text[i]);
        }
        lemma_cut(before, class);
        let words = cut(before, class);
        let now = cut(text, class);
        assert(text[n] == text.last());
        if n == 0 || cut_between(class[n - 1], class[n]) {
            assert(now == words.push(seq![text.last()]));
            assert forall|j: int, l: int|
                0 <= j && j + 1 == l && l < now.len() implies !operator_chars(
                (#[trigger] now[j]).last(),
                (#[trigger] now[l])[0],
            ) by {
                assert(now[j] == words[j]);
                if j == words.len() - 1 {
                    assert(before.last() == text[n - 1]);
                } else {
                    assert(now[l] == words[l]);
                }
            }
        } else {
            let whole = words.last().push(text.last());
            assert(now == words.drop_last().push(whole));
            assert(before.last() == text[n - 1]);
            assert(!white_space(text[n - 1]) && !white_space(text[n]));
            assert forall|j: int, l: int|
                0 <= j && j + 1 == l && l < now.len() implies !operator_chars(
                (#[trigger] now[j]).last(),
                (#[trigger] now[l])[0],
            ) by {
                assert(now[j] == words[j]);
                if l == words.len() - 1 {
                    assert(now[l][0] == words[l][0]);
                } else {
                    assert(now[l] == words[l]);
                }
            }
            assert forall|j: int, i: int|
                0 <= j < now.len() && 0 <= i < now[j].len() && white_space(
                    #[trigger] now[j][i],
                ) implies now[j].len() == 1 by {
                if j == now.len() - 1 {
                    if i < words.last().len() {
                        assert(now[j][i] == words.last()[i]);
                    } else {
                        assert(now[j][i] == text.last());
                    }
                } else {
                    assert(now[j] == words[j]);
                }
            }
            assert forall|i: int| 0 <= i < now.last().len() implies !white_space(
                #[trigger] now.last()[i],
            ) by {
                if i < words.last().len() {
                    assert(now.last()[i] == words.last()[i]);
                }
            }
        }
    }
}

/// Fusing keeps words well cut.
proof fn lemma_fused_well_cut(words: Seq<Seq<char>>)
    requires
        well_cut(words),
    ensures
        well_cut(fused(words)),
        words.len() > 0 ==> fused(words).len() > 0 && fused(words)[0][0] == words[0][0],
    decreases words.len(),
{
    if words.len() >= 2 {
        let fuses = operator(words[0] + words[1]);
        let k: int = if fuses {
            2
        } else {
            1
        };
        let head = if fuses {
            words[0] + words[1]
        } else {
            words[0]
        };
        let rest = words.skip(k);
        assert forall|j: int, i: int|
            0 <= j < rest.len() && 0 <= i < rest[j].len() && white_space(
                #[trigger] rest[j][i],
            ) implies rest[j].len() == 1 by {
            assert(rest[j] == words[j + k]);
            assert(white_space(words[j + k][i]));
        }
        assert(nonempty_words(rest)) by {
            assert(forall|j: int| 0 <= j < rest.len() ==> #[trigger] rest[j] == words[j + k]);
        }
        assert forall|j: int, l: int|
            0 <= j && j + 1 == l && l < rest.len() implies !operator_chars(
            (#[trigger] rest[j]).last(),
            (#[trigger] rest[l])[0],
        ) by {
            assert(rest[j] == words[j + k] && rest[l] == words[l + k]);
        }
        lemma_fused_well_cut(rest);
        let tail = fused(rest);
        let now = seq![head] + tail;
        assert(now == fused(words));
        assert(head[0] == words[0][0]);
        assert(head.last() == words[k - 1].last());
        assert forall|j: int, l: int|
            0 <= j && j + 1 == l && l < now.len() implies !operator_chars(
            (#[trigger] now[j]).last(),
            (#[trigger] now[l])[0],
        ) by {
            assert(now[l] == tail[l - 1]);
            if j == 0 {
                assert(rest[0] == words[k]);
                assert(!operator_chars(words[k - 1].last(), words[k][0]));
            } else {
                assert(now[j] == tail[j - 1]);
            }
        }
        assert forall|j: int, i: int|
            0 <= j < now.len() && 0 <= i < now[j].len() && white_space(#[trigger] now[j][i]) implies
            now[j].len() == 1 by {
            if j == 0 {
                if !fuses {
                    assert(white_space(words[0][i]));
                } else {
                    assert(operator_chars(head[0], head[1]));
                    assert(i == 0 || i == 1);
                }
            } else {
                assert(now[j] == tail[j - 1]);
                assert(white_space(tail[j - 1][i]));
            }
        }
        assert(nonempty_words(now)) by {
            assert forall|j: int| 0 <= j < now.len() implies (#[trigger] now[j]).len() > 0 by {
                if j > 0 {
                    assert(now[j] == tail[j - 1]);
                }
            }
        }
    }
}

/// The cut of a text is well cut.
pub(crate) proof fn lemma_cut_well(text: Seq<char>)
    ensures
        well_cut(cut(text, classes(text))),
{
    lemma_classes_fit(text);
    lemma_cut(text, classes(text));
}

/// The words of a text are well cut.
proof fn lemma_well_cut(text: Seq<char>)
    ensures
        well_cut(words_of(text)),
{
    lemma_cut_well(text);
    lemma_fused_well_cut(cut(text, classes(text)));
}

/// White space makes words of one character: a word with white space in it holds nothing else.
pub proof fn law_white_space_stands_alone(text: Seq<char>, j: int, i: int)
    requires
        0 <= j < words_of(text).len(),
        0 <= i < words_of(text)[j].len(),
        white_space(words_of(text)[j][i]),
    ensures
        words_of(text)[j].len() == 1,
{
    lemma_well_cut(text);
}

/// No operator is spread over two words.
pub proof fn law_operators_stay_whole(text: Seq<char>, j: int)
    requires
        0 <= j < words_of(text).len() - 1,
    ensures
        !operator_chars(words_of(text)[j].last(), words_of(text)[j + 1][0]),
{
    lemma_well_cut(text);
}

/// A text without bytes is empty.
pub(crate) proof fn lemma_encode_empty(text: Seq<char>)
    requires
        encode_utf8(text).len() == 0,
    ensures
        text == Seq::<char>::empty(),
{
    if text.len() > 0 {
        assert(vstd::utf8::encode_scalar(text[0] as u32).len() > 0);
    }
}

/// Where a word ends, in bytes, is the sum of the words up to it.
proof fn lemma_word_start_bound(words: Seq<Seq<char>>, i: int)
    requires
        0 <= i <= words.len(),
    ensures
        0 <= word_start(words, i) <= encode_utf8(concat(words)).len(),
        i == 0 ==> word_start(words, i) == 0,
        i == words.len() ==> word_start(words, i) == encode_utf8(concat(words)).len(),
{
    if i > 0 {
        lemma_word_start_step(words, i - 1);
    } else if words.len() > 0 {
        lemma_word_start_step(words, 0);
    } else {
        assert(words.take(0) == words);
    }
}

/// The places of the words of a text hold the words: the bytes of the text at each place are those
/// of the word.
pub proof fn law_words_are_in_place(text: Seq<char>, i: int)
    requires
        encode_utf8(text).len() <= usize::MAX,
        0 <= i < words_of(text).len(),
    ensures
        ({
            let (start, end) = offsets_of(words_of(text))[i];
            &&& start <= end <= encode_utf8(text).len()
            &&& encode_utf8(text).subrange(start as int, end as int) == encode_utf8(
                words_of(text)[i],
            )
        }),
{
    let words = words_of(text);
    lemma_words_tile_text(text);
    lemma_word_start_bound(words, i);
    lemma_word_start_step(words, i);
    let head = words.take(i);
    let tail = words.skip(i + 1);
    assert(head.push(words[i]) + tail == words);
    lemma_concat_add(head.push(words[i]), tail);
    lemma_concat_push(head, words[i]);
    lemma_encode_add(concat(head) + words[i], concat(tail));
    lemma_encode_add(concat(head), words[i]);
    let a = encode_utf8(concat(head));
    let b = encode_utf8(words[i]);
    let c = encode_utf8(concat(tail));
    assert(encode_utf8(text) == a + b + c);
    assert((a + b + c).subrange(a.len() as int, (a.len() + b.len()) as int) == b);
}

/// The places of the words of a text tile it: the first starts at its start, each starts where the
/// one before it ends, and the last ends at its end.
pub proof fn law_places_tile_text(text: Seq<char>)
    requires
        encode_utf8(text).len() <= usize::MAX,
    ensures
        ({
            let places = offsets_of(words_of(text));
            &&& places.len() > 0 ==> places[0].0 == 0 && places.last().1 == encode_utf8(text).len()
            &&& in_sequence(places)
        }),
{
    let words = words_of(text);
    lemma_words_tile_text(text);
    if words.len() > 0 {
        lemma_word_start_bound(words, 0);
        lemma_word_start_bound(words, words.len() as int);
    }
}

} // verus!
