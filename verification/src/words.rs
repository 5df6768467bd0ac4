//! Cutting a text into words, and the places of the words in it.
use crate::chars::{
    alphanumeric, combining_mark, is_alphanumeric_char, is_combining_mark, is_white_space,
    white_space,
};
use crate::text::{byte_len, chars_of, concat, joined, texts};
use vstd::prelude::*;
use vstd::utf8::encode_utf8;

verus! {

/// The class of a character in its place in a text.
#[derive(Clone, Copy, Debug, PartialEq, Eq, Structural)]
pub enum CharClass {
    Space,
    Alpha,
    Symbol,
}

/// The class of a character after one of class `before`, if there is one. A combining mark takes
/// the class of the character before it, unless that is white space.
pub open spec fn next_class(
    before: Option<CharClass>,
    space: bool,
    mark: bool,
    alpha: bool,
) -> CharClass {
    if space {
        CharClass::Space
    } else if mark && before is Some && before != Some(CharClass::Space) {
        before->0
    } else if alpha {
        CharClass::Alpha
    } else {
        CharClass::Symbol
    }
}

/// The class of each character of a text.
pub open spec fn classes(text: Seq<char>) -> Seq<CharClass>
    decreases text.len(),
{
    if text.len() == 0 {
        Seq::empty()
    } else {
        let before = classes(text.drop_last());
        let last = if before.len() == 0 {
            None
        } else {
            Some(before.last())
        };
        let c = text.last();
        before.push(next_class(last, white_space(c), combining_mark(c), alphanumeric(c)))
    }
}

/// Whether a word ends between two characters of the given classes: white space stands alone, and
/// the characters of a word are of one class.
pub open spec fn cut_between(a: CharClass, b: CharClass) -> bool {
    a != b || b == CharClass::Space
}

/// The words of a text whose characters have the given classes.
pub open spec fn cut(text: Seq<char>, class: Seq<CharClass>) -> Seq<Seq<char>>
    decreases text.len(),
{
    if text.len() == 0 {
        Seq::empty()
    } else {
        let n = text.len() - 1;
        let before = cut(text.drop_last(), class);
        if n == 0 || cut_between(class[n - 1], class[n]) {
            before.push(seq![text.last()])
        } else {
            before.drop_last().push(before.last().push(text.last()))
        }
    }
}

/// Whether `s` is an operator of two characters.
pub open spec fn operator(s: Seq<char>) -> bool {
    s.len() == 2 && operator_chars(s[0], s[1])
}

/// Whether two characters make an operator.
pub open spec fn operator_chars(a: char, b: char) -> bool {
    ||| b == '>' && (a == '-' || a == '=')
    ||| b == '=' && (a == '!' || a == '+' || a == '-' || a == '*' || a == '/' || a == '%' || a
        == '>' || a == '<')
    ||| a == b && (a == ':' || a == '.' || a == '*' || a == '/')
}

/// The words with neighbours fused where together they spell an operator, from the left.
pub open spec fn fused(words: Seq<Seq<char>>) -> Seq<Seq<char>>
    decreases words.len(),
{
    if words.len() < 2 {
        words
    } else if operator(words[0] + words[1]) {
        seq![words[0] + words[1]] + fused(words.skip(2))
    } else {
        seq![words[0]] + fused(words.skip(1))
    }
}

/// The words of a text.
pub open spec fn words_of(text: Seq<char>) -> Seq<Seq<char>> {
    fused(cut(text, classes(text)))
}

/// That no word is empty.
pub open spec fn nonempty_words(words: Seq<Seq<char>>) -> bool {
    forall|i: int| 0 <= i < words.len() ==> (#[trigger] words[i]).len() > 0
}

/// The class of a character after one of class `before`, from what is known of the character.
pub fn class_after(before: Option<CharClass>, space: bool, mark: bool, alpha: bool) -> (r:
    CharClass)
    ensures
        r == next_class(before, space, mark, alpha),
{
    if space {
        return CharClass::Space;
    }
    if mark {
        match before {
            Some(CharClass::Space) => {},
            Some(class) => {
                return class;
            },
            None => {},
        }
    }
    if alpha {
        CharClass::Alpha
    } else {
        CharClass::Symbol
    }
}

/// The class of each character of `text`.
pub fn classify(text: &Vec<char>) -> (r: Vec<CharClass>)
    ensures
        r@ == classes(text@),
{
    let mut out: Vec<CharClass> = Vec::new();
    let mut last: Option<CharClass> = None;
    for i in 0..text.len()
        invariant
            out@ == classes(text@.take(i as int)),
            out@.len() == i,
            last == (if i == 0 {
                None
            } else {
                Some(out@[i - 1])
            }),
    {
        let c: char = text[i];
        assert(text@.take(i + 1).drop_last() == text@.take(i as int));
        let class = class_after(
            last,
            is_white_space(c),
            is_combining_mark(c),
            is_alphanumeric_char(c),
        );
        out.push(class);
        last = Some(class);
    }
    assert(text@.take(text@.len() as int) == text@);
    out
}

/// A text has a class for each of its characters.
pub proof fn lemma_classes_len(text: Seq<char>)
    ensures
        classes(text).len() == text.len(),
    decreases text.len(),
{
    if text.len() > 0 {
        lemma_classes_len(text.drop_last());
    }
}

/// A text that is not empty has a word.
proof fn lemma_cut_nonempty(text: Seq<char>, class: Seq<CharClass>)
    ensures
        text.len() > 0 ==> cut(text, class).len() > 0,
    decreases text.len(),
{
    if text.len() > 1 {
        lemma_cut_nonempty(text.drop_last(), class);
    }
}

/// Cuts a text whose characters have the given classes into words.
pub fn cut_words(text: &Vec<char>, class: &Vec<CharClass>) -> (r: Vec<String>)
    requires
        class@.len() == text@.len(),
    ensures
        texts(r@) == cut(text@, class@),
{
    let mut result: Vec<String> = Vec::new();
    let mut current = String::new();
    if text.len() == 0 {
        assert(texts(result@) == Seq::<Seq<char>>::empty());
        return result;
    }
    current.push(text[0]);
    proof {
        reveal_with_fuel(cut, 2);
        assert(text@.take(1).drop_last() == Seq::<char>::empty());
        assert(texts(result@).push(current@) == cut(text@.take(1), class@));
    }
    for i in 1..text.len()
        invariant
            1 <= i <= text@.len(),
            class@.len() == text@.len(),
            texts(result@).push(current@) == cut(text@.take(i as int), class@),
    {
        let ghost before = texts(result@).push(current@);
        assert(text@.take(i + 1).drop_last() == text@.take(i as int));
        let a = class[i - 1];
        let b = class[i];
        if a != b || b == CharClass::Space {
            result.push(current);
            assert(texts(result@) == before);
            current = String::new();
            current.push(text[i]);
            assert(current@ == seq![text@[i as int]]);
        } else {
            assert(before.drop_last() == texts(result@));
            current.push(text[i]);
        }
    }
    let ghost before = texts(result@).push(current@);
    result.push(current);
    assert(texts(result@) == before);
    assert(text@.take(text@.len() as int) == text@);
    result
}

/// Tells whether `s` is an operator of two characters.
pub fn is_operator(s: &str) -> (r: bool)
    ensures
        r == operator(s@),
{
    let v = chars_of(s);
    if v.len() != 2 {
        return false;
    }
    let a: char = v[0];
    let b: char = v[1];
    (b == '>' && (a == '-' || a == '=')) || (b == '=' && (a == '!' || a == '+' || a == '-' || a
        == '*' || a == '/' || a == '%' || a == '>' || a == '<')) || (a == b && (a == ':' || a == '.'
        || a == '*' || a == '/'))
}

/// Fuses neighbouring words that together spell an operator, from the left.
pub fn fuse_operators(tokens: &mut Vec<String>)
    ensures
        texts(final(tokens)@) == fused(texts(old(tokens)@)),
{
    let ghost all = texts(tokens@);
    let mut i: usize = 0;
    assert(all.take(0) + fused(all.skip(0)) == fused(all)) by {
        assert(all.skip(0) == all);
    }
    while tokens.len() > 1 && i < tokens.len() - 1
        invariant
            i <= tokens@.len(),
            texts(tokens@).take(i as int) + fused(texts(tokens@).skip(i as int)) == fused(all),
        decreases tokens@.len() - i,
    {
        let ghost before = texts(tokens@);
        let ghost rest = before.skip(i as int);
        let pair = joined(tokens[i].as_str(), tokens[i + 1].as_str());
        assert(rest[0] + rest[1] == pair@);
        if is_operator(pair.as_str()) {
            tokens[i] = pair;
            tokens.remove(i + 1);
            assert(texts(tokens@).take(i + 1) == before.take(i as int).push(pair@));
            assert(texts(tokens@).skip(i + 1) == rest.skip(2));
            assert(texts(tokens@).take(i + 1) + fused(rest.skip(2)) == before.take(i as int) + (
            seq![pair@] + fused(rest.skip(2))));
        } else {
            assert(before.take(i + 1) == before.take(i as int).push(rest[0]));
            assert(before.skip(i + 1) == rest.skip(1));
            assert(before.take(i + 1) + fused(rest.skip(1)) == before.take(i as int) + (
            seq![rest[0]] + fused(rest.skip(1))));
        }
        i = i + 1;
    }
    proof {
        let now = texts(tokens@);
        assert(now.take(i as int) + now.skip(i as int) == now);
    }
}

/// Cuts a text into its words: white space one character at a time, runs of letters and digits, and
/// runs of other characters, with combining marks in the word of the character before them.
pub fn pretokenize(text: &str) -> (r: Vec<String>)
    ensures
        texts(r@) == words_of(text@),
        concat(texts(r@)) == text@,
        nonempty_words(texts(r@)),
{
    let chars = chars_of(text);
    let class = classify(&chars);
    proof {
        lemma_classes_len(text@);
        lemma_words_tile_text(text@);
    }
    let mut result = cut_words(&chars, &class);
    fuse_operators(&mut result);
    result
}

/// A text added at the end of a sequence comes after the others.
pub proof fn lemma_concat_push(v: Seq<Seq<char>>, s: Seq<char>)
    ensures
        concat(v.push(s)) == concat(v) + s,
{
    assert(v.push(s).drop_last() == v);
}

/// Texts of two sequences, one after the other, are those of the first and then of the second.
pub proof fn lemma_concat_add(a: Seq<Seq<char>>, b: Seq<Seq<char>>)
    ensures
        concat(a + b) == concat(a) + concat(b),
    decreases b.len(),
{
    if b.len() == 0 {
        assert(a + b == a);
        assert(concat(a) + concat(b) == concat(a));
    } else {
        lemma_concat_add(a, b.drop_last());
        assert((a + b).drop_last() == a + b.drop_last());
        assert((concat(a) + concat(b.drop_last())) + b.last() == concat(a) + (concat(b.drop_last())
            + b.last()));
    }
}

/// Cutting loses nothing: the words, one after the other, are the text, and none is empty.
pub(crate) proof fn lemma_cut_tiles(text: Seq<char>, class: Seq<CharClass>)
    ensures
        concat(cut(text, class)) == text,
        nonempty_words(cut(text, class)),
    decreases text.len(),
{
    if text.len() > 0 {
        let n = text.len() - 1;
        let before = cut(text.drop_last(), class);
        lemma_cut_tiles(text.drop_last(), class);
        lemma_cut_nonempty(text.drop_last(), class);
        if n == 0 || cut_between(class[n - 1], class[n]) {
            lemma_concat_push(before, seq![text.last()]);
        } else {
            lemma_concat_push(before.drop_last(), before.last().push(text.last()));
            assert(concat(before.drop_last()) + before.last().push(text.last()) == (concat(
                before.drop_last(),
            ) + before.last()).push(text.last()));
        }
        assert(text.drop_last().push(text.last()) == text);
    }
}

/// Fusing loses nothing.
proof fn lemma_fused_tiles(words: Seq<Seq<char>>)
    requires
        nonempty_words(words),
    ensures
        concat(fused(words)) == concat(words),
        nonempty_words(fused(words)),
    decreases words.len(),
{
    if words.len() >= 2 {
        let k: int = if operator(words[0] + words[1]) {
            2
        } else {
            1
        };
        let head = if k == 2 {
            seq![words[0] + words[1]]
        } else {
            seq![words[0]]
        };
        let rest = words.skip(k);
        assert(nonempty_words(rest)) by {
            assert(forall|i: int| 0 <= i < rest.len() ==> #[trigger] rest[i] == words[i + k]);
        }
        lemma_fused_tiles(rest);
        lemma_concat_add(head, fused(rest));
        lemma_concat_add(words.take(k), rest);
        assert(words.take(k) + rest == words);
        reveal_with_fuel(concat, 3);
        assert(head.drop_last() == Seq::<Seq<char>>::empty());
        assert(concat(head) == head[0]);
        if k == 2 {
            assert(words.take(2).drop_last() == seq![words[0]]);
            assert(seq![words[0]].drop_last() == Seq::<Seq<char>>::empty());
            assert(concat(words.take(2)) == words[0] + words[1]);
        } else {
            assert(words.take(1) == head);
        }
        assert forall|i: int| 0 <= i < (head + fused(rest)).len() implies (#[trigger] (head + fused(
            rest,
        ))[i]).len() > 0 by {
            if i > 0 {
                assert((head + fused(rest))[i] == fused(rest)[i - 1]);
            }
        }
    }
}

/// Cutting a text into words loses nothing: the words, one after the other, are the text, and none
/// of them is empty.
pub proof fn lemma_words_tile_text(text: Seq<char>)
    ensures
        concat(words_of(text)) == text,
        nonempty_words(words_of(text)),
{
    lemma_cut_tiles(text, classes(text));
    lemma_fused_tiles(cut(text, classes(text)));
}

/// The UTF-8 form of two texts, one after the other, is that of the first and then of the second.
pub proof fn lemma_encode_add(a: Seq<char>, b: Seq<char>)
    ensures
        encode_utf8(a + b) == encode_utf8(a) + encode_utf8(b),
    decreases a.len(),
{
    if a.len() == 0 {
        assert(a + b == b);
        assert(encode_utf8(a) + encode_utf8(b) == encode_utf8(b));
    } else {
        lemma_encode_add(a.drop_first(), b);
        assert((a + b).drop_first() == a.drop_first() + b);
        assert((a + b)[0] == a[0]);
        let head = vstd::utf8::encode_scalar(a[0] as u32);
        assert(head + (encode_utf8(a.drop_first()) + encode_utf8(b)) == (head + encode_utf8(
            a.drop_first(),
        )) + encode_utf8(b));
    }
}

/// The byte at which the word `i` starts.
pub open spec fn word_start(words: Seq<Seq<char>>, i: int) -> int {
    encode_utf8(concat(words.take(i))).len() as int
}

/// The bytes that each word takes in the text that the words make.
pub open spec fn offsets_of(words: Seq<Seq<char>>) -> Seq<(usize, usize)> {
    Seq::new(
        words.len(),
        |i: int| (word_start(words, i) as usize, word_start(words, i + 1) as usize),
    )
}

/// Each word starts where the one before it ends, and the last ends where the text does.
pub proof fn lemma_word_start_step(words: Seq<Seq<char>>, i: int)
    requires
        0 <= i < words.len(),
    ensures
        word_start(words, 0) == 0,
        word_start(words, i + 1) == word_start(words, i) + encode_utf8(words[i]).len(),
        word_start(words, i + 1) <= encode_utf8(concat(words)).len(),
        word_start(words, words.len() as int) == encode_utf8(concat(words)).len(),
{
    assert(words.take(0) == Seq::<Seq<char>>::empty());
    assert(words.take(words.len() as int) == words);
    assert(words.take(i + 1) == words.take(i).push(words[i]));
    lemma_concat_push(words.take(i), words[i]);
    lemma_encode_add(concat(words.take(i)), words[i]);
    lemma_concat_add(words.take(i + 1), words.skip(i + 1));
    assert(words.take(i + 1) + words.skip(i + 1) == words);
    lemma_encode_add(concat(words.take(i + 1)), concat(words.skip(i + 1)));
}

/// The places of the words of a text in it, in bytes.
pub fn word_offsets(sequence: &str, words: &Vec<String>) -> (r: Vec<(usize, usize)>)
    requires
        concat(texts(words@)) == sequence@,
    ensures
        r@ == offsets_of(texts(words@)),
{
    let total = byte_len(sequence);
    let ghost all = texts(words@);
    let mut out: Vec<(usize, usize)> = Vec::new();
    let mut cursor: usize = 0;
    assert(all.take(0) == Seq::<Seq<char>>::empty());
    for i in 0..words.len()
        invariant
            all == texts(words@),
            total == encode_utf8(concat(all)).len(),
            cursor == word_start(all, i as int),
            out@ == offsets_of(all).take(i as int),
    {
        let len = byte_len(words[i].as_str());
        proof {
            lemma_word_start_step(all, i as int);
        }
        out.push((cursor, cursor + len));
        cursor = cursor + len;
    }
    assert(offsets_of(all).take(words@.len() as int) == offsets_of(all));
    out
}

} // verus!
