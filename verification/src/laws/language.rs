//! Of what language a word is.
use crate::chars::{
    alphabetic, alphanumeric, combining_mark, str_lower, vi_letter, white_space, VI_LETTERS,
};
use crate::lang::{
    capital, code_shape, count_alphabetic, count_vietnamese, lang_from, listed_form, number,
    number_char, punctuation, small, Lang, WordFacts,
};
use crate::lexicon::Lexicon;
use crate::score::Score;
use crate::text::{trim_both, trim_end, Trim};
use vstd::prelude::*;
use vstd::utf8::is_ascii_chars;

verus! {

/// How many letters a word has.
pub open spec fn letters(s: Seq<char>) -> nat {
    s.filter(|c: char| alphabetic(c)).len()
}

/// How many of the letters of a word are Vietnamese.
pub open spec fn vietnamese_letters(s: Seq<char>) -> nat {
    s.filter(|c: char| alphabetic(c) && vi_letter(c)).len()
}

/// The letters are counted one by one.
proof fn lemma_letters(s: Seq<char>)
    ensures
        count_alphabetic(s) == letters(s),
        count_vietnamese(s) == vietnamese_letters(s),
        vietnamese_letters(s) <= letters(s) <= s.len(),
    decreases s.len(),
{
    reveal(Seq::filter);
    if s.len() > 0 {
        lemma_letters(s.drop_last());
    }
}

/// The letters that mark a word as Vietnamese.
pub proof fn law_vietnamese_letters(c: char)
    ensures
        vi_letter(c)
            <==> "àáảãạăắặằẳẵâấầẩẫậđèéẻẽẹêếềểễệìíỉĩịòóỏõọôốồổỗộơớờởỡợùúủũụưứừửữựỳýỷỹỵÀÁẢÃẠĂẮẶẰẲẴÂẤẦẨẪẬĐÈÉẺẼẸÊẾỀỂỄỆÌÍỈĨỊÒÓỎÕỌÔỐỒỔỖỘƠỚỜỞỠỢÙÚỦŨỤƯỨỪỬỮỰỲÝỶỸỴ"@.contains(c),
{
    assert(vi_letter(c) == VI_LETTERS@.contains(c));
}

/// That a character is one of a text.
pub open spec fn one_of(c: char, marks: Seq<char>) -> bool {
    exists|i: int| 0 <= i < marks.len() && #[trigger] marks[i] == c
}

/// A number is made of digits and the signs `.,/%$+-`, and is not empty.
pub proof fn law_numbers(s: Seq<char>)
    ensures
        number(s) <==> s.len() > 0 && forall|i: int|
            0 <= i < s.len() ==> one_of(#[trigger] s[i], "0123456789.,/%$+-"@),
{
    reveal_strlit("0123456789.,/%$+-");
    let marks = "0123456789.,/%$+-"@;
    assert forall|c: char| #[trigger] number_char(c) <==> one_of(c, marks) by {
        if '0' <= c <= '9' {
            assert(marks[c as int - 0x30] == c) by {
                lemma_digit(c);
            }
        }
        assert(marks[10] == '.' && marks[11] == ',' && marks[12] == '/' && marks[13] == '%'
            && marks[14] == '$' && marks[15] == '+' && marks[16] == '-');
    }
    if number(s) {
        assert forall|i: int| 0 <= i < s.len() implies one_of(#[trigger] s[i], marks) by {
            assert(number_char(s[i]));
        }
    }
    if s.len() > 0 && (forall|i: int| 0 <= i < s.len() ==> one_of(#[trigger] s[i], marks)) {
        assert forall|i: int| 0 <= i < s.len() implies number_char(#[trigger] s[i]) by {
            assert(one_of(s[i], marks));
        }
    }
}

/// A digit stands at its value among the digits.
proof fn lemma_digit(c: char)
    requires
        '0' <= c <= '9',
    ensures
        "0123456789.,/%$+-"@.len() == 17,
        "0123456789.,/%$+-"@[c as int - 0x30] == c,
{
    reveal_strlit("0123456789.,/%$+-");
    let k = c as int - 0x30;
    assert(k == 0 || k == 1 || k == 2 || k == 3 || k == 4 || k == 5 || k == 6 || k == 7 || k == 8
        || k == 9);
}

/// Punctuation holds no letter and no digit, and is not white space alone. The empty text counts as
/// punctuation.
pub proof fn law_punctuation(s: Seq<char>)
    ensures
        punctuation(s) <==> s.len() == 0 || s.filter(|c: char| alphanumeric(c)).len() == 0
            && s.filter(|c: char| !white_space(c)).len() > 0,
{
    lemma_none_filtered(s, |c: char| alphanumeric(c));
    lemma_none_filtered(s, |c: char| !white_space(c));
    if s.len() > 0 {
        let solid = |c: char| !white_space(c);
        let alpha = |c: char| alphanumeric(c);
        if exists|i: int| 0 <= i < s.len() && !white_space(#[trigger] s[i]) {
            let i = choose|i: int| 0 <= i < s.len() && !white_space(#[trigger] s[i]);
            assert(solid(s[i]));
        }
        if s.filter(solid).len() > 0 {
            let i = choose|i: int| 0 <= i < s.len() && solid(#[trigger] s[i]);
            assert(!white_space(s[i]));
        }
        if s.filter(alpha).len() > 0 {
            let i = choose|i: int| 0 <= i < s.len() && alpha(#[trigger] s[i]);
            assert(alphanumeric(s[i]));
        } else {
            assert forall|i: int| 0 <= i < s.len() implies !alphanumeric(#[trigger] s[i]) by {
                assert(!alpha(s[i]));
            }
        }
    }
}

/// A filter leaves nothing where nothing passes.
proof fn lemma_none_filtered(s: Seq<char>, f: spec_fn(char) -> bool)
    ensures
        s.filter(f).len() > 0 <==> exists|i: int| 0 <= i < s.len() && f(#[trigger] s[i]),
    decreases s.len(),
{
    reveal(Seq::filter);
    if s.len() > 0 {
        let before = s.drop_last();
        lemma_none_filtered(before, f);
        if before.filter(f).len() > 0 {
            let i = choose|i: int| 0 <= i < before.len() && f(#[trigger] before[i]);
            assert(f(s[i]));
        }
        if f(s.last()) {
            assert(f(s[s.len() - 1]));
        }
        if exists|i: int| 0 <= i < s.len() && f(#[trigger] s[i]) {
            let i = choose|i: int| 0 <= i < s.len() && f(#[trigger] s[i]);
            if i < s.len() - 1 {
                assert(f(before[i]));
            }
        }
    }
}

/// That at `i` an ASCII small letter stands before a capital.
pub open spec fn small_then_capital(s: Seq<char>, i: int) -> bool {
    &&& 0 <= i < s.len() - 1
    &&& 'a' <= s[i] <= 'z'
    &&& 'A' <= s[i + 1] <= 'Z'
}

/// That at `i` two ASCII capitals stand before a small letter.
pub open spec fn capitals_then_small(s: Seq<char>, i: int) -> bool {
    &&& 0 <= i < s.len() - 2
    &&& 'A' <= s[i] <= 'Z'
    &&& 'A' <= s[i + 1] <= 'Z'
    &&& 'a' <= s[i + 2] <= 'z'
}

/// A place of either kind makes code.
proof fn lemma_code_found(s: Seq<char>, i: int)
    requires
        small_then_capital(s, i) || capitals_then_small(s, i),
    ensures
        code_shape(s),
{
    if small_then_capital(s, i) {
        assert(small(s[i]) && capital(s[i + 1]));
    } else {
        assert(capital(s[i]) && capital(s[i + 1]) && small(s[i + 2]));
    }
}

/// Code has a place of either kind.
proof fn lemma_code_place(s: Seq<char>) -> (i: int)
    requires
        code_shape(s),
    ensures
        small_then_capital(s, i) || capitals_then_small(s, i),
{
    if exists|i: int| 0 <= i < s.len() - 1 && small(#[trigger] s[i]) && capital(s[i + 1]) {
        choose|i: int| 0 <= i < s.len() - 1 && small(#[trigger] s[i]) && capital(s[i + 1])
    } else {
        choose|i: int|
            0 <= i < s.len() - 2 && capital(#[trigger] s[i]) && capital(s[i + 1]) && small(s[i + 2])
    }
}

/// A word looks like code where an ASCII small letter stands before a capital, or a small letter
/// after at least two capitals.
pub proof fn law_code(s: Seq<char>)
    ensures
        code_shape(s) <==> exists|i: int|
            #![trigger small_then_capital(s, i)]
            #![trigger capitals_then_small(s, i)]
            small_then_capital(s, i) || capitals_then_small(s, i),
{
    if code_shape(s) {
        let i = lemma_code_place(s);
        assert(small_then_capital(s, i) || capitals_then_small(s, i));
    } else {
        assert forall|i: int|
            #![trigger small_then_capital(s, i)]
            #![trigger capitals_then_small(s, i)]
            !small_then_capital(s, i) && !capitals_then_small(s, i) by {
            if small_then_capital(s, i) || capitals_then_small(s, i) {
                lemma_code_found(s, i);
            }
        }
    }
}

/// Words are listed in lowercase, without white space around them and closing punctuation behind.
pub proof fn law_listed_form(s: Seq<char>)
    ensures
        listed_form(s) == trim_end(str_lower(trim_both(s, Trim::Space)), Trim::Closing),
{
}

/// What decides of the language. Punctuation, numbers and code come before everything else, in this
/// order. What has no letters counts as a number.
pub proof fn law_kinds_come_first(f: WordFacts)
    ensures
        lang_from(f) == Lang::Punct <==> f.punct,
        lang_from(f) == Lang::Num <==> !f.punct && (f.number || !f.code && f.alpha_count == 0),
        lang_from(f) == Lang::Code <==> !f.punct && !f.number && f.code,
{
}

/// Of words with letters that are neither numbers nor code, those are Vietnamese in which three
/// letters in twenty or more are Vietnamese, and those that are listed, unless their only letter is
/// a plain one in ASCII. All others are English.
pub proof fn law_vietnamese_or_english(f: WordFacts)
    requires
        !f.punct && !f.number && !f.code,
        f.alpha_count > 0,
    ensures
        20 * f.vi_count >= 3 * f.alpha_count ==> lang_from(f) == Lang::Vi,
        f.listed && (f.alpha_count >= 2 || f.vi_count > 0 || !f.ascii) ==> lang_from(f)
            == Lang::Vi,
        20 * f.vi_count < 3 * f.alpha_count && (!f.listed || f.alpha_count == 1 && f.vi_count == 0
            && f.ascii) ==> lang_from(f) == Lang::En,
{
}

/// The language of a word, by its characters and the lists.
pub proof fn law_language<S: Score>(m: Lexicon<S>, word: Seq<char>)
    requires
        word.len() <= usize::MAX,
    ensures
        ({
            let listed = m.vi_syllables.contains(listed_form(word)) || m.base_forms.contains(
                listed_form(word),
            );
            let plain = letters(word) == 1 && vietnamese_letters(word) == 0 && is_ascii_chars(word);
            let telling = 20 * vietnamese_letters(word) >= 3 * letters(word);
            let lang = m.lang(word);
            &&& punctuation(word) ==> lang == Lang::Punct
            &&& !punctuation(word) && number(word) ==> lang == Lang::Num
            &&& !punctuation(word) && !number(word) ==> {
                &&& code_shape(word) ==> lang == Lang::Code
                &&& !code_shape(word) && letters(word) == 0 ==> lang == Lang::Num
                &&& !code_shape(word) && letters(word) > 0 ==> lang == if telling || listed
                    && !plain {
                    Lang::Vi
                } else {
                    Lang::En
                }
            }
        }),
{
    lemma_letters(word);
}

/// A word of at least two letters that is neither punctuation nor a number nor code is Vietnamese
/// where its listed form is a syllable or a base form.
pub proof fn law_listed_words_are_vietnamese<S: Score>(m: Lexicon<S>, word: Seq<char>)
    requires
        word.len() <= usize::MAX,
        !punctuation(word) && !number(word) && !code_shape(word),
        letters(word) >= 2,
        m.vi_syllables.contains(listed_form(word)) || m.base_forms.contains(listed_form(word)),
    ensures
        m.lang(word) == Lang::Vi,
{
    law_language(m, word);
}

/// The language of a word depends on nothing but the word and the lists.
pub proof fn law_lists_decide<S: Score>(a: Lexicon<S>, b: Lexicon<S>, word: Seq<char>)
    requires
        a.vi_syllables.contains(listed_form(word)) || a.base_forms.contains(listed_form(word))
            <==> b.vi_syllables.contains(listed_form(word)) || b.base_forms.contains(
            listed_form(word),
        ),
    ensures
        a.lang(word) == b.lang(word),
{
    assert(a.listed().contains(listed_form(word)) == b.listed().contains(listed_form(word)));
}

/// The characters that count as combining marks: these ranges of code points, and all from `U+0FC6`
/// on.
pub open spec fn mark_ranges() -> Seq<(int, int)> {
    seq![
        (0x0300int, 0x036Fint), (0x0483int, 0x0489int), (0x0591int, 0x05BDint),
        (0x0610int, 0x061Aint), (0x064Bint, 0x065Fint), (0x0670int, 0x06D6int),
        (0x0901int, 0x0903int), (0x093Aint, 0x093Cint), (0x093Eint, 0x094Fint),
        (0x0951int, 0x0957int), (0x0962int, 0x0963int), (0x0981int, 0x0983int),
        (0x09BCint, 0x09C4int), (0x09E2int, 0x09E3int), (0x0A01int, 0x0A03int),
        (0x0A3Cint, 0x0A4Fint), (0x0A81int, 0x0A83int), (0x0ABCint, 0x0AC5int),
        (0x0AC7int, 0x0AC9int), (0x0ACBint, 0x0ACDint), (0x0AE2int, 0x0AE3int),
        (0x0B01int, 0x0B03int), (0x0B3Cint, 0x0B44int), (0x0B47int, 0x0B48int),
        (0x0B4Bint, 0x0B4Dint), (0x0B56int, 0x0B57int), (0x0B62int, 0x0B63int),
        (0x0B82int, 0x0B83int), (0x0BC0int, 0x0BCDint), (0x0C00int, 0x0C03int),
        (0x0C3Eint, 0x0C44int), (0x0C46int, 0x0C48int), (0x0C4Aint, 0x0C4Dint),
        (0x0C55int, 0x0C56int), (0x0C62int, 0x0C63int), (0x0C81int, 0x0C83int),
        (0x0CBCint, 0x0CC4int), (0x0CC6int, 0x0CC8int), (0x0CCAint, 0x0CCDint),
        (0x0CD5int, 0x0CD6int), (0x0CE2int, 0x0CE3int), (0x0D01int, 0x0D03int),
        (0x0D3Eint, 0x0D44int), (0x0D46int, 0x0D48int), (0x0D4Aint, 0x0D4Dint),
        (0x0D62int, 0x0D63int), (0x0DCAint, 0x0DDFint), (0x0E31int, 0x0E3Aint),
        (0x0E47int, 0x0E4Eint), (0x0EB1int, 0x0EBBint), (0x0EC8int, 0x0ECDint),
        (0x0F18int, 0x0F19int), (0x0F35int, 0x0F39int), (0x0F3Eint, 0x0F3Fint),
        (0x0F71int, 0x0F84int), (0x0F86int, 0x0F87int), (0x0F8Dint, 0x0FBCint),
        (0x0FC6int, 0x10FFFFint),
    ]
}

/// The range in which a combining mark lies.
proof fn lemma_range_of(c: char) -> (i: int)
    requires
        combining_mark(c),
    ensures
        0 <= i < mark_ranges().len(),
        mark_ranges()[i].0 <= c as int <= mark_ranges()[i].1,
{
    let code = c as int;
    if 0x0300 <= code <= 0x036F {
        0
    } else if 0x0483 <= code <= 0x0489 {
        1
    } else if 0x0591 <= code <= 0x05BD {
        2
    } else if 0x0610 <= code <= 0x061A {
        3
    } else if 0x064B <= code <= 0x065F {
        4
    } else if 0x0670 <= code <= 0x06D6 {
        5
    } else if 0x0901 <= code <= 0x0903 {
        6
    } else if 0x093A <= code <= 0x093C {
        7
    } else if 0x093E <= code <= 0x094F {
        8
    } else if 0x0951 <= code <= 0x0957 {
        9
    } else if 0x0962 <= code <= 0x0963 {
        10
    } else if 0x0981 <= code <= 0x0983 {
        11
    } else if 0x09BC <= code <= 0x09C4 {
        12
    } else if 0x09E2 <= code <= 0x09E3 {
        13
    } else if 0x0A01 <= code <= 0x0A03 {
        14
    } else if 0x0A3C <= code <= 0x0A4F {
        15
    } else if 0x0A81 <= code <= 0x0A83 {
        16
    } else if 0x0ABC <= code <= 0x0AC5 {
        17
    } else if 0x0AC7 <= code <= 0x0AC9 {
        18
    } else if 0x0ACB <= code <= 0x0ACD {
        19
    } else if 0x0AE2 <= code <= 0x0AE3 {
        20
    } else if 0x0B01 <= code <= 0x0B03 {
        21
    } else if 0x0B3C <= code <= 0x0B44 {
        22
    } else if 0x0B47 <= code <= 0x0B48 {
        23
    } else if 0x0B4B <= code <= 0x0B4D {
        24
    } else if 0x0B56 <= code <= 0x0B57 {
        25
    } else if 0x0B62 <= code <= 0x0B63 {
        26
    } else if 0x0B82 <= code <= 0x0B83 {
        27
    } else if 0x0BC0 <= code <= 0x0BCD {
        28
    } else if 0x0C00 <= code <= 0x0C03 {
        29
    } else if 0x0C3E <= code <= 0x0C44 {
        30
    } else if 0x0C46 <= code <= 0x0C48 {
        31
    } else if 0x0C4A <= code <= 0x0C4D {
        32
    } else if 0x0C55 <= code <= 0x0C56 {
        33
    } else if 0x0C62 <= code <= 0x0C63 {
        34
    } else if 0x0C81 <= code <= 0x0C83 {
        35
    } else if 0x0CBC <= code <= 0x0CC4 {
        36
    } else if 0x0CC6 <= code <= 0x0CC8 {
        37
    } else if 0x0CCA <= code <= 0x0CCD {
        38
    } else if 0x0CD5 <= code <= 0x0CD6 {
        39
    } else if 0x0CE2 <= code <= 0x0CE3 {
        40
    } else if 0x0D01 <= code <= 0x0D03 {
        41
    } else if 0x0D3E <= code <= 0x0D44 {
        42
    } else if 0x0D46 <= code <= 0x0D48 {
        43
    } else if 0x0D4A <= code <= 0x0D4D {
        44
    } else if 0x0D62 <= code <= 0x0D63 {
        45
    } else if 0x0DCA <= code <= 0x0DDF {
        46
    } else if 0x0E31 <= code <= 0x0E3A {
        47
    } else if 0x0E47 <= code <= 0x0E4E {
        48
    } else if 0x0EB1 <= code <= 0x0EBB {
        49
    } else if 0x0EC8 <= code <= 0x0ECD {
        50
    } else if 0x0F18 <= code <= 0x0F19 {
        51
    } else if 0x0F35 <= code <= 0x0F39 {
        52
    } else if 0x0F3E <= code <= 0x0F3F {
        53
    } else if 0x0F71 <= code <= 0x0F84 {
        54
    } else if 0x0F86 <= code <= 0x0F87 {
        55
    } else if 0x0F8D <= code <= 0x0FBC {
        56
    } else {
        57
    }
}

/// A character is a combining mark exactly where its code point lies in one of the ranges.
pub proof fn law_combining_marks(c: char)
    ensures
        combining_mark(c) <==> exists|i: int|
            0 <= i < mark_ranges().len() && (#[trigger] mark_ranges()[i]).0 <= c as int
                <= mark_ranges()[i].1,
{
    let r = mark_ranges();
    let code = c as int;
    if combining_mark(c) {
        let i = lemma_range_of(c);
        assert(r[i].0 <= code <= r[i].1);
    }
}

} // verus!
