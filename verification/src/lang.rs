//! The language of a word.
use crate::chars::{
    alphabetic, alphanumeric, holds_vi_letters, is_alphabetic_char, is_alphanumeric_char,
    is_vi_letter, is_white_space, str_lower, to_lower, vi_letter, white_space,
};
use crate::text::{chars_of, trim_both, trim_end, trimmed, trimmed_end, Trim};
use regex::Regex;
use std::collections::HashSet;
use vstd::prelude::*;
use vstd::utf8::is_ascii_chars;

verus! {

/// `regex::Regex`, a compiled pattern.
#[verifier::external_type_specification]
#[verifier::external_body]
pub struct ExRegex(Regex);

/// What `Regex::is_match` answers.
pub uninterp spec fn regex_accepts(re: Regex, text: Seq<char>) -> bool;

/// The pattern that `Regex::as_str` returns.
pub uninterp spec fn regex_source(re: Regex) -> Seq<char>;

/// The pattern of a word that looks like code: a small letter before a capital, or at least two
/// capitals before a small letter.
pub const CODE_PATTERN: &'static str = "[a-z][A-Z]|[A-Z]{2,}[a-z]";

/// An ASCII small letter.
pub open spec fn small(c: char) -> bool {
    'a' <= c <= 'z'
}

/// An ASCII capital letter.
pub open spec fn capital(c: char) -> bool {
    'A' <= c <= 'Z'
}

/// Whether a text holds a small letter right before a capital, or two capitals right before a small
/// letter.
pub open spec fn code_shape(s: Seq<char>) -> bool {
    ||| exists|i: int| 0 <= i < s.len() - 1 && small(#[trigger] s[i]) && capital(s[i + 1])
    ||| exists|i: int|
        0 <= i < s.len() - 2 && capital(#[trigger] s[i]) && capital(s[i + 1]) && small(s[i + 2])
}

/// That `re` is the pattern of code, and matches as it says.
pub open spec fn code_regex(re: Regex) -> bool {
    &&& regex_source(re) == CODE_PATTERN@
    &&& forall|text: Seq<char>| #[trigger] regex_accepts(re, text) == code_shape(text)
}

/// `Regex::new` keeps the pattern that it compiles, and returns an error for a pattern that it does
/// not accept. It accepts the pattern of code, and the result then matches a text somewhere exactly
/// where the text has the shape that the pattern spells out.
#[verifier::external_body]
pub(crate) fn compile_regex(pattern: &str) -> (r: Option<Regex>)
    ensures
        r matches Some(re) ==> regex_source(re) == pattern@,
        pattern@ == CODE_PATTERN@ ==> r is Some && code_regex(r->0),
{
    Regex::new(pattern).ok()
}

/// `Regex::is_match` tells whether the pattern matches somewhere in the text: the answer depends on
/// the pattern and the text alone.
#[verifier::external_body]
pub(crate) fn regex_is_match(re: &Regex, text: &str) -> (r: bool)
    ensures
        r == regex_accepts(*re, text@),
{
    re.is_match(text)
}

/// `Regex::as_str` returns the pattern that was compiled.
#[verifier::external_body]
pub(crate) fn regex_as_str(re: &Regex) -> (r: &str)
    ensures
        r@ == regex_source(*re),
{
    re.as_str()
}

/// The language, or the kind, of a word.
#[derive(Clone, Copy, Debug, PartialEq, Eq, Structural)]
pub enum Lang {
    Vi,
    En,
    Num,
    Code,
    Punct,
}

/// A character that may stand in a number.
pub open spec fn number_char(c: char) -> bool {
    '0' <= c <= '9' || c == '.' || c == ',' || c == '/' || c == '%' || c == '$' || c == '+' || c
        == '-'
}

/// A number: digits and the signs that go with them, at least one of them.
pub open spec fn number(s: Seq<char>) -> bool {
    s.len() > 0 && forall|i: int| 0 <= i < s.len() ==> number_char(#[trigger] s[i])
}

/// Punctuation: nothing at all, or no letter and no digit and not white space alone.
pub open spec fn punctuation(s: Seq<char>) -> bool {
    ||| s.len() == 0
    ||| (forall|i: int| 0 <= i < s.len() ==> !alphanumeric(#[trigger] s[i])) && (exists|i: int|
        0 <= i < s.len() && !white_space(#[trigger] s[i]))
}

/// How many characters of `s` are alphabetic.
pub open spec fn count_alphabetic(s: Seq<char>) -> nat
    decreases s.len(),
{
    if s.len() == 0 {
        0
    } else {
        count_alphabetic(s.drop_last()) + if alphabetic(s.last()) {
            1nat
        } else {
            0
        }
    }
}

/// How many characters of `s` are alphabetic and Vietnamese.
pub open spec fn count_vietnamese(s: Seq<char>) -> nat
    decreases s.len(),
{
    if s.len() == 0 {
        0
    } else {
        count_vietnamese(s.drop_last()) + if alphabetic(s.last()) && vi_letter(s.last()) {
            1nat
        } else {
            0
        }
    }
}

/// The form of a word that the lists of Vietnamese words hold: in lowercase, without white space
/// around it or closing punctuation after it.
pub open spec fn listed_form(s: Seq<char>) -> Seq<char> {
    trim_end(str_lower(trim_both(s, Trim::Space)), Trim::Closing)
}

/// What decides the language of a word.
#[derive(Clone, Copy, Debug)]
pub struct WordFacts {
    /// The word is punctuation.
    pub punct: bool,
    /// The word is a number.
    pub number: bool,
    /// The word looks like code.
    pub code: bool,
    /// The number of its alphabetic characters.
    pub alpha_count: usize,
    /// The number of those that are Vietnamese.
    pub vi_count: usize,
    /// The word is ASCII.
    pub ascii: bool,
    /// The word is in a list of Vietnamese words.
    pub listed: bool,
}

/// The language of a word of which the given is known. Three Vietnamese letters in twenty make a
/// word Vietnamese; so does a place in a list, unless the word is a single ASCII letter.
pub open spec fn lang_from(f: WordFacts) -> Lang {
    if f.punct {
        Lang::Punct
    } else if f.number {
        Lang::Num
    } else if f.code {
        Lang::Code
    } else if f.alpha_count == 0 {
        Lang::Num
    } else if 20 * f.vi_count >= 3 * f.alpha_count {
        Lang::Vi
    } else if f.alpha_count == 1 && f.vi_count == 0 && f.ascii {
        Lang::En
    } else if f.listed {
        Lang::Vi
    } else {
        Lang::En
    }
}

/// What decides the language of `s`, where `listed` are the listed Vietnamese words.
pub open spec fn word_facts(s: Seq<char>, listed: Set<Seq<char>>) -> WordFacts {
    WordFacts {
        punct: punctuation(s),
        number: number(s),
        code: code_shape(s),
        alpha_count: count_alphabetic(s) as usize,
        vi_count: count_vietnamese(s) as usize,
        ascii: is_ascii_chars(s),
        listed: listed.contains(listed_form(s)),
    }
}

/// The language of `s`, where `listed` are the listed Vietnamese words.
pub open spec fn lang_of(s: Seq<char>, listed: Set<Seq<char>>) -> Lang {
    lang_from(word_facts(s, listed))
}

/// Tells whether `token` is a number.
pub fn is_numeric(token: &str) -> (r: bool)
    ensures
        r == number(token@),
{
    let v = chars_of(token);
    for i in 0..v.len()
        invariant
            v@ == token@,
            forall|j: int| 0 <= j < i ==> number_char(#[trigger] v@[j]),
    {
        let c: char = v[i];
        let fits = ('0' <= c && c <= '9') || c == '.' || c == ',' || c == '/' || c == '%' || c
            == '$' || c == '+' || c == '-';
        if !fits {
            assert(!number_char(v@[i as int]));
            return false;
        }
    }
    v.len() > 0
}

/// Tells whether `token` is punctuation.
pub fn is_punct_token(token: &str) -> (r: bool)
    ensures
        r == punctuation(token@),
{
    let v = chars_of(token);
    let mut solid: bool = false;
    for i in 0..v.len()
        invariant
            v@ == token@,
            forall|j: int| 0 <= j < i ==> !alphanumeric(#[trigger] v@[j]),
            solid == exists|j: int| 0 <= j < i && !white_space(#[trigger] v@[j]),
    {
        if is_alphanumeric_char(v[i]) {
            assert(alphanumeric(v@[i as int]));
            return false;
        }
        if !is_white_space(v[i]) {
            solid = true;
            assert(!white_space(v@[i as int]));
        }
    }
    v.len() == 0 || solid
}

/// The numbers of alphabetic and of Vietnamese characters of `token`.
pub fn count_letters(token: &str, vi_chars: &HashSet<u32>) -> (r: (usize, usize))
    requires
        holds_vi_letters(vi_chars@),
    ensures
        r.0 == count_alphabetic(token@),
        r.1 == count_vietnamese(token@),
{
    let v = chars_of(token);
    let mut alpha_count: usize = 0;
    let mut vi_count: usize = 0;
    for i in 0..v.len()
        invariant
            holds_vi_letters(vi_chars@),
            v@ == token@,
            alpha_count == count_alphabetic(token@.take(i as int)),
            vi_count == count_vietnamese(token@.take(i as int)),
            vi_count <= alpha_count <= i,
    {
        assert(token@.take(i + 1).drop_last() == token@.take(i as int));
        if is_alphabetic_char(v[i]) {
            alpha_count = alpha_count + 1;
            if is_vi_letter(vi_chars, v[i]) {
                vi_count = vi_count + 1;
            }
        }
    }
    assert(token@.take(token@.len() as int) == token@);
    (alpha_count, vi_count)
}

/// The language of a word of which the given is known.
pub fn decide_lang(f: WordFacts) -> (r: Lang)
    ensures
        r == lang_from(f),
{
    if f.punct {
        return Lang::Punct;
    }
    if f.number {
        return Lang::Num;
    }
    if f.code {
        return Lang::Code;
    }
    if f.alpha_count == 0 {
        return Lang::Num;
    }
    if 20 * f.vi_count as u128 >= 3 * f.alpha_count as u128 {
        return Lang::Vi;
    }
    if f.alpha_count == 1 && f.vi_count == 0 && f.ascii {
        return Lang::En;
    }
    if f.listed {
        Lang::Vi
    } else {
        Lang::En
    }
}

/// The form of `token` that the lists of Vietnamese words hold.
pub fn to_listed_form(token: &str) -> (r: String)
    ensures
        r@ == listed_form(token@),
{
    let bare = trimmed(token, Trim::Space);
    let lower = to_lower(bare.as_str());
    trimmed_end(lower.as_str(), Trim::Closing)
}

} // verus!
