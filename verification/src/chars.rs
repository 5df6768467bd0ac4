//! Character classes and case mappings.
//!
//! The Unicode tables behind alphabetic, numeric and cased characters are those of `std`. On ASCII
//! every class and every mapping is spelled out here; beyond ASCII the answer of `std` has a name,
//! and the contracts speak of that name.
use std::collections::HashSet;
use vstd::prelude::*;
use vstd::utf8::is_ascii_chars;

verus! {

/// What `char::is_alphabetic` answers.
pub uninterp spec fn unicode_alphabetic(c: char) -> bool;

/// What `char::is_numeric` answers.
pub uninterp spec fn unicode_numeric(c: char) -> bool;

/// What `char::is_uppercase` answers.
pub uninterp spec fn unicode_uppercase(c: char) -> bool;

/// What `char::is_lowercase` answers.
pub uninterp spec fn unicode_lowercase(c: char) -> bool;

/// The characters that `char::to_lowercase` yields.
pub uninterp spec fn unicode_char_lower(c: char) -> Seq<char>;

/// The characters that `char::to_uppercase` yields.
pub uninterp spec fn unicode_char_upper(c: char) -> Seq<char>;

/// The text that `str::to_lowercase` returns.
pub uninterp spec fn unicode_str_lower(s: Seq<char>) -> Seq<char>;

/// The text that `str::to_uppercase` returns.
pub uninterp spec fn unicode_str_upper(s: Seq<char>) -> Seq<char>;

/// `char::is_alphabetic` looks its argument up in a fixed table: the answer depends on the
/// character alone.
pub assume_specification[ char::is_alphabetic ](c: char) -> (r: bool)
    ensures
        r == unicode_alphabetic(c),
;

/// `char::is_numeric` looks its argument up in a fixed table: the answer depends on the character
/// alone.
#[verifier::external_body]
fn std_numeric(c: char) -> (r: bool)
    ensures
        r == unicode_numeric(c),
{
    c.is_numeric()
}

/// `char::is_uppercase` looks its argument up in a fixed table: the answer depends on the character
/// alone.
pub assume_specification[ char::is_uppercase ](c: char) -> (r: bool)
    ensures
        r == unicode_uppercase(c),
;

/// `char::is_lowercase` looks its argument up in a fixed table: the answer depends on the character
/// alone.
pub assume_specification[ char::is_lowercase ](c: char) -> (r: bool)
    ensures
        r == unicode_lowercase(c),
;

/// `char::to_lowercase` yields characters that depend on its argument alone; they are collected
/// into a string.
#[verifier::external_body]
fn std_char_lower(c: char) -> (r: String)
    ensures
        r@ == unicode_char_lower(c),
{
    c.to_lowercase().to_string()
}

/// `char::to_uppercase` yields characters that depend on its argument alone; they are collected
/// into a string.
#[verifier::external_body]
fn std_char_upper(c: char) -> (r: String)
    ensures
        r@ == unicode_char_upper(c),
{
    c.to_uppercase().to_string()
}

/// `str::to_lowercase` returns a text that depends on its argument alone. Every character becomes
/// one or more characters, and none but the underscore, which has no case, becomes an underscore.
pub assume_specification[ str::to_lowercase ](s: &str) -> (r: String)
    ensures
        r@ == unicode_str_lower(s@),
        spoken(s@) ==> spoken(r@),
;

/// `str::to_uppercase` returns a text that depends on its argument alone.
pub assume_specification[ str::to_uppercase ](s: &str) -> (r: String)
    ensures
        r@ == unicode_str_upper(s@),
;

/// `String::push` appends the character at the end of the string.
pub assume_specification[ String::push ](s: &mut String, c: char)
    ensures
        final(s)@ == old(s)@.push(c),
;

/// That a text holds more than underscores.
pub open spec fn spoken(s: Seq<char>) -> bool {
    exists|i: int| 0 <= i < s.len() && #[trigger] s[i] != '_'
}

/// Whether `c` is an ASCII character.
pub open spec fn ascii(c: char) -> bool {
    (c as u32) < 0x80
}

/// An alphabetic character: on ASCII the letters, beyond it what Unicode says.
pub open spec fn alphabetic(c: char) -> bool {
    if ascii(c) {
        'a' <= c <= 'z' || 'A' <= c <= 'Z'
    } else {
        unicode_alphabetic(c)
    }
}

/// A numeric character: on ASCII the digits, beyond it what Unicode says.
pub open spec fn numeric(c: char) -> bool {
    if ascii(c) {
        '0' <= c <= '9'
    } else {
        unicode_numeric(c)
    }
}

/// An alphanumeric character is an alphabetic or a numeric one.
pub open spec fn alphanumeric(c: char) -> bool {
    alphabetic(c) || numeric(c)
}

/// An uppercase character: on ASCII the capital letters, beyond it what Unicode says.
pub open spec fn uppercase(c: char) -> bool {
    if ascii(c) {
        'A' <= c <= 'Z'
    } else {
        unicode_uppercase(c)
    }
}

/// A lowercase character: on ASCII the small letters, beyond it what Unicode says.
pub open spec fn lowercase(c: char) -> bool {
    if ascii(c) {
        'a' <= c <= 'z'
    } else {
        unicode_lowercase(c)
    }
}

/// The characters with the Unicode property `White_Space`.
pub open spec fn white_space(c: char) -> bool {
    let code = c as u32;
    ||| 0x0009 <= code <= 0x000D
    ||| code == 0x0020
    ||| code == 0x0085
    ||| code == 0x00A0
    ||| code == 0x1680
    ||| 0x2000 <= code <= 0x200A
    ||| 0x2028 <= code <= 0x2029
    ||| code == 0x202F
    ||| code == 0x205F
    ||| code == 0x3000
}

/// Tells whether `c` is alphabetic, as `char::is_alphabetic` does.
pub fn is_alphabetic_char(c: char) -> (r: bool)
    ensures
        r == alphabetic(c),
{
    if (c as u32) < 0x80 {
        ('a' <= c && c <= 'z') || ('A' <= c && c <= 'Z')
    } else {
        c.is_alphabetic()
    }
}

/// Tells whether `c` is alphanumeric, as `char::is_alphanumeric` does.
pub fn is_alphanumeric_char(c: char) -> (r: bool)
    ensures
        r == alphanumeric(c),
{
    if is_alphabetic_char(c) {
        true
    } else if (c as u32) < 0x80 {
        '0' <= c && c <= '9'
    } else {
        std_numeric(c)
    }
}

/// Tells whether `c` is uppercase, as `char::is_uppercase` does.
pub fn is_uppercase_char(c: char) -> (r: bool)
    ensures
        r == uppercase(c),
{
    if (c as u32) < 0x80 {
        'A' <= c && c <= 'Z'
    } else {
        c.is_uppercase()
    }
}

/// Tells whether `c` is lowercase, as `char::is_lowercase` does.
pub fn is_lowercase_char(c: char) -> (r: bool)
    ensures
        r == lowercase(c),
{
    if (c as u32) < 0x80 {
        'a' <= c && c <= 'z'
    } else {
        c.is_lowercase()
    }
}

/// Tells whether `c` is white space, as `char::is_whitespace` does.
pub fn is_white_space(c: char) -> (r: bool)
    ensures
        r == white_space(c),
{
    let code: u32 = c as u32;
    (0x0009 <= code && code <= 0x000D) || code == 0x0020 || code == 0x0085 || code == 0x00A0
        || code == 0x1680 || (0x2000 <= code && code <= 0x200A) || (0x2028 <= code && code
        <= 0x2029) || code == 0x202F || code == 0x205F || code == 0x3000
}

/// The small letter of an ASCII capital; any other character is its own.
pub open spec fn ascii_lower(c: char) -> char {
    if 'A' <= c <= 'Z' {
        (c as u8 + 32) as char
    } else {
        c
    }
}

/// The capital of an ASCII small letter; any other character is its own.
pub open spec fn ascii_upper(c: char) -> char {
    if 'a' <= c <= 'z' {
        (c as u8 - 32) as char
    } else {
        c
    }
}

/// The lowercase form of one character, which may take more than one.
pub open spec fn char_lower(c: char) -> Seq<char> {
    if ascii(c) {
        seq![ascii_lower(c)]
    } else {
        unicode_char_lower(c)
    }
}

/// The uppercase form of one character, which may take more than one.
pub open spec fn char_upper(c: char) -> Seq<char> {
    if ascii(c) {
        seq![ascii_upper(c)]
    } else {
        unicode_char_upper(c)
    }
}

/// The lowercase form of a text.
pub open spec fn str_lower(s: Seq<char>) -> Seq<char> {
    if is_ascii_chars(s) {
        s.map_values(|c: char| ascii_lower(c))
    } else {
        unicode_str_lower(s)
    }
}

/// The uppercase form of a text.
pub open spec fn str_upper(s: Seq<char>) -> Seq<char> {
    if is_ascii_chars(s) {
        s.map_values(|c: char| ascii_upper(c))
    } else {
        unicode_str_upper(s)
    }
}

/// The small letter of an ASCII capital; any other character is returned as it is.
pub fn to_ascii_lower(c: char) -> (r: char)
    ensures
        r == ascii_lower(c),
{
    if 'A' <= c && c <= 'Z' {
        (c as u8 + 32) as char
    } else {
        c
    }
}

/// The capital of an ASCII small letter; any other character is returned as it is.
pub fn to_ascii_upper(c: char) -> (r: char)
    ensures
        r == ascii_upper(c),
{
    if 'a' <= c && c <= 'z' {
        (c as u8 - 32) as char
    } else {
        c
    }
}

/// The lowercase form of one character, as `char::to_lowercase` spells it.
pub fn char_to_lower(c: char) -> (r: String)
    ensures
        r@ == char_lower(c),
{
    if (c as u32) < 0x80 {
        let mut s = String::new();
        s.push(to_ascii_lower(c));
        s
    } else {
        std_char_lower(c)
    }
}

/// The uppercase form of one character, as `char::to_uppercase` spells it.
pub fn char_to_upper(c: char) -> (r: String)
    ensures
        r@ == char_upper(c),
{
    if (c as u32) < 0x80 {
        let mut s = String::new();
        s.push(to_ascii_upper(c));
        s
    } else {
        std_char_upper(c)
    }
}

/// An ASCII text that holds more than underscores does so in lowercase.
pub proof fn lemma_ascii_spoken(s: Seq<char>)
    requires
        is_ascii_chars(s),
        spoken(s),
    ensures
        spoken(str_lower(s)),
{
    let i = choose|i: int| 0 <= i < s.len() && #[trigger] s[i] != '_';
    assert(str_lower(s)[i] == ascii_lower(s[i]));
}

/// The lowercase form of a text, as `str::to_lowercase` spells it.
pub fn to_lower(s: &str) -> (r: String)
    ensures
        r@ == str_lower(s@),
        spoken(s@) ==> spoken(r@),
{
    proof {
        if is_ascii_chars(s@) && spoken(s@) {
            lemma_ascii_spoken(s@);
        }
    }
    if s.is_ascii() {
        let mut out = String::new();
        for c in it: s.chars()
            invariant
                it.seq() == s@,
                out@ == s@.take(it.index()).map_values(|c: char| ascii_lower(c)),
        {
            out.push(to_ascii_lower(c));
        }
        out
    } else {
        s.to_lowercase()
    }
}

/// The uppercase form of a text, as `str::to_uppercase` spells it.
pub fn to_upper(s: &str) -> (r: String)
    ensures
        r@ == str_upper(s@),
{
    if s.is_ascii() {
        let mut out = String::new();
        for c in it: s.chars()
            invariant
                it.seq() == s@,
                out@ == s@.take(it.index()).map_values(|c: char| ascii_upper(c)),
        {
            out.push(to_ascii_upper(c));
        }
        out
    } else {
        s.to_uppercase()
    }
}

/// The letters that mark a text as Vietnamese: every vowel with a diacritic, and the barred d.
pub const VI_LETTERS: &'static str =
    "àáảãạăắặằẳẵâấầẩẫậđèéẻẽẹêếềểễệìíỉĩịòóỏõọôốồổỗộơớờởỡợùúủũụưứừửữựỳýỷỹỵÀÁẢÃẠĂẮẶẰẲẴÂẤẦẨẪẬĐÈÉẺẼẸÊẾỀỂỄỆÌÍỈĨỊÒÓỎÕỌÔỐỒỔỖỘƠỚỜỞỠỢÙÚỦŨỤƯỨỪỬỮỰỲÝỶỸỴ";

/// A Vietnamese letter with a diacritic.
pub open spec fn vi_letter(c: char) -> bool {
    VI_LETTERS@.contains(c)
}

/// That `set` holds the code points of the Vietnamese letters and nothing else.
pub open spec fn holds_vi_letters(set: Set<u32>) -> bool {
    forall|code: u32| #[trigger]
        set.contains(code) <==> exists|i: int|
            0 <= i < VI_LETTERS@.len() && #[trigger] VI_LETTERS@[i] as u32 == code
}

/// The code points of the Vietnamese letters.
pub fn build_vi_chars() -> (r: HashSet<u32>)
    ensures
        holds_vi_letters(r@),
{
    let mut set: HashSet<u32> = HashSet::new();
    for c in it: VI_LETTERS.chars()
        invariant
            it.seq() == VI_LETTERS@,
            forall|code: u32| #[trigger]
                set@.contains(code) <==> exists|i: int|
                    0 <= i < it.index() && #[trigger] VI_LETTERS@[i] as u32 == code,
    {
        set.insert(c as u32);
    }
    set
}

/// Characters with the same code point are the same.
proof fn lemma_same_code_point(a: char, b: char)
    requires
        a as u32 == b as u32,
    ensures
        a == b,
{
}

/// Tells whether `c` is one of the letters of `set`.
pub fn is_vi_letter(set: &HashSet<u32>, c: char) -> (r: bool)
    requires
        holds_vi_letters(set@),
    ensures
        r == vi_letter(c),
{
    let code: u32 = c as u32;
    proof {
        assert forall|i: int|
            0 <= i < VI_LETTERS@.len() && VI_LETTERS@[i] as u32 == code implies #[trigger]
        VI_LETTERS@[i] == c by {
            lemma_same_code_point(VI_LETTERS@[i], c);
        }
        if vi_letter(c) {
            let i = choose|i: int| 0 <= i < VI_LETTERS@.len() && VI_LETTERS@[i] == c;
            assert(VI_LETTERS@[i] as u32 == code);
        }
    }
    set.contains(&code)
}

/// The characters that continue the token before them instead of starting one of their own: the
/// blocks of combining marks below `U+0FC6`, and everything from there on.
pub open spec fn combining_mark(c: char) -> bool {
    let code = c as u32;
    ||| code >= 0x0FC6
    ||| 0x0300 <= code <= 0x036F
    ||| 0x0483 <= code <= 0x0489
    ||| 0x0591 <= code <= 0x05BD
    ||| 0x0610 <= code <= 0x061A
    ||| 0x064B <= code <= 0x065F
    ||| 0x0670 <= code <= 0x06D6
    ||| 0x0901 <= code <= 0x0903
    ||| 0x093A <= code <= 0x093C
    ||| 0x093E <= code <= 0x094F
    ||| 0x0951 <= code <= 0x0957
    ||| 0x0962 <= code <= 0x0963
    ||| 0x0981 <= code <= 0x0983
    ||| 0x09BC <= code <= 0x09C4
    ||| 0x09E2 <= code <= 0x09E3
    ||| 0x0A01 <= code <= 0x0A03
    ||| 0x0A3C <= code <= 0x0A4F
    ||| 0x0A81 <= code <= 0x0A83
    ||| 0x0ABC <= code <= 0x0AC5
    ||| 0x0AC7 <= code <= 0x0AC9
    ||| 0x0ACB <= code <= 0x0ACD
    ||| 0x0AE2 <= code <= 0x0AE3
    ||| 0x0B01 <= code <= 0x0B03
    ||| 0x0B3C <= code <= 0x0B44
    ||| 0x0B47 <= code <= 0x0B48
    ||| 0x0B4B <= code <= 0x0B4D
    ||| 0x0B56 <= code <= 0x0B57
    ||| 0x0B62 <= code <= 0x0B63
    ||| 0x0B82 <= code <= 0x0B83
    ||| 0x0BC0 <= code <= 0x0BCD
    ||| 0x0C00 <= code <= 0x0C03
    ||| 0x0C3E <= code <= 0x0C44
    ||| 0x0C46 <= code <= 0x0C48
    ||| 0x0C4A <= code <= 0x0C4D
    ||| 0x0C55 <= code <= 0x0C56
    ||| 0x0C62 <= code <= 0x0C63
    ||| 0x0C81 <= code <= 0x0C83
    ||| 0x0CBC <= code <= 0x0CC4
    ||| 0x0CC6 <= code <= 0x0CC8
    ||| 0x0CCA <= code <= 0x0CCD
    ||| 0x0CD5 <= code <= 0x0CD6
    ||| 0x0CE2 <= code <= 0x0CE3
    ||| 0x0D01 <= code <= 0x0D03
    ||| 0x0D3E <= code <= 0x0D44
    ||| 0x0D46 <= code <= 0x0D48
    ||| 0x0D4A <= code <= 0x0D4D
    ||| 0x0D62 <= code <= 0x0D63
    ||| 0x0DCA <= code <= 0x0DDF
    ||| 0x0E31 <= code <= 0x0E3A
    ||| 0x0E47 <= code <= 0x0E4E
    ||| 0x0EB1 <= code <= 0x0EBB
    ||| 0x0EC8 <= code <= 0x0ECD
    ||| 0x0F18 <= code <= 0x0F19
    ||| 0x0F35 <= code <= 0x0F39
    ||| 0x0F3E <= code <= 0x0F3F
    ||| 0x0F71 <= code <= 0x0F84
    ||| 0x0F86 <= code <= 0x0F87
    ||| 0x0F8D <= code <= 0x0FBC
}

/// Tells whether `c` continues the token before it.
pub fn is_combining_mark(c: char) -> (r: bool)
    ensures
        r == combining_mark(c),
{
    let code: u32 = c as u32;
    code >= 0x0FC6
        || (0x0300 <= code && code <= 0x036F)
        || (0x0483 <= code && code <= 0x0489)
        || (0x0591 <= code && code <= 0x05BD)
        || (0x0610 <= code && code <= 0x061A)
        || (0x064B <= code && code <= 0x065F)
        || (0x0670 <= code && code <= 0x06D6)
        || (0x0901 <= code && code <= 0x0903)
        || (0x093A <= code && code <= 0x093C)
        || (0x093E <= code && code <= 0x094F)
        || (0x0951 <= code && code <= 0x0957)
        || (0x0962 <= code && code <= 0x0963)
        || (0x0981 <= code && code <= 0x0983)
        || (0x09BC <= code && code <= 0x09C4)
        || (0x09E2 <= code && code <= 0x09E3)
        || (0x0A01 <= code && code <= 0x0A03)
        || (0x0A3C <= code && code <= 0x0A4F)
        || (0x0A81 <= code && code <= 0x0A83)
        || (0x0ABC <= code && code <= 0x0AC5)
        || (0x0AC7 <= code && code <= 0x0AC9)
        || (0x0ACB <= code && code <= 0x0ACD)
        || (0x0AE2 <= code && code <= 0x0AE3)
        || (0x0B01 <= code && code <= 0x0B03)
        || (0x0B3C <= code && code <= 0x0B44)
        || (0x0B47 <= code && code <= 0x0B48)
        || (0x0B4B <= code && code <= 0x0B4D)
        || (0x0B56 <= code && code <= 0x0B57)
        || (0x0B62 <= code && code <= 0x0B63)
        || (0x0B82 <= code && code <= 0x0B83)
        || (0x0BC0 <= code && code <= 0x0BCD)
        || (0x0C00 <= code && code <= 0x0C03)
        || (0x0C3E <= code && code <= 0x0C44)
        || (0x0C46 <= code && code <= 0x0C48)
        || (0x0C4A <= code && code <= 0x0C4D)
        || (0x0C55 <= code && code <= 0x0C56)
        || (0x0C62 <= code && code <= 0x0C63)
        || (0x0C81 <= code && code <= 0x0C83)
        || (0x0CBC <= code && code <= 0x0CC4)
        || (0x0CC6 <= code && code <= 0x0CC8)
        || (0x0CCA <= code && code <= 0x0CCD)
        || (0x0CD5 <= code && code <= 0x0CD6)
        || (0x0CE2 <= code && code <= 0x0CE3)
        || (0x0D01 <= code && code <= 0x0D03)
        || (0x0D3E <= code && code <= 0x0D44)
        || (0x0D46 <= code && code <= 0x0D48)
        || (0x0D4A <= code && code <= 0x0D4D)
        || (0x0D62 <= code && code <= 0x0D63)
        || (0x0DCA <= code && code <= 0x0DDF)
        || (0x0E31 <= code && code <= 0x0E3A)
        || (0x0E47 <= code && code <= 0x0E4E)
        || (0x0EB1 <= code && code <= 0x0EBB)
        || (0x0EC8 <= code && code <= 0x0ECD)
        || (0x0F18 <= code && code <= 0x0F19)
        || (0x0F35 <= code && code <= 0x0F39)
        || (0x0F3E <= code && code <= 0x0F3F)
        || (0x0F71 <= code && code <= 0x0F84)
        || (0x0F86 <= code && code <= 0x0F87)
        || (0x0F8D <= code && code <= 0x0FBC)
}

} // verus!
