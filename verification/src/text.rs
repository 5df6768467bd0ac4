//! Operations on texts, stated over sequences of characters.
use crate::chars::{char_to_upper, char_upper, is_white_space, white_space};
use vstd::prelude::*;
use vstd::string::StringExecFns;
use vstd::utf8::encode_utf8;

verus! {

/// The texts of a sequence of strings.
pub open spec fn texts(v: Seq<String>) -> Seq<Seq<char>> {
    v.map_values(|s: String| s@)
}

/// The texts of a sequence, one after the other.
pub open spec fn concat(v: Seq<Seq<char>>) -> Seq<char>
    decreases v.len(),
{
    if v.len() == 0 {
        Seq::empty()
    } else {
        concat(v.drop_last()) + v.last()
    }
}

/// The characters of `s`.
pub fn chars_of(s: &str) -> (r: Vec<char>)
    ensures
        r@ == s@,
{
    let mut v: Vec<char> = Vec::new();
    for c in it: s.chars()
        invariant
            it.seq() == s@,
            v@ == s@.take(it.index()),
    {
        v.push(c);
    }
    v
}

/// The text of the characters from `from` up to `to`.
pub fn text_of(v: &Vec<char>, from: usize, to: usize) -> (r: String)
    requires
        from <= to <= v@.len(),
    ensures
        r@ == v@.subrange(from as int, to as int),
{
    let mut s = String::new();
    for i in from..to
        invariant
            from <= i <= to <= v@.len(),
            s@ == v@.subrange(from as int, i as int),
    {
        s.push(v[i]);
    }
    s
}

/// Tells whether two texts are the same.
pub fn same_text(a: &str, b: &str) -> (r: bool)
    ensures
        r == (a@ == b@),
{
    a.to_owned() == b.to_owned()
}

/// The number of bytes that `s` takes in UTF-8.
pub fn byte_len(s: &str) -> (r: usize)
    ensures
        r == encode_utf8(s@).len(),
{
    s.as_bytes().len()
}

/// The first text followed by the second.
pub fn joined(a: &str, b: &str) -> (r: String)
    ensures
        r@ == a@ + b@,
{
    let mut s = a.to_owned();
    s.append(b);
    s
}

/// The characters that a trim takes away.
#[derive(Clone, Copy)]
pub enum Trim {
    /// White space.
    Space,
    /// Punctuation that may surround a word: `.,!?;:()[]{}"'`.
    Punct,
    /// Punctuation that may close a word: `.,!?;:)`.
    Closing,
}

/// Whether `trim` takes `c` away.
pub open spec fn trims(trim: Trim, c: char) -> bool {
    match trim {
        Trim::Space => white_space(c),
        Trim::Punct => ".,!?;:()[]{}\"'"@.contains(c),
        Trim::Closing => ".,!?;:)"@.contains(c),
    }
}

/// `s` without the characters at its start that `trim` takes away.
pub open spec fn trim_start(s: Seq<char>, trim: Trim) -> Seq<char>
    decreases s.len(),
{
    if s.len() > 0 && trims(trim, s[0]) {
        trim_start(s.drop_first(), trim)
    } else {
        s
    }
}

/// `s` without the characters at its end that `trim` takes away.
pub open spec fn trim_end(s: Seq<char>, trim: Trim) -> Seq<char>
    decreases s.len(),
{
    if s.len() > 0 && trims(trim, s.last()) {
        trim_end(s.drop_last(), trim)
    } else {
        s
    }
}

/// `s` without the characters at either end that `trim` takes away.
pub open spec fn trim_both(s: Seq<char>, trim: Trim) -> Seq<char> {
    trim_start(trim_end(s, trim), trim)
}

/// Tells whether `c` occurs in `s`.
pub fn has_char(s: &str, c: char) -> (r: bool)
    ensures
        r == s@.contains(c),
{
    let v = chars_of(s);
    for i in 0..v.len()
        invariant
            v@ == s@,
            forall|j: int| 0 <= j < i ==> v@[j] != c,
    {
        if v[i] == c {
            return true;
        }
    }
    false
}

/// Tells whether `trim` takes `c` away.
pub fn is_trimmed(trim: Trim, c: char) -> (r: bool)
    ensures
        r == trims(trim, c),
{
    match trim {
        Trim::Space => is_white_space(c),
        Trim::Punct => has_char(".,!?;:()[]{}\"'", c),
        Trim::Closing => has_char(".,!?;:)", c),
    }
}

/// How many characters `v` keeps when its end is trimmed.
fn kept_end(v: &Vec<char>, trim: Trim) -> (r: usize)
    ensures
        r <= v@.len(),
        v@.take(r as int) == trim_end(v@, trim),
{
    let mut end: usize = v.len();
    assert(v@.take(v@.len() as int) == v@);
    while end > 0 && is_trimmed(trim, v[end - 1])
        invariant
            end <= v@.len(),
            trim_end(v@.take(end as int), trim) == trim_end(v@, trim),
        decreases end,
    {
        assert(v@.take(end as int).drop_last() == v@.take(end - 1));
        end = end - 1;
    }
    end
}

/// How many of the first `end` characters of `v` go when its start is trimmed.
fn cut_start(v: &Vec<char>, end: usize, trim: Trim) -> (r: usize)
    requires
        end <= v@.len(),
    ensures
        r <= end,
        v@.subrange(r as int, end as int) == trim_start(v@.take(end as int), trim),
{
    let mut start: usize = 0;
    assert(v@.subrange(0, end as int) == v@.take(end as int));
    while start < end && is_trimmed(trim, v[start])
        invariant
            start <= end <= v@.len(),
            trim_start(v@.subrange(start as int, end as int), trim) == trim_start(
                v@.take(end as int),
                trim,
            ),
        decreases end - start,
    {
        assert(v@.subrange(start as int, end as int).drop_first() == v@.subrange(
            start + 1,
            end as int,
        ));
        start = start + 1;
    }
    start
}

/// Takes the characters of `trim` away from the start of `s`.
pub fn trimmed_start(s: &str, trim: Trim) -> (r: String)
    ensures
        r@ == trim_start(s@, trim),
{
    let v = chars_of(s);
    let n: usize = v.len();
    let start = cut_start(&v, n, trim);
    assert(v@.take(n as int) == s@);
    text_of(&v, start, n)
}

/// Takes the characters of `trim` away from the end of `s`.
pub fn trimmed_end(s: &str, trim: Trim) -> (r: String)
    ensures
        r@ == trim_end(s@, trim),
{
    let v = chars_of(s);
    let end = kept_end(&v, trim);
    assert(v@.subrange(0, end as int) == v@.take(end as int));
    text_of(&v, 0, end)
}

/// Takes the characters of `trim` away from both ends of `s`.
pub fn trimmed(s: &str, trim: Trim) -> (r: String)
    ensures
        r@ == trim_both(s@, trim),
{
    let v = chars_of(s);
    let end = kept_end(&v, trim);
    let start = cut_start(&v, end, trim);
    text_of(&v, start, end)
}

/// The fields of `s` between the occurrences of `sep`; there is one more of them than of `sep`.
pub open spec fn fields(s: Seq<char>, sep: char) -> Seq<Seq<char>>
    decreases s.len(),
{
    if s.len() == 0 {
        seq![Seq::empty()]
    } else {
        let before = fields(s.drop_last(), sep);
        if s.last() == sep {
            before.push(Seq::empty())
        } else {
            before.drop_last().push(before.last().push(s.last()))
        }
    }
}

/// A text has at least one field.
pub proof fn lemma_fields_nonempty(s: Seq<char>, sep: char)
    ensures
        fields(s, sep).len() > 0,
    decreases s.len(),
{
    if s.len() > 0 {
        lemma_fields_nonempty(s.drop_last(), sep);
    }
}

/// Splits `s` at every occurrence of `sep`.
pub fn split_on(s: &str, sep: char) -> (r: Vec<String>)
    ensures
        texts(r@) == fields(s@, sep),
{
    let mut done: Vec<String> = Vec::new();
    let mut current = String::new();
    assert(texts(done@).push(current@) == fields(s@.take(0), sep));
    for c in it: s.chars()
        invariant
            it.seq() == s@,
            texts(done@).push(current@) == fields(s@.take(it.index()), sep),
    {
        let ghost before = texts(done@).push(current@);
        assert(s@.take(it.index() + 1).drop_last() == s@.take(it.index()));
        assert(before.drop_last() == texts(done@));
        if c == sep {
            done.push(current);
            current = String::new();
            assert(texts(done@) == before);
        } else {
            current.push(c);
        }
    }
    assert(s@.take(s@.len() as int) == s@);
    let ghost before = texts(done@).push(current@);
    done.push(current);
    assert(texts(done@) == before);
    done
}

/// The texts of `v` with `sep` between them.
pub open spec fn join(v: Seq<Seq<char>>, sep: char) -> Seq<char>
    decreases v.len(),
{
    if v.len() == 0 {
        Seq::empty()
    } else if v.len() == 1 {
        v[0]
    } else {
        join(v.drop_last(), sep).push(sep) + v.last()
    }
}

/// Joins the texts of `v` with `sep`.
pub fn join_with(v: &Vec<String>, sep: char) -> (r: String)
    ensures
        r@ == join(texts(v@), sep),
{
    let mut out = String::new();
    for i in 0..v.len()
        invariant
            out@ == join(texts(v@).take(i as int), sep),
    {
        if i > 0 {
            out.push(sep);
        }
        out.append(v[i].as_str());
        assert(texts(v@).take(i + 1).drop_last() == texts(v@).take(i as int));
    }
    assert(texts(v@).take(v@.len() as int) == texts(v@));
    out
}

/// `s` with its first character in uppercase.
pub open spec fn titled(s: Seq<char>) -> Seq<char> {
    if s.len() == 0 {
        s
    } else {
        char_upper(s[0]) + s.drop_first()
    }
}

/// Puts the first character of `s` in uppercase.
pub fn to_title(s: &str) -> (r: String)
    ensures
        r@ == titled(s@),
{
    let v = chars_of(s);
    if v.len() == 0 {
        return s.to_owned();
    }
    let mut out = char_to_upper(v[0]);
    let rest = text_of(&v, 1, v.len());
    out.append(rest.as_str());
    out
}

/// The hexadecimal digit of a value below sixteen, letters in capitals.
pub open spec fn hex_digit(n: int) -> char {
    if n < 10 {
        (0x30 + n) as char
    } else {
        (0x41 + n - 10) as char
    }
}

/// The token that stands for one byte: `<0x`, two hexadecimal digits and `>`.
pub open spec fn byte_token(b: u8) -> Seq<char> {
    seq!['<', '0', 'x', hex_digit(b as int / 16), hex_digit(b as int % 16), '>']
}

/// The value of a hexadecimal digit of either case.
pub open spec fn hex_value(c: char) -> Option<int> {
    if '0' <= c <= '9' {
        Some(c as int - 0x30)
    } else if 'a' <= c <= 'f' {
        Some(c as int - 0x61 + 10)
    } else if 'A' <= c <= 'F' {
        Some(c as int - 0x41 + 10)
    } else {
        None
    }
}

/// The value of a numeral of two places: two hexadecimal digits, or a plus sign and one digit.
pub open spec fn hex_pair(a: char, b: char) -> Option<int> {
    match (hex_value(a), hex_value(b)) {
        (Some(x), Some(y)) => Some(16 * x + y),
        (None, Some(y)) if a == '+' => Some(y),
        _ => None,
    }
}

/// The byte that a token stands for, where it is of the form of a byte token.
pub open spec fn token_byte(s: Seq<char>) -> Option<u8> {
    if s.len() == 6 && s[0] == '<' && s[1] == '0' && s[2] == 'x' && s[5] == '>' {
        match hex_pair(s[3], s[4]) {
            Some(v) => Some(v as u8),
            None => None,
        }
    } else {
        None
    }
}

/// Every byte token stands for the byte that it was made of.
pub proof fn lemma_byte_token_round_trip(b: u8)
    ensures
        token_byte(byte_token(b)) == Some(b),
{
}

/// The hexadecimal digit of `n`.
fn hex_digit_of(n: u8) -> (r: char)
    requires
        n < 16,
    ensures
        r == hex_digit(n as int),
{
    if n < 10 {
        (0x30 + n) as char
    } else {
        (0x41 + (n - 10)) as char
    }
}

/// The token that stands for the byte `b`.
pub fn to_byte_token(b: u8) -> (r: String)
    ensures
        r@ == byte_token(b),
{
    let mut s = String::new();
    s.push('<');
    s.push('0');
    s.push('x');
    s.push(hex_digit_of(b / 16));
    s.push(hex_digit_of(b % 16));
    s.push('>');
    s
}

/// The value of the hexadecimal digit `c`.
fn hex_value_of(c: char) -> (r: Option<u8>)
    ensures
        match r {
            Some(v) => v < 16 && hex_value(c) == Some(v as int),
            None => hex_value(c) is None,
        },
{
    if '0' <= c && c <= '9' {
        Some(c as u8 - 0x30)
    } else if 'a' <= c && c <= 'f' {
        Some(c as u8 - 0x61 + 10)
    } else if 'A' <= c && c <= 'F' {
        Some(c as u8 - 0x41 + 10)
    } else {
        None
    }
}

/// The byte that `token` stands for, where it is of the form of a byte token.
pub fn parse_byte_token(token: &str) -> (r: Option<u8>)
    ensures
        r == token_byte(token@),
{
    let v = chars_of(token);
    if v.len() == 6 && v[0] == '<' && v[1] == '0' && v[2] == 'x' && v[5] == '>' {
        match hex_value_of(v[4]) {
            None => None,
            Some(low) => match hex_value_of(v[3]) {
                Some(high) => Some(16 * high + low),
                None => if v[3] == '+' {
                    Some(low)
                } else {
                    None
                },
            },
        }
    } else {
        None
    }
}

} // verus!
