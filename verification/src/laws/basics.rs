//! What holds of the operations on texts, maps and scores that everything else rests on.
use crate::chars::{
    char_lower, char_upper, str_lower, str_upper, unicode_char_lower, unicode_char_upper,
    unicode_str_lower, unicode_str_upper, white_space,
};
use crate::laws::language::one_of;
use crate::score::{FixedScore, Score};
use crate::segment::{compound_of, lower_each};
use crate::sort::text_before;
use crate::str_map::map_of;
use crate::text::{
    byte_token, fields, hex_digit, hex_pair, hex_value, join, titled, token_byte, trim_both,
    trim_end, trim_start, trims, Trim,
};
use vstd::prelude::*;
use vstd::utf8::is_ascii_chars;

verus! {

// Trims

/// The characters that the trims take away.
pub proof fn law_trimmed_characters(c: char)
    ensures
        trims(Trim::Space, c) <==> white_space(c),
        trims(Trim::Punct, c) <==> one_of(c, ".,!?;:()[]{}\"'"@),
        trims(Trim::Closing, c) <==> one_of(c, ".,!?;:)"@),
{
    assert forall|s: Seq<char>| #[trigger] s.contains(c) <==> one_of(c, s) by {
        if s.contains(c) {
            let i = choose|i: int| 0 <= i < s.len() && s[i] == c;
            assert(s[i] == c);
        }
        if one_of(c, s) {
            let i = choose|i: int| 0 <= i < s.len() && #[trigger] s[i] == c;
            assert(s.contains(s[i]));
        }
    }
    assert(".,!?;:()[]{}\"'"@.contains(c) <==> one_of(c, ".,!?;:()[]{}\"'"@));
    assert(".,!?;:)"@.contains(c) <==> one_of(c, ".,!?;:)"@));
}

/// A trim of the start takes away exactly the characters at the start that it can: what is left is
/// the end of the text, does not start with such a character, and only such ones went.
pub proof fn law_trim_start(s: Seq<char>, trim: Trim)
    ensures
        ({
            let kept = trim_start(s, trim);
            let gone = s.len() - kept.len();
            &&& 0 <= gone
            &&& kept == s.skip(gone)
            &&& forall|i: int| 0 <= i < gone ==> trims(trim, #[trigger] s[i])
            &&& kept.len() > 0 ==> !trims(trim, kept[0])
        }),
    decreases s.len(),
{
    if s.len() > 0 && trims(trim, s[0]) {
        let rest = s.drop_first();
        law_trim_start(rest, trim);
        let kept = trim_start(rest, trim);
        let gone = s.len() - kept.len();
        assert(rest.skip(gone - 1) == s.skip(gone));
        assert forall|i: int| 0 <= i < gone implies trims(trim, #[trigger] s[i]) by {
            if i > 0 {
                assert(trims(trim, rest[i - 1]));
            }
        }
    } else {
        assert(s.skip(0) == s);
    }
}

/// A trim of the end takes away exactly the characters at the end that it can.
pub proof fn law_trim_end(s: Seq<char>, trim: Trim)
    ensures
        ({
            let kept = trim_end(s, trim);
            &&& kept.len() <= s.len()
            &&& kept == s.take(kept.len() as int)
            &&& forall|i: int| kept.len() <= i < s.len() ==> trims(trim, #[trigger] s[i])
            &&& kept.len() > 0 ==> !trims(trim, kept.last())
        }),
    decreases s.len(),
{
    if s.len() > 0 && trims(trim, s.last()) {
        let rest = s.drop_last();
        law_trim_end(rest, trim);
        let kept = trim_end(rest, trim);
        assert(rest.take(kept.len() as int) == s.take(kept.len() as int));
        assert forall|i: int| kept.len() <= i < s.len() implies trims(trim, #[trigger] s[i]) by {
            if i < rest.len() {
                assert(trims(trim, rest[i]));
            }
        }
    } else {
        assert(s.take(s.len() as int) == s);
    }
}

/// A trim of both ends is one of the end and one of the start.
pub proof fn law_trim_both(s: Seq<char>, trim: Trim)
    ensures
        trim_both(s, trim) == trim_start(trim_end(s, trim), trim),
{
}

// Fields

/// The fields of a text hold no separator, and joined by it make the text again.
pub proof fn law_fields(s: Seq<char>, sep: char)
    ensures
        fields(s, sep).len() > 0,
        join(fields(s, sep), sep) == s,
        forall|i: int|
            0 <= i < fields(s, sep).len() ==> !(#[trigger] fields(s, sep)[i]).contains(sep),
    decreases s.len(),
{
    if s.len() == 0 {
        assert(join(fields(s, sep), sep) == s);
        assert(!Seq::<char>::empty().contains(sep));
    } else {
        let c = s.last();
        let before = fields(s.drop_last(), sep);
        let now = fields(s, sep);
        law_fields(s.drop_last(), sep);
        assert(s.drop_last().push(c) == s);
        if c == sep {
            assert(now.drop_last() == before);
            assert(join(before, sep).push(sep) + Seq::<char>::empty() == s);
            assert(!Seq::<char>::empty().contains(sep));
            assert forall|i: int| 0 <= i < now.len() implies !(#[trigger] now[i]).contains(sep) by {
                if i < before.len() {
                    assert(now[i] == before[i]);
                }
            }
        } else {
            let last = before.last();
            assert(now.drop_last() == before.drop_last());
            if before.len() > 1 {
                assert(join(before, sep) == join(before.drop_last(), sep).push(sep) + last);
                assert(join(before.drop_last(), sep).push(sep) + last.push(c) == (join(
                    before.drop_last(),
                    sep,
                ).push(sep) + last).push(c));
            }
            assert forall|i: int| 0 <= i < now.len() implies !(#[trigger] now[i]).contains(sep) by {
                if i < before.len() - 1 {
                    assert(now[i] == before[i]);
                } else {
                    assert(!last.contains(sep)) by {
                        assert(before[before.len() - 1] == last);
                    }
                    if last.push(c).contains(sep) {
                        let k = choose|k: int|
                            0 <= k < last.push(c).len() && last.push(c)[k] == sep;
                        assert(k < last.len() ==> last[k] == sep);
                        assert(k < last.len() ==> last.contains(last[k]));
                    }
                }
            }
        }
    }
}

/// Joined texts stand one after the other with one separator between neighbours.
pub proof fn law_join(v: Seq<Seq<char>>, s: Seq<char>, sep: char)
    ensures
        join(Seq::empty(), sep) == Seq::<char>::empty(),
        join(seq![s], sep) == s,
        v.len() > 0 ==> join(v.push(s), sep) == join(v, sep) + seq![sep] + s,
{
    if v.len() > 0 {
        assert(v.push(s).drop_last() == v);
        assert(join(v, sep).push(sep) == join(v, sep) + seq![sep]);
    }
}

/// A text in title case has its first character in uppercase and all others as they are.
pub proof fn law_titled(s: Seq<char>)
    ensures
        s.len() == 0 ==> titled(s) == s,
        s.len() > 0 ==> titled(s) == char_upper(s[0]) + s.skip(1),
{
    if s.len() > 0 {
        assert(s.skip(1) == s.drop_first());
    }
}

// Case

/// The lowercase form of an ASCII text has a small letter for each capital, and everything else as
/// it is. Beyond ASCII it is that of `std`.
pub proof fn law_lowercase(s: Seq<char>)
    ensures
        is_ascii_chars(s) ==> str_lower(s).len() == s.len() && forall|i: int|
            0 <= i < s.len() ==> #[trigger] str_lower(s)[i] as int == s[i] as int + if 'A' <= s[i]
                <= 'Z' {
                32int
            } else {
                0
            },
        !is_ascii_chars(s) ==> str_lower(s) == unicode_str_lower(s),
{
}

/// The uppercase form of an ASCII text has a capital for each small letter, and everything else as
/// it is. Beyond ASCII it is that of `std`.
pub proof fn law_uppercase(s: Seq<char>)
    ensures
        is_ascii_chars(s) ==> str_upper(s).len() == s.len() && forall|i: int|
            0 <= i < s.len() ==> #[trigger] str_upper(s)[i] as int == s[i] as int - if 'a' <= s[i]
                <= 'z' {
                32int
            } else {
                0
            },
        !is_ascii_chars(s) ==> str_upper(s) == unicode_str_upper(s),
{
}

/// The case of one character: of an ASCII letter the other letter, of anything beyond ASCII that of
/// `std`.
pub proof fn law_case_of_character(c: char)
    ensures
        (c as int) < 0x80 ==> char_lower(c).len() == 1 && char_lower(c)[0] as int == c as int + if
            'A' <= c <= 'Z' {
            32int
        } else {
            0
        },
        (c as int) < 0x80 ==> char_upper(c).len() == 1 && char_upper(c)[0] as int == c as int - if
            'a' <= c <= 'z' {
            32int
        } else {
            0
        },
        c as int >= 0x80 ==> char_lower(c) == unicode_char_lower(c) && char_upper(c)
            == unicode_char_upper(c),
{
}

/// The key of a compound is the lowercase of its words, character by character, with an underscore
/// between them.
pub proof fn law_compound_key(a: Seq<char>, b: Seq<char>, c: char)
    ensures
        compound_of(a, b) == lower_each(a) + seq!['_'] + lower_each(b),
        lower_each(Seq::empty()) == Seq::<char>::empty(),
        lower_each(a.push(c)) == lower_each(a) + char_lower(c),
{
    assert(lower_each(a).push('_') == lower_each(a) + seq!['_']);
    assert(a.push(c).drop_last() == a);
}

// Byte tokens

/// The value of a character among the digits of a numeral.
pub open spec fn digit_at(c: char, k: int) -> bool {
    0 <= k < 16 && ("0123456789abcdef"@[k] == c || "0123456789ABCDEF"@[k] == c)
}

/// A hexadecimal digit has the value that is its place among the digits.
proof fn lemma_digits(c: char, k: int)
    ensures
        digit_at(c, k) ==> hex_value(c) == Some(k),
        hex_value(c) == Some(k) ==> digit_at(c, k),
{
    reveal_strlit("0123456789abcdef");
    reveal_strlit("0123456789ABCDEF");
    assert(0 <= k < 16 ==> k == 0 || k == 1 || k == 2 || k == 3 || k == 4 || k == 5 || k == 6 || k
        == 7 || k == 8 || k == 9 || k == 10 || k == 11 || k == 12 || k == 13 || k == 14 || k == 15);
}

/// A byte token is `<0x`, the two digits of the byte in capitals, and `>`.
pub proof fn law_byte_token(b: u8)
    ensures
        byte_token(b) == "<0x"@ + seq![
            "0123456789ABCDEF"@[b as int / 16],
            "0123456789ABCDEF"@[b as int % 16],
        ] + ">"@,
{
    reveal_strlit("<0x");
    reveal_strlit(">");
    lemma_digit_char(b as int / 16);
    lemma_digit_char(b as int % 16);
}

/// The digit of a value stands at that place.
proof fn lemma_digit_char(k: int)
    requires
        0 <= k < 16,
    ensures
        hex_digit(k) == "0123456789ABCDEF"@[k],
{
    reveal_strlit("0123456789ABCDEF");
    assert(k == 0 || k == 1 || k == 2 || k == 3 || k == 4 || k == 5 || k == 6 || k == 7 || k == 8
        || k == 9 || k == 10 || k == 11 || k == 12 || k == 13 || k == 14 || k == 15);
}

/// A token stands for a byte where it is `<0x`, a numeral of two places and `>`: two digits in
/// either case, or a plus sign and a digit. It then stands for the value of the numeral.
pub proof fn law_token_for_byte(s: Seq<char>, i: int, j: int)
    ensures
        s.len() == 6 && s.take(3) == "<0x"@ && s[5] == '>' && digit_at(s[3], i) && digit_at(s[4], j)
            ==> token_byte(s) == Some((16 * i + j) as u8),
        s.len() == 6 && s.take(3) == "<0x"@ && s[5] == '>' && s[3] == '+' && digit_at(s[4], j)
            ==> token_byte(s) == Some(j as u8),
{
    reveal_strlit("<0x");
    lemma_digits(s[3], i);
    lemma_digits(s[4], j);
    if s.len() == 6 && s.take(3) == "<0x"@ {
        assert(s.take(3)[0] == s[0] && s.take(3)[1] == s[1] && s.take(3)[2] == s[2]);
    }
}

/// No other token stands for a byte.
pub proof fn law_other_tokens(s: Seq<char>)
    requires
        token_byte(s) is Some,
    ensures
        s.len() == 6 && s.take(3) == "<0x"@ && s[5] == '>',
        exists|j: int| digit_at(s[4], j),
        s[3] == '+' || exists|i: int| digit_at(s[3], i),
{
    reveal_strlit("<0x");
    assert(s.take(3) =~= seq!['<', '0', 'x']);
    assert("<0x"@ =~= seq!['<', '0', 'x']);
    assert(hex_pair(s[3], s[4]) is Some);
    let j = hex_value(s[4])->0;
    lemma_digits(s[4], j);
    assert(digit_at(s[4], j));
    if s[3] != '+' {
        let i = hex_value(s[3])->0;
        lemma_digits(s[3], i);
        assert(digit_at(s[3], i));
    }
}

// Maps, order and scores

/// Of the pairs of a list with one key, the last gives the value; a key without a pair has none.
pub proof fn law_last_pair_counts<V>(v: Seq<(Seq<char>, V)>, i: int, key: Seq<char>)
    ensures
        0 <= i < v.len() && (forall|j: int| i < j < v.len() ==> (#[trigger] v[j]).0 != v[i].0)
            ==> map_of(v).contains_key(v[i].0) && map_of(v)[v[i].0] == v[i].1,
        (forall|j: int| 0 <= j < v.len() ==> (#[trigger] v[j]).0 != key) ==> !map_of(
            v,
        ).contains_key(key),
    decreases v.len(),
{
    if v.len() > 0 {
        let before = v.drop_last();
        law_last_pair_counts(before, i, key);
        assert(forall|j: int| 0 <= j < before.len() ==> #[trigger] before[j] == v[j]);
        assert(v[v.len() - 1] == v.last());
    }
}

/// A text comes before another where it is a proper start of it, or where at the first difference
/// it has the smaller character.
pub proof fn law_order_of_texts(a: Seq<char>, b: Seq<char>, k: int)
    requires
        0 <= k <= a.len(),
        k <= b.len(),
        a.take(k) == b.take(k),
        k < a.len() && k < b.len() ==> a[k] != b[k],
    ensures
        text_before(a, b) <==> k < b.len() && (k == a.len() || a[k] < b[k]),
    decreases k,
{
    if k > 0 {
        let x = a.drop_first();
        let y = b.drop_first();
        assert(a.take(k)[0] == a[0] && b.take(k)[0] == b[0]);
        assert(x.take(k - 1) == a.take(k).drop_first());
        assert(y.take(k - 1) == b.take(k).drop_first());
        law_order_of_texts(x, y, k - 1);
    }
}

/// Scores in fixed point add up as integers do, and stay at the ends of their range.
pub proof fn law_fixed_sum(a: FixedScore, b: FixedScore)
    ensures
        i64::MIN <= a.units + b.units <= i64::MAX ==> a.plus(b).units == a.units + b.units,
        a.units + b.units > i64::MAX ==> a.plus(b).units == i64::MAX,
        a.units + b.units < i64::MIN ==> a.plus(b).units == i64::MIN,
        a.exceeds(b) <==> a.units > b.units,
        a.same(b) <==> a == b,
        FixedScore::zero_spec().units == 0,
        FixedScore::floor_spec().units == i64::MIN,
{
}

} // verus!
