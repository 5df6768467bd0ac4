//! Where the words of a text start.
use crate::chars::{alphanumeric, combining_mark, white_space};
use crate::laws::words::{lemma_cut_well, well_cut};
use crate::text::concat;
use crate::words::{
    classes, cut, cut_between, fused, lemma_classes_len, lemma_concat_add, lemma_concat_push,
    lemma_cut_tiles, lemma_words_tile_text, next_class, nonempty_words, operator, words_of,
    CharClass,
};
use vstd::prelude::*;

verus! {

/// The place among the characters of the text at which the word `j` starts.
pub open spec fn start_of(words: Seq<Seq<char>>, j: int) -> int {
    concat(words.take(j)).len() as int
}

/// That a word starts at the character `p`.
pub open spec fn starts_at(words: Seq<Seq<char>>, p: int) -> bool {
    exists|j: int| 0 <= j < words.len() && #[trigger] start_of(words, j) == p
}

/// The character that decides of what kind the character at `p` is: itself, or for a combining mark
/// that follows something other than white space, the one that decides for the character before it.
pub open spec fn root(text: Seq<char>, p: int) -> int
    decreases p,
{
    if p > 0 && combining_mark(text[p]) && !white_space(text[p]) && !white_space(text[p - 1]) {
        root(text, p - 1)
    } else {
        p
    }
}

/// The deciding character stands no later than what it decides for.
proof fn lemma_root(text: Seq<char>, p: int)
    requires
        0 <= p < text.len(),
    ensures
        0 <= root(text, p) <= p,
        p < text.len() - 1 ==> root(text.drop_last(), p) == root(text, p),
    decreases p,
{
    if p > 0 {
        lemma_root(text, p - 1);
    }
}

/// The class of each character, by the character that decides.
proof fn lemma_class(text: Seq<char>, p: int)
    requires
        0 <= p < text.len(),
    ensures
        classes(text).len() == text.len(),
        classes(text)[p] == if white_space(text[p]) {
            CharClass::Space
        } else if alphanumeric(text[root(text, p)]) {
            CharClass::Alpha
        } else {
            CharClass::Symbol
        },
    decreases text.len(),
{
    let before = text.drop_last();
    lemma_classes_len(text);
    lemma_classes_len(before);
    lemma_root(text, p);
    if p < text.len() - 1 {
        lemma_class(before, p);
        assert(classes(text)[p] == classes(before)[p]);
        assert(before[p] == text[p]);
        assert(before[root(text, p)] == text[root(text, p)]);
    } else if p > 0 {
        lemma_class(before, p - 1);
        lemma_root(text, p - 1);
        assert(before[p - 1] == text[p - 1]);
        assert(before[root(text, p - 1)] == text[root(text, p - 1)]);
        assert(classes(before).last() == classes(before)[p - 1]);
    }
}

/// Earlier words start where they did when a word comes after them.
proof fn lemma_start_of_push(words: Seq<Seq<char>>, w: Seq<char>, j: int)
    requires
        0 <= j <= words.len(),
    ensures
        start_of(words.push(w), j) == start_of(words, j),
        start_of(words, words.len() as int) == concat(words).len(),
{
    assert(words.push(w).take(j) == words.take(j));
    assert(words.take(words.len() as int) == words);
}

/// A word of a cut text starts within it, and exactly where the cut is.
proof fn lemma_cut_starts(text: Seq<char>, class: Seq<CharClass>)
    ensures
        concat(cut(text, class)) == text,
        text.len() > 0 ==> cut(text, class).len() > 0 && cut(text, class).last().len() > 0,
        forall|j: int|
            0 <= j < cut(text, class).len() ==> 0 <= #[trigger] start_of(cut(text, class), j)
                < text.len(),
        forall|p: int|
            0 <= p < text.len() ==> (#[trigger] starts_at(cut(text, class), p) <==> p == 0
                || cut_between(class[p - 1], class[p])),
    decreases text.len(),
{
    let now = cut(text, class);
    if text.len() > 0 {
        let n = text.len() - 1;
        let before = text.drop_last();
        let words = cut(before, class);
        lemma_cut_starts(before, class);
        assert(before.push(text.last()) == text);
        if n == 0 || cut_between(class[n - 1], class[n]) {
            let w = seq![text.last()];
            lemma_concat_push(words, w);
            assert forall|j: int| 0 <= j < now.len() implies 0 <= #[trigger] start_of(now, j)
                < text.len() by {
                lemma_start_of_push(words, w, j);
                if j < words.len() {
                    assert(start_of(words, j) < before.len());
                }
            }
            assert forall|p: int| 0 <= p < text.len() implies (#[trigger] starts_at(now, p) <==> p
                == 0 || cut_between(class[p - 1], class[p])) by {
                if p == n {
                    lemma_start_of_push(words, w, words.len() as int);
                    assert(start_of(now, words.len() as int) == n);
                } else {
                    if starts_at(now, p) {
                        let j = choose|j: int|
                            0 <= j < now.len() && #[trigger] start_of(now, j) == p;
                        lemma_start_of_push(words, w, j);
                        assert(start_of(words, j) == p);
                        assert(starts_at(words, p));
                    }
                    if starts_at(words, p) {
                        let j = choose|j: int|
                            0 <= j < words.len() && #[trigger] start_of(words, j) == p;
                        lemma_start_of_push(words, w, j);
                        assert(start_of(now, j) == p);
                    }
                }
            }
        } else {
            let head = words.drop_last();
            let w = words.last().push(text.last());
            lemma_concat_push(head, w);
            assert(head.push(words.last()) == words);
            lemma_concat_push(head, words.last());
            assert(concat(head) + w == (concat(head) + words.last()).push(text.last()));
            assert forall|j: int| 0 <= j < now.len() implies 0 <= #[trigger] start_of(now, j)
                < before.len() by {
                lemma_start_of_push(head, w, j);
                lemma_start_of_push(head, words.last(), j);
                assert(start_of(words, j) < before.len());
            }
            assert forall|p: int| 0 <= p < text.len() implies (#[trigger] starts_at(now, p) <==> p
                == 0 || cut_between(class[p - 1], class[p])) by {
                if starts_at(now, p) {
                    let j = choose|j: int| 0 <= j < now.len() && #[trigger] start_of(now, j) == p;
                    lemma_start_of_push(head, w, j);
                    lemma_start_of_push(head, words.last(), j);
                    assert(start_of(words, j) == p);
                    assert(starts_at(words, p));
                }
                if p < n && starts_at(words, p) {
                    let j = choose|j: int|
                        0 <= j < words.len() && #[trigger] start_of(words, j) == p;
                    lemma_start_of_push(head, w, j);
                    lemma_start_of_push(head, words.last(), j);
                    assert(start_of(now, j) == p);
                }
            }
        }
    }
}

/// A cut by given classes starts a word at the first character, at white space and after it, and
/// where the class changes, and nowhere else.
pub proof fn law_cut_starts(text: Seq<char>, class: Seq<CharClass>, p: int)
    requires
        0 <= p < text.len(),
    ensures
        concat(cut(text, class)) == text,
        nonempty_words(cut(text, class)),
        starts_at(cut(text, class), p) <==> p == 0 || class[p] == CharClass::Space || class[p - 1]
            == CharClass::Space || class[p - 1] != class[p],
{
    lemma_cut_starts(text, class);
    lemma_cut_tiles(text, class);
}

/// Where no operator is spread over two words, nothing is fused.
proof fn lemma_nothing_fused(words: Seq<Seq<char>>)
    requires
        well_cut(words),
    ensures
        fused(words) == words,
    decreases words.len(),
{
    if words.len() >= 2 {
        let rest = words.skip(1);
        assert(!operator(words[0] + words[1])) by {
            let pair = words[0] + words[1];
            if operator(pair) {
                assert(words[0].len() == 1 && words[1].len() == 1);
                assert(pair[0] == words[0].last() && pair[1] == words[1][0]);
            }
        }
        assert(well_cut(rest)) by {
            assert(forall|j: int| 0 <= j < rest.len() ==> #[trigger] rest[j] == words[j + 1]);
            assert forall|j: int, i: int|
                0 <= j < rest.len() && 0 <= i < rest[j].len() && white_space(
                    #[trigger] rest[j][i],
                ) implies rest[j].len() == 1 by {
                assert(white_space(words[j + 1][i]));
            }
        }
        lemma_nothing_fused(rest);
        assert(seq![words[0]] + rest == words);
    }
}

/// The words of a text are those of its cut.
proof fn lemma_words_are_cut(text: Seq<char>)
    ensures
        words_of(text) == cut(text, classes(text)),
{
    lemma_cut_well(text);
    lemma_nothing_fused(cut(text, classes(text)));
}

/// A word of a text starts at its first character, at white space and after it, and between an
/// alphanumeric character and one that is not, with combining marks taken for what they follow. It
/// starts nowhere else.
pub proof fn law_where_words_start(text: Seq<char>, p: int)
    requires
        0 <= p < text.len(),
    ensures
        starts_at(words_of(text), p) <==> p == 0 || white_space(text[p]) || white_space(text[p - 1])
            || alphanumeric(text[root(text, p - 1)]) != alphanumeric(text[root(text, p)]),
{
    lemma_words_are_cut(text);
    lemma_cut_starts(text, classes(text));
    lemma_class(text, p);
    if p > 0 {
        lemma_class(text, p - 1);
    }
}

/// Two neighbours that are no combining marks and no white space are in one word where both are
/// alphanumeric or neither is, and in two where one is.
pub proof fn law_neighbours(text: Seq<char>, p: int)
    requires
        0 < p < text.len(),
        !combining_mark(text[p - 1]) && !combining_mark(text[p]),
        !white_space(text[p - 1]) && !white_space(text[p]),
    ensures
        starts_at(words_of(text), p) <==> alphanumeric(text[p - 1]) != alphanumeric(text[p]),
{
    law_where_words_start(text, p);
}

/// A combining mark is in the word of the character before it, unless one of the two is white
/// space.
pub proof fn law_marks_stay_with_what_they_follow(text: Seq<char>, p: int)
    requires
        0 < p < text.len(),
        combining_mark(text[p]),
        !white_space(text[p - 1]) && !white_space(text[p]),
    ensures
        !starts_at(words_of(text), p),
{
    law_where_words_start(text, p);
}

/// The character `k` of the word `j` is the one of the text that many places after the start of the
/// word.
proof fn lemma_char_of_word(words: Seq<Seq<char>>, j: int, k: int)
    requires
        0 <= j < words.len(),
        0 <= k < words[j].len(),
    ensures
        0 <= start_of(words, j) + k < concat(words).len(),
        concat(words)[start_of(words, j) + k] == words[j][k],
        start_of(words, j + 1) == start_of(words, j) + words[j].len(),
{
    let head = words.take(j);
    let tail = words.skip(j + 1);
    assert(words.take(j + 1) == head.push(words[j]));
    assert(head.push(words[j]) + tail == words);
    lemma_concat_add(head.push(words[j]), tail);
    lemma_concat_push(head, words[j]);
}

/// Later words start later.
proof fn lemma_starts_ascend(words: Seq<Seq<char>>, i: int, j: int)
    requires
        0 <= i <= j <= words.len(),
    ensures
        start_of(words, i) <= start_of(words, j),
    decreases j - i,
{
    if i < j {
        lemma_starts_ascend(words, i, j - 1);
        assert(words.take(j) == words.take(j - 1).push(words[j - 1]));
        lemma_concat_push(words.take(j - 1), words[j - 1]);
    }
}

/// No word starts within another.
proof fn lemma_no_start_within(words: Seq<Seq<char>>, j: int, k: int)
    requires
        0 <= j < words.len(),
        0 < k < words[j].len(),
    ensures
        !starts_at(words, start_of(words, j) + k),
{
    lemma_char_of_word(words, j, k);
    if starts_at(words, start_of(words, j) + k) {
        let i = choose|i: int|
            0 <= i < words.len() && #[trigger] start_of(words, i) == start_of(words, j) + k;
        if i <= j {
            lemma_starts_ascend(words, i, j);
        } else {
            lemma_starts_ascend(words, j + 1, i);
        }
    }
}

/// The characters of a word are of the kind of its first one.
proof fn lemma_one_kind(text: Seq<char>, j: int, k: int)
    requires
        0 <= j < words_of(text).len(),
        0 <= k < words_of(text)[j].len(),
        words_of(text)[j].len() > 1,
    ensures
        ({
            let at = start_of(words_of(text), j);
            &&& 0 <= at
            &&& at + k < text.len()
            &&& text[at + k] == words_of(text)[j][k]
            &&& !white_space(text[at + k])
            &&& alphanumeric(text[root(text, at + k)]) == alphanumeric(text[root(text, at)])
        }),
    decreases k,
{
    let words = words_of(text);
    let at = start_of(words, j);
    lemma_words_tile_text(text);
    lemma_char_of_word(words, j, k);
    if k > 0 {
        lemma_one_kind(text, j, k - 1);
        lemma_no_start_within(words, j, k);
        law_where_words_start(text, at + k);
    } else {
        lemma_char_of_word(words, j, 1);
        lemma_no_start_within(words, j, 1);
        law_where_words_start(text, at + 1);
    }
}

/// Of the characters of a word that are no combining marks, all are alphanumeric or none is.
pub proof fn law_words_are_of_one_kind(text: Seq<char>, j: int, a: int, b: int)
    requires
        0 <= j < words_of(text).len(),
        0 <= a < words_of(text)[j].len(),
        0 <= b < words_of(text)[j].len(),
        !combining_mark(words_of(text)[j][a]),
        !combining_mark(words_of(text)[j][b]),
    ensures
        alphanumeric(words_of(text)[j][a]) == alphanumeric(words_of(text)[j][b]),
{
    if words_of(text)[j].len() > 1 {
        lemma_one_kind(text, j, a);
        lemma_one_kind(text, j, b);
    }
}

/// The class of a character by what is known of it: white space has its own; a mark that follows
/// something other than white space has the class of that; any other is alphanumeric or not.
pub proof fn law_class_of_character(
    before: Option<CharClass>,
    space: bool,
    mark: bool,
    alpha: bool,
)
    ensures
        next_class(before, space, mark, alpha) == CharClass::Space <==> space,
        !space && mark && before == Some(CharClass::Alpha) ==> next_class(
            before,
            space,
            mark,
            alpha,
        ) == CharClass::Alpha,
        !space && mark && before == Some(CharClass::Symbol) ==> next_class(
            before,
            space,
            mark,
            alpha,
        ) == CharClass::Symbol,
        !space && (!mark || before is None || before == Some(CharClass::Space)) ==> (next_class(
            before,
            space,
            mark,
            alpha,
        ) == CharClass::Alpha <==> alpha),
{
}

/// The operators, and nothing else, are fused.
pub proof fn law_operators(s: Seq<char>)
    ensures
        operator(s) <==> s == "->"@ || s == "=>"@ || s == "!="@ || s == "+="@ || s == "-="@ || s
            == "*="@ || s == "/="@ || s == "%="@ || s == ">="@ || s == "<="@ || s == "::"@ || s
            == ".."@ || s == "**"@ || s == "//"@,
{
    reveal_strlit("->");
    reveal_strlit("=>");
    reveal_strlit("!=");
    reveal_strlit("+=");
    reveal_strlit("-=");
    reveal_strlit("*=");
    reveal_strlit("/=");
    reveal_strlit("%=");
    reveal_strlit(">=");
    reveal_strlit("<=");
    reveal_strlit("::");
    reveal_strlit("..");
    reveal_strlit("**");
    reveal_strlit("//");
    assert("->"@ =~= seq!['-', '>']);
    assert("=>"@ =~= seq!['=', '>']);
    assert("!="@ =~= seq!['!', '=']);
    assert("+="@ =~= seq!['+', '=']);
    assert("-="@ =~= seq!['-', '=']);
    assert("*="@ =~= seq!['*', '=']);
    assert("/="@ =~= seq!['/', '=']);
    assert("%="@ =~= seq!['%', '=']);
    assert(">="@ =~= seq!['>', '=']);
    assert("<="@ =~= seq!['<', '=']);
    assert("::"@ =~= seq![':', ':']);
    assert(".."@ =~= seq!['.', '.']);
    assert("**"@ =~= seq!['*', '*']);
    assert("//"@ =~= seq!['/', '/']);
    if s.len() == 2 {
        assert(s =~= seq![s[0], s[1]]);
    }
}

/// Words of which no two neighbours spell an operator stay as they are; else those before the first
/// such pair do, the pair is fused, and what follows it is treated on its own.
pub proof fn law_fusing(words: Seq<Seq<char>>, k: int)
    requires
        0 <= k < words.len(),
        forall|i: int, j: int|
            0 <= i < k && j == i + 1 ==> !operator(#[trigger] words[i] + #[trigger] words[j]),
    ensures
        k == words.len() - 1 ==> fused(words) == words,
        k < words.len() - 1 && operator(words[k] + words[k + 1]) ==> fused(words) == words.take(k)
            + seq![words[k] + words[k + 1]] + fused(words.skip(k + 2)),
    decreases k,
{
    if k == 0 {
        assert(words.take(0) + seq![words[0] + words[1]] == seq![words[0] + words[1]]);
    } else {
        let rest = words.skip(1);
        assert(!operator(words[0] + words[1]));
        assert forall|i: int, j: int| 0 <= i < k - 1 && j == i + 1 implies !operator(
            #[trigger] rest[i] + #[trigger] rest[j],
        ) by {
            assert(rest[i] == words[i + 1] && rest[j] == words[j + 1]);
        }
        law_fusing(rest, k - 1);
        assert(seq![words[0]] + rest == words);
        if k < words.len() - 1 {
            assert(rest[k - 1] == words[k] && rest[k] == words[k + 1]);
            assert(rest.skip(k + 1) == words.skip(k + 2));
            let pair = seq![words[k] + words[k + 1]];
            let more = fused(words.skip(k + 2));
            assert(seq![words[0]] + rest.take(k - 1) == words.take(k));
            assert(seq![words[0]] + (rest.take(k - 1) + pair + more) == words.take(k) + pair
                + more);
        }
    }
}

} // verus!
