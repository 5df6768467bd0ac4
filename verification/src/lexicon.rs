//! What a model says of each word, run and text, stated over its vocabulary.
use crate::chars::{lowercase, str_lower, str_upper, uppercase};
use crate::decoder::WORD_START;
use crate::lang::{lang_of, Lang};
use crate::score::Score;
use crate::segment::{piece_best, piece_path, reached, run_parts};
use crate::text::{byte_token, fields, join, titled, trim_both, trim_end, Trim};
use crate::token::TokenView;
use crate::words::{offsets_of, words_of};
use vstd::prelude::*;
use vstd::utf8::encode_utf8;

verus! {

/// The spelling and the id of a token that has no place yet.
pub type Spelled = (Seq<char>, u32);

/// The vocabulary of a model.
#[verifier::ext_equal]
pub struct Lexicon<S> {
    /// The id of each token.
    pub token2id: Map<Seq<char>, u32>,
    /// The token of each id.
    pub id2token: Map<u32, Seq<char>>,
    /// The token for what the model does not know.
    pub unk_token: Seq<char>,
    /// Its id.
    pub unk_id: u32,
    /// The Vietnamese syllables.
    pub vi_syllables: Set<Seq<char>>,
    /// Vietnamese words without diacritics.
    pub base_forms: Set<Seq<char>>,
    /// The score of each compound of two syllables.
    pub vi_compounds: Map<Seq<char>, S>,
    /// The score of a syllable that stands alone.
    pub unigram: S,
    /// The score of each piece of an English word.
    pub pieces: Map<Seq<char>, S>,
    /// The ids of those pieces that are tokens.
    pub sp_vocab: Map<Seq<char>, u32>,
    /// The ids of the byte tokens.
    pub byte_ids: Map<u8, u32>,
    /// The marker of a switch to English.
    pub cs_vi_en: Seq<char>,
    /// The marker of a switch to Vietnamese.
    pub cs_en_vi: Seq<char>,
}

/// Whether every character of `s` is uppercase.
pub open spec fn all_uppercase(s: Seq<char>) -> bool {
    forall|i: int| 0 <= i < s.len() ==> uppercase(#[trigger] s[i])
}

/// Whether every character of `s` is lowercase.
pub open spec fn all_lowercase(s: Seq<char>) -> bool {
    forall|i: int| 0 <= i < s.len() ==> lowercase(#[trigger] s[i])
}

/// Whether `s` starts with an uppercase character.
pub open spec fn starts_uppercase(s: Seq<char>) -> bool {
    s.len() > 0 && uppercase(s[0])
}

/// `part` in the case of the word `orig`: all in capitals, with one capital, or as it is.
pub open spec fn recased(part: Seq<char>, orig: Seq<char>) -> Seq<char> {
    if all_uppercase(orig) {
        str_upper(part)
    } else if starts_uppercase(orig) {
        titled(part)
    } else {
        part
    }
}

/// The parts of a compound, each in the case of the word that it stands for; parts without a word
/// stay as they are.
pub open spec fn recased_parts(parts: Seq<Seq<char>>, orig: Seq<Seq<char>>) -> Seq<Seq<char>> {
    Seq::new(
        parts.len(),
        |i: int|
            if i < orig.len() {
                recased(parts[i], orig[i])
            } else {
                parts[i]
            },
    )
}

/// A compound in the case of the words that it stands for.
pub open spec fn cased_compound_of(compound: Seq<char>, orig: Seq<Seq<char>>) -> Seq<char> {
    join(recased_parts(fields(compound, '_'), orig), '_')
}

/// The tokens at one place.
pub open spec fn placed(tokens: Seq<Spelled>, offsets: (usize, usize)) -> Seq<TokenView> {
    tokens.map_values(|t: Spelled| TokenView { id: t.1, value: t.0, offsets })
}

/// Whether some token is spelled otherwise than `unk`.
pub open spec fn some_known(tokens: Seq<Spelled>, unk: Seq<char>) -> bool {
    exists|i: int| 0 <= i < tokens.len() && (#[trigger] tokens[i]).0 != unk
}

/// The word as a run of Vietnamese words holds it.
pub open spec fn run_form(word: Seq<char>) -> Seq<char> {
    str_lower(trim_both(word, Trim::Punct))
}

impl<S: Score> Lexicon<S> {
    /// The id of `token`, if it has one.
    pub open spec fn id(self, token: Seq<char>) -> Option<u32> {
        if self.token2id.contains_key(token) {
            Some(self.token2id[token])
        } else {
            None
        }
    }

    /// The words that are Vietnamese whatever their letters.
    pub open spec fn listed(self) -> Set<Seq<char>> {
        self.vi_syllables.union(self.base_forms)
    }

    /// The language of a word.
    pub open spec fn lang(self, word: Seq<char>) -> Lang {
        lang_of(word, self.listed())
    }

    /// The id of the token for a byte.
    pub open spec fn byte_id(self, b: u8) -> u32 {
        if self.byte_ids.contains_key(b) {
            self.byte_ids[b]
        } else {
            self.unk_id
        }
    }

    /// A text as byte tokens.
    pub open spec fn byte_tokens(self, text: Seq<char>) -> Seq<Spelled> {
        encode_utf8(text).map_values(|b: u8| (byte_token(b), self.byte_id(b)))
    }

    /// The id of a piece of an English word.
    pub open spec fn piece_id(self, piece: Seq<char>) -> u32 {
        if self.sp_vocab.contains_key(piece) {
            self.sp_vocab[piece]
        } else {
            self.unk_id
        }
    }

    /// A word as pieces: the whole word where it is a piece, else the best segmentation, else the
    /// unknown token.
    pub open spec fn sp_tokens(self, word: Seq<char>) -> Seq<Spelled> {
        let input = seq![WORD_START] + word;
        let n = input.len() as int;
        if self.sp_vocab.contains_key(input) {
            seq![(input, self.sp_vocab[input])]
        } else if !reached(piece_best(self.pieces, input, n).score) {
            seq![(self.unk_token, self.unk_id)]
        } else {
            piece_path(self.pieces, input, n).map_values(
                |p: Seq<char>| (p, self.piece_id(p)),
            )
        }
    }

    /// The id of a word without the punctuation at its end, in its own case or in lowercase, where
    /// there is such punctuation and something before it.
    pub open spec fn bare_id(self, word: Seq<char>) -> Option<u32> {
        let bare = trim_end(word, Trim::Punct);
        if bare.len() < word.len() && bare.len() > 0 {
            self.cased_id(bare)
        } else {
            None
        }
    }

    /// The id of a word in its own case, or else in lowercase.
    pub open spec fn cased_id(self, word: Seq<char>) -> Option<u32> {
        if self.id(word) is Some {
            self.id(word)
        } else {
            self.id(str_lower(word))
        }
    }

    /// An English word: a token of its own; or bytes, where it is not all lowercase; or the token
    /// of its lowercase form, or of what is left without punctuation; or pieces; or bytes.
    pub open spec fn en_tokens(self, word: Seq<char>) -> Seq<Spelled> {
        let lower = str_lower(word);
        if self.id(word) is Some {
            seq![(word, self.id(word)->0)]
        } else if !all_lowercase(word) {
            self.byte_tokens(word)
        } else if self.id(lower) is Some {
            seq![(word, self.id(lower)->0)]
        } else if self.bare_id(word) is Some {
            seq![(word, self.bare_id(word)->0)]
        } else if some_known(self.sp_tokens(lower), self.unk_token) {
            self.sp_tokens(lower)
        } else {
            self.byte_tokens(word)
        }
    }

    /// Whether `word` splits after its first `i` characters into two syllables that are tokens.
    pub open spec fn splits_at(self, word: Seq<char>, i: int) -> bool {
        let left = word.take(i);
        let right = word.skip(i);
        &&& encode_utf8(left).len() >= 2
        &&& encode_utf8(right).len() >= 2
        &&& self.vi_syllables.contains(str_lower(left))
        &&& self.vi_syllables.contains(str_lower(right))
        &&& self.cased_id(left) is Some
        &&& self.cased_id(right) is Some
    }

    /// The first split of `word` at `i` or later into two syllables that are tokens, or nothing.
    pub open spec fn split_from(self, word: Seq<char>, i: int) -> Seq<Spelled>
        decreases word.len() - i,
    {
        if i >= word.len() {
            Seq::empty()
        } else if self.splits_at(word, i) {
            seq![
                (word.take(i), self.cased_id(word.take(i))->0),
                (word.skip(i), self.cased_id(word.skip(i))->0),
            ]
        } else {
            self.split_from(word, i + 1)
        }
    }

    /// A Vietnamese word that stands alone: its token, in its own case, in lowercase or without
    /// punctuation; or two syllables; or bytes.
    pub open spec fn vi_tokens(self, word: Seq<char>) -> Seq<Spelled> {
        if self.cased_id(word) is Some {
            seq![(word, self.cased_id(word)->0)]
        } else if self.bare_id(word) is Some {
            seq![(word, self.bare_id(word)->0)]
        } else if self.split_from(word, 1).len() > 0 {
            self.split_from(word, 1)
        } else {
            self.byte_tokens(word)
        }
    }

    /// The first of the given spellings that is a token.
    pub open spec fn first_known(self, spellings: Seq<Seq<char>>) -> Seq<Spelled>
        decreases spellings.len(),
    {
        if spellings.len() == 0 {
            Seq::empty()
        } else if self.id(spellings[0]) is Some {
            seq![(spellings[0], self.id(spellings[0])->0)]
        } else {
            self.first_known(spellings.drop_first())
        }
    }

    /// Each word as an English word, one after the other.
    pub open spec fn en_tokens_each(self, words: Seq<Seq<char>>) -> Seq<Spelled>
        decreases words.len(),
    {
        if words.len() == 0 {
            Seq::empty()
        } else {
            self.en_tokens_each(words.drop_last()) + self.en_tokens(words.last())
        }
    }

    /// The spellings of a part of a run that may be tokens, best first.
    pub open spec fn part_spellings(self, part: Seq<char>, orig: Seq<Seq<char>>) -> Seq<Seq<char>> {
        if part.contains('_') {
            seq![cased_compound_of(part, orig), str_upper(part), part]
        } else if all_uppercase(orig[0]) {
            seq![str_upper(part), part]
        } else {
            seq![titled(part), str_upper(part), part]
        }
    }

    /// A part of a run of Vietnamese words: the first of its spellings that is a token, or else its
    /// words as English ones. A single word without a capital keeps its own spelling.
    pub open spec fn part_tokens(self, part: Seq<char>, orig: Seq<Seq<char>>) -> Seq<Spelled> {
        let known = self.first_known(self.part_spellings(part, orig));
        if part.contains('_') {
            if known.len() > 0 {
                known
            } else {
                self.en_tokens_each(fields(part, '_'))
            }
        } else if all_uppercase(orig[0]) || starts_uppercase(orig[0]) {
            if known.len() > 0 {
                known
            } else {
                self.en_tokens(part)
            }
        } else if self.id(part) is Some {
            seq![(orig[0], self.id(part)->0)]
        } else {
            self.en_tokens(part)
        }
    }

    /// The tokens of the parts of a run, given where each part starts and ends in it.
    pub open spec fn parts_tokens(
        self,
        lower: Seq<Seq<char>>,
        raw: Seq<Seq<char>>,
        offsets: Seq<(usize, usize)>,
        parts: Seq<(usize, usize)>,
    ) -> Seq<TokenView>
        decreases parts.len(),
    {
        if parts.len() == 0 {
            Seq::empty()
        } else {
            let a = parts.last().0 as int;
            let b = parts.last().1 as int;
            self.parts_tokens(lower, raw, offsets, parts.drop_last()) + placed(
                self.part_tokens(join(lower.subrange(a, b), '_'), raw.subrange(a, b)),
                (offsets[a].0, offsets[b - 1].1),
            )
        }
    }

    /// The tokens of a run of Vietnamese words, of which the forms, the words and the places are
    /// given.
    pub open spec fn run_tokens(
        self,
        lower: Seq<Seq<char>>,
        raw: Seq<Seq<char>>,
        offsets: Seq<(usize, usize)>,
    ) -> Seq<TokenView> {
        self.parts_tokens(
            lower,
            raw,
            offsets,
            run_parts(self.vi_compounds, self.unigram, lower, lower.len() as int),
        )
    }

    /// The marker between words of two languages, where there is one.
    pub open spec fn switch(self, before: Option<Lang>, lang: Lang) -> Seq<Spelled> {
        if before == Some(Lang::Vi) && lang == Lang::En {
            self.first_known(seq![self.cs_vi_en])
        } else if before == Some(Lang::En) && lang == Lang::Vi {
            self.first_known(seq![self.cs_en_vi])
        } else {
            Seq::empty()
        }
    }

    /// A word as a token of its own, or as bytes.
    pub open spec fn known_or_bytes(self, word: Seq<char>) -> Seq<Spelled> {
        if self.id(word) is Some {
            seq![(word, self.id(word)->0)]
        } else {
            self.byte_tokens(word)
        }
    }

    /// A word that looks like code: a token of its own, or an English word, or bytes where that
    /// gives nothing but the unknown token.
    pub open spec fn code_tokens(self, word: Seq<char>) -> Seq<Spelled> {
        if self.id(word) is Some {
            seq![(word, self.id(word)->0)]
        } else if some_known(self.en_tokens(word), self.unk_token) {
            self.en_tokens(word)
        } else {
            self.byte_tokens(word)
        }
    }

    /// The tokens of a word of the given language that makes no run.
    pub open spec fn word_tokens(self, word: Seq<char>, lang: Lang) -> Seq<Spelled> {
        match lang {
            Lang::Punct => self.known_or_bytes(word),
            Lang::Num => self.known_or_bytes(word),
            Lang::Code => self.code_tokens(word),
            _ => self.en_tokens(word),
        }
    }

    /// Where the run of Vietnamese words that holds the words before `i` ends.
    pub open spec fn run_end(self, words: Seq<Seq<char>>, i: int) -> int
        decreases words.len() - i,
    {
        if i >= words.len() || self.lang(words[i]) != Lang::Vi {
            i
        } else {
            self.run_end(words, i + 1)
        }
    }

    /// A run of Vietnamese words goes on at least to where it is asked for, and not beyond the
    /// words.
    pub proof fn lemma_run_end(self, words: Seq<Seq<char>>, i: int)
        requires
            0 <= i <= words.len(),
        ensures
            i <= self.run_end(words, i) <= words.len(),
        decreases words.len() - i,
    {
        if i < words.len() && self.lang(words[i]) == Lang::Vi {
            self.lemma_run_end(words, i + 1);
        }
    }

    /// The tokens of the words from `i` on, after a word of the language `before`. Neighbouring
    /// Vietnamese words make one run. Punctuation leaves the language as it is.
    pub open spec fn tokens_from(
        self,
        words: Seq<Seq<char>>,
        offsets: Seq<(usize, usize)>,
        i: int,
        before: Option<Lang>,
    ) -> Seq<TokenView>
        decreases words.len() - i,
    {
        if i >= words.len() {
            Seq::empty()
        } else {
            let lang = self.lang(words[i]);
            if lang == Lang::Vi {
                let end = self.run_end(words, i + 1);
                let raw = words.subrange(i, end);
                let lower = raw.map_values(|w: Seq<char>| run_form(w));
                if i < end <= words.len() {
                    placed(self.switch(before, Lang::Vi), offsets[i]) + self.run_tokens(
                        lower,
                        raw,
                        offsets.subrange(i, end),
                    ) + self.tokens_from(words, offsets, end, Some(Lang::Vi))
                } else {
                    Seq::empty()
                }
            } else if lang == Lang::Punct {
                placed(self.word_tokens(words[i], lang), offsets[i]) + self.tokens_from(
                    words,
                    offsets,
                    i + 1,
                    before,
                )
            } else {
                placed(self.switch(before, lang), offsets[i]) + placed(
                    self.word_tokens(words[i], lang),
                    offsets[i],
                ) + self.tokens_from(words, offsets, i + 1, Some(lang))
            }
        }
    }

    /// The tokens of the words from a run on, after those of earlier words: first those of the run,
    /// then those of the words behind it.
    pub proof fn lemma_tokens_of_run(
        self,
        done: Seq<TokenView>,
        words: Seq<Seq<char>>,
        offsets: Seq<(usize, usize)>,
        i: int,
        before: Option<Lang>,
    )
        requires
            0 <= i < words.len(),
            self.lang(words[i]) == Lang::Vi,
        ensures
            ({
                let end = self.run_end(words, i + 1);
                let raw = words.subrange(i, end);
                let lower = raw.map_values(|w: Seq<char>| run_form(w));
                done + self.tokens_from(words, offsets, i, before) == done + placed(
                    self.switch(before, Lang::Vi),
                    offsets[i],
                ) + self.run_tokens(lower, raw, offsets.subrange(i, end)) + self.tokens_from(
                    words,
                    offsets,
                    end,
                    Some(Lang::Vi),
                )
            }),
    {
        self.lemma_run_end(words, i + 1);
        let end = self.run_end(words, i + 1);
        let raw = words.subrange(i, end);
        let lower = raw.map_values(|w: Seq<char>| run_form(w));
        let switch = placed(self.switch(before, Lang::Vi), offsets[i]);
        let run = self.run_tokens(lower, raw, offsets.subrange(i, end));
        let rest = self.tokens_from(words, offsets, end, Some(Lang::Vi));
        assert(self.tokens_from(words, offsets, i, before) == switch + run + rest);
        assert(done + (switch + run + rest) == done + switch + run + rest);
    }

    /// The tokens of the words from one on that makes no run, after those of earlier words: first
    /// those of the word, then those of the words behind it.
    pub proof fn lemma_tokens_of_word(
        self,
        done: Seq<TokenView>,
        words: Seq<Seq<char>>,
        offsets: Seq<(usize, usize)>,
        i: int,
        before: Option<Lang>,
    )
        requires
            0 <= i < words.len(),
            self.lang(words[i]) != Lang::Vi,
        ensures
            ({
                let lang = self.lang(words[i]);
                let here = placed(self.word_tokens(words[i], lang), offsets[i]);
                done + self.tokens_from(words, offsets, i, before) == if lang == Lang::Punct {
                    done + here + self.tokens_from(words, offsets, i + 1, before)
                } else {
                    done + placed(self.switch(before, lang), offsets[i]) + here + self.tokens_from(
                        words,
                        offsets,
                        i + 1,
                        Some(lang),
                    )
                }
            }),
    {
        let lang = self.lang(words[i]);
        let here = placed(self.word_tokens(words[i], lang), offsets[i]);
        if lang == Lang::Punct {
            let rest = self.tokens_from(words, offsets, i + 1, before);
            assert(done + (here + rest) == done + here + rest);
        } else {
            let switch = placed(self.switch(before, lang), offsets[i]);
            let rest = self.tokens_from(words, offsets, i + 1, Some(lang));
            assert(done + (switch + here + rest) == done + switch + here + rest);
        }
    }

    /// The tokens of a text.
    pub open spec fn tokens(self, text: Seq<char>) -> Seq<TokenView> {
        let words = words_of(text);
        self.tokens_from(words, offsets_of(words), 0, None)
    }
}

} // verus!
