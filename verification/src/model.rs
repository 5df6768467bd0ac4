//! The model: its vocabulary, and the tokens that it makes of a text.
use crate::chars::{
    build_vi_chars, holds_vi_letters, is_lowercase_char, is_uppercase_char, lowercase, spoken,
    to_lower, to_upper, uppercase,
};
use crate::config::{
    byte_ids_of, default_villm_type, fields_view, first_missing, keys, lexicon_of, made_of_config,
    saved_score, saves, tokens_by_id, ConfigFields, ConfigView, ViLLMConfig,
};
use crate::decoder::WORD_START;
use crate::lang::{
    code_regex, compile_regex, count_letters, decide_lang, is_numeric, is_punct_token, regex_as_str,
    regex_is_match, to_listed_form, Lang, WordFacts, CODE_PATTERN,
};
use crate::laws::coverage::{
    covered, lemma_run_is_vietnamese, lemma_vietnamese_is_spoken, lemma_word_covered,
};
use crate::laws::words::lemma_encode_empty;
use crate::lexicon::{
    all_lowercase, all_uppercase, cased_compound_of, placed, recased_parts, run_form, some_known,
    starts_uppercase, Lexicon, Spelled,
};
use crate::score::Score;
use crate::segment::{best_pieces, best_run, lemma_run_parts};
use crate::sort::sorted;
use crate::str_map::{distinct_keys, lemma_map_of_key, map_of, pairs, StrMap};
use crate::text::{
    byte_len, byte_token, chars_of, has_char, join_with, same_text, split_on, text_of, texts,
    to_byte_token, to_title, trim_both, trimmed, trimmed_end, Trim,
};
use crate::token::{token_views, Token, TokenResult, TokenView};
use crate::trie::SpTrieNode;
use crate::words::{offsets_of, pretokenize, word_offsets, words_of};
use regex::Regex;
use std::collections::{HashMap, HashSet};
use vstd::prelude::*;
use vstd::std_specs::cmp::PartialEqSpecImpl;
use vstd::string::StringExecFns;
use vstd::utf8::encode_utf8;

verus! {

/// A tokenizer of Vietnamese and English text.
pub struct ViLLMModel<S> {
    token2id: StrMap<u32>,
    id2token: HashMap<u32, String>,
    unk_token: String,
    unk_id: u32,
    vi_chars: HashSet<u32>,
    vi_syllables: StrMap<()>,
    base_forms: StrMap<()>,
    vi_compounds: StrMap<S>,
    compound_unigram_score: S,
    sp_trie: SpTrieNode<S>,
    sp_vocab: StrMap<u32>,
    byte_ids: HashMap<u8, u32>,
    re_code: Regex,
    cs_vi_en: String,
    cs_en_vi: String,
}

impl<S> View for ViLLMModel<S> {
    type V = Lexicon<S>;

    closed spec fn view(&self) -> Lexicon<S> {
        Lexicon {
            token2id: self.token2id@,
            id2token: self.id2token@.map_values(|t: String| t@),
            unk_token: self.unk_token@,
            unk_id: self.unk_id,
            vi_syllables: self.vi_syllables@.dom(),
            base_forms: self.base_forms@.dom(),
            vi_compounds: self.vi_compounds@,
            unigram: self.compound_unigram_score,
            pieces: self.sp_trie.pieces(),
            sp_vocab: self.sp_vocab@,
            byte_ids: self.byte_ids@,
            cs_vi_en: self.cs_vi_en@,
            cs_en_vi: self.cs_en_vi@,
        }
    }
}

impl<S> ViLLMModel<S> {
    /// That the maps are in order, that the fixed parts are what they should be, and that the
    /// vocabulary is one that a configuration describes.
    #[verifier::type_invariant]
    spec fn wf(&self) -> bool {
        &&& made_of_config(self@)
        &&& self.token2id.wf()
        &&& self.vi_syllables.wf()
        &&& self.base_forms.wf()
        &&& self.vi_compounds.wf()
        &&& self.sp_vocab.wf()
        &&& holds_vi_letters(self.vi_chars@)
        &&& code_regex(self.re_code)
    }
}

/// The set of the texts of a list, as a map without values.
fn set_of(list: &Vec<String>) -> (r: StrMap<()>)
    ensures
        r.wf(),
        r@.dom() == texts(list@).to_set(),
{
    let mut m: StrMap<()> = StrMap::new();
    for i in 0..list.len()
        invariant
            m.wf(),
            m@.dom() == texts(list@).take(i as int).to_set(),
    {
        let ghost before = texts(list@).take(i as int);
        let ghost after = texts(list@).take(i + 1);
        m.insert(list[i].clone(), ());
        proof {
            assert(after == before.push(list@[i as int]@));
            assert forall|t: Seq<char>| before.to_set().insert(list@[i as int]@).contains(t)
                == after.to_set().contains(t) by {
                if before.contains(t) {
                    let j = choose|j: int| 0 <= j < before.len() && before[j] == t;
                    assert(after[j] == t);
                }
                if t == list@[i as int]@ {
                    assert(after[i as int] == t);
                }
                if after.contains(t) {
                    let j = choose|j: int| 0 <= j < after.len() && after[j] == t;
                    if j < i {
                        assert(before[j] == t);
                    }
                }
            }
            assert(before.to_set().insert(list@[i as int]@) =~= after.to_set());
        }
    }
    assert(texts(list@).take(list@.len() as int) == texts(list@));
    m
}

/// The token of each id of a list.
fn index_by_id(list: &Vec<(String, u32)>, token2id: &StrMap<u32>) -> (r: HashMap<u32, String>)
    requires
        token2id.wf(),
        token2id@ == map_of(pairs(list@)),
    ensures
        r@.map_values(|t: String| t@) == tokens_by_id(pairs(list@), token2id@),
{
    let mut out: HashMap<u32, String> = HashMap::new();
    let ghost all = pairs(list@);
    assert(out@.map_values(|t: String| t@) =~= Map::<u32, Seq<char>>::empty());
    for i in 0..list.len()
        invariant
            all == pairs(list@),
            token2id.wf(),
            token2id@ == map_of(all),
            out@.map_values(|t: String| t@) == tokens_by_id(all.take(i as int), token2id@),
    {
        let ghost before = out@.map_values(|t: String| t@);
        assert(all.take(i + 1).drop_last() == all.take(i as int));
        let token = &list[i].0;
        let id: u32 = list[i].1;
        proof {
            lemma_map_of_key(all, token@);
            assert(all[i as int].0 == token@);
        }
        match token2id.get(token.as_str()) {
            Some(current) => {
                if current == id {
                    out.insert(id, token.clone());
                    assert(out@.map_values(|t: String| t@) =~= before.insert(id, token@));
                }
            },
            None => {},
        }
    }
    assert(all.take(list@.len() as int) == all);
    out
}

/// The ids of the byte tokens.
fn index_bytes(token2id: &StrMap<u32>) -> (r: HashMap<u8, u32>)
    requires
        token2id.wf(),
    ensures
        r@ == byte_ids_of(token2id@),
{
    let mut out: HashMap<u8, u32> = HashMap::new();
    for i in 0..256u16
        invariant
            token2id.wf(),
            forall|b: u8| #[trigger]
                out@.contains_key(b) <==> b < i && token2id@.contains_key(byte_token(b)),
            forall|b: u8| #[trigger] out@.contains_key(b) ==> out@[b] == token2id@[byte_token(b)],
    {
        let b: u8 = i as u8;
        let token = to_byte_token(b);
        match token2id.get(token.as_str()) {
            Some(id) => {
                out.insert(b, id);
            },
            None => {},
        }
    }
    assert(out@ =~= byte_ids_of(token2id@));
    out
}

impl<S: Score> ViLLMModel<S> {
    /// The model that a configuration describes.
    pub fn from_config(cfg: ViLLMConfig<S>) -> (r: Self)
        ensures
            r@ == lexicon_of(cfg@),
    {
        let ghost described = lexicon_of(cfg@);
        let token2id = StrMap::from_pairs(&cfg.token2id);
        let id2token = index_by_id(&cfg.token2id, &token2id);
        let unk_id: u32 = match token2id.get(cfg.unk_token.as_str()) {
            Some(id) => id,
            None => 1,
        };
        let re_code = compile_regex(CODE_PATTERN).unwrap();
        let byte_ids = index_bytes(&token2id);

        let mut sp_trie = SpTrieNode::new();
        let mut sp_vocab: StrMap<u32> = StrMap::new();
        let ghost all = pairs(cfg.sp_pieces@);
        assert(sp_vocab@ =~= token2id@.restrict(map_of(all.take(0)).dom()));
        for i in 0..cfg.sp_pieces.len()
            invariant
                all == pairs(cfg.sp_pieces@),
                token2id.wf(),
                sp_vocab.wf(),
                sp_trie.pieces() == map_of(all.take(i as int)),
                sp_vocab@ == token2id@.restrict(map_of(all.take(i as int)).dom()),
        {
            let piece = &cfg.sp_pieces[i].0;
            assert(all.take(i + 1).drop_last() == all.take(i as int));
            sp_trie.insert(piece.as_str(), cfg.sp_pieces[i].1);
            match token2id.get(piece.as_str()) {
                Some(id) => {
                    sp_vocab.insert(piece.clone(), id);
                },
                None => {},
            }
            assert(sp_vocab@ =~= token2id@.restrict(map_of(all.take(i + 1)).dom()));
        }
        assert(all.take(cfg.sp_pieces@.len() as int) == all);

        let vi_syllables = set_of(&cfg.vi_syllables);
        let base_forms = set_of(&cfg.base_forms);
        let vi_compounds = StrMap::from_pairs(&cfg.vi_compounds);
        proof {
            assert(described.id2token == id2token@.map_values(|t: String| t@));
            assert(described.vi_syllables == vi_syllables@.dom());
            assert(described.base_forms == base_forms@.dom());
            assert(described.pieces == sp_trie.pieces());
            assert(described.sp_vocab == sp_vocab@);
            assert(made_of_config(described));
        }
        ViLLMModel {
            token2id,
            id2token,
            unk_token: cfg.unk_token,
            unk_id,
            vi_chars: build_vi_chars(),
            vi_syllables,
            base_forms,
            vi_compounds,
            compound_unigram_score: cfg.compound_unigram_score,
            sp_trie,
            sp_vocab,
            byte_ids,
            re_code,
            cs_vi_en: cfg.cs_vi_en,
            cs_en_vi: cfg.cs_en_vi,
        }
    }

    /// The model that the fields of a saved configuration describe. All of them are needed but the
    /// kind of model.
    pub fn from_fields(fields: ConfigFields<S>) -> (r: TokenResult<Self>)
        ensures
            match first_missing(fields) {
                None => r is Ok && r->Ok_0@ == lexicon_of(fields_view(fields)),
                Some(name) => r is Err && r->Err_0.message@ == "missing field `"@ + name + "`"@,
            },
    {
        match fields.complete() {
            Ok(cfg) => Ok(Self::from_config(cfg)),
            Err(e) => Err(e),
        }
    }

    /// A model with the given vocabulary. Where a list of pairs holds a key twice, the later value
    /// counts.
    pub fn new(
        token2id: Vec<(String, u32)>,
        unk_token: String,
        vi_syllables: Vec<String>,
        base_forms: Vec<String>,
        vi_compounds: Vec<(String, S)>,
        compound_unigram_score: S,
        sp_pieces: Vec<(String, S)>,
        cs_vi_en: String,
        cs_en_vi: String,
    ) -> (r: Self)
        ensures
            r@ == lexicon_of(
                (ConfigView {
                    type_: "ViLLM"@,
                    token2id: pairs(token2id@),
                    unk_token: unk_token@,
                    vi_syllables: texts(vi_syllables@),
                    base_forms: texts(base_forms@),
                    vi_compounds: pairs(vi_compounds@),
                    unigram: compound_unigram_score,
                    sp_pieces: pairs(sp_pieces@),
                    cs_vi_en: cs_vi_en@,
                    cs_en_vi: cs_en_vi@,
                }),
            ),
    {
        let cfg = ViLLMConfig {
            type_: default_villm_type(),
            token2id,
            unk_token,
            vi_syllables,
            base_forms,
            vi_compounds,
            compound_unigram_score,
            sp_pieces,
            cs_vi_en,
            cs_en_vi,
        };
        Self::from_config(cfg)
    }

    /// The score that a piece is saved with.
    fn score_to_save(&self, piece: &str) -> (r: S)
        ensures
            r == saved_score(self@.pieces, piece@),
    {
        let found = if piece.is_empty() {
            let mut null = String::new();
            null.push('\0');
            assert(null@ == seq!['\0']);
            self.sp_trie.get(null.as_str())
        } else {
            self.sp_trie.get(piece)
        };
        match found {
            Some(score) => score,
            None => S::zero(),
        }
    }

    /// The configuration that the model is saved as.
    pub fn to_config(&self) -> (r: ViLLMConfig<S>)
        ensures
            saves(r@, self@),
            made_of_config(self@),
    {
        proof {
            use_type_invariant(self);
        }
        let names = key_list(&self.sp_vocab);
        let ordered = sorted(&names);
        let mut sp_pieces: Vec<(String, S)> = Vec::new();
        for i in 0..ordered.len()
            invariant
                keys(pairs(sp_pieces@)) == texts(ordered@).take(i as int),
                forall|j: int|
                    0 <= j < sp_pieces@.len() ==> (#[trigger] pairs(sp_pieces@)[j]).1
                        == saved_score(self@.pieces, pairs(sp_pieces@)[j].0),
        {
            let ghost before = pairs(sp_pieces@);
            let score = self.score_to_save(ordered[i].as_str());
            sp_pieces.push((ordered[i].clone(), score));
            let ghost pair = (ordered@[i as int]@, score);
            assert(pairs(sp_pieces@) == before.push(pair));
            assert(keys(pairs(sp_pieces@)) == keys(before).push(pair.0));
        }
        assert(texts(ordered@).take(ordered@.len() as int) == texts(ordered@));
        ViLLMConfig {
            type_: default_villm_type(),
            token2id: self.token2id.to_pairs(),
            unk_token: self.unk_token.clone(),
            vi_syllables: key_list(&self.vi_syllables),
            base_forms: key_list(&self.base_forms),
            vi_compounds: self.vi_compounds.to_pairs(),
            compound_unigram_score: self.compound_unigram_score,
            sp_pieces,
            cs_vi_en: self.cs_vi_en.clone(),
            cs_en_vi: self.cs_en_vi.clone(),
        }
    }

    // Lookup

    /// The id of `token`, if it has one.
    pub fn token_to_id(&self, token: &str) -> (r: Option<u32>)
        ensures
            r == self@.id(token@),
            made_of_config(self@),
    {
        proof {
            use_type_invariant(self);
        }
        self.token2id.get(token)
    }

    /// The token with the given id, if there is one.
    pub fn id_to_token(&self, id: u32) -> (r: Option<String>)
        ensures
            match r {
                Some(t) => self@.id2token.contains_key(id) && self@.id2token[id] == t@,
                None => !self@.id2token.contains_key(id),
            },
            made_of_config(self@),
    {
        proof {
            use_type_invariant(self);
        }
        match self.id2token.get(&id) {
            Some(t) => Some(t.clone()),
            None => None,
        }
    }

    /// The tokens and their ids, each token once.
    pub fn get_vocab(&self) -> (r: Vec<(String, u32)>)
        ensures
            distinct_keys(pairs(r@)),
            map_of(pairs(r@)) == self@.token2id,
            made_of_config(self@),
    {
        proof {
            use_type_invariant(self);
        }
        self.token2id.to_pairs()
    }

    /// The number of tokens.
    pub fn get_vocab_size(&self) -> (r: usize)
        ensures
            r == self@.token2id.len(),
    {
        proof {
            use_type_invariant(self);
        }
        self.token2id.len()
    }

    // Language

    /// The language of a word.
    pub fn detect_lang(&self, token: &str) -> (r: Lang)
        ensures
            r == self@.lang(token@),
    {
        proof {
            use_type_invariant(self);
        }
        let (alpha_count, vi_count) = count_letters(token, &self.vi_chars);
        let form = to_listed_form(token);
        let facts = WordFacts {
            punct: is_punct_token(token),
            number: is_numeric(token),
            code: regex_is_match(&self.re_code, token),
            alpha_count,
            vi_count,
            ascii: token.is_ascii(),
            listed: self.vi_syllables.contains(form.as_str()) || self.base_forms.contains(
                form.as_str(),
            ),
        };
        decide_lang(facts)
    }

    // English words

    /// A text as byte tokens.
    pub fn byte_fallback(&self, text: &str) -> (r: Vec<(String, u32)>)
        ensures
            pairs(r@) == self@.byte_tokens(text@),
    {
        let bytes = text.as_bytes();
        let mut out: Vec<(String, u32)> = Vec::new();
        let ghost all = self@.byte_tokens(text@);
        for i in 0..bytes.len()
            invariant
                bytes@ == encode_utf8(text@),
                all == self@.byte_tokens(text@),
                pairs(out@) == all.take(i as int),
        {
            let b: u8 = bytes[i];
            let id: u32 = match self.byte_ids.get(&b) {
                Some(id) => *id,
                None => self.unk_id,
            };
            let token = to_byte_token(b);
            let ghost before = pairs(out@);
            out.push((token, id));
            assert(pairs(out@) == before.push((token@, id)));
        }
        assert(all.take(bytes@.len() as int) == all);
        out
    }

    /// A word as pieces.
    pub fn tokenize_sp(&self, word: &str) -> (r: Vec<(String, u32)>)
        ensures
            pairs(r@) == self@.sp_tokens(word@),
    {
        proof {
            use_type_invariant(self);
        }
        let mut input = String::new();
        input.push(WORD_START);
        input.append(word);
        assert(input@ == seq![WORD_START] + word@);
        match self.sp_vocab.get(input.as_str()) {
            Some(id) => {
                return one(input, id);
            },
            None => {},
        }
        let chars = chars_of(input.as_str());
        match best_pieces(&self.sp_trie, &chars) {
            None => one(self.unk_token.clone(), self.unk_id),
            Some(path) => {
                let mut tokens: Vec<(String, u32)> = Vec::new();
                let ghost all = self@.sp_tokens(word@);
                for i in 0..path.len()
                    invariant
                        self.sp_vocab.wf(),
                        all == texts(path@).map_values(
                            |p: Seq<char>| (p, self@.piece_id(p)),
                        ),
                        pairs(tokens@) == all.take(i as int),
                {
                    let id: u32 = match self.sp_vocab.get(path[i].as_str()) {
                        Some(id) => id,
                        None => self.unk_id,
                    };
                    let ghost before = pairs(tokens@);
                    tokens.push((path[i].clone(), id));
                    assert(pairs(tokens@) == before.push((path@[i as int]@, id)));
                }
                assert(all.take(path@.len() as int) == all);
                tokens
            },
        }
    }

    /// The id of a word in its own case, or else in lowercase.
    fn cased_id(&self, word: &str) -> (r: Option<u32>)
        ensures
            r == self@.cased_id(word@),
    {
        proof {
            use_type_invariant(self);
        }
        match self.token2id.get(word) {
            Some(id) => Some(id),
            None => {
                let lower = to_lower(word);
                self.token2id.get(lower.as_str())
            },
        }
    }

    /// The id of a word without the punctuation at its end, where there is such punctuation and
    /// something before it.
    fn bare_id(&self, word: &str) -> (r: Option<u32>)
        ensures
            r == self@.bare_id(word@),
    {
        let bare = trimmed_end(word, Trim::Punct);
        let kept = chars_of(bare.as_str());
        let all = chars_of(word);
        if kept.len() < all.len() && kept.len() > 0 {
            self.cased_id(bare.as_str())
        } else {
            None
        }
    }

    /// Tells whether some token is spelled otherwise than the unknown token.
    fn some_known(&self, tokens: &Vec<(String, u32)>) -> (r: bool)
        ensures
            r == some_known(pairs(tokens@), self@.unk_token),
    {
        for i in 0..tokens.len()
            invariant
                forall|j: int| 0 <= j < i ==> (#[trigger] pairs(tokens@)[j]).0 == self@.unk_token,
        {
            if tokens[i].0 != self.unk_token {
                assert(pairs(tokens@)[i as int].0 != self@.unk_token);
                return true;
            }
        }
        false
    }

    /// An English word.
    pub fn tokenize_en_word(&self, word: &str) -> (r: Vec<(String, u32)>)
        ensures
            pairs(r@) == self@.en_tokens(word@),
    {
        proof {
            use_type_invariant(self);
        }
        match self.token2id.get(word) {
            Some(id) => {
                return one(word.to_owned(), id);
            },
            None => {},
        }
        if !is_all_lowercase(word) {
            return self.byte_fallback(word);
        }
        let lower = to_lower(word);
        match self.token2id.get(lower.as_str()) {
            Some(id) => {
                return one(word.to_owned(), id);
            },
            None => {},
        }
        match self.bare_id(word) {
            Some(id) => {
                return one(word.to_owned(), id);
            },
            None => {},
        }
        let sp_tokens = self.tokenize_sp(lower.as_str());
        if self.some_known(&sp_tokens) {
            return sp_tokens;
        }
        self.byte_fallback(word)
    }

    // Vietnamese words

    /// The first split of a word into two syllables that are tokens, or nothing.
    pub fn try_split_compound(&self, word: &str) -> (r: Vec<(String, u32)>)
        ensures
            pairs(r@) == self@.split_from(word@, 1),
    {
        proof {
            use_type_invariant(self);
        }
        let chars = chars_of(word);
        let n: usize = chars.len();
        let mut i: usize = 1;
        while i < n
            invariant
                1 <= i,
                n == chars@.len(),
                chars@ == word@,
                self.vi_syllables.wf(),
                self@.split_from(word@, 1) == self@.split_from(word@, i as int),
            decreases n - i,
        {
            let left = text_of(&chars, 0, i);
            let right = text_of(&chars, i, n);
            assert(left@ == word@.take(i as int));
            assert(right@ == word@.skip(i as int));
            let left_lower = to_lower(left.as_str());
            let right_lower = to_lower(right.as_str());
            if byte_len(left.as_str()) >= 2 && byte_len(right.as_str()) >= 2
                && self.vi_syllables.contains(left_lower.as_str()) && self.vi_syllables.contains(
                right_lower.as_str(),
            ) {
                match (self.cased_id(left.as_str()), self.cased_id(right.as_str())) {
                    (Some(left_id), Some(right_id)) => {
                        let mut out: Vec<(String, u32)> = Vec::new();
                        out.push((left, left_id));
                        out.push((right, right_id));
                        assert(pairs(out@) == seq![(left@, left_id), (right@, right_id)]);
                        return out;
                    },
                    _ => {},
                }
            }
            i = i + 1;
        }
        let none: Vec<(String, u32)> = Vec::new();
        assert(pairs(none@) == Seq::<Spelled>::empty());
        none
    }

    /// A Vietnamese word that stands alone.
    pub fn tokenize_vi_word(&self, word: &str) -> (r: Vec<(String, u32)>)
        ensures
            pairs(r@) == self@.vi_tokens(word@),
    {
        match self.cased_id(word) {
            Some(id) => {
                return one(word.to_owned(), id);
            },
            None => {},
        }
        match self.bare_id(word) {
            Some(id) => {
                return one(word.to_owned(), id);
            },
            None => {},
        }
        let split = self.try_split_compound(word);
        if !split.is_empty() {
            assert(pairs(split@).len() > 0);
            return split;
        }
        self.byte_fallback(word)
    }

    /// The first of the given spellings that is a token.
    fn first_known(&self, spellings: &Vec<String>) -> (r: Vec<(String, u32)>)
        ensures
            pairs(r@) == self@.first_known(texts(spellings@)),
    {
        proof {
            use_type_invariant(self);
        }
        let ghost all = texts(spellings@);
        assert(all.skip(0) == all);
        for i in 0..spellings.len()
            invariant
                all == texts(spellings@),
                self.token2id.wf(),
                self@.first_known(all) == self@.first_known(all.skip(i as int)),
        {
            assert(all.skip(i as int).drop_first() == all.skip(i + 1));
            assert(all.skip(i as int)[0] == spellings@[i as int]@);
            match self.token2id.get(spellings[i].as_str()) {
                Some(id) => {
                    return one(spellings[i].clone(), id);
                },
                None => {},
            }
        }
        let none: Vec<(String, u32)> = Vec::new();
        assert(pairs(none@) == Seq::<Spelled>::empty());
        none
    }

    /// A part of a run of Vietnamese words.
    pub fn tokenize_part(&self, part: &str, orig: &Vec<String>) -> (r: Vec<(String, u32)>)
        requires
            orig@.len() > 0,
        ensures
            pairs(r@) == self@.part_tokens(part@, texts(orig@)),
    {
        proof {
            use_type_invariant(self);
        }
        let mut spellings: Vec<String> = Vec::new();
        if has_char(part, '_') {
            spellings.push(cased_compound(part, orig));
            spellings.push(to_upper(part));
            spellings.push(part.to_owned());
            assert(texts(spellings@) == self@.part_spellings(part@, texts(orig@)));
            let known = self.first_known(&spellings);
            if !known.is_empty() {
                assert(pairs(known@).len() > 0);
                return known;
            }
            let words = split_on(part, '_');
            let mut out: Vec<(String, u32)> = Vec::new();
            assert(pairs(out@) == Seq::<Spelled>::empty());
            for i in 0..words.len()
                invariant
                    pairs(out@) == self@.en_tokens_each(texts(words@).take(i as int)),
            {
                assert(texts(words@).take(i + 1).drop_last() == texts(words@).take(i as int));
                let ghost before = pairs(out@);
                let mut more = self.tokenize_en_word(words[i].as_str());
                let ghost added = pairs(more@);
                out.append(&mut more);
                assert(pairs(out@) == before + added);
            }
            assert(texts(words@).take(words@.len() as int) == texts(words@));
            return out;
        }
        let word = &orig[0];
        assert(texts(orig@)[0] == word@);
        let all_upper = is_all_uppercase(word.as_str());
        let upper = starts_with_uppercase(word.as_str());
        if all_upper || upper {
            if !all_upper {
                spellings.push(to_title(part));
            }
            spellings.push(to_upper(part));
            spellings.push(part.to_owned());
            assert(texts(spellings@) == self@.part_spellings(part@, texts(orig@)));
            let known = self.first_known(&spellings);
            if !known.is_empty() {
                assert(pairs(known@).len() > 0);
                return known;
            }
            return self.tokenize_en_word(part);
        }
        match self.token2id.get(part) {
            Some(id) => one(word.clone(), id),
            None => self.tokenize_en_word(part),
        }
    }

    /// Adds the tokens of a run of Vietnamese words, of which the forms, the words and the places
    /// are given. Words and places beyond those of the forms do not count.
    pub fn tokenize_vi_run(
        &self,
        run_lower: &Vec<String>,
        run_raw: &Vec<String>,
        word_offsets: &Vec<(usize, usize)>,
        result: &mut Vec<Token>,
    )
        requires
            run_raw@.len() >= run_lower@.len(),
            word_offsets@.len() >= run_lower@.len(),
        ensures
            token_views(final(result)@) == token_views(old(result)@) + self@.run_tokens(
                texts(run_lower@),
                texts(run_raw@),
                word_offsets@,
            ),
    {
        proof {
            use_type_invariant(self);
        }
        let n: usize = run_lower.len();
        let parts = best_run(&self.vi_compounds, self.compound_unigram_score, run_lower);
        let ghost start = token_views(result@);
        let ghost lower = texts(run_lower@);
        let ghost raw = texts(run_raw@);
        proof {
            lemma_run_parts(self@.vi_compounds, self@.unigram, lower, n as int);
        }
        for i in 0..parts.len()
            invariant
                lower == texts(run_lower@),
                raw == texts(run_raw@),
                run_raw@.len() >= run_lower@.len(),
                word_offsets@.len() >= run_lower@.len(),
                forall|j: int|
                    0 <= j < parts@.len() ==> (#[trigger] parts@[j]).0 < parts@[j].1
                        <= run_lower@.len(),
                token_views(result@) == start + self@.parts_tokens(
                    lower,
                    raw,
                    word_offsets@,
                    parts@.take(i as int),
                ),
        {
            let (a, b) = parts[i];
            let forms = sub_list(run_lower, a, b);
            let orig = sub_list(run_raw, a, b);
            let part = join_with(&forms, '_');
            assert(texts(orig@).len() == orig@.len());
            let tokens = self.tokenize_part(part.as_str(), &orig);
            assert(parts@.take(i + 1).drop_last() == parts@.take(i as int));
            place(result, &tokens, (word_offsets[a].0, word_offsets[b - 1].1));
            assert(texts(forms@) == lower.subrange(a as int, b as int));
            assert(texts(orig@) == raw.subrange(a as int, b as int));
            assert(token_views(result@) == start + self@.parts_tokens(
                lower,
                raw,
                word_offsets@,
                parts@.take(i + 1),
            ));
        }
        assert(parts@.take(parts@.len() as int) == parts@);
    }

    // Texts

    /// Adds the marker between words of two languages, where there is one.
    pub fn maybe_add_cs(
        &self,
        result: &mut Vec<Token>,
        prev: Option<Lang>,
        curr: Lang,
        offset: (usize, usize),
    )
        ensures
            token_views(final(result)@) == token_views(old(result)@) + placed(
                self@.switch(prev, curr),
                offset,
            ),
    {
        let mut markers: Vec<String> = Vec::new();
        match (prev, curr) {
            (Some(Lang::Vi), Lang::En) => {
                markers.push(self.cs_vi_en.clone());
                assert(texts(markers@) == seq![self@.cs_vi_en]);
            },
            (Some(Lang::En), Lang::Vi) => {
                markers.push(self.cs_en_vi.clone());
                assert(texts(markers@) == seq![self@.cs_en_vi]);
            },
            _ => {
                assert(texts(markers@) == Seq::<Seq<char>>::empty());
            },
        }
        let tokens = self.first_known(&markers);
        place(result, &tokens, offset);
    }

    /// The tokens of a word of the given language that makes no run.
    pub fn tokenize_word(&self, word: &str, lang: Lang) -> (r: Vec<(String, u32)>)
        ensures
            pairs(r@) == self@.word_tokens(word@, lang),
    {
        proof {
            use_type_invariant(self);
        }
        match lang {
            Lang::Vi | Lang::En => self.tokenize_en_word(word),
            Lang::Punct | Lang::Num => match self.token2id.get(word) {
                Some(id) => one(word.to_owned(), id),
                None => self.byte_fallback(word),
            },
            Lang::Code => match self.token2id.get(word) {
                Some(id) => one(word.to_owned(), id),
                None => {
                    let en_tokens = self.tokenize_en_word(word);
                    if self.some_known(&en_tokens) {
                        en_tokens
                    } else {
                        self.byte_fallback(word)
                    }
                },
            },
        }
    }

    /// Adds the tokens of the run of Vietnamese words that starts at `i`, and returns where it
    /// ends.
    fn add_run(
        &self,
        words: &Vec<String>,
        offsets: &Vec<(usize, usize)>,
        i: usize,
        prev: Option<Lang>,
        result: &mut Vec<Token>,
    ) -> (r: usize)
        requires
            i < words@.len(),
            offsets@.len() == words@.len(),
            self@.lang(texts(words@)[i as int]) == Lang::Vi,
        ensures
            i < r <= words@.len(),
            forall|j: int| i <= j < r ==> spoken(run_form(#[trigger] texts(words@)[j])),
            token_views(final(result)@) + self@.tokens_from(
                texts(words@),
                offsets@,
                r as int,
                Some(Lang::Vi),
            ) == token_views(old(result)@) + self@.tokens_from(
                texts(words@),
                offsets@,
                i as int,
                prev,
            ),
    {
        let ghost all = texts(words@);
        let ghost before = token_views(result@);
        let n: usize = words.len();
        let mut run_end: usize = i + 1;
        while run_end < n && self.detect_lang(words[run_end].as_str()) == Lang::Vi
            invariant
                i < run_end <= n,
                n == words@.len(),
                all == texts(words@),
                self@.run_end(all, i + 1) == self@.run_end(all, run_end as int),
            ensures
                i < run_end <= n,
                self@.run_end(all, i + 1) == run_end,
            decreases n - run_end,
        {
            run_end = run_end + 1;
        }
        let run_raw = sub_list(words, i, run_end);
        let run_lower = run_forms(&run_raw);
        proof {
            assert forall|j: int| i <= j < run_end implies spoken(run_form(#[trigger] all[j])) by {
                if j > i {
                    lemma_run_is_vietnamese(self@, all, i + 1, j);
                }
                lemma_vietnamese_is_spoken(self@, all[j]);
                assert(texts(run_raw@)[j - i] == all[j]);
            }
        }
        let run_offsets = sub_offsets(offsets, i, run_end);
        assert(texts(run_raw@).len() == run_raw@.len());
        assert(texts(run_lower@).len() == run_lower@.len());
        self.maybe_add_cs(result, prev, Lang::Vi, offsets[i]);
        self.tokenize_vi_run(&run_lower, &run_raw, &run_offsets, result);
        proof {
            self@.lemma_tokens_of_run(before, all, offsets@, i as int, prev);
        }
        run_end
    }

    /// Adds the tokens of the word at `i`, which is not Vietnamese, and returns the language after
    /// it.
    fn add_word(
        &self,
        words: &Vec<String>,
        offsets: &Vec<(usize, usize)>,
        i: usize,
        lang: Lang,
        prev: Option<Lang>,
        result: &mut Vec<Token>,
    ) -> (r: Option<Lang>)
        requires
            i < words@.len(),
            offsets@.len() == words@.len(),
            lang == self@.lang(texts(words@)[i as int]),
            lang != Lang::Vi,
        ensures
            token_views(final(result)@) + self@.tokens_from(texts(words@), offsets@, i + 1, r)
                == token_views(old(result)@) + self@.tokens_from(
                texts(words@),
                offsets@,
                i as int,
                prev,
            ),
    {
        let ghost all = texts(words@);
        let ghost before = token_views(result@);
        let word = &words[i];
        let offset = offsets[i];
        assert(all[i as int] == word@);
        if lang != Lang::Punct {
            self.maybe_add_cs(result, prev, lang, offset);
        }
        let tokens = self.tokenize_word(word.as_str(), lang);
        place(result, &tokens, offset);
        let after = if lang == Lang::Punct {
            prev
        } else {
            Some(lang)
        };
        proof {
            self@.lemma_tokens_of_word(before, all, offsets@, i as int, prev);
        }
        after
    }

    /// The tokens of a text. Some token stands for each of its words.
    pub fn tokenize(&self, sequence: &str) -> (r: TokenResult<Vec<Token>>)
        ensures
            r is Ok,
            token_views(r->Ok_0@) == self@.tokens(sequence@),
            forall|w: int|
                0 <= w < words_of(sequence@).len() ==> covered(
                    token_views(r->Ok_0@),
                    #[trigger] offsets_of(words_of(sequence@))[w],
                ),
            made_of_config(self@),
    {
        proof {
            use_type_invariant(self);
        }
        if byte_len(sequence) == 0 {
            let none: Vec<Token> = Vec::new();
            proof {
                lemma_encode_empty(sequence@);
                assert(token_views(none@) == Seq::<TokenView>::empty());
            }
            return Ok(none);
        }
        let words = pretokenize(sequence);
        let offsets = word_offsets(sequence, &words);
        let n: usize = words.len();
        let ghost all = texts(words@);
        let ghost whole = self@.tokens(sequence@);

        let mut result: Vec<Token> = Vec::new();
        let mut prev_lang: Option<Lang> = None;
        let mut i: usize = 0;
        assert(token_views(result@) == Seq::<TokenView>::empty());
        assert(token_views(result@) + whole == whole);
        while i < n
            invariant
                i <= n,
                n == words@.len(),
                all == texts(words@),
                offsets@.len() == n,
                forall|j: int|
                    0 <= j < i && self@.lang(#[trigger] all[j]) == Lang::Vi ==> spoken(
                        run_form(all[j]),
                    ),
                token_views(result@) + self@.tokens_from(all, offsets@, i as int, prev_lang)
                    == whole,
            decreases n - i,
        {
            assert(all[i as int] == words@[i as int]@);
            let lang = self.detect_lang(words[i].as_str());
            if lang == Lang::Vi {
                i = self.add_run(&words, &offsets, i, prev_lang, &mut result);
                prev_lang = Some(Lang::Vi);
            } else {
                prev_lang = self.add_word(&words, &offsets, i, lang, prev_lang, &mut result);
                i = i + 1;
            }
        }
        assert(self@.tokens_from(all, offsets@, n as int, prev_lang) == Seq::<TokenView>::empty());
        assert(token_views(result@) == whole);
        proof {
            assert forall|w: int| 0 <= w < words_of(sequence@).len() implies covered(
                whole,
                #[trigger] offsets_of(words_of(sequence@))[w],
            ) by {
                lemma_word_covered(self@, sequence@, w);
            }
        }
        Ok(result)
    }
}

impl<S: Score> Clone for ViLLMModel<S> {
    fn clone(&self) -> (r: Self)
        ensures
            r@ == self@,
    {
        proof {
            use_type_invariant(self);
        }
        let id2token = self.id2token.clone();
        let byte_ids = self.byte_ids.clone();
        let token2id = self.token2id.copy();
        let vi_syllables = self.vi_syllables.copy();
        let base_forms = self.base_forms.copy();
        let vi_compounds = self.vi_compounds.copy();
        let sp_vocab = self.sp_vocab.copy();
        let sp_trie = self.sp_trie.copy();
        ViLLMModel {
            token2id,
            id2token,
            unk_token: self.unk_token.clone(),
            unk_id: self.unk_id,
            vi_chars: build_vi_chars(),
            vi_syllables,
            base_forms,
            vi_compounds,
            compound_unigram_score: self.compound_unigram_score,
            sp_trie,
            sp_vocab,
            byte_ids,
            re_code: compile_regex(CODE_PATTERN).unwrap(),
            cs_vi_en: self.cs_vi_en.clone(),
            cs_en_vi: self.cs_en_vi.clone(),
        }
    }
}

/// That two maps hold the same keys, with scores that count as equal.
pub open spec fn same_scores<S: Score>(a: Map<Seq<char>, S>, b: Map<Seq<char>, S>) -> bool {
    &&& a.dom() == b.dom()
    &&& forall|k: Seq<char>| #[trigger] a.contains_key(k) ==> a[k].same(b[k])
}

/// That two models have the same vocabulary. The pieces count by their ids alone, and the tokens by
/// id follow from the ids.
pub open spec fn same_model<S: Score>(a: Lexicon<S>, b: Lexicon<S>) -> bool {
    &&& a.token2id == b.token2id
    &&& a.unk_token == b.unk_token
    &&& a.unk_id == b.unk_id
    &&& same_scores(a.vi_compounds, b.vi_compounds)
    &&& a.unigram.same(b.unigram)
    &&& a.cs_vi_en == b.cs_vi_en
    &&& a.cs_en_vi == b.cs_en_vi
    &&& a.vi_syllables == b.vi_syllables
    &&& a.base_forms == b.base_forms
    &&& a.sp_vocab == b.sp_vocab
    &&& a.byte_ids == b.byte_ids
}

impl<S: Score> PartialEqSpecImpl for ViLLMModel<S> {
    open spec fn obeys_eq_spec() -> bool {
        true
    }

    open spec fn eq_spec(&self, other: &Self) -> bool {
        same_model(self@, other@)
    }
}

impl<S: Score> PartialEq for ViLLMModel<S> {
    fn eq(&self, other: &Self) -> (r: bool) {
        proof {
            use_type_invariant(self);
            use_type_invariant(other);
        }
        ids_equal(&self.token2id, &other.token2id) && self.unk_token == other.unk_token
            && self.unk_id == other.unk_id && scores_equal(&self.vi_compounds, &other.vi_compounds)
            && self.compound_unigram_score.is_same_as(other.compound_unigram_score) && same_text(
            regex_as_str(&self.re_code),
            regex_as_str(&other.re_code),
        ) && self.cs_vi_en == other.cs_vi_en && self.cs_en_vi == other.cs_en_vi && keys_equal(
            &self.vi_syllables,
            &other.vi_syllables,
        ) && keys_equal(&self.base_forms, &other.base_forms) && ids_equal(
            &self.sp_vocab,
            &other.sp_vocab,
        ) && byte_ids_equal(&self.byte_ids, &other.byte_ids)
    }
}

/// The keys of a map, each once.
fn key_list<V: Copy>(m: &StrMap<V>) -> (r: Vec<String>)
    requires
        m.wf(),
    ensures
        texts(r@).no_duplicates(),
        texts(r@).to_set() == m@.dom(),
{
    let list = m.to_pairs();
    let ghost all = pairs(list@);
    let mut out: Vec<String> = Vec::new();
    for i in 0..list.len()
        invariant
            all == pairs(list@),
            texts(out@) == keys(all).take(i as int),
    {
        let ghost before = texts(out@);
        out.push(list[i].0.clone());
        assert(texts(out@) == before.push(all[i as int].0));
    }
    proof {
        assert(keys(all).take(list@.len() as int) == keys(all));
        assert forall|i: int, j: int|
            0 <= i < keys(all).len() && 0 <= j < keys(all).len() && i != j implies keys(all)[i]
            != keys(all)[j] by {
            assert(keys(all)[i] == all[i].0 && keys(all)[j] == all[j].0);
        }
        assert forall|k: Seq<char>| keys(all).contains(k) <==> m@.contains_key(k) by {
            lemma_map_of_key(all, k);
            if keys(all).contains(k) {
                let i = choose|i: int| 0 <= i < keys(all).len() && keys(all)[i] == k;
                assert(all[i].0 == k);
            }
            if m@.contains_key(k) {
                let i = choose|i: int| 0 <= i < all.len() && (#[trigger] all[i]).0 == k;
                assert(keys(all)[i] == k);
            }
        }
        assert(keys(all).to_set() =~= m@.dom());
    }
    out
}

/// Tells whether every key of `a` is one of `b`.
fn keys_within<V: Copy>(a: &StrMap<V>, b: &StrMap<V>) -> (r: bool)
    requires
        a.wf(),
        b.wf(),
    ensures
        r == (forall|k: Seq<char>| #[trigger] a@.contains_key(k) ==> b@.contains_key(k)),
{
    proof {
        a.lemma_listed();
    }
    let n: usize = a.len();
    for i in 0..n
        invariant
            n == a.listed().len(),
            b.wf(),
            forall|j: int|
                0 <= j < n ==> a@.contains_key((#[trigger] a.listed()[j]).0),
            forall|j: int| 0 <= j < i ==> b@.contains_key((#[trigger] a.listed()[j]).0),
    {
        let (key, _) = a.entry(i);
        assert(a@.contains_key(a.listed()[i as int].0));
        if !b.contains(key) {
            return false;
        }
    }
    proof {
        assert forall|k: Seq<char>| #[trigger] a@.contains_key(k) implies b@.contains_key(k) by {
            lemma_map_of_key(a.listed(), k);
        }
    }
    true
}

/// Tells whether two maps have the same keys.
fn keys_equal<V: Copy>(a: &StrMap<V>, b: &StrMap<V>) -> (r: bool)
    requires
        a.wf(),
        b.wf(),
    ensures
        r == (a@.dom() == b@.dom()),
{
    let r = keys_within(a, b) && keys_within(b, a);
    proof {
        if a@.dom() == b@.dom() {
            assert(forall|k: Seq<char>| a@.contains_key(k) == b@.contains_key(k)) by {
                assert(forall|k: Seq<char>| a@.contains_key(k) == a@.dom().contains(k));
                assert(forall|k: Seq<char>| b@.contains_key(k) == b@.dom().contains(k));
            }
        }
        if r {
            assert(a@.dom() =~= b@.dom());
        }
    }
    r
}

/// Tells whether two maps give the same ids to the same keys.
fn ids_equal(a: &StrMap<u32>, b: &StrMap<u32>) -> (r: bool)
    requires
        a.wf(),
        b.wf(),
    ensures
        r == (a@ == b@),
{
    if !keys_equal(a, b) {
        return false;
    }
    proof {
        a.lemma_listed();
    }
    let n: usize = a.len();
    for i in 0..n
        invariant
            n == a.listed().len(),
            b.wf(),
            a@.dom() == b@.dom(),
            forall|j: int|
                0 <= j < n ==> a@.contains_key((#[trigger] a.listed()[j]).0)
                    && a@[a.listed()[j].0] == a.listed()[j].1,
            forall|j: int|
                0 <= j < i ==> b@[(#[trigger] a.listed()[j]).0] == a@[a.listed()[j].0],
    {
        let (key, id) = a.entry(i);
        assert(a@.dom().contains(a.listed()[i as int].0));
        match b.get(key) {
            Some(other) => {
                if other != id {
                    return false;
                }
            },
            None => {
                return false;
            },
        }
    }
    proof {
        assert forall|k: Seq<char>| #[trigger] a@.contains_key(k) implies a@[k] == b@[k] by {
            lemma_map_of_key(a.listed(), k);
        }
        assert(a@ =~= b@);
    }
    true
}

/// Tells whether two maps give scores that count as equal to the same keys.
fn scores_equal<S: Score>(a: &StrMap<S>, b: &StrMap<S>) -> (r: bool)
    requires
        a.wf(),
        b.wf(),
    ensures
        r == same_scores(a@, b@),
{
    if !keys_equal(a, b) {
        return false;
    }
    proof {
        a.lemma_listed();
    }
    let n: usize = a.len();
    for i in 0..n
        invariant
            n == a.listed().len(),
            b.wf(),
            a@.dom() == b@.dom(),
            forall|j: int|
                0 <= j < n ==> a@.contains_key((#[trigger] a.listed()[j]).0)
                    && a@[a.listed()[j].0] == a.listed()[j].1,
            forall|j: int|
                0 <= j < i ==> a@[(#[trigger] a.listed()[j]).0].same(b@[a.listed()[j].0]),
    {
        let (key, score) = a.entry(i);
        assert(a@.dom().contains(a.listed()[i as int].0));
        match b.get(key) {
            Some(other) => {
                if !score.is_same_as(other) {
                    assert(!a@[a.listed()[i as int].0].same(b@[a.listed()[i as int].0]));
                    return false;
                }
            },
            None => {
                return false;
            },
        }
    }
    proof {
        assert forall|k: Seq<char>| #[trigger] a@.contains_key(k) implies a@[k].same(b@[k]) by {
            lemma_map_of_key(a.listed(), k);
        }
    }
    true
}

/// Tells whether two maps give the same ids to the same bytes.
fn byte_ids_equal(a: &HashMap<u8, u32>, b: &HashMap<u8, u32>) -> (r: bool)
    ensures
        r == (a@ == b@),
{
    for i in 0..256u16
        invariant
            forall|x: u8|
                x < i ==> (#[trigger] a@.contains_key(x) <==> b@.contains_key(x)) && (
                a@.contains_key(x) ==> a@[x] == b@[x]),
    {
        let x: u8 = i as u8;
        let equal = match (a.get(&x), b.get(&x)) {
            (Some(p), Some(q)) => *p == *q,
            (None, None) => true,
            _ => false,
        };
        if !equal {
            assert(a@ != b@) by {
                assert(a@.contains_key(x) != b@.contains_key(x) || a@[x] != b@[x]);
            }
            return false;
        }
    }
    assert(a@ =~= b@);
    true
}

/// A list of one token.
fn one(value: String, id: u32) -> (r: Vec<(String, u32)>)
    ensures
        pairs(r@) == seq![(value@, id)],
{
    let mut v: Vec<(String, u32)> = Vec::new();
    v.push((value, id));
    assert(pairs(v@) == seq![(value@, id)]);
    v
}

/// Adds tokens at one place.
fn place(result: &mut Vec<Token>, tokens: &Vec<(String, u32)>, offset: (usize, usize))
    ensures
        token_views(final(result)@) == token_views(old(result)@) + placed(pairs(tokens@), offset),
{
    let ghost start = token_views(result@);
    let ghost all = placed(pairs(tokens@), offset);
    assert(start + all.take(0) == start);
    for i in 0..tokens.len()
        invariant
            all == placed(pairs(tokens@), offset),
            token_views(result@) == start + all.take(i as int),
    {
        let ghost before = token_views(result@);
        let token = Token::new(tokens[i].1, tokens[i].0.clone(), offset);
        result.push(token);
        assert(token_views(result@) == before.push(token@));
        assert(all.take(i + 1) == all.take(i as int).push(token@));
    }
    assert(all.take(tokens@.len() as int) == all);
}

/// Tells whether every character of `s` is uppercase.
fn is_all_uppercase(s: &str) -> (r: bool)
    ensures
        r == all_uppercase(s@),
{
    let v = chars_of(s);
    for i in 0..v.len()
        invariant
            v@ == s@,
            forall|j: int| 0 <= j < i ==> uppercase(#[trigger] v@[j]),
    {
        if !is_uppercase_char(v[i]) {
            return false;
        }
    }
    true
}

/// Tells whether every character of `s` is lowercase.
fn is_all_lowercase(s: &str) -> (r: bool)
    ensures
        r == all_lowercase(s@),
{
    let v = chars_of(s);
    for i in 0..v.len()
        invariant
            v@ == s@,
            forall|j: int| 0 <= j < i ==> lowercase(#[trigger] v@[j]),
    {
        if !is_lowercase_char(v[i]) {
            return false;
        }
    }
    true
}

/// Tells whether `s` starts with an uppercase character.
fn starts_with_uppercase(s: &str) -> (r: bool)
    ensures
        r == starts_uppercase(s@),
{
    let v = chars_of(s);
    v.len() > 0 && is_uppercase_char(v[0])
}

/// A compound in the case of the words that it stands for.
pub fn cased_compound(compound: &str, orig_words: &Vec<String>) -> (r: String)
    ensures
        r@ == cased_compound_of(compound@, texts(orig_words@)),
{
    let parts = split_on(compound, '_');
    let ghost all = recased_parts(texts(parts@), texts(orig_words@));
    let mut cased: Vec<String> = Vec::new();
    for i in 0..parts.len()
        invariant
            all == recased_parts(texts(parts@), texts(orig_words@)),
            texts(cased@) == all.take(i as int),
    {
        let ghost before = texts(cased@);
        let part = &parts[i];
        let next = if i < orig_words.len() {
            let orig = orig_words[i].as_str();
            if is_all_uppercase(orig) {
                to_upper(part.as_str())
            } else if starts_with_uppercase(orig) {
                to_title(part.as_str())
            } else {
                part.clone()
            }
        } else {
            part.clone()
        };
        assert(next@ == all[i as int]);
        cased.push(next);
        assert(texts(cased@) == before.push(next@));
    }
    assert(all.take(parts@.len() as int) == all);
    join_with(&cased, '_')
}

/// The texts from place `a` up to place `b`.
fn sub_list(v: &Vec<String>, a: usize, b: usize) -> (r: Vec<String>)
    requires
        a <= b <= v@.len(),
    ensures
        texts(r@) == texts(v@).subrange(a as int, b as int),
{
    let mut out: Vec<String> = Vec::new();
    for i in a..b
        invariant
            a <= i <= b <= v@.len(),
            texts(out@) == texts(v@).subrange(a as int, i as int),
    {
        let ghost before = texts(out@);
        out.push(v[i].clone());
        assert(texts(out@) == before.push(v@[i as int]@));
    }
    out
}

/// The places from `a` up to `b`.
fn sub_offsets(v: &Vec<(usize, usize)>, a: usize, b: usize) -> (r: Vec<(usize, usize)>)
    requires
        a <= b <= v@.len(),
    ensures
        r@ == v@.subrange(a as int, b as int),
{
    let mut out: Vec<(usize, usize)> = Vec::new();
    for i in a..b
        invariant
            a <= i <= b <= v@.len(),
            out@ == v@.subrange(a as int, i as int),
    {
        out.push(v[i]);
    }
    out
}

/// The words as a run of Vietnamese words holds them.
fn run_forms(v: &Vec<String>) -> (r: Vec<String>)
    ensures
        texts(r@) == texts(v@).map_values(|w: Seq<char>| run_form(w)),
        forall|j: int|
            0 <= j < v@.len() && spoken(trim_both(#[trigger] texts(v@)[j], Trim::Punct))
                ==> spoken(run_form(texts(v@)[j])),
{
    let mut out: Vec<String> = Vec::new();
    let ghost all = texts(v@).map_values(|w: Seq<char>| run_form(w));
    for i in 0..v.len()
        invariant
            all == texts(v@).map_values(|w: Seq<char>| run_form(w)),
            texts(out@) == all.take(i as int),
            forall|j: int|
                0 <= j < i && spoken(trim_both(#[trigger] texts(v@)[j], Trim::Punct)) ==> spoken(
                    run_form(texts(v@)[j]),
                ),
    {
        let ghost before = texts(out@);
        let bare = trimmed(v[i].as_str(), Trim::Punct);
        let form = to_lower(bare.as_str());
        assert(form@ == all[i as int]);
        out.push(form);
        assert(texts(out@) == before.push(form@));
    }
    assert(all.take(v@.len() as int) == all);
    out
}

} // verus!
