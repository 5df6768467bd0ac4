//! The configuration that a model is made of, and that it is saved as.
use crate::lexicon::Lexicon;
use crate::score::Score;
use crate::sort::ascending;
use crate::str_map::{distinct_keys, map_of, pairs};
use crate::text::{byte_token, joined, texts};
use crate::token::{TokenResult, TokenizerError};
use vstd::prelude::*;

verus! {

/// The name of this kind of model in a saved configuration.
pub fn default_villm_type() -> (r: String)
    ensures
        r@ == "ViLLM"@,
{
    "ViLLM".to_owned()
}

/// The configuration of a model. Where a list of pairs holds a key twice, the later value counts.
pub struct ViLLMConfig<S> {
    /// The kind of model.
    pub type_: String,
    /// The id of each token.
    pub token2id: Vec<(String, u32)>,
    /// The token for what the model does not know.
    pub unk_token: String,
    /// The Vietnamese syllables.
    pub vi_syllables: Vec<String>,
    /// Vietnamese words without diacritics.
    pub base_forms: Vec<String>,
    /// The score of each compound of two syllables.
    pub vi_compounds: Vec<(String, S)>,
    /// The score of a syllable that stands alone.
    pub compound_unigram_score: S,
    /// The score of each piece of an English word.
    pub sp_pieces: Vec<(String, S)>,
    /// The marker of a switch to English.
    pub cs_vi_en: String,
    /// The marker of a switch to Vietnamese.
    pub cs_en_vi: String,
}

/// What a configuration says.
#[verifier::ext_equal]
pub struct ConfigView<S> {
    pub type_: Seq<char>,
    pub token2id: Seq<(Seq<char>, u32)>,
    pub unk_token: Seq<char>,
    pub vi_syllables: Seq<Seq<char>>,
    pub base_forms: Seq<Seq<char>>,
    pub vi_compounds: Seq<(Seq<char>, S)>,
    pub unigram: S,
    pub sp_pieces: Seq<(Seq<char>, S)>,
    pub cs_vi_en: Seq<char>,
    pub cs_en_vi: Seq<char>,
}

impl<S> View for ViLLMConfig<S> {
    type V = ConfigView<S>;

    open spec fn view(&self) -> ConfigView<S> {
        ConfigView {
            type_: self.type_@,
            token2id: pairs(self.token2id@),
            unk_token: self.unk_token@,
            vi_syllables: texts(self.vi_syllables@),
            base_forms: texts(self.base_forms@),
            vi_compounds: pairs(self.vi_compounds@),
            unigram: self.compound_unigram_score,
            sp_pieces: pairs(self.sp_pieces@),
            cs_vi_en: self.cs_vi_en@,
            cs_en_vi: self.cs_en_vi@,
        }
    }
}

/// The fields of a configuration as a saved one may hold them: any may be missing.
pub struct ConfigFields<S> {
    pub type_: Option<String>,
    pub token2id: Option<Vec<(String, u32)>>,
    pub unk_token: Option<String>,
    pub vi_syllables: Option<Vec<String>>,
    pub base_forms: Option<Vec<String>>,
    pub vi_compounds: Option<Vec<(String, S)>>,
    pub compound_unigram_score: Option<S>,
    pub sp_pieces: Option<Vec<(String, S)>>,
    pub cs_vi_en: Option<String>,
    pub cs_en_vi: Option<String>,
}

/// The name of the first field that is missing. The kind of model may be missing.
pub open spec fn first_missing<S>(f: ConfigFields<S>) -> Option<Seq<char>> {
    if f.token2id is None {
        Some("token2id"@)
    } else if f.unk_token is None {
        Some("unk_token"@)
    } else if f.vi_syllables is None {
        Some("vi_syllables"@)
    } else if f.base_forms is None {
        Some("base_forms"@)
    } else if f.vi_compounds is None {
        Some("vi_compounds"@)
    } else if f.compound_unigram_score is None {
        Some("compound_unigram_score"@)
    } else if f.sp_pieces is None {
        Some("sp_pieces"@)
    } else if f.cs_vi_en is None {
        Some("cs_vi_en"@)
    } else if f.cs_en_vi is None {
        Some("cs_en_vi"@)
    } else {
        None
    }
}

/// What the fields say where none is missing but the kind of model, for which there is a default.
pub open spec fn fields_view<S>(f: ConfigFields<S>) -> ConfigView<S> {
    ConfigView {
        type_: match f.type_ {
            Some(t) => t@,
            None => "ViLLM"@,
        },
        token2id: pairs(f.token2id->0@),
        unk_token: f.unk_token->0@,
        vi_syllables: texts(f.vi_syllables->0@),
        base_forms: texts(f.base_forms->0@),
        vi_compounds: pairs(f.vi_compounds->0@),
        unigram: f.compound_unigram_score->0,
        sp_pieces: pairs(f.sp_pieces->0@),
        cs_vi_en: f.cs_vi_en->0@,
        cs_en_vi: f.cs_en_vi->0@,
    }
}

/// The error for a missing field.
fn missing<T>(name: &str) -> (r: TokenResult<T>)
    ensures
        r is Err,
        r->Err_0.message@ == "missing field `"@ + name@ + "`"@,
{
    let start = joined("missing field `", name);
    Err(TokenizerError { message: joined(start.as_str(), "`") })
}

impl<S> ConfigFields<S> {
    /// The configuration that the fields make. All of them are needed but the kind of model.
    pub fn complete(self) -> (r: TokenResult<ViLLMConfig<S>>)
        ensures
            match first_missing(self) {
                None => r is Ok && r->Ok_0@ == fields_view(self),
                Some(name) => r is Err && r->Err_0.message@ == "missing field `"@ + name + "`"@,
            },
    {
        let type_ = match self.type_ {
            Some(t) => t,
            None => default_villm_type(),
        };
        let token2id = match self.token2id {
            Some(v) => v,
            None => return missing("token2id"),
        };
        let unk_token = match self.unk_token {
            Some(v) => v,
            None => return missing("unk_token"),
        };
        let vi_syllables = match self.vi_syllables {
            Some(v) => v,
            None => return missing("vi_syllables"),
        };
        let base_forms = match self.base_forms {
            Some(v) => v,
            None => return missing("base_forms"),
        };
        let vi_compounds = match self.vi_compounds {
            Some(v) => v,
            None => return missing("vi_compounds"),
        };
        let compound_unigram_score = match self.compound_unigram_score {
            Some(v) => v,
            None => return missing("compound_unigram_score"),
        };
        let sp_pieces = match self.sp_pieces {
            Some(v) => v,
            None => return missing("sp_pieces"),
        };
        let cs_vi_en = match self.cs_vi_en {
            Some(v) => v,
            None => return missing("cs_vi_en"),
        };
        let cs_en_vi = match self.cs_en_vi {
            Some(v) => v,
            None => return missing("cs_en_vi"),
        };
        Ok(
            ViLLMConfig {
                type_,
                token2id,
                unk_token,
                vi_syllables,
                base_forms,
                vi_compounds,
                compound_unigram_score,
                sp_pieces,
                cs_vi_en,
                cs_en_vi,
            },
        )
    }
}

/// The token of each id: of the tokens with one id, the one listed last.
pub open spec fn tokens_by_id(
    list: Seq<(Seq<char>, u32)>,
    ids: Map<Seq<char>, u32>,
) -> Map<u32, Seq<char>>
    decreases list.len(),
{
    if list.len() == 0 {
        Map::empty()
    } else {
        let before = tokens_by_id(list.drop_last(), ids);
        if ids[list.last().0] == list.last().1 {
            before.insert(list.last().1, list.last().0)
        } else {
            before
        }
    }
}

/// The ids of the byte tokens that are tokens.
pub open spec fn byte_ids_of(ids: Map<Seq<char>, u32>) -> Map<u8, u32> {
    Map::new(|b: u8| ids.contains_key(byte_token(b)), |b: u8| ids[byte_token(b)])
}

/// The id of the unknown token: 1 where it is not a token.
pub open spec fn unk_id_of(ids: Map<Seq<char>, u32>, unk: Seq<char>) -> u32 {
    if ids.contains_key(unk) {
        ids[unk]
    } else {
        1
    }
}

/// The vocabulary that a configuration describes.
pub open spec fn lexicon_of<S>(c: ConfigView<S>) -> Lexicon<S> {
    let ids = map_of(c.token2id);
    let pieces = map_of(c.sp_pieces);
    Lexicon {
        token2id: ids,
        id2token: tokens_by_id(c.token2id, ids),
        unk_token: c.unk_token,
        unk_id: unk_id_of(ids, c.unk_token),
        vi_syllables: c.vi_syllables.to_set(),
        base_forms: c.base_forms.to_set(),
        vi_compounds: map_of(c.vi_compounds),
        unigram: c.unigram,
        pieces,
        sp_vocab: ids.restrict(pieces.dom()),
        byte_ids: byte_ids_of(ids),
        cs_vi_en: c.cs_vi_en,
        cs_en_vi: c.cs_en_vi,
    }
}

/// That a vocabulary is one that a configuration describes.
pub open spec fn made_of_config<S>(m: Lexicon<S>) -> bool {
    exists|c: ConfigView<S>| #[trigger] lexicon_of(c) == m
}

/// The keys of a list of pairs.
pub open spec fn keys<V>(v: Seq<(Seq<char>, V)>) -> Seq<Seq<char>> {
    v.map_values(|p: (Seq<char>, V)| p.0)
}

/// The score that a piece is saved with: the one that it has, or zero. The score of the empty piece
/// is read at the null character.
pub open spec fn saved_score<S: Score>(pieces: Map<Seq<char>, S>, piece: Seq<char>) -> S {
    let path = if piece.len() == 0 {
        seq!['\0']
    } else {
        piece
    };
    if pieces.contains_key(path) {
        pieces[path]
    } else {
        S::zero_spec()
    }
}

/// That `c` is what a model with the vocabulary `m` is saved as: every entry once, and of the
/// pieces those that are tokens, in order.
pub open spec fn saves<S: Score>(c: ConfigView<S>, m: Lexicon<S>) -> bool {
    &&& c.type_ == "ViLLM"@
    &&& distinct_keys(c.token2id) && map_of(c.token2id) == m.token2id
    &&& c.unk_token == m.unk_token
    &&& c.vi_syllables.no_duplicates() && c.vi_syllables.to_set() == m.vi_syllables
    &&& c.base_forms.no_duplicates() && c.base_forms.to_set() == m.base_forms
    &&& distinct_keys(c.vi_compounds) && map_of(c.vi_compounds) == m.vi_compounds
    &&& c.unigram == m.unigram
    &&& ascending(keys(c.sp_pieces)) && keys(c.sp_pieces).to_set() == m.sp_vocab.dom()
    &&& forall|i: int|
        0 <= i < c.sp_pieces.len() ==> (#[trigger] c.sp_pieces[i]).1 == saved_score(
            m.pieces,
            c.sp_pieces[i].0,
        )
    &&& c.cs_vi_en == m.cs_vi_en
    &&& c.cs_en_vi == m.cs_en_vi
}

/// The name of the file that a model is saved in.
pub fn save_file_name(name: Option<&str>) -> (r: String)
    ensures
        r@ == match name {
            Some(n) => n@ + "-tokenizer.json"@,
            None => "tokenizer.json"@,
        },
{
    match name {
        Some(n) => joined(n, "-tokenizer.json"),
        None => "tokenizer.json".to_owned(),
    }
}

} // verus!
