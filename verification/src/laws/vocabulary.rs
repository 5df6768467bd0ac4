//! What a configuration says of a vocabulary, and what is saved of one.
use crate::config::{
    fields_view, first_missing, keys, lexicon_of, saved_score, saves, tokens_by_id, ConfigFields,
    ConfigView,
};
use crate::lexicon::Lexicon;
use crate::model::same_model;
use crate::score::Score;
use crate::sort::text_before;
use crate::str_map::{lemma_map_of_key, map_of};
use crate::text::byte_token;
use vstd::prelude::*;

verus! {

/// The lists and scores of a vocabulary are those of the configuration. The unknown token has its
/// id or else 1. The vocabulary of pieces holds the pieces that are tokens, and that of bytes the
/// bytes whose tokens are, with the ids of those tokens.
pub proof fn law_vocabulary<S>(c: ConfigView<S>, s: Seq<char>, b: u8)
    ensures
        ({
            let m = lexicon_of(c);
            &&& m.token2id == map_of(c.token2id)
            &&& m.unk_token == c.unk_token
            &&& m.unk_id == if m.token2id.contains_key(c.unk_token) {
                m.token2id[c.unk_token]
            } else {
                1
            }
            &&& m.vi_syllables.contains(s) <==> exists|i: int|
                0 <= i < c.vi_syllables.len() && #[trigger] c.vi_syllables[i] == s
            &&& m.base_forms.contains(s) <==> exists|i: int|
                0 <= i < c.base_forms.len() && #[trigger] c.base_forms[i] == s
            &&& m.vi_compounds == map_of(c.vi_compounds)
            &&& m.unigram == c.unigram
            &&& m.pieces == map_of(c.sp_pieces)
            &&& m.sp_vocab.contains_key(s) <==> m.token2id.contains_key(s) && exists|i: int|
                0 <= i < c.sp_pieces.len() && (#[trigger] c.sp_pieces[i]).0 == s
            &&& m.sp_vocab.contains_key(s) ==> m.sp_vocab[s] == m.token2id[s]
            &&& m.byte_ids.contains_key(b) <==> m.token2id.contains_key(byte_token(b))
            &&& m.byte_ids.contains_key(b) ==> m.byte_ids[b] == m.token2id[byte_token(b)]
            &&& m.cs_vi_en == c.cs_vi_en && m.cs_en_vi == c.cs_en_vi
        }),
{
    let m = lexicon_of(c);
    lemma_map_of_key(c.sp_pieces, s);
    lemma_in_set(c.vi_syllables, s);
    lemma_in_set(c.base_forms, s);
}

/// The set of a list holds what the list does.
proof fn lemma_in_set(v: Seq<Seq<char>>, s: Seq<char>)
    ensures
        v.to_set().contains(s) <==> exists|i: int| 0 <= i < v.len() && #[trigger] v[i] == s,
{
    if v.to_set().contains(s) {
        let i = choose|i: int| 0 <= i < v.len() && v[i] == s;
        assert(v[i] == s);
    }
    if exists|i: int| 0 <= i < v.len() && #[trigger] v[i] == s {
        let i = choose|i: int| 0 <= i < v.len() && #[trigger] v[i] == s;
        assert(v.contains(v[i]));
    }
}

/// Of the tokens that have one id, the one listed last is the token of the id.
pub proof fn law_last_token_of_id<S>(c: ConfigView<S>, i: int)
    requires
        0 <= i < c.token2id.len(),
        map_of(c.token2id)[c.token2id[i].0] == c.token2id[i].1,
        forall|j: int|
            i < j < c.token2id.len() ==> (#[trigger] c.token2id[j]).1 != c.token2id[i].1 || map_of(
                c.token2id,
            )[c.token2id[j].0] != c.token2id[j].1,
    ensures
        lexicon_of(c).id2token.contains_key(c.token2id[i].1),
        lexicon_of(c).id2token[c.token2id[i].1] == c.token2id[i].0,
{
    lemma_last_token(c.token2id, map_of(c.token2id), i);
}

/// The last token that counts for an id is the token of the id.
proof fn lemma_last_token(list: Seq<(Seq<char>, u32)>, ids: Map<Seq<char>, u32>, i: int)
    requires
        0 <= i < list.len(),
        ids[list[i].0] == list[i].1,
        forall|j: int|
            i < j < list.len() ==> (#[trigger] list[j]).1 != list[i].1 || ids[list[j].0]
                != list[j].1,
    ensures
        tokens_by_id(list, ids).contains_key(list[i].1),
        tokens_by_id(list, ids)[list[i].1] == list[i].0,
    decreases list.len(),
{
    if i < list.len() - 1 {
        let before = list.drop_last();
        assert(forall|j: int| 0 <= j < before.len() ==> #[trigger] before[j] == list[j]);
        lemma_last_token(before, ids, i);
        assert(list[list.len() - 1] == list.last());
    }
}

/// What is saved of a model: its kind, its lists and scores, and of its pieces those that are
/// tokens, in the order of their texts, each with its score.
pub proof fn law_what_is_saved<S: Score>(saved: ConfigView<S>, m: Lexicon<S>, i: int, j: int)
    requires
        saves(saved, m),
    ensures
        saved.type_ == "ViLLM"@,
        map_of(saved.token2id) == m.token2id,
        saved.unk_token == m.unk_token,
        saved.vi_syllables.to_set() == m.vi_syllables,
        saved.base_forms.to_set() == m.base_forms,
        map_of(saved.vi_compounds) == m.vi_compounds,
        saved.unigram == m.unigram,
        saved.cs_vi_en == m.cs_vi_en && saved.cs_en_vi == m.cs_en_vi,
        0 <= i < j < saved.token2id.len() ==> saved.token2id[i].0 != saved.token2id[j].0,
        0 <= i < j < saved.vi_compounds.len() ==> saved.vi_compounds[i].0
            != saved.vi_compounds[j].0,
        0 <= i < j < saved.vi_syllables.len() ==> saved.vi_syllables[i] != saved.vi_syllables[j],
        0 <= i < j < saved.base_forms.len() ==> saved.base_forms[i] != saved.base_forms[j],
        0 <= i < j < saved.sp_pieces.len() ==> text_before(
            saved.sp_pieces[i].0,
            saved.sp_pieces[j].0,
        ),
        0 <= i < saved.sp_pieces.len() ==> m.sp_vocab.contains_key(saved.sp_pieces[i].0),
        0 <= i < saved.sp_pieces.len() && saved.sp_pieces[i].0.len() > 0 && m.pieces.contains_key(
            saved.sp_pieces[i].0,
        ) ==> saved.sp_pieces[i].1 == m.pieces[saved.sp_pieces[i].0],
        0 <= i < saved.sp_pieces.len() && saved.sp_pieces[i].0.len() == 0 ==> saved.sp_pieces[i].1
            == if m.pieces.contains_key(seq!['\0']) {
            m.pieces[seq!['\0']]
        } else {
            S::zero_spec()
        },
{
    let list = saved.sp_pieces;
    if 0 <= i < list.len() {
        assert(keys(list)[i] == list[i].0);
        assert(keys(list).to_set().contains(list[i].0)) by {
            assert(keys(list).contains(keys(list)[i]));
        }
        assert(m.sp_vocab.dom().contains(list[i].0));
        assert(list[i].1 == saved_score(m.pieces, list[i].0));
        if i < j < list.len() {
            assert(keys(list)[j] == list[j].0);
        }
    }
}

/// Every piece that is a token is saved.
pub proof fn law_pieces_are_saved<S: Score>(saved: ConfigView<S>, m: Lexicon<S>, p: Seq<char>)
    requires
        saves(saved, m),
        m.sp_vocab.contains_key(p),
    ensures
        exists|i: int| 0 <= i < saved.sp_pieces.len() && (#[trigger] saved.sp_pieces[i]).0 == p,
{
    let list = saved.sp_pieces;
    assert(m.sp_vocab.dom().contains(p));
    assert(keys(list).to_set().contains(p));
    let i = choose|i: int| 0 <= i < keys(list).len() && keys(list)[i] == p;
    assert(list[i].0 == p);
}

/// The first missing field by its place: each is named where it is missing and all before it are
/// there.
pub proof fn law_missing_field<S>(f: ConfigFields<S>)
    ensures
        f.token2id is None ==> first_missing(f) == Some("token2id"@),
        f.token2id is Some && f.unk_token is None ==> first_missing(f) == Some("unk_token"@),
        f.token2id is Some && f.unk_token is Some && f.vi_syllables is None ==> first_missing(f)
            == Some("vi_syllables"@),
        f.token2id is Some && f.unk_token is Some && f.vi_syllables is Some && f.base_forms is None
            ==> first_missing(f) == Some("base_forms"@),
        f.token2id is Some && f.unk_token is Some && f.vi_syllables is Some && f.base_forms is Some
            && f.vi_compounds is None ==> first_missing(f) == Some("vi_compounds"@),
        f.token2id is Some && f.unk_token is Some && f.vi_syllables is Some && f.base_forms is Some
            && f.vi_compounds is Some && f.compound_unigram_score is None ==> first_missing(f)
            == Some("compound_unigram_score"@),
        f.token2id is Some && f.unk_token is Some && f.vi_syllables is Some && f.base_forms is Some
            && f.vi_compounds is Some && f.compound_unigram_score is Some && f.sp_pieces is None
            ==> first_missing(f) == Some("sp_pieces"@),
        f.token2id is Some && f.unk_token is Some && f.vi_syllables is Some && f.base_forms is Some
            && f.vi_compounds is Some && f.compound_unigram_score is Some && f.sp_pieces is Some
            && f.cs_vi_en is None ==> first_missing(f) == Some("cs_vi_en"@),
        f.token2id is Some && f.unk_token is Some && f.vi_syllables is Some && f.base_forms is Some
            && f.vi_compounds is Some && f.compound_unigram_score is Some && f.sp_pieces is Some
            && f.cs_vi_en is Some && f.cs_en_vi is None ==> first_missing(f) == Some("cs_en_vi"@),
{
}

/// Fields that are there say what they hold; a kind that is not there is `ViLLM`.
pub proof fn law_fields_say<S>(f: ConfigFields<S>, i: int)
    requires
        first_missing(f) is None,
    ensures
        ({
            let c = fields_view(f);
            &&& f.type_ is Some ==> c.type_ == f.type_->0@
            &&& f.type_ is None ==> c.type_ == "ViLLM"@
            &&& c.token2id.len() == f.token2id->0@.len()
            &&& 0 <= i < c.token2id.len() ==> c.token2id[i] == (
                f.token2id->0@[i].0@,
                f.token2id->0@[i].1,
            )
            &&& c.unk_token == f.unk_token->0@
            &&& c.vi_syllables.len() == f.vi_syllables->0@.len()
            &&& 0 <= i < c.vi_syllables.len() ==> c.vi_syllables[i] == f.vi_syllables->0@[i]@
            &&& c.base_forms.len() == f.base_forms->0@.len()
            &&& 0 <= i < c.base_forms.len() ==> c.base_forms[i] == f.base_forms->0@[i]@
            &&& c.vi_compounds.len() == f.vi_compounds->0@.len()
            &&& 0 <= i < c.vi_compounds.len() ==> c.vi_compounds[i] == (
                f.vi_compounds->0@[i].0@,
                f.vi_compounds->0@[i].1,
            )
            &&& c.unigram == f.compound_unigram_score->0
            &&& c.sp_pieces.len() == f.sp_pieces->0@.len()
            &&& 0 <= i < c.sp_pieces.len() ==> c.sp_pieces[i] == (
                f.sp_pieces->0@[i].0@,
                f.sp_pieces->0@[i].1,
            )
            &&& c.cs_vi_en == f.cs_vi_en->0@
            &&& c.cs_en_vi == f.cs_en_vi->0@
        }),
{
}

/// Equal models have the same tokens, ids, lists and markers, and scores that count as equal; and
/// models of which all that holds are equal.
pub proof fn law_equal_models<S: Score>(a: Lexicon<S>, b: Lexicon<S>)
    ensures
        same_model(a, b) <==> {
            &&& a.token2id == b.token2id
            &&& a.unk_token == b.unk_token && a.unk_id == b.unk_id
            &&& a.vi_compounds.dom() == b.vi_compounds.dom()
            &&& forall|k: Seq<char>|
                a.vi_compounds.dom().contains(k) ==> (#[trigger] a.vi_compounds[k]).same(
                    b.vi_compounds[k],
                )
            &&& a.unigram.same(b.unigram)
            &&& a.cs_vi_en == b.cs_vi_en && a.cs_en_vi == b.cs_en_vi
            &&& a.vi_syllables == b.vi_syllables && a.base_forms == b.base_forms
            &&& a.sp_vocab == b.sp_vocab && a.byte_ids == b.byte_ids
        },
{
    if same_model(a, b) {
        assert forall|k: Seq<char>| a.vi_compounds.dom().contains(k) implies (
        #[trigger] a.vi_compounds[k]).same(b.vi_compounds[k]) by {
            assert(a.vi_compounds.contains_key(k));
        }
    }
}

} // verus!
