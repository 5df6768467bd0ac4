//! What a saved model keeps.
use crate::config::{
    fields_view, first_missing, keys, lexicon_of, made_of_config, saved_score, saves, ConfigFields,
    ConfigView,
};
use crate::laws::tokens::law_ids_and_tokens_agree;
use crate::lexicon::Lexicon;
use crate::model::{same_model, same_scores};
use crate::score::{FixedScore, Score};
use crate::sort::lemma_order_total;
use crate::str_map::{distinct_keys, lemma_map_of_distinct, lemma_map_of_key, map_of};
use vstd::prelude::*;

verus! {

/// That the scores of a vocabulary that count in a comparison are equal to themselves, as numbers
/// are.
pub open spec fn scores_are_numbers<S: Score>(m: Lexicon<S>) -> bool {
    m.unigram.same(m.unigram) && same_scores(m.vi_compounds, m.vi_compounds)
}

/// Scores in fixed point are equal to themselves.
pub proof fn law_fixed_scores_are_numbers(m: Lexicon<FixedScore>)
    ensures
        scores_are_numbers(m),
{
}

/// A model is equal to itself, and so to its copies.
pub proof fn law_model_equals_itself<S: Score>(m: Lexicon<S>)
    requires
        scores_are_numbers(m),
    ensures
        same_model(m, m),
{
}

/// The pieces that a model is saved with are those of its pieces that are tokens.
proof fn lemma_saved_pieces<S: Score>(saved: ConfigView<S>, m: Lexicon<S>)
    requires
        saves(saved, m),
    ensures
        map_of(saved.sp_pieces).dom() == m.sp_vocab.dom(),
{
    let list = saved.sp_pieces;
    assert forall|p: Seq<char>| map_of(list).contains_key(p) <==> m.sp_vocab.contains_key(p) by {
        lemma_map_of_key(list, p);
        if map_of(list).contains_key(p) {
            let i = choose|i: int| 0 <= i < list.len() && (#[trigger] list[i]).0 == p;
            assert(keys(list)[i] == p);
            assert(keys(list).to_set().contains(p));
            assert(m.sp_vocab.dom().contains(p));
        }
        if m.sp_vocab.contains_key(p) {
            assert(m.sp_vocab.dom().contains(p));
            assert(keys(list).to_set().contains(p));
            let i = choose|i: int| 0 <= i < keys(list).len() && keys(list)[i] == p;
            assert(list[i].0 == p);
        }
    }
    assert(map_of(list).dom() =~= m.sp_vocab.dom());
}

/// A configuration that names another kind of model.
pub open spec fn of_kind<S>(c: ConfigView<S>, kind: Seq<char>) -> ConfigView<S> {
    ConfigView { type_: kind, ..c }
}

/// A model that was saved and read back is equal to the model, whatever kind the configuration then
/// names.
pub proof fn law_saved_model_is_equal<S: Score>(
    m: Lexicon<S>,
    saved: ConfigView<S>,
    kind: Seq<char>,
)
    requires
        made_of_config(m),
        saves(saved, m),
        scores_are_numbers(m),
    ensures
        same_model(lexicon_of(of_kind(saved, kind)), m),
{
    lemma_saved_pieces(saved, m);
    assert(lexicon_of(of_kind(saved, kind)).sp_vocab =~= m.sp_vocab);
}

/// That fields hold what a configuration says, whatever they say of the kind of model.
pub open spec fn hold<S>(f: ConfigFields<S>, c: ConfigView<S>) -> bool {
    first_missing(f) is None && fields_view(f) == of_kind(c, fields_view(f).type_)
}

/// A model that was saved is read back equal from its fields, with any kind of model or none among
/// them.
pub proof fn law_saved_fields_make_model<S: Score>(
    m: Lexicon<S>,
    saved: ConfigView<S>,
    f: ConfigFields<S>,
)
    requires
        made_of_config(m),
        saves(saved, m),
        scores_are_numbers(m),
        hold(f, saved),
    ensures
        same_model(lexicon_of(fields_view(f)), m),
{
    law_saved_model_is_equal(m, saved, fields_view(f).type_);
}

/// No field can be missing but the kind of model, and that always can.
pub proof fn law_fields_are_needed<S>(f: ConfigFields<S>, kind: Option<String>)
    ensures
        first_missing(f) is None <==> f.token2id is Some && f.unk_token is Some
            && f.vi_syllables is Some && f.base_forms is Some && f.vi_compounds is Some
            && f.compound_unigram_score is Some && f.sp_pieces is Some && f.cs_vi_en is Some
            && f.cs_en_vi is Some,
        first_missing((ConfigFields { type_: kind, ..f })) == first_missing(f),
        lexicon_of(fields_view((ConfigFields { type_: kind, ..f }))) == lexicon_of(fields_view(f)),
{
}

/// That no two tokens have one id.
pub open spec fn distinct_ids(ids: Map<Seq<char>, u32>) -> bool {
    forall|a: Seq<char>, b: Seq<char>|
        #![trigger ids[a], ids[b]]
        ids.contains_key(a) && ids.contains_key(b) && ids[a] == ids[b] ==> a == b
}

/// A model that was saved and read back has the same vocabulary, and so makes the same tokens of
/// every text, where each id is that of one token, every piece is a token, and no piece is empty.
pub proof fn law_saved_model_is_whole<S: Score>(
    m: Lexicon<S>,
    saved: ConfigView<S>,
    kind: Seq<char>,
)
    requires
        made_of_config(m),
        saves(saved, m),
        distinct_ids(m.token2id),
        m.pieces.dom().subset_of(m.token2id.dom()),
        !m.pieces.contains_key(Seq::empty()),
    ensures
        lexicon_of(of_kind(saved, kind)) == m,
        forall|text: Seq<char>|
            lexicon_of(of_kind(saved, kind)).tokens(text) == #[trigger] m.tokens(text),
{
    let n = lexicon_of(of_kind(saved, kind));
    let list = saved.sp_pieces;
    lemma_saved_pieces(saved, m);
    assert(m.sp_vocab.dom() =~= m.pieces.dom());
    assert(n.sp_vocab =~= m.sp_vocab);
    assert(distinct_keys(list)) by {
        assert forall|i: int, j: int| 0 <= i < j < list.len() implies (#[trigger] list[i]).0 != (
        #[trigger] list[j]).0 by {
            assert(keys(list)[i] == list[i].0 && keys(list)[j] == list[j].0);
            lemma_order_total(list[i].0, list[j].0);
        }
    }
    assert forall|p: Seq<char>| #[trigger] n.pieces.contains_key(p) implies n.pieces[p]
        == m.pieces[p] by {
        lemma_map_of_key(list, p);
        let i = choose|i: int| 0 <= i < list.len() && (#[trigger] list[i]).0 == p;
        lemma_map_of_distinct(list, i);
        assert(m.pieces.dom().contains(p));
        if p.len() == 0 {
            assert(p == Seq::<char>::empty());
        }
        assert(list[i].1 == saved_score(m.pieces, p));
    }
    assert(n.pieces =~= m.pieces);
    law_ids_and_tokens_agree(m);
    law_ids_and_tokens_agree(n);
    assert forall|id: u32| n.id2token.contains_key(id) == m.id2token.contains_key(id) && (
    n.id2token.contains_key(id) ==> n.id2token[id] == m.id2token[id]) by {
        if n.id2token.contains_key(id) {
            let t = n.id2token[id];
            assert(m.token2id.contains_key(t) && m.token2id[t] == id);
            assert(m.id2token.contains_key(id));
        }
        if m.id2token.contains_key(id) {
            let t = m.id2token[id];
            assert(n.token2id.contains_key(t) && n.token2id[t] == id);
            assert(n.id2token.contains_key(id));
        }
    }
    assert(n.id2token =~= m.id2token);
}

} // verus!
