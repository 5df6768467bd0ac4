//! How tokens are put together before they are decoded.
use crate::decoder::{bytes_text, chain_of, chained, Markers};
use crate::text::token_byte;
use vstd::prelude::*;
use vstd::utf8::{decode_utf8, valid_utf8};

verus! {

/// The markers are the two tokens of a switch.
pub proof fn law_markers(m: Markers, token: Seq<char>)
    ensures
        m.has(token) <==> token == m.vi_en || token == m.en_vi,
{
}

/// That the tokens do not end in a byte token.
pub open spec fn settled(m: Markers, tokens: Seq<Seq<char>>) -> bool {
    tokens.len() == 0 || m.has(tokens.last()) || token_byte(tokens.last()) is None
}

/// That the tokens are byte tokens, at least one, and none is a marker.
pub open spec fn byte_run(m: Markers, run: Seq<Seq<char>>) -> bool {
    &&& run.len() > 0
    &&& forall|i: int|
        0 <= i < run.len() ==> !m.has(#[trigger] run[i]) && token_byte(run[i]) is Some
}

/// The bytes that byte tokens stand for.
pub open spec fn bytes_of(run: Seq<Seq<char>>) -> Seq<u8> {
    run.map_values(|t: Seq<char>| token_byte(t)->0)
}

/// After settled tokens no bytes wait.
proof fn lemma_settled(m: Markers, tokens: Seq<Seq<char>>)
    requires
        settled(m, tokens),
    ensures
        chain_of(m, tokens).pending == Seq::<u8>::empty(),
        chain_of(m, tokens).marked <==> tokens.len() > 0 && m.has(tokens.last()),
        tokens.len() > 0 ==> chain_of(m, tokens).parts.len() > 0,
        chained(m, tokens) == chain_of(m, tokens).parts,
{
}

/// Byte tokens after settled ones wait.
proof fn lemma_run_waits(m: Markers, head: Seq<Seq<char>>, run: Seq<Seq<char>>)
    requires
        settled(m, head),
        forall|i: int|
            0 <= i < run.len() ==> !m.has(#[trigger] run[i]) && token_byte(run[i]) is Some,
    ensures
        chain_of(m, head + run).parts == chain_of(m, head).parts,
        chain_of(m, head + run).marked == chain_of(m, head).marked,
        chain_of(m, head + run).pending == bytes_of(run),
    decreases run.len(),
{
    lemma_settled(m, head);
    if run.len() == 0 {
        assert(head + run == head);
    } else {
        let before = run.drop_last();
        assert forall|i: int| 0 <= i < before.len() implies !m.has(#[trigger] before[i])
            && token_byte(before[i]) is Some by {
            assert(before[i] == run[i]);
        }
        lemma_run_waits(m, head, before);
        assert((head + run).drop_last() == head + before);
        assert((head + run).last() == run[run.len() - 1]);
        assert(bytes_of(before).push(token_byte(run[run.len() - 1])->0) == bytes_of(run));
    }
}

/// Nothing makes no parts.
pub proof fn law_no_tokens_no_parts(m: Markers)
    ensures
        chained(m, Seq::empty()) == Seq::<Seq<char>>::empty(),
{
}

/// A token that stands for no byte, and a marker, comes out as a part of its own after settled
/// tokens.
pub proof fn law_token_makes_part(m: Markers, head: Seq<Seq<char>>, token: Seq<char>)
    requires
        settled(m, head),
        m.has(token) || token_byte(token) is None,
    ensures
        chained(m, head.push(token)) == chained(m, head).push(token),
{
    lemma_settled(m, head);
    lemma_settled(m, head.push(token));
    assert(head.push(token).drop_last() == head);
}

/// The text of bytes goes in front of the plain token that follows them.
pub proof fn law_bytes_go_in_front(
    m: Markers,
    head: Seq<Seq<char>>,
    run: Seq<Seq<char>>,
    token: Seq<char>,
)
    requires
        settled(m, head),
        byte_run(m, run),
        !m.has(token) && token_byte(token) is None,
    ensures
        chained(m, (head + run).push(token)) == chained(m, head).push(
            bytes_text(bytes_of(run)) + token,
        ),
{
    lemma_settled(m, head);
    lemma_run_waits(m, head, run);
    lemma_settled(m, (head + run).push(token));
    assert((head + run).push(token).drop_last() == head + run);
}

/// The text of bytes is a part of its own in front of a marker.
pub proof fn law_bytes_before_marker(
    m: Markers,
    head: Seq<Seq<char>>,
    run: Seq<Seq<char>>,
    marker: Seq<char>,
)
    requires
        settled(m, head),
        byte_run(m, run),
        m.has(marker),
    ensures
        chained(m, (head + run).push(marker)) == chained(m, head).push(
            bytes_text(bytes_of(run)),
        ).push(marker),
{
    lemma_settled(m, head);
    lemma_run_waits(m, head, run);
    lemma_settled(m, (head + run).push(marker));
    assert((head + run).push(marker).drop_last() == head + run);
}

/// The text of bytes at the end goes behind the last part, or is one of its own where there is none
/// or where that is a marker.
pub proof fn law_bytes_at_the_end(m: Markers, head: Seq<Seq<char>>, run: Seq<Seq<char>>)
    requires
        settled(m, head),
        byte_run(m, run),
    ensures
        head.len() == 0 || m.has(head.last()) ==> chained(m, head + run) == chained(m, head).push(
            bytes_text(bytes_of(run)),
        ),
        head.len() > 0 && !m.has(head.last()) ==> chained(m, head + run) == chained(
            m,
            head,
        ).drop_last().push(chained(m, head).last() + bytes_text(bytes_of(run))),
{
    lemma_settled(m, head);
    lemma_run_waits(m, head, run);
}

/// Valid bytes stand for the text that they encode.
pub proof fn law_valid_bytes_decode(bytes: Seq<u8>)
    requires
        valid_utf8(bytes),
    ensures
        bytes_text(bytes) == decode_utf8(bytes),
{
}

} // verus!
