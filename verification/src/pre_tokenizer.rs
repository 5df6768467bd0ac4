//! The pre-tokenizer, which leaves a text whole.
use crate::token::TokenResult;
use vstd::prelude::*;

verus! {

/// A pre-tokenizer that splits nothing: the model cuts a text into words itself.
#[derive(Clone, Copy, Debug, PartialEq, Eq, Default)]
pub struct ViLLMPreTokenizer;

impl ViLLMPreTokenizer {
    /// Leaves `pretokenized` as it is.
    pub fn pre_tokenize<P>(&self, pretokenized: &mut P) -> (r: TokenResult<()>)
        ensures
            r is Ok,
            *final(pretokenized) == *old(pretokenized),
    {
        Ok(())
    }
}

} // verus!
