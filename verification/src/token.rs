//! Tokens, and the error of an operation that may fail.
use vstd::prelude::*;

verus! {

/// One token of a text: its id, its spelling, and the bytes of the text that it stands for.
#[derive(Debug, PartialEq, Eq)]
pub struct Token {
    pub id: u32,
    pub value: String,
    pub offsets: (usize, usize),
}

/// What a token says, with its spelling as a sequence of characters.
pub struct TokenView {
    pub id: u32,
    pub value: Seq<char>,
    pub offsets: (usize, usize),
}

impl View for Token {
    type V = TokenView;

    open spec fn view(&self) -> TokenView {
        TokenView { id: self.id, value: self.value@, offsets: self.offsets }
    }
}

impl Token {
    /// A token with the given id, spelling and place.
    pub fn new(id: u32, value: String, offsets: (usize, usize)) -> (r: Token)
        ensures
            r@ == (TokenView { id, value: value@, offsets }),
    {
        Token { id, value, offsets }
    }
}

impl Clone for Token {
    fn clone(&self) -> (r: Self)
        ensures
            r@ == self@,
    {
        Token { id: self.id, value: self.value.clone(), offsets: self.offsets }
    }
}

/// What the tokens of a sequence say.
pub open spec fn token_views(v: Seq<Token>) -> Seq<TokenView> {
    v.map_values(|t: Token| t@)
}

/// The error of an operation on texts or tokens.
#[derive(Debug)]
pub struct TokenizerError {
    pub message: String,
}

/// The outcome of an operation on texts or tokens.
pub type TokenResult<T> = Result<T, TokenizerError>;

} // verus!
