use vstd::prelude::*;

verus! {

/// A lexical atom of the language.
///
/// The nine instruction tokens each stand for one reserved character of the
/// source text.  A `Comment` carries the text found between a pair of
/// double-quote delimiters, the quotes themselves discarded.  A `NewLine`
/// stands for one or more consecutive physical line breaks, collapsed to a
/// single marker by the lexer.  Whitespace other than line breaks is never
/// represented in a token stream.
#[derive(Clone, Debug, PartialEq)]
pub enum Token {
    Right,
    Left,
    Inc,
    Dec,
    Out,
    In,
    JumpRight,
    JumpLeft,
    Debug,
    Comment(String),
    NewLine,
}

/// The mathematical model of a token: the same tag, with a comment carried as
/// its character sequence.
pub enum TokenModel {
    Right,
    Left,
    Inc,
    Dec,
    Out,
    In,
    JumpRight,
    JumpLeft,
    Debug,
    Comment(Seq<char>),
    NewLine,
}

impl View for Token {
    type V = TokenModel;

    open spec fn view(&self) -> TokenModel {
        match self {
            Token::Right => TokenModel::Right,
            Token::Left => TokenModel::Left,
            Token::Inc => TokenModel::Inc,
            Token::Dec => TokenModel::Dec,
            Token::Out => TokenModel::Out,
            Token::In => TokenModel::In,
            Token::JumpRight => TokenModel::JumpRight,
            Token::JumpLeft => TokenModel::JumpLeft,
            Token::Debug => TokenModel::Debug,
            Token::Comment(text) => TokenModel::Comment(text@),
            Token::NewLine => TokenModel::NewLine,
        }
    }
}

/// The models of a token sequence, element for element.
pub open spec fn models(toks: Seq<Token>) -> Seq<TokenModel> {
    toks.map_values(|t: Token| t@)
}

/// Decides equality of two tokens at the model level: same tag, and for
/// comments the same text.
pub fn token_eq(a: &Token, b: &Token) -> (r: bool)
    ensures
        r == (a@ == b@),
{
    match (a, b) {
        (Token::Right, Token::Right) => true,
        (Token::Left, Token::Left) => true,
        (Token::Inc, Token::Inc) => true,
        (Token::Dec, Token::Dec) => true,
        (Token::Out, Token::Out) => true,
        (Token::In, Token::In) => true,
        (Token::JumpRight, Token::JumpRight) => true,
        (Token::JumpLeft, Token::JumpLeft) => true,
        (Token::Debug, Token::Debug) => true,
        (Token::Comment(x), Token::Comment(y)) => x.eq(y),
        (Token::NewLine, Token::NewLine) => true,
        _ => false,
    }
}

} // verus!
