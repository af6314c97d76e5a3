use vstd::prelude::*;
use crate::token::Token;

verus! {

/// A token of the head category.
#[derive(Clone, Debug, PartialEq)]
pub enum HeadTok {
    Inc,
    Dec,
    Debug,
}

/// A non-empty ordered run of head tokens.
#[derive(Clone, Debug, PartialEq)]
pub struct Head(pub Vec<HeadTok>);

/// A token of the body category.
#[derive(Clone, Debug, PartialEq)]
pub enum BodyTok {
    Out,
    In,
    JumpRight,
    JumpLeft,
}

/// A non-empty ordered run of body tokens.
#[derive(Clone, Debug, PartialEq)]
pub struct Body(pub Vec<BodyTok>);

/// A token of the tail category.
#[derive(Clone, Debug, PartialEq)]
pub enum TailTok {
    Right,
    Left,
}

/// A non-empty ordered run of tail tokens.
#[derive(Clone, Debug, PartialEq)]
pub struct Tail(pub Vec<TailTok>);

/// The atomic syntactic unit: up to three ordered optional segments, in the
/// fixed order head, body, tail, at least one of them present.
#[derive(Clone, Debug, PartialEq)]
pub struct Word {
    pub head: Option<Head>,
    pub body: Option<Body>,
    pub tail: Option<Tail>,
}

/// A run of words between newline-class boundaries.
#[derive(Clone, Debug, PartialEq)]
pub struct Sentence(pub Vec<Word>);

/// The text of one quoted comment.
#[derive(Clone, Debug, PartialEq)]
pub struct Comment(pub String);

impl View for Head {
    type V = Seq<HeadTok>;

    open spec fn view(&self) -> Seq<HeadTok> {
        self.0@
    }
}

impl View for Body {
    type V = Seq<BodyTok>;

    open spec fn view(&self) -> Seq<BodyTok> {
        self.0@
    }
}

impl View for Tail {
    type V = Seq<TailTok>;

    open spec fn view(&self) -> Seq<TailTok> {
        self.0@
    }
}

/// The mathematical model of a word: each optional segment as a sequence.
pub struct WordModel {
    pub head: Option<Seq<HeadTok>>,
    pub body: Option<Seq<BodyTok>>,
    pub tail: Option<Seq<TailTok>>,
}

impl WordModel {
    /// At least one segment is present, and a present segment is non-empty.
    pub open spec fn wf(self) -> bool {
        &&& self.head is Some || self.body is Some || self.tail is Some
        &&& (self.head matches Some(h) ==> h.len() > 0)
        &&& (self.body matches Some(b) ==> b.len() > 0)
        &&& (self.tail matches Some(t) ==> t.len() > 0)
    }
}

impl View for Word {
    type V = WordModel;

    open spec fn view(&self) -> WordModel {
        WordModel {
            head: match self.head {
                Some(h) => Some(h@),
                None => None,
            },
            body: match self.body {
                Some(b) => Some(b@),
                None => None,
            },
            tail: match self.tail {
                Some(t) => Some(t@),
                None => None,
            },
        }
    }
}

impl View for Sentence {
    type V = Seq<WordModel>;

    open spec fn view(&self) -> Seq<WordModel> {
        self.0@.map_values(|w: Word| w@)
    }
}

/// The head token standing for `t`, when `t` is of the head category.
pub open spec fn head_tok(t: Token) -> Option<HeadTok> {
    match t {
        Token::Inc => Some(HeadTok::Inc),
        Token::Dec => Some(HeadTok::Dec),
        Token::Debug => Some(HeadTok::Debug),
        _ => None,
    }
}

/// The body token standing for `t`, when `t` is of the body category.
pub open spec fn body_tok(t: Token) -> Option<BodyTok> {
    match t {
        Token::Out => Some(BodyTok::Out),
        Token::In => Some(BodyTok::In),
        Token::JumpRight => Some(BodyTok::JumpRight),
        Token::JumpLeft => Some(BodyTok::JumpLeft),
        _ => None,
    }
}

/// The tail token standing for `t`, when `t` is of the tail category.
pub open spec fn tail_tok(t: Token) -> Option<TailTok> {
    match t {
        Token::Right => Some(TailTok::Right),
        Token::Left => Some(TailTok::Left),
        _ => None,
    }
}

/// Whether `t` may appear in a head segment.
pub open spec fn is_head_tok(t: Token) -> bool {
    head_tok(t) is Some
}

/// Whether `t` may appear in a body segment.
pub open spec fn is_body_tok(t: Token) -> bool {
    body_tok(t) is Some
}

/// Whether `t` may appear in a tail segment.
pub open spec fn is_tail_tok(t: Token) -> bool {
    tail_tok(t) is Some
}

} // verus!
