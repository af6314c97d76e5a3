use vstd::prelude::*;
use crate::ast::{
    body_tok, head_tok, is_body_tok, is_head_tok, is_tail_tok, tail_tok, Body, BodyTok, Head,
    HeadTok, Tail, TailTok, Word, WordModel,
};
use crate::token::{token_eq, Token};
use crate::token_stream::TokenStream;

verus! {

// ------------------------------------------------------------------
// Failure model
// ------------------------------------------------------------------
/// Which class of rule rejected the input: a category parser that found no
/// token of its category (`Tag`), or a composite rule whose requirement of at
/// least one match was not met (`Verify`).
#[derive(Clone, Copy, Debug, PartialEq)]
pub enum ParseErrorKind {
    Tag,
    Verify,
}

/// A parse failure: the remaining token stream at the failure point, and
/// which class of rule failed there.
#[derive(Clone, Copy, Debug, PartialEq)]
pub struct ParseError<'a> {
    pub input: TokenStream<'a>,
    pub kind: ParseErrorKind,
}

// ------------------------------------------------------------------
// The grammar, as functions on token sequences
// ------------------------------------------------------------------
/// The length of the maximal prefix of head tokens.
pub open spec fn head_len(s: Seq<Token>) -> int
    decreases s.len(),
{
    if s.len() > 0 && is_head_tok(s[0]) {
        1 + head_len(s.drop_first())
    } else {
        0
    }
}

/// The length of the maximal prefix of body tokens.
pub open spec fn body_len(s: Seq<Token>) -> int
    decreases s.len(),
{
    if s.len() > 0 && is_body_tok(s[0]) {
        1 + body_len(s.drop_first())
    } else {
        0
    }
}

/// The length of the maximal prefix of tail tokens.
pub open spec fn tail_len(s: Seq<Token>) -> int
    decreases s.len(),
{
    if s.len() > 0 && is_tail_tok(s[0]) {
        1 + tail_len(s.drop_first())
    } else {
        0
    }
}

/// The maximal head prefix, as head tokens in original order.
pub open spec fn head_run(s: Seq<Token>) -> Seq<HeadTok> {
    s.take(head_len(s)).map_values(|t: Token| head_tok(t)->0)
}

/// The maximal body prefix, as body tokens in original order.
pub open spec fn body_run(s: Seq<Token>) -> Seq<BodyTok> {
    s.take(body_len(s)).map_values(|t: Token| body_tok(t)->0)
}

/// The maximal tail prefix, as tail tokens in original order.
pub open spec fn tail_run(s: Seq<Token>) -> Seq<TailTok> {
    s.take(tail_len(s)).map_values(|t: Token| tail_tok(t)->0)
}

/// How many tokens the word starting at `s` takes: a maximal head run, then
/// a maximal body run, then a maximal tail run, each possibly empty.
pub open spec fn word_len(s: Seq<Token>) -> int {
    let n1 = head_len(s);
    let n2 = body_len(s.skip(n1));
    let n3 = tail_len(s.skip(n1).skip(n2));
    n1 + n2 + n3
}

/// The word starting at `s`: each category's maximal run, a segment present
/// exactly when its run is non-empty.
pub open spec fn word_model(s: Seq<Token>) -> WordModel {
    let n1 = head_len(s);
    let n2 = body_len(s.skip(n1));
    let n3 = tail_len(s.skip(n1).skip(n2));
    WordModel {
        head: if n1 > 0 {
            Some(head_run(s))
        } else {
            None
        },
        body: if n2 > 0 {
            Some(body_run(s.skip(n1)))
        } else {
            None
        },
        tail: if n3 > 0 {
            Some(tail_run(s.skip(n1).skip(n2)))
        } else {
            None
        },
    }
}

// ------------------------------------------------------------------
// Facts about the category runs
// ------------------------------------------------------------------
/// The maximal head prefix is within bounds, all of the head category, and
/// maximal.
pub proof fn lemma_head_len(s: Seq<Token>)
    ensures
        0 <= head_len(s) <= s.len(),
        forall|i: int| 0 <= i < head_len(s) ==> is_head_tok(#[trigger] s[i]),
        head_len(s) < s.len() ==> !is_head_tok(s[head_len(s)]),
    decreases s.len(),
{
    if s.len() > 0 && is_head_tok(s[0]) {
        lemma_head_len(s.drop_first());
        assert forall|i: int| 0 <= i < head_len(s) implies is_head_tok(#[trigger] s[i]) by {
            if i > 0 {
                assert(s.drop_first()[i - 1] == s[i]);
            }
        }
        if head_len(s) < s.len() {
            assert(s.drop_first()[head_len(s) - 1] == s[head_len(s)]);
        }
    }
}

/// A prefix bound `n` with the three properties of a maximal head run is the
/// maximal head run's length.
pub proof fn lemma_head_len_is(s: Seq<Token>, n: int)
    requires
        0 <= n <= s.len(),
        forall|i: int| 0 <= i < n ==> is_head_tok(#[trigger] s[i]),
        n < s.len() ==> !is_head_tok(s[n]),
    ensures
        head_len(s) == n,
{
    lemma_head_len(s);
}

/// The maximal body prefix is within bounds, all of the body category, and
/// maximal.
pub proof fn lemma_body_len(s: Seq<Token>)
    ensures
        0 <= body_len(s) <= s.len(),
        forall|i: int| 0 <= i < body_len(s) ==> is_body_tok(#[trigger] s[i]),
        body_len(s) < s.len() ==> !is_body_tok(s[body_len(s)]),
    decreases s.len(),
{
    if s.len() > 0 && is_body_tok(s[0]) {
        lemma_body_len(s.drop_first());
        assert forall|i: int| 0 <= i < body_len(s) implies is_body_tok(#[trigger] s[i]) by {
            if i > 0 {
                assert(s.drop_first()[i - 1] == s[i]);
            }
        }
        if body_len(s) < s.len() {
            assert(s.drop_first()[body_len(s) - 1] == s[body_len(s)]);
        }
    }
}

/// A prefix bound `n` with the three properties of a maximal body run is the
/// maximal body run's length.
pub proof fn lemma_body_len_is(s: Seq<Token>, n: int)
    requires
        0 <= n <= s.len(),
        forall|i: int| 0 <= i < n ==> is_body_tok(#[trigger] s[i]),
        n < s.len() ==> !is_body_tok(s[n]),
    ensures
        body_len(s) == n,
{
    lemma_body_len(s);
}

/// The maximal tail prefix is within bounds, all of the tail category, and
/// maximal.
pub proof fn lemma_tail_len(s: Seq<Token>)
    ensures
        0 <= tail_len(s) <= s.len(),
        forall|i: int| 0 <= i < tail_len(s) ==> is_tail_tok(#[trigger] s[i]),
        tail_len(s) < s.len() ==> !is_tail_tok(s[tail_len(s)]),
    decreases s.len(),
{
    if s.len() > 0 && is_tail_tok(s[0]) {
        lemma_tail_len(s.drop_first());
        assert forall|i: int| 0 <= i < tail_len(s) implies is_tail_tok(#[trigger] s[i]) by {
            if i > 0 {
                assert(s.drop_first()[i - 1] == s[i]);
            }
        }
        if tail_len(s) < s.len() {
            assert(s.drop_first()[tail_len(s) - 1] == s[tail_len(s)]);
        }
    }
}

/// A prefix bound `n` with the three properties of a maximal tail run is the
/// maximal tail run's length.
pub proof fn lemma_tail_len_is(s: Seq<Token>, n: int)
    requires
        0 <= n <= s.len(),
        forall|i: int| 0 <= i < n ==> is_tail_tok(#[trigger] s[i]),
        n < s.len() ==> !is_tail_tok(s[n]),
    ensures
        tail_len(s) == n,
{
    lemma_tail_len(s);
}

/// A word takes at most the whole stream.
pub proof fn lemma_word_len(s: Seq<Token>)
    ensures
        0 <= word_len(s) <= s.len(),
{
    lemma_head_len(s);
    lemma_body_len(s.skip(head_len(s)));
    lemma_tail_len(s.skip(head_len(s)).skip(body_len(s.skip(head_len(s)))));
}

// ------------------------------------------------------------------
// Category conversions, executable
// ------------------------------------------------------------------
/// The head token standing for `t`, when there is one.
fn head_tok_of(t: &Token) -> (r: Option<HeadTok>)
    ensures
        r == head_tok(*t),
{
    match t {
        Token::Inc => Some(HeadTok::Inc),
        Token::Dec => Some(HeadTok::Dec),
        Token::Debug => Some(HeadTok::Debug),
        _ => None,
    }
}

/// The body token standing for `t`, when there is one.
fn body_tok_of(t: &Token) -> (r: Option<BodyTok>)
    ensures
        r == body_tok(*t),
{
    match t {
        Token::Out => Some(BodyTok::Out),
        Token::In => Some(BodyTok::In),
        Token::JumpRight => Some(BodyTok::JumpRight),
        Token::JumpLeft => Some(BodyTok::JumpLeft),
        _ => None,
    }
}

/// The tail token standing for `t`, when there is one.
fn tail_tok_of(t: &Token) -> (r: Option<TailTok>)
    ensures
        r == tail_tok(*t),
{
    match t {
        Token::Right => Some(TailTok::Right),
        Token::Left => Some(TailTok::Left),
        _ => None,
    }
}

// ------------------------------------------------------------------
// Category parsers
// ------------------------------------------------------------------
/// Consumes the maximal prefix of head tokens; fails with a `Tag` error, and
/// consumes nothing, when the stream does not begin with one.
pub fn parse_head<'a>(code: TokenStream<'a>) -> (r: Result<
    (TokenStream<'a>, Head),
    ParseError<'a>,
>)
    ensures
        ({
            let n = head_len(code@);
            match r {
                Ok((rest, head)) => n > 0 && rest@ == code@.skip(n) && head@ == head_run(code@),
                Err(e) => n == 0 && e.input@ == code@ && e.kind == ParseErrorKind::Tag,
            }
        }),
{
    let n = code.input_len();
    let mut toks: Vec<HeadTok> = Vec::new();
    let mut i: usize = 0;
    while i < n && head_tok_of(code.get(i)).is_some()
        invariant
            n == code@.len(),
            i <= n,
            toks@.len() == i,
            forall|j: int| 0 <= j < i ==> is_head_tok(#[trigger] code@[j]),
            forall|j: int| 0 <= j < i ==> Some(toks@[j]) == head_tok(code@[j]),
        decreases n - i,
    {
        match head_tok_of(code.get(i)) {
            Some(h) => {
                toks.push(h);
            },
            None => {
                proof {
                    assert(false);
                }
            },
        }
        i = i + 1;
    }
    proof {
        lemma_head_len_is(code@, i as int);
    }
    if i == 0 {
        Err(ParseError { input: code, kind: ParseErrorKind::Tag })
    } else {
        let (rest, _taken) = code.take_split(i);
        proof {
            assert(toks@ =~= head_run(code@));
        }
        Ok((rest, Head(toks)))
    }
}

/// Consumes the maximal prefix of body tokens; fails with a `Tag` error, and
/// consumes nothing, when the stream does not begin with one.
pub fn parse_body<'a>(code: TokenStream<'a>) -> (r: Result<
    (TokenStream<'a>, Body),
    ParseError<'a>,
>)
    ensures
        ({
            let n = body_len(code@);
            match r {
                Ok((rest, body)) => n > 0 && rest@ == code@.skip(n) && body@ == body_run(code@),
                Err(e) => n == 0 && e.input@ == code@ && e.kind == ParseErrorKind::Tag,
            }
        }),
{
    let n = code.input_len();
    let mut toks: Vec<BodyTok> = Vec::new();
    let mut i: usize = 0;
    while i < n && body_tok_of(code.get(i)).is_some()
        invariant
            n == code@.len(),
            i <= n,
            toks@.len() == i,
            forall|j: int| 0 <= j < i ==> is_body_tok(#[trigger] code@[j]),
            forall|j: int| 0 <= j < i ==> Some(toks@[j]) == body_tok(code@[j]),
        decreases n - i,
    {
        match body_tok_of(code.get(i)) {
            Some(b) => {
                toks.push(b);
            },
            None => {
                proof {
                    assert(false);
                }
            },
        }
        i = i + 1;
    }
    proof {
        lemma_body_len_is(code@, i as int);
    }
    if i == 0 {
        Err(ParseError { input: code, kind: ParseErrorKind::Tag })
    } else {
        let (rest, _taken) = code.take_split(i);
        proof {
            assert(toks@ =~= body_run(code@));
        }
        Ok((rest, Body(toks)))
    }
}

/// Consumes the maximal prefix of tail tokens; fails with a `Tag` error, and
/// consumes nothing, when the stream does not begin with one.
pub fn parse_tail<'a>(code: TokenStream<'a>) -> (r: Result<
    (TokenStream<'a>, Tail),
    ParseError<'a>,
>)
    ensures
        ({
            let n = tail_len(code@);
            match r {
                Ok((rest, tail)) => n > 0 && rest@ == code@.skip(n) && tail@ == tail_run(code@),
                Err(e) => n == 0 && e.input@ == code@ && e.kind == ParseErrorKind::Tag,
            }
        }),
{
    let n = code.input_len();
    let mut toks: Vec<TailTok> = Vec::new();
    let mut i: usize = 0;
    while i < n && tail_tok_of(code.get(i)).is_some()
        invariant
            n == code@.len(),
            i <= n,
            toks@.len() == i,
            forall|j: int| 0 <= j < i ==> is_tail_tok(#[trigger] code@[j]),
            forall|j: int| 0 <= j < i ==> Some(toks@[j]) == tail_tok(code@[j]),
        decreases n - i,
    {
        match tail_tok_of(code.get(i)) {
            Some(t) => {
                toks.push(t);
            },
            None => {
                proof {
                    assert(false);
                }
            },
        }
        i = i + 1;
    }
    proof {
        lemma_tail_len_is(code@, i as int);
    }
    if i == 0 {
        Err(ParseError { input: code, kind: ParseErrorKind::Tag })
    } else {
        let (rest, _taken) = code.take_split(i);
        proof {
            assert(toks@ =~= tail_run(code@));
        }
        Ok((rest, Tail(toks)))
    }
}

// ------------------------------------------------------------------
// Words
// ------------------------------------------------------------------
/// The models of a sequence of words, element for element.
pub open spec fn words_models(ws: Seq<Word>) -> Seq<WordModel> {
    ws.map_values(|w: Word| w@)
}

/// The words read from `s` by repeating the word rule until it fails.
pub open spec fn words_model(s: Seq<Token>) -> Seq<WordModel>
    decreases s.len(),
{
    if word_len(s) <= 0 {
        Seq::empty()
    } else {
        proof {
            lemma_word_len(s);
        }
        seq![word_model(s)] + words_model(s.skip(word_len(s)))
    }
}

/// What remains of `s` after repeating the word rule until it fails.
pub open spec fn words_rest(s: Seq<Token>) -> Seq<Token>
    decreases s.len(),
{
    if word_len(s) <= 0 {
        s
    } else {
        proof {
            lemma_word_len(s);
        }
        words_rest(s.skip(word_len(s)))
    }
}

/// The word rule consumes tokens as long as words come, and stops where no
/// further word can start.
pub proof fn lemma_words_rest(s: Seq<Token>)
    ensures
        0 <= words_rest(s).len() <= s.len(),
        words_model(s).len() > 0 ==> words_rest(s).len() < s.len(),
        word_len(words_rest(s)) == 0,
    decreases s.len(),
{
    lemma_word_len(s);
    if word_len(s) > 0 {
        lemma_words_rest(s.skip(word_len(s)));
    }
}

/// Tries the three category rules in the fixed order head, body, tail, each
/// optional; succeeds when at least one matched, and fails with a `Verify`
/// error, consuming nothing, on an empty or structurally incompatible stream.
pub fn parse_word<'a>(code: TokenStream<'a>) -> (r: Result<
    (TokenStream<'a>, Word),
    ParseError<'a>,
>)
    ensures
        ({
            let n = word_len(code@);
            match r {
                Ok((rest, word)) => n > 0 && rest@ == code@.skip(n) && word@ == word_model(code@)
                    && word@.wf(),
                Err(e) => n == 0 && e.input@ == code@ && e.kind == ParseErrorKind::Verify,
            }
        }),
{
    proof {
        assert(code@.skip(0) =~= code@);
        lemma_head_len(code@);
        lemma_body_len(code@.skip(head_len(code@)));
    }
    let (s1, head) = match parse_head(code) {
        Ok((rest, h)) => (rest, Some(h)),
        Err(_) => (code, None),
    };
    let (s2, body) = match parse_body(s1) {
        Ok((rest, b)) => (rest, Some(b)),
        Err(_) => (s1, None),
    };
    let (s3, tail) = match parse_tail(s2) {
        Ok((rest, t)) => (rest, Some(t)),
        Err(_) => (s2, None),
    };
    proof {
        let n1 = head_len(code@);
        let n2 = body_len(code@.skip(n1));
        let n3 = tail_len(code@.skip(n1).skip(n2));
        lemma_tail_len(code@.skip(n1).skip(n2));
        assert(s1@ == code@.skip(n1));
        assert(s2@ == code@.skip(n1).skip(n2));
        assert(s3@ == s2@.skip(n3));
        assert(code@.skip(n1).skip(n2).skip(n3) =~= code@.skip(n1 + n2 + n3));
    }
    if head.is_none() && body.is_none() && tail.is_none() {
        Err(ParseError { input: code, kind: ParseErrorKind::Verify })
    } else {
        proof {
            lemma_word_model_wf(code@);
        }
        Ok((s3, Word { head, body, tail }))
    }
}

/// Zero or more words: repeats the word rule until it fails and never fails
/// itself.
pub fn parse_words0<'a>(code: TokenStream<'a>) -> (r: Result<
    (TokenStream<'a>, Vec<Word>),
    ParseError<'a>,
>)
    ensures
        r matches Ok((rest, words)) && rest@ == words_rest(code@) && words_models(words@)
            == words_model(code@),
{
    let mut cur = code;
    let mut words: Vec<Word> = Vec::new();
    proof {
        assert(words_models(words@) + words_model(cur@) =~= words_model(code@));
    }
    loop
        invariant
            words_model(code@) == words_models(words@) + words_model(cur@),
            words_rest(code@) == words_rest(cur@),
        ensures
            word_len(cur@) == 0,
            words_model(code@) == words_models(words@) + words_model(cur@),
            words_rest(code@) == words_rest(cur@),
        decreases cur@.len(),
    {
        match parse_word(cur) {
            Ok((rest, w)) => {
                let ghost prev_words = words@;
                let ghost prev_cur = cur@;
                words.push(w);
                cur = rest;
                proof {
                    lemma_word_len(prev_cur);
                    assert(words_models(words@) =~= words_models(prev_words) + seq![w@]);
                    assert(words_model(prev_cur) == seq![word_model(prev_cur)] + words_model(
                        cur@,
                    ));
                    assert(words_models(prev_words) + words_model(prev_cur) =~= words_models(
                        words@,
                    ) + words_model(cur@));
                }
            },
            Err(_) => {
                break ;
            },
        }
    }
    proof {
        assert(words_model(cur@) =~= Seq::<WordModel>::empty());
        assert(words_models(words@) + words_model(cur@) =~= words_models(words@));
    }
    Ok((cur, words))
}

/// One or more words: as `parse_words0`, but fails with a `Verify` error,
/// consuming nothing, when not even one word can be read.
pub fn parse_words1<'a>(code: TokenStream<'a>) -> (r: Result<
    (TokenStream<'a>, Vec<Word>),
    ParseError<'a>,
>)
    ensures
        ({
            match r {
                Ok((rest, words)) => words_model(code@).len() > 0 && rest@ == words_rest(code@)
                    && words_models(words@) == words_model(code@),
                Err(e) => words_model(code@).len() == 0 && e.input@ == code@ && e.kind
                    == ParseErrorKind::Verify,
            }
        }),
{
    match parse_words0(code) {
        Ok((rest, words)) => {
            if words.is_empty() {
                Err(ParseError { input: code, kind: ParseErrorKind::Verify })
            } else {
                Ok((rest, words))
            }
        },
        Err(e) => {
            proof {
                assert(false);
            }
            Err(e)
        },
    }
}

// ------------------------------------------------------------------
// Sentences
// ------------------------------------------------------------------
/// How many leading `NewLine` tokens the padding rule absorbs: at most one.
pub open spec fn nl_skip(s: Seq<Token>) -> int {
    if s.len() > 0 && s[0] == Token::NewLine {
        1
    } else {
        0
    }
}

/// The models of a sequence of sentences, element for element.
pub open spec fn sentences_models(ss: Seq<Vec<Word>>) -> Seq<Seq<WordModel>> {
    ss.map_values(|v: Vec<Word>| words_models(v@))
}

/// The sentences read from `s`: repeatedly, one optional `NewLine`, one or
/// more words, one optional `NewLine`, until no sentence body can be read.
pub open spec fn sentences_model(s: Seq<Token>) -> Seq<Seq<WordModel>>
    decreases s.len(),
{
    let t = s.skip(nl_skip(s));
    if words_model(t).len() == 0 {
        Seq::empty()
    } else {
        proof {
            lemma_words_rest(t);
        }
        let r1 = words_rest(t);
        seq![words_model(t)] + sentences_model(r1.skip(nl_skip(r1)))
    }
}

/// What remains of `s` after reading sentences until the rule fails: the
/// stream as it stood before the failed attempt.
pub open spec fn sentences_rest(s: Seq<Token>) -> Seq<Token>
    decreases s.len(),
{
    let t = s.skip(nl_skip(s));
    if words_model(t).len() == 0 {
        s
    } else {
        proof {
            lemma_words_rest(t);
        }
        let r1 = words_rest(t);
        sentences_rest(r1.skip(nl_skip(r1)))
    }
}

/// Consumes one leading `NewLine` token, when one is there.
fn skip_one_newline<'a>(code: TokenStream<'a>) -> (r: TokenStream<'a>)
    ensures
        r@ == code@.skip(nl_skip(code@)),
{
    if code.input_len() > 0 {
        if matches!(code.get(0), Token::NewLine) {
            return code.take_split(1).0;
        }
    }
    proof {
        assert(code@.skip(0) =~= code@);
    }
    code
}

/// Matches exactly the single token `expected` at the head of the stream,
/// returning it as a one-token sub-stream; fails with a `Tag` error,
/// consuming nothing, on any other head.
pub fn tag<'a>(expected: &Token, code: TokenStream<'a>) -> (r: Result<
    (TokenStream<'a>, TokenStream<'a>),
    ParseError<'a>,
>)
    ensures
        ({
            let hit = code@.len() > 0 && code@[0]@ == expected@;
            match r {
                Ok((rest, matched)) => hit && rest@ == code@.skip(1) && matched@ == code@.take(1),
                Err(e) => !hit && e.input@ == code@ && e.kind == ParseErrorKind::Tag,
            }
        }),
{
    if code.input_len() > 0 && token_eq(code.get(0), expected) {
        let (rest, matched) = code.take_split(1);
        Ok((rest, matched))
    } else {
        Err(ParseError { input: code, kind: ParseErrorKind::Tag })
    }
}

/// The newline padding rule around a single-token `tag` match: at most one
/// leading and at most one trailing `NewLine` are absorbed; the inner
/// failure is propagated unchanged, from the position after the leading
/// skip.
pub fn pad_newline_tag<'a>(expected: &Token, code: TokenStream<'a>) -> (r: Result<
    (TokenStream<'a>, TokenStream<'a>),
    ParseError<'a>,
>)
    ensures
        ({
            let t = code@.skip(nl_skip(code@));
            let hit = t.len() > 0 && t[0]@ == expected@;
            match r {
                Ok((rest, matched)) => hit && matched@ == t.take(1) && rest@ == t.skip(1).skip(
                    nl_skip(t.skip(1)),
                ),
                Err(e) => !hit && e.input@ == t && e.kind == ParseErrorKind::Tag,
            }
        }),
{
    let c1 = skip_one_newline(code);
    match tag(expected, c1) {
        Ok((rest, matched)) => {
            let r2 = skip_one_newline(rest);
            Ok((r2, matched))
        },
        Err(e) => Err(e),
    }
}

/// The newline padding rule around `parse_words1`: one sentence body with at
/// most one `NewLine` absorbed on each side; the inner failure is propagated
/// unchanged, from the position after the leading skip.
pub fn pad_newline_words1<'a>(code: TokenStream<'a>) -> (r: Result<
    (TokenStream<'a>, Vec<Word>),
    ParseError<'a>,
>)
    ensures
        ({
            let t = code@.skip(nl_skip(code@));
            match r {
                Ok((rest, words)) => words_model(t).len() > 0 && words_models(words@)
                    == words_model(t) && rest@ == words_rest(t).skip(nl_skip(words_rest(t))),
                Err(e) => words_model(t).len() == 0 && e.input@ == t && e.kind
                    == ParseErrorKind::Verify,
            }
        }),
{
    let c1 = skip_one_newline(code);
    match parse_words1(c1) {
        Ok((rest, words)) => {
            let r2 = skip_one_newline(rest);
            Ok((r2, words))
        },
        Err(e) => Err(e),
    }
}

/// Zero or more newline-delimited sentences; never fails, and leaves the
/// stream where the sentence rule first failed.
pub fn parse_sentences0<'a>(code: TokenStream<'a>) -> (r: Result<
    (TokenStream<'a>, Vec<Vec<Word>>),
    ParseError<'a>,
>)
    ensures
        r matches Ok((rest, sents)) && rest@ == sentences_rest(code@) && sentences_models(sents@)
            == sentences_model(code@),
{
    let mut cur = code;
    let mut sents: Vec<Vec<Word>> = Vec::new();
    proof {
        assert(sentences_models(sents@) + sentences_model(cur@) =~= sentences_model(code@));
    }
    loop
        invariant
            sentences_model(code@) == sentences_models(sents@) + sentences_model(cur@),
            sentences_rest(code@) == sentences_rest(cur@),
        ensures
            words_model(cur@.skip(nl_skip(cur@))).len() == 0,
            sentences_model(code@) == sentences_models(sents@) + sentences_model(cur@),
            sentences_rest(code@) == sentences_rest(cur@),
        decreases cur@.len(),
    {
        match pad_newline_words1(cur) {
            Ok((rest, ws)) => {
                let ghost prev_sents = sents@;
                let ghost prev_cur = cur@;
                sents.push(ws);
                cur = rest;
                proof {
                    let t = prev_cur.skip(nl_skip(prev_cur));
                    lemma_words_rest(t);
                    assert(sentences_models(sents@) =~= sentences_models(prev_sents) + seq![
                        words_models(ws@),
                    ]);
                    assert(sentences_model(prev_cur) == seq![words_model(t)] + sentences_model(
                        cur@,
                    ));
                    assert(sentences_models(prev_sents) + sentences_model(prev_cur)
                        =~= sentences_models(sents@) + sentences_model(cur@));
                }
            },
            Err(_) => {
                break ;
            },
        }
    }
    proof {
        assert(sentences_model(cur@) =~= Seq::<Seq<WordModel>>::empty());
        assert(sentences_models(sents@) + sentences_model(cur@) =~= sentences_models(sents@));
    }
    Ok((cur, sents))
}

/// One or more newline-delimited sentences; fails with a `Verify` error on a
/// stream holding no sentence body, the error reported past the one leading
/// `NewLine` the padding rule absorbs.
pub fn parse_sentences1<'a>(code: TokenStream<'a>) -> (r: Result<
    (TokenStream<'a>, Vec<Vec<Word>>),
    ParseError<'a>,
>)
    ensures
        ({
            match r {
                Ok((rest, sents)) => sentences_model(code@).len() > 0 && rest@ == sentences_rest(
                    code@,
                ) && sentences_models(sents@) == sentences_model(code@),
                Err(e) => sentences_model(code@).len() == 0 && e.input@ == code@.skip(
                    nl_skip(code@),
                ) && e.kind == ParseErrorKind::Verify,
            }
        }),
{
    match parse_sentences0(code) {
        Ok((rest, sents)) => {
            if sents.is_empty() {
                let c1 = skip_one_newline(code);
                Err(ParseError { input: c1, kind: ParseErrorKind::Verify })
            } else {
                Ok((rest, sents))
            }
        },
        Err(e) => {
            proof {
                assert(false);
            }
            Err(e)
        },
    }
}

// ------------------------------------------------------------------
// Laws of the grammar
// ------------------------------------------------------------------
/// Round-trip on the head category: a stream of head tokens alone is
/// consumed entirely by the head rule, which returns them in original order.
pub proof fn lemma_head_round_trip(s: Seq<Token>)
    requires
        forall|i: int| 0 <= i < s.len() ==> is_head_tok(#[trigger] s[i]),
    ensures
        head_len(s) == s.len(),
        head_run(s) == s.map_values(|t: Token| head_tok(t)->0),
{
    lemma_head_len_is(s, s.len() as int);
    assert(s.take(s.len() as int) =~= s);
}

/// Word totality: the word rule consumes nothing, and so fails, on an empty
/// stream and on one whose first token belongs to no category.
pub proof fn lemma_word_totality(s: Seq<Token>)
    requires
        s.len() == 0 || (!is_head_tok(s[0]) && !is_body_tok(s[0]) && !is_tail_tok(s[0])),
    ensures
        word_len(s) == 0,
{
    assert(head_len(s) == 0);
    assert(s.skip(0) =~= s);
    assert(body_len(s) == 0);
    assert(tail_len(s) == 0);
}

/// Newline trimming never yields an empty sentence: every sentence the
/// sentence rule produces holds at least one word.
pub proof fn lemma_sentences_nonempty(s: Seq<Token>)
    ensures
        forall|i: int|
            0 <= i < sentences_model(s).len() ==> (#[trigger] sentences_model(s)[i]).len() > 0,
    decreases s.len(),
{
    let t = s.skip(nl_skip(s));
    if words_model(t).len() > 0 {
        lemma_words_rest(t);
        let r1 = words_rest(t);
        lemma_sentences_nonempty(r1.skip(nl_skip(r1)));
        assert forall|i: int|
            0 <= i < sentences_model(s).len() implies (#[trigger] sentences_model(s)[i]).len()
            > 0 by {
            if i > 0 {
                assert(sentences_model(s)[i] == sentences_model(r1.skip(nl_skip(r1)))[i - 1]);
            }
        }
    }
}

/// A sentence of well-formed words, at least one.
pub open spec fn wf_sentence(ws: Seq<WordModel>) -> bool {
    ws.len() > 0 && forall|k: int| 0 <= k < ws.len() ==> (#[trigger] ws[k]).wf()
}

/// A program of well-formed sentences.
pub open spec fn wf_program(ss: Seq<Seq<WordModel>>) -> bool {
    forall|i: int| 0 <= i < ss.len() ==> wf_sentence(#[trigger] ss[i])
}

/// A word the word rule reads is well formed: at least one segment present,
/// and every present segment non-empty.
pub proof fn lemma_word_model_wf(s: Seq<Token>)
    requires
        word_len(s) != 0,
    ensures
        word_model(s).wf(),
{
    lemma_head_len(s);
    lemma_body_len(s.skip(head_len(s)));
    lemma_tail_len(s.skip(head_len(s)).skip(body_len(s.skip(head_len(s)))));
}

/// Every word the repeated word rule reads is well formed.
pub proof fn lemma_words_model_wf(s: Seq<Token>)
    ensures
        forall|i: int| 0 <= i < words_model(s).len() ==> (#[trigger] words_model(s)[i]).wf(),
    decreases s.len(),
{
    if word_len(s) > 0 {
        lemma_word_len(s);
        lemma_word_model_wf(s);
        lemma_words_model_wf(s.skip(word_len(s)));
        assert forall|i: int|
            0 <= i < words_model(s).len() implies (#[trigger] words_model(s)[i]).wf() by {
            if i > 0 {
                assert(words_model(s)[i] == words_model(s.skip(word_len(s)))[i - 1]);
            }
        }
    }
}

/// What the sentence rule produces is a well-formed program: every sentence
/// holds at least one word, and every word is well formed.
pub proof fn lemma_sentences_model_wf(s: Seq<Token>)
    ensures
        wf_program(sentences_model(s)),
    decreases s.len(),
{
    let t = s.skip(nl_skip(s));
    if words_model(t).len() > 0 {
        lemma_words_rest(t);
        lemma_words_model_wf(t);
        let r1 = words_rest(t);
        lemma_sentences_model_wf(r1.skip(nl_skip(r1)));
        assert forall|i: int|
            0 <= i < sentences_model(s).len() implies wf_sentence(
            #[trigger] sentences_model(s)[i],
        ) by {
            if i > 0 {
                assert(sentences_model(s)[i] == sentences_model(r1.skip(nl_skip(r1)))[i - 1]);
            }
        }
    }
}

/// Emptiness: an empty stream yields zero sentences.
pub proof fn lemma_sentences_empty(s: Seq<Token>)
    requires
        s.len() == 0,
    ensures
        sentences_model(s).len() == 0,
{
    assert(s.skip(0) =~= s);
}

/// A stream of only newline markers yields no sentence at all; the
/// one-or-more sentence rule therefore fails on it.
pub proof fn lemma_sentences_only_newlines(s: Seq<Token>)
    requires
        forall|i: int| 0 <= i < s.len() ==> #[trigger] s[i] == Token::NewLine,
    ensures
        sentences_model(s).len() == 0,
{
    let t = s.skip(nl_skip(s));
    if t.len() > 0 {
        assert(t[0] == s[nl_skip(s)]);
        lemma_word_totality(t);
    } else {
        lemma_word_totality(t);
    }
}

} // verus!
