use vstd::prelude::*;
use vstd::string::StrSliceExecFns;
use crate::token::{models, Token, TokenModel};

verus! {

// ------------------------------------------------------------------
// Failure model
// ------------------------------------------------------------------
/// What stopped the lexer: a character no recognizer accepts, or a comment
/// opened by a double quote that never closes.
#[derive(Clone, Copy, Debug, PartialEq)]
pub enum LexErrorKind {
    Unrecognized,
    UnterminatedComment,
}

/// A lexical failure: the index, in characters, where the offending
/// remainder of the input begins, and what stopped the lexer there.
#[derive(Clone, Copy, Debug, PartialEq)]
pub struct LexError {
    pub at: usize,
    pub kind: LexErrorKind,
}

/// What lexing a character sequence yields: the full token sequence, or the
/// position and kind of the first failure.
pub enum LexOutcome {
    Toks(Seq<TokenModel>),
    Fail(int, LexErrorKind),
}

// ------------------------------------------------------------------
// The lexical grammar, as functions on character sequences
// ------------------------------------------------------------------
/// Whitespace that separates tokens and is discarded: space and tab.
pub open spec fn is_blank(c: char) -> bool {
    c == ' ' || c == '\t'
}

/// The length of the maximal prefix of blanks.
pub open spec fn blank_run(s: Seq<char>) -> int
    decreases s.len(),
{
    if s.len() > 0 && is_blank(s[0]) {
        1 + blank_run(s.skip(1))
    } else {
        0
    }
}

/// The length of the maximal prefix of line breaks, a break being a line
/// feed or a carriage return followed by a line feed.
pub open spec fn newline_run(s: Seq<char>) -> int
    decreases s.len(),
{
    if s.len() > 0 && s[0] == '\n' {
        1 + newline_run(s.skip(1))
    } else if s.len() > 1 && s[0] == '\r' && s[1] == '\n' {
        2 + newline_run(s.skip(2))
    } else {
        0
    }
}

/// The position of the first double quote, when there is one.
pub open spec fn find_quote(s: Seq<char>) -> Option<int>
    decreases s.len(),
{
    if s.len() == 0 {
        None
    } else if s[0] == '"' {
        Some(0)
    } else {
        match find_quote(s.skip(1)) {
            Some(q) => Some(1 + q),
            None => None,
        }
    }
}

/// The token a single reserved character stands for, when it is one.
pub open spec fn simple_token(c: char) -> Option<TokenModel> {
    if c == '?' {
        Some(TokenModel::Right)
    } else if c == '!' {
        Some(TokenModel::Left)
    } else if c == '냥' {
        Some(TokenModel::Inc)
    } else if c == '냐' {
        Some(TokenModel::Dec)
    } else if c == '.' {
        Some(TokenModel::Out)
    } else if c == ',' {
        Some(TokenModel::In)
    } else if c == '~' {
        Some(TokenModel::JumpRight)
    } else if c == '-' {
        Some(TokenModel::JumpLeft)
    } else if c == '뀨' {
        Some(TokenModel::Debug)
    } else {
        None
    }
}

/// The token beginning at `s`, with how many characters it takes: a reserved
/// character, a quote-delimited comment, or a run of line breaks collapsed
/// to one `NewLine`.
pub open spec fn token_run(s: Seq<char>) -> Option<(TokenModel, int)> {
    if s.len() == 0 {
        None
    } else if simple_token(s[0]) is Some {
        Some((simple_token(s[0])->0, 1))
    } else if s[0] == '"' {
        match find_quote(s.skip(1)) {
            Some(q) => Some((TokenModel::Comment(s.subrange(1, 1 + q)), q + 2)),
            None => None,
        }
    } else if newline_run(s) > 0 {
        Some((TokenModel::NewLine, newline_run(s)))
    } else {
        None
    }
}

/// Which failure a stream no recognizer accepts reports.
pub open spec fn fail_kind(s: Seq<char>) -> LexErrorKind {
    if s.len() > 0 && s[0] == '"' {
        LexErrorKind::UnterminatedComment
    } else {
        LexErrorKind::Unrecognized
    }
}

/// The maximal blank prefix is within bounds.
pub proof fn lemma_blank_run(s: Seq<char>)
    ensures
        0 <= blank_run(s) <= s.len(),
    decreases s.len(),
{
    if s.len() > 0 && is_blank(s[0]) {
        lemma_blank_run(s.skip(1));
    }
}

/// The maximal line-break prefix is within bounds.
pub proof fn lemma_newline_run(s: Seq<char>)
    ensures
        0 <= newline_run(s) <= s.len(),
    decreases s.len(),
{
    if s.len() > 0 && s[0] == '\n' {
        lemma_newline_run(s.skip(1));
    } else if s.len() > 1 && s[0] == '\r' && s[1] == '\n' {
        lemma_newline_run(s.skip(2));
    }
}

/// Where a first quote is reported, a quote stands, and none before it.
pub proof fn lemma_find_quote(s: Seq<char>)
    ensures
        match find_quote(s) {
            Some(q) => 0 <= q < s.len() && s[q] == '"' && forall|i: int|
                0 <= i < q ==> #[trigger] s[i] != '"',
            None => forall|i: int| 0 <= i < s.len() ==> #[trigger] s[i] != '"',
        },
    decreases s.len(),
{
    if s.len() == 0 {
    } else if s[0] == '"' {
    } else {
        lemma_find_quote(s.skip(1));
        assert forall|i: int| 1 <= i < s.len() implies s.skip(1)[i - 1] == s[i] by {}
    }
}

/// A position holding a quote, with none before it, is the position the
/// quote search reports.
pub proof fn lemma_find_quote_is(s: Seq<char>, q: int)
    requires
        0 <= q < s.len(),
        s[q] == '"',
        forall|k: int| 0 <= k < q ==> #[trigger] s[k] != '"',
    ensures
        find_quote(s) == Some(q),
    decreases s.len(),
{
    if q > 0 {
        assert(s.skip(1)[q - 1] == s[q]);
        assert forall|k: int| 0 <= k < q - 1 implies #[trigger] s.skip(1)[k] != '"' by {
            assert(s.skip(1)[k] == s[k + 1]);
        }
        lemma_find_quote_is(s.skip(1), q - 1);
    }
}

/// A recognized token takes at least one character and at most the stream.
pub proof fn lemma_token_run(s: Seq<char>)
    ensures
        match token_run(s) {
            Some((tok, k)) => 1 <= k <= s.len(),
            None => true,
        },
{
    if s.len() > 0 && simple_token(s[0]) is None && s[0] == '"' {
        lemma_find_quote(s.skip(1));
    }
    lemma_newline_run(s);
}

/// The result of lexing `s` in full: greedily, blanks are dropped, one token
/// is read, blanks are dropped again, until the stream ends (success) or no
/// recognizer accepts the position (failure at the start of that attempt).
pub open spec fn lex(s: Seq<char>) -> LexOutcome
    decreases s.len(),
{
    let b = blank_run(s);
    let t = s.skip(b);
    match token_run(t) {
        Some((tok, k)) => {
            proof {
                lemma_blank_run(s);
                lemma_token_run(t);
                lemma_blank_run(t.skip(k));
            }
            let b2 = blank_run(t.skip(k));
            let consumed = b + k + b2;
            match lex(s.skip(consumed)) {
                LexOutcome::Toks(ts) => LexOutcome::Toks(seq![tok] + ts),
                LexOutcome::Fail(p, kind) => LexOutcome::Fail(consumed + p, kind),
            }
        },
        None => {
            if s.len() == 0 {
                LexOutcome::Toks(Seq::empty())
            } else {
                LexOutcome::Fail(0, fail_kind(t))
            }
        },
    }
}

/// `outcome`, as seen from an enclosing stream: `pre` comes before its
/// tokens, and `base` characters before its failure position.
pub open spec fn lex_prepend(pre: Seq<TokenModel>, base: int, outcome: LexOutcome) -> LexOutcome {
    match outcome {
        LexOutcome::Toks(ts) => LexOutcome::Toks(pre + ts),
        LexOutcome::Fail(p, kind) => LexOutcome::Fail(base + p, kind),
    }
}

// ------------------------------------------------------------------
// Scanners, executable
// ------------------------------------------------------------------
/// Whether `c` is discarded whitespace.
fn is_blank_char(c: char) -> (r: bool)
    ensures
        r == is_blank(c),
{
    c == ' ' || c == '\t'
}

/// The token a single reserved character stands for, when it is one.
fn char_token(c: char) -> (r: Option<Token>)
    ensures
        match r {
            Some(tok) => simple_token(c) == Some(tok@),
            None => simple_token(c) is None,
        },
{
    match c {
        '?' => Some(Token::Right),
        '!' => Some(Token::Left),
        '냥' => Some(Token::Inc),
        '냐' => Some(Token::Dec),
        '.' => Some(Token::Out),
        ',' => Some(Token::In),
        '~' => Some(Token::JumpRight),
        '-' => Some(Token::JumpLeft),
        '뀨' => Some(Token::Debug),
        _ => None,
    }
}

/// Advances over the maximal run of blanks from `from`.
fn scan_blanks(input: &str, from: usize) -> (j: usize)
    requires
        from <= input@.len(),
    ensures
        from <= j <= input@.len(),
        j - from == blank_run(input@.skip(from as int)),
{
    let n = input.unicode_len();
    let mut j = from;
    while j < n && is_blank_char(input.get_char(j))
        invariant
            n == input@.len(),
            from <= j <= n,
            blank_run(input@.skip(from as int)) == (j - from) + blank_run(
                input@.skip(j as int),
            ),
        decreases n - j,
    {
        proof {
            assert(input@.skip(j as int)[0] == input@[j as int]);
            assert(input@.skip(j as int).skip(1) =~= input@.skip(j as int + 1));
        }
        j = j + 1;
    }
    proof {
        lemma_blank_run(input@.skip(from as int));
        if j < n {
            assert(input@.skip(j as int)[0] == input@[j as int]);
        }
    }
    j
}

/// Advances over the maximal run of line breaks from `from`.
fn scan_newlines(input: &str, from: usize) -> (j: usize)
    requires
        from <= input@.len(),
    ensures
        from <= j <= input@.len(),
        j - from == newline_run(input@.skip(from as int)),
{
    let n = input.unicode_len();
    let mut j = from;
    while j < n && (input.get_char(j) == '\n' || (input.get_char(j) == '\r' && j + 1 < n
        && input.get_char(j + 1) == '\n'))
        invariant
            n == input@.len(),
            from <= j <= n,
            newline_run(input@.skip(from as int)) == (j - from) + newline_run(
                input@.skip(j as int),
            ),
        decreases n - j,
    {
        proof {
            assert(input@.skip(j as int)[0] == input@[j as int]);
            if j + 1 < n {
                assert(input@.skip(j as int)[1] == input@[j as int + 1]);
            }
            assert(input@.skip(j as int).skip(1) =~= input@.skip(j as int + 1));
            if j + 2 <= n {
                assert(input@.skip(j as int).skip(2) =~= input@.skip(j as int + 2));
            }
        }
        if input.get_char(j) == '\n' {
            j = j + 1;
        } else {
            j = j + 2;
        }
    }
    proof {
        lemma_newline_run(input@.skip(from as int));
        if j < n {
            assert(input@.skip(j as int)[0] == input@[j as int]);
            if j + 1 < n {
                assert(input@.skip(j as int)[1] == input@[j as int + 1]);
            }
        }
    }
    j
}

/// The position of the first double quote at or after `from`, when the rest
/// of the input holds one.
fn find_quote_from(input: &str, from: usize) -> (r: Option<usize>)
    requires
        from <= input@.len(),
    ensures
        match r {
            Some(q) => from <= q < input@.len() && find_quote(input@.skip(from as int)) == Some(
                q - from,
            ),
            None => find_quote(input@.skip(from as int)) is None,
        },
{
    let n = input.unicode_len();
    let mut j = from;
    while j < n && input.get_char(j) != '"'
        invariant
            n == input@.len(),
            from <= j <= n,
            find_quote(input@.skip(from as int)) == match find_quote(input@.skip(j as int)) {
                Some(q) => Some(q + (j - from)),
                None => None::<int>,
            },
        decreases n - j,
    {
        proof {
            assert(input@.skip(j as int)[0] == input@[j as int]);
            assert(input@.skip(j as int).skip(1) =~= input@.skip(j as int + 1));
        }
        j = j + 1;
    }
    if j < n {
        proof {
            assert(input@.skip(j as int)[0] == input@[j as int]);
        }
        Some(j)
    } else {
        None
    }
}

/// Reads the one token beginning at position `j`, or says why none starts
/// there.
fn lex_step(input: &str, j: usize) -> (r: Result<(Token, usize), LexErrorKind>)
    requires
        j < input@.len(),
    ensures
        ({
            let t = input@.skip(j as int);
            match r {
                Ok((tok, e)) => token_run(t) == Some((tok@, e - j)) && j < e <= input@.len(),
                Err(kind) => token_run(t) is None && kind == fail_kind(t),
            }
        }),
{
    let ghost t = input@.skip(j as int);
    proof {
        assert(t[0] == input@[j as int]);
    }
    let n = input.unicode_len();
    let c = input.get_char(j);
    match char_token(c) {
        Some(tok) => Ok((tok, j + 1)),
        None => {
            if c == '"' {
                match find_quote_from(input, j + 1) {
                    Some(q) => {
                        let text = input.substring_char(j + 1, q).to_owned();
                        proof {
                            assert(t.skip(1) =~= input@.skip(j as int + 1));
                            assert(t.subrange(1, 1 + (q - (j + 1))) =~= input@.subrange(
                                j as int + 1,
                                q as int,
                            ));
                        }
                        Ok((Token::Comment(text), q + 1))
                    },
                    None => {
                        proof {
                            assert(t.skip(1) =~= input@.skip(j as int + 1));
                        }
                        Err(LexErrorKind::UnterminatedComment)
                    },
                }
            } else if c == '\n' || (c == '\r' && j + 1 < n && input.get_char(j + 1) == '\n') {
                let e = scan_newlines(input, j);
                proof {
                    if j + 1 < n {
                        assert(t[1] == input@[j as int + 1]);
                    }
                    lemma_newline_run(t.skip(1));
                    if t.len() > 1 {
                        lemma_newline_run(t.skip(2));
                    }
                }
                Ok((Token::NewLine, e))
            } else {
                proof {
                    if j + 1 < n {
                        assert(t[1] == input@[j as int + 1]);
                    }
                }
                Err(LexErrorKind::Unrecognized)
            }
        },
    }
}

/// Lexes the whole input: tokens separated by discarded blanks, or the first
/// failure, reported at the remainder that no recognizer accepts.  The whole
/// input must be consumed; there is no partial result.
pub fn lex_code(input: &str) -> (r: Result<Vec<Token>, LexError>)
    ensures
        ({
            match r {
                Ok(toks) => lex(input@) == LexOutcome::Toks(models(toks@)),
                Err(e) => lex(input@) == LexOutcome::Fail(e.at as int, e.kind),
            }
        }),
{
    let n = input.unicode_len();
    let mut toks: Vec<Token> = Vec::new();
    let mut i: usize = 0;
    proof {
        let s = input@;
        assert(s.skip(0) =~= s);
        assert(models(toks@) =~= Seq::<TokenModel>::empty());
        match lex(s) {
            LexOutcome::Toks(ts) => {
                assert(models(toks@) + ts =~= ts);
            },
            LexOutcome::Fail(p, kind) => {},
        }
    }
    loop
        invariant
            n == input@.len(),
            i <= n,
            lex(input@) == lex_prepend(models(toks@), i as int, lex(input@.skip(i as int))),
        decreases n - i,
    {
        let ghost s = input@;
        let j = scan_blanks(input, i);
        if j == n {
            proof {
                assert(s.skip(i as int).skip(j - i) =~= s.skip(n as int));
                assert(s.skip(n as int).len() == 0);
            }
            if i == n {
                proof {
                    assert(lex(s.skip(i as int)) == LexOutcome::Toks(Seq::<TokenModel>::empty()));
                    assert(models(toks@) + Seq::<TokenModel>::empty() =~= models(toks@));
                }
                return Ok(toks);
            } else {
                proof {
                    assert(lex(s.skip(i as int)) == LexOutcome::Fail(
                        0,
                        LexErrorKind::Unrecognized,
                    ));
                }
                return Err(LexError { at: i, kind: LexErrorKind::Unrecognized });
            }
        }
        proof {
            assert(s.skip(i as int).skip(j - i) =~= s.skip(j as int));
        }
        match lex_step(input, j) {
            Ok((tok, e)) => {
                let i2 = scan_blanks(input, e);
                let ghost prev_toks = toks@;
                let ghost prev_i = i as int;
                toks.push(tok);
                i = i2;
                proof {
                    let suf = s.skip(prev_i);
                    let t = s.skip(j as int);
                    lemma_token_run(t);
                    assert(t.skip(e as int - j as int) =~= s.skip(e as int));
                    let consumed = (j - prev_i) + (e as int - j as int) + (i as int - e as int);
                    assert(suf.skip(consumed) =~= s.skip(i as int));
                    assert(lex(suf) == match lex(s.skip(i as int)) {
                        LexOutcome::Toks(ts) => LexOutcome::Toks(seq![tok@] + ts),
                        LexOutcome::Fail(p, kind) => LexOutcome::Fail(consumed + p, kind),
                    });
                    assert(models(toks@) =~= models(prev_toks) + seq![tok@]);
                    match lex(s.skip(i as int)) {
                        LexOutcome::Toks(ts) => {
                            assert(models(prev_toks) + (seq![tok@] + ts) =~= models(toks@) + ts);
                        },
                        LexOutcome::Fail(p, kind) => {},
                    }
                }
            },
            Err(kind) => {
                proof {
                    assert(s.skip(i as int).len() > 0);
                    assert(lex(s.skip(i as int)) == LexOutcome::Fail(
                        0,
                        fail_kind(s.skip(j as int)),
                    ));
                }
                return Err(LexError { at: i, kind });
            },
        }
    }
}

} // verus!
