use vstd::prelude::*;
use vstd::string::StringExecFns;
use crate::ast::{BodyTok, HeadTok, TailTok, WordModel};
use crate::lexer::{blank_run, is_blank, lemma_find_quote_is, lex, newline_run, simple_token, token_run, LexOutcome};
use crate::parser::{lemma_sentences_model_wf, sentences_model, wf_program, wf_sentence};
use crate::token::{models, Token, TokenModel};

verus! {

// ------------------------------------------------------------------
// Reconstruction of source text from tokens
// ------------------------------------------------------------------
/// The source text one token stands for: its reserved character, a quoted
/// comment, or a single line feed.
pub open spec fn render_token(t: TokenModel) -> Seq<char> {
    match t {
        TokenModel::Right => seq!['?'],
        TokenModel::Left => seq!['!'],
        TokenModel::Inc => seq!['냥'],
        TokenModel::Dec => seq!['냐'],
        TokenModel::Out => seq!['.'],
        TokenModel::In => seq![','],
        TokenModel::JumpRight => seq!['~'],
        TokenModel::JumpLeft => seq!['-'],
        TokenModel::Debug => seq!['뀨'],
        TokenModel::Comment(text) => seq!['"'] + text + seq!['"'],
        TokenModel::NewLine => seq!['\n'],
    }
}

/// The source text a token sequence stands for, in order.
pub open spec fn render(ts: Seq<TokenModel>) -> Seq<char>
    decreases ts.len(),
{
    if ts.len() == 0 {
        Seq::empty()
    } else {
        render_token(ts[0]) + render(ts.skip(1))
    }
}

/// Token sequences whose rendered text lexes back to the same sequence:
/// every comment is free of the quote delimiter, and no two newline markers
/// stand next to each other (the lexer would collapse their line breaks into
/// one marker).
pub open spec fn lexable(ts: Seq<TokenModel>) -> bool {
    &&& forall|i: int|
        0 <= i < ts.len() ==> ((#[trigger] ts[i]) matches TokenModel::Comment(text)
            ==> forall|k: int| 0 <= k < text.len() ==> #[trigger] text[k] != '"')
    &&& forall|i: int|
        0 < i < ts.len() ==> !(ts[i - 1] is NewLine && (#[trigger] ts[i]) is NewLine)
}

/// Every token renders as at least one character, and the first one fixes
/// the recognizer that will fire: never a blank or a carriage return, a line
/// feed exactly for a newline marker, a quote exactly for a comment.
pub proof fn lemma_render_token_first(t: TokenModel)
    ensures
        render_token(t).len() > 0,
        !is_blank(render_token(t)[0]),
        render_token(t)[0] != '\r',
        (render_token(t)[0] == '\n') <==> t is NewLine,
        (render_token(t)[0] == '"') <==> t is Comment,
        t matches TokenModel::Comment(text) ==> render_token(t).len() == text.len() + 2,
{
    match t {
        TokenModel::Comment(text) => {
            assert(render_token(t)[0] == '"');
            assert(render_token(t).len() == text.len() + 2);
        },
        _ => {},
    }
}

/// Lexing is left inverse to rendering on lexable token sequences: the
/// reconstructed source text of such a sequence lexes back to exactly that
/// sequence.
pub proof fn lemma_lex_render(ts: Seq<TokenModel>)
    requires
        lexable(ts),
    ensures
        lex(render(ts)) == LexOutcome::Toks(ts),
    decreases ts.len(),
{
    let s = render(ts);
    if ts.len() == 0 {
        assert(ts =~= Seq::<TokenModel>::empty());
    } else {
        let t0 = ts[0];
        let rest_ts = ts.skip(1);
        let first = render_token(t0);
        let rest = render(rest_ts);
        assert(s == first + rest);
        lemma_render_token_first(t0);
        assert(s[0] == first[0]);
        assert(blank_run(s) == 0);
        assert(s.skip(0) =~= s);
        assert(lexable(rest_ts)) by {
            assert forall|i: int|
                0 <= i < rest_ts.len() implies ((#[trigger] rest_ts[i])
                matches TokenModel::Comment(text) ==> forall|k: int|
                0 <= k < text.len() ==> #[trigger] text[k] != '"') by {
                assert(rest_ts[i] == ts[i + 1]);
            }
            assert forall|i: int|
                0 < i < rest_ts.len() implies !(rest_ts[i - 1] is NewLine
                && (#[trigger] rest_ts[i]) is NewLine) by {
                assert(rest_ts[i] == ts[i + 1]);
                assert(rest_ts[i - 1] == ts[i]);
            }
        }
        lemma_lex_render(rest_ts);
        let l = first.len() as int;
        if rest_ts.len() > 0 {
            lemma_render_token_first(rest_ts[0]);
            assert(rest[0] == render_token(rest_ts[0])[0]);
        }
        match t0 {
            TokenModel::Comment(text) => {
                assert(s[0] == '"');
                assert(simple_token('"') is None);
                let s1 = s.skip(1);
                assert(s1 =~= text + seq!['"'] + rest);
                assert forall|k: int| 0 <= k < text.len() implies #[trigger] s1[k] != '"' by {
                    assert(s1[k] == text[k]);
                }
                assert(s1[text.len() as int] == '"');
                lemma_find_quote_is(s1, text.len() as int);
                assert(s.subrange(1, 1 + text.len() as int) =~= text);
                assert(token_run(s) == Some((t0, l)));
            },
            TokenModel::NewLine => {
                assert(s[0] == '\n');
                assert(simple_token('\n') is None);
                assert(s.skip(1) =~= rest);
                if rest_ts.len() == 0 {
                    assert(newline_run(rest) == 0);
                } else {
                    assert(!(rest_ts[0] is NewLine));
                    assert(rest[0] != '\n' && rest[0] != '\r');
                    assert(newline_run(rest) == 0);
                }
                assert(newline_run(s) == 1);
                assert(token_run(s) == Some((t0, 1int)));
            },
            _ => {
                assert(simple_token(s[0]) == Some(t0));
                assert(token_run(s) == Some((t0, 1int)));
            },
        }
        assert(s.skip(l) =~= rest);
        assert(blank_run(rest) == 0);
        assert(lex(s) == LexOutcome::Toks(seq![t0] + rest_ts));
        assert(seq![t0] + rest_ts =~= ts);
    }
}

// ------------------------------------------------------------------
// The token sequence a program stands for
// ------------------------------------------------------------------
/// The token a head token came from.
pub open spec fn token_of_head(h: HeadTok) -> TokenModel {
    match h {
        HeadTok::Inc => TokenModel::Inc,
        HeadTok::Dec => TokenModel::Dec,
        HeadTok::Debug => TokenModel::Debug,
    }
}

/// The token a body token came from.
pub open spec fn token_of_body(b: BodyTok) -> TokenModel {
    match b {
        BodyTok::Out => TokenModel::Out,
        BodyTok::In => TokenModel::In,
        BodyTok::JumpRight => TokenModel::JumpRight,
        BodyTok::JumpLeft => TokenModel::JumpLeft,
    }
}

/// The token a tail token came from.
pub open spec fn token_of_tail(t: TailTok) -> TokenModel {
    match t {
        TailTok::Right => TokenModel::Right,
        TailTok::Left => TokenModel::Left,
    }
}

/// The tokens of a word: its segments, in the fixed order.
pub open spec fn tokens_of_word(w: WordModel) -> Seq<TokenModel> {
    (match w.head {
        Some(h) => h.map_values(|x: HeadTok| token_of_head(x)),
        None => Seq::empty(),
    }) + (match w.body {
        Some(b) => b.map_values(|x: BodyTok| token_of_body(x)),
        None => Seq::empty(),
    }) + (match w.tail {
        Some(t) => t.map_values(|x: TailTok| token_of_tail(x)),
        None => Seq::empty(),
    })
}

/// The tokens of a sentence: its words' tokens, in order.
pub open spec fn tokens_of_sentence(ws: Seq<WordModel>) -> Seq<TokenModel>
    decreases ws.len(),
{
    if ws.len() == 0 {
        Seq::empty()
    } else {
        tokens_of_word(ws[0]) + tokens_of_sentence(ws.skip(1))
    }
}

/// The tokens of a program: its sentences' tokens, one newline marker
/// between consecutive sentences.
pub open spec fn tokens_of_program(ss: Seq<Seq<WordModel>>) -> Seq<TokenModel>
    decreases ss.len(),
{
    if ss.len() == 0 {
        Seq::empty()
    } else if ss.len() == 1 {
        tokens_of_sentence(ss[0])
    } else {
        tokens_of_sentence(ss[0]) + seq![TokenModel::NewLine] + tokens_of_program(ss.skip(1))
    }
}

/// An instruction token: neither a newline marker nor a comment.
pub open spec fn plain(t: TokenModel) -> bool {
    !(t is NewLine) && !(t is Comment)
}

/// A well-formed word yields at least one token, and only plain ones.
pub proof fn lemma_tokens_of_word(w: WordModel)
    requires
        w.wf(),
    ensures
        tokens_of_word(w).len() > 0,
        forall|i: int| 0 <= i < tokens_of_word(w).len() ==> plain(#[trigger] tokens_of_word(w)[i]),
{
    let a = match w.head {
        Some(h) => h.map_values(|x: HeadTok| token_of_head(x)),
        None => Seq::empty(),
    };
    let b = match w.body {
        Some(bd) => bd.map_values(|x: BodyTok| token_of_body(x)),
        None => Seq::empty(),
    };
    let c = match w.tail {
        Some(t) => t.map_values(|x: TailTok| token_of_tail(x)),
        None => Seq::empty(),
    };
    assert forall|i: int|
        0 <= i < tokens_of_word(w).len() implies plain(#[trigger] tokens_of_word(w)[i]) by {
        if i < a.len() {
            assert(tokens_of_word(w)[i] == a[i]);
        } else if i < a.len() + b.len() {
            assert(tokens_of_word(w)[i] == b[i - a.len()]);
        } else {
            assert(tokens_of_word(w)[i] == c[i - a.len() - b.len()]);
        }
    }
}

/// A well-formed sentence yields at least one token, and only plain ones.
pub proof fn lemma_tokens_of_sentence(ws: Seq<WordModel>)
    requires
        wf_sentence(ws),
    ensures
        tokens_of_sentence(ws).len() > 0,
        forall|i: int|
            0 <= i < tokens_of_sentence(ws).len() ==> plain(#[trigger] tokens_of_sentence(ws)[i]),
    decreases ws.len(),
{
    lemma_tokens_of_word(ws[0]);
    let a = tokens_of_word(ws[0]);
    let r = tokens_of_sentence(ws.skip(1));
    if ws.len() > 1 {
        assert(wf_sentence(ws.skip(1))) by {
            assert forall|k: int| 0 <= k < ws.skip(1).len() implies (#[trigger] ws.skip(
                1,
            )[k]).wf() by {
                assert(ws.skip(1)[k] == ws[k + 1]);
            }
        }
        lemma_tokens_of_sentence(ws.skip(1));
    }
    assert forall|i: int|
        0 <= i < tokens_of_sentence(ws).len() implies plain(
        #[trigger] tokens_of_sentence(ws)[i],
    ) by {
        if i < a.len() {
            assert(tokens_of_sentence(ws)[i] == a[i]);
        } else {
            assert(tokens_of_sentence(ws)[i] == r[i - a.len()]);
        }
    }
}

/// A well-formed program's token sequence is lexable: it holds no comment,
/// begins with an instruction token when non-empty, and no two newline
/// markers are adjacent in it.
pub proof fn lemma_program_lexable(ss: Seq<Seq<WordModel>>)
    requires
        wf_program(ss),
    ensures
        lexable(tokens_of_program(ss)),
        ss.len() > 0 ==> tokens_of_program(ss).len() > 0 && plain(tokens_of_program(ss)[0]),
    decreases ss.len(),
{
    let p = tokens_of_program(ss);
    if ss.len() == 0 {
    } else if ss.len() == 1 {
        lemma_tokens_of_sentence(ss[0]);
    } else {
        lemma_tokens_of_sentence(ss[0]);
        let a = tokens_of_sentence(ss[0]);
        assert(wf_program(ss.skip(1))) by {
            assert forall|k: int| 0 <= k < ss.skip(1).len() implies wf_sentence(
                #[trigger] ss.skip(1)[k],
            ) by {
                assert(ss.skip(1)[k] == ss[k + 1]);
            }
        }
        lemma_program_lexable(ss.skip(1));
        let b = tokens_of_program(ss.skip(1));
        assert(p == a + seq![TokenModel::NewLine] + b);
        assert(p[0] == a[0]);
        assert forall|i: int|
            0 <= i < p.len() implies ((#[trigger] p[i]) matches TokenModel::Comment(text)
            ==> forall|k: int| 0 <= k < text.len() ==> #[trigger] text[k] != '"') by {
            if i < a.len() {
                assert(p[i] == a[i]);
            } else if i == a.len() {
                assert(p[i] == TokenModel::NewLine);
            } else {
                assert(p[i] == b[i - a.len() - 1]);
            }
        }
        assert forall|i: int|
            0 < i < p.len() implies !(p[i - 1] is NewLine && (#[trigger] p[i]) is NewLine) by {
            if i < a.len() {
                assert(p[i] == a[i]);
            } else if i == a.len() {
                assert(p[i - 1] == a[i - 1]);
            } else if i == a.len() + 1 {
                assert(p[i] == b[0]);
            } else {
                assert(p[i] == b[i - a.len() - 1]);
                assert(p[i - 1] == b[i - a.len() - 2]);
            }
        }
    }
}

/// Idempotence of the front end: the reconstructed source text of a
/// well-formed program lexes back to exactly the program's token sequence.
pub proof fn lemma_program_round_trip(ss: Seq<Seq<WordModel>>)
    requires
        wf_program(ss),
    ensures
        lex(render(tokens_of_program(ss))) == LexOutcome::Toks(tokens_of_program(ss)),
{
    lemma_program_lexable(ss);
    lemma_lex_render(tokens_of_program(ss));
}

/// Idempotence of the front end, for any parse: the program the sentence
/// rule reads from a token stream is well formed, so its reconstructed
/// source lexes back to exactly its own tokens.
pub proof fn lemma_parse_render_round_trip(s: Seq<Token>)
    ensures
        lex(render(tokens_of_program(sentences_model(s)))) == LexOutcome::Toks(
            tokens_of_program(sentences_model(s)),
        ),
{
    lemma_sentences_model_wf(s);
    lemma_program_round_trip(sentences_model(s));
}

// ------------------------------------------------------------------
// Reconstruction, executable
// ------------------------------------------------------------------
/// Appends the source text of one token.
fn push_token(out: &mut String, t: &Token)
    ensures
        final(out)@ == old(out)@ + render_token(t@),
{
    match t {
        Token::Right => {
            out.append("?");
            proof {
                reveal_strlit("?");
                assert("?"@ =~= seq!['?']);
            }
        },
        Token::Left => {
            out.append("!");
            proof {
                reveal_strlit("!");
                assert("!"@ =~= seq!['!']);
            }
        },
        Token::Inc => {
            out.append("냥");
            proof {
                reveal_strlit("냥");
                assert("냥"@ =~= seq!['냥']);
            }
        },
        Token::Dec => {
            out.append("냐");
            proof {
                reveal_strlit("냐");
                assert("냐"@ =~= seq!['냐']);
            }
        },
        Token::Out => {
            out.append(".");
            proof {
                reveal_strlit(".");
                assert("."@ =~= seq!['.']);
            }
        },
        Token::In => {
            out.append(",");
            proof {
                reveal_strlit(",");
                assert(","@ =~= seq![',']);
            }
        },
        Token::JumpRight => {
            out.append("~");
            proof {
                reveal_strlit("~");
                assert("~"@ =~= seq!['~']);
            }
        },
        Token::JumpLeft => {
            out.append("-");
            proof {
                reveal_strlit("-");
                assert("-"@ =~= seq!['-']);
            }
        },
        Token::Debug => {
            out.append("뀨");
            proof {
                reveal_strlit("뀨");
                assert("뀨"@ =~= seq!['뀨']);
            }
        },
        Token::Comment(text) => {
            out.append("\"");
            out.append(text.as_str());
            out.append("\"");
            proof {
                reveal_strlit("\"");
                assert("\""@ =~= seq!['"']);
                assert(old(out)@ + "\""@ + text@ + "\""@ =~= old(out)@ + (seq!['"'] + text@
                    + seq!['"']));
            }
        },
        Token::NewLine => {
            out.append("\n");
            proof {
                reveal_strlit("\n");
                assert("\n"@ =~= seq!['\n']);
            }
        },
    }
}

/// The reconstructed source text of a token sequence: what each token
/// stands for, concatenated in order.
pub fn render_code(toks: &Vec<Token>) -> (r: String)
    ensures
        r@ == render(models(toks@)),
{
    let ghost all = models(toks@);
    let mut out = String::new();
    let mut i: usize = 0;
    proof {
        assert(all.skip(0) =~= all);
    }
    while i < toks.len()
        invariant
            i <= toks@.len(),
            all == models(toks@),
            render(all) == out@ + render(all.skip(i as int)),
        decreases toks@.len() - i,
    {
        let ghost prev = out@;
        push_token(&mut out, &toks[i]);
        proof {
            assert(all.skip(i as int)[0] == toks@[i as int]@);
            assert(all.skip(i as int).skip(1) =~= all.skip(i as int + 1));
            assert(render(all.skip(i as int)) == render_token(all.skip(i as int)[0]) + render(
                all.skip(i as int + 1),
            ));
            assert(prev + (render_token(toks@[i as int]@) + render(all.skip(i as int + 1)))
                =~= out@ + render(all.skip(i as int + 1)));
        }
        i = i + 1;
    }
    proof {
        assert(render(all.skip(i as int)) =~= Seq::<char>::empty());
        assert(out@ + Seq::<char>::empty() =~= out@);
    }
    out
}

} // verus!
