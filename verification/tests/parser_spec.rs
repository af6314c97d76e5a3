use nyang::ast::{Body, BodyTok, Head, HeadTok, Tail, TailTok, Word};
use nyang::parser::{
    pad_newline_tag, parse_body, parse_head, parse_sentences0, parse_sentences1, parse_tail,
    parse_word, parse_words0, parse_words1, ParseError, ParseErrorKind,
};
use nyang::token::Token;
use nyang::token_stream::TokenStream;

type HT = HeadTok;
type BT = BodyTok;
type TT = TailTok;

fn word(head: Option<Vec<HT>>, body: Option<Vec<BT>>, tail: Option<Vec<TT>>) -> Word {
    Word { head: head.map(Head), body: body.map(Body), tail: tail.map(Tail) }
}

#[test]
fn parse_head_tokens() {
    let toks = vec![Token::Inc, Token::Debug, Token::Inc, Token::Dec];
    let code = TokenStream::from(&toks[..]);

    assert_eq!(
        parse_head(code),
        Ok((
            TokenStream::new(),
            Head(vec![HT::Inc, HT::Debug, HT::Inc, HT::Dec])
        ))
    )
}

#[test]
fn parse_head_tokens2() {
    let toks = vec![Token::Inc, Token::Debug, Token::Right, Token::Inc, Token::Dec];
    let code = TokenStream::from(&toks[..]);
    let rest = [Token::Right, Token::Inc, Token::Dec];

    assert_eq!(
        parse_head(code),
        Ok((TokenStream::from(&rest[..]), Head(vec![HT::Inc, HT::Debug])))
    )
}

#[test]
fn must_fail_to_parse_head_if_there_are_no_matched_tokens() {
    let toks = vec![
        Token::Out,
        Token::Inc,
        Token::Debug,
        Token::Right,
        Token::Inc,
        Token::Dec,
    ];
    let code = TokenStream::from(&toks[..]);

    assert_eq!(
        parse_head(code.clone()),
        Err(ParseError { input: code, kind: ParseErrorKind::Tag })
    );
}

#[test]
fn parse_body_tokens() {
    let toks = vec![
        Token::Out,
        Token::JumpRight,
        Token::JumpRight,
        Token::Dec,
        Token::In,
        Token::JumpLeft,
        Token::Out,
    ];
    let code = TokenStream::from(&toks[..]);
    let rest = [Token::Dec, Token::In, Token::JumpLeft, Token::Out];

    assert_eq!(
        parse_body(code),
        Ok((
            TokenStream::from(&rest[..]),
            Body(vec![BT::Out, BT::JumpRight, BT::JumpRight])
        ))
    )
}

#[test]
fn parse_body_tokens2() {
    let toks = vec![
        Token::Out,
        Token::JumpRight,
        Token::JumpRight,
        Token::In,
        Token::JumpLeft,
        Token::Out,
    ];
    let code = TokenStream::from(&toks[..]);

    assert_eq!(
        parse_body(code),
        Ok((
            TokenStream::new(),
            Body(vec![
                BT::Out,
                BT::JumpRight,
                BT::JumpRight,
                BT::In,
                BT::JumpLeft,
                BT::Out,
            ])
        ))
    )
}

#[test]
fn must_fail_to_parse_body_if_there_are_no_matched_tokens() {
    let toks = vec![
        Token::Debug,
        Token::Out,
        Token::JumpRight,
        Token::JumpRight,
        Token::In,
        Token::JumpLeft,
        Token::Out,
    ];
    let code = TokenStream::from(&toks[..]);

    assert_eq!(
        parse_body(code.clone()),
        Err(ParseError { input: code, kind: ParseErrorKind::Tag })
    );
}

#[test]
fn parse_tail_tokens() {
    let toks = vec![Token::Right, Token::Left, Token::Right, Token::Right];
    let code = TokenStream::from(&toks[..]);

    assert_eq!(
        parse_tail(code),
        Ok((
            TokenStream::new(),
            Tail(vec![TT::Right, TT::Left, TT::Right, TT::Right])
        ))
    )
}

#[test]
fn parse_tail_tokens2() {
    let toks = vec![
        Token::Right,
        Token::Left,
        Token::JumpRight,
        Token::Right,
        Token::Right,
    ];
    let code = TokenStream::from(&toks[..]);
    let rest = [Token::JumpRight, Token::Right, Token::Right];

    assert_eq!(
        parse_tail(code),
        Ok((TokenStream::from(&rest[..]), Tail(vec![TT::Right, TT::Left])))
    )
}

#[test]
fn must_fail_to_parse_tail_if_there_are_no_matched_tokens() {
    let toks = vec![
        Token::Out,
        Token::Right,
        Token::Left,
        Token::JumpRight,
        Token::Right,
        Token::Right,
    ];
    let code = TokenStream::from(&toks[..]);

    assert_eq!(
        parse_tail(code.clone()),
        Err(ParseError { input: code, kind: ParseErrorKind::Tag })
    );
}

#[test]
fn must_parse_word() {
    let toks = vec![
        Token::Out,
        Token::JumpRight,
        Token::In,
        Token::JumpLeft,
        Token::Left,
        Token::Out,
        Token::Debug,
    ];
    let code = TokenStream::from(&toks[..]);
    let rest = [Token::Out, Token::Debug];

    assert_eq!(
        parse_word(code),
        Ok((
            TokenStream::from(&rest[..]),
            word(
                None,
                Some(vec![BT::Out, BT::JumpRight, BT::In, BT::JumpLeft]),
                Some(vec![TT::Left]),
            )
        ))
    )
}

#[test]
fn must_parse_word2() {
    let toks = vec![
        Token::Debug,
        Token::Inc,
        Token::JumpRight,
        Token::In,
        Token::JumpLeft,
        Token::Left,
        Token::Out,
        Token::Debug,
    ];
    let code = TokenStream::from(&toks[..]);
    let rest = [Token::Out, Token::Debug];

    assert_eq!(
        parse_word(code),
        Ok((
            TokenStream::from(&rest[..]),
            word(
                Some(vec![HT::Debug, HT::Inc]),
                Some(vec![BT::JumpRight, BT::In, BT::JumpLeft]),
                Some(vec![TT::Left]),
            )
        ))
    )
}

#[test]
fn parse_word_only_match_head() {
    let toks = vec![Token::Inc, Token::Inc];
    let code = TokenStream::from(&toks[..]);

    assert_eq!(
        parse_word(code),
        Ok((
            TokenStream::new(),
            word(Some(vec![HT::Inc, HT::Inc]), None, None)
        ))
    )
}

#[test]
fn parse_word_only_match_body() {
    let toks = vec![Token::Out, Token::JumpLeft, Token::Dec, Token::JumpLeft];
    let code = TokenStream::from(&toks[..]);
    let rest = [Token::Dec, Token::JumpLeft];

    assert_eq!(
        parse_word(code),
        Ok((
            TokenStream::from(&rest[..]),
            word(None, Some(vec![BT::Out, BT::JumpLeft]), None)
        ))
    )
}

#[test]
fn parse_word_only_match_tail() {
    let toks = vec![Token::Left, Token::Left, Token::Debug];
    let code = TokenStream::from(&toks[..]);
    let rest = [Token::Debug];

    assert_eq!(
        parse_word(code),
        Ok((
            TokenStream::from(&rest[..]),
            word(None, None, Some(vec![TT::Left, TT::Left]))
        ))
    )
}

#[test]
fn must_fail_to_parse_word_if_input_is_empty() {
    let code = TokenStream::new();

    assert_eq!(
        parse_word(code),
        Err(ParseError { input: TokenStream::new(), kind: ParseErrorKind::Verify })
    );
}

#[test]
fn test_parse_words0() {
    let toks = vec![
        Token::Inc,
        Token::Dec,
        Token::Out,
        Token::In,
        Token::Right,
        Token::Left,
        Token::Inc,
        Token::Inc,
        Token::Debug,
        Token::Out,
        Token::JumpLeft,
        Token::JumpRight,
        Token::Left,
        Token::Left,
        Token::Left,
    ];
    let code = TokenStream::from(&toks[..]);

    assert_eq!(
        parse_words0(code),
        Ok((
            TokenStream::new(),
            vec![
                word(
                    Some(vec![HT::Inc, HT::Dec]),
                    Some(vec![BT::Out, BT::In]),
                    Some(vec![TT::Right, TT::Left]),
                ),
                word(
                    Some(vec![HT::Inc, HT::Inc, HT::Debug]),
                    Some(vec![BT::Out, BT::JumpLeft, BT::JumpRight]),
                    Some(vec![TT::Left, TT::Left, TT::Left]),
                ),
            ]
        ))
    )
}

#[test]
fn test_parse_words0_with_empty_input() {
    let code = TokenStream::new();

    assert_eq!(parse_words0(code), Ok((TokenStream::new(), vec![])))
}

#[test]
fn test_parse_words1() {
    let toks = vec![
        Token::Inc,
        Token::Dec,
        Token::Out,
        Token::In,
        Token::Right,
        Token::Left,
        Token::Inc,
        Token::Inc,
        Token::Debug,
        Token::Out,
        Token::JumpLeft,
        Token::JumpRight,
        Token::Left,
        Token::Left,
        Token::Left,
    ];
    let code = TokenStream::from(&toks[..]);

    assert_eq!(
        parse_words1(code),
        Ok((
            TokenStream::new(),
            vec![
                word(
                    Some(vec![HT::Inc, HT::Dec]),
                    Some(vec![BT::Out, BT::In]),
                    Some(vec![TT::Right, TT::Left]),
                ),
                word(
                    Some(vec![HT::Inc, HT::Inc, HT::Debug]),
                    Some(vec![BT::Out, BT::JumpLeft, BT::JumpRight]),
                    Some(vec![TT::Left, TT::Left, TT::Left]),
                ),
            ]
        ))
    )
}

#[test]
fn test_parse_words1_with_empty_input() {
    let code = TokenStream::new();

    assert_eq!(
        parse_words1(code),
        Err(ParseError { input: TokenStream::new(), kind: ParseErrorKind::Verify })
    );
}

#[test]
fn must_match_without_any_newlines() {
    let toks = vec![Token::Debug, Token::Left];
    let code = TokenStream::from(&toks[..]);
    let rest = [Token::Left];
    let matched = [Token::Debug];

    assert_eq!(
        pad_newline_tag(&Token::Debug, code),
        Ok((TokenStream::from(&rest[..]), TokenStream::from(&matched[..]))),
    );
}

#[test]
fn must_match_with_newline_at_the_left() {
    let toks = vec![Token::NewLine, Token::Debug, Token::Left];
    let code = TokenStream::from(&toks[..]);
    let rest = [Token::Left];
    let matched = [Token::Debug];

    assert_eq!(
        pad_newline_tag(&Token::Debug, code),
        Ok((TokenStream::from(&rest[..]), TokenStream::from(&matched[..]))),
    );
}

#[test]
fn must_match_with_newline_at_the_right() {
    let toks = vec![Token::Debug, Token::NewLine, Token::Left];
    let code = TokenStream::from(&toks[..]);
    let rest = [Token::Left];
    let matched = [Token::Debug];

    assert_eq!(
        pad_newline_tag(&Token::Debug, code),
        Ok((TokenStream::from(&rest[..]), TokenStream::from(&matched[..]))),
    );
}

#[test]
fn must_match_newlines_at_both_side() {
    let toks = vec![Token::NewLine, Token::Debug, Token::NewLine, Token::Left];
    let code = TokenStream::from(&toks[..]);
    let rest = [Token::Left];
    let matched = [Token::Debug];

    assert_eq!(
        pad_newline_tag(&Token::Debug, code),
        Ok((TokenStream::from(&rest[..]), TokenStream::from(&matched[..]))),
    );
}

#[test]
fn must_fail_if_inner_parser_fails() {
    let toks = vec![Token::NewLine, Token::NewLine, Token::Left];
    let code = TokenStream::from(&toks[..]);
    let at = [Token::NewLine, Token::Left];

    assert_eq!(
        pad_newline_tag(&Token::Debug, code),
        Err(ParseError { input: TokenStream::from(&at[..]), kind: ParseErrorKind::Tag }),
    );
}

#[test]
fn newlines_should_not_be_repeated() {
    let toks = vec![
        Token::NewLine,
        Token::NewLine,
        Token::In,
        Token::NewLine,
        Token::NewLine,
        Token::NewLine,
        Token::NewLine,
        Token::In,
        Token::NewLine,
    ];
    let code = TokenStream::from(&toks[..]);

    let mut cur = code.clone();
    let mut matched: Vec<TokenStream> = vec![];
    loop {
        match pad_newline_tag(&Token::In, cur) {
            Ok((rest, m)) => {
                matched.push(m);
                cur = rest;
            },
            Err(_) => break,
        }
    }

    // The repeated rule matches nothing, so the whole stream remains and
    // the end of input is never reached: a run of two newline markers stops
    // the padded rule.
    assert!(matched.is_empty() && cur == code && cur.input_len() != 0);
}

#[test]
fn must_match_with_newline_separated_tokens() {
    let toks = vec![
        Token::NewLine,
        Token::In,
        Token::NewLine,
        Token::NewLine,
        Token::In,
        Token::NewLine,
    ];
    let code = TokenStream::from(&toks[..]);

    let mut cur = code;
    let mut matched: Vec<TokenStream> = vec![];
    loop {
        match pad_newline_tag(&Token::In, cur) {
            Ok((rest, m)) => {
                matched.push(m);
                cur = rest;
            },
            Err(_) => break,
        }
    }

    let one_in = [Token::In];
    assert!(
        cur.input_len() == 0
            && matched == vec![TokenStream::from(&one_in[..]), TokenStream::from(&one_in[..])]
    );
}

#[test]
fn sentences0_must_match_with_empty_token_stream() {
    let code = TokenStream::new();

    assert_eq!(
        parse_sentences0(code),
        Ok((TokenStream::new(), Vec::<Vec<Word>>::new()))
    );
}

#[test]
fn sentences0_must_recognize_single_word_as_single_sentence() {
    let toks = vec![Token::In];
    let code = TokenStream::from(&toks[..]);

    assert_eq!(
        parse_sentences0(code),
        Ok((
            TokenStream::new(),
            vec![vec![word(None, Some(vec![BT::In]), None)]]
        ))
    );
}

#[test]
fn sentences0_must_recognize_many_words_as_single_sentence() {
    let toks = vec![Token::In, Token::JumpLeft, Token::Debug, Token::Out];
    let code = TokenStream::from(&toks[..]);

    assert_eq!(
        parse_sentences0(code),
        Ok((
            TokenStream::new(),
            vec![vec![
                word(None, Some(vec![BT::In, BT::JumpLeft]), None),
                word(Some(vec![HT::Debug]), Some(vec![BT::Out]), None),
            ]]
        ))
    );
}

#[test]
fn sentences0_must_recognize_many_words_separated_with_newlines_as_multiple_sentence() {
    let toks = vec![
        Token::In,
        Token::NewLine,
        Token::JumpLeft,
        Token::In,
        Token::Debug,
        Token::NewLine,
        Token::Out,
    ];
    let code = TokenStream::from(&toks[..]);

    assert_eq!(
        parse_sentences0(code),
        Ok((
            TokenStream::new(),
            vec![
                vec![word(None, Some(vec![BT::In]), None)],
                vec![
                    word(None, Some(vec![BT::JumpLeft, BT::In]), None),
                    word(Some(vec![HT::Debug]), None, None),
                ],
                vec![word(None, Some(vec![BT::Out]), None)],
            ]
        ))
    );
}

#[test]
fn sentences0_must_ignore_trailing_newline() {
    let toks = vec![
        Token::In,
        Token::NewLine,
        Token::JumpLeft,
        Token::In,
        Token::Debug,
        Token::NewLine,
        Token::Out,
        Token::NewLine,
    ];
    let code = TokenStream::from(&toks[..]);

    assert_eq!(
        parse_sentences0(code),
        Ok((
            TokenStream::new(),
            vec![
                vec![word(None, Some(vec![BT::In]), None)],
                vec![
                    word(None, Some(vec![BT::JumpLeft, BT::In]), None),
                    word(Some(vec![HT::Debug]), None, None),
                ],
                vec![word(None, Some(vec![BT::Out]), None)],
            ]
        ))
    );
}

#[test]
fn sentences0_must_ignore_leading_newline() {
    let toks = vec![
        Token::NewLine,
        Token::In,
        Token::NewLine,
        Token::JumpLeft,
        Token::In,
        Token::Debug,
        Token::NewLine,
        Token::Out,
    ];
    let code = TokenStream::from(&toks[..]);

    assert_eq!(
        parse_sentences0(code),
        Ok((
            TokenStream::new(),
            vec![
                vec![word(None, Some(vec![BT::In]), None)],
                vec![
                    word(None, Some(vec![BT::JumpLeft, BT::In]), None),
                    word(Some(vec![HT::Debug]), None, None),
                ],
                vec![word(None, Some(vec![BT::Out]), None)],
            ]
        ))
    );
}

#[test]
fn sentences1_must_fail_to_match_with_empty_token_stream() {
    let code = TokenStream::new();

    assert_eq!(
        parse_sentences1(code),
        Err(ParseError { input: TokenStream::new(), kind: ParseErrorKind::Verify })
    );
}

#[test]
fn sentences1_must_fail_to_match_with_only_newlines() {
    let toks = vec![Token::NewLine];
    let code = TokenStream::from(&toks[..]);

    assert_eq!(
        parse_sentences1(code),
        Err(ParseError { input: TokenStream::new(), kind: ParseErrorKind::Verify })
    );
}
