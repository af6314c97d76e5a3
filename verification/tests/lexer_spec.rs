use nyang::ast::{Comment, Sentence, Word};
use nyang::lexer::{lex_code, LexError, LexErrorKind};
use nyang::render::render_code;
use nyang::token::Token;
use nyang::token_stream::TokenStream;

#[test]
fn lex_simple_instructions() {
    let code = "냥냥냐~?!.,-뀨";
    assert_eq!(
        lex_code(code),
        Ok(vec![
            Token::Inc,
            Token::Inc,
            Token::Dec,
            Token::JumpRight,
            Token::Right,
            Token::Left,
            Token::Out,
            Token::In,
            Token::JumpLeft,
            Token::Debug,
        ])
    );
}

#[test]
fn lex_discards_blanks() {
    let code = "냥 냥\t? \t !";
    assert_eq!(
        lex_code(code),
        Ok(vec![Token::Inc, Token::Inc, Token::Right, Token::Left])
    );
}

#[test]
fn lex_collapses_line_breaks() {
    let code = "냥\n\n\r\n냐\n.";
    assert_eq!(
        lex_code(code),
        Ok(vec![
            Token::Inc,
            Token::NewLine,
            Token::Dec,
            Token::NewLine,
            Token::Out,
        ])
    );
}

#[test]
fn lex_keeps_newlines_split_by_blanks() {
    // A blank between two runs of line breaks keeps two newline markers.
    let code = "냥\n \n냐";
    assert_eq!(
        lex_code(code),
        Ok(vec![Token::Inc, Token::NewLine, Token::NewLine, Token::Dec])
    );
}

#[test]
fn lex_reads_comments() {
    let code = "냥\"hello world\"냐";
    assert_eq!(
        lex_code(code),
        Ok(vec![
            Token::Inc,
            Token::Comment(String::from("hello world")),
            Token::Dec,
        ])
    );
}

#[test]
fn lex_reads_empty_comment() {
    let code = "\"\"";
    assert_eq!(lex_code(code), Ok(vec![Token::Comment(String::new())]));
}

#[test]
fn lex_empty_input() {
    assert_eq!(lex_code(""), Ok(vec![]));
}

#[test]
fn lex_fails_on_unrecognized_character() {
    let code = "냥x냐";
    assert_eq!(
        lex_code(code),
        Err(LexError { at: 1, kind: LexErrorKind::Unrecognized })
    );
}

#[test]
fn lex_fails_on_lone_carriage_return() {
    let code = "냥\r냐";
    assert_eq!(
        lex_code(code),
        Err(LexError { at: 1, kind: LexErrorKind::Unrecognized })
    );
}

#[test]
fn lex_fails_on_blank_only_input() {
    let code = "  \t";
    assert_eq!(
        lex_code(code),
        Err(LexError { at: 0, kind: LexErrorKind::Unrecognized })
    );
}

#[test]
fn lex_fails_on_unterminated_comment() {
    let code = "냥\"no end";
    assert_eq!(
        lex_code(code),
        Err(LexError { at: 1, kind: LexErrorKind::UnterminatedComment })
    );
}

#[test]
fn lex_error_position_counts_characters() {
    // The failure position is an index in characters, not bytes: past the
    // two wide instruction characters and the blank they absorb.
    let code = "냥냐 €";
    assert_eq!(
        lex_code(code),
        Err(LexError { at: 3, kind: LexErrorKind::Unrecognized })
    );
}

#[test]
fn render_reconstructs_source() {
    let toks = vec![
        Token::Inc,
        Token::Comment(String::from("hi")),
        Token::NewLine,
        Token::Dec,
        Token::Out,
    ];
    assert_eq!(render_code(&toks), "냥\"hi\"\n냐.");
}

#[test]
fn relex_of_rendered_tokens_is_identity() {
    let code = "냥냥~? \"note\" \n냐냐- . ?";
    let toks = lex_code(code).unwrap();
    let rebuilt = render_code(&toks);
    assert_eq!(lex_code(rebuilt.as_str()), Ok(toks));
}

#[test]
fn relex_of_rendered_program_is_identity() {
    // Tokens shaped like a parsed program: instruction runs, one newline
    // marker between sentences, no comments.
    let toks = vec![
        Token::Inc,
        Token::Inc,
        Token::Out,
        Token::Right,
        Token::NewLine,
        Token::Dec,
        Token::In,
        Token::Left,
    ];
    let rebuilt = render_code(&toks);
    assert_eq!(rebuilt, "냥냥.?\n냐,!");
    assert_eq!(lex_code(rebuilt.as_str()), Ok(toks));
}

#[test]
fn token_stream_cursor_operations() {
    let toks = vec![Token::Inc, Token::Out, Token::Right, Token::Inc];
    let stream = TokenStream::from(&toks[..]);
    let prefix = [Token::Inc, Token::Out];
    let suffix = [Token::Right, Token::Inc];

    assert_eq!(stream.input_len(), 4);
    assert_eq!(stream.take(2), TokenStream::from(&prefix[..]));
    assert_eq!(
        stream.take_split(2),
        (TokenStream::from(&suffix[..]), TokenStream::from(&prefix[..]))
    );
    assert_eq!(stream.get(2), &Token::Right);
    assert_eq!(stream.slice_index(4), Some(4));
    assert_eq!(stream.slice_index(5), None);
}

#[test]
fn token_stream_find_token() {
    let toks = vec![Token::Inc, Token::Comment(String::from("a")), Token::Out];
    let stream = TokenStream::from(&toks[..]);

    assert!(stream.find_token(&Token::Out));
    assert!(stream.find_token(&Token::Comment(String::from("a"))));
    assert!(!stream.find_token(&Token::Comment(String::from("b"))));
    assert!(!stream.find_token(&Token::NewLine));
}

#[test]
fn ast_value_types_hold_their_content() {
    let sentence = Sentence(vec![Word { head: None, body: None, tail: None }]);
    assert_eq!(sentence.0.len(), 1);
    let comment = Comment(String::from("remark"));
    assert_eq!(comment.0, "remark");
}
