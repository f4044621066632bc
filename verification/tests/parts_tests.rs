use bitpit::compile::inner::{parse_scopes, program_parts};
use bitpit::compile::error::ErrorKind;
use bitpit::lexer::lex;
use bitpit::span::{Span, Spanned};
use bitpit::tokens::{ActivationPattern, Token};

fn forest(code: &str) -> Vec<bitpit::compile::TokenTree> {
    let tokens: Vec<Spanned<Token>> = lex(code)
        .unwrap()
        .into_iter()
        .filter(|Spanned(t, _)| !matches!(t, Token::Whitespace | Token::Comment))
        .collect();
    parse_scopes(tokens).unwrap()
}

#[test]
fn splits_activation_and_colon() {
    let parts = program_parts(forest("1a: & y n")).unwrap();
    assert_eq!(parts.activation.0, ActivationPattern(0x1a));
    assert_eq!(parts.activation.1, Span::Slice { start: 0, end: 2 });
    assert_eq!(parts.prefix_rule.len(), 3);
}

#[test]
fn missing_colon_is_wrong_token_type() {
    let err = program_parts(forest("a y")).unwrap_err();
    assert_eq!(err.kind, ErrorKind::WrongTokenType);
    assert_eq!(err.location, Span::Slice { start: 2, end: 3 });
    assert!(err.next_error.is_none());
}

#[test]
fn empty_program_is_wrong_token_type() {
    let err = program_parts(Vec::new()).unwrap_err();
    assert_eq!(err.kind, ErrorKind::WrongTokenType);
    assert_eq!(err.location, Span::Unknown);
}

#[test]
fn activation_missing_after_scope() {
    let err = program_parts(forest("(y): n")).unwrap_err();
    assert_eq!(err.kind, ErrorKind::WrongTokenType);
    assert_eq!(err.location, Span::AddrRange(1, 2));
}

#[test]
fn colon_missing_at_end_of_tokens() {
    let err = program_parts(forest("a")).unwrap_err();
    assert_eq!(err.kind, ErrorKind::WrongTokenType);
    assert_eq!(err.location, Span::Unknown);
}
