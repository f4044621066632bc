use bitpit::compile::TokenTree;
use bitpit::compile::error::ErrorKind;
use bitpit::compile::inner::parse_scopes;
use bitpit::lexer::lex;
use bitpit::span::{Span, Spanned};
use bitpit::tokens::Token;

fn meaningful(code: &str) -> Vec<Spanned<Token>> {
    lex(code)
        .unwrap()
        .into_iter()
        .filter(|Spanned(t, _)| !matches!(t, Token::Whitespace | Token::Comment))
        .collect()
}

fn flatten(trees: &[TokenTree], out: &mut Vec<Spanned<Token>>) {
    for tree in trees {
        match tree {
            TokenTree::Token(leaf) => out.push(*leaf),
            TokenTree::ParenScope(scope) => flatten(scope, out),
        }
    }
}

#[test]
fn balanced_round_trip() {
    let tokens = meaningful("a : & (| y n) ~ y");
    let forest = parse_scopes(tokens.clone()).unwrap();
    let mut leaves = Vec::new();
    flatten(&forest, &mut leaves);
    let expected: Vec<Spanned<Token>> = tokens
        .into_iter()
        .filter(|Spanned(t, _)| !matches!(t, Token::Parenthesis(_)))
        .collect();
    assert_eq!(leaves, expected);
}

#[test]
fn nested_scopes_shape() {
    let tokens = meaningful("( ( y ) n )");
    let forest = parse_scopes(tokens).unwrap();
    assert_eq!(forest.len(), 1);
    match &forest[0] {
        TokenTree::ParenScope(outer) => {
            assert_eq!(outer.len(), 2);
            assert!(matches!(outer[0], TokenTree::ParenScope(_)));
            assert!(matches!(outer[1], TokenTree::Token(_)));
        },
        TokenTree::Token(_) => panic!("expected a scope"),
    }
}

#[test]
fn unmatched_close_is_reported_at_its_span() {
    let tokens = meaningful(") y");
    let err = parse_scopes(tokens).unwrap_err();
    assert_eq!(err.kind, ErrorKind::UnbalancedParenthesis);
    assert_eq!(err.location, Span::Slice { start: 0, end: 1 });
    assert!(err.next_error.is_none());
    assert_eq!(err.message, "unmatched close parenthesis");
}

#[test]
fn unmatched_open_has_no_location() {
    let tokens = meaningful("( y");
    let err = parse_scopes(tokens).unwrap_err();
    assert_eq!(err.kind, ErrorKind::UnbalancedParenthesis);
    assert_eq!(err.location, Span::Unknown);
    assert!(err.next_error.is_none());
    assert_eq!(err.message, "1 unclosed parenthesis");
}

#[test]
fn two_unclosed_parentheses_counted() {
    let tokens = meaningful("( y ( n");
    let err = parse_scopes(tokens).unwrap_err();
    assert_eq!(err.kind, ErrorKind::UnbalancedParenthesis);
    assert_eq!(err.message, "2 unclosed parenthesis");
}

#[test]
fn token_tree_span_merges_children() {
    let tokens = meaningful("( y n )");
    let forest = parse_scopes(tokens).unwrap();
    assert_eq!(forest[0].span(), Span::AddrRange(2, 5));
}
