use bitpit::lexer::{lex, lex_verbose_err, hex_str_to_u128};
use bitpit::span::{Span, Spanned};
use bitpit::tokens::{Token, Operator, BitLiteral, IoLiteral, MemoryRead, Parenthesis,
    ActivationPattern};

fn token_values(code: &str) -> Vec<Token> {
    lex(code).unwrap().into_iter().map(|Spanned(t, _)| t).collect()
}

#[test]
fn lex_operators() {
    assert_eq!(
        token_values("&|^~=_"),
        vec![
            Token::Operator(Operator::Both),
            Token::Operator(Operator::Either),
            Token::Operator(Operator::Different),
            Token::Operator(Operator::Not),
            Token::Operator(Operator::Same),
            Token::Operator(Operator::Neither),
        ]
    );
}

#[test]
fn lex_literals_and_colon() {
    assert_eq!(
        token_values("ynIO:"),
        vec![
            Token::BitLiteral(BitLiteral::Yes),
            Token::BitLiteral(BitLiteral::No),
            Token::IoLiteral(IoLiteral::Input),
            Token::IoLiteral(IoLiteral::Output),
            Token::Colon,
        ]
    );
}

#[test]
fn lex_memory_reads() {
    assert_eq!(
        token_values("* >a <ff"),
        vec![
            Token::MemoryRead(MemoryRead(0)),
            Token::Whitespace,
            Token::MemoryRead(MemoryRead(10)),
            Token::Whitespace,
            Token::MemoryRead(MemoryRead(-255)),
        ]
    );
}

#[test]
fn lex_activation_pattern() {
    assert_eq!(
        token_values("1A2b"),
        vec![Token::ActivationPattern(ActivationPattern(0x1a2b))]
    );
}

#[test]
fn lex_spans_are_character_ranges() {
    let tokens = lex("a: y").unwrap();
    assert_eq!(tokens[0].1, Span::Slice { start: 0, end: 1 });
    assert_eq!(tokens[1].1, Span::Slice { start: 1, end: 2 });
    assert_eq!(tokens[2].1, Span::Slice { start: 2, end: 3 });
    assert_eq!(tokens[3].1, Span::Slice { start: 3, end: 4 });
}

#[test]
fn lex_whitespace_is_maximal_run() {
    let tokens = lex("y \t\n n").unwrap();
    assert_eq!(tokens.len(), 3);
    assert_eq!(tokens[1].0, Token::Whitespace);
    assert_eq!(tokens[1].1, Span::Slice { start: 1, end: 5 });
}

#[test]
fn lex_comment_nested() {
    let tokens = lex("((a((b))c))y").unwrap();
    assert_eq!(tokens.len(), 2);
    assert_eq!(tokens[0].0, Token::Comment);
    assert_eq!(tokens[0].1, Span::Slice { start: 0, end: 11 });
    assert_eq!(tokens[1].0, Token::BitLiteral(BitLiteral::Yes));
}

#[test]
fn lex_unterminated_comment_is_parentheses() {
    let tokens = lex("((a").unwrap();
    assert_eq!(
        tokens.into_iter().map(|Spanned(t, _)| t).collect::<Vec<_>>(),
        vec![
            Token::Parenthesis(Parenthesis::Open),
            Token::Parenthesis(Parenthesis::Open),
            Token::ActivationPattern(ActivationPattern(0xa)),
        ]
    );
}

#[test]
fn lex_parentheses() {
    assert_eq!(
        token_values("()"),
        vec![
            Token::Parenthesis(Parenthesis::Open),
            Token::Parenthesis(Parenthesis::Close),
        ]
    );
}

#[test]
fn lex_failure_position() {
    assert_eq!(lex("y q"), Err(2));
    assert!(lex_verbose_err("y q").is_err());
}

#[test]
fn lex_memory_read_without_digits_fails() {
    assert_eq!(lex("y >"), Err(2));
}

#[test]
fn hex_parsing() {
    assert_eq!(hex_str_to_u128("0"), 0);
    assert_eq!(hex_str_to_u128("ff"), 255);
    assert_eq!(hex_str_to_u128("DeadBeef"), 0xdeadbeef);
    // thirty-three digits wrap around the 128-bit range
    assert_eq!(hex_str_to_u128("100000000000000000000000000000001"), 1);
}
