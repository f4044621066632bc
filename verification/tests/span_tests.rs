use bitpit::span::{between, merge_all, until, HasSpan, Span, Spanned};
use bitpit::tokens::Token;

#[test]
fn until_builds_a_slice_span() {
    assert_eq!(until(2, 5), Span::Slice { start: 2, end: 5 });
    assert_eq!(until(5, 2), Span::Unknown);
    assert_eq!(until(3, 3), Span::Slice { start: 3, end: 3 });
}

#[test]
fn between_takes_the_minimal_enclosing_range() {
    let a = Span::Slice { start: 2, end: 4 };
    let b = Span::Slice { start: 7, end: 9 };
    assert_eq!(between(a, b), Span::AddrRange(2, 9));
    assert_eq!(between(b, a), Span::AddrRange(2, 9));
}

#[test]
fn between_absorbs_unknown_spans() {
    let a = Span::Slice { start: 2, end: 4 };
    assert_eq!(between(Span::Unknown, a), Span::AddrRange(2, 4));
    assert_eq!(between(a, Span::Unknown), Span::AddrRange(2, 4));
    assert_eq!(between(Span::Unknown, Span::Unknown), Span::Unknown);
}

#[test]
fn merge_all_folds_left() {
    let spans = vec![
        Span::Slice { start: 4, end: 6 },
        Span::Unknown,
        Span::AddrRange(1, 2),
    ];
    assert_eq!(merge_all(&spans), Span::AddrRange(1, 6));
    assert_eq!(merge_all(&Vec::<Span>::new()), Span::Unknown);
}

#[test]
fn spanned_carries_its_span() {
    let spanned = Spanned(Token::Colon, Span::Slice { start: 1, end: 2 });
    assert_eq!(spanned.span(), Span::Slice { start: 1, end: 2 });
    assert_eq!(Span::AddrRange(0, 1).span(), Span::AddrRange(0, 1));
}

#[test]
fn spanned_map_keeps_the_span() {
    let spanned = Spanned(3u8, Span::Slice { start: 0, end: 1 });
    let mapped = spanned.map(|n| n > 1);
    assert_eq!(mapped, Spanned(true, Span::Slice { start: 0, end: 1 }));
}

#[test]
fn token_variant_accessors() {
    assert_eq!(Token::Colon.to_colon(), Some(()));
    assert_eq!(Token::Colon.to_operator(), None);
    assert_eq!(Token::Whitespace.to_whitespace(), Some(()));
    assert_eq!(Token::Comment.to_comment(), Some(()));
}
