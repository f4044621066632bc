use bitpit::bytecode::{Instr, OpInstr, PushInstr};
use bitpit::compile::inner::{parse_scopes, syntax_to_expression};
use bitpit::compile::error::{Error, ErrorKind};
use bitpit::lexer::lex;
use bitpit::span::{Span, Spanned};
use bitpit::tokens::Token;
use bitpit::truthtable::IoTruthTable;

fn rule_forest(code: &str) -> Vec<bitpit::compile::TokenTree> {
    let tokens: Vec<Spanned<Token>> = lex(code)
        .unwrap()
        .into_iter()
        .filter(|Spanned(t, _)| !matches!(t, Token::Whitespace | Token::Comment))
        .collect();
    parse_scopes(tokens).unwrap()
}

fn chain_records(error: &Error) -> Vec<(ErrorKind, Span)> {
    let mut records = Vec::new();
    let mut cur = Some(error);
    while let Some(e) = cur {
        records.push((e.kind, e.location));
        cur = e.next_error.as_deref();
    }
    records
}

#[test]
fn literal_compiles_to_one_push() {
    let exprs = syntax_to_expression(&rule_forest("y")).unwrap();
    assert_eq!(exprs.len(), 1);
    assert_eq!(exprs[0].len(), 1);
    assert_eq!(exprs[0][0].0, Instr::Value(PushInstr::Push(IoTruthTable(0x0f))));
}

#[test]
fn binary_operator_emits_pop_order() {
    let exprs = syntax_to_expression(&rule_forest("& y n")).unwrap();
    assert_eq!(exprs.len(), 1);
    let instrs: Vec<Instr> = exprs[0].iter().map(|Spanned(i, _)| *i).collect();
    assert_eq!(
        instrs,
        vec![
            Instr::Value(PushInstr::Push(IoTruthTable(0x00))),
            Instr::Value(PushInstr::Push(IoTruthTable(0x0f))),
            Instr::Operation(OpInstr::Both),
        ]
    );
}

#[test]
fn unary_and_memory_reads() {
    let exprs = syntax_to_expression(&rule_forest("~ >2")).unwrap();
    let instrs: Vec<Instr> = exprs[0].iter().map(|Spanned(i, _)| *i).collect();
    assert_eq!(
        instrs,
        vec![
            Instr::Value(PushInstr::ReadThenPush { offset: 2 }),
            Instr::Operation(OpInstr::Not),
        ]
    );
}

#[test]
fn several_complete_expressions_are_allowed_here() {
    let exprs = syntax_to_expression(&rule_forest("y n")).unwrap();
    assert_eq!(exprs.len(), 2);
}

#[test]
fn starved_operator_reports_one_entry() {
    let err = syntax_to_expression(&rule_forest("& y")).unwrap_err();
    let records = chain_records(&err);
    assert_eq!(records, vec![(ErrorKind::NotEnoughOperands, Span::Slice { start: 0, end: 1 })]);
}

#[test]
fn two_starved_operators_report_in_order() {
    let err = syntax_to_expression(&rule_forest("& | y")).unwrap_err();
    let records = chain_records(&err);
    assert_eq!(
        records,
        vec![
            (ErrorKind::NotEnoughOperands, Span::Slice { start: 0, end: 1 }),
            (ErrorKind::NotEnoughOperands, Span::Slice { start: 2, end: 3 }),
        ]
    );
}

#[test]
fn inner_operator_completes_before_outer_starves() {
    let err = syntax_to_expression(&rule_forest("& | y n")).unwrap_err();
    let records = chain_records(&err);
    assert_eq!(records, vec![(ErrorKind::NotEnoughOperands, Span::Slice { start: 0, end: 1 })]);
}

#[test]
fn parenthesis_must_hold_one_expression() {
    let err = syntax_to_expression(&rule_forest("(y n)")).unwrap_err();
    assert_eq!(err.kind, ErrorKind::TooManyExprsInParenthesis);
    assert_eq!(err.location, Span::AddrRange(1, 4));
    assert!(err.next_error.is_none());
    assert!(err.message.contains("2"));
}

#[test]
fn empty_parenthesis_is_too_few_expressions() {
    let err = syntax_to_expression(&rule_forest("()")).unwrap_err();
    assert_eq!(err.kind, ErrorKind::TooManyExprsInParenthesis);
}

#[test]
fn header_token_in_rule_is_wrong_token_type() {
    let err = syntax_to_expression(&rule_forest(": y")).unwrap_err();
    assert_eq!(err.kind, ErrorKind::WrongTokenType);
    assert_eq!(err.location, Span::Slice { start: 0, end: 1 });
}

#[test]
fn parenthesized_operand_nests() {
    let exprs = syntax_to_expression(&rule_forest("& (| y n) I")).unwrap();
    let instrs: Vec<Instr> = exprs[0].iter().map(|Spanned(i, _)| *i).collect();
    assert_eq!(
        instrs,
        vec![
            Instr::Value(PushInstr::Push(IoTruthTable(0x0c))),
            Instr::Value(PushInstr::Push(IoTruthTable(0x00))),
            Instr::Value(PushInstr::Push(IoTruthTable(0x0f))),
            Instr::Operation(OpInstr::Either),
            Instr::Operation(OpInstr::Both),
        ]
    );
}
