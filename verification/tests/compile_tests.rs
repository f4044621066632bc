use bitpit::bytecode::{Instr, OpInstr, PushInstr};
use bitpit::compile::{compile, decode_activation};
use bitpit::compile::error::ErrorKind;
use bitpit::span::Span;
use bitpit::truthtable::IoTruthTable;

#[test]
fn activation_zero_decodes_to_empty_vector() {
    assert_eq!(decode_activation(0), Vec::<bool>::new());
}

#[test]
fn activation_literal_decodes_msb_first() {
    assert_eq!(decode_activation(0xa), vec![true, false, true, false]);
}

#[test]
fn activation_length_tracks_highest_set_bit() {
    assert_eq!(decode_activation(1), vec![true]);
    assert_eq!(decode_activation(0x10), vec![true, false, false, false, false]);
}

#[test]
fn end_to_end_success() {
    let program = compile("a: & y n").unwrap();
    assert_eq!(program.activation, vec![true, false, true, false]);
    assert_eq!(
        program.instrs,
        vec![
            Instr::Value(PushInstr::Push(IoTruthTable(0x00))),
            Instr::Value(PushInstr::Push(IoTruthTable(0x0f))),
            Instr::Operation(OpInstr::Both),
        ]
    );
}

#[test]
fn comments_and_whitespace_are_discarded() {
    let with_noise = compile("a: ((pick both)) & y\tn").unwrap();
    let plain = compile("a:&yn").unwrap();
    assert_eq!(with_noise, plain);
}

#[test]
fn program_must_hold_exactly_one_expression() {
    let err = compile("a: y n").unwrap_err();
    assert_eq!(err.kind, ErrorKind::TooManyExprsInProgram);
    assert_eq!(err.location, Span::AddrRange(3, 6));
    assert!(err.message.contains("2"));
    assert!(err.next_error.is_none());
}

#[test]
fn lexer_failure_is_reported_without_location() {
    let err = compile("a: q").unwrap_err();
    assert_eq!(err.kind, ErrorKind::Lexer);
    assert_eq!(err.location, Span::Unknown);
}

#[test]
fn unmatched_close_through_compile() {
    let err = compile(") y").unwrap_err();
    assert_eq!(err.kind, ErrorKind::UnbalancedParenthesis);
    assert_eq!(err.location, Span::Slice { start: 0, end: 1 });
}

#[test]
fn missing_colon_through_compile() {
    let err = compile("a y").unwrap_err();
    assert_eq!(err.kind, ErrorKind::WrongTokenType);
}

#[test]
fn starved_operator_through_compile() {
    let err = compile("a: & y").unwrap_err();
    assert_eq!(err.kind, ErrorKind::NotEnoughOperands);
}

#[test]
fn parenthesized_program() {
    let program = compile("1: (~ O)").unwrap();
    assert_eq!(program.activation, vec![true]);
    assert_eq!(
        program.instrs,
        vec![
            Instr::Value(PushInstr::Push(IoTruthTable(0x0a))),
            Instr::Operation(OpInstr::Not),
        ]
    );
}
