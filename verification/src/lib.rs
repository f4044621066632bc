//! Front end for a small logic-cell language.
//!
//! Source text describing a cell's activation pattern and its behavior
//! rule (a prefix-notation boolean expression) is lexed with source-span
//! tracking, its parenthesis nesting is recovered as a token tree, the
//! tree is split into header and body, and the body is compiled into
//! flat postfix bytecode with static arity checking.  The crate also
//! holds the sparse bit-addressable memory that compiled memory-read
//! instructions consult at run time.

pub mod span;
pub mod tokens;
pub mod truthtable;
pub mod bytecode;
pub mod lexer;
pub mod compile;
pub mod memory;
