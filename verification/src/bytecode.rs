//! The compiled artifact: flat postfix bytecode plus the decoded
//! activation bit-vector.

use vstd::prelude::*;
use crate::tokens::Operator;
use crate::truthtable::IoTruthTable;

verus! {

/// Fully formed runnable bytecode program.
#[derive(Clone, PartialEq, Eq, Debug)]
pub struct CompiledProgram {
    /// Decoded activation pattern, most significant recorded bit first.
    pub activation: Vec<bool>,
    /// Postfix instruction sequence: operands precede the operation that
    /// consumes them.
    pub instrs: Vec<Instr>,
}

/// Bytecode instruction.
#[derive(Copy, Clone, PartialEq, Eq, Structural, Debug)]
pub enum Instr {
    Value(PushInstr),
    Operation(OpInstr),
}

/// Pushing values onto the evaluation stack.
#[derive(Copy, Clone, PartialEq, Eq, Structural, Debug)]
pub enum PushInstr {
    /// Push a packed truth table.
    Push(IoTruthTable<u8>),
    /// Read the bit at the signed offset and push it.
    ReadThenPush { offset: i128 },
}

/// Operations: pop operands from the stack, then push one result.
#[derive(Copy, Clone, PartialEq, Eq, Structural, Debug)]
pub enum OpInstr {
    Both,
    Either,
    Different,
    Not,
    Same,
    Neither,
}

impl OpInstr {
    /// Number of operands: one for `Not`, two for every other operation.
    pub open spec fn spec_arity(&self) -> nat {
        match *self {
            OpInstr::Not => 1,
            _ => 2,
        }
    }

    /// Number of operands.
    pub fn arity(&self) -> (n: usize)
        ensures
            n == self.spec_arity(),
    {
        match *self {
            OpInstr::Both => 2,
            OpInstr::Either => 2,
            OpInstr::Different => 2,
            OpInstr::Same => 2,
            OpInstr::Neither => 2,
            OpInstr::Not => 1,
        }
    }
}

impl vstd::std_specs::convert::FromSpecImpl<Operator> for OpInstr {
    open spec fn obeys_from_spec() -> bool {
        true
    }

    open spec fn from_spec(from: Operator) -> OpInstr {
        match from {
            Operator::Both => OpInstr::Both,
            Operator::Either => OpInstr::Either,
            Operator::Different => OpInstr::Different,
            Operator::Not => OpInstr::Not,
            Operator::Same => OpInstr::Same,
            Operator::Neither => OpInstr::Neither,
        }
    }
}

impl From<Operator> for OpInstr {
    /// The operation that a source operator token compiles to.
    fn from(from: Operator) -> (r: OpInstr) {
        match from {
            Operator::Both => OpInstr::Both,
            Operator::Either => OpInstr::Either,
            Operator::Different => OpInstr::Different,
            Operator::Not => OpInstr::Not,
            Operator::Same => OpInstr::Same,
            Operator::Neither => OpInstr::Neither,
        }
    }
}

} // verus!
