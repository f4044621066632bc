//! The lexical atoms of the language.

use vstd::prelude::*;

verus! {

/// Boolean operator of the behavior rule.
#[derive(Copy, Clone, PartialEq, Eq, Structural, Debug)]
pub enum Operator {
    Both,
    Either,
    Different,
    Not,
    Same,
    Neither,
}

/// Constant bit literal.
#[derive(Copy, Clone, PartialEq, Eq, Structural, Debug)]
pub enum BitLiteral {
    Yes,
    No,
}

/// Input/output condition literal.
#[derive(Copy, Clone, PartialEq, Eq, Structural, Debug)]
pub enum IoLiteral {
    Input,
    Output,
}

/// Memory read at a signed offset from the current cell.
#[derive(Copy, Clone, PartialEq, Eq, Structural, Debug)]
pub struct MemoryRead(pub i128);

/// Open or close parenthesis.
#[derive(Copy, Clone, PartialEq, Eq, Structural, Debug)]
pub enum Parenthesis {
    Open,
    Close,
}

/// Activation pattern header value.
#[derive(Copy, Clone, PartialEq, Eq, Structural, Debug)]
pub struct ActivationPattern(pub u128);

/// A lexical token.
#[derive(Copy, Clone, PartialEq, Eq, Structural, Debug)]
pub enum Token {
    Operator(Operator),
    BitLiteral(BitLiteral),
    IoLiteral(IoLiteral),
    MemoryRead(MemoryRead),
    Parenthesis(Parenthesis),
    ActivationPattern(ActivationPattern),
    Colon,
    Whitespace,
    Comment,
}

impl Token {
    /// The operator held by this token, if it is one.
    pub fn to_operator(self) -> (r: Option<Operator>)
        ensures
            r == match self {
                Token::Operator(inner) => Option::Some(inner),
                _ => Option::None::<Operator>,
            },
    {
        match self {
            Token::Operator(inner) => Option::Some(inner),
            _ => Option::None,
        }
    }

    /// The bit literal held by this token, if it is one.
    pub fn to_bit_literal(self) -> (r: Option<BitLiteral>)
        ensures
            r == match self {
                Token::BitLiteral(inner) => Option::Some(inner),
                _ => Option::None::<BitLiteral>,
            },
    {
        match self {
            Token::BitLiteral(inner) => Option::Some(inner),
            _ => Option::None,
        }
    }

    /// The io literal held by this token, if it is one.
    pub fn to_io_literal(self) -> (r: Option<IoLiteral>)
        ensures
            r == match self {
                Token::IoLiteral(inner) => Option::Some(inner),
                _ => Option::None::<IoLiteral>,
            },
    {
        match self {
            Token::IoLiteral(inner) => Option::Some(inner),
            _ => Option::None,
        }
    }

    /// The memory read held by this token, if it is one.
    pub fn to_memory_read(self) -> (r: Option<MemoryRead>)
        ensures
            r == match self {
                Token::MemoryRead(inner) => Option::Some(inner),
                _ => Option::None::<MemoryRead>,
            },
    {
        match self {
            Token::MemoryRead(inner) => Option::Some(inner),
            _ => Option::None,
        }
    }

    /// The parenthesis held by this token, if it is one.
    pub fn to_parenthesis(self) -> (r: Option<Parenthesis>)
        ensures
            r == match self {
                Token::Parenthesis(inner) => Option::Some(inner),
                _ => Option::None::<Parenthesis>,
            },
    {
        match self {
            Token::Parenthesis(inner) => Option::Some(inner),
            _ => Option::None,
        }
    }

    /// The activation pattern held by this token, if it is one.
    pub fn to_activation_pattern(self) -> (r: Option<ActivationPattern>)
        ensures
            r == match self {
                Token::ActivationPattern(inner) => Option::Some(inner),
                _ => Option::None::<ActivationPattern>,
            },
    {
        match self {
            Token::ActivationPattern(inner) => Option::Some(inner),
            _ => Option::None,
        }
    }

    /// Unit witness that this token is a colon.
    pub fn to_colon(self) -> (r: Option<()>)
        ensures
            r == match self {
                Token::Colon => Option::Some(()),
                _ => Option::None::<()>,
            },
    {
        match self {
            Token::Colon => Option::Some(()),
            _ => Option::None,
        }
    }

    /// Unit witness that this token is whitespace.
    pub fn to_whitespace(self) -> (r: Option<()>)
        ensures
            r == match self {
                Token::Whitespace => Option::Some(()),
                _ => Option::None::<()>,
            },
    {
        match self {
            Token::Whitespace => Option::Some(()),
            _ => Option::None,
        }
    }

    /// Unit witness that this token is a comment.
    pub fn to_comment(self) -> (r: Option<()>)
        ensures
            r == match self {
                Token::Comment => Option::Some(()),
                _ => Option::None::<()>,
            },
    {
        match self {
            Token::Comment => Option::Some(()),
            _ => Option::None,
        }
    }
}

} // verus!
