//! The diagnostics model of the compiler.
//!
//! An [`Error`] is one finding - a message, a source [`Span`] and an
//! [`ErrorKind`] - optionally chained to further findings through
//! `next_error`, so that a single failed compile can report several
//! independent problems at once.

use vstd::prelude::*;
use vstd::string::StringExecFns;
use crate::span::Span;

verus! {

/// What went wrong, by compilation stage.
#[derive(Copy, Clone, PartialEq, Eq, Structural, Debug)]
pub enum ErrorKind {
    UnbalancedParenthesis,
    WrongTokenType,
    TooManyExprsInParenthesis,
    TooManyExprsInProgram,
    NotEnoughOperands,
    Lexer,
}

/// Compile error.
///
/// References its location in source code, and may chain further
/// errors found in the same pass.
#[derive(PartialEq, Eq, Debug)]
pub struct Error {
    pub message: String,
    pub location: Span,
    pub kind: ErrorKind,
    pub next_error: Option<Box<Error>>,
}

impl Error {
    /// This error alone, with its chain cut off.
    pub open spec fn spec_head(self) -> Error {
        Error {
            message: self.message,
            location: self.location,
            kind: self.kind,
            next_error: Option::None,
        }
    }

    /// The chain as a sequence of single errors, in order.
    pub open spec fn spec_list(self) -> Seq<Error>
        decreases self,
    {
        match self.next_error {
            Option::None => seq![self.spec_head()],
            Option::Some(next) => seq![self.spec_head()] + (*next).spec_list(),
        }
    }

    /// The kind and location of each error in the chain, in order.
    pub open spec fn spec_records(self) -> Seq<(ErrorKind, Span)> {
        self.spec_list().map_values(|e: Error| (e.kind, e.location))
    }

    /// Chain a sequence of errors into a single error.
    ///
    /// Every error but the last loses whatever chain it already had;
    /// the last error keeps its own.
    pub fn chain(errors: Vec<Error>) -> (r: Option<Error>)
        ensures
            match r {
                Option::None => errors@.len() == 0,
                Option::Some(head) => errors@.len() > 0 && head.spec_list() == errors@.take(
                    errors@.len() - 1,
                ).map_values(|e: Error| e.spec_head()) + errors@.last().spec_list(),
            },
    {
        let ghost all = errors@;
        let mut errors = errors;
        let mut acc: Option<Error> = Option::None;
        proof {
            assert(all.take(all.len() as int) =~= all);
        }
        while errors.len() > 0
            invariant
                errors@.len() <= all.len(),
                errors@ == all.take(errors@.len() as int),
                errors@.len() == all.len() ==> acc is None,
                errors@.len() < all.len() ==> (acc matches Option::Some(a) && a.spec_list()
                    == all.subrange(errors@.len() as int, all.len() - 1).map_values(
                    |e: Error| e.spec_head(),
                ) + all.last().spec_list()),
            decreases errors@.len(),
        {
            let ghost pre = errors@;
            let ghost i = errors@.len() - 1;
            let mut e = errors.pop().unwrap();
            proof {
                assert(pre.len() > 0);
                assert(e == pre.last());
                assert(pre == all.take(pre.len() as int));
                assert(pre.last() == all.take(pre.len() as int)[pre.len() - 1]);
                assert(e == all[i]);
            }
            let prev = acc;
            match prev {
                Option::None => {
                    proof {
                        assert(i == all.len() - 1);
                        assert(all.subrange(i, all.len() - 1) =~= Seq::<Error>::empty());
                    }
                    acc = Option::Some(e);
                },
                Option::Some(p) => {
                    let ghost p0 = p;
                    e.next_error = Option::Some(Box::new(p));
                    proof {
                        assert(e.spec_head() == all[i].spec_head());
                        assert(e.spec_list() =~= seq![all[i].spec_head()] + p0.spec_list());
                        assert(all.subrange(i, all.len() - 1) =~= seq![all[i]] + all.subrange(
                            i + 1,
                            all.len() - 1,
                        ));
                        assert(all.subrange(i, all.len() - 1).map_values(
                            |err: Error| err.spec_head(),
                        ) =~= seq![all[i].spec_head()] + all.subrange(i + 1, all.len() - 1).map_values(
                            |err: Error| err.spec_head(),
                        ));
                        assert(e.spec_list() =~= all.subrange(i, all.len() - 1).map_values(
                            |err: Error| err.spec_head(),
                        ) + all.last().spec_list());
                    }
                    acc = Option::Some(e);
                },
            }
            proof {
                assert(errors@ =~= all.take(i));
            }
        }
        proof {
            if all.len() > 0 {
                assert(all.subrange(0, all.len() - 1) =~= all.take(all.len() - 1));
            }
        }
        acc
    }
}

/// One decimal digit as a character.
pub open spec fn spec_digit_char(d: nat) -> char {
    if d == 0 {
        '0'
    } else if d == 1 {
        '1'
    } else if d == 2 {
        '2'
    } else if d == 3 {
        '3'
    } else if d == 4 {
        '4'
    } else if d == 5 {
        '5'
    } else if d == 6 {
        '6'
    } else if d == 7 {
        '7'
    } else if d == 8 {
        '8'
    } else {
        '9'
    }
}

/// The decimal rendering of a number, most significant digit first.
pub open spec fn spec_decimal(n: nat) -> Seq<char>
    decreases n,
{
    if n < 10 {
        seq![spec_digit_char(n)]
    } else {
        spec_decimal(n / 10).push(spec_digit_char(n % 10))
    }
}

fn digit_str(d: u128) -> (s: &'static str)
    requires
        d < 10,
    ensures
        s@ == seq![spec_digit_char(d as nat)],
{
    proof {
        reveal_strlit("0");
        reveal_strlit("1");
        reveal_strlit("2");
        reveal_strlit("3");
        reveal_strlit("4");
        reveal_strlit("5");
        reveal_strlit("6");
        reveal_strlit("7");
        reveal_strlit("8");
        reveal_strlit("9");
    }
    let s: &'static str = if d == 0 {
        "0"
    } else if d == 1 {
        "1"
    } else if d == 2 {
        "2"
    } else if d == 3 {
        "3"
    } else if d == 4 {
        "4"
    } else if d == 5 {
        "5"
    } else if d == 6 {
        "6"
    } else if d == 7 {
        "7"
    } else if d == 8 {
        "8"
    } else {
        "9"
    };
    proof {
        assert(s@ =~= seq![spec_digit_char(d as nat)]);
    }
    s
}

/// Render a number in decimal, for diagnostic messages.
pub fn decimal_string(n: u128) -> (s: String)
    ensures
        s@ == spec_decimal(n as nat),
    decreases n,
{
    if n < 10 {
        digit_str(n).to_owned()
    } else {
        let mut s = decimal_string(n / 10);
        s.append(digit_str(n % 10));
        proof {
            assert(s@ =~= spec_decimal((n / 10) as nat).push(spec_digit_char((n % 10) as nat)));
        }
        s
    }
}

} // verus!
