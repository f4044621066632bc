//! Compilation pipeline: token tree recovery, program splitting, and
//! expression compilation, orchestrated by [`compile`].

pub mod error;
pub mod inner;

use vstd::prelude::*;
use crate::span::{Span, Spanned, spec_merge_all, between, merge_all, HasSpan};
use crate::tokens::{Token, Parenthesis, ActivationPattern};
use crate::bytecode::{CompiledProgram, Instr};
use self::error::{Error, ErrorKind};

verus! {

/// A representation of tokens which can represent recursive parenthesis
/// scoping.  The `Token` variant never holds a parenthesis token: open
/// and close tokens are consumed structurally.
#[derive(PartialEq, Eq, Debug)]
pub enum TokenTree {
    Token(Spanned<Token>),
    ParenScope(Vec<TokenTree>),
}

/// Program syntax, split into its parts.
#[derive(PartialEq, Eq, Debug)]
pub struct ProgramParts {
    /// Program activation pattern.
    pub activation: Spanned<ActivationPattern>,
    /// Behavior rule as a prefix-notation token tree.
    pub prefix_rule: Vec<TokenTree>,
}

/// Bytecode instructions which independently produce a single expression.
pub type ExprSubprogram = Vec<Spanned<Instr>>;

/// The token values of a forest, with an open and close parenthesis
/// written around each scope.
pub open spec fn forest_tokens(trees: Seq<TokenTree>) -> Seq<Token>
    decreases trees,
{
    if trees.len() == 0 {
        Seq::empty()
    } else {
        tt_tokens(trees[0]) + forest_tokens(trees.drop_first())
    }
}

/// The token values of one tree, with an open and close parenthesis
/// written around each scope.
pub open spec fn tt_tokens(tree: TokenTree) -> Seq<Token>
    decreases tree,
{
    match tree {
        TokenTree::Token(leaf) => seq![leaf.0],
        TokenTree::ParenScope(scope) => seq![Token::Parenthesis(Parenthesis::Open)]
            + forest_tokens(scope@) + seq![Token::Parenthesis(Parenthesis::Close)],
    }
}

/// The spanned leaf tokens of a forest in order, without the structural
/// parentheses.
pub open spec fn forest_leaves(trees: Seq<TokenTree>) -> Seq<Spanned<Token>>
    decreases trees,
{
    if trees.len() == 0 {
        Seq::empty()
    } else {
        tt_leaves(trees[0]) + forest_leaves(trees.drop_first())
    }
}

/// The spanned leaf tokens of one tree in order, without the structural
/// parentheses.
pub open spec fn tt_leaves(tree: TokenTree) -> Seq<Spanned<Token>>
    decreases tree,
{
    match tree {
        TokenTree::Token(leaf) => seq![leaf],
        TokenTree::ParenScope(scope) => forest_leaves(scope@),
    }
}

/// The spans of the trees of a forest, in order.
pub open spec fn forest_spans(trees: Seq<TokenTree>) -> Seq<Span>
    decreases trees,
{
    if trees.len() == 0 {
        Seq::empty()
    } else {
        forest_spans(trees.drop_last()).push(tt_span(trees.last()))
    }
}

/// The span of a tree: its own for a leaf, the merge of all its
/// children's spans for a scope.
pub open spec fn tt_span(tree: TokenTree) -> Span
    decreases tree,
{
    match tree {
        TokenTree::Token(leaf) => leaf.1,
        TokenTree::ParenScope(scope) => spec_merge_all(forest_spans(scope@)),
    }
}

impl TokenTree {
    /// The span this tree covers.
    pub fn span(&self) -> (s: Span)
        ensures
            s == tt_span(*self),
        decreases *self,
    {
        match self {
            TokenTree::Token(leaf) => leaf.1,
            TokenTree::ParenScope(scope) => {
                let mut broad = Span::Unknown;
                let mut i: usize = 0;
                while i < scope.len()
                    invariant
                        i <= scope@.len(),
                        broad == spec_merge_all(forest_spans(scope@.take(i as int))),
                        forall|j: int|
                            0 <= j < scope@.len() ==> decreases_to!(*self => #[trigger] scope@[j]),
                    decreases scope@.len() - i,
                {
                    let child_span = scope[i].span();
                    broad = between(broad, child_span);
                    proof {
                        assert(scope@.take(i + 1).drop_last() =~= scope@.take(i as int));
                        assert(scope@.take(i + 1).last() == scope@[i as int]);
                        let f = forest_spans(scope@.take(i as int));
                        let y = tt_span(scope@[i as int]);
                        assert(forest_spans(scope@.take(i + 1)) == f.push(y));
                        assert(f.push(y).drop_last() =~= f);
                        assert(f.push(y).last() == y);
                    }
                    i += 1;
                }
                proof {
                    assert(scope@.take(scope@.len() as int) =~= scope@);
                }
                broad
            },
        }
    }
}


/// The token carries compiled meaning: whitespace and comments do not.
pub open spec fn keep_meaningful(t: Spanned<Token>) -> bool {
    !(t.0 == Token::Whitespace || t.0 == Token::Comment)
}

/// The bits of an activation value, least significant first, up to and
/// including its highest set bit.
pub open spec fn spec_bits_lsb(field: u128) -> Seq<bool>
    decreases field,
{
    if field == 0 {
        Seq::empty()
    } else {
        seq![field % 2 == 1] + spec_bits_lsb(field / 2)
    }
}

/// The decoded activation vector: the bits of the value up to its
/// highest set bit, most significant first.  Zero decodes to the empty
/// vector.
pub open spec fn spec_activation(field: u128) -> Seq<bool> {
    spec_bits_lsb(field).reverse()
}

/// The instruction values of a subprogram, without their spans.
pub open spec fn despanned(e: Seq<Spanned<Instr>>) -> Seq<Instr> {
    e.map_values(|si: Spanned<Instr>| si.0)
}

/// The merged span of one subprogram's instructions.
pub open spec fn expr_span(e: Seq<Spanned<Instr>>) -> Span {
    spec_merge_all(e.map_values(|si: Spanned<Instr>| si.1))
}

/// The merged span of several subprograms.
pub open spec fn exprs_span(es: Seq<Seq<Spanned<Instr>>>) -> Span {
    spec_merge_all(es.map_values(|e: Seq<Spanned<Instr>>| expr_span(e)))
}

/// The forest is the parenthesis-scope parse of the token sequence:
/// writing parentheses back around each scope restores the token
/// values, and the leaves are exactly the non-parenthesis tokens.
pub open spec fn is_parse_of(forest: Seq<TokenTree>, kept: Seq<Spanned<Token>>) -> bool {
    &&& forest_tokens(forest) == kept.map_values(|t: Spanned<Token>| t.0)
    &&& forest_leaves(forest) == kept.filter(|t: Spanned<Token>| crate::compile::inner::non_paren(t))
}

/// Where an unbalanced token sequence is reported: at the first close
/// parenthesis with no open one, or nowhere when parentheses are left
/// open at the end.
pub open spec fn unbalanced_location(kept: Seq<Spanned<Token>>) -> Span {
    match crate::compile::inner::first_unmatched_close(kept) {
        Option::Some(i) => kept[i].1,
        Option::None => Span::Unknown,
    }
}

/// What compiling a parsed forest yields: the decoded activation vector
/// and the flat postfix instructions, or the error records of the first
/// stage that fails.
pub open spec fn spec_compile_forest(forest: Seq<TokenTree>) -> Result<
    (Seq<bool>, Seq<Instr>),
    Seq<(ErrorKind, Span)>,
> {
    if forest.len() == 0 {
        Result::Err(seq![(ErrorKind::WrongTokenType, Span::Unknown)])
    } else if crate::compile::inner::leaf_activation(forest[0]) is None {
        Result::Err(seq![(ErrorKind::WrongTokenType, tt_span(forest[0]))])
    } else if forest.len() == 1 {
        Result::Err(seq![(ErrorKind::WrongTokenType, Span::Unknown)])
    } else if !crate::compile::inner::is_colon_leaf(forest[1]) {
        Result::Err(seq![(ErrorKind::WrongTokenType, tt_span(forest[1]))])
    } else {
        let ap = crate::compile::inner::leaf_activation(forest[0])->Some_0;
        match crate::compile::inner::spec_body(forest.skip(2)) {
            Result::Err(recs) => Result::Err(recs),
            Result::Ok(es) => {
                if es.len() != 1 {
                    Result::Err(seq![(ErrorKind::TooManyExprsInProgram, exprs_span(es))])
                } else {
                    Result::Ok((spec_activation(ap.0.0), despanned(es[0])))
                }
            },
        }
    }
}

/// Decode an activation value into its boolean vector, most significant
/// recorded bit first; zero gives the empty vector.
pub fn decode_activation(field: u128) -> (v: Vec<bool>)
    ensures
        v@ == spec_activation(field),
{
    let mut bits: Vec<bool> = Vec::new();
    let mut f = field;
    while f != 0
        invariant
            spec_bits_lsb(field) == bits@ + spec_bits_lsb(f),
        decreases f,
    {
        let ghost bits0 = bits@;
        let ghost f0 = f;
        bits.push(f % 2 == 1);
        f = f / 2;
        proof {
            assert(spec_bits_lsb(f0) == seq![f0 % 2 == 1] + spec_bits_lsb(f0 / 2));
            assert(bits0 + spec_bits_lsb(f0) =~= bits@ + spec_bits_lsb(f));
        }
    }
    proof {
        assert(spec_bits_lsb(0u128) =~= Seq::<bool>::empty());
        assert(bits@ + spec_bits_lsb(0u128) =~= bits@);
    }
    let mut v: Vec<bool> = Vec::new();
    let mut i = bits.len();
    while i > 0
        invariant
            i <= bits@.len(),
            bits@ == spec_bits_lsb(field),
            v@.len() == bits@.len() - i,
            forall|j: int| 0 <= j < v@.len() ==> v@[j] == bits@[bits@.len() - 1 - j],
        decreases i,
    {
        i -= 1;
        v.push(bits[i]);
    }
    proof {
        assert(v@ =~= spec_bits_lsb(field).reverse());
    }
    v
}

/// Compile source text into a runnable program.
///
/// The pipeline is: lex; discard whitespace and comments; recover the
/// parenthesis tree; split off the activation pattern and colon;
/// compile the prefix rule to postfix bytecode; require exactly one
/// expression; decode the activation pattern.  The first stage to fail
/// ends the compile with its own error.
pub fn compile(code: &str) -> (r: Result<CompiledProgram, Error>)
    ensures
        ({
            let lexed = crate::lexer::spec_lex(code@);
            match r {
                Result::Ok(p) => {
                    &&& lexed matches Result::Ok(toks)
                    &&& {
                        let kept = toks.filter(|t: Spanned<Token>| keep_meaningful(t));
                        &&& crate::compile::inner::balanced(kept)
                        &&& exists|forest: Seq<TokenTree>|
                            #[trigger] is_parse_of(forest, kept) && spec_compile_forest(forest)
                                == Result::<(Seq<bool>, Seq<Instr>), Seq<(ErrorKind, Span)>>::Ok(
                                (p.activation@, p.instrs@),
                            )
                    }
                },
                Result::Err(e) => match lexed {
                    Result::Err(_) => e.kind == ErrorKind::Lexer && e.location == Span::Unknown
                        && e.next_error is None,
                    Result::Ok(toks) => {
                        let kept = toks.filter(|t: Spanned<Token>| keep_meaningful(t));
                        if !crate::compile::inner::balanced(kept) {
                            e.spec_records() == seq![
                                (ErrorKind::UnbalancedParenthesis, unbalanced_location(kept)),
                            ]
                        } else {
                            exists|forest: Seq<TokenTree>|
                                #[trigger] is_parse_of(forest, kept) && (spec_compile_forest(forest)
                                    matches Result::Err(recs) && e.spec_records() == recs)
                        }
                    },
                },
            }
        }),
{
    let ghost keepf = |t: Spanned<Token>| keep_meaningful(t);
    let tokens = match crate::lexer::lex_verbose_err(code) {
        Result::Ok(tokens) => tokens,
        Result::Err(message) => {
            return Result::Err(
                Error {
                    message,
                    location: Span::Unknown,
                    kind: ErrorKind::Lexer,
                    next_error: Option::None,
                },
            );
        },
    };
    let ghost all = tokens@;
    let mut kept: Vec<Spanned<Token>> = Vec::new();
    let mut i: usize = 0;
    proof {
        reveal(Seq::filter);
        assert(all.take(0) =~= Seq::<Spanned<Token>>::empty());
        assert(all.take(0).filter(keepf) =~= Seq::<Spanned<Token>>::empty());
    }
    while i < tokens.len()
        invariant
            i <= all.len(),
            tokens@ == all,
            keepf == |t: Spanned<Token>| keep_meaningful(t),
            kept@ == all.take(i as int).filter(keepf),
        decreases all.len() - i,
    {
        let ghost prefix0 = all.take(i as int);
        let ghost prefix1 = all.take(i + 1);
        let token = tokens[i];
        let keep_it = match token.0 {
            Token::Whitespace => false,
            Token::Comment => false,
            _ => true,
        };
        if keep_it {
            kept.push(token);
        }
        proof {
            reveal(Seq::filter);
            assert(prefix1.drop_last() =~= prefix0);
            assert(prefix1.last() == all[i as int]);
            if keep_it {
                assert(prefix1.filter(keepf) =~= prefix0.filter(keepf).push(all[i as int]));
            } else {
                assert(prefix1.filter(keepf) =~= prefix0.filter(keepf));
            }
        }
        i += 1;
    }
    proof {
        assert(all.take(all.len() as int) =~= all);
    }
    let ghost kept_view = kept@;
    let forest = match crate::compile::inner::parse_scopes(kept) {
        Result::Ok(forest) => forest,
        Result::Err(e) => {
            return Result::Err(e);
        },
    };
    let ghost forest_view = forest@;
    let parts = match crate::compile::inner::program_parts(forest) {
        Result::Ok(parts) => parts,
        Result::Err(e) => {
            proof {
                assert(is_parse_of(forest_view, kept_view));
                assert(spec_compile_forest(forest_view) matches Result::Err(recs)
                    && e.spec_records() == recs);
            }
            return Result::Err(e);
        },
    };
    let expressions = match crate::compile::inner::syntax_to_expression(&parts.prefix_rule) {
        Result::Ok(expressions) => expressions,
        Result::Err(e) => {
            proof {
                assert(is_parse_of(forest_view, kept_view));
                assert(parts.prefix_rule@ == forest_view.skip(2));
                assert(spec_compile_forest(forest_view) matches Result::Err(recs)
                    && e.spec_records() == recs);
            }
            return Result::Err(e);
        },
    };
    let ghost es = crate::compile::inner::spec_body(forest_view.skip(2))->Ok_0;
    if expressions.len() != 1 {
        let mut location = Span::Unknown;
        let mut k: usize = 0;
        proof {
            assert(es.map_values(|e: Seq<Spanned<Instr>>| expr_span(e)).take(0) =~= Seq::<
                Span,
            >::empty());
        }
        while k < expressions.len()
            invariant
                k <= expressions@.len(),
                expressions@.map_values(|v: Vec<Spanned<Instr>>| v@) == es,
                location == spec_merge_all(
                    es.map_values(|e: Seq<Spanned<Instr>>| expr_span(e)).take(k as int),
                ),
            decreases expressions@.len() - k,
        {
            let expr_location = merge_all(&expressions[k]);
            location = between(location, expr_location);
            proof {
                let spans = es.map_values(|e: Seq<Spanned<Instr>>| expr_span(e));
                assert(expressions@[k as int]@ == es[k as int]);
                assert(expressions@[k as int]@.map_values(|si: Spanned<Instr>| si.spec_span())
                    =~= es[k as int].map_values(|si: Spanned<Instr>| si.1));
                assert(expr_location == spans[k as int]);
                assert(spans.take(k + 1).drop_last() =~= spans.take(k as int));
                assert(spans.take(k + 1).last() == spans[k as int]);
            }
            k += 1;
        }
        proof {
            let spans = es.map_values(|e: Seq<Spanned<Instr>>| expr_span(e));
            assert(spans.take(spans.len() as int) =~= spans);
            assert(location == exprs_span(es));
        }
        let mut message = String::from_str("program requires 1 expression in behavior rule, found ");
        message.append(error::decimal_string(expressions.len() as u128).as_str());
        let e = Error {
            message,
            location,
            kind: ErrorKind::TooManyExprsInProgram,
            next_error: Option::None,
        };
        proof {
            assert(is_parse_of(forest_view, kept_view));
            assert(es.len() != 1);
            assert(spec_compile_forest(forest_view) matches Result::Err(recs) && e.spec_records()
                =~= recs);
        }
        return Result::Err(e);
    }
    let mut expressions = expressions;
    let expression = expressions.remove(0);
    let ghost expr_view = expression@;
    proof {
        assert(expr_view == es[0]);
    }
    let mut instrs: Vec<Instr> = Vec::new();
    let mut k: usize = 0;
    proof {
        assert(despanned(expr_view).take(0) =~= Seq::<Instr>::empty());
    }
    while k < expression.len()
        invariant
            k <= expr_view.len(),
            expression@ == expr_view,
            instrs@ == despanned(expr_view).take(k as int),
        decreases expr_view.len() - k,
    {
        let Spanned(instr, _) = expression[k];
        instrs.push(instr);
        proof {
            assert(despanned(expr_view).take(k + 1) =~= despanned(expr_view).take(k as int).push(
                expr_view[k as int].0,
            ));
        }
        k += 1;
    }
    proof {
        assert(despanned(expr_view).take(expr_view.len() as int) =~= despanned(expr_view));
    }
    let activation = decode_activation((parts.activation.0).0);
    let program = CompiledProgram { activation, instrs };
    proof {
        assert(is_parse_of(forest_view, kept_view));
        assert(spec_compile_forest(forest_view) == Result::<(Seq<bool>, Seq<Instr>), Seq<(
            ErrorKind,
            Span,
        )>>::Ok((program.activation@, program.instrs@)));
    }
    Result::Ok(program)
}

} // verus!
