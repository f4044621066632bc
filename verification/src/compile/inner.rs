//! Inner stages of the compilation pipeline: parenthesis-scope
//! recovery, program splitting, and expression compilation.

use vstd::prelude::*;
use vstd::string::StringExecFns;
use crate::span::{Span, Spanned, spec_merge_all};
use crate::tokens::{Token, Parenthesis, ActivationPattern, Operator, BitLiteral, IoLiteral,
MemoryRead};
use crate::bytecode::{Instr, PushInstr, OpInstr};
use crate::truthtable::IoTruthTable;
use crate::compile::{TokenTree, ProgramParts, ExprSubprogram, forest_tokens, tt_tokens,
forest_leaves, tt_leaves, tt_span, forest_spans};
use crate::compile::error::{Error, ErrorKind, decimal_string};

verus! {

/// The token is an open parenthesis.
pub open spec fn is_open(t: Token) -> bool {
    t == Token::Parenthesis(Parenthesis::Open)
}

/// The token is a close parenthesis.
pub open spec fn is_close(t: Token) -> bool {
    t == Token::Parenthesis(Parenthesis::Close)
}

/// The token survives into the token tree as a leaf.
pub open spec fn non_paren(t: Spanned<Token>) -> bool {
    !(t.0 matches Token::Parenthesis(_))
}

/// Number of open parentheses minus number of close parentheses.
pub open spec fn depth_of(tokens: Seq<Spanned<Token>>) -> int
    decreases tokens.len(),
{
    if tokens.len() == 0 {
        0
    } else {
        depth_of(tokens.drop_last()) + if is_open(tokens.last().0) {
            1int
        } else if is_close(tokens.last().0) {
            -1int
        } else {
            0int
        }
    }
}

/// No prefix closes more parentheses than it has opened.
pub open spec fn no_unmatched_close(tokens: Seq<Spanned<Token>>) -> bool {
    forall|i: int| 0 <= i <= tokens.len() ==> depth_of(#[trigger] tokens.take(i)) >= 0
}

/// Every close parenthesis matches an earlier open one and conversely.
pub open spec fn balanced(tokens: Seq<Spanned<Token>>) -> bool {
    no_unmatched_close(tokens) && depth_of(tokens) == 0
}

/// Index of the first close parenthesis with no matching open one at or
/// after position `i`, scanning with `depth` parentheses already open.
pub open spec fn first_unmatched_close_from(tokens: Seq<Spanned<Token>>, i: int, depth: int) -> Option<int>
    decreases tokens.len() - i,
{
    if i < 0 || i >= tokens.len() {
        Option::None
    } else if is_close(tokens[i].0) && depth <= 0 {
        Option::Some(i)
    } else {
        first_unmatched_close_from(
            tokens,
            i + 1,
            depth + if is_open(tokens[i].0) {
                1int
            } else if is_close(tokens[i].0) {
                -1int
            } else {
                0int
            },
        )
    }
}

/// Index of the first close parenthesis with no matching open one.
pub open spec fn first_unmatched_close(tokens: Seq<Spanned<Token>>) -> Option<int> {
    first_unmatched_close_from(tokens, 0, 0)
}

/// The tokens of a stack of open scopes, outermost first, with the open
/// parenthesis that began each unfinished scope written before it.
pub open spec fn stack_tokens(stack: Seq<Seq<TokenTree>>) -> Seq<Token>
    decreases stack.len(),
{
    if stack.len() == 0 {
        Seq::empty()
    } else if stack.len() == 1 {
        forest_tokens(stack[0])
    } else {
        stack_tokens(stack.drop_last()) + seq![Token::Parenthesis(Parenthesis::Open)]
            + forest_tokens(stack.last())
    }
}

/// The leaves of a stack of open scopes, outermost first.
pub open spec fn stack_leaves(stack: Seq<Seq<TokenTree>>) -> Seq<Spanned<Token>>
    decreases stack.len(),
{
    if stack.len() == 0 {
        Seq::empty()
    } else {
        stack_leaves(stack.drop_last()) + forest_leaves(stack.last())
    }
}

/// The tokens of every scope on the stack but the innermost, each
/// unfinished scope preceded by its open parenthesis.
pub open spec fn stack_tokens_prefix(stack: Seq<Seq<TokenTree>>) -> Seq<Token> {
    if stack.len() <= 1 {
        Seq::empty()
    } else {
        stack_tokens(stack.drop_last()) + seq![Token::Parenthesis(Parenthesis::Open)]
    }
}

/// A stack's tokens split at its innermost scope.
proof fn lemma_stack_last(stack: Seq<Seq<TokenTree>>)
    requires
        stack.len() >= 1,
    ensures
        stack_tokens(stack) == stack_tokens_prefix(stack) + forest_tokens(stack.last()),
        stack_leaves(stack) == stack_leaves(stack.drop_last()) + forest_leaves(stack.last()),
{
    if stack.len() == 1 {
        assert(stack[0] == stack.last());
        assert(stack_tokens(stack) =~= Seq::<Token>::empty() + forest_tokens(stack.last()));
    }
}

/// Appending one tree appends its tokens.
proof fn lemma_forest_tokens_push(trees: Seq<TokenTree>, tree: TokenTree)
    ensures
        forest_tokens(trees.push(tree)) == forest_tokens(trees) + tt_tokens(tree),
        forest_leaves(trees.push(tree)) == forest_leaves(trees) + tt_leaves(tree),
    decreases trees.len(),
{
    if trees.len() == 0 {
        assert(trees.push(tree).drop_first() =~= Seq::<TokenTree>::empty());
        assert(trees.push(tree)[0] == tree);
        assert(forest_tokens(Seq::<TokenTree>::empty()) == Seq::<Token>::empty());
        assert(forest_leaves(Seq::<TokenTree>::empty()) == Seq::<Spanned<Token>>::empty());
        assert(forest_tokens(trees.push(tree)) =~= forest_tokens(trees) + tt_tokens(tree));
        assert(forest_leaves(trees.push(tree)) =~= forest_leaves(trees) + tt_leaves(tree));
    } else {
        lemma_forest_tokens_push(trees.drop_first(), tree);
        assert(trees.push(tree).drop_first() =~= trees.drop_first().push(tree));
        assert(trees.push(tree)[0] == trees[0]);
        assert(forest_tokens(trees.push(tree)) == tt_tokens(trees[0]) + forest_tokens(
            trees.drop_first().push(tree),
        ));
        assert(forest_tokens(trees) == tt_tokens(trees[0]) + forest_tokens(trees.drop_first()));
        assert(forest_tokens(trees.push(tree)) =~= forest_tokens(trees) + tt_tokens(tree));
        assert(forest_leaves(trees.push(tree)) == tt_leaves(trees[0]) + forest_leaves(
            trees.drop_first().push(tree),
        ));
        assert(forest_leaves(trees) == tt_leaves(trees[0]) + forest_leaves(trees.drop_first()));
        assert(forest_leaves(trees.push(tree)) =~= forest_leaves(trees) + tt_leaves(tree));
    }
}

/// Parse a flat sequence of tokens into a sequence of token trees.
///
/// On success the input was balanced, and the returned forest carries
/// exactly the input tokens: writing parentheses around each scope
/// restores the token values in order, and the leaves alone are exactly
/// the non-parenthesis tokens with their spans.  On failure the input
/// was unbalanced: a close parenthesis with no open one is reported at
/// its own span, unclosed open parentheses with no location.
pub fn parse_scopes(tokens: Vec<Spanned<Token>>) -> (r: Result<Vec<TokenTree>, Error>)
    ensures
        match r {
            Result::Ok(forest) => balanced(tokens@) && forest_tokens(forest@) == tokens@.map_values(
                |t: Spanned<Token>| t.0,
            ) && forest_leaves(forest@) == tokens@.filter(|t: Spanned<Token>| non_paren(t)),
            Result::Err(e) => {
                &&& !balanced(tokens@)
                &&& e.kind == ErrorKind::UnbalancedParenthesis
                &&& e.next_error is None
                &&& match first_unmatched_close(tokens@) {
                    Option::Some(i) => e.location == tokens@[i].1 && e.message@
                        == "unmatched close parenthesis"@,
                    Option::None => e.location == Span::Unknown,
                }
            },
        },
{
    let ghost all = tokens@;
    let ghost toks = all.map_values(|t: Spanned<Token>| t.0);
    let ghost keep = |t: Spanned<Token>| non_paren(t);

    let mut scope_stack: Vec<Vec<TokenTree>> = Vec::new();
    scope_stack.push(Vec::new());
    let mut paren_depth: usize = 0;

    let mut idx: usize = 0;
    proof {
        reveal(Seq::filter);
        assert(all.take(0) =~= Seq::<Spanned<Token>>::empty());
        assert(all.take(0).map_values(|t: Spanned<Token>| t.0) =~= Seq::<Token>::empty());
        assert(all.take(0).filter(keep) =~= Seq::<Spanned<Token>>::empty());
        assert(scope_stack@.map_values(|v: Vec<TokenTree>| v@) =~= seq![
            Seq::<TokenTree>::empty(),
        ]);
        assert(forest_tokens(Seq::<TokenTree>::empty()) == Seq::<Token>::empty());
        assert(forest_leaves(Seq::<TokenTree>::empty()) == Seq::<Spanned<Token>>::empty());
        assert(seq![Seq::<TokenTree>::empty()].drop_last() =~= Seq::<Seq<TokenTree>>::empty());
        assert(stack_leaves(Seq::<Seq<TokenTree>>::empty()) == Seq::<Spanned<Token>>::empty());
        assert(seq![Seq::<TokenTree>::empty()].last() =~= Seq::<TokenTree>::empty());
        assert(stack_leaves(seq![Seq::<TokenTree>::empty()]) =~= Seq::<Spanned<Token>>::empty());
    }
    while idx < tokens.len()
        invariant
            idx <= all.len(),
            tokens@ == all,
            keep == |t: Spanned<Token>| non_paren(t),
            paren_depth <= idx,
            scope_stack@.len() == paren_depth + 1,
            paren_depth == depth_of(all.take(idx as int)),
            forall|j: int| 0 <= j <= idx ==> depth_of(#[trigger] all.take(j)) >= 0,
            first_unmatched_close_from(all, idx as int, paren_depth as int)
                == first_unmatched_close(all),
            stack_tokens(scope_stack@.map_values(|v: Vec<TokenTree>| v@)) == all.take(
                idx as int,
            ).map_values(|t: Spanned<Token>| t.0),
            stack_leaves(scope_stack@.map_values(|v: Vec<TokenTree>| v@)) == all.take(
                idx as int,
            ).filter(keep),
        decreases all.len() - idx,
    {
        let ghost stack0 = scope_stack@.map_values(|v: Vec<TokenTree>| v@);
        let ghost d0 = paren_depth as int;
        let ghost prefix0 = all.take(idx as int);
        let ghost prefix1 = all.take(idx + 1);
        proof {
            assert(prefix1.drop_last() =~= prefix0);
            assert(prefix1.last() == all[idx as int]);
            assert(prefix1.map_values(|t: Spanned<Token>| t.0) =~= prefix0.map_values(
                |t: Spanned<Token>| t.0,
            ).push(all[idx as int].0));
        }
        let token = tokens[idx];
        match token.0 {
            Token::Parenthesis(Parenthesis::Open) => {
                paren_depth = paren_depth + 1;
                scope_stack.push(Vec::new());
                proof {
                    reveal(Seq::filter);
                    let stack1 = scope_stack@.map_values(|v: Vec<TokenTree>| v@);
                    assert(stack1.drop_last() =~= stack0);
                    assert(stack1.last() =~= Seq::<TokenTree>::empty());
                    assert(forest_tokens(Seq::<TokenTree>::empty()) == Seq::<Token>::empty());
                    assert(forest_leaves(Seq::<TokenTree>::empty()) == Seq::<Spanned<
                        Token,
                    >>::empty());
                    assert(first_unmatched_close_from(all, idx as int, d0)
                        == first_unmatched_close_from(all, idx + 1, d0 + 1));
                    assert(stack_tokens(stack1) =~= stack_tokens(stack0) + seq![
                        Token::Parenthesis(Parenthesis::Open),
                    ]);
                    assert(stack_tokens(stack1) =~= prefix1.map_values(|t: Spanned<Token>| t.0));
                    assert(stack_leaves(stack1) =~= stack_leaves(stack0));
                    assert(prefix1.filter(keep) =~= prefix0.filter(keep));
                }
            },
            Token::Parenthesis(Parenthesis::Close) => {
                if paren_depth > 0 {
                    paren_depth = paren_depth - 1;
                    let scope = scope_stack.pop().unwrap();
                    let tt = TokenTree::ParenScope(scope);
                    let mut top = scope_stack.pop().unwrap();
                    let ghost top0 = top@;
                    top.push(tt);
                    scope_stack.push(top);
                    proof {
                        reveal(Seq::filter);
                        let stack1 = scope_stack@.map_values(|v: Vec<TokenTree>| v@);
                        let n = stack0.len();
                        let opn = Token::Parenthesis(Parenthesis::Open);
                        let cls = Token::Parenthesis(Parenthesis::Close);
                        assert(n >= 2);
                        assert(stack1.len() == n - 1);
                        assert(stack1.drop_last() =~= stack0.drop_last().drop_last());
                        assert(top0 == stack0[n - 2]);
                        assert(scope@ == stack0[n - 1]);
                        assert(stack1.last() =~= stack0[n - 2].push(tt));
                        lemma_forest_tokens_push(stack0[n - 2], tt);
                        assert(stack0.drop_last().last() == stack0[n - 2]);
                        assert(stack0.last() == stack0[n - 1]);
                        assert(tt_tokens(tt) == seq![opn] + forest_tokens(stack0[n - 1]) + seq![
                            cls,
                        ]);
                        assert(tt_leaves(tt) == forest_leaves(stack0[n - 1]));
                        assert(stack_tokens(stack0) == stack_tokens(stack0.drop_last()) + seq![opn]
                            + forest_tokens(stack0.last()));
                        lemma_stack_last(stack0.drop_last());
                        lemma_stack_last(stack1);
                        assert(stack_tokens_prefix(stack1) =~= stack_tokens_prefix(
                            stack0.drop_last(),
                        ));
                        assert(stack_tokens(stack1) =~= stack_tokens(stack0) + seq![cls]);
                        assert(stack_tokens(stack1) =~= prefix1.map_values(
                            |t: Spanned<Token>| t.0,
                        ));
                        assert(stack_leaves(stack0) == stack_leaves(stack0.drop_last())
                            + forest_leaves(stack0.last()));
                        assert(stack_leaves(stack0.drop_last()) == stack_leaves(
                            stack0.drop_last().drop_last(),
                        ) + forest_leaves(stack0[n - 2]));
                        assert(stack_leaves(stack1) =~= stack_leaves(stack0));
                        assert(prefix1.filter(keep) =~= prefix0.filter(keep));
                        assert(first_unmatched_close_from(all, idx as int, d0)
                            == first_unmatched_close_from(all, idx + 1, d0 - 1));
                    }
                } else {
                    proof {
                        assert(depth_of(prefix1) < 0);
                        assert(!balanced(all)) by {
                            if balanced(all) {
                                assert(depth_of(all.take(idx + 1)) >= 0);
                            }
                        }
                        assert(first_unmatched_close(all) == Option::Some(idx as int));
                        reveal_strlit("unmatched close parenthesis");
                    }
                    return Result::Err(
                        Error {
                            message: "unmatched close parenthesis".to_owned(),
                            location: token.1,
                            kind: ErrorKind::UnbalancedParenthesis,
                            next_error: Option::None,
                        },
                    );
                }
            },
            _ => {
                let mut top = scope_stack.pop().unwrap();
                let ghost top0 = top@;
                let tt = TokenTree::Token(token);
                top.push(tt);
                scope_stack.push(top);
                proof {
                    reveal(Seq::filter);
                    let stack1 = scope_stack@.map_values(|v: Vec<TokenTree>| v@);
                    let n = stack0.len();
                    assert(stack1.drop_last() =~= stack0.drop_last());
                    assert(top0 == stack0[n - 1]);
                    assert(stack1.last() =~= stack0[n - 1].push(tt));
                    lemma_forest_tokens_push(stack0[n - 1], tt);
                    assert(top0 == stack0.last());
                    lemma_stack_last(stack0);
                    lemma_stack_last(stack1);
                    assert(stack_tokens_prefix(stack1) =~= stack_tokens_prefix(stack0));
                    assert(stack_tokens(stack1) =~= prefix1.map_values(|t: Spanned<Token>| t.0));
                    assert(first_unmatched_close_from(all, idx as int, d0)
                        == first_unmatched_close_from(all, idx + 1, d0));
                    assert(tt_leaves(tt) =~= seq![all[idx as int]]);
                    assert(stack1.drop_last() =~= stack0.drop_last());
                    assert(stack_leaves(stack1) =~= stack_leaves(stack0).push(all[idx as int]));
                    assert(prefix1.filter(keep) =~= prefix0.filter(keep).push(all[idx as int]));
                }
            },
        }
        proof {
            assert(depth_of(prefix1) >= 0);
            assert forall|j: int| 0 <= j <= idx + 1 implies depth_of(
                #[trigger] all.take(j),
            ) >= 0 by {
                if j == idx + 1 {
                    assert(all.take(j) =~= prefix1);
                }
            }
        }
        idx = idx + 1;
    }
    proof {
        assert(all.take(all.len() as int) =~= all);
    }
    if paren_depth > 0 {
        let mut message = decimal_string(paren_depth as u128);
        message.append(" unclosed parenthesis");
        return Result::Err(
            Error {
                message,
                location: Span::Unknown,
                kind: ErrorKind::UnbalancedParenthesis,
                next_error: Option::None,
            },
        );
    }
    let ghost stack_view = scope_stack@.map_values(|v: Vec<TokenTree>| v@);
    let forest = scope_stack.pop().unwrap();
    proof {
        assert(stack_view.len() == 1);
        assert(stack_view[0] == forest@);
        assert(stack_tokens(stack_view) == forest_tokens(forest@));
        assert(stack_view.drop_last() =~= Seq::<Seq<TokenTree>>::empty());
        assert(stack_leaves(Seq::<Seq<TokenTree>>::empty()) == Seq::<Spanned<Token>>::empty());
        assert(stack_view.last() == forest@);
        assert(stack_leaves(stack_view) =~= forest_leaves(forest@));
    }
    Result::Ok(forest)
}


/// The activation-pattern value of a leaf, with its span, if the tree
/// is such a leaf.
pub open spec fn leaf_activation(tree: TokenTree) -> Option<Spanned<ActivationPattern>> {
    match tree {
        TokenTree::Token(leaf) => match leaf.0 {
            Token::ActivationPattern(ap) => Option::Some(Spanned(ap, leaf.1)),
            _ => Option::None,
        },
        TokenTree::ParenScope(_) => Option::None,
    }
}

/// The tree is a leaf holding a colon.
pub open spec fn is_colon_leaf(tree: TokenTree) -> bool {
    tree matches TokenTree::Token(leaf) && leaf.0 == Token::Colon
}

fn wrong_token(expected: &str, found: &str, location: Span) -> (e: Error)
    ensures
        e.kind == ErrorKind::WrongTokenType,
        e.location == location,
        e.next_error is None,
{
    let mut message = String::from_str("required ");
    message.append(expected);
    message.append(", found ");
    message.append(found);
    Error { message, location, kind: ErrorKind::WrongTokenType, next_error: Option::None }
}

fn token_brief(token: &Token) -> (s: &'static str) {
    match token {
        Token::Operator(_) => "operator",
        Token::BitLiteral(_) => "bit literal",
        Token::IoLiteral(_) => "io literal",
        Token::MemoryRead(_) => "memory read",
        Token::Parenthesis(_) => "parenthesis",
        Token::ActivationPattern(_) => "activation pattern",
        Token::Colon => "colon",
        Token::Whitespace => "whitespace",
        Token::Comment => "comment",
    }
}

/// Split syntax into parts of the program.
///
/// Exactly two leading leaves are consumed: an activation pattern and a
/// colon.  Whatever follows is returned untouched as the prefix rule.
/// A missing or wrongly shaped element is a `WrongTokenType` error at
/// that element's span, or with no location at the end of the tokens.
pub fn program_parts(tokens: Vec<TokenTree>) -> (r: Result<ProgramParts, Error>)
    ensures
        match r {
            Result::Ok(parts) => {
                &&& tokens@.len() >= 2
                &&& leaf_activation(tokens@[0]) == Option::Some(parts.activation)
                &&& is_colon_leaf(tokens@[1])
                &&& parts.prefix_rule@ == tokens@.skip(2)
            },
            Result::Err(e) => {
                &&& e.kind == ErrorKind::WrongTokenType
                &&& e.next_error is None
                &&& if tokens@.len() == 0 {
                    e.location == Span::Unknown
                } else if leaf_activation(tokens@[0]) is None {
                    e.location == tt_span(tokens@[0])
                } else if tokens@.len() == 1 {
                    e.location == Span::Unknown
                } else {
                    !is_colon_leaf(tokens@[1]) && e.location == tt_span(tokens@[1])
                }
            },
        },
{
    let ghost all = tokens@;
    let mut tokens = tokens;
    if tokens.len() == 0 {
        return Result::Err(wrong_token("activation pattern", "end of tokens", Span::Unknown));
    }
    let first = tokens.remove(0);
    let activation = match &first {
        TokenTree::Token(leaf) => {
            match leaf.0.to_activation_pattern() {
                Option::Some(ap) => Spanned(ap, leaf.1),
                Option::None => {
                    return Result::Err(
                        wrong_token("activation pattern", token_brief(&leaf.0), leaf.1),
                    );
                },
            }
        },
        TokenTree::ParenScope(_) => {
            let location = first.span();
            return Result::Err(wrong_token("activation pattern", "parenthesis", location));
        },
    };
    if tokens.len() == 0 {
        return Result::Err(wrong_token("colon", "end of tokens", Span::Unknown));
    }
    let second = tokens.remove(0);
    match &second {
        TokenTree::Token(leaf) => {
            match leaf.0.to_colon() {
                Option::Some(_) => {},
                Option::None => {
                    return Result::Err(wrong_token("colon", token_brief(&leaf.0), leaf.1));
                },
            }
        },
        TokenTree::ParenScope(_) => {
            let location = second.span();
            return Result::Err(wrong_token("colon", "parenthesis", location));
        },
    }
    proof {
        assert(tokens@ =~= all.skip(2));
    }
    Result::Ok(ProgramParts { activation, prefix_rule: tokens })
}


/// A pending prefix operator: the operation, the expression-stack depth
/// when it was read, and how many operands it still requires.
#[derive(Copy, Clone, PartialEq, Eq, Structural, Debug)]
pub struct Prefix {
    /// The operation the operator compiles to.
    pub op: OpInstr,
    /// Expression-stack length at the moment the operator was seen.
    pub beneath: usize,
    /// Number of operands the operator consumes.
    pub needs: usize,
}

/// The state of the expression compiler: completed subprograms and
/// pending prefix operators.
pub type ExprState = (Seq<Seq<Spanned<Instr>>>, Seq<Spanned<Prefix>>);

/// The operation that a source operator compiles to.
pub open spec fn operator_instr(op: Operator) -> OpInstr {
    match op {
        Operator::Both => OpInstr::Both,
        Operator::Either => OpInstr::Either,
        Operator::Different => OpInstr::Different,
        Operator::Not => OpInstr::Not,
        Operator::Same => OpInstr::Same,
        Operator::Neither => OpInstr::Neither,
    }
}

/// The operation of an operator token, if the token is one.
pub open spec fn spec_operator(t: Token) -> Option<OpInstr> {
    match t {
        Token::Operator(op) => Option::Some(operator_instr(op)),
        _ => Option::None,
    }
}

/// The packed truth table of a bit literal.
pub open spec fn bit_literal_byte(b: BitLiteral) -> u8 {
    match b {
        BitLiteral::Yes => 0x0f,
        BitLiteral::No => 0x00,
    }
}

/// The packed truth table of an io literal.
pub open spec fn io_literal_byte(io: IoLiteral) -> u8 {
    match io {
        IoLiteral::Input => 0x0c,
        IoLiteral::Output => 0x0a,
    }
}

/// The push instruction of a literal token, if the token is one.
pub open spec fn spec_push_value(t: Token) -> Option<PushInstr> {
    match t {
        Token::BitLiteral(b) => Option::Some(PushInstr::Push(IoTruthTable(bit_literal_byte(b)))),
        Token::IoLiteral(io) => Option::Some(PushInstr::Push(IoTruthTable(io_literal_byte(io)))),
        Token::MemoryRead(MemoryRead(offset)) => Option::Some(PushInstr::ReadThenPush { offset }),
        _ => Option::None,
    }
}

/// The code of the top `k` expressions, the most recently pushed first.
pub open spec fn concat_operands(exprs: Seq<Seq<Spanned<Instr>>>, k: int) -> Seq<Spanned<Instr>>
    decreases k,
{
    if k <= 0 {
        Seq::empty()
    } else {
        concat_operands(exprs, k - 1) + exprs[exprs.len() - k]
    }
}

/// Pop every pending operator whose operands are all on the expression
/// stack, replacing its operands with one merged postfix subprogram:
/// the operands' code in pop order, then the operation.
pub open spec fn spec_collapse(st: ExprState) -> ExprState
    decreases st.1.len(),
{
    if st.1.len() == 0 {
        st
    } else {
        let top = st.1.last();
        if st.0.len() == top.0.beneath + top.0.needs {
            let merged = concat_operands(st.0, top.0.needs as int).push(
                Spanned(Instr::Operation(top.0.op), top.1),
            );
            spec_collapse((st.0.take(st.0.len() - top.0.needs).push(merged), st.1.drop_last()))
        } else {
            st
        }
    }
}

/// One step of the expression compiler on one tree, followed by a full
/// collapse.
pub open spec fn spec_expr_step(st: ExprState, elem: TokenTree) -> Result<
    ExprState,
    Seq<(ErrorKind, Span)>,
>
    decreases elem, 2int,
{
    match elem {
        TokenTree::Token(leaf) => {
            if spec_operator(leaf.0) is Some {
                let op = spec_operator(leaf.0)->Some_0;
                let prefix = Prefix {
                    op,
                    beneath: st.0.len() as usize,
                    needs: op.spec_arity() as usize,
                };
                Result::Ok(spec_collapse((st.0, st.1.push(Spanned(prefix, leaf.1)))))
            } else if spec_push_value(leaf.0) is Some {
                let value = spec_push_value(leaf.0)->Some_0;
                let single = seq![Spanned(Instr::Value(value), leaf.1)];
                Result::Ok(spec_collapse((st.0.push(single), st.1)))
            } else {
                Result::Err(seq![(ErrorKind::WrongTokenType, leaf.1)])
            }
        },
        TokenTree::ParenScope(scope) => {
            match spec_body(scope@) {
                Result::Err(errs) => Result::Err(errs),
                Result::Ok(exprs) => {
                    if exprs.len() == 1 {
                        Result::Ok(spec_collapse((st.0.push(exprs[0]), st.1)))
                    } else {
                        Result::Err(
                            seq![
                                (
                                    ErrorKind::TooManyExprsInParenthesis,
                                    spec_merge_all(forest_spans(scope@)),
                                ),
                            ],
                        )
                    }
                },
            }
        },
    }
}

/// Run the expression compiler over a sequence of trees.
pub open spec fn spec_run(st: ExprState, elems: Seq<TokenTree>) -> Result<
    ExprState,
    Seq<(ErrorKind, Span)>,
>
    decreases elems, 0int,
{
    if elems.len() == 0 {
        Result::Ok(st)
    } else {
        match spec_expr_step(st, elems[0]) {
            Result::Err(errs) => Result::Err(errs),
            Result::Ok(st2) => spec_run(st2, elems.drop_first()),
        }
    }
}

/// Compile one scope body: the fully reduced subprograms it decomposes
/// into, or the error records of the failure.  An operator left waiting
/// for operands at the end of the scope contributes one
/// `NotEnoughOperands` record, in the order the operators were opened.
pub open spec fn spec_body(elems: Seq<TokenTree>) -> Result<
    Seq<Seq<Spanned<Instr>>>,
    Seq<(ErrorKind, Span)>,
>
    decreases elems, 1int,
{
    match spec_run((Seq::empty(), Seq::empty()), elems) {
        Result::Err(errs) => Result::Err(errs),
        Result::Ok(st) => {
            if st.1.len() > 0 {
                Result::Err(
                    st.1.map_values(|p: Spanned<Prefix>| (ErrorKind::NotEnoughOperands, p.1)),
                )
            } else {
                Result::Ok(st.0)
            }
        },
    }
}

/// Token within an expression, categorized between operands and
/// operators.
enum ExprToken<'s> {
    Literal(Spanned<PushInstr>),
    Op(Spanned<OpInstr>),
    Scope(&'s Vec<TokenTree>),
}

proof fn lemma_packed_nibble(w: u8, b0: bool, b1: bool, b2: bool, b3: bool)
    requires
        w < 16,
        (w & 1 == 1) == b0,
        ((w >> 1) & 1 == 1) == b1,
        ((w >> 2) & 1 == 1) == b2,
        ((w >> 3) & 1 == 1) == b3,
    ensures
        w == (if b0 { 1u8 } else { 0u8 }) + (if b1 { 2u8 } else { 0u8 }) + (if b2 {
            4u8
        } else {
            0u8
        }) + (if b3 { 8u8 } else { 0u8 }),
{
    assert(w == (if b0 { 1u8 } else { 0u8 }) + (if b1 { 2u8 } else { 0u8 }) + (if b2 {
        4u8
    } else {
        0u8
    }) + (if b3 { 8u8 } else { 0u8 })) by (bit_vector)
        requires
            w < 16,
            (w & 1 == 1) == b0,
            ((w >> 1) & 1 == 1) == b1,
            ((w >> 2) & 1 == 1) == b2,
            ((w >> 3) & 1 == 1) == b3,
    ;
}

/// Helper for `syntax_to_expression`: classify one tree.
fn tt_to_expr_token<'s>(token: &'s TokenTree) -> (r: Result<ExprToken<'s>, Error>)
    ensures
        match r {
            Result::Ok(et) => match et {
                ExprToken::Literal(value) => *token matches TokenTree::Token(leaf)
                    && spec_operator(leaf.0) is None && spec_push_value(leaf.0)
                    == Option::Some(value.0) && value.1 == leaf.1,
                ExprToken::Op(op) => *token matches TokenTree::Token(leaf) && spec_operator(leaf.0)
                    == Option::Some(op.0) && op.1 == leaf.1,
                ExprToken::Scope(scope) => *token matches TokenTree::ParenScope(trees) && scope@
                    == trees@,
            },
            Result::Err(e) => {
                &&& *token matches TokenTree::Token(leaf) && spec_operator(leaf.0) is None
                    && spec_push_value(leaf.0) is None && e.location == leaf.1
                &&& e.kind == ErrorKind::WrongTokenType
                &&& e.next_error is None
                &&& e.spec_records() == seq![
                    (ErrorKind::WrongTokenType, token->Token_0.1),
                ]
            },
        },
{
    match token {
        TokenTree::Token(leaf) => {
            let Spanned(tok, span) = *leaf;
            match tok {
                Token::Operator(inner) => {
                    let op = OpInstr::from(inner);
                    Result::Ok(ExprToken::Op(Spanned(op, span)))
                },
                Token::BitLiteral(inner) => {
                    let table = match inner {
                        BitLiteral::Yes => IoTruthTable::yes_unconditional(),
                        BitLiteral::No => IoTruthTable::no_unconditional(),
                    };
                    let packed = table.pack_bitfield();
                    proof {
                        lemma_packed_nibble(
                            packed.0,
                            packed.spec_lookup(false, false),
                            packed.spec_lookup(false, true),
                            packed.spec_lookup(true, false),
                            packed.spec_lookup(true, true),
                        );
                        assert(packed.0 == bit_literal_byte(inner));
                    }
                    let push = PushInstr::Push(packed);
                    Result::Ok(ExprToken::Literal(Spanned(push, span)))
                },
                Token::IoLiteral(inner) => {
                    let table = match inner {
                        IoLiteral::Input => IoTruthTable::input_conditional(),
                        IoLiteral::Output => IoTruthTable::output_conditional(),
                    };
                    let packed = table.pack_bitfield();
                    proof {
                        lemma_packed_nibble(
                            packed.0,
                            packed.spec_lookup(false, false),
                            packed.spec_lookup(false, true),
                            packed.spec_lookup(true, false),
                            packed.spec_lookup(true, true),
                        );
                        assert(packed.0 == io_literal_byte(inner));
                    }
                    let push = PushInstr::Push(packed);
                    Result::Ok(ExprToken::Literal(Spanned(push, span)))
                },
                Token::MemoryRead(MemoryRead(offset)) => {
                    let push = PushInstr::ReadThenPush { offset };
                    Result::Ok(ExprToken::Literal(Spanned(push, span)))
                },
                _ => {
                    let e = wrong_token("some expression token", token_brief(&tok), span);
                    Result::Err(e)
                },
            }
        },
        TokenTree::ParenScope(trees) => Result::Ok(ExprToken::Scope(trees)),
    }
}

fn should_collapse(expr_len: usize, top: &Spanned<Prefix>) -> (b: bool)
    ensures
        b == (expr_len == top.0.beneath + top.0.needs),
{
    match top.0.beneath.checked_add(top.0.needs) {
        Option::Some(sum) => expr_len == sum,
        Option::None => false,
    }
}

/// Collapse every satisfied pending operator on top of the stacks.
fn collapse_stacks(expr_stack: &mut Vec<ExprSubprogram>, prefix_stack: &mut Vec<Spanned<Prefix>>)
    ensures
        ({
            let st = spec_collapse(
                (old(expr_stack)@.map_values(|v: Vec<Spanned<Instr>>| v@), old(prefix_stack)@),
            );
            &&& final(expr_stack)@.map_values(|v: Vec<Spanned<Instr>>| v@) == st.0
            &&& final(prefix_stack)@ == st.1
        }),
{
    let ghost st_init: ExprState = (
        expr_stack@.map_values(|v: Vec<Spanned<Instr>>| v@),
        prefix_stack@,
    );
    while prefix_stack.len() > 0 && should_collapse(
        expr_stack.len(),
        &prefix_stack[prefix_stack.len() - 1],
    )
        invariant
            spec_collapse(st_init) == spec_collapse(
                (expr_stack@.map_values(|v: Vec<Spanned<Instr>>| v@), prefix_stack@),
            ),
        decreases prefix_stack@.len(),
    {
        let ghost st0: ExprState = (
            expr_stack@.map_values(|v: Vec<Spanned<Instr>>| v@),
            prefix_stack@,
        );
        let top = prefix_stack.pop().unwrap();
        let needs = top.0.needs;
        let ghost estack0 = st0.0;
        let mut merged: Vec<Spanned<Instr>> = Vec::new();
        let mut j: usize = 0;
        proof {
            assert(st0.0.len() == top.0.beneath + top.0.needs);
        }
        while j < needs
            invariant
                j <= needs,
                needs <= estack0.len(),
                expr_stack@.map_values(|v: Vec<Spanned<Instr>>| v@) =~= estack0.take(
                    estack0.len() - j,
                ),
                merged@ == concat_operands(estack0, j as int),
            decreases needs - j,
        {
            let mut operand = expr_stack.pop().unwrap();
            proof {
                let cur = estack0.take(estack0.len() - j);
                assert(cur.last() == estack0[estack0.len() - j - 1]);
                assert(cur.drop_last() =~= estack0.take(estack0.len() - (j + 1)));
            }
            merged.append(&mut operand);
            j += 1;
            proof {
                assert(expr_stack@.map_values(|v: Vec<Spanned<Instr>>| v@) =~= estack0.take(
                    estack0.len() - j,
                ));
            }
        }
        merged.push(Spanned(Instr::Operation(top.0.op), top.1));
        expr_stack.push(merged);
        proof {
            let st1: ExprState = (
                expr_stack@.map_values(|v: Vec<Spanned<Instr>>| v@),
                prefix_stack@,
            );
            let spec_merged = concat_operands(st0.0, top.0.needs as int).push(
                Spanned(Instr::Operation(top.0.op), top.1),
            );
            assert(st1.0 =~= st0.0.take(st0.0.len() - top.0.needs).push(spec_merged));
            assert(st1.1 == st0.1.drop_last());
            assert(spec_collapse(st0) == spec_collapse(st1));
        }
    }
    proof {
        let st_end: ExprState = (
            expr_stack@.map_values(|v: Vec<Spanned<Instr>>| v@),
            prefix_stack@,
        );
        assert(spec_collapse(st_end) == st_end);
    }
}

/// Convert syntax for an expression into bytecode.
///
/// The result is exactly what the expression automaton of
/// [`spec_body`] produces on the same trees: the fully reduced postfix
/// subprograms on success, and the same error records on failure.
pub fn syntax_to_expression(syntax: &Vec<TokenTree>) -> (r: Result<Vec<ExprSubprogram>, Error>)
    ensures
        match r {
            Result::Ok(exprs) => spec_body(syntax@) matches Result::Ok(es) && exprs@.map_values(
                |v: Vec<Spanned<Instr>>| v@,
            ) == es,
            Result::Err(e) => spec_body(syntax@) matches Result::Err(recs) && e.spec_records()
                == recs,
        },
    decreases syntax@,
{
    let ghost all = syntax@;
    let ghost init: ExprState = (Seq::empty(), Seq::empty());
    let mut expr_stack: Vec<ExprSubprogram> = Vec::new();
    let mut prefix_stack: Vec<Spanned<Prefix>> = Vec::new();
    let mut i: usize = 0;
    proof {
        assert(all.skip(0) =~= all);
        assert(expr_stack@.map_values(|v: Vec<Spanned<Instr>>| v@) =~= Seq::<
            Seq<Spanned<Instr>>,
        >::empty());
    }
    while i < syntax.len()
        invariant
            i <= all.len(),
            syntax@ == all,
            init == (Seq::<Seq<Spanned<Instr>>>::empty(), Seq::<Spanned<Prefix>>::empty()),
            spec_run(init, all) == spec_run(
                (expr_stack@.map_values(|v: Vec<Spanned<Instr>>| v@), prefix_stack@),
                all.skip(i as int),
            ),
        decreases all.len() - i,
    {
        let ghost st0: ExprState = (
            expr_stack@.map_values(|v: Vec<Spanned<Instr>>| v@),
            prefix_stack@,
        );
        let ghost rest0 = all.skip(i as int);
        proof {
            assert(rest0.len() > 0);
            assert(rest0[0] == all[i as int]);
            assert(rest0.drop_first() =~= all.skip(i + 1));
        }
        let elem = &syntax[i];
        match tt_to_expr_token(elem) {
            Result::Err(e) => {
                proof {
                    assert(*elem == all[i as int]);
                    let recs = seq![(ErrorKind::WrongTokenType, e.location)];
                    assert(spec_expr_step(st0, all[i as int]) == Result::<ExprState, Seq<(
                        ErrorKind,
                        Span,
                    )>>::Err(recs));
                    assert(spec_run(st0, rest0) == Result::<ExprState, Seq<(
                        ErrorKind,
                        Span,
                    )>>::Err(recs));
                    assert(spec_run(init, all) == Result::<ExprState, Seq<(
                        ErrorKind,
                        Span,
                    )>>::Err(recs));
                    assert(spec_body(all) == Result::<Seq<Seq<Spanned<Instr>>>, Seq<(
                        ErrorKind,
                        Span,
                    )>>::Err(recs));
                }
                return Result::Err(e);
            },
            Result::Ok(ExprToken::Literal(value)) => {
                let mut single: Vec<Spanned<Instr>> = Vec::new();
                single.push(Spanned(Instr::Value(value.0), value.1));
                expr_stack.push(single);
                proof {
                    assert(expr_stack@.map_values(|v: Vec<Spanned<Instr>>| v@) =~= st0.0.push(
                        seq![Spanned(Instr::Value(value.0), value.1)],
                    ));
                }
                collapse_stacks(&mut expr_stack, &mut prefix_stack);
            },
            Result::Ok(ExprToken::Op(op)) => {
                let needs = op.0.arity();
                let prefix = Spanned(
                    Prefix { op: op.0, beneath: expr_stack.len(), needs },
                    op.1,
                );
                prefix_stack.push(prefix);
                collapse_stacks(&mut expr_stack, &mut prefix_stack);
            },
            Result::Ok(ExprToken::Scope(sub)) => {
                proof {
                    assert(all[i as int] == *elem);
                    assert(decreases_to!(all => sub@));
                }
                match syntax_to_expression(sub) {
                    Result::Err(e) => {
                        proof {
                            let recs = spec_body(sub@)->Err_0;
                            assert(spec_expr_step(st0, all[i as int]) == Result::<ExprState, Seq<(
                                ErrorKind,
                                Span,
                            )>>::Err(recs));
                            assert(spec_run(st0, rest0) == Result::<ExprState, Seq<(
                                ErrorKind,
                                Span,
                            )>>::Err(recs));
                            assert(spec_body(all) == Result::<Seq<Seq<Spanned<Instr>>>, Seq<(
                                ErrorKind,
                                Span,
                            )>>::Err(recs));
                        }
                        return Result::Err(e);
                    },
                    Result::Ok(mut sub_programs) => {
                        if sub_programs.len() == 1 {
                            let sub_program = sub_programs.remove(0);
                            proof {
                                let es = spec_body(sub@)->Ok_0;
                                assert(sub_program@ == es[0]);
                            }
                            expr_stack.push(sub_program);
                            proof {
                                assert(expr_stack@.map_values(|v: Vec<Spanned<Instr>>| v@)
                                    =~= st0.0.push(spec_body(sub@)->Ok_0[0]));
                            }
                            collapse_stacks(&mut expr_stack, &mut prefix_stack);
                        } else {
                            let location = elem.span();
                            let mut message = String::from_str(
                                "parenthesis should contain 1 expr, these contained ",
                            );
                            message.append(
                                decimal_string(sub_programs.len() as u128).as_str(),
                            );
                            let e = Error {
                                message,
                                location,
                                kind: ErrorKind::TooManyExprsInParenthesis,
                                next_error: Option::None,
                            };
                            proof {
                                let es = spec_body(sub@)->Ok_0;
                                assert(es.len() == sub_programs@.len());
                                let recs = seq![
                                    (ErrorKind::TooManyExprsInParenthesis, e.location),
                                ];
                                assert(e.location == tt_span(all[i as int]));
                                assert(spec_expr_step(st0, all[i as int]) == Result::<
                                    ExprState,
                                    Seq<(ErrorKind, Span)>,
                                >::Err(recs));
                                assert(spec_run(st0, rest0) == Result::<ExprState, Seq<(
                                    ErrorKind,
                                    Span,
                                )>>::Err(recs));
                                assert(spec_body(all) == Result::<Seq<Seq<Spanned<Instr>>>, Seq<(
                                    ErrorKind,
                                    Span,
                                )>>::Err(recs));
                            }
                            return Result::Err(e);
                        }
                    },
                }
            },
        }
        i += 1;
    }
    proof {
        assert(all.skip(all.len() as int) =~= Seq::<TokenTree>::empty());
    }
    let ghost st_end: ExprState = (
        expr_stack@.map_values(|v: Vec<Spanned<Instr>>| v@),
        prefix_stack@,
    );
    if prefix_stack.len() > 0 {
        let mut errs: Vec<Error> = Vec::new();
        let mut k: usize = 0;
        while k < prefix_stack.len()
            invariant
                k <= prefix_stack@.len(),
                errs@.len() == k,
                forall|j: int|
                    0 <= j < k ==> {
                        &&& (#[trigger] errs@[j]).kind == ErrorKind::NotEnoughOperands
                        &&& errs@[j].location == prefix_stack@[j].1
                        &&& errs@[j].next_error is None
                    },
            decreases prefix_stack@.len() - k,
        {
            errs.push(
                Error {
                    message: "operator missing sufficient number of operands".to_owned(),
                    location: prefix_stack[k].1,
                    kind: ErrorKind::NotEnoughOperands,
                    next_error: Option::None,
                },
            );
            k += 1;
        }
        match Error::chain(errs) {
            Option::Some(e) => {
                proof {
                    let recs = st_end.1.map_values(
                        |p: Spanned<Prefix>| (ErrorKind::NotEnoughOperands, p.1),
                    );
                    assert(e.spec_records() =~= recs);
                }
                Result::Err(e)
            },
            Option::None => vstd::pervasive::unreached(),
        }
    } else {
        Result::Ok(expr_stack)
    }
}

} // verus!
