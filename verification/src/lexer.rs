//! The lexer: source text to spanned tokens.
//!
//! At each position the alternatives are tried in a fixed priority
//! order: comment, operator, bit literal, io literal, memory read,
//! parenthesis, activation pattern, colon, whitespace.  Comments are
//! `((`-`))` pairs nesting to arbitrary depth.  Lexing is greedy and
//! never backtracks across token boundaries; a position where no
//! alternative matches fails the whole lex.  Spans are character
//! offsets into the source.

use vstd::prelude::*;
use vstd::string::{StringExecFns, StrSliceExecFns};
use crate::span::{Span, Spanned, until, spec_until};
use crate::tokens::{Token, Operator, BitLiteral, IoLiteral, MemoryRead, Parenthesis,
ActivationPattern};
use crate::compile::error::decimal_string;

verus! {

/// One more than the largest unsigned 128-bit value.
pub open spec fn pow2_128() -> int {
    0x100000000000000000000000000000000int
}

/// The character is an ASCII hexadecimal digit.
pub open spec fn is_hex_digit(c: char) -> bool {
    (48 <= c as u32 && c as u32 <= 57) || (65 <= c as u32 && c as u32 <= 70) || (97 <= c as u32
        && c as u32 <= 102)
}

/// The value of a hexadecimal digit.
pub open spec fn hex_digit_value(c: char) -> int {
    if 48 <= c as u32 && c as u32 <= 57 {
        c as u32 - 48
    } else if 65 <= c as u32 && c as u32 <= 70 {
        c as u32 - 55
    } else {
        c as u32 - 87
    }
}

/// The value of a sequence of hexadecimal digits, most significant
/// digit first.
pub open spec fn hex_seq_value(digits: Seq<char>) -> int
    decreases digits.len(),
{
    if digits.len() == 0 {
        0
    } else {
        hex_seq_value(digits.drop_last()) * 16 + hex_digit_value(digits.last())
    }
}

/// The character is a space, newline or tab.
pub open spec fn is_space_char(c: char) -> bool {
    c == ' ' || c == '\n' || c == '\t'
}

/// The operator written as this character, if any.
pub open spec fn operator_char(c: char) -> Option<Operator> {
    if c == '&' {
        Option::Some(Operator::Both)
    } else if c == '|' {
        Option::Some(Operator::Either)
    } else if c == '^' {
        Option::Some(Operator::Different)
    } else if c == '~' {
        Option::Some(Operator::Not)
    } else if c == '=' {
        Option::Some(Operator::Same)
    } else if c == '_' {
        Option::Some(Operator::Neither)
    } else {
        Option::None
    }
}

/// End of the maximal run of hexadecimal digits starting at `i`.
pub open spec fn hex_run_end(s: Seq<char>, i: int) -> int
    decreases s.len() - i,
{
    if 0 <= i < s.len() && is_hex_digit(s[i]) {
        hex_run_end(s, i + 1)
    } else {
        i
    }
}

/// End of the maximal run of whitespace characters starting at `i`.
pub open spec fn space_run_end(s: Seq<char>, i: int) -> int
    decreases s.len() - i,
{
    if 0 <= i < s.len() && is_space_char(s[i]) {
        space_run_end(s, i + 1)
    } else {
        i
    }
}

/// Position just after the comment body that starts at `i` with `depth`
/// comment openers still unclosed, or nothing when the input ends
/// first.  At each position a `))` closes one level and a `((` opens
/// one more; any other character is skipped.
pub open spec fn comment_end(s: Seq<char>, i: int, depth: int) -> Option<int>
    decreases s.len() - i,
{
    if depth <= 0 {
        Option::Some(i)
    } else if i + 2 <= s.len() && s[i] == ')' && s[i + 1] == ')' {
        comment_end(s, i + 2, depth - 1)
    } else if i + 2 <= s.len() && s[i] == '(' && s[i + 1] == '(' {
        comment_end(s, i + 2, depth + 1)
    } else if 0 <= i < s.len() {
        comment_end(s, i + 1, depth)
    } else {
        Option::None
    }
}

/// A signed reading of an unsigned 128-bit value, as two's complement.
pub open spec fn as_signed(v: u128) -> int {
    if v < 0x80000000000000000000000000000000 {
        v as int
    } else {
        v as int - pow2_128()
    }
}

/// The memory-read offset written `>` and then the given digits.
pub open spec fn mem_offset_forward(digits: Seq<char>) -> i128 {
    as_signed((hex_seq_value(digits) % pow2_128()) as u128) as i128
}

/// The memory-read offset written `<` and then the given digits: the
/// negation of the forward offset, wrapping on the one value that has
/// no negation.
pub open spec fn mem_offset_backward(digits: Seq<char>) -> i128 {
    let m = mem_offset_forward(digits);
    if m == i128::MIN {
        i128::MIN
    } else {
        (-m) as i128
    }
}

/// The token starting at position `i`, with the position just after it,
/// per the priority order of the grammar.
pub open spec fn spec_token_at(s: Seq<char>, i: int) -> Option<(Token, int)> {
    if i + 2 <= s.len() && s[i] == '(' && s[i + 1] == '(' && comment_end(s, i + 2, 1) is Some {
        Option::Some((Token::Comment, comment_end(s, i + 2, 1)->Some_0))
    } else if i < s.len() && operator_char(s[i]) is Some {
        Option::Some((Token::Operator(operator_char(s[i])->Some_0), i + 1))
    } else if i < s.len() && s[i] == 'y' {
        Option::Some((Token::BitLiteral(BitLiteral::Yes), i + 1))
    } else if i < s.len() && s[i] == 'n' {
        Option::Some((Token::BitLiteral(BitLiteral::No), i + 1))
    } else if i < s.len() && s[i] == 'I' {
        Option::Some((Token::IoLiteral(IoLiteral::Input), i + 1))
    } else if i < s.len() && s[i] == 'O' {
        Option::Some((Token::IoLiteral(IoLiteral::Output), i + 1))
    } else if i < s.len() && s[i] == '*' {
        Option::Some((Token::MemoryRead(MemoryRead(0)), i + 1))
    } else if i < s.len() && s[i] == '>' && hex_run_end(s, i + 1) > i + 1 {
        Option::Some(
            (
                Token::MemoryRead(
                    MemoryRead(mem_offset_forward(s.subrange(i + 1, hex_run_end(s, i + 1)))),
                ),
                hex_run_end(s, i + 1),
            ),
        )
    } else if i < s.len() && s[i] == '<' && hex_run_end(s, i + 1) > i + 1 {
        Option::Some(
            (
                Token::MemoryRead(
                    MemoryRead(mem_offset_backward(s.subrange(i + 1, hex_run_end(s, i + 1)))),
                ),
                hex_run_end(s, i + 1),
            ),
        )
    } else if i < s.len() && s[i] == '(' {
        Option::Some((Token::Parenthesis(Parenthesis::Open), i + 1))
    } else if i < s.len() && s[i] == ')' {
        Option::Some((Token::Parenthesis(Parenthesis::Close), i + 1))
    } else if i < s.len() && hex_run_end(s, i) > i {
        Option::Some(
            (
                Token::ActivationPattern(
                    ActivationPattern((hex_seq_value(s.subrange(i, hex_run_end(s, i))) % pow2_128())
                        as u128),
                ),
                hex_run_end(s, i),
            ),
        )
    } else if i < s.len() && s[i] == ':' {
        Option::Some((Token::Colon, i + 1))
    } else if i < s.len() && is_space_char(s[i]) {
        Option::Some((Token::Whitespace, space_run_end(s, i)))
    } else {
        Option::None
    }
}

/// The spanned tokens of the source from position `i` on, or the
/// position where no token matches.
pub open spec fn spec_lex_from(s: Seq<char>, i: int) -> Result<Seq<Spanned<Token>>, int>
    decreases s.len() - i,
{
    if i >= s.len() {
        Result::Ok(Seq::empty())
    } else {
        match spec_token_at(s, i) {
            Option::None => Result::Err(i),
            Option::Some((t, j)) => {
                if i < j <= s.len() {
                    match spec_lex_from(s, j) {
                        Result::Err(p) => Result::Err(p),
                        Result::Ok(rest) => Result::Ok(
                            seq![
                                Spanned(t, Span::Slice { start: i as usize, end: j as usize }),
                            ] + rest,
                        ),
                    }
                } else {
                    Result::Err(i)
                }
            },
        }
    }
}

/// The spanned tokens of the whole source, or the position where no
/// token matches.
pub open spec fn spec_lex(s: Seq<char>) -> Result<Seq<Spanned<Token>>, int> {
    spec_lex_from(s, 0)
}

/// The ends of runs and comments stay within the input and beyond
/// their start.
pub proof fn lemma_run_bounds(s: Seq<char>, i: int)
    requires
        0 <= i <= s.len(),
    ensures
        i <= hex_run_end(s, i) <= s.len(),
        i <= space_run_end(s, i) <= s.len(),
    decreases s.len() - i,
{
    if i < s.len() {
        lemma_run_bounds(s, i + 1);
    }
}

/// A comment body's end stays within the input and beyond its start.
pub proof fn lemma_comment_end_bounds(s: Seq<char>, i: int, depth: int)
    requires
        0 <= i <= s.len(),
    ensures
        comment_end(s, i, depth) matches Option::Some(j) ==> i <= j <= s.len(),
    decreases s.len() - i,
{
    if depth <= 0 {
    } else if i + 2 <= s.len() && s[i] == ')' && s[i + 1] == ')' {
        lemma_comment_end_bounds(s, i + 2, depth - 1);
    } else if i + 2 <= s.len() && s[i] == '(' && s[i + 1] == '(' {
        lemma_comment_end_bounds(s, i + 2, depth + 1);
    } else if i < s.len() {
        lemma_comment_end_bounds(s, i + 1, depth);
    }
}

/// Every token covers at least one character and ends within the input.
pub proof fn lemma_token_at_advances(s: Seq<char>, i: int)
    requires
        0 <= i <= s.len(),
    ensures
        spec_token_at(s, i) matches Option::Some(tj) ==> i < tj.1 <= s.len(),
{
    if i + 2 <= s.len() && s[i] == '(' && s[i + 1] == '(' && comment_end(s, i + 2, 1) is Some {
        lemma_comment_end_bounds(s, i + 2, 1);
    }
    if i < s.len() {
        lemma_run_bounds(s, i);
        lemma_run_bounds(s, i + 1);
    }
}

fn str_to_chars(code: &str) -> (chars: Vec<char>)
    ensures
        chars@ == code@,
{
    let n = code.unicode_len();
    let mut chars: Vec<char> = Vec::new();
    let mut i: usize = 0;
    while i < n
        invariant
            i <= n,
            n == code@.len(),
            chars@ == code@.take(i as int),
        decreases n - i,
    {
        chars.push(code.get_char(i));
        proof {
            assert(code@.take(i + 1) =~= code@.take(i as int).push(code@[i as int]));
        }
        i += 1;
    }
    proof {
        assert(code@.take(n as int) =~= code@);
    }
    chars
}

fn is_hex_digit_exec(c: char) -> (b: bool)
    ensures
        b == is_hex_digit(c),
{
    let u = c as u32;
    (48 <= u && u <= 57) || (65 <= u && u <= 70) || (97 <= u && u <= 102)
}

fn hex_digit_value_exec(c: char) -> (v: u32)
    requires
        is_hex_digit(c),
    ensures
        v == hex_digit_value(c),
        v < 16,
{
    let u = c as u32;
    if 48 <= u && u <= 57 {
        u - 48
    } else if 65 <= u && u <= 70 {
        u - 55
    } else {
        u - 87
    }
}

fn hex_run_end_exec(chars: &Vec<char>, from: usize) -> (end: usize)
    requires
        from <= chars@.len(),
    ensures
        end == hex_run_end(chars@, from as int),
        from <= end <= chars@.len(),
{
    let mut i = from;
    while i < chars.len() && is_hex_digit_exec(chars[i])
        invariant
            from <= i <= chars@.len(),
            hex_run_end(chars@, from as int) == hex_run_end(chars@, i as int),
        decreases chars@.len() - i,
    {
        i += 1;
    }
    i
}

fn space_run_end_exec(chars: &Vec<char>, from: usize) -> (end: usize)
    requires
        from <= chars@.len(),
    ensures
        end == space_run_end(chars@, from as int),
        from <= end <= chars@.len(),
{
    let mut i = from;
    while i < chars.len() && is_space_exec(chars[i])
        invariant
            from <= i <= chars@.len(),
            space_run_end(chars@, from as int) == space_run_end(chars@, i as int),
        decreases chars@.len() - i,
    {
        i += 1;
    }
    i
}

fn is_space_exec(c: char) -> (b: bool)
    ensures
        b == is_space_char(c),
{
    c == ' ' || c == '\n' || c == '\t'
}

fn comment_end_exec(chars: &Vec<char>, from: usize) -> (r: Option<usize>)
    requires
        from <= chars@.len(),
    ensures
        match r {
            Option::Some(end) => comment_end(chars@, from as int, 1) == Option::Some(end as int)
                && from <= end <= chars@.len(),
            Option::None => comment_end(chars@, from as int, 1) is None,
        },
{
    let ghost s = chars@;
    let mut i = from;
    let mut depth: usize = 1;
    while depth > 0
        invariant
            from <= i <= s.len(),
            s == chars@,
            2 * (depth as int) <= i - from + 2,
            comment_end(s, from as int, 1) == comment_end(s, i as int, depth as int),
        decreases s.len() - i, depth,
    {
        if i < chars.len() && i + 1 < chars.len() && chars[i] == ')' && chars[i + 1] == ')' {
            i += 2;
            depth -= 1;
        } else if i < chars.len() && i + 1 < chars.len() && chars[i] == '(' && chars[i + 1] == '(' {
            i += 2;
            depth += 1;
        } else if i < chars.len() {
            i += 1;
        } else {
            proof {
                assert(comment_end(s, i as int, depth as int) is None);
            }
            return Option::None;
        }
    }
    proof {
        assert(comment_end(s, i as int, 0) == Option::Some(i as int));
    }
    Option::Some(i)
}

fn parse_hex_chars(chars: &Vec<char>, from: usize, to: usize) -> (v: u128)
    requires
        from <= to <= chars@.len(),
        forall|k: int| from <= k < to ==> is_hex_digit(#[trigger] chars@[k]),
    ensures
        v == hex_seq_value(chars@.subrange(from as int, to as int)) % pow2_128(),
{
    let ghost s = chars@;
    let mut accum: u128 = 0;
    let mut i = from;
    proof {
        assert(s.subrange(from as int, from as int) =~= Seq::<char>::empty());
    }
    while i < to
        invariant
            from <= i <= to <= s.len(),
            s == chars@,
            forall|k: int| from <= k < to ==> is_hex_digit(#[trigger] s[k]),
            accum == hex_seq_value(s.subrange(from as int, i as int)) % pow2_128(),
        decreases to - i,
    {
        let d = hex_digit_value_exec(chars[i]);
        let shifted = accum.wrapping_mul(16);
        let next = shifted.wrapping_add(d as u128);
        proof {
            let prefix = s.subrange(from as int, i as int);
            let prefix1 = s.subrange(from as int, i + 1);
            assert(prefix1.drop_last() =~= prefix);
            assert(prefix1.last() == s[i as int]);
            let a = hex_seq_value(prefix);
            let dv = hex_digit_value(s[i as int]) as int;
            let m = pow2_128();
            assert(hex_seq_value(prefix1) == a * 16 + dv);
            assert(accum == a % m);
            vstd::arithmetic::div_mod::lemma_mod_bound(a, m);
            assert(shifted as int == (accum as int * 16) % m);
            vstd::arithmetic::div_mod::lemma_mul_mod_noop_left(a, 16, m);
            assert(shifted as int == (a * 16) % m);
            vstd::arithmetic::div_mod::lemma_mod_bound(a * 16, m);
            let sum = shifted as int + dv;
            if sum > u128::MAX as int {
                vstd::arithmetic::div_mod::lemma_mod_sub_multiples_vanish(sum, m);
                vstd::arithmetic::div_mod::lemma_small_mod((sum - m) as nat, m as nat);
                assert(next as int == sum % m);
            } else {
                vstd::arithmetic::div_mod::lemma_small_mod(sum as nat, m as nat);
                assert(next as int == sum % m);
            }
            vstd::arithmetic::div_mod::lemma_add_mod_noop(a * 16, dv, m);
            vstd::arithmetic::div_mod::lemma_small_mod(dv as nat, m as nat);
            assert(sum % m == ((a * 16) % m + dv % m) % m);
            assert(next as int == (a * 16 + dv) % m);
            assert(next == hex_seq_value(prefix1) % m);
        }
        accum = next;
        i += 1;
    }
    accum
}

/// Parse hexadecimal digits as an unsigned 128-bit integer; digits
/// beyond the range wrap around it.
pub fn hex_str_to_u128(string: &str) -> (v: u128)
    requires
        forall|k: int| 0 <= k < string@.len() ==> is_hex_digit(#[trigger] string@[k]),
    ensures
        v == hex_seq_value(string@) % pow2_128(),
{
    let chars = str_to_chars(string);
    let v = parse_hex_chars(&chars, 0, chars.len());
    proof {
        assert(chars@.subrange(0, chars@.len() as int) =~= string@);
    }
    v
}

fn u128_as_offset(v: u128) -> (r: i128)
    ensures
        r as int == as_signed(v),
{
    if v < 0x80000000000000000000000000000000u128 {
        v as i128
    } else if v == 0x80000000000000000000000000000000u128 {
        i128::MIN
    } else {
        let m = (u128::MAX - v) + 1;
        proof {
            assert(m < 0x80000000000000000000000000000000u128);
        }
        -(m as i128)
    }
}

fn wrapping_neg_i128(v: i128) -> (r: i128)
    ensures
        r as int == (if v == i128::MIN {
            i128::MIN as int
        } else {
            -(v as int)
        }),
{
    if v == i128::MIN {
        i128::MIN
    } else {
        -v
    }
}

fn next_token(chars: &Vec<char>, pos: usize) -> (r: Option<(Token, usize)>)
    requires
        pos < chars@.len(),
    ensures
        match r {
            Option::Some(tj) => spec_token_at(chars@, pos as int) == Option::Some(
                (tj.0, tj.1 as int),
            ) && pos < tj.1 <= chars@.len(),
            Option::None => spec_token_at(chars@, pos as int) is None,
        },
{
    proof {
        lemma_token_at_advances(chars@, pos as int);
    }
    let n = chars.len();
    let c = chars[pos];
    if pos + 1 < n && c == '(' && chars[pos + 1] == '(' {
        match comment_end_exec(chars, pos + 2) {
            Option::Some(end) => {
                return Option::Some((Token::Comment, end));
            },
            Option::None => {
                // an unterminated comment is no comment: the single
                // parenthesis alternatives below still apply
            },
        }
    }
    if c == '&' {
        Option::Some((Token::Operator(Operator::Both), pos + 1))
    } else if c == '|' {
        Option::Some((Token::Operator(Operator::Either), pos + 1))
    } else if c == '^' {
        Option::Some((Token::Operator(Operator::Different), pos + 1))
    } else if c == '~' {
        Option::Some((Token::Operator(Operator::Not), pos + 1))
    } else if c == '=' {
        Option::Some((Token::Operator(Operator::Same), pos + 1))
    } else if c == '_' {
        Option::Some((Token::Operator(Operator::Neither), pos + 1))
    } else if c == 'y' {
        Option::Some((Token::BitLiteral(BitLiteral::Yes), pos + 1))
    } else if c == 'n' {
        Option::Some((Token::BitLiteral(BitLiteral::No), pos + 1))
    } else if c == 'I' {
        Option::Some((Token::IoLiteral(IoLiteral::Input), pos + 1))
    } else if c == 'O' {
        Option::Some((Token::IoLiteral(IoLiteral::Output), pos + 1))
    } else if c == '*' {
        Option::Some((Token::MemoryRead(MemoryRead(0)), pos + 1))
    } else if c == '>' {
        let end = hex_run_end_exec(chars, pos + 1);
        if end > pos + 1 {
            proof {
                lemma_hex_run_digits(chars@, pos + 1);
            }
            let raw = parse_hex_chars(chars, pos + 1, end);
            let offset = u128_as_offset(raw);
            Option::Some((Token::MemoryRead(MemoryRead(offset)), end))
        } else {
            Option::None
        }
    } else if c == '<' {
        let end = hex_run_end_exec(chars, pos + 1);
        if end > pos + 1 {
            proof {
                lemma_hex_run_digits(chars@, pos + 1);
            }
            let raw = parse_hex_chars(chars, pos + 1, end);
            let forward = u128_as_offset(raw);
            let offset = wrapping_neg_i128(forward);
            Option::Some((Token::MemoryRead(MemoryRead(offset)), end))
        } else {
            Option::None
        }
    } else if c == '(' {
        Option::Some((Token::Parenthesis(Parenthesis::Open), pos + 1))
    } else if c == ')' {
        Option::Some((Token::Parenthesis(Parenthesis::Close), pos + 1))
    } else if is_hex_digit_exec(c) {
        let end = hex_run_end_exec(chars, pos);
        proof {
            lemma_hex_run_digits(chars@, pos as int);
            lemma_run_bounds(chars@, pos + 1);
            assert(hex_run_end(chars@, pos as int) == hex_run_end(chars@, pos + 1));
        }
        let raw = parse_hex_chars(chars, pos, end);
        Option::Some((Token::ActivationPattern(ActivationPattern(raw)), end))
    } else if c == ':' {
        Option::Some((Token::Colon, pos + 1))
    } else if c == ' ' || c == '\n' || c == '\t' {
        let end = space_run_end_exec(chars, pos);
        Option::Some((Token::Whitespace, end))
    } else {
        Option::None
    }
}

/// Every character of a maximal hexadecimal run is a hexadecimal digit.
proof fn lemma_hex_run_digits(s: Seq<char>, i: int)
    requires
        0 <= i <= s.len(),
    ensures
        forall|k: int| i <= k < hex_run_end(s, i) ==> is_hex_digit(#[trigger] s[k]),
    decreases s.len() - i,
{
    if 0 <= i < s.len() && is_hex_digit(s[i]) {
        lemma_hex_run_digits(s, i + 1);
        lemma_run_bounds(s, i);
    }
}

/// Turn source text into an ordered sequence of spanned tokens covering
/// the entire input, or fail with the position where no token matches.
pub fn lex(code: &str) -> (r: Result<Vec<Spanned<Token>>, usize>)
    ensures
        match r {
            Result::Ok(v) => spec_lex(code@) == Result::<Seq<Spanned<Token>>, int>::Ok(v@),
            Result::Err(pos) => spec_lex(code@) == Result::<Seq<Spanned<Token>>, int>::Err(
                pos as int,
            ),
        },
{
    let chars = str_to_chars(code);
    let ghost s = code@;
    let mut tokens: Vec<Spanned<Token>> = Vec::new();
    let mut pos: usize = 0;
    while pos < chars.len()
        invariant
            pos <= s.len(),
            chars@ == s,
            s == code@,
            spec_lex(s) == (match spec_lex_from(s, pos as int) {
                Result::Ok(rest) => Result::<Seq<Spanned<Token>>, int>::Ok(tokens@ + rest),
                Result::Err(p) => Result::<Seq<Spanned<Token>>, int>::Err(p),
            }),
        decreases s.len() - pos,
    {
        let ghost pos0 = pos as int;
        match next_token(&chars, pos) {
            Option::None => {
                proof {
                    assert(spec_lex_from(s, pos0) == Result::<Seq<Spanned<Token>>, int>::Err(pos0));
                }
                return Result::Err(pos);
            },
            Option::Some((token, end)) => {
                let ghost toks0 = tokens@;
                let span = until(pos, end);
                proof {
                    assert(span == (Span::Slice { start: pos, end }));
                }
                tokens.push(Spanned(token, span));
                proof {
                    let t = token;
                    let j = end as int;
                    let sp = Spanned(t, Span::Slice { start: pos0 as usize, end: j as usize });
                    assert(spec_token_at(s, pos0) == Option::Some((t, j)));
                    match spec_lex_from(s, j) {
                        Result::Ok(rest) => {
                            assert(spec_lex_from(s, pos0) == Result::<Seq<Spanned<Token>>, int>::Ok(
                                seq![sp] + rest,
                            ));
                            assert(tokens@ + rest =~= toks0 + (seq![sp] + rest));
                        },
                        Result::Err(q) => {
                            assert(spec_lex_from(s, pos0) == Result::<
                                Seq<Spanned<Token>>,
                                int,
                            >::Err(q));
                        },
                    }
                }
                pos = end;
            },
        }
    }
    proof {
        assert(spec_lex_from(s, pos as int) == Result::<Seq<Spanned<Token>>, int>::Ok(
            Seq::empty(),
        ));
        assert(tokens@ + Seq::<Spanned<Token>>::empty() =~= tokens@);
    }
    Result::Ok(tokens)
}

/// Lex, rendering a failure as a human-readable message naming the
/// character position where no token matched.
pub fn lex_verbose_err(code: &str) -> (r: Result<Vec<Spanned<Token>>, String>)
    ensures
        match r {
            Result::Ok(v) => spec_lex(code@) == Result::<Seq<Spanned<Token>>, int>::Ok(v@),
            Result::Err(_) => spec_lex(code@) is Err,
        },
{
    match lex(code) {
        Result::Ok(v) => Result::Ok(v),
        Result::Err(pos) => {
            let mut message = String::from_str("no token recognized at character ");
            message.append(decimal_string(pos as u128).as_str());
            Result::Err(message)
        },
    }
}

} // verus!
