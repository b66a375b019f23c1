//! Tokens of an arithmetic expression and the arithmetic itself.

use vstd::prelude::*;

use crate::ArithmeticKind;
use crate::Error;
use crate::InvalidKind;

verus! {

/// An operator character of the expression language.
///
/// Brackets are kept in the same enum as the four arithmetic operators
/// because the tokenizer and the shunting-yard conversion treat all six
/// uniformly as non-number tokens; only evaluation itself insists on an
/// arithmetic operator.
#[derive(Debug, PartialEq, Eq, Structural, Copy, Clone)]
pub enum Operator {
    LeftBracket,
    RightBracket,
    Prod,
    Div,
    Sub,
    Add,
}

/// One token of an expression: an integer literal or an operator.
#[derive(Debug, PartialEq, Eq, Structural, Copy, Clone)]
pub enum Token {
    Number(i64),
    Operator(Operator),
}

/// Truncating integer division, the division of Rust's signed integers:
/// the quotient of the magnitudes, with the sign of the exact quotient.
pub open spec fn div_trunc(x: int, d: int) -> int
    recommends
        d != 0,
{
    if x == 0 {
        0
    } else if x > 0 && d > 0 {
        x / d
    } else if x < 0 && d < 0 {
        (x * -1) / (d * -1)
    } else if x < 0 {
        ((x * -1) / d) * -1
    } else {
        (x / (d * -1)) * -1
    }
}

/// The mathematical result of applying an arithmetic operator.
pub open spec fn spec_execute(op: Operator, v1: int, v2: int) -> int
    recommends
        op.is_arithmetic(),
        op == Operator::Div ==> v2 != 0,
{
    match op {
        Operator::Prod => v1 * v2,
        Operator::Div => div_trunc(v1, v2),
        Operator::Sub => v1 - v2,
        Operator::Add => v1 + v2,
        _ => 0,
    }
}

/// Whether applying `op` to `v1` and `v2` succeeds: the division is by a
/// non-zero divisor and the result fits in an `i64`.
pub open spec fn execute_defined(op: Operator, v1: int, v2: int) -> bool
    recommends
        op.is_arithmetic(),
{
    &&& (op == Operator::Div ==> v2 != 0)
    &&& i64::MIN <= spec_execute(op, v1, v2) <= i64::MAX
}

impl Operator {
    /// The four operators that evaluation can apply, as opposed to brackets.
    pub open spec fn is_arithmetic(self) -> bool {
        self != Operator::LeftBracket && self != Operator::RightBracket
    }

    /// Binding strength of an arithmetic operator: multiplication and
    /// division bind tighter than addition and subtraction. Brackets never
    /// take part in precedence comparisons and get the lowest value.
    pub open spec fn spec_precedence(self) -> u32 {
        match self {
            Operator::Prod => 2,
            Operator::Div => 2,
            Operator::Sub => 1,
            Operator::Add => 1,
            _ => 0,
        }
    }

    /// Executable form of [`Self::spec_precedence`].
    pub fn precedence(self) -> (p: u32)
        ensures
            p == self.spec_precedence(),
    {
        match self {
            Operator::Prod => 2,
            Operator::Div => 2,
            Operator::Sub => 1,
            Operator::Add => 1,
            _ => 0,
        }
    }

    /// Apply an arithmetic operator to two operands. `v1` is the left-hand
    /// operand, `v2` the right-hand one. Division by zero and results
    /// outside the `i64` range are reported as arithmetic errors.
    pub fn execute(self, v1: i64, v2: i64) -> (r: Result<i64, Error>)
        requires
            self.is_arithmetic(),
        ensures
            execute_defined(self, v1 as int, v2 as int) ==> r == Ok::<i64, Error>(
                spec_execute(self, v1 as int, v2 as int) as i64,
            ),
            self == Operator::Div && v2 == 0 ==> r == Err::<i64, Error>(
                Error::Arithmetic(ArithmeticKind::DivisionByZero),
            ),
            !execute_defined(self, v1 as int, v2 as int) && !(self == Operator::Div && v2 == 0)
                ==> r == Err::<i64, Error>(Error::Arithmetic(ArithmeticKind::Overflow)),
    {
        let checked = match self {
            Operator::Prod => v1.checked_mul(v2),
            Operator::Div => {
                if v2 == 0 {
                    return Err(Error::Arithmetic(ArithmeticKind::DivisionByZero));
                }
                v1.checked_div(v2)
            },
            Operator::Sub => v1.checked_sub(v2),
            Operator::Add => v1.checked_add(v2),
            _ => None,
        };
        match checked {
            Some(v) => Ok(v),
            None => Err(Error::Arithmetic(ArithmeticKind::Overflow)),
        }
    }
}

/// Whether `c` is a decimal digit.
pub open spec fn is_digit_char(c: char) -> bool {
    48 <= c as u32 && c as u32 <= 57
}

/// Numeric value of a decimal digit character.
pub open spec fn digit_val(c: char) -> int {
    c as u32 - 48
}

/// Length of the run of decimal digits at the front of `t`.
pub open spec fn digit_run_len(t: Seq<char>) -> nat
    decreases t.len(),
{
    if t.len() > 0 && is_digit_char(t[0]) {
        (1 + digit_run_len(t.drop_first())) as nat
    } else {
        0
    }
}

/// Value of the decimal digits `t[from..to]` read as a base-10 number.
pub open spec fn digits_value(t: Seq<char>, from: int, to: int) -> int
    decreases to - from,
{
    if from < to {
        digits_value(t, from, to - 1) * 10 + digit_val(t[to - 1])
    } else {
        0
    }
}

/// The front digit run stays within `t` and is maximal.
pub proof fn lemma_digit_run_len(t: Seq<char>)
    ensures
        digit_run_len(t) <= t.len(),
        forall|k: int| 0 <= k < digit_run_len(t) ==> is_digit_char(t[k]),
        digit_run_len(t) < t.len() ==> !is_digit_char(t[digit_run_len(t) as int]),
    decreases t.len(),
{
    if t.len() > 0 && is_digit_char(t[0]) {
        lemma_digit_run_len(t.drop_first());
        assert forall|k: int| 0 <= k < digit_run_len(t) implies is_digit_char(t[k]) by {
            if k > 0 {
                assert(t.drop_first()[k - 1] == t[k]);
            }
        }
        if digit_run_len(t) < t.len() {
            assert(t.drop_first()[digit_run_len(t) as int - 1] == t[digit_run_len(t) as int]);
        }
    }
}

/// A sequence of digits has a non-negative value.
pub proof fn lemma_digits_value_nonneg(t: Seq<char>, from: int, to: int)
    requires
        forall|k: int| from <= k < to ==> is_digit_char(t[k]),
    ensures
        digits_value(t, from, to) >= 0,
    decreases to - from,
{
    if from < to {
        lemma_digits_value_nonneg(t, from, to - 1);
    }
}

/// Extending a digit run to the right never shrinks its value.
pub proof fn lemma_digits_value_monotone(t: Seq<char>, from: int, mid: int, to: int)
    requires
        from <= mid <= to,
        forall|k: int| from <= k < to ==> is_digit_char(t[k]),
    ensures
        digits_value(t, from, to) >= digits_value(t, from, mid),
    decreases to - mid,
{
    if mid < to {
        lemma_digits_value_monotone(t, from, mid, to - 1);
        lemma_digits_value_nonneg(t, from, to - 1);
    }
}

/// Append a pending sign operator, if any, to the emitted tokens.
pub open spec fn flush_pending(tokens: Seq<Token>, pending: Option<bool>) -> Seq<Token> {
    match pending {
        None => tokens,
        Some(neg) => tokens.push(
            Token::Operator(if neg { Operator::Sub } else { Operator::Add }),
        ),
    }
}

/// Fold one more sign character into the pending sign, multiplying signs:
/// `pending` is `Some(true)` when the product so far is negative.
pub open spec fn fold_sign(pending: Option<bool>, neg: bool) -> Option<bool> {
    match pending {
        None => Some(neg),
        Some(p) => Some(p != neg),
    }
}

/// Whether the last emitted token is a multiplication or a division, the
/// operators that may not stand directly before `*`, `/` or a closing
/// bracket.
pub open spec fn last_is_mul_div(tokens: Seq<Token>) -> bool {
    tokens.len() > 0 && (tokens.last() == Token::Operator(Operator::Prod) || tokens.last()
        == Token::Operator(Operator::Div))
}

/// The tokenizer as a state machine over the remaining characters `t`.
///
/// `tokens` are the tokens emitted so far, `pending` the sign accumulated
/// from a run of `+`/`-` characters but not yet emitted, and `depth` the
/// number of open brackets. Runs of sign characters collapse into `pending`
/// by multiplication of signs; the pending sign becomes a real operator
/// token when a digit or an opening bracket follows. Whitespace is
/// insignificant and does not interrupt a sign run. Bracket balance is
/// checked eagerly.
pub open spec fn tok_run(
    t: Seq<char>,
    tokens: Seq<Token>,
    pending: Option<bool>,
    depth: int,
) -> Result<Seq<Token>, Error>
    decreases t.len(),
{
    if t.len() == 0 {
        if depth != 0 {
            Err(Error::InvalidExpression(InvalidKind::UnbalancedBracket))
        } else {
            Ok(flush_pending(tokens, pending))
        }
    } else {
        let c = t[0];
        if is_digit_char(c) {
            // The run never exceeds the sequence; the bound is only for the
            // termination measure.
            let j = if digit_run_len(t) <= t.len() {
                digit_run_len(t) as int
            } else {
                t.len() as int
            };
            let v = digits_value(t, 0, j);
            if v > i64::MAX {
                Err(Error::NumberParse)
            } else {
                tok_run(
                    t.skip(j),
                    flush_pending(tokens, pending).push(Token::Number(v as i64)),
                    None,
                    depth,
                )
            }
        } else if c == '(' {
            tok_run(
                t.skip(1),
                flush_pending(tokens, pending).push(Token::Operator(Operator::LeftBracket)),
                None,
                depth + 1,
            )
        } else if c == ')' {
            if pending is Some || last_is_mul_div(tokens) {
                Err(Error::InvalidSyntax)
            } else if depth == 0 {
                Err(Error::InvalidExpression(InvalidKind::UnbalancedBracket))
            } else {
                tok_run(t.skip(1), tokens.push(Token::Operator(Operator::RightBracket)), None, depth - 1)
            }
        } else if c == '+' || c == '-' {
            tok_run(t.skip(1), tokens, fold_sign(pending, c == '-'), depth)
        } else if c == '*' || c == '/' {
            if pending is Some || last_is_mul_div(tokens) {
                Err(Error::InvalidSyntax)
            } else {
                let op = if c == '*' { Operator::Prod } else { Operator::Div };
                tok_run(t.skip(1), tokens.push(Token::Operator(op)), None, depth)
            }
        } else if c == ' ' {
            tok_run(t.skip(1), tokens, pending, depth)
        } else {
            Err(Error::InvalidExpression(InvalidKind::UnknownChar(c)))
        }
    }
}

/// What tokenizing a whole string yields.
pub open spec fn spec_tokenize(s: Seq<char>) -> Result<Seq<Token>, Error> {
    tok_run(s, seq![], None, 0)
}

/// The executable result `r` agrees with the specification result `sp`.
pub open spec fn parse_matches(r: Result<Vec<Token>, Error>, sp: Result<Seq<Token>, Error>) -> bool {
    match (r, sp) {
        (Ok(v), Ok(toks)) => v@ == toks,
        (Err(e), Err(se)) => e == se,
        _ => false,
    }
}

/// Read the maximal digit run of `s` that starts at `start`.
///
/// Returns the parsed value, or `Error::NumberParse` when the run does not
/// fit in an `i64`, together with the index just past the run.
pub fn get_number(s: &str, start: usize) -> (r: (Result<i64, Error>, usize))
    requires
        start < s@.len(),
        is_digit_char(s@[start as int]),
    ensures
        ({
            let t = s@.skip(start as int);
            let run = digit_run_len(t) as int;
            let v = digits_value(t, 0, run);
            match r.0 {
                Ok(n) => r.1 == start + run && v <= i64::MAX && n == v,
                Err(e) => e == Error::NumberParse && v > i64::MAX,
            }
        }),
{
    let ghost t = s@.skip(start as int);
    proof {
        lemma_digit_run_len(t);
    }
    let n = s.unicode_len();
    let mut j = start;
    let mut acc: u128 = 0;
    loop
        invariant
            n == s@.len(),
            start <= j <= n,
            t == s@.skip(start as int),
            j - start <= digit_run_len(t),
            forall|k: int| 0 <= k < j - start ==> is_digit_char(t[k]),
            acc == digits_value(t, 0, j - start),
            acc <= i64::MAX,
            digit_run_len(t) <= t.len(),
            forall|k: int| 0 <= k < digit_run_len(t) ==> is_digit_char(t[k]),
            digit_run_len(t) < t.len() ==> !is_digit_char(t[digit_run_len(t) as int]),
        ensures
            start <= j <= n,
            j - start == digit_run_len(t),
            acc == digits_value(t, 0, j - start),
            acc <= i64::MAX,
        decreases n - j,
    {
        if j == n {
            proof {
                assert(t.len() == n - start);
            }
            break;
        }
        let c = s.get_char(j);
        proof {
            assert(t[j - start] == s@[j as int]);
        }
        let u = c as u32;
        if !(48 <= u && u <= 57) {
            proof {
                if j - start < digit_run_len(t) {
                    assert(is_digit_char(t[j - start]));
                }
            }
            break;
        }
        let d = (u - 48) as u128;
        let next = acc * 10 + d;
        proof {
            assert(digits_value(t, 0, j + 1 - start) == digits_value(t, 0, j - start) * 10
                + digit_val(t[j - start]));
        }
        if next > i64::MAX as u128 {
            proof {
                lemma_digits_value_monotone(t, 0, j + 1 - start, digit_run_len(t) as int);
            }
            return (Err(Error::NumberParse), j);
        }
        acc = next;
        j = j + 1;
    }
    (Ok(acc as i64), j)
}

/// Tokenize an expression string.
///
/// Digits form unsigned base-10 numbers; `+ - * / ( )` are structural;
/// spaces are skipped. Runs of `+`/`-` fold into a single sign operator by
/// multiplication of signs, a sign run before a closing bracket and any
/// operator directly before `*` or `/` are rejected, and bracket balance is
/// checked. The result is exactly `spec_tokenize` of the input.
pub fn parse_expr(s: &str) -> (r: Result<Vec<Token>, Error>)
    ensures
        parse_matches(r, spec_tokenize(s@)),
{
    let n = s.unicode_len();
    let mut result: Vec<Token> = Vec::new();
    let mut pending: Option<bool> = None;
    let mut depth: usize = 0;
    let mut i: usize = 0;
    proof {
        assert(s@.skip(0) =~= s@);
    }
    while i < n
        invariant
            n == s@.len(),
            i <= n,
            depth <= i,
            tok_run(s@.skip(i as int), result@, pending, depth as int) == spec_tokenize(s@),
        decreases n - i,
    {
        let ghost t = s@.skip(i as int);
        let c = s.get_char(i);
        proof {
            assert(t[0] == s@[i as int]);
            assert(t.skip(1) =~= s@.skip(i + 1));
        }
        let u = c as u32;
        if 48 <= u && u <= 57 {
            proof {
                lemma_digit_run_len(t);
            }
            let (parsed, end) = get_number(s, i);
            match parsed {
                Ok(value) => {
                    proof {
                        assert(t.skip(digit_run_len(t) as int) =~= s@.skip(
                            i + digit_run_len(t),
                        ));
                    }
                    if let Some(neg) = pending {
                        result.push(
                            Token::Operator(if neg { Operator::Sub } else { Operator::Add }),
                        );
                        pending = None;
                    }
                    result.push(Token::Number(value));
                    i = end;
                },
                Err(e) => {
                    return Err(e);
                },
            }
        } else if c == '(' {
            if let Some(neg) = pending {
                result.push(Token::Operator(if neg { Operator::Sub } else { Operator::Add }));
                pending = None;
            }
            result.push(Token::Operator(Operator::LeftBracket));
            depth = depth + 1;
            i = i + 1;
        } else if c == ')' {
            let after_mul_div = match result.last() {
                Some(tok) => *tok == Token::Operator(Operator::Prod) || *tok == Token::Operator(
                    Operator::Div,
                ),
                None => false,
            };
            if pending.is_some() || after_mul_div {
                return Err(Error::InvalidSyntax);
            }
            if depth == 0 {
                return Err(Error::InvalidExpression(InvalidKind::UnbalancedBracket));
            }
            result.push(Token::Operator(Operator::RightBracket));
            depth = depth - 1;
            i = i + 1;
        } else if c == '+' || c == '-' {
            let neg = c == '-';
            pending = match pending {
                None => Some(neg),
                Some(p) => Some(p != neg),
            };
            i = i + 1;
        } else if c == '*' || c == '/' {
            let after_mul_div = match result.last() {
                Some(tok) => *tok == Token::Operator(Operator::Prod) || *tok == Token::Operator(
                    Operator::Div,
                ),
                None => false,
            };
            if pending.is_some() || after_mul_div {
                return Err(Error::InvalidSyntax);
            }
            result.push(Token::Operator(if c == '*' { Operator::Prod } else { Operator::Div }));
            i = i + 1;
        } else if c == ' ' {
            i = i + 1;
        } else {
            return Err(Error::InvalidExpression(InvalidKind::UnknownChar(c)));
        }
    }
    proof {
        assert(s@.skip(n as int) =~= Seq::<char>::empty());
    }
    if let Some(neg) = pending {
        result.push(Token::Operator(if neg { Operator::Sub } else { Operator::Add }));
    }
    if depth != 0 {
        return Err(Error::InvalidExpression(InvalidKind::UnbalancedBracket));
    }
    Ok(result)
}

} // verus!
