//! Evaluation of arithmetic expressions given as ASCII strings.
//!
//! The pipeline has three stages: a tokenizer that folds runs of sign
//! operators (`parse_expr`), a shunting-yard conversion to Reverse Polish
//! Notation (`ShuntingYard::to_rpn`), and a stack evaluator for the RPN form
//! (`ShuntingYard::compute`). `estimate_expression` runs all three.

use vstd::prelude::*;

pub mod eval;
pub mod laws;
pub mod shunting_yard;

pub use eval::Operator;
pub use eval::Token;
pub use eval::get_number;
pub use eval::parse_expr;
pub use shunting_yard::ShuntingYard;

verus! {

/// Reason a string is rejected as not being an expression at all.
#[derive(Debug, PartialEq, Eq, Structural, Copy, Clone)]
pub enum InvalidKind {
    /// A character that is neither a digit, an operator, a bracket nor a space.
    UnknownChar(char),
    /// A closing bracket without a matching opening one, or an opening
    /// bracket that is never closed.
    UnbalancedBracket,
}

/// Reason applying an arithmetic operator failed.
#[derive(Debug, PartialEq, Eq, Structural, Copy, Clone)]
pub enum ArithmeticKind {
    /// The right operand of a division was zero.
    DivisionByZero,
    /// The mathematical result does not fit in a signed 64-bit integer.
    Overflow,
}

/// Everything that can go wrong while evaluating an expression.
#[derive(Debug, PartialEq, Eq)]
pub enum Error {
    /// A structurally impossible adjacent pair of tokens was seen while
    /// tokenizing, such as an operator directly before a closing bracket.
    InvalidSyntax,
    /// The input cannot be tokenized at all.
    InvalidExpression(InvalidKind),
    /// A digit run does not fit in a signed 64-bit integer.
    NumberParse,
    /// Division by zero or an out-of-range result during evaluation.
    Arithmetic(ArithmeticKind),
    /// The token stream in RPN order was empty or under-supplied with
    /// operands for an operator; the offending stream is quoted.
    InvalidRpn(Vec<Token>),
}

/// What evaluating a whole expression string yields: a value, a rejection
/// by the tokenizer, a malformed RPN stream, or an arithmetic failure.
pub enum EstimateOutcome {
    Value(i64),
    Rejected(Error),
    MalformedRpn(Seq<Token>),
    Arithmetic(ArithmeticKind),
}

/// The outcome of the full pipeline on the character sequence `s`:
/// tokenize, convert to RPN, evaluate.
pub open spec fn spec_estimate(s: Seq<char>) -> EstimateOutcome {
    match eval::spec_tokenize(s) {
        Err(e) => EstimateOutcome::Rejected(e),
        Ok(toks) => {
            let rpn = shunting_yard::spec_to_rpn(toks);
            match shunting_yard::eval_steps(rpn, Seq::<i64>::empty()) {
                Ok(stack) => {
                    if stack.len() == 0 {
                        EstimateOutcome::MalformedRpn(rpn)
                    } else {
                        EstimateOutcome::Value(stack[0])
                    }
                },
                Err(shunting_yard::EvalHalt::Malformed) => EstimateOutcome::MalformedRpn(rpn),
                Err(shunting_yard::EvalHalt::Arith(k)) => EstimateOutcome::Arithmetic(k),
            }
        },
    }
}

/// The executable result `r` agrees with the specified outcome `o`.
pub open spec fn estimate_matches(r: Result<i64, Error>, o: EstimateOutcome) -> bool {
    match o {
        EstimateOutcome::Value(v) => r == Ok::<i64, Error>(v),
        EstimateOutcome::Rejected(e) => r == Err::<i64, Error>(e),
        EstimateOutcome::MalformedRpn(rpn) => match r {
            Err(Error::InvalidRpn(q)) => q@ == rpn,
            _ => false,
        },
        EstimateOutcome::Arithmetic(k) => r == Err::<i64, Error>(Error::Arithmetic(k)),
    }
}

/// Evaluate an arithmetic expression string to a single integer.
///
/// The result is exactly `spec_estimate` of the input: the tokenizer's
/// error if the string is rejected, otherwise the value of the RPN form of
/// its tokens, or the error evaluation halts with.
pub fn estimate_expression(expr: &str) -> (r: Result<i64, Error>)
    ensures
        estimate_matches(r, spec_estimate(expr@)),
{
    let mut yard = match ShuntingYard::new(expr) {
        Ok(yard) => yard,
        Err(e) => {
            return Err(e);
        },
    };
    let converted = yard.to_rpn();
    proof {
        let toks = eval::spec_tokenize(expr@).unwrap();
        let rpn = shunting_yard::spec_to_rpn(toks);
        assert(converted.output_queue@ =~= rpn.reverse() + Seq::<Token>::empty());
        assert(converted.output_queue@ =~= rpn.reverse());
        assert(converted.rpn() =~= rpn);
    }
    converted.compute()
}

} // verus!
