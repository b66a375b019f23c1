//! Laws of the pipeline, proved against the grammar of well-formed
//! expressions.
//!
//! [`Expr`] describes expressions exactly as the usual grammar of
//! arithmetic builds them: sums of products of atoms, an atom being a
//! number or a bracketed expression. [`lemma_estimate_correct`] states the
//! central law: rendering any well-formed expression to a string and
//! running the pipeline yields the mathematical value of the expression,
//! with multiplication and division binding tighter than addition and
//! subtraction and operators of equal precedence grouping left-to-right.

use vstd::prelude::*;

use crate::Error;
use crate::EstimateOutcome;
use crate::eval::Operator;
use crate::eval::Token;
use crate::eval::digit_run_len;
use crate::eval::digit_val;
use crate::eval::digits_value;
use crate::eval::div_trunc;
use crate::eval::execute_defined;
use crate::eval::flush_pending;
use crate::eval::fold_sign;
use crate::eval::is_digit_char;
use crate::eval::last_is_mul_div;
use crate::eval::spec_execute;
use crate::eval::spec_tokenize;
use crate::eval::tok_run;
use crate::shunting_yard::EvalHalt;
use crate::shunting_yard::convert;
use crate::shunting_yard::convert_step;
use crate::shunting_yard::eval_steps;
use crate::shunting_yard::pop_for_bracket;
use crate::shunting_yard::pop_for_op;
use crate::shunting_yard::spec_to_rpn;
use crate::shunting_yard::stack_tokens;
use crate::spec_estimate;

verus! {

/// An arithmetic expression as the grammar of the language builds it.
pub enum Expr {
    /// A non-negative integer literal.
    Num(i64),
    /// A binary operation; the operator must be arithmetic.
    Bin(Operator, Box<Expr>, Box<Expr>),
    /// A bracketed expression.
    Group(Box<Expr>),
}

/// Grammar level of an expression: 0 for a sum or difference, 1 for a
/// product or quotient, 2 for an atom.
pub open spec fn level(e: Expr) -> int {
    match e {
        Expr::Num(_) => 2,
        Expr::Group(_) => 2,
        Expr::Bin(op, _, _) => if op == Operator::Add || op == Operator::Sub {
            0
        } else {
            1
        },
    }
}

/// Well-formedness by the grammar: literals are non-negative, operators
/// are arithmetic, the right operand of `+`/`-` is at least a product and
/// both operands of `*`/`/` are tighter still. This makes the rendering of
/// an expression unambiguous: left-associative with the usual precedence.
pub open spec fn wf(e: Expr) -> bool
    decreases e,
{
    match e {
        Expr::Num(n) => n >= 0,
        Expr::Group(inner) => wf(*inner),
        Expr::Bin(op, l, r) => {
            &&& op.is_arithmetic()
            &&& wf(*l)
            &&& wf(*r)
            &&& if op == Operator::Add || op == Operator::Sub {
                level(*r) >= 1
            } else {
                level(*l) >= 1 && level(*r) >= 2
            }
        },
    }
}

/// The mathematical value of an expression.
pub open spec fn value(e: Expr) -> int
    decreases e,
{
    match e {
        Expr::Num(n) => n as int,
        Expr::Group(inner) => value(*inner),
        Expr::Bin(op, l, r) => spec_execute(op, value(*l), value(*r)),
    }
}

/// Whether every operation of the expression is defined: no division by
/// zero and every intermediate result within the `i64` range.
pub open spec fn defined(e: Expr) -> bool
    decreases e,
{
    match e {
        Expr::Num(_) => true,
        Expr::Group(inner) => defined(*inner),
        Expr::Bin(op, l, r) => defined(*l) && defined(*r) && execute_defined(
            op,
            value(*l),
            value(*r),
        ),
    }
}

/// The infix token sequence of an expression.
pub open spec fn render_tokens(e: Expr) -> Seq<Token>
    decreases e,
{
    match e {
        Expr::Num(n) => seq![Token::Number(n)],
        Expr::Group(inner) => seq![Token::Operator(Operator::LeftBracket)] + render_tokens(*inner)
            + seq![Token::Operator(Operator::RightBracket)],
        Expr::Bin(op, l, r) => render_tokens(*l) + seq![Token::Operator(op)] + render_tokens(*r),
    }
}

/// The postfix (RPN) token sequence of an expression.
pub open spec fn rpn_tokens(e: Expr) -> Seq<Token>
    decreases e,
{
    match e {
        Expr::Num(n) => seq![Token::Number(n)],
        Expr::Group(inner) => rpn_tokens(*inner),
        Expr::Bin(op, l, r) => rpn_tokens(*l) + rpn_tokens(*r) + seq![Token::Operator(op)],
    }
}

/// The operators left on the conversion stack after an expression has been
/// read, topmost first: the operators along the spine of right operands.
pub open spec fn rspine(e: Expr) -> Seq<Operator>
    decreases e,
{
    match e {
        Expr::Num(_) => seq![],
        Expr::Group(_) => seq![],
        Expr::Bin(op, _, r) => rspine(*r) + seq![op],
    }
}

/// What the conversion emits while reading an expression: everything of
/// the RPN form except the operators still on the stack.
pub open spec fn body(e: Expr) -> Seq<Token>
    decreases e,
{
    match e {
        Expr::Num(n) => seq![Token::Number(n)],
        Expr::Group(inner) => rpn_tokens(*inner),
        Expr::Bin(op, l, r) => body(*l) + stack_tokens(rspine(*l)) + body(*r),
    }
}

/// The least precedence of the operators along the spine of left operands;
/// 3 when there is none. An operator arriving at the conversion pops the
/// stack only down to entries of smaller precedence, so a stack whose top
/// is below this bound is undisturbed by the whole expression.
pub open spec fn min_lprec(e: Expr) -> int
    decreases e,
{
    match e {
        Expr::Num(_) => 3,
        Expr::Group(_) => 3,
        Expr::Bin(op, l, _) => {
            let p = op.spec_precedence() as int;
            let q = min_lprec(*l);
            if p <= q {
                p
            } else {
                q
            }
        },
    }
}

/// A stack that an expression's rendering leaves alone: empty, a left
/// bracket on top, or a top of smaller precedence than any operator the
/// expression sends down to it.
pub open spec fn undisturbed(stack: Seq<Operator>, e: Expr) -> bool {
    ||| stack.len() == 0
    ||| stack[0] == Operator::LeftBracket
    ||| (stack[0].is_arithmetic() && stack[0].spec_precedence() < min_lprec(e))
}

/// Every operator on the right spine of a well-formed expression is
/// arithmetic; at level 1 or above they all have precedence 2.
proof fn lemma_rspine_ops(e: Expr)
    requires
        wf(e),
    ensures
        forall|i: int|
            0 <= i < rspine(e).len() ==> (#[trigger] rspine(e)[i]).is_arithmetic() && rspine(
                e,
            )[i].spec_precedence() >= 1,
        level(e) >= 1 ==> forall|i: int|
            0 <= i < rspine(e).len() ==> (#[trigger] rspine(e)[i]).spec_precedence() == 2,
    decreases e,
{
    match e {
        Expr::Num(_) => {},
        Expr::Group(_) => {},
        Expr::Bin(op, l, r) => {
            lemma_rspine_ops(*r);
            assert forall|i: int| 0 <= i < rspine(e).len() implies (#[trigger] rspine(
                e,
            )[i]).is_arithmetic() && rspine(e)[i].spec_precedence() >= 1 by {
                if i < rspine(*r).len() {
                    assert(rspine(e)[i] == rspine(*r)[i]);
                } else {
                    assert(rspine(e)[i] == op);
                }
            }
            if level(e) >= 1 {
                assert forall|i: int| 0 <= i < rspine(e).len() implies (#[trigger] rspine(
                    e,
                )[i]).spec_precedence() == 2 by {
                    if i < rspine(*r).len() {
                        assert(level(*r) >= 1);
                        assert(rspine(e)[i] == rspine(*r)[i]);
                    } else {
                        assert(rspine(e)[i] == op);
                    }
                }
            }
        },
    }
}

/// The least precedence along the left spine respects the grammar level.
proof fn lemma_min_lprec(e: Expr)
    requires
        wf(e),
    ensures
        min_lprec(e) >= 1,
        level(e) >= 1 ==> min_lprec(e) >= 2,
        level(e) >= 2 ==> min_lprec(e) >= 3,
    decreases e,
{
    match e {
        Expr::Num(_) => {},
        Expr::Group(_) => {},
        Expr::Bin(op, l, r) => {
            lemma_min_lprec(*l);
        },
    }
}

/// The value of a well-formed, defined expression fits in an `i64`.
proof fn lemma_value_in_range(e: Expr)
    requires
        wf(e),
        defined(e),
    ensures
        i64::MIN <= value(e) <= i64::MAX,
    decreases e,
{
    match e {
        Expr::Num(_) => {},
        Expr::Group(inner) => {
            lemma_value_in_range(*inner);
        },
        Expr::Bin(..) => {},
    }
}

/// A rendering is never empty.
proof fn lemma_render_tokens_nonempty(e: Expr)
    ensures
        render_tokens(e).len() >= 1,
        rpn_tokens(e).len() >= 1,
    decreases e,
{
    match e {
        Expr::Num(_) => {},
        Expr::Group(inner) => {
            lemma_render_tokens_nonempty(*inner);
        },
        Expr::Bin(op, l, r) => {
            lemma_render_tokens_nonempty(*l);
            lemma_render_tokens_nonempty(*r);
        },
    }
}

/// Wrapping the operators of two stacks distributes over concatenation.
proof fn lemma_stack_tokens_append(a: Seq<Operator>, b: Seq<Operator>)
    ensures
        stack_tokens(a + b) == stack_tokens(a) + stack_tokens(b),
    decreases a.len(),
{
    if a.len() == 0 {
        assert(a + b =~= b);
        assert(stack_tokens(a) + stack_tokens(b) =~= stack_tokens(b));
    } else {
        assert((a + b)[0] == a[0]);
        assert((a + b).drop_first() =~= a.drop_first() + b);
        lemma_stack_tokens_append(a.drop_first(), b);
        assert(seq![Token::Operator(a[0])] + (stack_tokens(a.drop_first()) + stack_tokens(b))
            =~= (seq![Token::Operator(a[0])] + stack_tokens(a.drop_first())) + stack_tokens(b));
    }
}

/// What the conversion has emitted plus what its stack still holds is
/// exactly the RPN form.
proof fn lemma_body_rspine(e: Expr)
    requires
        wf(e),
    ensures
        body(e) + stack_tokens(rspine(e)) == rpn_tokens(e),
    decreases e,
{
    match e {
        Expr::Num(n) => {
            assert(stack_tokens(seq![]) == Seq::<Token>::empty());
            assert(seq![Token::Number(n)] + Seq::<Token>::empty() =~= seq![Token::Number(n)]);
        },
        Expr::Group(inner) => {
            assert(stack_tokens(seq![]) == Seq::<Token>::empty());
            assert(rpn_tokens(*inner) + Seq::<Token>::empty() =~= rpn_tokens(*inner));
        },
        Expr::Bin(op, l, r) => {
            lemma_body_rspine(*l);
            lemma_body_rspine(*r);
            lemma_stack_tokens_append(rspine(*r), seq![op]);
            assert(stack_tokens(seq![op]) =~= seq![Token::Operator(op)]) by {
                assert(seq![op].drop_first() =~= Seq::<Operator>::empty());
                assert(seq![op][0] == op);
                assert(stack_tokens(Seq::<Operator>::empty()) == Seq::<Token>::empty());
                assert(stack_tokens(seq![op]) == seq![Token::Operator(op)] + Seq::<
                    Token,
                >::empty());
                assert(seq![Token::Operator(op)] + Seq::<Token>::empty() =~= seq![
                    Token::Operator(op),
                ]);
            }
            assert(body(e) + stack_tokens(rspine(e)) =~= (body(*l) + stack_tokens(rspine(*l))
                + body(*r)) + (stack_tokens(rspine(*r)) + seq![Token::Operator(op)]));
            assert((body(*l) + stack_tokens(rspine(*l)) + body(*r)) + (stack_tokens(rspine(*r))
                + seq![Token::Operator(op)]) =~= (body(*l) + stack_tokens(rspine(*l))) + (body(*r)
                + stack_tokens(rspine(*r))) + seq![Token::Operator(op)]);
        },
    }
}

/// Converting a concatenation of token sequences runs them in order,
/// threading the operator stack through.
proof fn lemma_convert_append(a: Seq<Token>, b: Seq<Token>, stack: Seq<Operator>)
    ensures
        convert(a + b, stack).0 == convert(b, convert(a, stack).0).0,
        convert(a + b, stack).1 == convert(a, stack).1 + convert(b, convert(a, stack).0).1,
    decreases a.len(),
{
    if a.len() == 0 {
        assert(a + b =~= b);
        assert(Seq::<Token>::empty() + convert(b, stack).1 =~= convert(b, stack).1);
    } else {
        assert((a + b)[0] == a[0]);
        assert((a + b).drop_first() =~= a.drop_first() + b);
        let s = convert_step(a[0], stack);
        lemma_convert_append(a.drop_first(), b, s.0);
        assert(s.1 + (convert(a.drop_first(), s.0).1 + convert(
            b,
            convert(a.drop_first(), s.0).0,
        ).1) =~= (s.1 + convert(a.drop_first(), s.0).1) + convert(
            b,
            convert(a.drop_first(), s.0).0,
        ).1);
    }
}

/// An incoming operator pops exactly the operators of greater or equal
/// precedence stacked above an undisturbed remainder.
proof fn lemma_pop_for_op_all(sp: Seq<Operator>, s: Seq<Operator>, op: Operator)
    requires
        op.is_arithmetic(),
        forall|i: int|
            0 <= i < sp.len() ==> (#[trigger] sp[i]).is_arithmetic() && sp[i].spec_precedence()
                >= op.spec_precedence(),
        s.len() == 0 || s[0] == Operator::LeftBracket || s[0].spec_precedence()
            < op.spec_precedence(),
    ensures
        pop_for_op(sp + s, op) == (s, stack_tokens(sp)),
    decreases sp.len(),
{
    if sp.len() == 0 {
        assert(sp + s =~= s);
    } else {
        assert((sp + s)[0] == sp[0]);
        assert((sp + s).drop_first() =~= sp.drop_first() + s);
        assert(forall|i: int|
            0 <= i < sp.drop_first().len() ==> (#[trigger] sp.drop_first()[i]) == sp[i + 1]);
        lemma_pop_for_op_all(sp.drop_first(), s, op);
    }
}

/// A closing bracket pops exactly the operators stacked above the nearest
/// left bracket, and discards that bracket.
proof fn lemma_pop_for_bracket_all(sp: Seq<Operator>, s: Seq<Operator>)
    requires
        forall|i: int| 0 <= i < sp.len() ==> (#[trigger] sp[i]).is_arithmetic(),
        s.len() > 0,
        s[0] == Operator::LeftBracket,
    ensures
        pop_for_bracket(sp + s) == (s.drop_first(), stack_tokens(sp)),
    decreases sp.len(),
{
    if sp.len() == 0 {
        assert(sp + s =~= s);
    } else {
        assert((sp + s)[0] == sp[0]);
        assert((sp + s).drop_first() =~= sp.drop_first() + s);
        assert(forall|i: int|
            0 <= i < sp.drop_first().len() ==> (#[trigger] sp.drop_first()[i]) == sp[i + 1]);
        lemma_pop_for_bracket_all(sp.drop_first(), s);
    }
}

/// Converting a single token performs exactly one step.
proof fn lemma_convert_single(tok: Token, stack: Seq<Operator>)
    ensures
        convert(seq![tok], stack).0 == convert_step(tok, stack).0,
        convert(seq![tok], stack).1 == convert_step(tok, stack).1,
{
    let s = seq![tok];
    let step = convert_step(tok, stack);
    assert(s[0] == tok);
    assert(s.drop_first() =~= Seq::<Token>::empty());
    assert(convert(Seq::<Token>::empty(), step.0) == (step.0, Seq::<Token>::empty()));
    assert(step.1 + Seq::<Token>::empty() =~= step.1);
}

/// Reading a well-formed expression from a stack it does not disturb
/// leaves its right spine on top of that stack and emits its body.
proof fn lemma_convert_expr(e: Expr, stack: Seq<Operator>)
    requires
        wf(e),
        undisturbed(stack, e),
    ensures
        convert(render_tokens(e), stack).0 == rspine(e) + stack,
        convert(render_tokens(e), stack).1 == body(e),
    decreases e,
{
    lemma_min_lprec(e);
    match e {
        Expr::Num(n) => {
            lemma_convert_single(Token::Number(n), stack);
            assert(Seq::<Operator>::empty() + stack =~= stack);
        },
        Expr::Group(inner) => {
            let lb = seq![Token::Operator(Operator::LeftBracket)];
            let rb = seq![Token::Operator(Operator::RightBracket)];
            let mid = render_tokens(*inner);
            assert(render_tokens(e) =~= lb + (mid + rb));
            lemma_convert_append(lb, mid + rb, stack);
            lemma_convert_single(Token::Operator(Operator::LeftBracket), stack);
            let s1 = seq![Operator::LeftBracket] + stack;
            assert(convert(lb, stack).0 == s1);
            assert(convert(lb, stack).1 =~= Seq::<Token>::empty());
            lemma_convert_append(mid, rb, s1);
            assert(s1[0] == Operator::LeftBracket);
            lemma_convert_expr(*inner, s1);
            let s2 = rspine(*inner) + s1;
            lemma_convert_single(Token::Operator(Operator::RightBracket), s2);
            lemma_rspine_ops(*inner);
            lemma_pop_for_bracket_all(rspine(*inner), s1);
            assert(s1.drop_first() =~= stack);
            assert(convert(rb, s2).0 == stack);
            assert(convert(rb, s2).1 == stack_tokens(rspine(*inner)) + Seq::<Token>::empty());
            assert(stack_tokens(rspine(*inner)) + Seq::<Token>::empty() =~= stack_tokens(
                rspine(*inner),
            ));
            lemma_body_rspine(*inner);
            assert(convert(render_tokens(e), stack).1 =~= Seq::<Token>::empty() + (body(*inner)
                + stack_tokens(rspine(*inner))));
            assert(Seq::<Token>::empty() + (body(*inner) + stack_tokens(rspine(*inner)))
                =~= rpn_tokens(*inner));
            assert(Seq::<Operator>::empty() + stack =~= stack);
        },
        Expr::Bin(op, l, r) => {
            let opt = seq![Token::Operator(op)];
            assert(render_tokens(e) =~= render_tokens(*l) + (opt + render_tokens(*r)));
            lemma_min_lprec(*l);
            lemma_min_lprec(*r);
            lemma_convert_append(render_tokens(*l), opt + render_tokens(*r), stack);
            assert(undisturbed(stack, *l));
            lemma_convert_expr(*l, stack);
            let s1 = rspine(*l) + stack;
            lemma_convert_append(opt, render_tokens(*r), s1);
            lemma_convert_single(Token::Operator(op), s1);
            lemma_rspine_ops(*l);
            if !(op == Operator::Add || op == Operator::Sub) {
                assert(level(*l) >= 1);
            }
            lemma_pop_for_op_all(rspine(*l), stack, op);
            let s2 = seq![op] + stack;
            assert(convert(opt, s1).0 == s2);
            assert(convert(opt, s1).1 == stack_tokens(rspine(*l)) + Seq::<Token>::empty());
            assert(stack_tokens(rspine(*l)) + Seq::<Token>::empty() =~= stack_tokens(rspine(*l)));
            assert(s2[0] == op);
            if op == Operator::Add || op == Operator::Sub {
                assert(min_lprec(*r) >= 2);
            } else {
                assert(min_lprec(*r) >= 3);
            }
            assert(undisturbed(s2, *r));
            lemma_convert_expr(*r, s2);
            assert(rspine(*r) + (seq![op] + stack) =~= (rspine(*r) + seq![op]) + stack);
            assert(convert(render_tokens(e), stack).1 =~= body(*l) + (stack_tokens(rspine(*l))
                + body(*r)));
            assert(body(*l) + (stack_tokens(rspine(*l)) + body(*r)) =~= body(e));
        },
    }
}

/// The shunting-yard conversion turns the infix rendering of any
/// well-formed expression into exactly its RPN form.
pub proof fn lemma_to_rpn_expr(e: Expr)
    requires
        wf(e),
    ensures
        spec_to_rpn(render_tokens(e)) == rpn_tokens(e),
{
    lemma_convert_expr(e, Seq::<Operator>::empty());
    assert(rspine(e) + Seq::<Operator>::empty() =~= rspine(e));
    lemma_body_rspine(e);
}

/// Evaluating a concatenation of RPN sequences runs them in order on the
/// same stack, stopping at the first halt.
proof fn lemma_eval_append(a: Seq<Token>, b: Seq<Token>, stack: Seq<i64>)
    ensures
        eval_steps(a + b, stack) == match eval_steps(a, stack) {
            Ok(st) => eval_steps(b, st),
            Err(h) => Err(h),
        },
    decreases a.len(),
{
    if a.len() == 0 {
        assert(a + b =~= b);
    } else {
        assert((a + b)[0] == a[0]);
        assert((a + b).drop_first() =~= a.drop_first() + b);
        match a[0] {
            Token::Number(x) => {
                lemma_eval_append(a.drop_first(), b, stack.push(x));
            },
            Token::Operator(op) => {
                if op.is_arithmetic() && stack.len() >= 2 {
                    let v1 = stack[stack.len() - 2];
                    let v2 = stack[stack.len() - 1];
                    if !(op == Operator::Div && v2 == 0) && execute_defined(
                        op,
                        v1 as int,
                        v2 as int,
                    ) {
                        lemma_eval_append(
                            a.drop_first(),
                            b,
                            stack.take(stack.len() - 2).push(
                                spec_execute(op, v1 as int, v2 as int) as i64,
                            ),
                        );
                    }
                }
            },
        }
    }
}

/// The character of a decimal digit.
pub open spec fn char_of_digit(d: int) -> char {
    if d == 0 {
        '0'
    } else if d == 1 {
        '1'
    } else if d == 2 {
        '2'
    } else if d == 3 {
        '3'
    } else if d == 4 {
        '4'
    } else if d == 5 {
        '5'
    } else if d == 6 {
        '6'
    } else if d == 7 {
        '7'
    } else if d == 8 {
        '8'
    } else {
        '9'
    }
}

/// The decimal rendering of a non-negative integer, most significant digit
/// first.
pub open spec fn digits_of(n: int) -> Seq<char>
    recommends
        n >= 0,
    decreases n,
{
    if n < 10 {
        seq![char_of_digit(n)]
    } else {
        digits_of(n / 10).push(char_of_digit(n % 10))
    }
}

/// The value of a digit range depends only on the characters in it.
proof fn lemma_digits_value_agree(t1: Seq<char>, t2: Seq<char>, from: int, to: int)
    requires
        forall|k: int| from <= k < to ==> t1[k] == t2[k],
    ensures
        digits_value(t1, from, to) == digits_value(t2, from, to),
    decreases to - from,
{
    if from < to {
        lemma_digits_value_agree(t1, t2, from, to - 1);
    }
}

/// The decimal rendering consists of digits and reads back to the number.
proof fn lemma_digits_of(n: int)
    requires
        n >= 0,
    ensures
        digits_of(n).len() >= 1,
        forall|i: int| 0 <= i < digits_of(n).len() ==> is_digit_char(#[trigger] digits_of(n)[i]),
        digits_value(digits_of(n), 0, digits_of(n).len() as int) == n,
    decreases n,
{
    if 0 <= n < 10 {
        assert(is_digit_char(char_of_digit(n)) && digit_val(char_of_digit(n)) == n);
        assert(digits_value(digits_of(n), 0, 0) == 0);
    } else {
        lemma_digits_of(n / 10);
        let prefix = digits_of(n / 10);
        let s = digits_of(n);
        assert(s == prefix.push(char_of_digit(n % 10)));
        assert(forall|i: int| 0 <= i < prefix.len() ==> s[i] == prefix[i]);
        assert(is_digit_char(char_of_digit(n % 10)) && digit_val(char_of_digit(n % 10)) == n % 10);
        lemma_digits_value_agree(s, prefix, 0, prefix.len() as int);
        assert(digits_value(s, 0, s.len() as int) == digits_value(s, 0, prefix.len() as int) * 10
            + digit_val(s[s.len() - 1]));
        assert((n / 10) * 10 + n % 10 == n);
    }
}

/// A digit sequence followed by anything that does not start with a digit
/// forms a maximal digit run of exactly its own length.
proof fn lemma_digit_run_concat(a: Seq<char>, rest: Seq<char>)
    requires
        forall|i: int| 0 <= i < a.len() ==> is_digit_char(#[trigger] a[i]),
        rest.len() == 0 || !is_digit_char(rest[0]),
    ensures
        digit_run_len(a + rest) == a.len(),
    decreases a.len(),
{
    if a.len() == 0 {
        assert(a + rest =~= rest);
    } else {
        assert((a + rest)[0] == a[0]);
        assert((a + rest).drop_first() =~= a.drop_first() + rest);
        assert(forall|i: int|
            0 <= i < a.drop_first().len() ==> (#[trigger] a.drop_first()[i]) == a[i + 1]);
        lemma_digit_run_concat(a.drop_first(), rest);
    }
}

/// The character an operator is written as.
pub open spec fn op_char(op: Operator) -> char {
    match op {
        Operator::LeftBracket => '(',
        Operator::RightBracket => ')',
        Operator::Prod => '*',
        Operator::Div => '/',
        Operator::Sub => '-',
        Operator::Add => '+',
    }
}

/// The string rendering of an expression: decimal literals, operator
/// characters and brackets, without whitespace.
pub open spec fn render_str(e: Expr) -> Seq<char>
    decreases e,
{
    match e {
        Expr::Num(n) => digits_of(n as int),
        Expr::Group(inner) => seq!['('] + render_str(*inner) + seq![')'],
        Expr::Bin(op, l, r) => render_str(*l) + seq![op_char(op)] + render_str(*r),
    }
}

/// A rendering ends in a number or a closing bracket, never in an
/// operator that the tokenizer's adjacency rules would reject.
proof fn lemma_render_tokens_last(e: Expr)
    requires
        wf(e),
    ensures
        render_tokens(e).len() >= 1,
        render_tokens(e).last() matches Token::Number(_) || render_tokens(e).last()
            == Token::Operator(Operator::RightBracket),
    decreases e,
{
    match e {
        Expr::Num(_) => {},
        Expr::Group(inner) => {
            lemma_render_tokens_nonempty(*inner);
        },
        Expr::Bin(op, l, r) => {
            lemma_render_tokens_nonempty(*l);
            lemma_render_tokens_last(*r);
            assert(render_tokens(e).last() == render_tokens(*r).last());
        },
    }
}

/// Tokenizing the rendering of a well-formed expression, in any state with
/// at least as many open as closed brackets, emits exactly its tokens: the
/// pending sign is flushed first and the state is otherwise untouched.
pub proof fn lemma_tok_render(
    e: Expr,
    rest: Seq<char>,
    toks: Seq<Token>,
    pending: Option<bool>,
    depth: int,
)
    requires
        wf(e),
        depth >= 0,
        rest.len() == 0 || !is_digit_char(rest[0]),
    ensures
        tok_run(render_str(e) + rest, toks, pending, depth) == tok_run(
            rest,
            flush_pending(toks, pending) + render_tokens(e),
            None,
            depth,
        ),
    decreases e,
{
    let flushed = flush_pending(toks, pending);
    match e {
        Expr::Num(n) => {
            let s = digits_of(n as int);
            lemma_digits_of(n as int);
            let t = s + rest;
            assert(t[0] == s[0]);
            lemma_digit_run_concat(s, rest);
            assert(forall|k: int| 0 <= k < s.len() ==> t[k] == s[k]);
            lemma_digits_value_agree(t, s, 0, s.len() as int);
            assert(digits_value(t, 0, s.len() as int) == n);
            assert(t.skip(s.len() as int) =~= rest);
            assert(flushed.push(Token::Number(n)) =~= flushed + render_tokens(e));
        },
        Expr::Group(inner) => {
            let t = render_str(e) + rest;
            let inner_rest = seq![')'] + rest;
            assert(t =~= seq!['('] + (render_str(*inner) + inner_rest));
            assert(t[0] == '(');
            assert(!is_digit_char('('));
            assert(t.skip(1) =~= render_str(*inner) + inner_rest);
            let opened = flushed.push(Token::Operator(Operator::LeftBracket));
            assert(tok_run(t, toks, pending, depth) == tok_run(
                t.skip(1),
                opened,
                None,
                depth + 1,
            ));
            assert(inner_rest[0] == ')');
            assert(!is_digit_char(')'));
            lemma_tok_render(*inner, inner_rest, opened, None, depth + 1);
            assert(flush_pending(opened, None) == opened);
            let emitted = opened + render_tokens(*inner);
            lemma_render_tokens_last(*inner);
            assert(emitted.last() == render_tokens(*inner).last());
            assert(!last_is_mul_div(emitted));
            assert(inner_rest.skip(1) =~= rest);
            assert(tok_run(inner_rest, emitted, None, depth + 1) == tok_run(
                rest,
                emitted.push(Token::Operator(Operator::RightBracket)),
                None,
                depth,
            ));
            assert(emitted.push(Token::Operator(Operator::RightBracket)) =~= flushed
                + render_tokens(e));
        },
        Expr::Bin(op, l, r) => {
            let sl = render_str(*l);
            let sr = render_str(*r);
            let c = op_char(op);
            let t = render_str(e) + rest;
            let rest1 = seq![c] + (sr + rest);
            assert(t =~= sl + rest1);
            assert(rest1[0] == c);
            assert(!is_digit_char(c));
            lemma_tok_render(*l, rest1, toks, pending, depth);
            let toks1 = flushed + render_tokens(*l);
            assert(rest1.skip(1) =~= sr + rest);
            if op == Operator::Add || op == Operator::Sub {
                let neg = op == Operator::Sub;
                assert((c == '-') == neg);
                assert(fold_sign(None, c == '-') == Some::<bool>(neg));
                assert(tok_run(rest1, toks1, None, depth) == tok_run(
                    sr + rest,
                    toks1,
                    Some(neg),
                    depth,
                ));
                lemma_tok_render(*r, rest, toks1, Some(neg), depth);
                assert(flush_pending(toks1, Some(neg)) == toks1.push(Token::Operator(op)));
                assert(toks1.push(Token::Operator(op)) + render_tokens(*r) =~= flushed
                    + render_tokens(e));
            } else {
                lemma_render_tokens_last(*l);
                assert(toks1.last() == render_tokens(*l).last());
                assert(!last_is_mul_div(toks1));
                assert(c == '*' || c == '/');
                let toks2 = toks1.push(Token::Operator(op));
                assert(tok_run(rest1, toks1, None, depth) == tok_run(
                    sr + rest,
                    toks2,
                    None,
                    depth,
                ));
                lemma_tok_render(*r, rest, toks2, None, depth);
                assert(flush_pending(toks2, None) == toks2);
                assert(toks2 + render_tokens(*r) =~= flushed + render_tokens(e));
            }
        },
    }
}

/// The central law of the pipeline: rendering any well-formed expression
/// whose operations are all defined, and evaluating the rendering, yields
/// exactly the mathematical value of the expression, with the usual
/// precedence and left-associativity.
pub proof fn lemma_estimate_correct(e: Expr)
    requires
        wf(e),
        defined(e),
    ensures
        spec_estimate(render_str(e)) == EstimateOutcome::Value(value(e) as i64),
{
    lemma_tok_render(e, Seq::<char>::empty(), Seq::<Token>::empty(), None, 0);
    assert(render_str(e) + Seq::<char>::empty() =~= render_str(e));
    assert(Seq::<Token>::empty() + render_tokens(e) =~= render_tokens(e));
    assert(tok_run(Seq::<char>::empty(), render_tokens(e), None, 0) == Ok::<Seq<Token>, Error>(
        render_tokens(e),
    ));
    assert(spec_tokenize(render_str(e)) == Ok::<Seq<Token>, Error>(render_tokens(e)));
    lemma_to_rpn_expr(e);
    lemma_eval_expr(e, Seq::<i64>::empty());
    let stack = Seq::<i64>::empty().push(value(e) as i64);
    assert(stack.len() == 1);
    assert(stack[0] == value(e) as i64);
}

/// Evaluating the RPN form of a well-formed, defined expression pushes its
/// value and touches nothing beneath.
pub proof fn lemma_eval_expr(e: Expr, stack: Seq<i64>)
    requires
        wf(e),
        defined(e),
    ensures
        eval_steps(rpn_tokens(e), stack) == Ok::<Seq<i64>, EvalHalt>(
            stack.push(value(e) as i64),
        ),
    decreases e,
{
    match e {
        Expr::Num(n) => {
            assert(rpn_tokens(e)[0] == Token::Number(n));
            assert(rpn_tokens(e).drop_first() =~= Seq::<Token>::empty());
            assert(value(e) as i64 == n);
            assert(eval_steps(Seq::<Token>::empty(), stack.push(n)) == Ok::<Seq<i64>, EvalHalt>(
                stack.push(n),
            ));
            assert(eval_steps(rpn_tokens(e), stack) == eval_steps(
                rpn_tokens(e).drop_first(),
                stack.push(n),
            ));
        },
        Expr::Group(inner) => {
            lemma_eval_expr(*inner, stack);
        },
        Expr::Bin(op, l, r) => {
            lemma_value_in_range(*l);
            lemma_value_in_range(*r);
            lemma_value_in_range(e);
            lemma_eval_expr(*l, stack);
            let st1 = stack.push(value(*l) as i64);
            lemma_eval_expr(*r, st1);
            let st2 = st1.push(value(*r) as i64);
            assert(rpn_tokens(e) =~= rpn_tokens(*l) + (rpn_tokens(*r) + seq![
                Token::Operator(op),
            ]));
            lemma_eval_append(rpn_tokens(*l), rpn_tokens(*r) + seq![Token::Operator(op)], stack);
            lemma_eval_append(rpn_tokens(*r), seq![Token::Operator(op)], st1);
            let opseq = seq![Token::Operator(op)];
            assert(opseq[0] == Token::Operator(op));
            assert(opseq.drop_first() =~= Seq::<Token>::empty());
            assert(st2.len() == stack.len() + 2);
            assert(st2[st2.len() - 2] == value(*l) as i64);
            assert(st2[st2.len() - 1] == value(*r) as i64);
            assert(value(*l) as i64 as int == value(*l));
            assert(value(*r) as i64 as int == value(*r));
            assert(op == Operator::Div ==> value(*r) as i64 != 0);
            assert(execute_defined(op, value(*l), value(*r)));
            assert(spec_execute(op, value(*l), value(*r)) as i64 == value(e) as i64);
            assert(st2.len() - 2 == stack.len() as int);
            assert forall|i: int| 0 <= i < stack.len() implies st2.take(stack.len() as int)[i]
                == stack[i] by {
                assert(st2.take(stack.len() as int)[i] == st2[i]);
                assert(st2[i] == st1[i]);
                assert(st1[i] == stack[i]);
            }
            assert(st2.take(stack.len() as int).len() == stack.len());
            assert(st2.take(st2.len() - 2) =~= stack);
            let v1 = st2[st2.len() - 2];
            let v2 = st2[st2.len() - 1];
            assert(v1 as int == value(*l));
            assert(v2 as int == value(*r));
            assert(execute_defined(op, v1 as int, v2 as int));
            assert(!(op == Operator::Div && v2 == 0));
            let produced = st2.take(st2.len() - 2).push(
                spec_execute(op, v1 as int, v2 as int) as i64,
            );
            assert(produced == stack.push(value(e) as i64));
            assert(eval_steps(Seq::<Token>::empty(), produced) == Ok::<Seq<i64>, EvalHalt>(
                produced,
            ));
            assert(opseq.drop_first() == Seq::<Token>::empty());
            assert(eval_steps(opseq, st2) == eval_steps(opseq.drop_first(), produced));
            assert(eval_steps(opseq, st2) == Ok::<Seq<i64>, EvalHalt>(
                stack.push(value(e) as i64),
            ));
        },
    }
}

/// Whether a run of sign characters multiplies out to a negative sign.
pub open spec fn signs_negative(run: Seq<char>) -> bool
    decreases run.len(),
{
    if run.len() == 0 {
        false
    } else {
        (run[0] == '-') != signs_negative(run.drop_first())
    }
}

/// Sign-folding: in any tokenizer state and any context, a run of
/// consecutive `+`/`-` characters tokenizes exactly as the single sign
/// that is the product of its signs, `+` acting as identity and `-` as
/// inversion.
pub proof fn lemma_sign_folding(
    run: Seq<char>,
    rest: Seq<char>,
    toks: Seq<Token>,
    pending: Option<bool>,
    depth: int,
)
    requires
        run.len() >= 1,
        forall|i: int| 0 <= i < run.len() ==> run[i] == '+' || run[i] == '-',
    ensures
        tok_run(run + rest, toks, pending, depth) == tok_run(
            seq![if signs_negative(run) { '-' } else { '+' }] + rest,
            toks,
            pending,
            depth,
        ),
    decreases run.len(),
{
    let c0 = run[0];
    let t = run + rest;
    assert(t[0] == c0);
    assert(!is_digit_char(c0));
    assert(t.skip(1) =~= run.drop_first() + rest);
    let p1 = fold_sign(pending, c0 == '-');
    let cf = if signs_negative(run) { '-' } else { '+' };
    let t2 = seq![cf] + rest;
    assert(t2[0] == cf);
    assert(!is_digit_char(cf));
    assert(t2.skip(1) =~= rest);
    if run.len() == 1 {
        assert(run.drop_first() + rest =~= rest);
        assert(signs_negative(run.drop_first()) == false);
        assert((cf == '-') == (c0 == '-'));
        assert(fold_sign(pending, cf == '-') == p1);
    } else {
        assert(forall|i: int|
            0 <= i < run.drop_first().len() ==> (#[trigger] run.drop_first()[i]) == run[i + 1]);
        lemma_sign_folding(run.drop_first(), rest, toks, p1, depth);
        let c1 = if signs_negative(run.drop_first()) {
            '-'
        } else {
            '+'
        };
        let t1 = seq![c1] + rest;
        assert(t1[0] == c1);
        assert(!is_digit_char(c1));
        assert(t1.skip(1) =~= rest);
        assert((cf == '-') == ((c0 == '-') != (c1 == '-')));
        assert(fold_sign(p1, c1 == '-') == fold_sign(pending, cf == '-'));
    }
}

/// A space never changes the tokenizer's state: whitespace is
/// insignificant, and in particular does not interrupt a run of signs.
pub proof fn lemma_space_skipped(
    rest: Seq<char>,
    toks: Seq<Token>,
    pending: Option<bool>,
    depth: int,
)
    ensures
        tok_run(seq![' '] + rest, toks, pending, depth) == tok_run(rest, toks, pending, depth),
{
    let t = seq![' '] + rest;
    assert(t[0] == ' ');
    assert(!is_digit_char(' '));
    assert(t.skip(1) =~= rest);
}

/// Evaluation has no hidden state: the outcome is a function of the input
/// string alone, so evaluating the same string twice yields the same
/// value or the same error.
pub proof fn lemma_estimate_deterministic(s1: Seq<char>, s2: Seq<char>)
    requires
        s1 == s2,
    ensures
        spec_estimate(s1) == spec_estimate(s2),
{
}

/// Division truncates toward zero: the remainder it leaves is smaller in
/// magnitude than the divisor and carries the sign of the dividend.
pub proof fn lemma_division_truncates(a: int, b: int)
    requires
        b != 0,
    ensures
        vstd::math::abs(a - b * div_trunc(a, b)) < vstd::math::abs(b),
        a >= 0 ==> a - b * div_trunc(a, b) >= 0,
        a <= 0 ==> a - b * div_trunc(a, b) <= 0,
{
    if a == 0 {
    } else if a > 0 && b > 0 {
        vstd::arithmetic::div_mod::lemma_fundamental_div_mod(a, b);
        vstd::arithmetic::div_mod::lemma_mod_bound(a, b);
    } else if a < 0 && b < 0 {
        let x = a * -1;
        let d = b * -1;
        vstd::arithmetic::div_mod::lemma_fundamental_div_mod(x, d);
        vstd::arithmetic::div_mod::lemma_mod_bound(x, d);
        assert(div_trunc(a, b) == x / d);
        assert(b * (x / d) == (d * (x / d)) * -1) by (nonlinear_arith)
            requires
                d == b * -1,
        ;
        assert(a - b * div_trunc(a, b) == (x % d) * -1);
    } else if a < 0 {
        let x = a * -1;
        vstd::arithmetic::div_mod::lemma_fundamental_div_mod(x, b);
        vstd::arithmetic::div_mod::lemma_mod_bound(x, b);
        assert(div_trunc(a, b) == (x / b) * -1);
        assert(b * ((x / b) * -1) == (b * (x / b)) * -1) by (nonlinear_arith);
        assert(a - b * div_trunc(a, b) == (x % b) * -1);
    } else {
        let d = b * -1;
        vstd::arithmetic::div_mod::lemma_fundamental_div_mod(a, d);
        vstd::arithmetic::div_mod::lemma_mod_bound(a, d);
        assert(div_trunc(a, b) == (a / d) * -1);
        assert(b * ((a / d) * -1) == d * (a / d)) by (nonlinear_arith)
            requires
                d == b * -1,
        ;
        assert(a - b * div_trunc(a, b) == a % d);
    }
}

/// Empty or whitespace-only input yields no value: its token sequence is
/// empty, and evaluation rejects the empty RPN stream.
pub proof fn lemma_blank_input_rejected(s: Seq<char>)
    requires
        forall|i: int| 0 <= i < s.len() ==> s[i] == ' ',
    ensures
        spec_estimate(s) == EstimateOutcome::MalformedRpn(Seq::<Token>::empty()),
    decreases s.len(),
{
    lemma_blank_tokenizes_empty(s);
    assert(spec_tokenize(s) == Ok::<Seq<Token>, Error>(Seq::<Token>::empty()));
    let empty_tokens = Seq::<Token>::empty();
    assert(convert(empty_tokens, Seq::<Operator>::empty()) == (
        Seq::<Operator>::empty(),
        Seq::<Token>::empty(),
    ));
    assert(stack_tokens(Seq::<Operator>::empty()) == Seq::<Token>::empty());
    assert(spec_to_rpn(empty_tokens) =~= Seq::<Token>::empty());
    assert(eval_steps(Seq::<Token>::empty(), Seq::<i64>::empty()) == Ok::<Seq<i64>, EvalHalt>(
        Seq::<i64>::empty(),
    ));
}

/// A string of spaces tokenizes to no tokens at all.
proof fn lemma_blank_tokenizes_empty(s: Seq<char>)
    requires
        forall|i: int| 0 <= i < s.len() ==> s[i] == ' ',
    ensures
        tok_run(s, Seq::<Token>::empty(), None, 0) == Ok::<Seq<Token>, Error>(
            Seq::<Token>::empty(),
        ),
    decreases s.len(),
{
    if s.len() > 0 {
        assert(s[0] == ' ');
        assert(!is_digit_char(' '));
        assert(forall|i: int|
            0 <= i < s.drop_first().len() ==> (#[trigger] s.drop_first()[i]) == s[i + 1]);
        assert(s.skip(1) =~= s.drop_first());
        lemma_blank_tokenizes_empty(s.drop_first());
    }
}

} // verus!
