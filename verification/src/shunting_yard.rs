//! Conversion of infix token sequences to Reverse Polish Notation and
//! evaluation of the RPN form.

use vstd::prelude::*;

use crate::ArithmeticKind;
use crate::Error;
use crate::eval::Operator;
use crate::eval::Token;
use crate::eval::execute_defined;
use crate::eval::parse_expr;
use crate::eval::spec_execute;
use crate::eval::spec_tokenize;

verus! {

/// Why evaluation of an RPN sequence stops without a value.
#[derive(Debug, PartialEq, Eq, Structural, Copy, Clone)]
pub enum EvalHalt {
    /// A bracket token reached evaluation, or an operator found fewer than
    /// two operands on the stack.
    Malformed,
    /// An operator was applied but its result is not a representable value.
    Arith(ArithmeticKind),
}

/// The operators of a stack, top first, each wrapped as a token.
pub open spec fn stack_tokens(stack: Seq<Operator>) -> Seq<Token>
    decreases stack.len(),
{
    if stack.len() == 0 {
        seq![]
    } else {
        seq![Token::Operator(stack[0])] + stack_tokens(stack.drop_first())
    }
}

/// Operators popped for an incoming arithmetic operator `op`: every
/// operator above the nearest left bracket whose precedence is greater than
/// or equal to that of `op` leaves the stack, emitted in pop order.
/// The tie on equal precedence pops, which makes operators left-associative.
pub open spec fn pop_for_op(stack: Seq<Operator>, op: Operator) -> (Seq<Operator>, Seq<Token>)
    decreases stack.len(),
{
    if stack.len() > 0 && stack[0] != Operator::LeftBracket && stack[0].spec_precedence()
        >= op.spec_precedence() {
        let r = pop_for_op(stack.drop_first(), op);
        (r.0, seq![Token::Operator(stack[0])] + r.1)
    } else {
        (stack, seq![])
    }
}

/// Operators popped for a closing bracket: everything above the nearest
/// left bracket is emitted, and the left bracket itself is discarded. An
/// unmatched closing bracket leaves an empty stack unchanged.
pub open spec fn pop_for_bracket(stack: Seq<Operator>) -> (Seq<Operator>, Seq<Token>)
    decreases stack.len(),
{
    if stack.len() > 0 && stack[0] != Operator::LeftBracket {
        let r = pop_for_bracket(stack.drop_first());
        (r.0, seq![Token::Operator(stack[0])] + r.1)
    } else if stack.len() > 0 {
        (stack.drop_first(), seq![])
    } else {
        (stack, seq![])
    }
}

/// One step of the shunting-yard conversion: the stack after seeing `tok`
/// and the tokens emitted to the output.
pub open spec fn convert_step(tok: Token, stack: Seq<Operator>) -> (Seq<Operator>, Seq<Token>) {
    match tok {
        Token::Number(_) => (stack, seq![tok]),
        Token::Operator(op) => {
            if op == Operator::LeftBracket {
                (seq![op] + stack, seq![])
            } else if op == Operator::RightBracket {
                pop_for_bracket(stack)
            } else {
                let r = pop_for_op(stack, op);
                (seq![op] + r.0, r.1)
            }
        },
    }
}

/// The shunting-yard conversion over a whole token sequence, starting from
/// `stack`: the final stack and everything emitted to the output.
pub open spec fn convert(tokens: Seq<Token>, stack: Seq<Operator>) -> (Seq<Operator>, Seq<Token>)
    decreases tokens.len(),
{
    if tokens.len() == 0 {
        (stack, seq![])
    } else {
        let s = convert_step(tokens[0], stack);
        let rest = convert(tokens.drop_first(), s.0);
        (rest.0, s.1 + rest.1)
    }
}

/// The RPN form of an infix token sequence: run the conversion from an
/// empty stack, then flush the remaining operators, topmost first.
pub open spec fn spec_to_rpn(tokens: Seq<Token>) -> Seq<Token> {
    let r = convert(tokens, seq![]);
    r.1 + stack_tokens(r.0)
}

/// Evaluation of an RPN sequence on an operand stack. A number pushes its
/// value; an arithmetic operator pops the two most recent operands — the
/// older is the left-hand one — and pushes the result. The final stack is
/// returned; malformed streams and arithmetic failures halt evaluation.
pub open spec fn eval_steps(rpn: Seq<Token>, stack: Seq<i64>) -> Result<Seq<i64>, EvalHalt>
    decreases rpn.len(),
{
    if rpn.len() == 0 {
        Ok(stack)
    } else {
        match rpn[0] {
            Token::Number(x) => eval_steps(rpn.drop_first(), stack.push(x)),
            Token::Operator(op) => {
                if !op.is_arithmetic() || stack.len() < 2 {
                    Err(EvalHalt::Malformed)
                } else {
                    let v1 = stack[stack.len() - 2];
                    let v2 = stack[stack.len() - 1];
                    if op == Operator::Div && v2 == 0 {
                        Err(EvalHalt::Arith(ArithmeticKind::DivisionByZero))
                    } else if !execute_defined(op, v1 as int, v2 as int) {
                        Err(EvalHalt::Arith(ArithmeticKind::Overflow))
                    } else {
                        eval_steps(
                            rpn.drop_first(),
                            stack.take(stack.len() - 2).push(
                                spec_execute(op, v1 as int, v2 as int) as i64,
                            ),
                        )
                    }
                }
            },
        }
    }
}

/// The executable result `r` of evaluating the RPN sequence `rpn` agrees
/// with `eval_steps`: the bottom of a non-empty final stack is the value,
/// an empty or malformed stream is quoted in an `InvalidRpn` error, and an
/// arithmetic halt surfaces as an arithmetic error.
pub open spec fn compute_matches(r: Result<i64, Error>, rpn: Seq<Token>) -> bool {
    match eval_steps(rpn, seq![]) {
        Ok(stack) => {
            if stack.len() == 0 {
                match r {
                    Err(Error::InvalidRpn(q)) => q@ == rpn,
                    _ => false,
                }
            } else {
                r == Ok::<i64, Error>(stack[0])
            }
        },
        Err(EvalHalt::Malformed) => match r {
            Err(Error::InvalidRpn(q)) => q@ == rpn,
            _ => false,
        },
        Err(EvalHalt::Arith(k)) => r == Err::<i64, Error>(Error::Arithmetic(k)),
    }
}

/// State of one evaluation: the infix tokens, the operator stack of the
/// conversion, and the output queue holding the RPN form in reverse, its
/// first element being the last RPN token.
#[derive(Debug, PartialEq)]
pub struct ShuntingYard {
    pub operator_stack: Vec<Operator>,
    pub output_queue: Vec<Token>,
    pub tokens: Vec<Token>,
}

impl ShuntingYard {
    /// The RPN sequence held by the output queue, read in postfix order.
    pub open spec fn rpn(self) -> Seq<Token> {
        self.output_queue@.reverse()
    }

    /// Tokenize `expr` into a fresh state with empty stack and queue.
    pub fn new(expr: &str) -> (r: Result<ShuntingYard, Error>)
        ensures
            ({
                match spec_tokenize(expr@) {
                    Ok(toks) => match r {
                        Ok(sy) => sy.tokens@ == toks && sy.operator_stack@ == Seq::<
                            Operator,
                        >::empty() && sy.output_queue@ == Seq::<Token>::empty(),
                        Err(_) => false,
                    },
                    Err(e) => r == Err::<ShuntingYard, Error>(e),
                }
            }),
    {
        match parse_expr(expr) {
            Ok(tokens) => Ok(
                ShuntingYard { operator_stack: Vec::new(), output_queue: Vec::new(), tokens },
            ),
            Err(e) => Err(e),
        }
    }

    /// Convert the infix tokens to RPN, prepending each emitted token to
    /// the output queue. The emitted tokens are exactly `convert` of the
    /// tokens over the current operator stack followed by a flush of the
    /// remaining operators; the remaining operators stay on the stack.
    pub fn to_rpn(&mut self) -> (ret: &mut Self)
        ensures
            ret.tokens@ == old(self).tokens@,
            ret.operator_stack@ == convert(old(self).tokens@, old(self).operator_stack@).0,
            ret.output_queue@ == ({
                let r = convert(old(self).tokens@, old(self).operator_stack@);
                (r.1 + stack_tokens(r.0)).reverse() + old(self).output_queue@
            }),
            *final(self) == *final(ret),
    {
        let ghost t0 = self.tokens@;
        let ghost s0 = self.operator_stack@;
        let ghost q0 = self.output_queue@;
        let n = self.tokens.len();
        let mut idx: usize = 0;
        let ghost mut emitted: Seq<Token> = Seq::empty();
        proof {
            assert(t0.skip(0) =~= t0);
        }
        while idx < n
            invariant
                n == t0.len(),
                idx <= n,
                self.tokens@ == t0,
                convert(t0, s0).0 == convert(t0.skip(idx as int), self.operator_stack@).0,
                convert(t0, s0).1 == emitted + convert(t0.skip(idx as int), self.operator_stack@).1,
                self.output_queue@ == emitted.reverse() + q0,
            decreases n - idx,
        {
            let ghost rest = t0.skip(idx as int);
            proof {
                assert(rest[0] == t0[idx as int]);
                assert(rest.drop_first() =~= t0.skip(idx as int + 1));
            }
            let ghost st_before = self.operator_stack@;
            let ghost em_before = emitted;
            let token = self.tokens[idx];
            match token {
                Token::Number(_) => {
                    self.output_queue.insert(0, token);
                    proof {
                        emitted = em_before + seq![token];
                        assert(self.output_queue@ =~= emitted.reverse() + q0);
                    }
                },
                Token::Operator(op) => {
                    if op == Operator::LeftBracket {
                        self.operator_stack.insert(0, op);
                        proof {
                            emitted = em_before + Seq::<Token>::empty();
                            assert(emitted =~= em_before);
                            assert(self.operator_stack@ =~= seq![op] + st_before);
                        }
                    } else if op == Operator::RightBracket {
                        let ghost entry = self.operator_stack@;
                        let ghost mut popped: Seq<Token> = Seq::empty();
                        loop
                            invariant_except_break
                                pop_for_bracket(entry).0 == pop_for_bracket(
                                    self.operator_stack@,
                                ).0,
                                pop_for_bracket(entry).1 == popped + pop_for_bracket(
                                    self.operator_stack@,
                                ).1,
                                self.output_queue@ == popped.reverse() + emitted.reverse() + q0,
                            invariant
                                self.tokens@ == t0,
                            ensures
                                self.operator_stack@ == pop_for_bracket(entry).0,
                                self.output_queue@ == pop_for_bracket(entry).1.reverse()
                                    + emitted.reverse() + q0,
                                self.tokens@ == t0,
                            decreases self.operator_stack@.len(),
                        {
                            if self.operator_stack.len() > 0 {
                                let top = self.operator_stack[0];
                                if top != Operator::LeftBracket {
                                    let popped_op = self.operator_stack.remove(0);
                                    self.output_queue.insert(0, Token::Operator(popped_op));
                                    proof {
                                        popped = popped.push(Token::Operator(popped_op));
                                        assert(popped.reverse() + emitted.reverse() + q0
                                            =~= seq![Token::Operator(popped_op)]
                                            + popped.drop_last().reverse() + emitted.reverse()
                                            + q0);
                                    }
                                } else {
                                    let ghost cur = self.operator_stack@;
                                    let _ = self.operator_stack.remove(0);
                                    proof {
                                        assert(self.operator_stack@ =~= cur.drop_first());
                                        assert(pop_for_bracket(cur).0 == cur.drop_first());
                                        assert(pop_for_bracket(cur).1 == Seq::<Token>::empty());
                                        assert(popped + Seq::<Token>::empty() =~= popped);
                                        assert(pop_for_bracket(entry).1.reverse() =~= popped.reverse());
                                    }
                                    break;
                                }
                            } else {
                                proof {
                                    assert(pop_for_bracket(entry).1.reverse() =~= popped.reverse());
                                }
                                break;
                            }
                        }
                        proof {
                            emitted = em_before + pop_for_bracket(st_before).1;
                            assert(emitted.reverse() =~= pop_for_bracket(st_before).1.reverse()
                                + em_before.reverse());
                            assert(self.output_queue@ =~= emitted.reverse() + q0);
                        }
                    } else {
                        let ghost entry = self.operator_stack@;
                        let ghost mut popped: Seq<Token> = Seq::empty();
                        loop
                            invariant
                                op.is_arithmetic(),
                                pop_for_op(entry, op).0 == pop_for_op(self.operator_stack@, op).0,
                                pop_for_op(entry, op).1 == popped + pop_for_op(
                                    self.operator_stack@,
                                    op,
                                ).1,
                                self.output_queue@ == popped.reverse() + emitted.reverse() + q0,
                                self.tokens@ == t0,
                            ensures
                                self.operator_stack@ == pop_for_op(entry, op).0,
                                self.output_queue@ == pop_for_op(entry, op).1.reverse()
                                    + emitted.reverse() + q0,
                                self.tokens@ == t0,
                            decreases self.operator_stack@.len(),
                        {
                            let mut do_pop = false;
                            if self.operator_stack.len() > 0 {
                                let top = self.operator_stack[0];
                                if top != Operator::LeftBracket && top.precedence()
                                    >= op.precedence() {
                                    do_pop = true;
                                }
                            }
                            if do_pop {
                                let popped_op = self.operator_stack.remove(0);
                                self.output_queue.insert(0, Token::Operator(popped_op));
                                proof {
                                    popped = popped.push(Token::Operator(popped_op));
                                    assert(popped.reverse() + emitted.reverse() + q0
                                        =~= seq![Token::Operator(popped_op)]
                                        + popped.drop_last().reverse() + emitted.reverse() + q0);
                                }
                            } else {
                                proof {
                                    assert(pop_for_op(entry, op).1.reverse() =~= popped.reverse());
                                }
                                break;
                            }
                        }
                        self.operator_stack.insert(0, op);
                        proof {
                            emitted = em_before + pop_for_op(st_before, op).1;
                            assert(self.operator_stack@ =~= seq![op] + pop_for_op(
                                st_before,
                                op,
                            ).0);
                            assert(emitted.reverse() =~= pop_for_op(st_before, op).1.reverse()
                                + em_before.reverse());
                            assert(self.output_queue@ =~= emitted.reverse() + q0);
                        }
                    }
                },
            }
            proof {
                let step = convert_step(rest[0], st_before);
                assert(self.operator_stack@ == step.0);
                assert(emitted == em_before + step.1);
                let tail = convert(t0.skip(idx as int + 1), step.0);
                assert(convert(rest, st_before).0 == tail.0);
                assert(convert(rest, st_before).1 == step.1 + tail.1);
                assert(em_before + (step.1 + tail.1) =~= (em_before + step.1) + tail.1);
            }
            idx = idx + 1;
        }
        proof {
            assert(t0.skip(n as int) =~= Seq::<Token>::empty());
        }
        let m = self.operator_stack.len();
        let mut k: usize = 0;
        let ghost final_stack = self.operator_stack@;
        let ghost before_flush = self.output_queue@;
        while k < m
            invariant
                m == final_stack.len(),
                k <= m,
                self.operator_stack@ == final_stack,
                self.tokens@ == t0,
                self.output_queue@ == stack_tokens(final_stack.take(k as int)).reverse()
                    + before_flush,
            decreases m - k,
        {
            let op = self.operator_stack[k];
            self.output_queue.insert(0, Token::Operator(op));
            proof {
                lemma_stack_tokens_take(final_stack, k as int);
                assert(stack_tokens(final_stack.take(k as int + 1)).reverse()
                    =~= seq![Token::Operator(final_stack[k as int])] + stack_tokens(
                    final_stack.take(k as int),
                ).reverse());
            }
            k = k + 1;
        }
        proof {
            assert(final_stack.take(m as int) =~= final_stack);
            let r = convert(t0, s0);
            assert((r.1 + stack_tokens(r.0)).reverse() =~= stack_tokens(r.0).reverse()
                + r.1.reverse());
            assert(self.output_queue@ =~= (r.1 + stack_tokens(r.0)).reverse() + q0);
        }
        self
    }

    /// Evaluate the RPN form held by the output queue, draining it.
    ///
    /// The bottom of the final operand stack is the result; an empty or
    /// under-supplied stream is rejected as `Error::InvalidRpn` quoting the
    /// stream in postfix order, and division by zero or a result outside
    /// the `i64` range as `Error::Arithmetic`.
    pub fn compute(&mut self) -> (r: Result<i64, Error>)
        ensures
            final(self).tokens@ == old(self).tokens@,
            final(self).operator_stack@ == old(self).operator_stack@,
            final(self).output_queue@.len() == 0,
            compute_matches(r, old(self).rpn()),
    {
        let ghost rpn0 = self.rpn();
        let mut quoted: Vec<Token> = Vec::new();
        let mut qi = self.output_queue.len();
        while qi > 0
            invariant
                qi <= self.output_queue@.len(),
                rpn0 == self.output_queue@.reverse(),
                quoted@ =~= rpn0.take(rpn0.len() - qi),
            decreases qi,
        {
            qi = qi - 1;
            let tok = self.output_queue[qi];
            quoted.push(tok);
            proof {
                assert(quoted@ =~= rpn0.take(rpn0.len() - qi));
            }
        }
        proof {
            assert(quoted@ =~= rpn0);
        }
        let mut stack: Vec<i64> = Vec::new();
        while self.output_queue.len() > 0
            invariant
                self.tokens@ == old(self).tokens@,
                self.operator_stack@ == old(self).operator_stack@,
                rpn0 == old(self).rpn(),
                quoted@ == rpn0,
                self.output_queue@.len() <= rpn0.len(),
                self.output_queue@ =~= rpn0.skip(rpn0.len() - self.output_queue@.len()).reverse(),
                eval_steps(rpn0, Seq::<i64>::empty()) == eval_steps(
                    rpn0.skip(rpn0.len() - self.output_queue@.len()),
                    stack@,
                ),
            decreases self.output_queue@.len(),
        {
            let ghost remaining = rpn0.skip(rpn0.len() - self.output_queue@.len());
            let token = self.output_queue.pop().unwrap();
            proof {
                assert(token == remaining[0]);
                assert(self.output_queue@ =~= remaining.drop_first().reverse());
                assert(remaining.drop_first() =~= rpn0.skip(
                    rpn0.len() - self.output_queue@.len(),
                ));
            }
            match token {
                Token::Number(x) => {
                    stack.push(x);
                },
                Token::Operator(op) => {
                    let arithmetic = match op {
                        Operator::LeftBracket => false,
                        Operator::RightBracket => false,
                        _ => true,
                    };
                    if !arithmetic || stack.len() < 2 {
                        self.output_queue.clear();
                        return Err(Error::InvalidRpn(quoted));
                    }
                    let ghost stack_before = stack@;
                    let v2 = stack.pop().unwrap();
                    let v1 = stack.pop().unwrap();
                    proof {
                        assert(v2 == stack_before[stack_before.len() - 1]);
                        assert(v1 == stack_before[stack_before.len() - 2]);
                        assert(stack@ =~= stack_before.take(stack_before.len() - 2));
                    }
                    match op.execute(v1, v2) {
                        Ok(v) => {
                            stack.push(v);
                        },
                        Err(e) => {
                            self.output_queue.clear();
                            return Err(e);
                        },
                    }
                },
            }
        }
        proof {
            assert(rpn0.skip(rpn0.len() - self.output_queue@.len()) =~= rpn0.skip(rpn0.len() as int));
            assert(rpn0.skip(rpn0.len() as int) =~= Seq::<Token>::empty());
        }
        if stack.len() == 0 {
            return Err(Error::InvalidRpn(quoted));
        }
        Ok(stack[0])
    }
}

/// Emitting one more operator of the stack extends the flushed prefix by
/// exactly that operator.
proof fn lemma_stack_tokens_take(stack: Seq<Operator>, k: int)
    requires
        0 <= k < stack.len(),
    ensures
        stack_tokens(stack.take(k + 1)) == stack_tokens(stack.take(k)).push(
            Token::Operator(stack[k]),
        ),
    decreases k,
{
    if k == 0 {
        assert(stack.take(1) =~= seq![stack[0]]);
        assert(stack.take(1).drop_first() =~= Seq::<Operator>::empty());
        assert(stack.take(0) =~= Seq::<Operator>::empty());
        assert(seq![stack[0]].drop_first() =~= Seq::<Operator>::empty());
        assert(stack_tokens(Seq::<Operator>::empty()) == Seq::<Token>::empty());
        assert(seq![stack[0]][0] == stack[0]);
        assert(stack_tokens(seq![stack[0]]) =~= seq![Token::Operator(stack[0])]);
    } else {
        lemma_stack_tokens_take(stack.drop_first(), k - 1);
        assert(stack.take(k + 1)[0] == stack[0]);
        assert(stack.take(k)[0] == stack[0]);
        assert(stack.take(k + 1).drop_first() =~= stack.drop_first().take(k));
        assert(stack.take(k).drop_first() =~= stack.drop_first().take(k - 1));
        assert(stack.drop_first()[k - 1] == stack[k]);
        assert(stack_tokens(stack.take(k + 1)) == seq![Token::Operator(stack[0])] + stack_tokens(
            stack.drop_first().take(k),
        ));
        assert(stack_tokens(stack.take(k)) == seq![Token::Operator(stack[0])] + stack_tokens(
            stack.drop_first().take(k - 1),
        ));
        assert(seq![Token::Operator(stack[0])] + stack_tokens(stack.drop_first().take(k - 1)).push(
            Token::Operator(stack[k]),
        ) =~= (seq![Token::Operator(stack[0])] + stack_tokens(stack.drop_first().take(k - 1))).push(
            Token::Operator(stack[k]),
        ));
    }
}

} // verus!
