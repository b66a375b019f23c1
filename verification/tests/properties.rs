use rpn_calc::ArithmeticKind;
use rpn_calc::Error;
use rpn_calc::InvalidKind;
use rpn_calc::estimate_expression;
use rpn_calc::get_number;

#[test]
fn sign_folding_double_negative() {
    assert_eq!(estimate_expression("9--3"), Ok(12));
    assert_eq!(estimate_expression("9+3"), Ok(12));
    assert_eq!(estimate_expression("4 + 18/(9--3)"), Ok(5));
}

#[test]
fn sign_folding_negative_positive() {
    assert_eq!(estimate_expression("4+18/(9-+3)"), Ok(7));
}

#[test]
fn sign_folding_across_spaces() {
    assert_eq!(estimate_expression("9- -3"), Ok(12));
    assert_eq!(estimate_expression("9 - - 3"), Ok(12));
    assert_eq!(estimate_expression("9---3"), Ok(6));
}

#[test]
fn invalid_operator_stacking_is_rejected() {
    assert_eq!(
        estimate_expression("4 + 18/(9-*3)"),
        Err(Error::InvalidSyntax)
    );
    assert_eq!(
        estimate_expression("4 + 18/(9-/3)"),
        Err(Error::InvalidSyntax)
    );
    assert_eq!(estimate_expression("4*/2"), Err(Error::InvalidSyntax));
    assert_eq!(estimate_expression("(4+)"), Err(Error::InvalidSyntax));
}

#[test]
fn evaluation_is_repeatable() {
    assert_eq!(estimate_expression("3*6-7+2"), estimate_expression("3*6-7+2"));
    assert_eq!(
        estimate_expression("4 + 18/(9-*3)"),
        estimate_expression("4 + 18/(9-*3)")
    );
}

#[test]
fn division_truncates_toward_zero() {
    assert_eq!(estimate_expression("7/2"), Ok(3));
    assert_eq!(estimate_expression("(0-7)/2"), Ok(-3));
    assert_eq!(estimate_expression("0-7/2"), Ok(-3));
}

#[test]
fn leading_sign_is_a_binary_operator() {
    // A leading sign has no left operand, so the RPN stream is
    // under-supplied and evaluation rejects it.
    assert!(matches!(
        estimate_expression("-7/2"),
        Err(Error::InvalidRpn(_))
    ));
}

#[test]
fn empty_and_blank_input_fail() {
    assert_eq!(estimate_expression(""), Err(Error::InvalidRpn(vec![])));
    assert_eq!(estimate_expression("     "), Err(Error::InvalidRpn(vec![])));
    assert!(matches!(estimate_expression("()"), Err(Error::InvalidRpn(_))));
}

#[test]
fn precedence_and_left_associativity() {
    assert_eq!(estimate_expression("3*6-7+2"), Ok(13));
    assert_eq!(estimate_expression("(3+4)+7*2-1-9"), Ok(11));
    assert_eq!(estimate_expression("2+3*4"), Ok(14));
    assert_eq!(estimate_expression("20/2/5"), Ok(2));
    assert_eq!(estimate_expression("8-3-2"), Ok(3));
    assert_eq!(estimate_expression("(1+2)*3"), Ok(9));
}

#[test]
fn unknown_character_is_rejected() {
    assert_eq!(
        estimate_expression("4%5"),
        Err(Error::InvalidExpression(InvalidKind::UnknownChar('%')))
    );
}

#[test]
fn unbalanced_brackets_are_rejected() {
    assert_eq!(
        estimate_expression("(4+2"),
        Err(Error::InvalidExpression(InvalidKind::UnbalancedBracket))
    );
    assert_eq!(
        estimate_expression("4+2)"),
        Err(Error::InvalidExpression(InvalidKind::UnbalancedBracket))
    );
}

#[test]
fn number_width_limits() {
    assert_eq!(
        estimate_expression("9223372036854775807"),
        Ok(i64::MAX)
    );
    assert_eq!(
        estimate_expression("9223372036854775808"),
        Err(Error::NumberParse)
    );
    assert_eq!(
        estimate_expression("99999999999999999999"),
        Err(Error::NumberParse)
    );
}

#[test]
fn arithmetic_failures_are_typed() {
    assert_eq!(
        estimate_expression("4/0"),
        Err(Error::Arithmetic(ArithmeticKind::DivisionByZero))
    );
    assert_eq!(
        estimate_expression("9223372036854775807+1"),
        Err(Error::Arithmetic(ArithmeticKind::Overflow))
    );
    assert_eq!(
        estimate_expression("(0-9223372036854775807-1)/(0-1)"),
        Err(Error::Arithmetic(ArithmeticKind::Overflow))
    );
}

#[test]
fn digit_runs_parse_as_one_number() {
    assert_eq!(get_number("123+4", 0), (Ok(123), 3));
    assert_eq!(get_number("45 6", 1), (Ok(5), 2));
    assert_eq!(get_number("99999999999999999999", 0).0, Err(Error::NumberParse));
}

#[test]
fn extra_operands_yield_the_first() {
    // Two numbers with no operator leave two operands on the stack; the
    // bottom of the stack is reported, as the evaluator specifies.
    assert_eq!(estimate_expression("12 34"), Ok(12));
}
