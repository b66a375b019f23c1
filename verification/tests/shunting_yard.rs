use rpn_calc::Error;
use rpn_calc::Operator;
use rpn_calc::ShuntingYard;
use rpn_calc::Token;
use rpn_calc::parse_expr;

#[test]
fn test_shunting_yard_data_struct_from_expression_signed_negative() {
    let expression = "4 + 18/(9--3)";

    assert_eq!(
        parse_expr(expression).unwrap(),
        vec![
            Token::Number(4),                        // 4
            Token::Operator(Operator::Add),          // +
            Token::Number(18),                       // 18
            Token::Operator(Operator::Div),          // /
            Token::Operator(Operator::LeftBracket),  // (
            Token::Number(9),                        // 9
            Token::Operator(Operator::Add),          // - * - = +
            Token::Number(3),                        // 3
            Token::Operator(Operator::RightBracket), // )
        ]
    );
}

#[test]
fn test_shunting_yard_data_struct_from_expression_signed_positive() {
    let expression = "4 + 18/(9-+3)";

    assert_eq!(
        parse_expr(expression).unwrap(),
        vec![
            Token::Number(4),                        // 4
            Token::Operator(Operator::Add),          // +
            Token::Number(18),                       // 18
            Token::Operator(Operator::Div),          // /
            Token::Operator(Operator::LeftBracket),  // (
            Token::Number(9),                        // 9
            Token::Operator(Operator::Sub),          // - * + = -
            Token::Number(3),                        // 3
            Token::Operator(Operator::RightBracket), // )
        ]
    );
}

#[test]
fn test_shunting_yard_data_struct_from_expression_invalid_prod() {
    let expression = "4 + 18/(9-*3)";

    assert_eq!(parse_expr(expression), Err(Error::InvalidSyntax));
}

#[test]
fn test_shunting_yard_data_struct_from_expression_invalid_div() {
    let expression = "4 + 18/(9-/3)";

    assert_eq!(parse_expr(expression), Err(Error::InvalidSyntax));
}

#[test]
fn test_rpn() {
    let mut shunting_yard = ShuntingYard {
        operator_stack: vec![],
        output_queue: vec![],
        tokens: vec![
            Token::Number(4),                        // 4
            Token::Operator(Operator::Add),          // +
            Token::Number(18),                       // 18
            Token::Operator(Operator::Div),          // /
            Token::Operator(Operator::LeftBracket),  // (
            Token::Number(9),                        // 9
            Token::Operator(Operator::Sub),          // -
            Token::Number(3),                        // 3
            Token::Operator(Operator::RightBracket), // )
        ],
    };

    assert_eq!(
        shunting_yard.to_rpn().output_queue,
        vec![
            Token::Operator(Operator::Add),
            Token::Operator(Operator::Div),
            Token::Operator(Operator::Sub),
            Token::Number(3),
            Token::Number(9),
            Token::Number(18),
            Token::Number(4),
        ]
    );
}

#[test]
fn test_result_computation() {
    let mut shunting_yard = ShuntingYard {
        operator_stack: vec![],
        output_queue: vec![],
        tokens: vec![
            Token::Number(4),                        // 4
            Token::Operator(Operator::Add),          // +
            Token::Number(18),                       // 18
            Token::Operator(Operator::Div),          // /
            Token::Operator(Operator::LeftBracket),  // (
            Token::Number(9),                        // 9
            Token::Operator(Operator::Sub),          // -
            Token::Number(3),                        // 3
            Token::Operator(Operator::RightBracket), // )
        ],
    };

    assert_eq!(shunting_yard.to_rpn().compute().unwrap(), 7);
}
