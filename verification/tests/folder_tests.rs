use jade::folder::{
    evaluate_binary_expr, simplify_binary_expression, simplify_expression, simplify_expressions,
    simplify_statement,
};
use jade::model::{Block, Expression, Function, Item, Operator, Program, Statement};

fn lit(value: i64) -> Expression {
    Expression::IntegerLiteral(value)
}

fn ident(name: &str) -> Expression {
    Expression::Identifier(name.to_string())
}

fn binary(op: Operator, left: Expression, right: Expression) -> Expression {
    Expression::BinaryOp { op, left: Box::new(left), right: Box::new(right) }
}

fn function(name: &str, statements: Vec<Statement>) -> Item {
    Item::Function(Function {
        attributes: String::new(),
        generics: String::new(),
        name: name.to_string(),
        visibility: String::new(),
        parameters: String::new(),
        return_marker: String::new(),
        body: Block { statements },
    })
}

#[test]
fn two_plus_three_folds_to_five() {
    assert_eq!(simplify_expression(binary(Operator::Add, lit(2), lit(3))), lit(5));
}

#[test]
fn nested_product_folds_to_twenty() {
    let expression = binary(Operator::Mul, binary(Operator::Add, lit(2), lit(3)), lit(4));
    assert_eq!(simplify_expression(expression), lit(20));
}

#[test]
fn nested_sum_folds_innermost_first() {
    let expression = binary(Operator::Add, binary(Operator::Add, lit(1), lit(2)), lit(3));
    assert_eq!(simplify_expression(expression), lit(6));
}

#[test]
fn division_by_zero_is_left_unfolded() {
    let expression = binary(Operator::Div, lit(5), lit(0));
    assert_eq!(simplify_expression(expression.clone()), expression);
}

#[test]
fn overflow_is_left_unfolded() {
    let sum = binary(Operator::Add, lit(i64::MAX), lit(1));
    assert_eq!(simplify_expression(sum.clone()), sum);
    let difference = binary(Operator::Sub, lit(i64::MIN), lit(1));
    assert_eq!(simplify_expression(difference.clone()), difference);
    let product = binary(Operator::Mul, lit(i64::MAX), lit(2));
    assert_eq!(simplify_expression(product.clone()), product);
    let quotient = binary(Operator::Div, lit(i64::MIN), lit(-1));
    assert_eq!(simplify_expression(quotient.clone()), quotient);
}

#[test]
fn an_unfoldable_operand_blocks_only_its_ancestors() {
    // (5 / 0) + (1 + 2) keeps the division and folds the sum beside it.
    let expression = binary(
        Operator::Add,
        binary(Operator::Div, lit(5), lit(0)),
        binary(Operator::Add, lit(1), lit(2)),
    );
    let expected = binary(Operator::Add, binary(Operator::Div, lit(5), lit(0)), lit(3));
    assert_eq!(simplify_expression(expression), expected);
}

#[test]
fn mixed_operands_are_left_alone() {
    let expression = binary(Operator::Add, lit(1), ident("x"));
    assert_eq!(simplify_expression(expression.clone()), expression);
    let nested = binary(Operator::Mul, binary(Operator::Add, lit(1), lit(2)), ident("x"));
    assert_eq!(simplify_expression(nested), binary(Operator::Mul, lit(3), ident("x")));
}

#[test]
fn expressions_without_literal_arithmetic_are_unchanged() {
    let cases = vec![
        lit(7),
        ident("x"),
        Expression::Call { callee: "f".to_string(), arguments: String::new() },
        Expression::Opaque("a . b ()".to_string()),
        binary(Operator::Sub, ident("a"), Expression::Call { callee: "f".to_string(), arguments: String::new() }),
    ];
    for expression in cases {
        assert_eq!(simplify_expression(expression.clone()), expression);
    }
}

#[test]
fn checked_evaluation_of_each_operator() {
    assert_eq!(evaluate_binary_expr(2, 3, Operator::Add), Some(5));
    assert_eq!(evaluate_binary_expr(2, 3, Operator::Sub), Some(-1));
    assert_eq!(evaluate_binary_expr(-4, 5, Operator::Mul), Some(-20));
    assert_eq!(evaluate_binary_expr(20, 4, Operator::Div), Some(5));
    assert_eq!(evaluate_binary_expr(5, 0, Operator::Div), None);
    assert_eq!(evaluate_binary_expr(i64::MAX, 1, Operator::Add), None);
    assert_eq!(evaluate_binary_expr(i64::MIN, 1, Operator::Sub), None);
    assert_eq!(evaluate_binary_expr(i64::MIN, -1, Operator::Mul), None);
    assert_eq!(evaluate_binary_expr(i64::MIN, -1, Operator::Div), None);
    assert_eq!(evaluate_binary_expr(i64::MAX, 0, Operator::Add), Some(i64::MAX));
}

#[test]
fn division_rounds_toward_zero() {
    assert_eq!(evaluate_binary_expr(7, 2, Operator::Div), Some(3));
    assert_eq!(evaluate_binary_expr(-7, 2, Operator::Div), Some(-3));
    assert_eq!(evaluate_binary_expr(7, -2, Operator::Div), Some(-3));
    assert_eq!(evaluate_binary_expr(-7, -2, Operator::Div), Some(3));
    assert_eq!(evaluate_binary_expr(0, -2, Operator::Div), Some(0));
}

#[test]
fn a_binary_operation_is_folded_operands_first() {
    assert_eq!(simplify_binary_expression(Operator::Sub, lit(2), lit(3)), lit(-1));
    assert_eq!(
        simplify_binary_expression(Operator::Sub, lit(2), ident("x")),
        binary(Operator::Sub, lit(2), ident("x"))
    );
    // (2 + 3) * 4
    assert_eq!(
        simplify_binary_expression(Operator::Mul, binary(Operator::Add, lit(2), lit(3)), lit(4)),
        lit(20)
    );
    // (2 * 3) + x
    assert_eq!(
        simplify_binary_expression(Operator::Add, binary(Operator::Mul, lit(2), lit(3)), ident("x")),
        binary(Operator::Add, lit(6), ident("x"))
    );
    // (1 + 2) + 3
    assert_eq!(
        simplify_binary_expression(Operator::Add, binary(Operator::Add, lit(1), lit(2)), lit(3)),
        lit(6)
    );
    // x / (5 / 0)
    assert_eq!(
        simplify_binary_expression(Operator::Div, ident("x"), binary(Operator::Div, lit(5), lit(0))),
        binary(Operator::Div, ident("x"), binary(Operator::Div, lit(5), lit(0)))
    );
}

#[test]
fn opaque_statements_pass_through_folding() {
    let statement = Statement::Opaque("let x = 1 + 2 ;".to_string());
    assert_eq!(simplify_statement(statement.clone()), statement);
    let folded = simplify_statement(Statement::ExpressionStatement(binary(
        Operator::Add,
        lit(1),
        lit(2),
    )));
    assert_eq!(folded, Statement::ExpressionStatement(lit(3)));
}

#[test]
fn folding_a_program_twice_changes_nothing_more() {
    let mut program = Program {
        items: vec![
            Item::Opaque("struct S ;".to_string()),
            function(
                "f",
                vec![
                    Statement::ExpressionStatement(binary(
                        Operator::Mul,
                        binary(Operator::Add, lit(2), lit(3)),
                        lit(4),
                    )),
                    Statement::Opaque("let y = 2 ;".to_string()),
                    Statement::ExpressionStatement(binary(Operator::Div, lit(1), lit(0))),
                ],
            ),
        ],
    };
    simplify_expressions(&mut program);
    let expected = Program {
        items: vec![
            Item::Opaque("struct S ;".to_string()),
            function(
                "f",
                vec![
                    Statement::ExpressionStatement(lit(20)),
                    Statement::Opaque("let y = 2 ;".to_string()),
                    Statement::ExpressionStatement(binary(Operator::Div, lit(1), lit(0))),
                ],
            ),
        ],
    };
    assert_eq!(program, expected);
    simplify_expressions(&mut program);
    assert_eq!(program, expected);
}

#[test]
fn folding_a_program_without_literal_arithmetic_is_a_no_op() {
    let before = Program {
        items: vec![
            function(
                "f",
                vec![
                    Statement::ExpressionStatement(binary(Operator::Add, ident("a"), lit(1))),
                    Statement::ExpressionStatement(Expression::Call { callee: "g".to_string(), arguments: String::new() }),
                ],
            ),
            Item::Opaque("enum E { A }".to_string()),
        ],
    };
    let mut program = before.clone();
    simplify_expressions(&mut program);
    assert_eq!(program, before);
}

#[test]
fn a_copy_of_an_expression_is_equal_to_it() {
    let expression = binary(
        Operator::Sub,
        binary(Operator::Mul, lit(3), ident("x")),
        Expression::Opaque("y . z".to_string()),
    );
    assert_eq!(expression.duplicate(), expression);
    assert_eq!(expression.clone(), expression);
}
