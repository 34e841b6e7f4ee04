use jade::model::{Block, Expression, Function, Item, Operator, Program, Statement};
use jade::printer::{
    operator_token, print_expression, print_function, print_header, print_integer, print_program,
    print_statement,
};
use jade::text::append_decimal;

fn lit(value: i64) -> Expression {
    Expression::IntegerLiteral(value)
}

fn ident(name: &str) -> Expression {
    Expression::Identifier(name.to_string())
}

fn binary(op: Operator, left: Expression, right: Expression) -> Expression {
    Expression::BinaryOp { op, left: Box::new(left), right: Box::new(right) }
}

fn text_of(expression: &Expression) -> String {
    let mut out = String::new();
    print_expression(expression, &mut out);
    out
}

fn decimal(value: u64) -> String {
    let mut out = String::new();
    append_decimal(&mut out, value);
    out
}

#[test]
fn numbers_are_written_in_decimal_without_leading_zeros() {
    assert_eq!(decimal(0), "0");
    assert_eq!(decimal(7), "7");
    assert_eq!(decimal(10), "10");
    assert_eq!(decimal(109), "109");
    assert_eq!(decimal(1234567890), "1234567890");
    assert_eq!(decimal(u64::MAX), "18446744073709551615");
}

#[test]
fn decimal_text_is_appended_to_what_is_there() {
    let mut out = "n_".to_string();
    append_decimal(&mut out, 42);
    assert_eq!(out, "n_42");
}

#[test]
fn negative_integers_are_a_minus_token_and_the_digits() {
    let mut out = String::new();
    print_integer(-1, &mut out);
    assert_eq!(out, "- 1");
    let mut least = String::new();
    print_integer(i64::MIN, &mut least);
    assert_eq!(least, "- 9223372036854775808");
    let mut greatest = String::new();
    print_integer(i64::MAX, &mut greatest);
    assert_eq!(greatest, "9223372036854775807");
}

#[test]
fn each_operator_has_its_token() {
    assert_eq!(operator_token(Operator::Add), "+");
    assert_eq!(operator_token(Operator::Sub), "-");
    assert_eq!(operator_token(Operator::Mul), "*");
    assert_eq!(operator_token(Operator::Div), "/");
}

#[test]
fn leaves_are_printed_as_they_are() {
    assert_eq!(text_of(&lit(12)), "12");
    assert_eq!(text_of(&ident("name")), "name");
    assert_eq!(
        text_of(&Expression::Call { callee: "go".to_string(), arguments: String::new() }),
        "go ()"
    );
    assert_eq!(
        text_of(&Expression::Call { callee: "go".to_string(), arguments: "1 , x".to_string() }),
        "go (1 , x)"
    );
    assert_eq!(text_of(&Expression::Opaque("a . b (c)".to_string())), "a . b (c)");
}

#[test]
fn a_looser_operand_is_put_in_parentheses() {
    let expression = binary(Operator::Mul, binary(Operator::Add, ident("a"), ident("b")), ident("c"));
    assert_eq!(text_of(&expression), "(a + b) * c");
    let expression = binary(Operator::Div, ident("a"), binary(Operator::Sub, ident("b"), ident("c")));
    assert_eq!(text_of(&expression), "a / (b - c)");
}

#[test]
fn a_tighter_operand_needs_no_parentheses() {
    let expression = binary(Operator::Add, ident("a"), binary(Operator::Mul, ident("b"), ident("c")));
    assert_eq!(text_of(&expression), "a + b * c");
    let expression = binary(Operator::Sub, binary(Operator::Div, ident("a"), ident("b")), ident("c"));
    assert_eq!(text_of(&expression), "a / b - c");
}

#[test]
fn operators_of_equal_strength_associate_to_the_left() {
    let left = binary(Operator::Sub, binary(Operator::Sub, ident("a"), ident("b")), ident("c"));
    assert_eq!(text_of(&left), "a - b - c");
    let right = binary(Operator::Sub, ident("a"), binary(Operator::Sub, ident("b"), ident("c")));
    assert_eq!(text_of(&right), "a - (b - c)");
    let mixed = binary(Operator::Div, ident("a"), binary(Operator::Mul, ident("b"), ident("c")));
    assert_eq!(text_of(&mixed), "a / (b * c)");
    let sum = binary(Operator::Add, ident("a"), binary(Operator::Add, ident("b"), ident("c")));
    assert_eq!(text_of(&sum), "a + (b + c)");
}

#[test]
fn a_negative_operand_keeps_its_sign() {
    let expression = binary(Operator::Sub, ident("a"), lit(-2));
    assert_eq!(text_of(&expression), "a - - 2");
    let expression = binary(Operator::Mul, lit(-2), ident("a"));
    assert_eq!(text_of(&expression), "- 2 * a");
}

#[test]
fn statements_print_their_expression_or_their_text() {
    let mut out = String::new();
    print_statement(&Statement::ExpressionStatement(lit(3)), &mut out);
    out.push('|');
    print_statement(&Statement::Opaque("let x = 1 ;".to_string()), &mut out);
    assert_eq!(out, "3|let x = 1 ;");
}

#[test]
fn a_header_leaves_out_what_is_empty() {
    let mut function = Function {
        attributes: String::new(),
        visibility: String::new(),
        name: "f".to_string(),
        generics: String::new(),
        parameters: String::new(),
        return_marker: String::new(),
        body: Block { statements: vec![] },
    };
    let mut bare = String::new();
    print_header(&function, &mut bare);
    assert_eq!(bare, "fn f () { ");
    function.attributes = "# [inline]".to_string();
    function.visibility = "pub unsafe".to_string();
    function.generics = "< T >".to_string();
    function.parameters = "a : T".to_string();
    function.return_marker = "-> T where T : Copy".to_string();
    let mut full = String::new();
    print_header(&function, &mut full);
    assert_eq!(full, "# [inline] pub unsafe fn f < T > (a : T) -> T where T : Copy { ");
}

#[test]
fn a_function_is_its_header_and_its_statements_in_braces() {
    let function = Function {
        attributes: String::new(),
        generics: String::new(),
        name: "f".to_string(),
        visibility: "pub".to_string(),
        parameters: "a : i32".to_string(),
        return_marker: "-> i32".to_string(),
        body: Block {
            statements: vec![
                Statement::Opaque("let b = a ;".to_string()),
                Statement::ExpressionStatement(binary(Operator::Add, ident("b"), lit(1))),
            ],
        },
    };
    let mut out = String::new();
    print_function(&function, &mut out);
    assert_eq!(out, "pub fn f (a : i32) -> i32 { let b = a ; b + 1 }");
    let empty = Function {
        attributes: String::new(),
        generics: String::new(),
        name: "g".to_string(),
        visibility: String::new(),
        parameters: String::new(),
        return_marker: String::new(),
        body: Block { statements: vec![] },
    };
    let mut out = String::new();
    print_function(&empty, &mut out);
    assert_eq!(out, "fn g () { }");
}

#[test]
fn every_item_ends_its_own_line() {
    let program = Program {
        items: vec![
            Item::Opaque("struct S ;".to_string()),
            Item::Function(Function {
                attributes: String::new(),
                generics: String::new(),
                name: "main".to_string(),
                visibility: String::new(),
                parameters: String::new(),
                return_marker: String::new(),
                body: Block { statements: vec![] },
            }),
        ],
    };
    assert_eq!(print_program(&program), "struct S ;\nfn main () { }\n");
    assert_eq!(print_program(&Program { items: vec![] }), "");
}
