use jade::model::{Block, Expression, Function, Item, Operator, Program, Statement};
use jade::renamer::{rename_identifiers, IdentifierRenamer};

fn ident(name: &str) -> Expression {
    Expression::Identifier(name.to_string())
}

fn call(name: &str) -> Expression {
    Expression::Call { callee: name.to_string(), arguments: String::new() }
}

fn binary(op: Operator, left: Expression, right: Expression) -> Expression {
    Expression::BinaryOp { op, left: Box::new(left), right: Box::new(right) }
}

fn function(name: &str, expressions: Vec<Expression>) -> Item {
    Item::Function(Function {
        attributes: String::new(),
        generics: String::new(),
        name: name.to_string(),
        visibility: "pub".to_string(),
        parameters: "a : i32".to_string(),
        return_marker: "-> i32".to_string(),
        body: Block {
            statements: expressions.into_iter().map(Statement::ExpressionStatement).collect(),
        },
    })
}

fn sample() -> Program {
    Program {
        items: vec![
            function("main", vec![call("helper"), binary(Operator::Add, ident("x"), ident("y"))]),
            Item::Opaque("struct x ;".to_string()),
            function("helper", vec![ident("x"), Expression::Opaque("x . y".to_string())]),
        ],
    }
}

#[test]
fn the_first_candidate_is_the_name_itself() {
    let mut renamer = IdentifierRenamer::new();
    assert_eq!(renamer.generate_unique_name("value"), "value");
}

#[test]
fn taken_names_get_counted_suffixes() {
    let mut renamer = IdentifierRenamer::new();
    assert_eq!(renamer.generate_unique_name("x"), "x");
    assert_eq!(renamer.generate_unique_name("x"), "x_1");
    assert_eq!(renamer.generate_unique_name("x"), "x_2");
    assert_eq!(renamer.generate_unique_name("y"), "y");
    assert_eq!(renamer.generate_unique_name("x"), "x_3");
}

#[test]
fn suffixes_are_written_in_decimal() {
    let mut renamer = IdentifierRenamer::new();
    let mut last = String::new();
    for _ in 0..13 {
        last = renamer.generate_unique_name("n");
    }
    assert_eq!(last, "n_12");
}

#[test]
fn a_suffixed_name_that_is_taken_is_skipped() {
    let mut renamer = IdentifierRenamer::new();
    assert_eq!(renamer.generate_unique_name("x_1"), "x_1");
    assert_eq!(renamer.generate_unique_name("x"), "x");
    // x_1 is taken already, so the second x gets x_2.
    assert_eq!(renamer.generate_unique_name("x"), "x_2");
    assert_eq!(renamer.generate_unique_name("x_1"), "x_1_1");
}

#[test]
fn the_empty_name_is_a_name() {
    let mut renamer = IdentifierRenamer::new();
    assert_eq!(renamer.generate_unique_name(""), "");
    assert_eq!(renamer.generate_unique_name(""), "_1");
}

#[test]
fn a_run_that_starts_empty_leaves_the_program_unchanged() {
    let mut program = sample();
    rename_identifiers(&mut program);
    assert_eq!(program, sample());
}

#[test]
fn renaming_twice_is_renaming_once() {
    let mut once = sample();
    rename_identifiers(&mut once);
    let mut twice = once.clone();
    rename_identifiers(&mut twice);
    assert_eq!(twice, once);
}

#[test]
fn every_occurrence_of_a_name_gets_the_same_generated_name() {
    let mut renamer = IdentifierRenamer::new();
    // Reserve two names so that the program's names collide.
    renamer.generate_unique_name("x");
    renamer.generate_unique_name("helper");
    let mut program = sample();
    renamer.visit_program_mut(&mut program);
    let expected = Program {
        items: vec![
            function(
                "main",
                vec![call("helper_1"), binary(Operator::Add, ident("x_1"), ident("y"))],
            ),
            Item::Opaque("struct x ;".to_string()),
            function("helper_1", vec![ident("x_1"), Expression::Opaque("x . y".to_string())]),
        ],
    };
    assert_eq!(program, expected);
}

#[test]
fn distinct_names_never_share_a_generated_name() {
    let mut renamer = IdentifierRenamer::new();
    renamer.generate_unique_name("a");
    let mut program = Program {
        items: vec![function("f", vec![ident("a"), ident("a_1"), ident("a"), ident("a_1")])],
    };
    renamer.visit_program_mut(&mut program);
    // a collides and becomes a_1; a_1 then collides with that and moves on.
    let expected = Program {
        items: vec![function("f", vec![ident("a_1"), ident("a_1_1"), ident("a_1"), ident("a_1_1")])],
    };
    assert_eq!(program, expected);
}

#[test]
fn names_are_visited_in_declaration_order() {
    let mut renamer = IdentifierRenamer::new();
    renamer.generate_unique_name("t");
    renamer.generate_unique_name("t_1");
    // The function name t is met first and takes t_2; t_2 in the body then
    // finds its own name taken.
    let mut program = Program { items: vec![function("t", vec![ident("t_2")])] };
    renamer.visit_program_mut(&mut program);
    assert_eq!(program, Program { items: vec![function("t_2", vec![ident("t_2_1")])] });
}

#[test]
fn the_left_operand_is_renamed_before_the_right() {
    let mut renamer = IdentifierRenamer::new();
    renamer.generate_unique_name("p");
    let mut expression = binary(Operator::Sub, ident("p_1"), ident("p"));
    renamer.visit_expression_mut(&mut expression);
    // p_1 is free when it is met; p then finds p and p_1 taken.
    assert_eq!(expression, binary(Operator::Sub, ident("p_1"), ident("p_2")));
}

#[test]
fn separate_runs_do_not_share_state() {
    let mut first = IdentifierRenamer::new();
    assert_eq!(first.generate_unique_name("x"), "x");
    let mut second = IdentifierRenamer::new();
    assert_eq!(second.generate_unique_name("x"), "x");
}

#[test]
fn single_names_and_statements_can_be_visited() {
    let mut renamer = IdentifierRenamer::new();
    renamer.generate_unique_name("k");
    let mut name = "k".to_string();
    renamer.visit_ident_mut(&mut name);
    assert_eq!(name, "k_1");
    let mut again = "k".to_string();
    renamer.visit_ident_mut(&mut again);
    assert_eq!(again, "k_1");
    let mut statement = Statement::ExpressionStatement(call("k"));
    renamer.visit_statement_mut(&mut statement);
    assert_eq!(statement, Statement::ExpressionStatement(call("k_1")));
    let mut opaque = Statement::Opaque("k ;".to_string());
    renamer.visit_statement_mut(&mut opaque);
    assert_eq!(opaque, Statement::Opaque("k ;".to_string()));
    let mut block = Block { statements: vec![Statement::ExpressionStatement(ident("k"))] };
    renamer.visit_block_mut(&mut block);
    assert_eq!(block, Block { statements: vec![Statement::ExpressionStatement(ident("k_1"))] });
    let mut item = match function("k", vec![]) {
        Item::Function(function) => function,
        Item::Opaque(_) => unreachable!(),
    };
    renamer.visit_function_mut(&mut item);
    assert_eq!(item.name, "k_1");
}

#[test]
fn a_second_run_over_a_renamed_tree_introduces_no_new_name() {
    // A first run with names taken beforehand renames the tree.
    let mut first = IdentifierRenamer::new();
    first.generate_unique_name("x");
    first.generate_unique_name("helper");
    let mut renamed = sample();
    first.visit_program_mut(&mut renamed);
    assert_ne!(renamed, sample());
    // A second run of its own visits every name of the renamed tree.
    let mut second = IdentifierRenamer::new();
    let mut again = renamed.clone();
    second.visit_program_mut(&mut again);
    // The relabeling is the identity: equal names stay equal, distinct
    // names stay distinct, and the number of names is the same.
    assert_eq!(again, renamed);
    let mut third = renamed.clone();
    rename_identifiers(&mut third);
    assert_eq!(third, renamed);
}
