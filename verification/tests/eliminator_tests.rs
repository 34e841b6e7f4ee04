use jade::eliminator::{eliminate_dead_code, DeadCodeRemover};
use jade::model::{Block, Expression, Function, Item, Operator, Program, Statement};

fn call(name: &str) -> Expression {
    Expression::Call { callee: name.to_string(), arguments: String::new() }
}

fn function(name: &str, expressions: Vec<Expression>) -> Item {
    Item::Function(Function {
        attributes: String::new(),
        generics: String::new(),
        name: name.to_string(),
        visibility: String::new(),
        parameters: String::new(),
        return_marker: String::new(),
        body: Block {
            statements: expressions.into_iter().map(Statement::ExpressionStatement).collect(),
        },
    })
}

fn names(program: &Program) -> Vec<String> {
    program
        .items
        .iter()
        .map(|item| match item {
            Item::Function(function) => function.name.clone(),
            Item::Opaque(text) => text.clone(),
        })
        .collect()
}

#[test]
fn an_uncalled_function_is_removed() {
    let mut program = Program {
        items: vec![function("main", vec![call("used")]), function("unused", vec![]), function("used", vec![])],
    };
    eliminate_dead_code(&mut program);
    assert_eq!(names(&program), vec!["main", "used"]);
}

#[test]
fn the_entry_point_stays_without_a_call() {
    let mut program = Program { items: vec![function("main", vec![])] };
    eliminate_dead_code(&mut program);
    assert_eq!(names(&program), vec!["main"]);
}

#[test]
fn a_call_inside_a_removed_function_still_counts() {
    // Nothing calls `dead`, so it goes; `leaf` is called only from `dead`
    // and stays: reachability is not closed over the call graph.
    let mut program = Program {
        items: vec![function("main", vec![]), function("dead", vec![call("leaf")]), function("leaf", vec![])],
    };
    eliminate_dead_code(&mut program);
    assert_eq!(names(&program), vec!["main", "leaf"]);
    // A second run sees no call of `leaf` any more.
    eliminate_dead_code(&mut program);
    assert_eq!(names(&program), vec!["main"]);
}

#[test]
fn a_function_that_calls_itself_is_used() {
    let mut program = Program { items: vec![function("loop_forever", vec![call("loop_forever")])] };
    eliminate_dead_code(&mut program);
    assert_eq!(names(&program), vec!["loop_forever"]);
}

#[test]
fn declaring_a_function_does_not_mark_it() {
    let mut program = Program { items: vec![function("lonely", vec![])] };
    eliminate_dead_code(&mut program);
    assert_eq!(names(&program), Vec::<String>::new());
}

#[test]
fn calls_inside_operands_count() {
    let nested = Expression::BinaryOp {
        op: Operator::Add,
        left: Box::new(Expression::IntegerLiteral(1)),
        right: Box::new(Expression::BinaryOp {
            op: Operator::Mul,
            left: Box::new(call("deep")),
            right: Box::new(Expression::Identifier("shallow".to_string())),
        }),
    };
    let mut program = Program {
        items: vec![function("main", vec![nested]), function("deep", vec![]), function("shallow", vec![])],
    };
    eliminate_dead_code(&mut program);
    // An identifier is not a call.
    assert_eq!(names(&program), vec!["main", "deep"]);
}

#[test]
fn items_that_are_not_functions_always_stay_in_place() {
    let mut program = Program {
        items: vec![
            Item::Opaque("struct A ;".to_string()),
            function("gone", vec![]),
            Item::Opaque("impl A { }".to_string()),
            function("main", vec![]),
            Item::Opaque("use x :: y ;".to_string()),
        ],
    };
    eliminate_dead_code(&mut program);
    assert_eq!(names(&program), vec!["struct A ;", "impl A { }", "main", "use x :: y ;"]);
}

#[test]
fn calls_in_opaque_text_are_not_seen() {
    let mut program = Program {
        items: vec![
            Item::Function(Function {
                attributes: String::new(),
                generics: String::new(),
                name: "main".to_string(),
                visibility: String::new(),
                parameters: String::new(),
                return_marker: String::new(),
                body: Block {
                    statements: vec![
                        Statement::Opaque("hidden () ;".to_string()),
                        Statement::ExpressionStatement(Expression::Opaque("hidden (1)".to_string())),
                    ],
                },
            }),
            function("hidden", vec![]),
        ],
    };
    eliminate_dead_code(&mut program);
    assert_eq!(names(&program), vec!["main"]);
}

#[test]
fn survivors_keep_their_contents() {
    let kept = function("main", vec![call("a"), call("b")]);
    let mut program = Program { items: vec![function("x", vec![]), kept.clone()] };
    eliminate_dead_code(&mut program);
    assert_eq!(program.items, vec![kept]);
}

#[test]
fn every_function_of_one_name_shares_the_fate_of_the_name() {
    let mut program = Program {
        items: vec![function("twin", vec![]), function("main", vec![call("twin")]), function("twin", vec![call("other")])],
    };
    eliminate_dead_code(&mut program);
    assert_eq!(names(&program), vec!["twin", "main", "twin"]);
}

#[test]
fn marking_and_removing_can_be_done_in_steps() {
    let mut remover = DeadCodeRemover::new();
    let main = function("main", vec![call("a")]);
    // Nothing is marked: only the entry point and other items stay.
    assert!(remover.retains(&main));
    assert!(!remover.retains(&function("a", vec![])));
    assert!(remover.retains(&Item::Opaque("struct S ;".to_string())));
    remover.visit_expression(&call("b"));
    assert!(remover.retains(&function("b", vec![])));
    remover.visit_block(&Block { statements: vec![Statement::ExpressionStatement(call("c"))] });
    assert!(remover.retains(&function("c", vec![])));
    let program = Program { items: vec![main.clone()] };
    remover.mark_used_functions(&program);
    assert!(remover.retains(&function("a", vec![])));
    let mut other = Program { items: vec![function("a", vec![]), function("z", vec![]), function("b", vec![])] };
    remover.remove_unused_functions(&mut other);
    assert_eq!(names(&other), vec!["a", "b"]);
}
