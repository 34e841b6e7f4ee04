use jade::extractor::{extract_functions, FunctionExtractor, DEFAULT_THRESHOLD};
use jade::model::{Block, Expression, Function, Item, Program, Statement};

fn statements(count: usize) -> Vec<Statement> {
    (0..count).map(|index| Statement::Opaque(format!("let v{} = {} ;", index, index))).collect()
}

fn function(name: &str, visibility: &str, count: usize) -> Function {
    Function {
        attributes: String::new(),
        generics: String::new(),
        name: name.to_string(),
        visibility: visibility.to_string(),
        parameters: "a : i32 , b : i32".to_string(),
        return_marker: "-> i32".to_string(),
        body: Block { statements: statements(count) },
    }
}

fn call_body(callee: &str) -> Block {
    Block {
        statements: vec![Statement::ExpressionStatement(Expression::Call { callee: callee.to_string(), arguments: String::new() })],
    }
}

#[test]
fn the_default_threshold_is_ten() {
    assert_eq!(DEFAULT_THRESHOLD, 10);
}

#[test]
fn a_function_of_exactly_the_threshold_is_untouched() {
    let before = Program { items: vec![Item::Function(function("f", "pub", 10))] };
    let mut program = before.clone();
    extract_functions(&mut program);
    assert_eq!(program, before);
}

#[test]
fn a_function_of_one_more_than_the_threshold_is_split() {
    let mut program = Program { items: vec![Item::Function(function("f", "pub", 11))] };
    extract_functions(&mut program);
    let expected = Program {
        items: vec![
            Item::Function(Function {
                attributes: String::new(),
                generics: String::new(),
                name: "f".to_string(),
                visibility: "pub".to_string(),
                parameters: "a : i32 , b : i32".to_string(),
                return_marker: "-> i32".to_string(),
                body: call_body("f_extracted"),
            }),
            Item::Function(Function {
                attributes: String::new(),
                generics: String::new(),
                name: "f_extracted".to_string(),
                visibility: "pub".to_string(),
                parameters: String::new(),
                return_marker: "-> i32".to_string(),
                body: Block { statements: statements(11) },
            }),
        ],
    };
    assert_eq!(program, expected);
}

#[test]
fn the_helper_takes_no_parameters_even_if_the_body_uses_them() {
    // The moved statement still names `a`, which the helper does not know:
    // captured names are not carried over.
    let mut function = function("sum", "", 0);
    function.body.statements = vec![
        Statement::Opaque("let c = a + b ;".to_string()),
        Statement::ExpressionStatement(Expression::Identifier("c".to_string())),
    ];
    let mut extractor = FunctionExtractor::with_threshold(1);
    let mut program = Program { items: vec![Item::Function(function)] };
    extractor.visit_program_mut(&mut program);
    match &program.items[1] {
        Item::Function(helper) => {
            assert_eq!(helper.name, "sum_extracted");
            assert_eq!(helper.parameters, "");
            assert_eq!(helper.body.statements[0], Statement::Opaque("let c = a + b ;".to_string()));
        }
        Item::Opaque(_) => panic!("the helper is a function"),
    }
}

#[test]
fn helpers_come_behind_all_existing_items_in_the_order_of_the_split_functions() {
    let mut program = Program {
        items: vec![
            Item::Function(function("big_one", "", 3)),
            Item::Opaque("struct S ;".to_string()),
            Item::Function(function("small", "", 2)),
            Item::Function(function("big_two", "pub (crate)", 4)),
            Item::Opaque("const C : u8 = 1 ;".to_string()),
        ],
    };
    let mut extractor = FunctionExtractor::with_threshold(2);
    extractor.visit_program_mut(&mut program);
    let names: Vec<String> = program
        .items
        .iter()
        .map(|item| match item {
            Item::Function(function) => function.name.clone(),
            Item::Opaque(text) => text.clone(),
        })
        .collect();
    assert_eq!(
        names,
        vec![
            "big_one",
            "struct S ;",
            "small",
            "big_two",
            "const C : u8 = 1 ;",
            "big_one_extracted",
            "big_two_extracted",
        ]
    );
    match &program.items[6] {
        Item::Function(helper) => {
            assert_eq!(helper.visibility, "pub (crate)");
            assert_eq!(helper.body.statements, statements(4));
        }
        Item::Opaque(_) => panic!("the helper is a function"),
    }
    match &program.items[2] {
        Item::Function(small) => assert_eq!(small, &function("small", "", 2)),
        Item::Opaque(_) => panic!("small is a function"),
    }
}

#[test]
fn one_function_can_be_visited_alone() {
    let mut extractor = FunctionExtractor::with_threshold(0);
    let mut empty = function("empty", "", 0);
    extractor.visit_function_mut(&mut empty);
    assert_eq!(empty, function("empty", "", 0));
    let mut one = function("one", "", 1);
    extractor.visit_function_mut(&mut one);
    assert_eq!(one.body, call_body("one_extracted"));
    // The buffered helper is appended by the next walk over a program.
    let mut program = Program { items: vec![] };
    extractor.visit_program_mut(&mut program);
    assert_eq!(program.items.len(), 1);
    let mut again = Program { items: vec![] };
    extractor.visit_program_mut(&mut again);
    assert_eq!(again.items.len(), 0);
}

#[test]
fn extracting_again_splits_the_helper_again() {
    // The helper holds the oversized body, so a second run is not a no-op.
    let mut program = Program { items: vec![Item::Function(function("f", "", 11))] };
    extract_functions(&mut program);
    extract_functions(&mut program);
    let names: Vec<String> = program
        .items
        .iter()
        .map(|item| match item {
            Item::Function(function) => function.name.clone(),
            Item::Opaque(text) => text.clone(),
        })
        .collect();
    assert_eq!(names, vec!["f", "f_extracted", "f_extracted_extracted"]);
}

#[test]
fn the_helper_copies_generics_and_qualifiers_but_no_attributes() {
    let mut function = function("work", "pub unsafe", 2);
    function.attributes = "# [inline]".to_string();
    function.generics = "< T >".to_string();
    let mut extractor = FunctionExtractor::with_threshold(1);
    let mut program = Program { items: vec![Item::Function(function)] };
    extractor.visit_program_mut(&mut program);
    match (&program.items[0], &program.items[1]) {
        (Item::Function(kept), Item::Function(helper)) => {
            assert_eq!(kept.attributes, "# [inline]");
            assert_eq!(kept.parameters, "a : i32 , b : i32");
            assert_eq!(kept.body, call_body("work_extracted"));
            assert_eq!(helper.attributes, "");
            assert_eq!(helper.visibility, "pub unsafe");
            assert_eq!(helper.generics, "< T >");
            assert_eq!(helper.parameters, "");
            assert_eq!(helper.return_marker, "-> i32");
        }
        _ => panic!("both items are functions"),
    }
}
