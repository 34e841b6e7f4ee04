use jade::analysis::{analyze_code, CodeAnalysis, ItemKind};
use jade::model::{Block, Expression, Function, Item, Operator, Program, Statement};
use jade::parser::{
    expression_shape, frame_function, lower_expression, parse_code, program_from_parts,
    shape_of_text, spaced_text, ExpressionShape, FileParts, FunctionParts, FunctionPrefix,
};
use jade::pipeline::refactor_code;

fn text(value: &str) -> String {
    value.to_string()
}

fn strings(values: &[&str]) -> Vec<String> {
    values.iter().map(|value| value.to_string()).collect()
}

#[test]
fn an_integer_counts_if_the_text_is_its_decimal_notation() {
    let none: Option<String> = None;
    assert_eq!(
        expression_shape(&text("5"), Some(5), none.clone(), None, None, None, None),
        ExpressionShape::Integer(5)
    );
    // The parser's value of `0x5` is 5 too, but the text is not `5`.
    assert_eq!(
        expression_shape(&text("0x5"), Some(5), none.clone(), None, None, None, None),
        ExpressionShape::Opaque
    );
    assert_eq!(
        expression_shape(&text("5"), None, none, None, None, None, None),
        ExpressionShape::Opaque
    );
}

#[test]
fn an_identifier_counts_if_it_is_all_of_the_text() {
    assert_eq!(
        expression_shape(&text("x"), None, Some(text("x")), None, None, None, None),
        ExpressionShape::Identifier(text("x"))
    );
    assert_eq!(
        expression_shape(&text("# [a] x"), None, Some(text("x")), None, None, None, None),
        ExpressionShape::Opaque
    );
}

#[test]
fn a_call_counts_if_a_name_is_called_and_the_text_is_the_call() {
    let call = Some((text("f"), text("1 , 2")));
    assert_eq!(
        expression_shape(&text("f (1 , 2)"), None, None, call.clone(), Some(text("f")), None, None),
        ExpressionShape::Call(text("f"), text("1 , 2"))
    );
    // What is called is not a name.
    assert_eq!(
        expression_shape(&text("f (1 , 2)"), None, None, call.clone(), None, None, None),
        ExpressionShape::Opaque
    );
    // The name is not all of what is called.
    assert_eq!(
        expression_shape(&text("f (1 , 2)"), None, None, call.clone(), Some(text("g")), None, None),
        ExpressionShape::Opaque
    );
    // The text is written otherwise.
    assert_eq!(
        expression_shape(&text("f(1, 2)"), None, None, call, Some(text("f")), None, None),
        ExpressionShape::Opaque
    );
}

#[test]
fn a_binary_operation_counts_if_the_text_is_made_of_its_parts() {
    let binary = Some((text("a"), Operator::Sub, text("b * c")));
    assert_eq!(
        expression_shape(&text("a - b * c"), None, None, None, None, binary.clone(), None),
        ExpressionShape::Binary(text("a"), Operator::Sub, text("b * c"))
    );
    assert_eq!(
        expression_shape(&text("a-b*c"), None, None, None, None, binary.clone(), None),
        ExpressionShape::Opaque
    );
    assert_eq!(
        expression_shape(&text("a + b * c"), None, None, None, None, binary, None),
        ExpressionShape::Opaque
    );
}

#[test]
fn parentheses_count_if_the_text_is_the_inner_text_in_parentheses() {
    assert_eq!(
        expression_shape(&text("(a + b)"), None, None, None, None, None, Some(text("a + b"))),
        ExpressionShape::Parenthesized(text("a + b"))
    );
    assert_eq!(
        expression_shape(&text("( a + b )"), None, None, None, None, None, Some(text("a + b"))),
        ExpressionShape::Opaque
    );
}

#[test]
fn the_first_reading_that_counts_decides() {
    let shape = expression_shape(
        &text("7"),
        Some(7),
        Some(text("7")),
        Some((text("7"), text(""))),
        Some(text("7")),
        Some((text("7"), Operator::Add, text(""))),
        Some(text("7")),
    );
    assert_eq!(shape, ExpressionShape::Integer(7));
    let shape = expression_shape(
        &text("a + b"),
        Some(1),
        Some(text("a")),
        None,
        None,
        Some((text("a"), Operator::Add, text("b"))),
        Some(text("a + b")),
    );
    assert_eq!(shape, ExpressionShape::Binary(text("a"), Operator::Add, text("b")));
}

#[test]
fn the_parser_is_asked_for_the_shape_of_a_text() {
    assert_eq!(shape_of_text(&text("12")), ExpressionShape::Integer(12));
    assert_eq!(shape_of_text(&text("name")), ExpressionShape::Identifier(text("name")));
    assert_eq!(shape_of_text(&text("f (x)")), ExpressionShape::Call(text("f"), text("x")));
    assert_eq!(
        shape_of_text(&text("a / 2")),
        ExpressionShape::Binary(text("a"), Operator::Div, text("2"))
    );
    assert_eq!(shape_of_text(&text("(a)")), ExpressionShape::Parenthesized(text("a")));
    assert_eq!(shape_of_text(&text("a . b")), ExpressionShape::Opaque);
}

#[test]
fn pieces_that_are_not_empty_are_joined_by_spaces() {
    assert_eq!(spaced_text(&strings(&[])), "");
    assert_eq!(spaced_text(&strings(&["", "", ""])), "");
    assert_eq!(spaced_text(&strings(&["pub"])), "pub");
    assert_eq!(spaced_text(&strings(&["pub", "", "", "unsafe", ""])), "pub unsafe");
    assert_eq!(spaced_text(&strings(&["", "const", "async"])), "const async");
}

fn prefix(attributes: &[&str], qualifiers: &[&str]) -> FunctionPrefix {
    FunctionPrefix { attributes: strings(attributes), qualifiers: strings(qualifiers) }
}

fn parts(name: &str, generics: &str, parameters: &str, results: &[&str], statements: &[&str]) -> FunctionParts {
    FunctionParts {
        name: text(name),
        generics: text(generics),
        parameters: text(parameters),
        results: strings(results),
        statements: strings(statements),
    }
}

#[test]
fn a_function_item_is_framed_if_it_is_made_of_its_pieces() {
    let framed = frame_function(
        &text("# [inline] pub unsafe fn f < T > (x : T) -> T where T : Copy { let y = x ; y }"),
        &prefix(&["# [inline]"], &["pub", "", "", "unsafe", ""]),
        &parts("f", "< T >", "x : T", &["-> T", "where T : Copy"], &["let y = x ;", "y"]),
    );
    assert_eq!(
        framed,
        Some(Function {
            attributes: text("# [inline]"),
            visibility: text("pub unsafe"),
            name: text("f"),
            generics: text("< T >"),
            parameters: text("x : T"),
            return_marker: text("-> T where T : Copy"),
            body: Block { statements: vec![] },
        })
    );
    let bare = frame_function(
        &text("fn g () { }"),
        &prefix(&[], &["", "", "", "", ""]),
        &parts("g", "", "", &["", ""], &[]),
    );
    assert_eq!(bare.map(|function| function.name), Some(text("g")));
}

#[test]
fn a_function_item_with_anything_else_in_it_is_not_framed() {
    // A variadic parameter is no piece.
    let framed = frame_function(
        &text("fn f (a : u8 , ...) { }"),
        &prefix(&[], &["", "", "", "", ""]),
        &parts("f", "", "a : u8 ,", &["", ""], &[]),
    );
    assert_eq!(framed, None);
    // Text that is not spaced as tokens are.
    let framed = frame_function(
        &text("fn f() {}"),
        &prefix(&[], &["", "", "", "", ""]),
        &parts("f", "", "", &["", ""], &[]),
    );
    assert_eq!(framed, None);
}

#[test]
fn the_parts_of_a_file_are_put_together_in_order() {
    let program = program_from_parts(FileParts {
        shebang: Some(text("#!/bin/run")),
        attributes: strings(&["# ! [a]", "# ! [b]"]),
        items: vec![
            (ItemKind::Struct, text("struct S ;")),
            (ItemKind::Function, text("fn main () { go (1) }")),
            (ItemKind::Other, text("fn not_looked_at () { }")),
        ],
    });
    assert_eq!(
        program,
        Program {
            items: vec![
                Item::Opaque(text("#!/bin/run")),
                Item::Opaque(text("# ! [a]")),
                Item::Opaque(text("# ! [b]")),
                Item::Opaque(text("struct S ;")),
                Item::Function(Function {
                    attributes: String::new(),
                    visibility: String::new(),
                    name: text("main"),
                    generics: String::new(),
                    parameters: String::new(),
                    return_marker: String::new(),
                    body: Block {
                        statements: vec![Statement::ExpressionStatement(Expression::Call {
                            callee: text("go"),
                            arguments: text("1"),
                        })],
                    },
                }),
                Item::Opaque(text("fn not_looked_at () { }")),
            ],
        }
    );
    let empty = program_from_parts(FileParts { shebang: None, attributes: vec![], items: vec![] });
    assert_eq!(empty, Program { items: vec![] });
}

#[test]
fn a_c_string_literal_is_read_and_carried_along() {
    assert_eq!(
        refactor_code("fn main() { c\"x\" }").unwrap(),
        "fn main () { c\"x\" }\n"
    );
    assert_eq!(
        refactor_code("fn main() { let a = cr#\"raw\"#; a }").unwrap(),
        "fn main () { let a = cr#\"raw\"# ; a }\n"
    );
    assert_eq!(lower_expression(text("c\"x\"")), Expression::Opaque(text("c\"x\"")));
    assert_eq!(shape_of_text(&text("c\"x\" + 1")), ExpressionShape::Binary(text("c\"x\""), Operator::Add, text("1")));
    assert_eq!(
        analyze_code("fn main() { c\"x\"; }").unwrap(),
        CodeAnalysis { num_functions: 1, num_structs: 0, num_enums: 0, num_impls: 0 }
    );
}

#[test]
fn the_marker_of_a_failed_expansion_is_read_and_carried_along() {
    assert_eq!(
        refactor_code("fn main() { (/*ERROR*/) }").unwrap(),
        "fn main () { (/*ERROR*/) }\n"
    );
    assert_eq!(lower_expression(text("(/*ERROR*/)")), Expression::Opaque(text("(/*ERROR*/)")));
    assert_eq!(shape_of_text(&text("(/*ERROR*/)")), ExpressionShape::Opaque);
    assert!(parse_code("const X: u8 = (/*ERROR*/);").is_ok());
}

#[test]
fn literals_of_every_kind_are_read() {
    for source in [
        "fn main() { \"s\" }",
        "fn main() { r#\"raw\"# }",
        "fn main() { b\"bytes\" }",
        "fn main() { br\"raw\" }",
        "fn main() { b'b' }",
        "fn main() { 'c' }",
        "fn main() { 1.5e3 }",
        "fn main() { 0xffu8 }",
        "fn main() { 1_000 }",
        "fn main() { \"\\u{1F600}\" }",
        "fn main() { true }",
        "fn main() { 1suffix }",
        "fn main() { \"s\"suffix }",
    ] {
        assert!(refactor_code(source).is_ok(), "{}", source);
    }
}

#[test]
fn a_call_with_arguments_keeps_the_called_function() {
    let text = refactor_code("fn helper(x: u8) {}\nfn main() { helper(1) }\n").unwrap();
    assert_eq!(text, "fn helper (x : u8) { }\nfn main () { helper (1) }\n");
}

#[test]
fn functions_with_attributes_generics_and_qualifiers_are_seen_by_the_passes() {
    let source = "\
#[inline]
fn used<T>(x: T) -> T where T: Copy { x }
/// Never called.
pub unsafe fn unused() {}
fn main() { used(1) }
async fn _late() { _late() }
";
    let text = refactor_code(source).unwrap();
    assert_eq!(
        text,
        "fn main () { used (1) }\n\
         # [inline] fn used < T > (x : T) -> T where T : Copy { x }\n\
         async fn _late () { _late () }\n"
    );
}

#[test]
fn a_call_inside_the_arguments_of_a_call_is_not_seen() {
    // The arguments are carried as text and not looked into.
    let text = refactor_code("fn inner() {}\nfn outer() {}\nfn main() { outer(inner()) }\n").unwrap();
    assert_eq!(text, "fn main () { outer (inner ()) }\nfn outer () { }\n");
}
