//! The parser side: source text becomes a program.
//!
//! The grammar is not this library's: the text is handed to `syn`, which
//! says where the items, the statements and the operands are, always as
//! token text. What each piece becomes in the model is decided here, by
//! verified functions that take what the parser said as arguments. A piece
//! is modelled only if the model can say it exactly, that is, if the
//! modelled node is made of the very token text that was read; everything
//! else stays opaque and is printed as it came. Only parentheses around a
//! modelled expression are not kept: the printer puts parentheses where the
//! tree needs them.
//!
//! The parser is asked about text only. A literal token that it does not
//! know it keeps as it is, so text that holds one is read like any other.

use vstd::prelude::*;
use vstd::string::StringExecFns;
use quote::ToTokens;
use crate::analysis::ItemKind;
use crate::model::{
    Block, Expression, ExpressionView, Function, FunctionView, Item, ItemView, Operator, Program,
    Statement, StatementView,
};
use crate::printer::{
    body_text, expression_text, header_text, integer_text, item_text, needs_parentheses,
    operator_symbol, operator_token, print_header, print_integer, program_text, statement_text,
};

verus! {

/// The input is not a program of the grammar. `message` is what the parser
/// said.
#[derive(Clone, Debug, PartialEq, Eq)]
pub struct ParseError {
    pub message: String,
}

impl View for ParseError {
    type V = Seq<char>;

    open spec fn view(&self) -> Seq<char> {
        self.message@
    }
}

/// What the parser found in a source file: the shebang line, and the token
/// text of each inner attribute and of each item with its kind.
#[derive(Clone, Debug, PartialEq, Eq)]
pub struct FileParts {
    pub shebang: Option<String>,
    pub attributes: Vec<String>,
    pub items: Vec<(ItemKind, String)>,
}

/// Mathematical view of [`FileParts`].
pub struct FilePartsView {
    pub shebang: Option<Seq<char>>,
    pub attributes: Seq<Seq<char>>,
    pub items: Seq<(ItemKind, Seq<char>)>,
}

impl View for FileParts {
    type V = FilePartsView;

    open spec fn view(&self) -> FilePartsView {
        FilePartsView {
            shebang: match self.shebang {
                Some(line) => Some(line@),
                None => None,
            },
            attributes: self.attributes@.map_values(|text: String| text@),
            items: self.items@.map_values(|item: (ItemKind, String)| (item.0, item.1@)),
        }
    }
}

/// What stands before `fn` in a function item, as token text: the outer
/// attributes, and the visibility followed by the qualifiers `const`,
/// `async`, `unsafe` and `extern`, each empty where the item has none.
#[derive(Clone, Debug, PartialEq, Eq)]
pub struct FunctionPrefix {
    pub attributes: Vec<String>,
    pub qualifiers: Vec<String>,
}

/// Mathematical view of [`FunctionPrefix`].
pub struct FunctionPrefixView {
    pub attributes: Seq<Seq<char>>,
    pub qualifiers: Seq<Seq<char>>,
}

impl View for FunctionPrefix {
    type V = FunctionPrefixView;

    open spec fn view(&self) -> FunctionPrefixView {
        FunctionPrefixView {
            attributes: self.attributes@.map_values(|text: String| text@),
            qualifiers: self.qualifiers@.map_values(|text: String| text@),
        }
    }
}

/// What stands from the name on in a function item, as token text: the
/// name, the generic parameters, the parameters, the return type followed
/// by the `where` clause, and the statements.
#[derive(Clone, Debug, PartialEq, Eq)]
pub struct FunctionParts {
    pub name: String,
    pub generics: String,
    pub parameters: String,
    pub results: Vec<String>,
    pub statements: Vec<String>,
}

/// Mathematical view of [`FunctionParts`].
pub struct FunctionPartsView {
    pub name: Seq<char>,
    pub generics: Seq<char>,
    pub parameters: Seq<char>,
    pub results: Seq<Seq<char>>,
    pub statements: Seq<Seq<char>>,
}

impl View for FunctionParts {
    type V = FunctionPartsView;

    open spec fn view(&self) -> FunctionPartsView {
        FunctionPartsView {
            name: self.name@,
            generics: self.generics@,
            parameters: self.parameters@,
            results: self.results@.map_values(|text: String| text@),
            statements: self.statements@.map_values(|text: String| text@),
        }
    }
}

/// What an expression text is, by what the parser said of it.
#[derive(Clone, Debug, PartialEq, Eq)]
pub enum ExpressionShape {
    Integer(i64),
    Identifier(String),
    Call(String, String),
    Binary(String, Operator, String),
    Parenthesized(String),
    Opaque,
}

/// Mathematical view of [`ExpressionShape`].
pub enum ExpressionShapeView {
    Integer(i64),
    Identifier(Seq<char>),
    Call(Seq<char>, Seq<char>),
    Binary(Seq<char>, Operator, Seq<char>),
    Parenthesized(Seq<char>),
    Opaque,
}

impl View for ExpressionShape {
    type V = ExpressionShapeView;

    open spec fn view(&self) -> ExpressionShapeView {
        match self {
            ExpressionShape::Integer(value) => ExpressionShapeView::Integer(*value),
            ExpressionShape::Identifier(name) => ExpressionShapeView::Identifier(name@),
            ExpressionShape::Call(callee, arguments) => ExpressionShapeView::Call(
                callee@,
                arguments@,
            ),
            ExpressionShape::Binary(left, op, right) => ExpressionShapeView::Binary(
                left@,
                *op,
                right@,
            ),
            ExpressionShape::Parenthesized(inner) => ExpressionShapeView::Parenthesized(inner@),
            ExpressionShape::Opaque => ExpressionShapeView::Opaque,
        }
    }
}

/// What `syn::parse_file` makes of `source`: the shebang line, the token
/// text of each inner attribute, and the kind and token text of each item,
/// or the message of its error.
pub uninterp spec fn parsed_file(source: Seq<char>) -> Result<FilePartsView, Seq<char>>;

/// The token text of what stands before `fn`, if `syn::parse_str` reads
/// `text` as a `syn::ItemFn`.
pub uninterp spec fn parsed_prefix(text: Seq<char>) -> Option<FunctionPrefixView>;

/// The token text of what stands from the name on, if `syn::parse_str`
/// reads `text` as a `syn::ItemFn`.
pub uninterp spec fn parsed_function(text: Seq<char>) -> Option<FunctionPartsView>;

/// What `LitInt::base10_parse::<i64>` gives for `text`, if `syn::parse_str`
/// reads `text` as an integer literal and the digits can be parsed.
pub uninterp spec fn parsed_integer(text: Seq<char>) -> Option<i64>;

/// What `Path::get_ident` gives for `text`, if `syn::parse_str` reads `text`
/// as a path expression and the path is one identifier.
pub uninterp spec fn parsed_identifier(text: Seq<char>) -> Option<Seq<char>>;

/// The token text of the called expression and of the arguments, if
/// `syn::parse_str` reads `text` as a call.
pub uninterp spec fn parsed_call(text: Seq<char>) -> Option<(Seq<char>, Seq<char>)>;

/// The token text of the operands, and the operator, if `syn::parse_str`
/// reads `text` as a binary operation with `+`, `-`, `*` or `/`.
pub uninterp spec fn parsed_binary(text: Seq<char>) -> Option<(Seq<char>, Operator, Seq<char>)>;

/// The token text of the expression inside, if `syn::parse_str` reads `text`
/// as an expression in parentheses.
pub uninterp spec fn parsed_parenthesized(text: Seq<char>) -> Option<Seq<char>>;

/// Calls `syn::parse_file` and hands out, apart, the shebang line, the
/// printed tokens of every inner attribute, and the variant and printed
/// tokens of every item. The contract only names the result: the same
/// source gives the same parts or the same message. In the version of `syn`
/// that is used, a literal token that it does not know becomes
/// `Lit::Verbatim`; no literal makes it panic.
#[verifier::external_body]
pub(crate) fn file_parts(source: &str) -> (result: Result<FileParts, String>)
    ensures
        match result {
            Ok(parts) => parsed_file(source@) == Ok::<FilePartsView, Seq<char>>(parts@),
            Err(message) => parsed_file(source@) == Err::<FilePartsView, Seq<char>>(message@),
        },
{
    let file = syn::parse_file(source).map_err(|error| error.to_string())?;
    let kind = |item: &syn::Item| match item {
        syn::Item::Fn(_) => ItemKind::Function,
        syn::Item::Struct(_) => ItemKind::Struct,
        syn::Item::Enum(_) => ItemKind::Enum,
        syn::Item::Impl(_) => ItemKind::Impl,
        _ => ItemKind::Other,
    };
    Ok(FileParts {
        shebang: file.shebang,
        attributes: file.attrs.iter().map(|a| a.to_token_stream().to_string()).collect(),
        items: file.items.iter().map(|i| (kind(i), i.to_token_stream().to_string())).collect(),
    })
}

/// Calls `syn::parse_str` for a `syn::ItemFn` and prints the tokens of each
/// outer attribute, of the visibility and of the four qualifiers of the
/// signature. The contract only names the result.
#[verifier::external_body]
fn function_prefix(text: &str) -> (result: Option<FunctionPrefix>)
    ensures
        match result {
            Some(prefix) => parsed_prefix(text@) == Some(prefix@),
            None => parsed_prefix(text@) is None,
        },
{
    let function = syn::parse_str::<syn::ItemFn>(text).ok()?;
    let qualifiers = vec![
        function.vis.to_token_stream().to_string(),
        function.sig.constness.to_token_stream().to_string(),
        function.sig.asyncness.to_token_stream().to_string(),
        function.sig.unsafety.to_token_stream().to_string(),
        function.sig.abi.to_token_stream().to_string(),
    ];
    let attributes = function.attrs.iter().map(|a| a.to_token_stream().to_string()).collect();
    Some(FunctionPrefix { attributes, qualifiers })
}

/// Calls `syn::parse_str` for a `syn::ItemFn` and prints the tokens of its
/// name, generic parameters, parameters, return type, `where` clause and
/// statements. The contract only names the result.
#[verifier::external_body]
fn function_parts(text: &str) -> (result: Option<FunctionParts>)
    ensures
        match result {
            Some(parts) => parsed_function(text@) == Some(parts@),
            None => parsed_function(text@) is None,
        },
{
    let function = syn::parse_str::<syn::ItemFn>(text).ok()?;
    let sig = function.sig;
    Some(FunctionParts {
        name: sig.ident.to_string(),
        generics: sig.generics.to_token_stream().to_string(),
        parameters: sig.inputs.to_token_stream().to_string(),
        results: vec![
            sig.output.to_token_stream().to_string(),
            sig.generics.where_clause.to_token_stream().to_string(),
        ],
        statements: function.block.stmts.iter().map(|s| s.to_token_stream().to_string()).collect(),
    })
}

/// Calls `syn::parse_str` for a `syn::Expr` and, on an integer literal,
/// `LitInt::base10_parse`. The contract only names the result.
#[verifier::external_body]
fn integer_literal(text: &str) -> (result: Option<i64>)
    ensures
        result == parsed_integer(text@),
{
    match syn::parse_str::<syn::Expr>(text) {
        Ok(syn::Expr::Lit(syn::ExprLit { lit: syn::Lit::Int(literal), .. })) => {
            literal.base10_parse::<i64>().ok()
        },
        _ => None,
    }
}

/// Calls `syn::parse_str` for a `syn::Expr` and, on a path,
/// `Path::get_ident`. The contract only names the result.
#[verifier::external_body]
fn identifier(text: &str) -> (result: Option<String>)
    ensures
        match result {
            Some(name) => parsed_identifier(text@) == Some(name@),
            None => parsed_identifier(text@) is None,
        },
{
    match syn::parse_str::<syn::Expr>(text) {
        Ok(syn::Expr::Path(path)) => path.path.get_ident().map(|name| name.to_string()),
        _ => None,
    }
}

/// Calls `syn::parse_str` for a `syn::Expr` and, on a call, prints the
/// tokens of the expression that is called and of the arguments. The
/// contract only names the result.
#[verifier::external_body]
fn call_parts(text: &str) -> (result: Option<(String, String)>)
    ensures
        match result {
            Some((function, arguments)) => parsed_call(text@) == Some((function@, arguments@)),
            None => parsed_call(text@) is None,
        },
{
    match syn::parse_str::<syn::Expr>(text) {
        Ok(syn::Expr::Call(call)) => Some(
            (call.func.to_token_stream().to_string(), call.args.to_token_stream().to_string()),
        ),
        _ => None,
    }
}

/// Calls `syn::parse_str` for a `syn::Expr` and, on a binary operation
/// with one of the four operators, prints the tokens of its operands. The
/// contract only names the result.
#[verifier::external_body]
fn binary_parts(text: &str) -> (result: Option<(String, Operator, String)>)
    ensures
        match result {
            Some((left, op, right)) => parsed_binary(text@) == Some((left@, op, right@)),
            None => parsed_binary(text@) is None,
        },
{
    let binary = match syn::parse_str::<syn::Expr>(text) {
        Ok(syn::Expr::Binary(binary)) => binary,
        _ => return None,
    };
    let op = match binary.op {
        syn::BinOp::Add(_) => Operator::Add,
        syn::BinOp::Sub(_) => Operator::Sub,
        syn::BinOp::Mul(_) => Operator::Mul,
        syn::BinOp::Div(_) => Operator::Div,
        _ => return None,
    };
    Some((binary.left.to_token_stream().to_string(), op, binary.right.to_token_stream().to_string()))
}

/// Calls `syn::parse_str` for a `syn::Expr` and, on an expression in
/// parentheses, prints the tokens of the expression inside. The contract
/// only names the result.
#[verifier::external_body]
fn parenthesized_inner(text: &str) -> (result: Option<String>)
    ensures
        match result {
            Some(inner) => parsed_parenthesized(text@) == Some(inner@),
            None => parsed_parenthesized(text@) is None,
        },
{
    match syn::parse_str::<syn::Expr>(text) {
        Ok(syn::Expr::Paren(group)) => Some(group.expr.to_token_stream().to_string()),
        _ => None,
    }
}

/// The text of a call of `callee` with the given argument text.
pub open spec fn call_text(callee: Seq<char>, arguments: Seq<char>) -> Seq<char> {
    callee + seq![' ', '('] + arguments + seq![')']
}

/// The text of a binary operation with the given operand texts.
pub open spec fn binary_text(left: Seq<char>, op: Operator, right: Seq<char>) -> Seq<char> {
    left + seq![' '] + operator_symbol(op) + seq![' '] + right
}

/// `inner` in parentheses.
pub open spec fn parenthesized_text(inner: Seq<char>) -> Seq<char> {
    seq!['('] + inner + seq![')']
}

/// The shape that the parser's integer gives `text`, if it counts.
pub open spec fn integer_shape(text: Seq<char>, integer: Option<i64>) -> Option<
    ExpressionShapeView,
> {
    match integer {
        Some(value) => if integer_text(value) == text {
            Some(ExpressionShapeView::Integer(value))
        } else {
            None
        },
        None => None,
    }
}

/// The shape that the parser's identifier gives `text`, if it counts.
pub open spec fn identifier_shape(text: Seq<char>, identifier: Option<Seq<char>>) -> Option<
    ExpressionShapeView,
> {
    match identifier {
        Some(name) => if name == text {
            Some(ExpressionShapeView::Identifier(name))
        } else {
            None
        },
        None => None,
    }
}

/// The shape that the parser's call gives `text`, if it counts: what is
/// called must be a name, and `text` the call as the model writes it.
pub open spec fn call_shape(
    text: Seq<char>,
    call: Option<(Seq<char>, Seq<char>)>,
    callee: Option<Seq<char>>,
) -> Option<ExpressionShapeView> {
    match call {
        Some((function, arguments)) => if callee == Some(function) && call_text(
            function,
            arguments,
        ) == text {
            Some(ExpressionShapeView::Call(function, arguments))
        } else {
            None
        },
        None => None,
    }
}

/// The shape that the parser's binary operation gives `text`, if it
/// counts.
pub open spec fn binary_shape(text: Seq<char>, binary: Option<(Seq<char>, Operator, Seq<char>)>)
    -> Option<ExpressionShapeView> {
    match binary {
        Some((left, op, right)) => if binary_text(left, op, right) == text {
            Some(ExpressionShapeView::Binary(left, op, right))
        } else {
            None
        },
        None => None,
    }
}

/// The shape that the parser's parentheses give `text`, if it counts.
pub open spec fn inner_shape(text: Seq<char>, inner: Option<Seq<char>>) -> Option<
    ExpressionShapeView,
> {
    match inner {
        Some(inside) => if parenthesized_text(inside) == text {
            Some(ExpressionShapeView::Parenthesized(inside))
        } else {
            None
        },
        None => None,
    }
}

/// The shape of `text`, given what the parser said of it: its value as an
/// integer literal, its name as an identifier, its parts as a call and the
/// name of what is called, its parts as a binary operation, and what its
/// parentheses hold. A result of the parser counts only if `text` is written
/// exactly as the model writes it; the first that counts, in this order,
/// decides.
pub open spec fn shape_of(
    text: Seq<char>,
    integer: Option<i64>,
    identifier: Option<Seq<char>>,
    call: Option<(Seq<char>, Seq<char>)>,
    callee: Option<Seq<char>>,
    binary: Option<(Seq<char>, Operator, Seq<char>)>,
    inner: Option<Seq<char>>,
) -> ExpressionShapeView {
    if integer_shape(text, integer) is Some {
        integer_shape(text, integer)->0
    } else if identifier_shape(text, identifier) is Some {
        identifier_shape(text, identifier)->0
    } else if call_shape(text, call, callee) is Some {
        call_shape(text, call, callee)->0
    } else if binary_shape(text, binary) is Some {
        binary_shape(text, binary)->0
    } else if inner_shape(text, inner) is Some {
        inner_shape(text, inner)->0
    } else {
        ExpressionShapeView::Opaque
    }
}

/// The shape of `text` by what the parser says of it.
pub open spec fn parsed_shape(text: Seq<char>) -> ExpressionShapeView {
    shape_of(
        text,
        parsed_integer(text),
        parsed_identifier(text),
        parsed_call(text),
        match parsed_call(text) {
            Some(call) => parsed_identifier(call.0),
            None => None,
        },
        parsed_binary(text),
        parsed_parenthesized(text),
    )
}

/// The expression that `text` is in the model.
///
/// Integer literals, identifiers, calls of a name and binary operations
/// are modelled. Parentheses around a modelled expression are dropped,
/// since the printer puts them where they are needed. Everything else is
/// opaque.
pub open spec fn lowered_expression(text: Seq<char>) -> ExpressionView
    decreases text.len(),
{
    match parsed_shape(text) {
        ExpressionShapeView::Integer(value) => ExpressionView::IntegerLiteral(value),
        ExpressionShapeView::Identifier(name) => ExpressionView::Identifier(name),
        ExpressionShapeView::Call(callee, arguments) => ExpressionView::Call { callee, arguments },
        ExpressionShapeView::Binary(left, op, right) => {
            proof {
                assert(binary_text(left, op, right) == text);
                assert(binary_text(left, op, right).len() == left.len() + right.len() + 3);
            }
            ExpressionView::BinaryOp {
                op,
                left: Box::new(lowered_expression(left)),
                right: Box::new(lowered_expression(right)),
            }
        },
        ExpressionShapeView::Parenthesized(inner) => {
            proof {
                assert(parenthesized_text(inner) == text);
                assert(parenthesized_text(inner).len() == inner.len() + 2);
            }
            let modelled = lowered_expression(inner);
            if modelled is Opaque {
                ExpressionView::Opaque(text)
            } else {
                modelled
            }
        },
        ExpressionShapeView::Opaque => ExpressionView::Opaque(text),
    }
}

/// The statement that `text` is in the model: an expression statement if
/// `text` is a modelled expression, opaque otherwise.
pub open spec fn lowered_statement(text: Seq<char>) -> StatementView {
    let expression = lowered_expression(text);
    if expression is Opaque {
        StatementView::Opaque(text)
    } else {
        StatementView::ExpressionStatement(expression)
    }
}

/// The pieces that are not empty, with single spaces between them.
pub open spec fn spaced(pieces: Seq<Seq<char>>) -> Seq<char>
    decreases pieces.len(),
{
    if pieces.len() == 0 {
        Seq::<char>::empty()
    } else {
        let front = spaced(pieces.drop_last());
        if pieces.last().len() == 0 {
            front
        } else if front.len() == 0 {
            pieces.last()
        } else {
            front + seq![' '] + pieces.last()
        }
    }
}

/// The statement texts, each followed by a space.
pub open spec fn joined(statements: Seq<Seq<char>>) -> Seq<char>
    decreases statements.len(),
{
    if statements.len() == 0 {
        Seq::<char>::empty()
    } else {
        joined(statements.drop_last()) + statements.last() + seq![' ']
    }
}

/// The function, still without its body, that the pieces make.
pub open spec fn header_of(prefix: FunctionPrefixView, parts: FunctionPartsView) -> FunctionView {
    FunctionView {
        attributes: spaced(prefix.attributes),
        visibility: spaced(prefix.qualifiers),
        name: parts.name,
        generics: parts.generics,
        parameters: parts.parameters,
        return_marker: spaced(parts.results),
        body: Seq::<StatementView>::empty(),
    }
}

/// The text of a function item that is made of nothing but the pieces.
pub open spec fn frame_text(prefix: FunctionPrefixView, parts: FunctionPartsView) -> Seq<char> {
    header_text(header_of(prefix, parts)) + joined(parts.statements) + seq!['}']
}

/// The header that the pieces make, if `text` is made of nothing but the
/// pieces.
pub open spec fn framed(text: Seq<char>, prefix: FunctionPrefixView, parts: FunctionPartsView)
    -> Option<FunctionView> {
    if frame_text(prefix, parts) == text {
        Some(header_of(prefix, parts))
    } else {
        None
    }
}

/// The item that `text` is in the model: a function if the parser reads
/// `text` as a function item and `text` consists of the pieces it names and
/// of nothing else; opaque otherwise.
pub open spec fn lowered_item(text: Seq<char>) -> ItemView {
    match (parsed_prefix(text), parsed_function(text)) {
        (Some(prefix), Some(parts)) => match framed(text, prefix, parts) {
            Some(header) => ItemView::Function(
                FunctionView {
                    body: parts.statements.map_values(|text: Seq<char>| lowered_statement(text)),
                    ..header
                },
            ),
            None => ItemView::Opaque(text),
        },
        _ => ItemView::Opaque(text),
    }
}

/// The item that the parser's item is in the model: only function items
/// are looked into.
pub open spec fn lowered_entry(entry: (ItemKind, Seq<char>)) -> ItemView {
    if entry.0 == ItemKind::Function {
        lowered_item(entry.1)
    } else {
        ItemView::Opaque(entry.1)
    }
}

/// The shebang line as an item, if there is one.
pub open spec fn shebang_items(shebang: Option<Seq<char>>) -> Seq<ItemView> {
    match shebang {
        Some(line) => seq![ItemView::Opaque(line)],
        None => Seq::<ItemView>::empty(),
    }
}

/// The program that the parts of a file make: the shebang line and the
/// inner attributes as opaque items, then the items.
pub open spec fn program_of(parts: FilePartsView) -> Seq<ItemView> {
    shebang_items(parts.shebang) + parts.attributes.map_values(
        |text: Seq<char>| ItemView::Opaque(text),
    ) + parts.items.map_values(|entry: (ItemKind, Seq<char>)| lowered_entry(entry))
}

/// The program that `source` is in the model, or the parser's message.
pub open spec fn parsed_program(source: Seq<char>) -> Result<Seq<ItemView>, Seq<char>> {
    match parsed_file(source) {
        Ok(parts) => Ok(program_of(parts)),
        Err(message) => Err(message),
    }
}

/// Picks the shape of `text` from what the parser said of it.
///
/// `integer`, `identifier`, `call`, `binary` and `inner` are the parser's
/// readings of `text`; `callee` is its reading, as an identifier, of
/// what `call` says is called.
pub fn expression_shape(
    text: &String,
    integer: Option<i64>,
    identifier: Option<String>,
    call: Option<(String, String)>,
    callee: Option<String>,
    binary: Option<(String, Operator, String)>,
    inner: Option<String>,
) -> (result: ExpressionShape)
    ensures
        result@ == shape_of(
            text@,
            integer,
            match identifier {
                Some(name) => Some(name@),
                None => None,
            },
            match call {
                Some(parts) => Some((parts.0@, parts.1@)),
                None => None,
            },
            match callee {
                Some(name) => Some(name@),
                None => None,
            },
            match binary {
                Some(parts) => Some((parts.0@, parts.1, parts.2@)),
                None => None,
            },
            match inner {
                Some(inside) => Some(inside@),
                None => None,
            },
        ),
{
    proof {
        reveal_strlit(" ");
        reveal_strlit(" (");
        reveal_strlit("(");
        reveal_strlit(")");
    }
    if let Some(value) = integer {
        let mut written = String::new();
        print_integer(value, &mut written);
        if written == *text {
            return ExpressionShape::Integer(value);
        }
    }
    if let Some(name) = identifier {
        if name == *text {
            return ExpressionShape::Identifier(name);
        }
    }
    if let Some((function, arguments)) = call {
        if let Some(name) = callee {
            let mut written = function.clone();
            written.append(" (");
            written.append(arguments.as_str());
            written.append(")");
            assert(written@ =~= call_text(function@, arguments@));
            if name == function && written == *text {
                return ExpressionShape::Call(function, arguments);
            }
        }
    }
    if let Some((left, op, right)) = binary {
        let mut written = left.clone();
        written.append(" ");
        written.append(operator_token(op));
        written.append(" ");
        written.append(right.as_str());
        assert(written@ =~= binary_text(left@, op, right@));
        if written == *text {
            return ExpressionShape::Binary(left, op, right);
        }
    }
    if let Some(inside) = inner {
        let mut written = String::from_str("(");
        written.append(inside.as_str());
        written.append(")");
        assert(written@ =~= parenthesized_text(inside@));
        if written == *text {
            return ExpressionShape::Parenthesized(inside);
        }
    }
    ExpressionShape::Opaque
}

/// Asks the parser about `text` and picks its shape.
pub fn shape_of_text(text: &String) -> (result: ExpressionShape)
    ensures
        result@ == parsed_shape(text@),
{
    let integer = integer_literal(text.as_str());
    let identifier = identifier(text.as_str());
    let call = call_parts(text.as_str());
    let callee = match &call {
        Some(parts) => self::identifier(parts.0.as_str()),
        None => None,
    };
    let binary = binary_parts(text.as_str());
    let inner = parenthesized_inner(text.as_str());
    expression_shape(text, integer, identifier, call, callee, binary, inner)
}

/// Models the expression whose token text is `text`.
pub fn lower_expression(text: String) -> (result: Expression)
    ensures
        result@ == lowered_expression(text@),
    decreases text@.len(),
{
    match shape_of_text(&text) {
        ExpressionShape::Integer(value) => Expression::IntegerLiteral(value),
        ExpressionShape::Identifier(name) => Expression::Identifier(name),
        ExpressionShape::Call(callee, arguments) => Expression::Call { callee, arguments },
        ExpressionShape::Binary(left, op, right) => {
            assert(binary_text(left@, op, right@).len() == left@.len() + right@.len() + 3);
            let left = lower_expression(left);
            let right = lower_expression(right);
            Expression::BinaryOp { op, left: Box::new(left), right: Box::new(right) }
        },
        ExpressionShape::Parenthesized(inner) => {
            assert(parenthesized_text(inner@).len() == inner@.len() + 2);
            match lower_expression(inner) {
                Expression::Opaque(_) => Expression::Opaque(text),
                modelled => modelled,
            }
        },
        ExpressionShape::Opaque => Expression::Opaque(text),
    }
}

/// Models the statement whose token text is `text`.
pub fn lower_statement(text: String) -> (result: Statement)
    ensures
        result@ == lowered_statement(text@),
{
    match lower_expression(text.clone()) {
        Expression::Opaque(_) => Statement::Opaque(text),
        modelled => Statement::ExpressionStatement(modelled),
    }
}

/// The pieces that are not empty, with single spaces between them.
pub fn spaced_text(pieces: &Vec<String>) -> (result: String)
    ensures
        result@ == spaced(pieces@.map_values(|text: String| text@)),
{
    let ghost texts = pieces@.map_values(|text: String| text@);
    let mut result = String::new();
    let mut index: usize = 0;
    while index < pieces.len()
        invariant
            index <= pieces.len(),
            texts == pieces@.map_values(|text: String| text@),
            result@ == spaced(texts.take(index as int)),
        decreases pieces.len() - index,
    {
        proof {
            reveal_strlit(" ");
            assert(texts.take(index + 1).drop_last() =~= texts.take(index as int));
        }
        if !pieces[index].as_str().is_empty() {
            if !result.as_str().is_empty() {
                result.append(" ");
            }
            result.append(pieces[index].as_str());
        }
        assert(result@ =~= spaced(texts.take(index + 1)));
        index += 1;
    }
    assert(texts.take(index as int) =~= texts);
    result
}

/// Tests the frame of a function item: returns the function, still
/// without its body, that the pieces make, if `text` is made of nothing but
/// the pieces.
pub fn frame_function(text: &String, prefix: &FunctionPrefix, parts: &FunctionParts) -> (result:
    Option<Function>)
    ensures
        match result {
            Some(function) => framed(text@, prefix@, parts@) == Some(function@),
            None => framed(text@, prefix@, parts@) is None,
        },
{
    let function = Function {
        attributes: spaced_text(&prefix.attributes),
        visibility: spaced_text(&prefix.qualifiers),
        name: parts.name.clone(),
        generics: parts.generics.clone(),
        parameters: parts.parameters.clone(),
        return_marker: spaced_text(&parts.results),
        body: Block { statements: Vec::new() },
    };
    assert(function.body@ =~= Seq::<StatementView>::empty());
    let mut written = String::new();
    print_header(&function, &mut written);
    let ghost header = written@;
    let ghost texts = parts.statements@.map_values(|statement: String| statement@);
    let mut index: usize = 0;
    while index < parts.statements.len()
        invariant
            index <= parts.statements.len(),
            texts == parts.statements@.map_values(|statement: String| statement@),
            written@ == header + joined(texts.take(index as int)),
        decreases parts.statements.len() - index,
    {
        proof {
            reveal_strlit(" ");
            assert(texts.take(index + 1).drop_last() =~= texts.take(index as int));
        }
        written.append(parts.statements[index].as_str());
        written.append(" ");
        index += 1;
    }
    assert(texts.take(index as int) =~= texts);
    written.append("}");
    proof {
        reveal_strlit("}");
        assert(written@ =~= frame_text(prefix@, parts@));
    }
    if written == *text {
        Some(function)
    } else {
        None
    }
}

/// Models the item whose token text is `text`.
pub fn lower_item(text: String) -> (result: Item)
    ensures
        result@ == lowered_item(text@),
{
    let prefix = function_prefix(text.as_str());
    let parts = function_parts(text.as_str());
    let (prefix, parts) = match (prefix, parts) {
        (Some(prefix), Some(parts)) => (prefix, parts),
        _ => return Item::Opaque(text),
    };
    let mut function = match frame_function(&text, &prefix, &parts) {
        Some(function) => function,
        None => return Item::Opaque(text),
    };
    let ghost texts = parts.statements@.map_values(|statement: String| statement@);
    let mut body: Vec<Statement> = Vec::new();
    for statement in iter: parts.statements
        invariant
            iter.seq() == parts.statements@,
            body.len() == iter.index(),
            forall|j: int|
                0 <= j < body.len() ==> (#[trigger] body[j])@ == lowered_statement(
                    parts.statements[j]@,
                ),
    {
        body.push(lower_statement(statement));
    }
    function.body = Block { statements: body };
    assert(function.body@ =~= texts.map_values(|text: Seq<char>| lowered_statement(text)));
    Item::Function(function)
}

/// Puts the parts of a file together as a program.
pub fn program_from_parts(parts: FileParts) -> (result: Program)
    ensures
        result@ == program_of(parts@),
{
    let FileParts { shebang, attributes, items } = parts;
    let mut program: Vec<Item> = Vec::new();
    if let Some(line) = shebang {
        program.push(Item::Opaque(line));
    }
    let ghost lead = program@.map_values(|item: Item| item@);
    assert(lead =~= shebang_items(parts@.shebang));
    for text in iter: attributes
        invariant
            iter.seq() == attributes@,
            program.len() == lead.len() + iter.index(),
            forall|j: int| 0 <= j < lead.len() ==> (#[trigger] program[j])@ == lead[j],
            forall|k: int|
                lead.len() <= k < program.len() ==> (#[trigger] program[k])@ == ItemView::Opaque(
                    attributes[k - lead.len()]@,
                ),
    {
        program.push(Item::Opaque(text));
    }
    let ghost head = program@.map_values(|item: Item| item@);
    assert(head =~= lead + parts@.attributes.map_values(|text: Seq<char>| ItemView::Opaque(text)));
    for entry in iter: items
        invariant
            iter.seq() == items@,
            program.len() == head.len() + iter.index(),
            forall|j: int| 0 <= j < head.len() ==> (#[trigger] program[j])@ == head[j],
            forall|k: int|
                head.len() <= k < program.len() ==> (#[trigger] program[k])@ == lowered_entry(
                    (items[k - head.len()].0, items[k - head.len()].1@),
                ),
    {
        let (kind, text) = entry;
        let item = match kind {
            ItemKind::Function => lower_item(text),
            _ => Item::Opaque(text),
        };
        program.push(item);
    }
    let result = Program { items: program };
    assert(result@ =~= program_of(parts@));
    result
}

/// Parses `code` into a program.
///
/// Fails with the parser's message if `code` is not a source file of the
/// grammar; no pass can run then. Otherwise every item of the file, in
/// order, is modelled as far as the model can say it.
pub fn parse_code(code: &str) -> (result: Result<Program, ParseError>)
    ensures
        match result {
            Ok(program) => parsed_program(code@) == Ok::<Seq<ItemView>, Seq<char>>(program@),
            Err(error) => parsed_program(code@) == Err::<Seq<ItemView>, Seq<char>>(error@),
        },
{
    match file_parts(code) {
        Ok(parts) => Ok(program_from_parts(parts)),
        Err(message) => Err(ParseError { message }),
    }
}

/// `text` is written as the printer writes the expression that it is
/// modelled as.
pub open spec fn is_normal(text: Seq<char>) -> bool {
    expression_text(lowered_expression(text)) == text
}

/// The texts, each on a line of its own.
pub open spec fn lines(texts: Seq<Seq<char>>) -> Seq<char>
    decreases texts.len(),
{
    if texts.len() == 0 {
        Seq::<char>::empty()
    } else {
        lines(texts.drop_last()) + texts.last() + seq!['\n']
    }
}

/// Text that is neither a binary operation nor in parentheses is normal:
/// it is modelled as a literal, a name or a call that is written exactly
/// so, or it is opaque.
pub proof fn lemma_plain_text_is_normal(text: Seq<char>)
    requires
        !(parsed_shape(text) is Binary),
        !(parsed_shape(text) is Parenthesized),
    ensures
        is_normal(text),
{
}

/// A binary operation is normal if its operands are and the printer puts
/// neither of them in parentheses.
pub proof fn lemma_binary_text_is_normal(
    text: Seq<char>,
    left: Seq<char>,
    op: Operator,
    right: Seq<char>,
)
    requires
        parsed_shape(text) == ExpressionShapeView::Binary(left, op, right),
        is_normal(left),
        is_normal(right),
        !needs_parentheses(op, lowered_expression(left), false),
        !needs_parentheses(op, lowered_expression(right), true),
    ensures
        is_normal(text),
{
    assert(binary_text(left, op, right) == text);
    assert(binary_text(left, op, right).len() == left.len() + right.len() + 3);
}

/// A statement whose text is normal is printed as it was read.
pub proof fn lemma_statement_text_is_kept(text: Seq<char>)
    requires
        is_normal(text),
    ensures
        statement_text(lowered_statement(text)) == text,
{
}

proof fn lemma_body_text_is_kept(statements: Seq<Seq<char>>)
    requires
        forall|i: int| 0 <= i < statements.len() ==> is_normal(#[trigger] statements[i]),
    ensures
        body_text(statements.map_values(|text: Seq<char>| lowered_statement(text))) == joined(
            statements,
        ),
    decreases statements.len(),
{
    let body = statements.map_values(|text: Seq<char>| lowered_statement(text));
    if statements.len() > 0 {
        let front = statements.drop_last();
        assert forall|i: int| 0 <= i < front.len() implies is_normal(#[trigger] front[i]) by {
            assert(front[i] == statements[i]);
        }
        lemma_body_text_is_kept(front);
        assert(body.drop_last() =~= front.map_values(|text: Seq<char>| lowered_statement(text)));
        assert(is_normal(statements[statements.len() - 1]));
        lemma_statement_text_is_kept(statements.last());
    }
}

/// An item is printed as it was read if it is opaque, or if it is a
/// function all of whose statements are normal.
pub proof fn lemma_item_text_is_kept(text: Seq<char>)
    requires
        lowered_item(text) is Function ==> forall|i: int|
            0 <= i < parsed_function(text)->0.statements.len() ==> is_normal(
                #[trigger] parsed_function(text)->0.statements[i],
            ),
    ensures
        item_text(lowered_item(text)) == text,
{
    if lowered_item(text) is Function {
        lemma_body_text_is_kept(parsed_function(text)->0.statements);
    }
}

proof fn lemma_program_text_of_opaque(texts: Seq<Seq<char>>)
    ensures
        program_text(texts.map_values(|text: Seq<char>| ItemView::Opaque(text))) == lines(texts),
    decreases texts.len(),
{
    let program = texts.map_values(|text: Seq<char>| ItemView::Opaque(text));
    if texts.len() > 0 {
        lemma_program_text_of_opaque(texts.drop_last());
        assert(program.drop_last() =~= texts.drop_last().map_values(
            |text: Seq<char>| ItemView::Opaque(text),
        ));
    }
}

proof fn lemma_program_text_add(first: Seq<ItemView>, second: Seq<ItemView>)
    ensures
        program_text(first + second) == program_text(first) + program_text(second),
    decreases second.len(),
{
    if second.len() == 0 {
        assert(first + second =~= first);
    } else {
        lemma_program_text_add(first, second.drop_last());
        assert((first + second).drop_last() =~= first + second.drop_last());
        assert(program_text(first + second) =~= program_text(first) + program_text(second));
    }
}

proof fn lemma_lines_add(first: Seq<Seq<char>>, second: Seq<Seq<char>>)
    ensures
        lines(first + second) == lines(first) + lines(second),
    decreases second.len(),
{
    if second.len() == 0 {
        assert(first + second =~= first);
    } else {
        lemma_lines_add(first, second.drop_last());
        assert((first + second).drop_last() =~= first + second.drop_last());
        assert(lines(first + second) =~= lines(first) + lines(second));
    }
}

proof fn lemma_entries_text_is_kept(entries: Seq<(ItemKind, Seq<char>)>)
    requires
        forall|i: int|
            0 <= i < entries.len() ==> item_text(lowered_entry(#[trigger] entries[i]))
                == entries[i].1,
    ensures
        program_text(
            entries.map_values(|entry: (ItemKind, Seq<char>)| lowered_entry(entry)),
        ) == lines(entries.map_values(|entry: (ItemKind, Seq<char>)| entry.1)),
    decreases entries.len(),
{
    let program = entries.map_values(|entry: (ItemKind, Seq<char>)| lowered_entry(entry));
    let texts = entries.map_values(|entry: (ItemKind, Seq<char>)| entry.1);
    if entries.len() > 0 {
        let front = entries.drop_last();
        assert forall|i: int| 0 <= i < front.len() implies item_text(
            lowered_entry(#[trigger] front[i]),
        ) == front[i].1 by {
            assert(front[i] == entries[i]);
        }
        lemma_entries_text_is_kept(front);
        assert(program.drop_last() =~= front.map_values(
            |entry: (ItemKind, Seq<char>)| lowered_entry(entry),
        ));
        assert(texts.drop_last() =~= front.map_values(|entry: (ItemKind, Seq<char>)| entry.1));
        assert(item_text(lowered_entry(entries[entries.len() - 1])) == entries[entries.len()
            - 1].1);
    }
}

/// The texts of a file in the order in which they are printed: the shebang
/// line, the inner attributes, the items.
pub open spec fn file_texts(parts: FilePartsView) -> Seq<Seq<char>> {
    (match parts.shebang {
        Some(line) => seq![line],
        None => Seq::<Seq<char>>::empty(),
    }) + parts.attributes + parts.items.map_values(|entry: (ItemKind, Seq<char>)| entry.1)
}

/// Printing undoes parsing: if every item is printed as it was read, the
/// text of the parsed program is the text of the parts of the file, line
/// by line.
pub proof fn lemma_program_text_is_kept(parts: FilePartsView)
    requires
        forall|i: int|
            0 <= i < parts.items.len() ==> item_text(lowered_entry(#[trigger] parts.items[i]))
                == parts.items[i].1,
    ensures
        program_text(program_of(parts)) == lines(file_texts(parts)),
{
    let lead = shebang_items(parts.shebang);
    let lead_texts = match parts.shebang {
        Some(line) => seq![line],
        None => Seq::<Seq<char>>::empty(),
    };
    let attributes = parts.attributes.map_values(|text: Seq<char>| ItemView::Opaque(text));
    let items = parts.items.map_values(|entry: (ItemKind, Seq<char>)| lowered_entry(entry));
    let texts = parts.items.map_values(|entry: (ItemKind, Seq<char>)| entry.1);
    assert(lead =~= lead_texts.map_values(|text: Seq<char>| ItemView::Opaque(text)));
    lemma_program_text_of_opaque(lead_texts);
    lemma_program_text_of_opaque(parts.attributes);
    lemma_entries_text_is_kept(parts.items);
    lemma_program_text_add(lead, attributes);
    lemma_program_text_add(lead + attributes, items);
    lemma_lines_add(lead_texts, parts.attributes);
    lemma_lines_add(lead_texts + parts.attributes, texts);
}

} // verus!
