//! The printer: the text of a program.
//!
//! Tokens are separated by single spaces, as a token stream prints them, so
//! that the text of a modelled node is the token text it was read from.
//! Opaque text is emitted as it is. An operand that is itself a binary
//! operation is put in parentheses where precedence or left associativity
//! asks for them. Every item ends its own line.

use vstd::prelude::*;
use vstd::string::StringExecFns;
use crate::model::{
    Expression, ExpressionView, Function, FunctionView, Item, ItemView, Operator, Program,
    Statement, StatementView,
};
use crate::text::{append_decimal, decimal};

verus! {

/// The token of an operator.
pub open spec fn operator_symbol(op: Operator) -> Seq<char> {
    match op {
        Operator::Add => seq!['+'],
        Operator::Sub => seq!['-'],
        Operator::Mul => seq!['*'],
        Operator::Div => seq!['/'],
    }
}

/// How tightly an operator binds.
pub open spec fn precedence(op: Operator) -> nat {
    match op {
        Operator::Add | Operator::Sub => 1,
        Operator::Mul | Operator::Div => 2,
    }
}

/// The tokens of an integer: its decimal digits, behind a minus sign if it
/// is negative.
pub open spec fn integer_text(value: i64) -> Seq<char> {
    if value >= 0 {
        decimal(value as nat)
    } else {
        seq!['-', ' '] + decimal((-value) as nat)
    }
}

/// Whether `operand` must be put in parentheses under `parent`. All four
/// operators associate to the left, so a right operand is parenthesized
/// also when it binds as tightly as its parent.
pub open spec fn needs_parentheses(parent: Operator, operand: ExpressionView, on_right: bool)
    -> bool {
    match operand {
        ExpressionView::BinaryOp { op, left, right } => if on_right {
            precedence(op) <= precedence(parent)
        } else {
            precedence(op) < precedence(parent)
        },
        _ => false,
    }
}

/// `text`, in parentheses if `parenthesized`.
pub open spec fn wrapped(text: Seq<char>, parenthesized: bool) -> Seq<char> {
    if parenthesized {
        seq!['('] + text + seq![')']
    } else {
        text
    }
}

/// The text of an expression.
pub open spec fn expression_text(expression: ExpressionView) -> Seq<char>
    decreases expression,
{
    match expression {
        ExpressionView::IntegerLiteral(value) => integer_text(value),
        ExpressionView::BinaryOp { op, left, right } => wrapped(
            expression_text(*left),
            needs_parentheses(op, *left, false),
        ) + seq![' '] + operator_symbol(op) + seq![' '] + wrapped(
            expression_text(*right),
            needs_parentheses(op, *right, true),
        ),
        ExpressionView::Call { callee, arguments } => callee + seq![' ', '('] + arguments + seq![')'],
        ExpressionView::Identifier(name) => name,
        ExpressionView::Opaque(text) => text,
    }
}

/// The text of a statement.
pub open spec fn statement_text(statement: StatementView) -> Seq<char> {
    match statement {
        StatementView::ExpressionStatement(expression) => expression_text(expression),
        StatementView::Opaque(text) => text,
    }
}

/// The statements of a body, each followed by a space.
pub open spec fn body_text(body: Seq<StatementView>) -> Seq<char>
    decreases body.len(),
{
    if body.len() == 0 {
        Seq::<char>::empty()
    } else {
        body_text(body.drop_last()) + statement_text(body.last()) + seq![' ']
    }
}

/// `text` followed by a space, or nothing if `text` is empty.
pub open spec fn leading(text: Seq<char>) -> Seq<char> {
    if text.len() == 0 {
        text
    } else {
        text + seq![' ']
    }
}

/// A space followed by `text`, or nothing if `text` is empty.
pub open spec fn trailing(text: Seq<char>) -> Seq<char> {
    if text.len() == 0 {
        text
    } else {
        seq![' '] + text
    }
}

/// The header of a function up to the opening brace of its body.
pub open spec fn header_text(function: FunctionView) -> Seq<char> {
    leading(function.attributes) + leading(function.visibility) + seq!['f', 'n', ' ']
        + function.name + trailing(function.generics) + seq![' ', '('] + function.parameters
        + seq![')'] + trailing(function.return_marker) + seq![' ', '{', ' ']
}

/// The text of a function.
pub open spec fn function_text(function: FunctionView) -> Seq<char> {
    header_text(function) + body_text(function.body) + seq!['}']
}

/// The text of an item.
pub open spec fn item_text(item: ItemView) -> Seq<char> {
    match item {
        ItemView::Function(function) => function_text(function),
        ItemView::Opaque(text) => text,
    }
}

/// The text of a program: every item, in order, on a line of its own.
pub open spec fn program_text(program: Seq<ItemView>) -> Seq<char>
    decreases program.len(),
{
    if program.len() == 0 {
        Seq::<char>::empty()
    } else {
        program_text(program.drop_last()) + item_text(program.last()) + seq!['\n']
    }
}

/// The token of an operator.
pub fn operator_token(op: Operator) -> (result: &'static str)
    ensures
        result@ == operator_symbol(op),
{
    proof {
        reveal_strlit("+");
        reveal_strlit("-");
        reveal_strlit("*");
        reveal_strlit("/");
    }
    let result = match op {
        Operator::Add => "+",
        Operator::Sub => "-",
        Operator::Mul => "*",
        Operator::Div => "/",
    };
    result
}

fn binds(op: Operator) -> (result: u8)
    ensures
        result == precedence(op),
{
    match op {
        Operator::Add | Operator::Sub => 1,
        Operator::Mul | Operator::Div => 2,
    }
}

fn parenthesized(parent: Operator, operand: &Expression, on_right: bool) -> (result: bool)
    ensures
        result == needs_parentheses(parent, operand@, on_right),
{
    match operand {
        Expression::BinaryOp { op, left, right } => if on_right {
            binds(*op) <= binds(parent)
        } else {
            binds(*op) < binds(parent)
        },
        _ => false,
    }
}

/// Appends the tokens of `value` to `out`.
pub fn print_integer(value: i64, out: &mut String)
    ensures
        final(out)@ == old(out)@ + integer_text(value),
{
    if value >= 0 {
        append_decimal(out, value as u64);
    } else {
        out.append("- ");
        proof {
            reveal_strlit("- ");
        }
        append_decimal(out, (-(value as i128)) as u64);
    }
}

/// Appends the text of `expression` to `out`.
pub fn print_expression(expression: &Expression, out: &mut String)
    ensures
        final(out)@ == old(out)@ + expression_text(expression@),
    decreases expression,
{
    proof {
        reveal_strlit("(");
        reveal_strlit(")");
        reveal_strlit(" ");
        reveal_strlit(" (");
    }
    match expression {
        Expression::IntegerLiteral(value) => {
            print_integer(*value, out);
        },
        Expression::BinaryOp { op, left, right } => {
            let ghost start = out@;
            let around_left = parenthesized(*op, left, false);
            if around_left {
                out.append("(");
            }
            print_expression(left, out);
            if around_left {
                out.append(")");
            }
            assert(out@ =~= start + wrapped(expression_text(left@), around_left));
            out.append(" ");
            out.append(operator_token(*op));
            out.append(" ");
            let ghost middle = out@;
            let around_right = parenthesized(*op, right, true);
            if around_right {
                out.append("(");
            }
            print_expression(right, out);
            if around_right {
                out.append(")");
            }
            assert(out@ =~= middle + wrapped(expression_text(right@), around_right));
            assert(out@ =~= start + expression_text(expression@));
        },
        Expression::Call { callee, arguments } => {
            out.append(callee.as_str());
            out.append(" (");
            out.append(arguments.as_str());
            out.append(")");
        },
        Expression::Identifier(name) => {
            out.append(name.as_str());
        },
        Expression::Opaque(text) => {
            out.append(text.as_str());
        },
    }
}

/// Appends the text of `statement` to `out`.
pub fn print_statement(statement: &Statement, out: &mut String)
    ensures
        final(out)@ == old(out)@ + statement_text(statement@),
{
    match statement {
        Statement::ExpressionStatement(expression) => print_expression(expression, out),
        Statement::Opaque(text) => out.append(text.as_str()),
    }
}

fn print_leading(text: &str, out: &mut String)
    ensures
        final(out)@ == old(out)@ + leading(text@),
{
    if !text.is_empty() {
        out.append(text);
        out.append(" ");
        proof {
            reveal_strlit(" ");
        }
        assert(out@ =~= old(out)@ + leading(text@));
    }
}

fn print_trailing(text: &str, out: &mut String)
    ensures
        final(out)@ == old(out)@ + trailing(text@),
{
    if !text.is_empty() {
        out.append(" ");
        out.append(text);
        proof {
            reveal_strlit(" ");
        }
        assert(out@ =~= old(out)@ + trailing(text@));
    }
}

/// Appends the header of a function, up to the opening brace, to `out`.
pub fn print_header(function: &Function, out: &mut String)
    ensures
        final(out)@ == old(out)@ + header_text(function@),
{
    print_leading(function.attributes.as_str(), out);
    print_leading(function.visibility.as_str(), out);
    let ghost second = out@;
    out.append("fn ");
    out.append(function.name.as_str());
    print_trailing(function.generics.as_str(), out);
    let ghost third = out@;
    proof {
        reveal_strlit("fn ");
        assert(third =~= second + seq!['f', 'n', ' '] + function@.name + trailing(
            function@.generics,
        ));
    }
    out.append(" (");
    out.append(function.parameters.as_str());
    out.append(")");
    let ghost fourth = out@;
    proof {
        reveal_strlit(" (");
        reveal_strlit(")");
        assert(fourth =~= third + seq![' ', '('] + function@.parameters + seq![')']);
    }
    print_trailing(function.return_marker.as_str(), out);
    out.append(" { ");
    proof {
        reveal_strlit(" { ");
        assert(out@ =~= fourth + trailing(function@.return_marker) + seq![' ', '{', ' ']);
    }
}

/// Appends the text of `function` to `out`.
pub fn print_function(function: &Function, out: &mut String)
    ensures
        final(out)@ == old(out)@ + function_text(function@),
{
    print_header(function, out);
    let ghost start = out@;
    let mut index: usize = 0;
    while index < function.body.statements.len()
        invariant
            index <= function.body.statements.len(),
            out@ == start + body_text(function.body@.take(index as int)),
        decreases function.body.statements.len() - index,
    {
        proof {
            reveal_strlit(" ");
            let body = function.body@;
            assert(body.take(index + 1).drop_last() =~= body.take(index as int));
        }
        print_statement(&function.body.statements[index], out);
        out.append(" ");
        index += 1;
    }
    assert(function.body@.take(index as int) =~= function.body@);
    out.append("}");
    proof {
        reveal_strlit("}");
    }
}

/// The text of the program.
pub fn print_program(program: &Program) -> (result: String)
    ensures
        result@ == program_text(program@),
{
    let mut out = String::new();
    let mut index: usize = 0;
    while index < program.items.len()
        invariant
            index <= program.items.len(),
            out@ == program_text(program@.take(index as int)),
        decreases program.items.len() - index,
    {
        proof {
            reveal_strlit("\n");
            assert(program@.take(index + 1).drop_last() =~= program@.take(index as int));
        }
        match &program.items[index] {
            Item::Function(function) => print_function(function, &mut out),
            Item::Opaque(text) => out.append(text.as_str()),
        }
        out.append("\n");
        index += 1;
    }
    assert(program@.take(index as int) =~= program@);
    out
}

} // verus!
