//! The constant folder: literal integer arithmetic is evaluated in place.
//!
//! A binary operation whose operands are both integer literals becomes a
//! single literal, computed with checked 64-bit signed arithmetic. Overflow
//! and division by zero leave the node as it is. Operands are folded before
//! the node that holds them, so nested literal arithmetic reduces fully.

use vstd::prelude::*;
use crate::model::{
    Block, Expression, ExpressionView, Function, FunctionView, Item, ItemView, Operator, Program, Statement,
    StatementView,
};

verus! {

/// Division that rounds toward zero, as the machine does it.
pub open spec fn truncated_quotient(dividend: int, divisor: int) -> int
    recommends
        divisor != 0,
{
    if dividend >= 0 && divisor > 0 {
        dividend / divisor
    } else if dividend < 0 && divisor < 0 {
        (-dividend) / (-divisor)
    } else if dividend < 0 {
        -((-dividend) / divisor)
    } else {
        -(dividend / (-divisor))
    }
}

/// The exact mathematical result of `left op right`, when it is defined.
pub open spec fn exact_result(op: Operator, left: int, right: int) -> Option<int> {
    match op {
        Operator::Add => Some(left + right),
        Operator::Sub => Some(left - right),
        Operator::Mul => Some(left * right),
        Operator::Div => if right == 0 {
            None
        } else {
            Some(truncated_quotient(left, right))
        },
    }
}

/// Checked 64-bit evaluation: the exact result when it is defined and fits
/// in an `i64`, nothing otherwise.
pub open spec fn evaluate(op: Operator, left: i64, right: i64) -> Option<i64> {
    match exact_result(op, left as int, right as int) {
        Some(value) => if i64::MIN <= value <= i64::MAX {
            Some(value as i64)
        } else {
            None
        },
        None => None,
    }
}

/// The binary operation `left op right`.
pub open spec fn binary_node(op: Operator, left: ExpressionView, right: ExpressionView)
    -> ExpressionView {
    ExpressionView::BinaryOp { op, left: Box::new(left), right: Box::new(right) }
}

/// What one binary node becomes once its operands are final.
pub open spec fn fold_node(op: Operator, left: ExpressionView, right: ExpressionView)
    -> ExpressionView {
    match (left, right) {
        (ExpressionView::IntegerLiteral(a), ExpressionView::IntegerLiteral(b)) => match evaluate(
            op,
            a,
            b,
        ) {
            Some(value) => ExpressionView::IntegerLiteral(value),
            None => ExpressionView::BinaryOp { op, left: Box::new(left), right: Box::new(right) },
        },
        _ => ExpressionView::BinaryOp { op, left: Box::new(left), right: Box::new(right) },
    }
}

/// The expression with all literal arithmetic folded, innermost first.
pub open spec fn folded(expression: ExpressionView) -> ExpressionView
    decreases expression,
{
    match expression {
        ExpressionView::BinaryOp { op, left, right } => fold_node(
            op,
            folded(*left),
            folded(*right),
        ),
        _ => expression,
    }
}

/// The statement with its expression folded.
pub open spec fn folded_statement(statement: StatementView) -> StatementView {
    match statement {
        StatementView::ExpressionStatement(expression) => StatementView::ExpressionStatement(
            folded(expression),
        ),
        StatementView::Opaque(_) => statement,
    }
}

/// The body with every statement folded.
pub open spec fn folded_block(body: Seq<StatementView>) -> Seq<StatementView> {
    body.map_values(|statement: StatementView| folded_statement(statement))
}

/// The item with the body of a function folded.
pub open spec fn folded_item(item: ItemView) -> ItemView {
    match item {
        ItemView::Function(function) => ItemView::Function(
            FunctionView { body: folded_block(function.body), ..function },
        ),
        ItemView::Opaque(_) => item,
    }
}

/// The program with every item folded.
pub open spec fn folded_program(program: Seq<ItemView>) -> Seq<ItemView> {
    program.map_values(|item: ItemView| folded_item(item))
}

/// Evaluates `left op right` with checked arithmetic.
///
/// Returns the value if the operation is defined and the result fits in
/// 64 signed bits, and `None` on overflow or division by zero.
pub fn evaluate_binary_expr(left: i64, right: i64, op: Operator) -> (result: Option<i64>)
    ensures
        result == evaluate(op, left, right),
{
    match op {
        Operator::Add => left.checked_add(right),
        Operator::Sub => left.checked_sub(right),
        Operator::Mul => left.checked_mul(right),
        Operator::Div => left.checked_div(right),
    }
}

/// The number of nodes of the tree.
pub open spec fn nodes(expression: Expression) -> nat
    decreases expression,
{
    match expression {
        Expression::BinaryOp { op, left, right } => 1 + nodes(*left) + nodes(*right),
        _ => 1,
    }
}

/// Folds one binary node from operands that are final.
fn fold_binary_node(op: Operator, left: Expression, right: Expression) -> (result: Expression)
    ensures
        result@ == fold_node(op, left@, right@),
{
    match (&left, &right) {
        (Expression::IntegerLiteral(a), Expression::IntegerLiteral(b)) => {
            match evaluate_binary_expr(*a, *b, op) {
                Some(value) => Expression::IntegerLiteral(value),
                None => Expression::BinaryOp { op, left: Box::new(left), right: Box::new(right) },
            }
        },
        _ => Expression::BinaryOp { op, left: Box::new(left), right: Box::new(right) },
    }
}

/// Folds the binary operation `left op right`: the operands first, then
/// the node itself if both have become literals.
pub fn simplify_binary_expression(op: Operator, left: Expression, right: Expression) -> (result:
    Expression)
    ensures
        result@ == folded(binary_node(op, left@, right@)),
    decreases 1 + nodes(left) + nodes(right), 0int,
{
    let left = simplify_expression(left);
    let right = simplify_expression(right);
    fold_binary_node(op, left, right)
}

/// Folds an expression bottom-up.
pub fn simplify_expression(expression: Expression) -> (result: Expression)
    ensures
        result@ == folded(expression@),
    decreases nodes(expression), 1int,
{
    match expression {
        Expression::BinaryOp { op, left, right } => simplify_binary_expression(op, *left, *right),
        other => other,
    }
}

/// Folds the expression of an expression statement; other statements pass
/// through.
pub fn simplify_statement(statement: Statement) -> (result: Statement)
    ensures
        result@ == folded_statement(statement@),
{
    match statement {
        Statement::ExpressionStatement(expression) => Statement::ExpressionStatement(
            simplify_expression(expression),
        ),
        other => other,
    }
}

/// Folds every statement of a block, in order.
pub fn simplify_block(block: Block) -> (result: Block)
    ensures
        result@ == folded_block(block@),
{
    let mut statements: Vec<Statement> = Vec::new();
    for statement in iter: block.statements
        invariant
            iter.seq() == block.statements@,
            statements.len() == iter.index(),
            forall|j: int|
                0 <= j < statements.len() ==> (#[trigger] statements[j])@ == folded_statement(
                    block.statements[j]@,
                ),
    {
        statements.push(simplify_statement(statement));
    }
    Block { statements }
}

/// Folds the body of a function item; other items pass through.
pub fn simplify_item(item: Item) -> (result: Item)
    ensures
        result@ == folded_item(item@),
{
    match item {
        Item::Function(function) => {
            let mut function = function;
            let mut body = Block { statements: Vec::new() };
            std::mem::swap(&mut function.body, &mut body);
            function.body = simplify_block(body);
            Item::Function(function)
        },
        other => other,
    }
}

/// Folds all literal integer arithmetic in the program.
///
/// Items keep their order and everything but the folded expressions is
/// left as it was.
pub fn simplify_expressions(program: &mut Program)
    ensures
        final(program)@ == folded_program(old(program)@),
{
    let mut items: Vec<Item> = Vec::new();
    std::mem::swap(&mut program.items, &mut items);
    let mut folded_items: Vec<Item> = Vec::new();
    for item in iter: items
        invariant
            iter.seq() == items@,
            folded_items.len() == iter.index(),
            forall|j: int|
                0 <= j < folded_items.len() ==> (#[trigger] folded_items[j])@ == folded_item(
                    items[j]@,
                ),
    {
        folded_items.push(simplify_item(item));
    }
    program.items = folded_items;
}

/// Some binary node of the expression has integer literals as both of its
/// operands.
pub open spec fn has_literal_arithmetic(expression: ExpressionView) -> bool
    decreases expression,
{
    match expression {
        ExpressionView::BinaryOp { op, left, right } => {
            ||| (*left is IntegerLiteral && *right is IntegerLiteral)
            ||| has_literal_arithmetic(*left)
            ||| has_literal_arithmetic(*right)
        },
        _ => false,
    }
}

/// Nothing is left to fold: wherever a binary node has two literal
/// operands, checked evaluation of it fails.
pub open spec fn is_reduced(expression: ExpressionView) -> bool
    decreases expression,
{
    match expression {
        ExpressionView::BinaryOp { op, left, right } => {
            &&& is_reduced(*left)
            &&& is_reduced(*right)
            &&& match (*left, *right) {
                (
                    ExpressionView::IntegerLiteral(a),
                    ExpressionView::IntegerLiteral(b),
                ) => evaluate(op, a, b) is None,
                _ => true,
            }
        },
        _ => true,
    }
}

/// The expression of the statement holds literal arithmetic.
pub open spec fn statement_has_literal_arithmetic(statement: StatementView) -> bool {
    match statement {
        StatementView::ExpressionStatement(expression) => has_literal_arithmetic(expression),
        StatementView::Opaque(_) => false,
    }
}

/// Some statement of the function holds literal arithmetic.
pub open spec fn item_has_literal_arithmetic(item: ItemView) -> bool {
    match item {
        ItemView::Function(function) => exists|i: int|
            0 <= i < function.body.len() && statement_has_literal_arithmetic(
                #[trigger] function.body[i],
            ),
        ItemView::Opaque(_) => false,
    }
}

/// Some expression statement of some function holds literal arithmetic.
pub open spec fn program_has_literal_arithmetic(program: Seq<ItemView>) -> bool {
    exists|i: int| 0 <= i < program.len() && item_has_literal_arithmetic(#[trigger] program[i])
}

/// Folding reduces fully: in one bottom-up pass every literal pair that can
/// be evaluated is gone.
pub proof fn lemma_folded_is_reduced(expression: ExpressionView)
    ensures
        is_reduced(folded(expression)),
    decreases expression,
{
    match expression {
        ExpressionView::BinaryOp { op, left, right } => {
            lemma_folded_is_reduced(*left);
            lemma_folded_is_reduced(*right);
        },
        _ => {},
    }
}

/// Folding leaves a reduced expression as it is.
pub proof fn lemma_reduced_is_unchanged(expression: ExpressionView)
    requires
        is_reduced(expression),
    ensures
        folded(expression) == expression,
    decreases expression,
{
    match expression {
        ExpressionView::BinaryOp { op, left, right } => {
            lemma_reduced_is_unchanged(*left);
            lemma_reduced_is_unchanged(*right);
        },
        _ => {},
    }
}

/// Folding is a fixed point: folding what has been folded changes nothing.
pub proof fn lemma_fold_idempotent(expression: ExpressionView)
    ensures
        folded(folded(expression)) == folded(expression),
{
    lemma_folded_is_reduced(expression);
    lemma_reduced_is_unchanged(folded(expression));
}

/// Folding an expression that holds no literal arithmetic is a no-op.
pub proof fn lemma_fold_without_literals(expression: ExpressionView)
    requires
        !has_literal_arithmetic(expression),
    ensures
        folded(expression) == expression,
    decreases expression,
{
    match expression {
        ExpressionView::BinaryOp { op, left, right } => {
            lemma_fold_without_literals(*left);
            lemma_fold_without_literals(*right);
        },
        _ => {},
    }
}

/// Folding a whole program twice gives what folding it once gives.
pub proof fn lemma_fold_program_idempotent(program: Seq<ItemView>)
    ensures
        folded_program(folded_program(program)) == folded_program(program),
{
    let once = folded_program(program);
    assert forall|i: int| 0 <= i < once.len() implies folded_item(once[i]) == once[i] by {
        lemma_fold_item_idempotent(program[i]);
    }
}

/// Folding a program that holds no literal arithmetic is a no-op.
pub proof fn lemma_fold_program_without_literals(program: Seq<ItemView>)
    requires
        !program_has_literal_arithmetic(program),
    ensures
        folded_program(program) == program,
{
    assert forall|i: int| 0 <= i < program.len() implies folded_item(program[i])
        == program[i] by {
        match program[i] {
            ItemView::Function(function) => {
                let body = function.body;
                assert forall|j: int| 0 <= j < body.len() implies folded_statement(body[j])
                    == body[j] by {
                    match body[j] {
                        StatementView::ExpressionStatement(expression) => {
                            lemma_fold_without_literals(expression);
                        },
                        StatementView::Opaque(_) => {},
                    }
                }
                assert(folded_block(body) =~= body);
            },
            ItemView::Opaque(_) => {},
        }
    }
}

/// Folding an item twice gives what folding it once gives.
pub proof fn lemma_fold_item_idempotent(item: ItemView)
    ensures
        folded_item(folded_item(item)) == folded_item(item),
{
    match item {
        ItemView::Function(function) => {
            let body = folded_block(function.body);
            assert forall|j: int| 0 <= j < body.len() implies folded_statement(body[j])
                == body[j] by {
                match function.body[j] {
                    StatementView::ExpressionStatement(expression) => {
                        lemma_fold_idempotent(expression);
                    },
                    StatementView::Opaque(_) => {},
                }
            }
            assert(folded_block(body) =~= body);
        },
        ItemView::Opaque(_) => {},
    }
}

} // verus!
