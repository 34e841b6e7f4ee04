//! The program model: the tree that every pass reads and rewrites.
//!
//! Each exec type has a mathematical view in which names and opaque token
//! text are sequences of characters. Contracts are stated over the views.

use vstd::prelude::*;

verus! {

/// The arithmetic operators that the constant folder understands.
#[derive(Clone, Copy, Debug, PartialEq, Eq, Structural)]
pub enum Operator {
    Add,
    Sub,
    Mul,
    Div,
}

/// An expression. `Opaque` holds the token text of anything the pipeline
/// does not examine; so does `arguments`, the text between the parentheses
/// of a call.
#[derive(Debug, PartialEq, Eq)]
pub enum Expression {
    IntegerLiteral(i64),
    BinaryOp { op: Operator, left: Box<Expression>, right: Box<Expression> },
    Call { callee: String, arguments: String },
    Identifier(String),
    Opaque(String),
}

/// A statement of a function body.
#[derive(Clone, Debug, PartialEq, Eq)]
pub enum Statement {
    ExpressionStatement(Expression),
    Opaque(String),
}

/// An ordered sequence of statements.
#[derive(Clone, Debug, PartialEq, Eq)]
pub struct Block {
    pub statements: Vec<Statement>,
}

/// A function item. All fields but the name and the body are token text
/// that the passes copy but never look into: the outer attributes; the
/// visibility with the qualifiers that stand before `fn`; the generic
/// parameters; the parameters; the return type with the `where` clause.
#[derive(Clone, Debug, PartialEq, Eq)]
pub struct Function {
    pub attributes: String,
    pub visibility: String,
    pub name: String,
    pub generics: String,
    pub parameters: String,
    pub return_marker: String,
    pub body: Block,
}

/// A top-level item.
#[derive(Clone, Debug, PartialEq, Eq)]
pub enum Item {
    Function(Function),
    Opaque(String),
}

/// A whole program; the order of `items` is the order in which they are
/// printed.
#[derive(Clone, Debug, PartialEq, Eq)]
pub struct Program {
    pub items: Vec<Item>,
}

/// Mathematical view of an [`Expression`].
pub enum ExpressionView {
    IntegerLiteral(i64),
    BinaryOp { op: Operator, left: Box<ExpressionView>, right: Box<ExpressionView> },
    Call { callee: Seq<char>, arguments: Seq<char> },
    Identifier(Seq<char>),
    Opaque(Seq<char>),
}

/// Mathematical view of a [`Statement`].
pub enum StatementView {
    ExpressionStatement(ExpressionView),
    Opaque(Seq<char>),
}

/// Mathematical view of a [`Function`].
pub struct FunctionView {
    pub attributes: Seq<char>,
    pub visibility: Seq<char>,
    pub name: Seq<char>,
    pub generics: Seq<char>,
    pub parameters: Seq<char>,
    pub return_marker: Seq<char>,
    pub body: Seq<StatementView>,
}

/// Mathematical view of an [`Item`].
pub enum ItemView {
    Function(FunctionView),
    Opaque(Seq<char>),
}

impl Expression {
    /// The view of an expression, by recursion on the tree.
    pub open spec fn model(self) -> ExpressionView
        decreases self,
    {
        match self {
            Expression::IntegerLiteral(value) => ExpressionView::IntegerLiteral(value),
            Expression::BinaryOp { op, left, right } => ExpressionView::BinaryOp {
                op,
                left: Box::new(left.model()),
                right: Box::new(right.model()),
            },
            Expression::Call { callee, arguments } => ExpressionView::Call {
                callee: callee@,
                arguments: arguments@,
            },
            Expression::Identifier(name) => ExpressionView::Identifier(name@),
            Expression::Opaque(text) => ExpressionView::Opaque(text@),
        }
    }
}

impl Expression {
    /// A deep copy of the expression.
    pub fn duplicate(&self) -> (result: Expression)
        ensures
            result@ == self@,
        decreases self,
    {
        match self {
            Expression::IntegerLiteral(value) => Expression::IntegerLiteral(*value),
            Expression::BinaryOp { op, left, right } => Expression::BinaryOp {
                op: *op,
                left: Box::new(left.duplicate()),
                right: Box::new(right.duplicate()),
            },
            Expression::Call { callee, arguments } => Expression::Call {
                callee: callee.clone(),
                arguments: arguments.clone(),
            },
            Expression::Identifier(name) => Expression::Identifier(name.clone()),
            Expression::Opaque(text) => Expression::Opaque(text.clone()),
        }
    }
}

impl Clone for Expression {
    fn clone(&self) -> (result: Expression)
        ensures
            result@ == self@,
    {
        self.duplicate()
    }
}

impl View for Expression {
    type V = ExpressionView;

    open spec fn view(&self) -> ExpressionView {
        self.model()
    }
}

impl View for Statement {
    type V = StatementView;

    open spec fn view(&self) -> StatementView {
        match self {
            Statement::ExpressionStatement(expression) => StatementView::ExpressionStatement(
                expression@,
            ),
            Statement::Opaque(text) => StatementView::Opaque(text@),
        }
    }
}

impl View for Block {
    type V = Seq<StatementView>;

    open spec fn view(&self) -> Seq<StatementView> {
        self.statements@.map_values(|statement: Statement| statement@)
    }
}

impl View for Function {
    type V = FunctionView;

    open spec fn view(&self) -> FunctionView {
        FunctionView {
            attributes: self.attributes@,
            visibility: self.visibility@,
            name: self.name@,
            generics: self.generics@,
            parameters: self.parameters@,
            return_marker: self.return_marker@,
            body: self.body@,
        }
    }
}

impl View for Item {
    type V = ItemView;

    open spec fn view(&self) -> ItemView {
        match self {
            Item::Function(function) => ItemView::Function(function@),
            Item::Opaque(text) => ItemView::Opaque(text@),
        }
    }
}

impl View for Program {
    type V = Seq<ItemView>;

    open spec fn view(&self) -> Seq<ItemView> {
        self.items@.map_values(|item: Item| item@)
    }
}

} // verus!
