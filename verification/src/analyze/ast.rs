use vstd::prelude::*;

use crate::analyze::semantics::Sign;
use crate::ir::VarSize;

verus! {

/// A type, as far as code generation needs it: the size of a value of that type.
#[derive(Debug, Clone, Copy)]
pub struct Type {
    pub size: VarSize,
}

impl Type {
    /// The size of a value of this type.
    pub fn size(&self) -> (s: VarSize)
        ensures
            s == self.size,
    {
        self.size
    }
}

#[derive(Debug, Clone, Copy)]
pub enum ArithmeticOp {
    Add,
    Sub,
    Mult,
    Div,
}

#[derive(Debug, Clone, Copy)]
pub enum CompareOp {
    Equal,
    NotEqual,
    Less,
    LessOrEqual,
    Greater,
    GreaterOrEqual,
}

/// An expression of the source language.
pub struct Expression {
    pub inner: ExprInner,
}

pub enum ExprInner {
    Const(i64),
    Character(char),
    String(String),
    Bool(bool),
    Variable(String),
    /// The address of a variable.
    Pointer(String),
    /// The value behind a pointer held in a variable, with the pointee's type.
    Deref(String, Option<Type>),
    Arithmetic(Box<Expression>, Box<Expression>, ArithmeticOp, Option<Sign>),
    Comparison(Box<Expression>, Box<Expression>, CompareOp, Option<Sign>),
    FnCall(String, Vec<Expression>),
    Cast(Box<Expression>, Type),
}

/// What an assignment writes to: a variable, or the place a pointer variable points at.
pub enum Assignable {
    Var(String),
    Ptr(String),
}

impl Assignable {
    pub open spec fn spec_symbol(&self) -> Seq<char> {
        match self {
            Assignable::Var(s) => s@,
            Assignable::Ptr(s) => s@,
        }
    }

    /// The name of the variable that is written to.
    pub fn symbol(&self) -> (s: String)
        ensures
            s@ == self.spec_symbol(),
    {
        match self {
            Assignable::Var(s) => s.clone(),
            Assignable::Ptr(s) => s.clone(),
        }
    }
}

#[allow(inconsistent_fields)]
pub enum Statement {
    Declare { var: String, expr: Expression },
    Assign { var: Assignable, expr: Expression },
    Expr(Expression),
    If { guard: Expression, body: Vec<Statement> },
    Return(Expression),
    WhileLoop { guard: Expression, body: Vec<Statement> },
}

pub enum Item {
    Function { name: String, args: Vec<String>, body: Vec<Statement> },
}

/// A whole program: its items in source order.
pub struct AST {
    pub items: Vec<Item>,
}

} // verus!
