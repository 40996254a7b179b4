use vstd::prelude::*;

use crate::analyze::ast::{ExprInner, Expression, Item, Statement, AST};

verus! {

/// The signedness that semantic analysis found for an arithmetic or comparison expression.
#[derive(Debug, Clone, Copy, PartialEq, Eq)]
pub enum Sign {
    Signed,
    Unsigned,
}

/// A syntax tree that semantic analysis has accepted.
pub struct ValidAST(pub AST);

/// Every variable that `e` reads, or takes the address of, is in `defined`, and every
/// dereference knows the type it reads.
pub open spec fn expr_ok(defined: Set<Seq<char>>, e: Expression) -> bool
    decreases e,
{
    match e.inner {
        ExprInner::Const(_) => true,
        ExprInner::Character(_) => true,
        ExprInner::String(_) => true,
        ExprInner::Bool(_) => true,
        ExprInner::Variable(v) => defined.contains(v@),
        ExprInner::Pointer(v) => defined.contains(v@),
        ExprInner::Deref(v, t) => defined.contains(v@) && t is Some,
        ExprInner::Arithmetic(a, b, _, _) => expr_ok(defined, *a) && expr_ok(defined, *b),
        ExprInner::Comparison(a, b, _, _) => expr_ok(defined, *a) && expr_ok(defined, *b),
        ExprInner::FnCall(_, args) => exprs_ok(defined, args@),
        ExprInner::Cast(x, _) => expr_ok(defined, *x),
    }
}

/// `expr_ok` of each expression of `es`.
pub open spec fn exprs_ok(defined: Set<Seq<char>>, es: Seq<Expression>) -> bool
    decreases es,
{
    if es.len() == 0 {
        true
    } else {
        expr_ok(defined, es[0]) && exprs_ok(defined, es.drop_first())
    }
}


/// The variables that are defined after `s` runs, where `defined` were defined before it.
/// Variables are not scoped: one defined in the body of an `if` stays defined after it.
pub open spec fn stmt_defs(defined: Set<Seq<char>>, s: Statement) -> Set<Seq<char>>
    decreases s,
{
    match s {
        Statement::Declare { var, .. } => defined.insert(var@),
        Statement::Assign { var, .. } => defined.insert(var.spec_symbol()),
        Statement::If { body, .. } => stmts_defs(defined, body@),
        _ => defined,
    }
}

/// The variables that are defined after the statements `ss` run in order.
pub open spec fn stmts_defs(defined: Set<Seq<char>>, ss: Seq<Statement>) -> Set<Seq<char>>
    decreases ss,
{
    if ss.len() == 0 {
        defined
    } else {
        stmts_defs(stmt_defs(defined, ss[0]), ss.drop_first())
    }
}

/// `s` can be lowered where `defined` are the variables defined before it: it declares no
/// variable twice, reads no undefined one, assigns only to variables (not through pointers),
/// and holds no loop.
pub open spec fn stmt_ok(defined: Set<Seq<char>>, s: Statement) -> bool
    decreases s,
{
    match s {
        Statement::Declare { var, expr } => !defined.contains(var@) && expr_ok(
            defined.insert(var@),
            expr,
        ),
        Statement::Assign { var, expr } => var is Var && expr_ok(
            defined.insert(var.spec_symbol()),
            expr,
        ),
        Statement::Expr(e) => expr_ok(defined, e),
        Statement::If { guard, body } => expr_ok(defined, guard) && stmts_ok(defined, body@),
        Statement::Return(e) => expr_ok(defined, e),
        Statement::WhileLoop { .. } => false,
    }
}

/// The statements `ss` can be lowered in order, each after the ones before it.
pub open spec fn stmts_ok(defined: Set<Seq<char>>, ss: Seq<Statement>) -> bool
    decreases ss,
{
    if ss.len() == 0 {
        true
    } else {
        stmt_ok(defined, ss[0]) && stmts_ok(stmt_defs(defined, ss[0]), ss.drop_first())
    }
}

/// Whether `e` lowers to a constant or a string rather than to a register (1) or not (0):
/// moving its value into a register takes a fresh one.
pub open spec fn needs_reg(e: Expression) -> nat
    decreases e,
{
    match e.inner {
        ExprInner::Const(_) => 1,
        ExprInner::Character(_) => 1,
        ExprInner::String(_) => 1,
        ExprInner::Bool(_) => 1,
        ExprInner::Cast(x, _) => needs_reg(*x),
        _ => 0,
    }
}

/// The number of fresh registers that lowering `e` takes, where `has_dest` says whether its
/// result goes to a given register: one for the result of an operation when none is given,
/// one for each operand or argument that is a constant or a string, and those of the
/// subexpressions.
pub open spec fn expr_regs(e: Expression, has_dest: bool) -> nat
    decreases e,
{
    let own: nat = if has_dest { 0 } else { 1 };
    match e.inner {
        ExprInner::Pointer(_) => own,
        ExprInner::Deref(_, _) => own,
        ExprInner::Arithmetic(a, b, _, _) => expr_regs(*a, false) + needs_reg(*a) + expr_regs(*b, false)
            + needs_reg(*b) + own,
        ExprInner::Comparison(a, b, _, _) => expr_regs(*a, false) + needs_reg(*a) + expr_regs(*b, false)
            + needs_reg(*b) + own,
        ExprInner::FnCall(_, args) => exprs_regs(args@) + own,
        ExprInner::Cast(x, _) => expr_regs(*x, has_dest),
        _ => 0,
    }
}

/// The number of fresh registers that lowering the arguments `es` of a call takes, each moved
/// into a register.
pub open spec fn exprs_regs(es: Seq<Expression>) -> nat
    decreases es,
{
    if es.len() == 0 {
        0
    } else {
        expr_regs(es[0], false) + needs_reg(es[0]) + exprs_regs(es.drop_first())
    }
}

/// The number of fresh registers that lowering `s` takes, where `defined` are the variables
/// defined before it: one for a variable that it defines, and those of its expressions.
pub open spec fn stmt_regs(defined: Set<Seq<char>>, s: Statement) -> nat
    decreases s,
{
    match s {
        Statement::Declare { var, expr } => (if defined.contains(var@) { 0nat } else { 1nat })
            + expr_regs(expr, true),
        Statement::Assign { var, expr } => (if defined.contains(var.spec_symbol()) { 0nat } else { 1nat })
            + expr_regs(expr, true),
        Statement::Expr(e) => expr_regs(e, false),
        Statement::If { guard, body } => expr_regs(guard, false) + needs_reg(guard) + stmts_regs(
            defined,
            body@,
        ),
        Statement::Return(e) => expr_regs(e, false),
        Statement::WhileLoop { .. } => 0,
    }
}

/// The number of fresh registers that lowering `ss` in order takes, where `defined` are the
/// variables defined before them.
pub open spec fn stmts_regs(defined: Set<Seq<char>>, ss: Seq<Statement>) -> nat
    decreases ss,
{
    if ss.len() == 0 {
        0
    } else {
        stmt_regs(defined, ss[0]) + stmts_regs(stmt_defs(defined, ss[0]), ss.drop_first())
    }
}

/// The number of fresh labels that lowering `s` takes.
pub open spec fn stmt_labels(s: Statement) -> nat
    decreases s,
{
    match s {
        Statement::If { body, .. } => 2 + stmts_labels(body@),
        Statement::Return(_) => 1,
        _ => 0,
    }
}

/// The number of fresh labels that lowering `ss` takes.
pub open spec fn stmts_labels(ss: Seq<Statement>) -> nat
    decreases ss,
{
    if ss.len() == 0 {
        0
    } else {
        stmt_labels(ss[0]) + stmts_labels(ss.drop_first())
    }
}

/// The string literals that occur in `e`.
pub open spec fn expr_strs(e: Expression) -> Set<Seq<char>>
    decreases e,
{
    match e.inner {
        ExprInner::String(s) => set![s@],
        ExprInner::Arithmetic(a, b, _, _) => expr_strs(*a) + expr_strs(*b),
        ExprInner::Comparison(a, b, _, _) => expr_strs(*a) + expr_strs(*b),
        ExprInner::FnCall(_, args) => exprs_strs(args@),
        ExprInner::Cast(x, _) => expr_strs(*x),
        _ => Set::empty(),
    }
}

/// The string literals that occur in the expressions `es`.
pub open spec fn exprs_strs(es: Seq<Expression>) -> Set<Seq<char>>
    decreases es,
{
    if es.len() == 0 {
        Set::empty()
    } else {
        expr_strs(es[0]) + exprs_strs(es.drop_first())
    }
}

/// The string literals that occur in `s`.
pub open spec fn stmt_strs(s: Statement) -> Set<Seq<char>>
    decreases s,
{
    match s {
        Statement::Declare { expr, .. } => expr_strs(expr),
        Statement::Assign { expr, .. } => expr_strs(expr),
        Statement::Expr(e) => expr_strs(e),
        Statement::If { guard, body } => expr_strs(guard) + stmts_strs(body@),
        Statement::Return(e) => expr_strs(e),
        Statement::WhileLoop { guard, body } => expr_strs(guard) + stmts_strs(body@),
    }
}

/// The string literals that occur in the statements `ss`.
pub open spec fn stmts_strs(ss: Seq<Statement>) -> Set<Seq<char>>
    decreases ss,
{
    if ss.len() == 0 {
        Set::empty()
    } else {
        stmt_strs(ss[0]) + stmts_strs(ss.drop_first())
    }
}

/// The names of a function's parameters.
pub open spec fn arg_names(args: Seq<String>) -> Set<Seq<char>> {
    args.map_values(|a: String| a@).to_set()
}

/// A function that code generation accepts: its body can be lowered with the parameters
/// defined, and the registers and labels that its lowering draws fit their counters.
pub open spec fn item_ok(item: Item) -> bool {
    match item {
        Item::Function { args, body, .. } => {
            &&& stmts_ok(arg_names(args@), body@)
            &&& stmts_regs(arg_names(args@), body@) <= u32::MAX
            &&& stmts_labels(body@) <= u32::MAX
        },
    }
}

impl ValidAST {
    /// Every function of the program can be lowered.
    pub open spec fn well_formed(&self) -> bool {
        forall|i: int| 0 <= i < self.0.items.len() ==> #[trigger] item_ok(self.0.items@[i])
    }
}

} // verus!
