//! What lowering a program into the intermediate representation produces, stated over
//! mathematical values: the state of the lowering of a function body, and how each
//! expression and statement changes it.
use vstd::prelude::*;

use crate::analyze::ast::{ArithmeticOp, ExprInner, Expression, Item as AstItem, Statement};
use crate::analyze::semantics::{
    expr_strs, exprs_strs, stmt_strs, stmts_strs, Sign,
};
use crate::ir::{
    condition_of, interned, lemma_interned, terminator_targets, BasicBlock, Condition, Item, Label, Operation, SourceVal,
    Terminator, VarSize, VirtualReg,
};

verus! {

/// An operation, with the name of a called function and its argument registers as sequences.
pub enum OpView {
    Assign { src: SourceVal, dest: VirtualReg },
    AddressOf { val: VirtualReg, dest: VirtualReg },
    LoadPointer { ptr: VirtualReg, size: VarSize, dest: VirtualReg },
    StorePointer { src: VirtualReg, ptr: VirtualReg },
    Add { a: VirtualReg, b: VirtualReg, dest: VirtualReg },
    Subtract { a: VirtualReg, b: VirtualReg, dest: VirtualReg },
    Multiply { a: VirtualReg, b: VirtualReg, dest: VirtualReg },
    Divide { a: VirtualReg, b: VirtualReg, dest: VirtualReg },
    Compare { a: VirtualReg, b: VirtualReg, cond: Condition, dest: VirtualReg },
    Call { function: Seq<char>, args: Seq<VirtualReg>, dest: Option<VirtualReg> },
}

pub open spec fn op_view(op: Operation) -> OpView {
    match op {
        Operation::Assign { src, dest } => OpView::Assign { src, dest },
        Operation::AddressOf { val, dest } => OpView::AddressOf { val, dest },
        Operation::LoadPointer { ptr, size, dest } => OpView::LoadPointer { ptr, size, dest },
        Operation::StorePointer { src, ptr } => OpView::StorePointer { src, ptr },
        Operation::Add { a, b, dest } => OpView::Add { a, b, dest },
        Operation::Subtract { a, b, dest } => OpView::Subtract { a, b, dest },
        Operation::Multiply { a, b, dest } => OpView::Multiply { a, b, dest },
        Operation::Divide { a, b, dest } => OpView::Divide { a, b, dest },
        Operation::Compare { a, b, cond, dest } => OpView::Compare { a, b, cond, dest },
        Operation::Call { function, args, dest } => OpView::Call {
            function: function@,
            args: args@,
            dest,
        },
    }
}

/// A basic block, with its arguments and operations as sequences.
pub struct BlockView {
    pub label: Label,
    pub args: Seq<VirtualReg>,
    pub ops: Seq<OpView>,
    pub terminator: Terminator,
}

pub open spec fn block_view(b: BasicBlock) -> BlockView {
    BlockView {
        label: b.label,
        args: b.args@,
        ops: b.ops@.map_values(|op: Operation| op_view(op)),
        terminator: b.terminator,
    }
}

/// Where the lowering of a function body stands: the interned strings, the register of each
/// variable, the next fresh register and label, the open block (its label, arguments,
/// operations, and the registers declared in it), and the finished blocks.
pub struct LowerState {
    pub table: Seq<Seq<char>>,
    pub vars: Map<Seq<char>, VirtualReg>,
    pub vregs: nat,
    pub labels: nat,
    pub label: Label,
    pub args: Seq<VirtualReg>,
    pub ops: Seq<OpView>,
    pub decls: Seq<VirtualReg>,
    pub blocks: Seq<BlockView>,
}

/// Draws a fresh register.
pub open spec fn fresh(st: LowerState) -> (LowerState, VirtualReg) {
    (LowerState { vregs: st.vregs + 1, ..st }, VirtualReg(st.vregs as u32))
}

/// The given destination, or a fresh register.
pub open spec fn dest_or_fresh(st: LowerState, dest: Option<VirtualReg>) -> (LowerState, VirtualReg) {
    match dest {
        Some(d) => (st, d),
        None => fresh(st),
    }
}

/// Appends an operation to the open block.
pub open spec fn emit(st: LowerState, op: OpView) -> LowerState {
    LowerState { ops: st.ops.push(op), ..st }
}

/// A register that holds `src`: the register itself, or a fresh one that `src` is assigned to.
pub open spec fn to_reg(st: LowerState, src: SourceVal) -> (LowerState, VirtualReg) {
    match src {
        SourceVal::VReg(v) => (st, v),
        _ => (emit(fresh(st).0, OpView::Assign { src, dest: fresh(st).1 }), fresh(st).1),
    }
}

/// The operation of an arithmetic expression.
pub open spec fn arith_op(op: ArithmeticOp, a: VirtualReg, b: VirtualReg, dest: VirtualReg) -> OpView {
    match op {
        ArithmeticOp::Add => OpView::Add { a, b, dest },
        ArithmeticOp::Sub => OpView::Subtract { a, b, dest },
        ArithmeticOp::Mult => OpView::Multiply { a, b, dest },
        ArithmeticOp::Div => OpView::Divide { a, b, dest },
    }
}

/// Lowers an expression: the state after it, and the value it gives. An expression that
/// needs an operation writes its result to `dest` if given, else to a fresh register.
pub open spec fn lower_expr(st: LowerState, e: Expression, dest: Option<VirtualReg>) -> (LowerState, SourceVal)
    decreases e,
{
    match e.inner {
        ExprInner::Const(n) => (st, SourceVal::Immediate(n)),
        ExprInner::Character(c) => (st, SourceVal::Immediate(c as u32 as i64)),
        ExprInner::String(s) => (
            LowerState { table: interned(st.table, s@).0, ..st },
            SourceVal::String(interned(st.table, s@).1 as usize),
        ),
        ExprInner::Bool(b) => (st, SourceVal::Immediate(if b { 1 } else { 0 })),
        ExprInner::Variable(v) => (st, SourceVal::VReg(st.vars[v@])),
        ExprInner::Pointer(v) => {
            let d = dest_or_fresh(st, dest);
            (emit(d.0, OpView::AddressOf { val: st.vars[v@], dest: d.1 }), SourceVal::VReg(d.1))
        },
        ExprInner::Deref(v, t) => {
            let d = dest_or_fresh(st, dest);
            (
                emit(d.0, OpView::LoadPointer { ptr: st.vars[v@], size: t.unwrap().size, dest: d.1 }),
                SourceVal::VReg(d.1),
            )
        },
        ExprInner::Arithmetic(a, b, op, _) => {
            let s1 = lower_expr(st, *a, None);
            let s2 = lower_expr(s1.0, *b, None);
            let s3 = to_reg(s2.0, s1.1);
            let s4 = to_reg(s3.0, s2.1);
            let d = dest_or_fresh(s4.0, dest);
            (emit(d.0, arith_op(op, s3.1, s4.1, d.1)), SourceVal::VReg(d.1))
        },
        ExprInner::Comparison(a, b, op, sign) => {
            let s1 = lower_expr(st, *a, None);
            let s2 = lower_expr(s1.0, *b, None);
            let s3 = to_reg(s2.0, s1.1);
            let s4 = to_reg(s3.0, s2.1);
            let d = dest_or_fresh(s4.0, dest);
            (
                emit(
                    d.0,
                    OpView::Compare {
                        a: s3.1,
                        b: s4.1,
                        cond: condition_of(op, sign == Some(Sign::Signed)),
                        dest: d.1,
                    },
                ),
                SourceVal::VReg(d.1),
            )
        },
        ExprInner::FnCall(f, args) => {
            let l = lower_args(st, args@);
            let d = dest_or_fresh(l.0, dest);
            (
                emit(d.0, OpView::Call { function: f@, args: l.1, dest: Some(d.1) }),
                SourceVal::VReg(d.1),
            )
        },
        ExprInner::Cast(x, _) => lower_expr(st, *x, dest),
    }
}

/// Lowers the arguments of a call in order, each moved into a register: the state after them,
/// and their registers.
pub open spec fn lower_args(st: LowerState, es: Seq<Expression>) -> (LowerState, Seq<VirtualReg>)
    decreases es,
{
    if es.len() == 0 {
        (st, Seq::empty())
    } else {
        let s1 = lower_expr(st, es[0], None);
        let s2 = to_reg(s1.0, s1.1);
        let rest = lower_args(s2.0, es.drop_first());
        (rest.0, seq![s2.1] + rest.1)
    }
}

/// The register of a variable: the one it has, or a fresh one that it gets.
pub open spec fn bind_var(st: LowerState, name: Seq<char>) -> (LowerState, VirtualReg) {
    if st.vars.contains_key(name) {
        (st, st.vars[name])
    } else {
        (
            LowerState {
                vars: st.vars.insert(name, VirtualReg(st.vregs as u32)),
                vregs: st.vregs + 1,
                ..st
            },
            VirtualReg(st.vregs as u32),
        )
    }
}

/// Draws a fresh label.
pub open spec fn draw_label(st: LowerState) -> (LowerState, Label) {
    (LowerState { labels: st.labels + 1, ..st }, Label::Anon(st.labels as u32))
}

/// Finishes the open block with terminator `t` and opens an empty one labelled `l`.
pub open spec fn commit(st: LowerState, t: Terminator, l: Label) -> LowerState {
    LowerState {
        blocks: st.blocks.push(
            BlockView { label: st.label, args: st.args, ops: st.ops, terminator: t },
        ),
        label: l,
        args: Seq::empty(),
        ops: Seq::empty(),
        decls: Seq::empty(),
        ..st
    }
}

/// Lowers a statement.
///
/// A declaration gives the variable a fresh register and computes the value into it, or
/// assigns the value to it when the value is not already there (and records the register as
/// declared in the open block). An assignment does the same with the variable's register, and
/// makes that register an argument of the open block unless it was declared there. An `if`
/// computes its guard into a register, ends the open block with a conditional branch to two
/// fresh labels, lowers its body into the block of the first, and ends that with a branch to
/// the second. A `return` ends the open block, and opens a new one with a fresh label.
pub open spec fn lower_stmt(st: LowerState, s: Statement) -> LowerState
    decreases s,
{
    match s {
        Statement::Declare { var, expr } => {
            let b = bind_var(st, var@);
            let e = lower_expr(b.0, expr, Some(b.1));
            if e.1 != SourceVal::VReg(b.1) {
                LowerState {
                    ops: e.0.ops.push(OpView::Assign { src: e.1, dest: b.1 }),
                    decls: e.0.decls.push(b.1),
                    ..e.0
                }
            } else {
                e.0
            }
        },
        Statement::Assign { var, expr } => {
            let b = bind_var(st, var.spec_symbol());
            let e = lower_expr(b.0, expr, Some(b.1));
            let s3 = if e.0.decls.contains(b.1) {
                e.0
            } else {
                LowerState { args: e.0.args.push(b.1), ..e.0 }
            };
            if e.1 == SourceVal::VReg(b.1) {
                s3
            } else {
                emit(s3, OpView::Assign { src: e.1, dest: b.1 })
            }
        },
        Statement::Expr(e) => lower_expr(st, e, None).0,
        Statement::If { guard, body } => {
            let g = lower_expr(st, guard, None);
            let c = to_reg(g.0, g.1);
            let t = draw_label(c.0);
            let f = draw_label(t.0);
            let s4 = commit(
                f.0,
                Terminator::BranchCond { cond: c.1, if_true: t.1, if_false: f.1 },
                t.1,
            );
            let s5 = lower_stmts(s4, body@);
            commit(s5, Terminator::Branch { label: f.1 }, f.1)
        },
        Statement::Return(e) => {
            let v = lower_expr(st, e, None);
            let l = draw_label(v.0);
            commit(l.0, Terminator::Return { value: v.1 }, l.1)
        },
        Statement::WhileLoop { .. } => st,
    }
}

/// Lowers statements in order.
pub open spec fn lower_stmts(st: LowerState, ss: Seq<Statement>) -> LowerState
    decreases ss,
{
    if ss.len() == 0 {
        st
    } else {
        lower_stmts(lower_stmt(st, ss[0]), ss.drop_first())
    }
}

/// Some block of `bs` may branch to `l`.
pub open spec fn targets_label(bs: Seq<BlockView>, l: Label) -> bool {
    exists|i: int, j: int|
        0 <= i < bs.len() && 0 <= j < terminator_targets(bs[i].terminator).len()
            && #[trigger] terminator_targets(bs[i].terminator)[j] == l
}

/// Ends a function body: an open block that holds operations, or that a finished block
/// branches to, is finished with a branch to the return label; an empty one that nothing
/// branches to is dropped.
pub open spec fn finish_body(st: LowerState) -> LowerState {
    if st.ops.len() > 0 || targets_label(st.blocks, st.label) {
        commit(st, Terminator::Branch { label: Label::Ret }, Label::Ret)
    } else {
        st
    }
}

/// The variables bound by the pairs, a later pair for a name overriding an earlier one.
pub open spec fn pairs_map(params: Seq<(Seq<char>, VirtualReg)>) -> Map<Seq<char>, VirtualReg>
    decreases params.len(),
{
    if params.len() == 0 {
        Map::empty()
    } else {
        pairs_map(params.drop_last()).insert(params.last().0, params.last().1)
    }
}

/// The state at the start of a function body whose parameters have the given registers: the
/// entry block is open and takes them as arguments. Fresh registers are drawn from 0 on, so
/// they are numbered as the parameters are.
pub open spec fn start_state(table: Seq<Seq<char>>, params: Seq<(Seq<char>, VirtualReg)>) -> LowerState {
    LowerState {
        table,
        vars: pairs_map(params),
        vregs: 0,
        labels: 0,
        label: Label::Entry,
        args: params.map_values(|p: (Seq<char>, VirtualReg)| p.1),
        ops: Seq::empty(),
        decls: Seq::empty(),
        blocks: Seq::empty(),
    }
}

/// The parameters of a source function, parameter `j` in register `j`.
pub open spec fn item_params(item: AstItem) -> Seq<(Seq<char>, VirtualReg)> {
    match item {
        AstItem::Function { args, .. } => Seq::new(
            args@.len(),
            |j: int| (args@[j]@, VirtualReg(j as u32)),
        ),
    }
}

pub open spec fn item_body(item: AstItem) -> Seq<Statement> {
    match item {
        AstItem::Function { body, .. } => body@,
    }
}

/// Lowers a source function, interning its strings into `table`: the blocks of the result
/// are those of the state, and so is the table.
pub open spec fn lower_item(table: Seq<Seq<char>>, item: AstItem) -> LowerState {
    finish_body(lower_stmts(start_state(table, item_params(item)), item_body(item)))
}

/// The interned strings after lowering the first `k` functions of a program.
pub open spec fn table_after(items: Seq<AstItem>, k: nat) -> Seq<Seq<char>>
    decreases k,
{
    if k == 0 {
        Seq::empty()
    } else {
        lower_item(table_after(items, (k - 1) as nat), items[k - 1]).table
    }
}

/// The blocks of a function of the IR.
pub open spec fn item_blocks(item: Item) -> Seq<BlockView> {
    match item {
        Item::Function { body, .. } => body@.map_values(|b: BasicBlock| block_view(b)),
    }
}

/// The string literals of a source function.
pub open spec fn item_strs(item: AstItem) -> Set<Seq<char>> {
    match item {
        AstItem::Function { body, .. } => stmts_strs(body@),
    }
}

proof fn lemma_interned_table(t: Seq<Seq<char>>, s: Seq<char>)
    ensures
        forall|x: Seq<char>| #[trigger] interned(t, s).0.contains(x) ==> t.contains(x) || x == s,
{
    lemma_interned(t, s);
}

/// Lowering an expression interns no string but its literals.
proof fn lemma_expr_table(st: LowerState, e: Expression, dest: Option<VirtualReg>)
    ensures
        forall|x: Seq<char>| #[trigger] lower_expr(st, e, dest).0.table.contains(x) ==> st.table.contains(x)
            || expr_strs(e).contains(x),
    decreases e,
{
    match e.inner {
        ExprInner::String(s) => {
            lemma_interned_table(st.table, s@);
        },
        ExprInner::Arithmetic(a, b, _, _) => {
            lemma_expr_table(st, *a, None);
            lemma_expr_table(lower_expr(st, *a, None).0, *b, None);
        },
        ExprInner::Comparison(a, b, _, _) => {
            lemma_expr_table(st, *a, None);
            lemma_expr_table(lower_expr(st, *a, None).0, *b, None);
        },
        ExprInner::FnCall(_, args) => {
            lemma_args_table(st, args@);
        },
        ExprInner::Cast(x, _) => {
            lemma_expr_table(st, *x, dest);
        },
        _ => {},
    }
}

proof fn lemma_args_table(st: LowerState, es: Seq<Expression>)
    ensures
        forall|x: Seq<char>| #[trigger] lower_args(st, es).0.table.contains(x) ==> st.table.contains(x)
            || exprs_strs(es).contains(x),
    decreases es,
{
    if es.len() > 0 {
        lemma_expr_table(st, es[0], None);
        let s1 = lower_expr(st, es[0], None);
        let s2 = to_reg(s1.0, s1.1);
        lemma_args_table(s2.0, es.drop_first());
    }
}

/// Lowering a statement interns no string but its literals.
proof fn lemma_stmt_table(st: LowerState, s: Statement)
    ensures
        forall|x: Seq<char>| #[trigger] lower_stmt(st, s).table.contains(x) ==> st.table.contains(x)
            || stmt_strs(s).contains(x),
    decreases s,
{
    match s {
        Statement::Declare { var, expr } => {
            lemma_expr_table(bind_var(st, var@).0, expr, Some(bind_var(st, var@).1));
        },
        Statement::Assign { var, expr } => {
            let b = bind_var(st, var.spec_symbol());
            lemma_expr_table(b.0, expr, Some(b.1));
        },
        Statement::Expr(e) => {
            lemma_expr_table(st, e, None);
        },
        Statement::If { guard, body } => {
            lemma_expr_table(st, guard, None);
            let g = lower_expr(st, guard, None);
            let c = to_reg(g.0, g.1);
            let t = draw_label(c.0);
            let f = draw_label(t.0);
            let s4 = commit(
                f.0,
                Terminator::BranchCond { cond: c.1, if_true: t.1, if_false: f.1 },
                t.1,
            );
            lemma_stmts_table(s4, body@);
        },
        Statement::Return(e) => {
            lemma_expr_table(st, e, None);
        },
        Statement::WhileLoop { .. } => {},
    }
}

proof fn lemma_stmts_table(st: LowerState, ss: Seq<Statement>)
    ensures
        forall|x: Seq<char>| #[trigger] lower_stmts(st, ss).table.contains(x) ==> st.table.contains(x)
            || stmts_strs(ss).contains(x),
    decreases ss,
{
    if ss.len() > 0 {
        lemma_stmt_table(st, ss[0]);
        lemma_stmts_table(lower_stmt(st, ss[0]), ss.drop_first());
    }
}

/// Every string that lowering the first `k` functions of a program interns is a literal of one
/// of them.
pub proof fn law_interned_strings_are_literals(items: Seq<AstItem>, k: nat)
    requires
        k <= items.len(),
    ensures
        forall|x: Seq<char>| #[trigger] table_after(items, k).contains(x) ==> exists|i: int|
            0 <= i < k && #[trigger] item_strs(items[i]).contains(x),
    decreases k,
{
    if k > 0 {
        law_interned_strings_are_literals(items, (k - 1) as nat);
        let t = table_after(items, (k - 1) as nat);
        let item = items[k - 1];
        lemma_stmts_table(start_state(t, item_params(item)), item_body(item));
        assert forall|x: Seq<char>| #[trigger] table_after(items, k).contains(x) implies exists|i: int|
            0 <= i < k && #[trigger] item_strs(items[i]).contains(x) by {
            if !t.contains(x) {
                assert(item_strs(items[k - 1]).contains(x));
            }
        }
    }
}

} // verus!
