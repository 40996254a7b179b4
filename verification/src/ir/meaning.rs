//! What lowered code computes. Registers hold integers; an assignment copies a value into its
//! destination, and an arithmetic operation writes to its destination the sum, difference,
//! product or quotient of its first and second operand, in that order. Over this reading of the
//! IR, lowering an expression made of constants, variables, arithmetic and casts leaves its
//! value in the register (or constant) that lowering returns, and a call receives the values of
//! its arguments in order.
use vstd::prelude::*;

use crate::analyze::ast::{ArithmeticOp, ExprInner, Expression};
use crate::analyze::semantics::{expr_ok, expr_regs, exprs_ok, exprs_regs};
use crate::ir::invariants::{lemma_args_frame, lemma_expr_frame};
use crate::ir::lowering::{lower_args, lower_expr, to_reg, LowerState, OpView};
use crate::ir::{SourceVal, VirtualReg};

verus! {

/// The contents of the registers.
pub type Regs = spec_fn(VirtualReg) -> int;

/// The value of a variable.
pub type Env = spec_fn(Seq<char>) -> int;

/// An expression whose value needs neither memory nor calls nor strings: constants, variables,
/// arithmetic and casts of these.
pub open spec fn pure_expr(e: Expression) -> bool
    decreases e,
{
    match e.inner {
        ExprInner::Const(_) => true,
        ExprInner::Character(_) => true,
        ExprInner::Bool(_) => true,
        ExprInner::Variable(_) => true,
        ExprInner::Arithmetic(a, b, _, _) => pure_expr(*a) && pure_expr(*b),
        ExprInner::Cast(x, _) => pure_expr(*x),
        _ => false,
    }
}

/// The value of a pure expression where each variable `v` has the value `env(v)`: a character
/// is its code point, `true` is 1 and `false` 0, and `a - b` subtracts the value of `b` from
/// that of `a`.
pub open spec fn eval_expr(env: Env, e: Expression) -> int
    decreases e,
{
    match e.inner {
        ExprInner::Const(n) => n as int,
        ExprInner::Character(c) => c as u32 as int,
        ExprInner::Bool(b) => if b { 1 } else { 0 },
        ExprInner::Variable(v) => env(v@),
        ExprInner::Arithmetic(a, b, op, _) => {
            let x = eval_expr(env, *a);
            let y = eval_expr(env, *b);
            match op {
                ArithmeticOp::Add => x + y,
                ArithmeticOp::Sub => x - y,
                ArithmeticOp::Mult => x * y,
                ArithmeticOp::Div => x / y,
            }
        },
        ExprInner::Cast(x, _) => eval_expr(env, *x),
        _ => 0,
    }
}

/// The value of an operand: the contents of a register, or a constant.
pub open spec fn source_value(regs: Regs, s: SourceVal) -> int {
    match s {
        SourceVal::VReg(r) => regs(r),
        SourceVal::Immediate(n) => n as int,
        SourceVal::String(_) => 0,
    }
}

/// `regs` with `r` holding `v`.
pub open spec fn write(regs: Regs, r: VirtualReg, v: int) -> Regs {
    |x: VirtualReg| if x == r { v } else { regs(x) }
}

/// The register that `step` writes, if any.
pub open spec fn written(op: OpView) -> Option<VirtualReg> {
    match op {
        OpView::Assign { dest, .. } => Some(dest),
        OpView::Add { dest, .. } => Some(dest),
        OpView::Subtract { dest, .. } => Some(dest),
        OpView::Multiply { dest, .. } => Some(dest),
        OpView::Divide { dest, .. } => Some(dest),
        _ => None,
    }
}

/// Runs one operation. An assignment copies its source; arithmetic combines its first operand
/// `a` with its second `b` (`a - b`, `a / b`). Operations on memory, comparisons and calls are
/// not modelled here and leave the registers as they are.
pub open spec fn step(regs: Regs, op: OpView) -> Regs {
    match op {
        OpView::Assign { src, dest } => write(regs, dest, source_value(regs, src)),
        OpView::Add { a, b, dest } => write(regs, dest, regs(a) + regs(b)),
        OpView::Subtract { a, b, dest } => write(regs, dest, regs(a) - regs(b)),
        OpView::Multiply { a, b, dest } => write(regs, dest, regs(a) * regs(b)),
        OpView::Divide { a, b, dest } => write(regs, dest, regs(a) / regs(b)),
        _ => regs,
    }
}

/// Runs operations in order.
pub open spec fn run(regs: Regs, ops: Seq<OpView>) -> Regs
    decreases ops.len(),
{
    if ops.len() == 0 {
        regs
    } else {
        step(run(regs, ops.drop_last()), ops.last())
    }
}

/// The operations of `ops` from index `k` on write only registers numbered from `lo` up to,
/// not including, `hi`.
pub open spec fn writes_within(ops: Seq<OpView>, k: int, lo: nat, hi: nat) -> bool {
    forall|i: int|
        k <= i < ops.len() ==> (#[trigger] written(ops[i]) matches Some(w) ==> lo <= w.0 < hi)
}

/// Every variable has a register below the counter, and that register holds its value.
pub open spec fn holds_vars(st: LowerState, regs: Regs, env: Env) -> bool {
    forall|v: Seq<char>|
        #[trigger] st.vars.contains_key(v) ==> st.vars[v].0 < st.vregs && regs(st.vars[v]) == env(v)
}

/// `b`'s operations extend `a`'s, the new ones writing only registers drawn in between.
pub open spec fn extends_ops(a: LowerState, b: LowerState) -> bool {
    &&& a.ops.len() <= b.ops.len()
    &&& b.ops.subrange(0, a.ops.len() as int) == a.ops
    &&& a.vregs <= b.vregs
    &&& writes_within(b.ops, a.ops.len() as int, a.vregs, b.vregs)
}

proof fn lemma_run_frame(regs: Regs, ops: Seq<OpView>, k: int, lo: nat, hi: nat, x: VirtualReg)
    requires
        0 <= k <= ops.len(),
        writes_within(ops, k, lo, hi),
        !(lo <= x.0 < hi),
    ensures
        run(regs, ops)(x) == run(regs, ops.subrange(0, k))(x),
    decreases ops.len(),
{
    if ops.len() > k {
        let init = ops.drop_last();
        assert(writes_within(init, k, lo, hi)) by {
            assert forall|i: int| k <= i < init.len() implies (#[trigger] written(init[i]) matches Some(w)
                ==> lo <= w.0 < hi) by {
                assert(init[i] == ops[i]);
            }
        }
        lemma_run_frame(regs, init, k, lo, hi, x);
        assert(init.subrange(0, k) =~= ops.subrange(0, k));
        let _ = written(ops[ops.len() - 1]);
    } else {
        assert(ops.subrange(0, k) =~= ops);
    }
}

proof fn lemma_extends_trans(a: LowerState, b: LowerState, c: LowerState)
    requires
        extends_ops(a, b),
        extends_ops(b, c),
    ensures
        extends_ops(a, c),
{
    assert(c.ops.subrange(0, a.ops.len() as int) =~= a.ops) by {
        assert forall|i: int| 0 <= i < a.ops.len() implies c.ops[i] == a.ops[i] by {
            assert(c.ops.subrange(0, b.ops.len() as int)[i] == c.ops[i]);
            assert(b.ops.subrange(0, a.ops.len() as int)[i] == b.ops[i]);
        }
    }
    assert forall|i: int| a.ops.len() <= i < c.ops.len() implies (#[trigger] written(c.ops[i]) matches Some(w)
        ==> a.vregs <= w.0 < c.vregs) by {
        if i < b.ops.len() {
            assert(c.ops.subrange(0, b.ops.len() as int)[i] == c.ops[i]);
            let _ = written(b.ops[i]);
        }
    }
}

/// Extending the operations keeps a register that none of the new ones writes.
proof fn lemma_extends_keeps(a: LowerState, b: LowerState, regs: Regs, x: VirtualReg)
    requires
        extends_ops(a, b),
        x.0 < a.vregs,
    ensures
        run(regs, b.ops)(x) == run(regs, a.ops)(x),
{
    lemma_run_frame(regs, b.ops, a.ops.len() as int, a.vregs, b.vregs, x);
}

/// Moving a value into a register keeps it.
proof fn lemma_to_reg_value(st: LowerState, src: SourceVal, regs: Regs, val: int)
    requires
        source_value(run(regs, st.ops), src) == val,
        src is VReg ==> src->VReg_0.0 < st.vregs,
        !(src is VReg) ==> st.vregs < u32::MAX,
    ensures
        run(regs, to_reg(st, src).0.ops)(to_reg(st, src).1) == val,
        to_reg(st, src).1.0 < to_reg(st, src).0.vregs,
        extends_ops(st, to_reg(st, src).0),
        to_reg(st, src).0.vars == st.vars,
{
    let t = to_reg(st, src);
    if !(src is VReg) {
        assert(t.0.ops == st.ops.push(OpView::Assign { src, dest: t.1 }));
        assert(t.0.ops.drop_last() =~= st.ops);
        assert(t.0.ops.subrange(0, st.ops.len() as int) =~= st.ops);
        assert(t.1.0 == st.vregs);
    } else {
        assert(t.0.ops.subrange(0, st.ops.len() as int) =~= st.ops);
    }
}

/// Lowering a pure expression leaves its value in what lowering returns, once the new
/// operations have run; without a given destination they write only fresh registers, and a
/// register returned is one of a variable or a fresh one.
proof fn lemma_expr_value(st: LowerState, e: Expression, dest: Option<VirtualReg>, regs: Regs, env: Env)
    requires
        pure_expr(e),
        expr_ok(st.vars.dom(), e),
        holds_vars(st, run(regs, st.ops), env),
        st.vregs + expr_regs(e, dest is Some) <= u32::MAX,
    ensures
        source_value(run(regs, lower_expr(st, e, dest).0.ops), lower_expr(st, e, dest).1)
            == eval_expr(env, e),
        lower_expr(st, e, dest).0.vars == st.vars,
        dest is None ==> extends_ops(st, lower_expr(st, e, dest).0),
        dest is None ==> (lower_expr(st, e, dest).1 matches SourceVal::VReg(r) ==> r.0 < lower_expr(
            st,
            e,
            dest,
        ).0.vregs),
    decreases e,
{
    lemma_expr_frame(st, e, dest);
    let r = lower_expr(st, e, dest);
    match e.inner {
        ExprInner::Arithmetic(a, b, op, _) => {
            let s1 = lower_expr(st, *a, None);
            lemma_expr_value(st, *a, None, regs, env);
            lemma_expr_frame(st, *a, None);
            assert(holds_vars(s1.0, run(regs, s1.0.ops), env)) by {
                assert forall|v: Seq<char>| #[trigger] s1.0.vars.contains_key(v) implies s1.0.vars[v].0
                    < s1.0.vregs && run(regs, s1.0.ops)(s1.0.vars[v]) == env(v) by {
                    assert(st.vars.contains_key(v));
                    lemma_extends_keeps(st, s1.0, regs, st.vars[v]);
                }
            }
            let s2 = lower_expr(s1.0, *b, None);
            lemma_expr_value(s1.0, *b, None, regs, env);
            lemma_expr_frame(s1.0, *b, None);
            assert(source_value(run(regs, s2.0.ops), s1.1) == eval_expr(env, *a)) by {
                if let SourceVal::VReg(x) = s1.1 {
                    lemma_extends_keeps(s1.0, s2.0, regs, x);
                }
            }
            let s3 = to_reg(s2.0, s1.1);
            lemma_to_reg_value(s2.0, s1.1, regs, eval_expr(env, *a));
            let s4 = to_reg(s3.0, s2.1);
            assert(source_value(run(regs, s3.0.ops), s2.1) == eval_expr(env, *b)) by {
                if let SourceVal::VReg(x) = s2.1 {
                    lemma_extends_keeps(s2.0, s3.0, regs, x);
                }
            }
            lemma_to_reg_value(s3.0, s2.1, regs, eval_expr(env, *b));
            lemma_extends_keeps(s3.0, s4.0, regs, s3.1);
            lemma_extends_trans(st, s1.0, s2.0);
            lemma_extends_trans(st, s2.0, s3.0);
            lemma_extends_trans(st, s3.0, s4.0);
            let x = s3.1;
            let y = s4.1;
            let before = run(regs, s4.0.ops);
            assert(before(x) == eval_expr(env, *a));
            assert(before(y) == eval_expr(env, *b));
            let d = match dest {
                Some(dd) => dd,
                None => VirtualReg(s4.0.vregs as u32),
            };
            assert(r.0.ops.drop_last() =~= s4.0.ops);
            assert(r.0.ops.subrange(0, s4.0.ops.len() as int) =~= s4.0.ops);
            if dest is None {
                assert(d.0 == s4.0.vregs);
                assert(extends_ops(s4.0, r.0)) by {
                    assert forall|i: int| s4.0.ops.len() <= i < r.0.ops.len() implies (#[trigger] written(
                        r.0.ops[i],
                    ) matches Some(w) ==> s4.0.vregs <= w.0 < r.0.vregs) by {
                        assert(i == s4.0.ops.len());
                    }
                }
                lemma_extends_trans(st, s4.0, r.0);
            }
        },
        ExprInner::Cast(x, _) => {
            lemma_expr_value(st, *x, dest, regs, env);
        },
        ExprInner::Variable(v) => {
            assert(st.vars.contains_key(v@));
            assert(r.0 == st);
            assert(st.ops.subrange(0, st.ops.len() as int) =~= st.ops);
        },
        _ => {
            assert(r.0 == st);
            assert(st.ops.subrange(0, st.ops.len() as int) =~= st.ops);
        },
    }
}

/// Every expression of `es` is pure.
pub open spec fn pure_exprs(es: Seq<Expression>) -> bool {
    forall|k: int| 0 <= k < es.len() ==> pure_expr(#[trigger] es[k])
}

/// Lowering the arguments of a call, each into a register, leaves the value of the `k`-th
/// argument in the `k`-th register, all of them fresh or those of variables.
proof fn lemma_args_value(st: LowerState, es: Seq<Expression>, regs: Regs, env: Env)
    requires
        pure_exprs(es),
        exprs_ok(st.vars.dom(), es),
        holds_vars(st, run(regs, st.ops), env),
        st.vregs + exprs_regs(es) <= u32::MAX,
    ensures
        lower_args(st, es).1.len() == es.len(),
        forall|k: int| 0 <= k < es.len() ==> {
            &&& run(regs, lower_args(st, es).0.ops)(#[trigger] lower_args(st, es).1[k]) == eval_expr(env, es[k])
            &&& lower_args(st, es).1[k].0 < lower_args(st, es).0.vregs
        },
        lower_args(st, es).0.vars == st.vars,
        extends_ops(st, lower_args(st, es).0),
    decreases es,
{
    if es.len() == 0 {
        assert(st.ops.subrange(0, st.ops.len() as int) =~= st.ops);
    } else {
        let e0 = es[0];
        assert(pure_expr(e0));
        let s1 = lower_expr(st, e0, None);
        lemma_expr_value(st, e0, None, regs, env);
        lemma_expr_frame(st, e0, None);
        let s2 = to_reg(s1.0, s1.1);
        lemma_to_reg_value(s1.0, s1.1, regs, eval_expr(env, e0));
        lemma_extends_trans(st, s1.0, s2.0);
        let tail = es.drop_first();
        assert(pure_exprs(tail)) by {
            assert forall|k: int| 0 <= k < tail.len() implies pure_expr(#[trigger] tail[k]) by {
                assert(tail[k] == es[k + 1]);
            }
        }
        assert(holds_vars(s2.0, run(regs, s2.0.ops), env)) by {
            assert forall|v: Seq<char>| #[trigger] s2.0.vars.contains_key(v) implies s2.0.vars[v].0
                < s2.0.vregs && run(regs, s2.0.ops)(s2.0.vars[v]) == env(v) by {
                lemma_extends_keeps(st, s2.0, regs, st.vars[v]);
            }
        }
        let rest = lower_args(s2.0, tail);
        lemma_args_value(s2.0, tail, regs, env);
        lemma_args_frame(s2.0, tail);
        lemma_extends_trans(st, s2.0, rest.0);
        lemma_extends_keeps(s2.0, rest.0, regs, s2.1);
        let all = lower_args(st, es);
        assert(all.1 == seq![s2.1] + rest.1);
        assert forall|k: int| 0 <= k < es.len() implies {
            &&& run(regs, all.0.ops)(#[trigger] all.1[k]) == eval_expr(env, es[k])
            &&& all.1[k].0 < all.0.vregs
        } by {
            if k > 0 {
                assert(all.1[k] == rest.1[k - 1]);
                assert(es[k] == tail[k - 1]);
            }
        }
    }
}

/// Lowering an expression made of constants, variables, arithmetic and casts computes its
/// value: run from registers in which each variable's register holds the variable's value, the
/// operations that lowering emits leave the value of the expression in what lowering returns.
/// In particular `a - b` and `a / b` take `a` as their first operand.
pub proof fn law_lowering_computes_value(
    st: LowerState,
    e: Expression,
    dest: Option<VirtualReg>,
    regs: Regs,
    env: Env,
)
    requires
        pure_expr(e),
        expr_ok(st.vars.dom(), e),
        holds_vars(st, run(regs, st.ops), env),
        st.vregs + expr_regs(e, dest is Some) <= u32::MAX,
    ensures
        source_value(run(regs, lower_expr(st, e, dest).0.ops), lower_expr(st, e, dest).1)
            == eval_expr(env, e),
{
    lemma_expr_value(st, e, dest, regs, env);
}

/// A call receives its arguments in order: lowering `f(e0, e1, ..)` with pure arguments ends
/// with a call of `f` writing the register returned, whose `k`-th argument register holds, when
/// the call runs, the value of the `k`-th argument expression.
pub proof fn law_call_receives_arguments(
    st: LowerState,
    e: Expression,
    dest: Option<VirtualReg>,
    regs: Regs,
    env: Env,
)
    requires
        e.inner is FnCall,
        pure_exprs(e.inner->FnCall_1@),
        expr_ok(st.vars.dom(), e),
        holds_vars(st, run(regs, st.ops), env),
        st.vregs + expr_regs(e, dest is Some) <= u32::MAX,
    ensures
        ({
            let r = lower_expr(st, e, dest);
            let es = e.inner->FnCall_1@;
            &&& r.1 is VReg
            &&& r.0.ops.last() matches OpView::Call { function, args, dest: d }
            &&& function == e.inner->FnCall_0@
            &&& d == Some(r.1->VReg_0)
            &&& args.len() == es.len()
            &&& forall|k: int|
                0 <= k < es.len() ==> run(regs, r.0.ops.drop_last())(#[trigger] args[k]) == eval_expr(
                    env,
                    es[k],
                )
        }),
{
    let es = e.inner->FnCall_1@;
    let l = lower_args(st, es);
    lemma_args_value(st, es, regs, env);
    let r = lower_expr(st, e, dest);
    assert(r.0.ops.drop_last() =~= l.0.ops);
}

} // verus!
