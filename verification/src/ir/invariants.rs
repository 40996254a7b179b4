//! What lowering keeps true of its state from one statement to the next: the registers bound
//! to variables stay distinct and below the register counter, and the labels of the blocks
//! stay distinct and below the label counter, finished blocks staying as they are. It also
//! shows that `stmts_regs` counts exactly the registers that lowering draws.
//!
//! The register law holds of a state whose bound registers are already below the counter. The
//! start of a function body with parameters is no such state: the counter starts at 0 while
//! the parameters hold registers 0 and up (see `start_state`), so there the first fresh
//! registers are numbered as the parameters are, and the law says nothing. It applies to a
//! body without parameters, and to any state from which the bound registers are fresh.
use vstd::prelude::*;

use crate::analyze::ast::{ExprInner, Expression, Statement};
use crate::analyze::semantics::{
    expr_regs, exprs_regs, needs_reg, stmt_defs, stmts_defs, stmt_regs, stmts_regs,
};
use crate::analyze::semantics::{stmt_labels, stmts_labels};
use crate::ir::lowering::{
    bind_var, commit, draw_label, lower_args, lower_expr, lower_stmt, lower_stmts, to_reg,
    BlockView, LowerState,
};
use crate::ir::{Label, Terminator, VirtualReg};

verus! {

/// The registers bound to variables are pairwise distinct, and each is below the register
/// counter, so that no fresh register is one of them.
pub open spec fn registers_fresh(st: LowerState) -> bool {
    &&& forall|x: Seq<char>, y: Seq<char>|
        st.vars.contains_key(x) && st.vars.contains_key(y) && x != y ==> #[trigger] st.vars[x]
            != #[trigger] st.vars[y]
    &&& forall|x: Seq<char>| st.vars.contains_key(x) ==> (#[trigger] st.vars[x]).0 < st.vregs
}

/// `b` binds every variable that `a` binds, to the same register.
pub open spec fn keeps_bindings(a: LowerState, b: LowerState) -> bool {
    forall|x: Seq<char>|
        #[trigger] a.vars.contains_key(x) ==> b.vars.contains_key(x) && b.vars[x] == a.vars[x]
}

/// Binding a variable keeps the bound registers distinct and below the counter: a new
/// variable gets the counter's register, which no variable has. The variable is then bound to
/// the register returned, the other bindings stay, and binding it again returns the same
/// register and changes nothing.
pub proof fn law_bind_var_keeps_registers_fresh(st: LowerState, name: Seq<char>)
    requires
        registers_fresh(st),
        st.vregs <= u32::MAX,
    ensures
        registers_fresh(bind_var(st, name).0),
        bind_var(st, name).0.vars.contains_key(name),
        bind_var(st, name).0.vars[name] == bind_var(st, name).1,
        keeps_bindings(st, bind_var(st, name).0),
        bind_var(bind_var(st, name).0, name) == bind_var(st, name),
        bind_var(st, name).0.vregs == st.vregs + (if st.vars.contains_key(name) { 0nat } else { 1nat }),
{
    let b = bind_var(st, name).0;
    if !st.vars.contains_key(name) {
        let r = VirtualReg(st.vregs as u32);
        assert(r.0 == st.vregs);
        assert forall|x: Seq<char>, y: Seq<char>|
            b.vars.contains_key(x) && b.vars.contains_key(y) && x != y implies #[trigger] b.vars[x]
                != #[trigger] b.vars[y] by {
            if x != name && y != name {
                assert(st.vars[x] != st.vars[y]);
            } else if x == name {
                assert(st.vars[y].0 < st.vregs);
            } else {
                assert(st.vars[x].0 < st.vregs);
            }
        }
        assert forall|x: Seq<char>| b.vars.contains_key(x) implies (#[trigger] b.vars[x]).0 < b.vregs by {
            if x != name {
                assert(st.vars[x].0 < st.vregs);
            }
        }
    }
}

/// Lowering an expression leaves the variables, the blocks and the labels as they are, and draws exactly
/// `expr_regs(e, ..)` fresh registers; it gives a register unless `e` is a constant or a
/// string.
pub(crate) proof fn lemma_expr_frame(st: LowerState, e: Expression, dest: Option<VirtualReg>)
    ensures
        lower_expr(st, e, dest).0.vars == st.vars,
        lower_expr(st, e, dest).0.blocks == st.blocks,
        lower_expr(st, e, dest).0.label == st.label,
        lower_expr(st, e, dest).0.labels == st.labels,
        lower_expr(st, e, dest).0.vregs == st.vregs + expr_regs(e, dest is Some),
        needs_reg(e) == (if lower_expr(st, e, dest).1 is VReg { 0nat } else { 1nat }),
    decreases e,
{
    match e.inner {
        ExprInner::Arithmetic(a, b, _, _) => {
            lemma_expr_frame(st, *a, None);
            lemma_expr_frame(lower_expr(st, *a, None).0, *b, None);
        },
        ExprInner::Comparison(a, b, _, _) => {
            lemma_expr_frame(st, *a, None);
            lemma_expr_frame(lower_expr(st, *a, None).0, *b, None);
        },
        ExprInner::FnCall(_, args) => {
            lemma_args_frame(st, args@);
        },
        ExprInner::Cast(x, _) => {
            lemma_expr_frame(st, *x, dest);
        },
        _ => {},
    }
}

pub(crate) proof fn lemma_args_frame(st: LowerState, es: Seq<Expression>)
    ensures
        lower_args(st, es).0.vars == st.vars,
        lower_args(st, es).0.blocks == st.blocks,
        lower_args(st, es).0.label == st.label,
        lower_args(st, es).0.labels == st.labels,
        lower_args(st, es).0.vregs == st.vregs + exprs_regs(es),
    decreases es,
{
    if es.len() > 0 {
        lemma_expr_frame(st, es[0], None);
        let s1 = lower_expr(st, es[0], None);
        let s2 = to_reg(s1.0, s1.1);
        lemma_args_frame(s2.0, es.drop_first());
    }
}

/// A state whose variables are those of `st` and whose counter is not below that of `st` keeps
/// the registers fresh.
proof fn lemma_fresh_more_regs(st: LowerState, later: LowerState)
    requires
        later.vars == st.vars,
        st.vregs <= later.vregs,
    ensures
        registers_fresh(st) ==> registers_fresh(later),
        keeps_bindings(st, later),
{
    if registers_fresh(st) {
        assert forall|x: Seq<char>| later.vars.contains_key(x) implies (#[trigger] later.vars[x]).0
            < later.vregs by {
            assert(st.vars[x].0 < st.vregs);
        }
    }
}

/// Binding a variable keeps the other bindings, binds it, and draws a register exactly when
/// it was unbound.
proof fn lemma_bind_var_frame(st: LowerState, name: Seq<char>)
    ensures
        keeps_bindings(st, bind_var(st, name).0),
        bind_var(st, name).0.vars.dom() == st.vars.dom().insert(name),
        bind_var(st, name).0.vregs == st.vregs + (if st.vars.contains_key(name) { 0nat } else { 1nat }),
{
    assert(bind_var(st, name).0.vars.dom() =~= st.vars.dom().insert(name));
}

proof fn lemma_keeps_bindings_trans(a: LowerState, b: LowerState, c: LowerState)
    requires
        keeps_bindings(a, b),
        keeps_bindings(b, c),
    ensures
        keeps_bindings(a, c),
{
    assert forall|x: Seq<char>| #[trigger] a.vars.contains_key(x) implies c.vars.contains_key(x)
        && c.vars[x] == a.vars[x] by {
        assert(b.vars.contains_key(x));
    }
}

proof fn lemma_stmt_registers(st: LowerState, s: Statement)
    ensures
        registers_fresh(st) && st.vregs + stmt_regs(st.vars.dom(), s) <= u32::MAX ==> registers_fresh(
            lower_stmt(st, s),
        ),
        keeps_bindings(st, lower_stmt(st, s)),
        lower_stmt(st, s).vregs == st.vregs + stmt_regs(st.vars.dom(), s),
        lower_stmt(st, s).vars.dom() == stmt_defs(st.vars.dom(), s),
    decreases s,
{
    match s {
        Statement::Declare { var, expr } => {
            lemma_bind_var_frame(st, var@);
            if registers_fresh(st) && st.vregs <= u32::MAX {
                law_bind_var_keeps_registers_fresh(st, var@);
            }
            let b = bind_var(st, var@);
            lemma_expr_frame(b.0, expr, Some(b.1));
            lemma_fresh_more_regs(b.0, lower_expr(b.0, expr, Some(b.1)).0);
            lemma_keeps_bindings_trans(st, b.0, lower_stmt(st, s));
        },
        Statement::Assign { var, expr } => {
            lemma_bind_var_frame(st, var.spec_symbol());
            if registers_fresh(st) && st.vregs <= u32::MAX {
                law_bind_var_keeps_registers_fresh(st, var.spec_symbol());
            }
            let b = bind_var(st, var.spec_symbol());
            lemma_expr_frame(b.0, expr, Some(b.1));
            lemma_fresh_more_regs(b.0, lower_expr(b.0, expr, Some(b.1)).0);
            lemma_keeps_bindings_trans(st, b.0, lower_stmt(st, s));
        },
        Statement::Expr(e) => {
            lemma_expr_frame(st, e, None);
            lemma_fresh_more_regs(st, lower_stmt(st, s));
        },
        Statement::If { guard, body } => {
            lemma_expr_frame(st, guard, None);
            let g = lower_expr(st, guard, None);
            let c = to_reg(g.0, g.1);
            let t = draw_label(c.0);
            let f = draw_label(t.0);
            let s4 = commit(
                f.0,
                Terminator::BranchCond { cond: c.1, if_true: t.1, if_false: f.1 },
                t.1,
            );
            lemma_fresh_more_regs(st, s4);
            lemma_stmts_registers(s4, body@);
            lemma_keeps_bindings_trans(st, s4, lower_stmt(st, s));
        },
        Statement::Return(e) => {
            lemma_expr_frame(st, e, None);
            lemma_fresh_more_regs(st, lower_stmt(st, s));
        },
        Statement::WhileLoop { .. } => {
            lemma_fresh_more_regs(st, st);
        },
    }
}

proof fn lemma_stmts_registers(st: LowerState, ss: Seq<Statement>)
    ensures
        registers_fresh(st) && st.vregs + stmts_regs(st.vars.dom(), ss) <= u32::MAX
            ==> registers_fresh(lower_stmts(st, ss)),
        keeps_bindings(st, lower_stmts(st, ss)),
        lower_stmts(st, ss).vregs == st.vregs + stmts_regs(st.vars.dom(), ss),
        lower_stmts(st, ss).vars.dom() == stmts_defs(st.vars.dom(), ss),
    decreases ss,
{
    if ss.len() == 0 {
        lemma_fresh_more_regs(st, st);
    } else {
        lemma_stmt_registers(st, ss[0]);
        let mid = lower_stmt(st, ss[0]);
        lemma_stmts_registers(mid, ss.drop_first());
        assert(lower_stmts(st, ss) == lower_stmts(mid, ss.drop_first()));
        lemma_keeps_bindings_trans(st, mid, lower_stmts(st, ss));
    }
}

/// Lowering statements keeps the registers bound to variables distinct and below the register
/// counter, keeps every binding, and draws exactly `stmts_regs(..)` fresh registers. The start
/// of a body with parameters does not meet the `requires`: its counter is 0 while the
/// parameters hold registers from 0 on.
pub proof fn law_lowering_keeps_registers_fresh(st: LowerState, ss: Seq<Statement>)
    requires
        registers_fresh(st),
        st.vregs + stmts_regs(st.vars.dom(), ss) <= u32::MAX,
    ensures
        registers_fresh(lower_stmts(st, ss)),
        keeps_bindings(st, lower_stmts(st, ss)),
        lower_stmts(st, ss).vregs == st.vregs + stmts_regs(st.vars.dom(), ss),
{
    lemma_stmts_registers(st, ss);
}

/// Lowering statements draws exactly `stmts_regs` fresh registers, counted from the variables
/// bound before them, and the variables bound after them are those that `stmts_defs` gives.
pub proof fn law_register_count(st: LowerState, ss: Seq<Statement>)
    ensures
        lower_stmts(st, ss).vregs == st.vregs + stmts_regs(st.vars.dom(), ss),
        lower_stmts(st, ss).vars.dom() == stmts_defs(st.vars.dom(), ss),
{
    lemma_stmts_registers(st, ss);
}

/// The labels of the finished blocks of `st`, followed by that of its open block.
pub open spec fn labels_of(st: LowerState) -> Seq<Label> {
    st.blocks.map_values(|b: BlockView| b.label).push(st.label)
}

/// `l` is the entry label, or an anonymous label numbered below `n`.
pub open spec fn drawn_below(l: Label, n: nat) -> bool {
    match l {
        Label::Entry => true,
        Label::Anon(k) => k < n,
        Label::Ret => false,
    }
}

/// `l` is an anonymous label numbered from `lo` up to, not including, `hi`.
pub open spec fn drawn_between(l: Label, lo: nat, hi: nat) -> bool {
    match l {
        Label::Anon(k) => lo <= k < hi,
        _ => false,
    }
}

/// The labels of the blocks, the open one included, are pairwise distinct, and each is the
/// entry label or one drawn below the label counter.
pub open spec fn labels_fresh(st: LowerState) -> bool {
    &&& labels_of(st).no_duplicates()
    &&& forall|i: int| 0 <= i < labels_of(st).len() ==> drawn_below(#[trigger] labels_of(st)[i], st.labels)
}

/// From `a` to `b` the label counter does not go down, the finished blocks of `a` stay the
/// first blocks of `b`, and every label after them is that of the block open in `a` or one
/// drawn in between.
pub open spec fn extends_labels(a: LowerState, b: LowerState) -> bool {
    &&& a.labels <= b.labels
    &&& a.blocks.len() <= b.blocks.len()
    &&& b.blocks.subrange(0, a.blocks.len() as int) == a.blocks
    &&& forall|i: int|
        a.blocks.len() <= i < labels_of(b).len() ==> (#[trigger] labels_of(b)[i] == a.label
            || drawn_between(labels_of(b)[i], a.labels, b.labels))
}

proof fn lemma_extends_labels_refl(a: LowerState)
    ensures
        extends_labels(a, a),
{
    assert(a.blocks.subrange(0, a.blocks.len() as int) =~= a.blocks);
}

proof fn lemma_extends_labels_trans(a: LowerState, b: LowerState, c: LowerState)
    requires
        extends_labels(a, b),
        extends_labels(b, c),
    ensures
        extends_labels(a, c),
{
    assert(c.blocks.subrange(0, a.blocks.len() as int) =~= b.blocks.subrange(0, a.blocks.len() as int)) by {
        assert forall|i: int| 0 <= i < a.blocks.len() implies c.blocks[i] == b.blocks[i] by {
            assert(c.blocks.subrange(0, b.blocks.len() as int)[i] == c.blocks[i]);
        }
    }
    assert forall|i: int| a.blocks.len() <= i < labels_of(c).len() implies (#[trigger] labels_of(c)[i]
        == a.label || drawn_between(labels_of(c)[i], a.labels, c.labels)) by {
        if i < b.blocks.len() {
            assert(c.blocks.subrange(0, b.blocks.len() as int)[i] == c.blocks[i]);
            assert(labels_of(c)[i] == labels_of(b)[i]);
        } else if labels_of(c)[i] == b.label {
            assert(labels_of(b)[b.blocks.len() as int] == b.label);
        }
    }
}

/// A state with the blocks, the open label and the label counter of `st` has its labels.
proof fn lemma_same_labels(st: LowerState, later: LowerState)
    requires
        later.blocks == st.blocks,
        later.label == st.label,
        later.labels == st.labels,
    ensures
        labels_of(later) == labels_of(st),
        labels_fresh(st) ==> labels_fresh(later),
        extends_labels(st, later),
{
    lemma_extends_labels_refl(st);
}

/// Finishing the open block and opening one with a label drawn at the counter, with the
/// counter then moved past `extra` more labels.
proof fn lemma_commit_drawn(st: LowerState, t: Terminator, extra: nat)
    requires
        labels_fresh(st),
        st.labels + extra < u32::MAX,
    ensures
        ({
            let r = commit(LowerState { labels: st.labels + 1 + extra, ..st }, t, Label::Anon(st.labels as u32));
            &&& labels_of(r) == labels_of(st).push(Label::Anon(st.labels as u32))
            &&& labels_fresh(r)
            &&& extends_labels(st, r)
        }),
{
    let l = Label::Anon(st.labels as u32);
    let r = commit(LowerState { labels: st.labels + 1 + extra, ..st }, t, l);
    let ls = labels_of(st);
    assert(labels_of(r) =~= ls.push(l));
    assert(!ls.contains(l)) by {
        if ls.contains(l) {
            let i = choose|i: int| 0 <= i < ls.len() && ls[i] == l;
            assert(drawn_below(ls[i], st.labels));
        }
    }
    assert(labels_of(r).no_duplicates()) by {
        assert forall|i: int, j: int|
            0 <= i < labels_of(r).len() && 0 <= j < labels_of(r).len() && i != j implies labels_of(r)[i]
            != labels_of(r)[j] by {
            if i < ls.len() && j < ls.len() {
                assert(ls[i] != ls[j]);
            } else if i < ls.len() {
                assert(ls.contains(labels_of(r)[i]));
            } else {
                assert(ls.contains(labels_of(r)[j]));
            }
        }
    }
    assert forall|i: int| 0 <= i < labels_of(r).len() implies drawn_below(#[trigger] labels_of(r)[i], r.labels) by {
        if i < ls.len() {
            assert(drawn_below(ls[i], st.labels));
        }
    }
    assert(r.blocks.subrange(0, st.blocks.len() as int) =~= st.blocks);
    assert forall|i: int| st.blocks.len() <= i < labels_of(r).len() implies (#[trigger] labels_of(r)[i]
        == st.label || drawn_between(labels_of(r)[i], st.labels, r.labels)) by {
        if i == st.blocks.len() {
            assert(labels_of(r)[i] == r.blocks[i].label);
        }
    }
}

proof fn lemma_stmt_labels(st: LowerState, s: Statement)
    requires
        labels_fresh(st),
        st.labels + stmt_labels(s) <= u32::MAX,
    ensures
        labels_fresh(lower_stmt(st, s)),
        extends_labels(st, lower_stmt(st, s)),
        lower_stmt(st, s).labels <= st.labels + stmt_labels(s),
    decreases s,
{
    match s {
        Statement::Declare { var, expr } => {
            let b = bind_var(st, var@);
            lemma_expr_frame(b.0, expr, Some(b.1));
            lemma_same_labels(st, lower_stmt(st, s));
        },
        Statement::Assign { var, expr } => {
            let b = bind_var(st, var.spec_symbol());
            lemma_expr_frame(b.0, expr, Some(b.1));
            lemma_same_labels(st, lower_stmt(st, s));
        },
        Statement::Expr(e) => {
            lemma_expr_frame(st, e, None);
            lemma_same_labels(st, lower_stmt(st, s));
        },
        Statement::If { guard, body } => {
            lemma_expr_frame(st, guard, None);
            let g = lower_expr(st, guard, None);
            let c = to_reg(g.0, g.1);
            let t = draw_label(c.0);
            let f = draw_label(t.0);
            let term = Terminator::BranchCond { cond: c.1, if_true: t.1, if_false: f.1 };
            let s4 = commit(f.0, term, t.1);
            lemma_same_labels(st, c.0);
            lemma_commit_drawn(c.0, term, 1);
            assert(s4 == commit(LowerState { labels: c.0.labels + 1 + 1, ..c.0 }, term, Label::Anon(c.0.labels as u32)));
            lemma_stmts_labels(s4, body@);
            let s5 = lower_stmts(s4, body@);
            let r = commit(s5, Terminator::Branch { label: f.1 }, f.1);
            assert(r == lower_stmt(st, s));
            let l5 = labels_of(s5);
            assert(labels_of(r) =~= l5.push(f.1));
            assert(f.1 == Label::Anon((st.labels + 1) as u32));
            assert(!l5.contains(f.1)) by {
                if l5.contains(f.1) {
                    let i = choose|i: int| 0 <= i < l5.len() && l5[i] == f.1;
                    if i < s4.blocks.len() {
                        assert(s5.blocks.subrange(0, s4.blocks.len() as int)[i] == s5.blocks[i]);
                        assert(l5[i] == labels_of(s4)[i]);
                        assert(labels_of(s4)[i] == labels_of(st)[i]);
                        assert(drawn_below(labels_of(st)[i], st.labels));
                    }
                }
            }
            assert(labels_of(r).no_duplicates()) by {
                assert forall|i: int, j: int|
                    0 <= i < labels_of(r).len() && 0 <= j < labels_of(r).len() && i != j implies labels_of(r)[i]
                    != labels_of(r)[j] by {
                    if i < l5.len() && j < l5.len() {
                        assert(l5[i] != l5[j]);
                    } else if i < l5.len() {
                        assert(l5.contains(labels_of(r)[i]));
                    } else {
                        assert(l5.contains(labels_of(r)[j]));
                    }
                }
            }
            assert forall|i: int| 0 <= i < labels_of(r).len() implies drawn_below(#[trigger] labels_of(r)[i], r.labels) by {
                if i < l5.len() {
                    assert(drawn_below(l5[i], s5.labels));
                }
            }
            assert(r.blocks.subrange(0, s5.blocks.len() as int) =~= s5.blocks);
            assert(extends_labels(st, r)) by {
                lemma_extends_labels_trans(st, s4, s5);
                assert(r.blocks.subrange(0, st.blocks.len() as int) =~= s5.blocks.subrange(0, st.blocks.len() as int));
                assert forall|i: int| st.blocks.len() <= i < labels_of(r).len() implies (#[trigger] labels_of(r)[i]
                    == st.label || drawn_between(labels_of(r)[i], st.labels, r.labels)) by {
                    if i < l5.len() {
                        assert(labels_of(r)[i] == l5[i]);
                    } else {
                        assert(labels_of(r)[i] == f.1);
                    }
                }
            }
        },
        Statement::Return(e) => {
            lemma_expr_frame(st, e, None);
            let v = lower_expr(st, e, None);
            lemma_same_labels(st, v.0);
            lemma_commit_drawn(v.0, Terminator::Return { value: v.1 }, 0);
        },
        Statement::WhileLoop { .. } => {
            lemma_same_labels(st, st);
        },
    }
}

proof fn lemma_stmts_labels(st: LowerState, ss: Seq<Statement>)
    requires
        labels_fresh(st),
        st.labels + stmts_labels(ss) <= u32::MAX,
    ensures
        labels_fresh(lower_stmts(st, ss)),
        extends_labels(st, lower_stmts(st, ss)),
        lower_stmts(st, ss).labels <= st.labels + stmts_labels(ss),
    decreases ss,
{
    if ss.len() == 0 {
        lemma_extends_labels_refl(st);
    } else {
        lemma_stmt_labels(st, ss[0]);
        let mid = lower_stmt(st, ss[0]);
        lemma_stmts_labels(mid, ss.drop_first());
        lemma_extends_labels_trans(st, mid, lower_stmts(st, ss));
    }
}

/// Lowering statements keeps the labels of the blocks distinct and drawn below the label
/// counter; the blocks finished before stay first and unchanged, the counter does not go
/// down, and every new label is that of the block open before or one drawn meanwhile.
pub proof fn law_lowering_keeps_labels_fresh(st: LowerState, ss: Seq<Statement>)
    requires
        labels_fresh(st),
        st.labels + stmts_labels(ss) <= u32::MAX,
    ensures
        labels_fresh(lower_stmts(st, ss)),
        extends_labels(st, lower_stmts(st, ss)),
        lower_stmts(st, ss).labels <= st.labels + stmts_labels(ss),
{
    lemma_stmts_labels(st, ss);
}

} // verus!
