use vstd::prelude::*;

use crate::analyze::ast::{
    ArithmeticOp, Assignable, ExprInner, Expression, Item as AstItem, Statement,
};
use crate::analyze::semantics::{
    expr_ok, expr_regs, expr_strs, exprs_ok, exprs_regs, exprs_strs, item_ok, needs_reg,
    stmt_defs, stmt_labels, stmt_ok, stmt_regs, stmt_strs, stmts_defs, stmts_labels, stmts_ok,
    stmts_regs, stmts_strs, Sign, ValidAST,
};
use crate::ir::lowering::{
    bind_var, block_view, commit, draw_label, emit, finish_body, fresh, item_blocks,
    item_params, item_strs, lower_expr, lower_item, lower_stmt, lower_stmts, op_view, pairs_map,
    start_state, table_after, targets_label, to_reg, BlockView, LowerState, OpView,
};
use crate::ir::text::targets_contain;
use crate::ir::{
    condition_of, lemma_to_set_push, terminator_targets, BasicBlock, Condition, Item, Label, Op, Operation, SourceVal, Terminator,
    VirtualReg, IR,
};

verus! {

/// A string id in `s` names an entry of a table of `n` strings.
pub open spec fn src_in_table(s: SourceVal, n: nat) -> bool {
    match s {
        SourceVal::String(id) => id < n,
        _ => true,
    }
}

/// Every string id that `op` holds names an entry of a table of `n` strings.
pub open spec fn op_in_table(op: Operation, n: nat) -> bool {
    match op {
        Operation::Assign { src, .. } => src_in_table(src, n),
        _ => true,
    }
}

/// Every string id that `t` holds names an entry of a table of `n` strings.
pub open spec fn terminator_in_table(t: Terminator, n: nat) -> bool {
    match t {
        Terminator::Return { value } => src_in_table(value, n),
        _ => true,
    }
}

/// Every string id of the operations `ops` names an entry of a table of `n` strings.
pub open spec fn ops_in_table(ops: Seq<Operation>, n: nat) -> bool {
    forall|i: int| 0 <= i < ops.len() ==> op_in_table(#[trigger] ops[i], n)
}

/// Every string id that block `b` holds names an entry of a table of `n` strings.
pub open spec fn block_in_table(b: BasicBlock, n: nat) -> bool {
    ops_in_table(b.ops@, n) && terminator_in_table(b.terminator, n)
}

/// The labels of the blocks `bs`, in order.
pub open spec fn block_labels(bs: Seq<BasicBlock>) -> Seq<Label> {
    bs.map_values(|b: BasicBlock| b.label)
}

/// Control falls through from `b` to the block labelled `next`: an unconditional branch goes
/// there, and so does the true side of a conditional one.
pub open spec fn falls_through(b: BasicBlock, next: Label) -> bool {
    match b.terminator {
        Terminator::Branch { label } => label == next,
        Terminator::BranchCond { if_true, .. } => if_true == next,
        Terminator::Return { .. } => true,
    }
}

/// `l` is the entry label, or an anonymous label numbered below `counter`.
pub open spec fn label_below(l: Label, counter: u32) -> bool {
    match l {
        Label::Entry => true,
        Label::Anon(n) => n < counter,
        Label::Ret => false,
    }
}

/// `l` is an anonymous label numbered from `lo` up to, not including, `hi`.
pub open spec fn label_between(l: Label, lo: u32, hi: u32) -> bool {
    match l {
        Label::Anon(n) => lo <= n < hi,
        _ => false,
    }
}

/// The names that an association list binds.
pub open spec fn bound_names(m: Seq<(String, VirtualReg)>) -> Set<Seq<char>> {
    Set::new(|k: Seq<char>| exists|i: int| 0 <= i < m.len() && (#[trigger] m[i]).0@ == k)
}

/// No name is bound twice.
pub open spec fn names_distinct(m: Seq<(String, VirtualReg)>) -> bool {
    forall|i: int, j: int|
        0 <= i < m.len() && 0 <= j < m.len() && i != j ==> (#[trigger] m[i]).0@ != (#[trigger] m[j]).0@
}

/// `m` binds the name `k` to the register `r`.
pub open spec fn binds(m: Seq<(String, VirtualReg)>, k: Seq<char>, r: VirtualReg) -> bool {
    exists|i: int| 0 <= i < m.len() && (#[trigger] m[i]).0@ == k && m[i].1 == r
}

/// The registers that an association list binds, as a map.
pub open spec fn var_map(m: Seq<(String, VirtualReg)>) -> Map<Seq<char>, VirtualReg> {
    Map::new(|k: Seq<char>| bound_names(m).contains(k), |k: Seq<char>| choose|v: VirtualReg| binds(m, k, v))
}

proof fn lemma_var_map_lookup(m: Seq<(String, VirtualReg)>, k: Seq<char>, v: VirtualReg)
    requires
        names_distinct(m),
        binds(m, k, v),
    ensures
        var_map(m).contains_key(k),
        var_map(m)[k] == v,
{
    let i = choose|i: int| 0 <= i < m.len() && (#[trigger] m[i]).0@ == k && m[i].1 == v;
    assert(bound_names(m).contains(k));
    let w = choose|w: VirtualReg| binds(m, k, w);
    let j = choose|j: int| 0 <= j < m.len() && (#[trigger] m[j]).0@ == k && m[j].1 == w;
    assert(i == j);
}

proof fn lemma_var_map_bound(m: Seq<(String, VirtualReg)>, k: Seq<char>)
    requires
        bound_names(m).contains(k),
    ensures
        binds(m, k, var_map(m)[k]),
{
    let i = choose|i: int| 0 <= i < m.len() && (#[trigger] m[i]).0@ == k;
    assert(binds(m, k, m[i].1));
}

/// Binding `k` to `v` in `m`, keeping the other bindings, binds them in the map.
proof fn lemma_var_map_update(
    m: Seq<(String, VirtualReg)>,
    m2: Seq<(String, VirtualReg)>,
    k: Seq<char>,
    v: VirtualReg,
)
    requires
        names_distinct(m),
        names_distinct(m2),
        bound_names(m2) == bound_names(m).insert(k),
        binds(m2, k, v),
        forall|x: Seq<char>, w: VirtualReg| x != k && binds(m, x, w) ==> binds(m2, x, w),
    ensures
        var_map(m2) == var_map(m).insert(k, v),
{
    assert forall|x: Seq<char>| #[trigger] var_map(m2).contains_key(x) implies var_map(m2)[x]
        == var_map(m).insert(k, v)[x] by {
        if x == k {
            lemma_var_map_lookup(m2, k, v);
        } else {
            lemma_var_map_bound(m, x);
            lemma_var_map_lookup(m2, x, var_map(m)[x]);
        }
    }
    assert(var_map(m2) =~= var_map(m).insert(k, v));
}

proof fn lemma_bound_names_push(m: Seq<(String, VirtualReg)>, k: String, r: VirtualReg)
    ensures
        bound_names(m.push((k, r))) == bound_names(m).insert(k@),
        binds(m.push((k, r)), k@, r),
        forall|x: Seq<char>, v: VirtualReg| binds(m, x, v) ==> binds(m.push((k, r)), x, v),
{
    let m2 = m.push((k, r));
    assert(m2[m.len() as int] == (k, r));
    assert forall|x: Seq<char>| bound_names(m2).contains(x) implies bound_names(m).insert(k@).contains(x) by {
        let i = choose|i: int| 0 <= i < m2.len() && (#[trigger] m2[i]).0@ == x;
        if i < m.len() {
            assert(m[i] == m2[i]);
        }
    }
    assert forall|x: Seq<char>| bound_names(m).insert(k@).contains(x) implies bound_names(m2).contains(x) by {
        if x != k@ {
            let i = choose|i: int| 0 <= i < m.len() && (#[trigger] m[i]).0@ == x;
            assert(m2[i] == m[i]);
        }
    }
    assert(bound_names(m2) =~= bound_names(m).insert(k@));
    assert forall|x: Seq<char>, v: VirtualReg| binds(m, x, v) implies binds(m2, x, v) by {
        let i = choose|i: int| 0 <= i < m.len() && (#[trigger] m[i]).0@ == x && m[i].1 == v;
        assert(m2[i] == m[i]);
    }
}

/// Lowers the statements of one function body into basic blocks.
///
/// The builder keeps the block that is being filled (its label, arguments and operations), the
/// blocks that are done, the register of each variable, and the counters from which fresh
/// registers and labels are drawn. String literals go to the table of the IR it borrows.
pub struct BlockBuilder<'ir> {
    pub ir: &'ir mut IR,
    pub blocks: Vec<BasicBlock>,
    pub var_to_vreg: Vec<(String, VirtualReg)>,
    pub vreg_counter: u32,
    pub label_counter: u32,
    pub block_label: Label,
    pub block_args: Vec<VirtualReg>,
    pub block_ops: Vec<Op>,
    pub block_decls: Vec<VirtualReg>,
}

impl<'ir> BlockBuilder<'ir> {
    /// The strings interned so far.
    pub open spec fn table(&self) -> Seq<Seq<char>> {
        self.ir.string_table()
    }

    /// The variables defined so far.
    pub open spec fn names(&self) -> Set<Seq<char>> {
        bound_names(self.var_to_vreg@)
    }

    /// The labels of the finished blocks, followed by that of the block being filled.
    pub open spec fn all_labels(&self) -> Seq<Label> {
        block_labels(self.blocks@).push(self.block_label)
    }

    /// Where the lowering stands, as mathematical values. The functions already in the IR are
    /// not part of it: lowering a body leaves them as they are (see `grows`).
    pub open spec fn state(&self) -> LowerState {
        LowerState {
            table: self.table(),
            vars: var_map(self.var_to_vreg@),
            vregs: self.vreg_counter as nat,
            labels: self.label_counter as nat,
            label: self.block_label,
            args: self.block_args@,
            ops: self.block_ops@.map_values(|op: Operation| op_view(op)),
            decls: self.block_decls@,
            blocks: self.blocks@.map_values(|b: BasicBlock| block_view(b)),
        }
    }

    /// What the builder keeps true between statements: variables are bound once, labels are pairwise distinct, drawn from the counter and start with the entry label,
    /// control falls through from each finished block to the next one, and string ids name
    /// interned strings.
    pub open spec fn wf(&self) -> bool {
        &&& names_distinct(self.var_to_vreg@)
        &&& self.all_labels().no_duplicates()
        &&& forall|i: int|
            0 <= i < self.all_labels().len() ==> label_below(
                #[trigger] self.all_labels()[i],
                self.label_counter,
            )
        &&& self.all_labels()[0] == Label::Entry
        &&& forall|i: int|
            0 <= i < self.blocks.len() ==> falls_through(
                #[trigger] self.blocks@[i],
                self.all_labels()[i + 1],
            )
        &&& forall|i: int|
            0 <= i < self.blocks.len() ==> block_in_table(
                #[trigger] self.blocks@[i],
                self.ir.strings.len() as nat,
            )
        &&& ops_in_table(self.block_ops@, self.ir.strings.len() as nat)
    }

    /// Starts a function body whose parameters have the given registers. The entry block takes
    /// them as arguments; a name that occurs twice gets the later register. The register
    /// counter starts at 0 whatever registers the parameters hold, so the first fresh
    /// registers are numbered as the parameters are.
    pub fn new(ir: &'ir mut IR, initial_args: Vec<(String, VirtualReg)>) -> (b: Self)
        ensures
            *b.ir == *old(ir),
            *final(ir) == *final(b.ir),
            b.wf(),
            b.names() == initial_args@.map_values(|a: (String, VirtualReg)| a.0@).to_set(),
            forall|i: int|
                0 <= i < initial_args.len() && (forall|j: int|
                    i < j < initial_args.len() ==> initial_args@[j].0@ != initial_args@[i].0@)
                    ==> binds(b.var_to_vreg@, #[trigger] initial_args@[i].0@, initial_args@[i].1),
            b.blocks@.len() == 0,
            b.vreg_counter == 0,
            b.label_counter == 0,
            b.block_label == Label::Entry,
            b.block_args@ == initial_args@.map_values(|a: (String, VirtualReg)| a.1),
            b.block_ops@.len() == 0,
            b.block_decls@.len() == 0,
            b.state() == start_state(
                old(ir).string_table(),
                initial_args@.map_values(|a: (String, VirtualReg)| (a.0@, a.1)),
            ),
    {
        let ghost params = initial_args@.map_values(|a: (String, VirtualReg)| (a.0@, a.1));
        let mut block_args: Vec<VirtualReg> = Vec::new();
        let mut var_to_vreg: Vec<(String, VirtualReg)> = Vec::new();
        let n = initial_args.len();
        let ghost names = initial_args@.map_values(|a: (String, VirtualReg)| a.0@);
        let mut k: usize = 0;
        while k < n
            invariant
                n == initial_args.len(),
                0 <= k <= n,
                names == initial_args@.map_values(|a: (String, VirtualReg)| a.0@),
                block_args@ == initial_args@.subrange(0, k as int).map_values(
                    |a: (String, VirtualReg)| a.1,
                ),
                names_distinct(var_to_vreg@),
                params == initial_args@.map_values(|a: (String, VirtualReg)| (a.0@, a.1)),
                var_map(var_to_vreg@) == pairs_map(params.subrange(0, k as int)),
                bound_names(var_to_vreg@) == names.subrange(0, k as int).to_set(),
                forall|i: int|
                    0 <= i < k && (forall|j: int|
                        i < j < k ==> initial_args@[j].0@ != initial_args@[i].0@) ==> binds(
                        var_to_vreg@,
                        #[trigger] initial_args@[i].0@,
                        initial_args@[i].1,
                    ),
            decreases n - k,
        {
            let name = initial_args[k].0.clone();
            let vreg = initial_args[k].1;
            block_args.push(vreg);
            assert(initial_args@.subrange(0, k + 1).map_values(|a: (String, VirtualReg)| a.1)
                =~= initial_args@.subrange(0, k as int).map_values(|a: (String, VirtualReg)| a.1).push(vreg));
            let ghost m0 = var_to_vreg@;
            bind(&mut var_to_vreg, name, vreg);
            proof {
                lemma_var_map_update(m0, var_to_vreg@, name@, vreg);
                assert(params.subrange(0, k + 1).drop_last() =~= params.subrange(0, k as int));
                assert(names.subrange(0, k + 1) =~= names.subrange(0, k as int).push(names[k as int]));
                lemma_to_set_push(names.subrange(0, k as int), names[k as int]);
            }
            k = k + 1;
        }
        assert(names.subrange(0, n as int) =~= names);
        assert(initial_args@.subrange(0, n as int) =~= initial_args@);
        let b = BlockBuilder {
            ir,
            blocks: Vec::new(),
            var_to_vreg,
            vreg_counter: 0,
            label_counter: 0,
            block_label: Label::Entry,
            block_args,
            block_ops: Vec::new(),
            block_decls: Vec::new(),
        };
        assert(b.all_labels() =~= seq![Label::Entry]);
        assert(params.subrange(0, n as int) =~= params);
        assert(b.block_args@ =~= params.map_values(|p: (Seq<char>, VirtualReg)| p.1));
        assert(b.blocks@.map_values(|bb: BasicBlock| block_view(bb)) =~= Seq::<BlockView>::empty());
        assert(b.block_ops@.map_values(|o: Operation| op_view(o)) =~= Seq::<OpView>::empty());
        assert(b.block_decls@ =~= Seq::<VirtualReg>::empty());
        b
    }
}

impl<'ir> BlockBuilder<'ir> {
    /// `a` and `b` agree on everything except the register counter and the operations of the
    /// open block.
    pub open spec fn same_but_regs_ops(a: Self, b: Self) -> bool {
        &&& *a.ir == *b.ir
        &&& a.blocks == b.blocks
        &&& a.var_to_vreg == b.var_to_vreg
        &&& a.label_counter == b.label_counter
        &&& a.block_label == b.block_label
        &&& a.block_args == b.block_args
        &&& a.block_decls == b.block_decls
    }

    fn get_vreg(&mut self) -> (r: VirtualReg)
        requires
            old(self).vreg_counter < u32::MAX,
        ensures
            r == VirtualReg(old(self).vreg_counter),
            (final(self).state(), r) == fresh(old(self).state()),
            final(self).vreg_counter == old(self).vreg_counter + 1,
            final(self).block_ops == old(self).block_ops,
            Self::same_but_regs_ops(*final(self), *old(self)),
            *final(final(self).ir) == *final(old(self).ir),
    {
        let vreg = VirtualReg(self.vreg_counter);
        self.vreg_counter += 1;
        vreg
    }

    fn next_label(&mut self) -> (l: Label)
        requires
            old(self).label_counter < u32::MAX,
        ensures
            l == Label::Anon(old(self).label_counter),
            (final(self).state(), l) == draw_label(old(self).state()),
            final(self).label_counter == old(self).label_counter + 1,
            *final(self).ir == *old(self).ir,
            final(self).blocks == old(self).blocks,
            final(self).var_to_vreg == old(self).var_to_vreg,
            final(self).vreg_counter == old(self).vreg_counter,
            final(self).block_label == old(self).block_label,
            final(self).block_args == old(self).block_args,
            final(self).block_ops == old(self).block_ops,
            final(self).block_decls == old(self).block_decls,
            *final(final(self).ir) == *final(old(self).ir),
    {
        let label = Label::Anon(self.label_counter);
        self.label_counter += 1;
        label
    }

    /// Moves `src` into a register, unless it is one: an immediate or a string goes to a fresh
    /// register through an assignment.
    fn src_to_vreg(&mut self, src: SourceVal) -> (r: VirtualReg)
        requires
            src is VReg || old(self).vreg_counter < u32::MAX,
        ensures
            Self::same_but_regs_ops(*final(self), *old(self)),
            *final(final(self).ir) == *final(old(self).ir),
            (final(self).state(), r) == to_reg(old(self).state(), src),
            match src {
                SourceVal::VReg(v) => {
                    &&& r == v
                    &&& final(self).vreg_counter == old(self).vreg_counter
                    &&& final(self).block_ops == old(self).block_ops
                },
                _ => {
                    &&& r == VirtualReg(old(self).vreg_counter)
                    &&& final(self).vreg_counter == old(self).vreg_counter + 1
                    &&& final(self).block_ops@ == old(self).block_ops@.push(
                        Operation::Assign { src, dest: r },
                    )
                },
            },
    {
        match src {
            SourceVal::Immediate(_) | SourceVal::String(_) => {
                let dest = self.get_vreg();
                self.emit(Op::Assign { src, dest });
                dest
            },
            SourceVal::VReg(vreg) => vreg,
        }
    }

    /// The register of a defined variable.
    fn expect_vreg(&self, var: &String) -> (r: VirtualReg)
        requires
            self.names().contains(var@),
        ensures
            binds(self.var_to_vreg@, var@, r),
            names_distinct(self.var_to_vreg@) ==> r == self.state().vars[var@],
    {
        let ghost m = self.var_to_vreg@;
        let mut i: usize = 0;
        while i < self.var_to_vreg.len()
            invariant
                m == self.var_to_vreg@,
                bound_names(m).contains(var@),
                0 <= i <= m.len(),
                forall|j: int| 0 <= j < i ==> (#[trigger] m[j]).0@ != var@,
            decreases m.len() - i,
        {
            if self.var_to_vreg[i].0 == *var {
                assert(m[i as int].0@ == var@);
                proof {
                    if names_distinct(m) {
                        lemma_var_map_lookup(m, var@, m[i as int].1);
                    }
                }
                return self.var_to_vreg[i].1;
            }
            i = i + 1;
        }
        proof {
            let j = choose|j: int| 0 <= j < m.len() && (#[trigger] m[j]).0@ == var@;
            assert(m[j].0@ != var@);
        }
        VirtualReg(0)
    }

    /// The register of a variable, which gets a fresh one if it has none yet.
    fn get_or_insert_vreg(&mut self, var: String) -> (r: VirtualReg)
        requires
            old(self).names().contains(var@) || old(self).vreg_counter < u32::MAX,
            names_distinct(old(self).var_to_vreg@),
        ensures
            names_distinct(final(self).var_to_vreg@),
            final(self).names() == old(self).names().insert(var@),
            binds(final(self).var_to_vreg@, var@, r),
            (final(self).state(), r) == bind_var(old(self).state(), var@),
            old(self).names().contains(var@) ==> {
                &&& binds(old(self).var_to_vreg@, var@, r)
                &&& final(self).var_to_vreg == old(self).var_to_vreg
                &&& final(self).vreg_counter == old(self).vreg_counter
            },
            !old(self).names().contains(var@) ==> {
                &&& r == VirtualReg(old(self).vreg_counter)
                &&& final(self).vreg_counter == old(self).vreg_counter + 1
                &&& final(self).var_to_vreg@ == old(self).var_to_vreg@.push((var, r))
            },
            forall|x: Seq<char>, v: VirtualReg|
                binds(old(self).var_to_vreg@, x, v) ==> binds(final(self).var_to_vreg@, x, v),
            *final(self).ir == *old(self).ir,
            final(self).blocks == old(self).blocks,
            final(self).label_counter == old(self).label_counter,
            final(self).block_label == old(self).block_label,
            final(self).block_args == old(self).block_args,
            final(self).block_ops == old(self).block_ops,
            final(self).block_decls == old(self).block_decls,
            *final(final(self).ir) == *final(old(self).ir),
    {
        let ghost m = self.var_to_vreg@;
        let mut i: usize = 0;
        while i < self.var_to_vreg.len()
            invariant
                m == self.var_to_vreg@,
                m == old(self).var_to_vreg@,
                names_distinct(m),
                0 <= i <= m.len(),
                forall|j: int| 0 <= j < i ==> (#[trigger] m[j]).0@ != var@,
            decreases m.len() - i,
        {
            if self.var_to_vreg[i].0 == var {
                assert(m[i as int].0@ == var@);
                assert(bound_names(m).contains(var@));
                assert(bound_names(m).insert(var@) =~= bound_names(m));
                proof {
                    lemma_var_map_lookup(m, var@, m[i as int].1);
                }
                return self.var_to_vreg[i].1;
            }
            i = i + 1;
        }
        assert(!bound_names(m).contains(var@)) by {
            if bound_names(m).contains(var@) {
                let j = choose|j: int| 0 <= j < m.len() && (#[trigger] m[j]).0@ == var@;
                assert(m[j].0@ != var@);
            }
        }
        let vreg = self.get_vreg();
        self.var_to_vreg.push((var, vreg));
        proof {
            lemma_bound_names_push(m, var, vreg);
            assert(!old(self).state().vars.contains_key(var@));
            let m2 = self.var_to_vreg@;
            assert forall|a: int, b: int|
                0 <= a < m2.len() && 0 <= b < m2.len() && a != b implies (#[trigger] m2[a]).0@
                != (#[trigger] m2[b]).0@ by {
                if a < m.len() && b < m.len() {
                    assert(m[a] == m2[a] && m[b] == m2[b]);
                } else if a < m.len() {
                    assert(m[a] == m2[a]);
                    assert(bound_names(m).contains(m2[a].0@));
                } else {
                    assert(m[b] == m2[b]);
                    assert(bound_names(m).contains(m2[b].0@));
                }
            }
            lemma_var_map_update(m, m2, var@, vreg);
            assert(self.state() == bind_var(old(self).state(), var@).0);
        }
        vreg
    }

    /// Appends an operation to the open block.
    fn emit(&mut self, op: Op)
        ensures
            final(self).state() == emit(old(self).state(), op_view(op)),
            final(self).block_ops@ == old(self).block_ops@.push(op),
            final(self).vreg_counter == old(self).vreg_counter,
            Self::same_but_regs_ops(*final(self), *old(self)),
            *final(final(self).ir) == *final(old(self).ir),
    {
        self.block_ops.push(op);
        assert(self.block_ops@.map_values(|o: Operation| op_view(o)) =~= old(self).block_ops@.map_values(
            |o: Operation| op_view(o),
        ).push(op_view(op)));
    }

    /// Finishes the open block with `terminator` and opens a new one labelled `new_label`.
    fn commit_block(&mut self, terminator: Terminator, new_label: Label)
        ensures
            final(self).blocks@ == old(self).blocks@.push(
                BasicBlock {
                    label: old(self).block_label,
                    args: old(self).block_args,
                    ops: old(self).block_ops,
                    terminator,
                },
            ),
            final(self).all_labels() == old(self).all_labels().push(new_label),
            final(self).state() == commit(old(self).state(), terminator, new_label),
            final(self).block_label == new_label,
            final(self).block_args@.len() == 0,
            final(self).block_ops@.len() == 0,
            final(self).block_decls@.len() == 0,
            *final(self).ir == *old(self).ir,
            final(self).var_to_vreg == old(self).var_to_vreg,
            final(self).vreg_counter == old(self).vreg_counter,
            final(self).label_counter == old(self).label_counter,
            *final(final(self).ir) == *final(old(self).ir),
            ({
                &&& old(self).wf()
                &&& !old(self).all_labels().contains(new_label)
                &&& label_below(new_label, old(self).label_counter)
                &&& falls_through(
                    BasicBlock {
                        label: old(self).block_label,
                        args: old(self).block_args,
                        ops: old(self).block_ops,
                        terminator,
                    },
                    new_label,
                )
                &&& terminator_in_table(terminator, old(self).ir.strings.len() as nat)
            }) ==> final(self).wf(),
    {
        let ghost cond = {
            &&& old(self).wf()
            &&& !old(self).all_labels().contains(new_label)
            &&& label_below(new_label, old(self).label_counter)
            &&& terminator_in_table(terminator, old(self).ir.strings.len() as nat)
        };
        let mut label = new_label;
        std::mem::swap(&mut label, &mut self.block_label);
        let mut args: Vec<VirtualReg> = Vec::new();
        std::mem::swap(&mut args, &mut self.block_args);
        let mut ops: Vec<Op> = Vec::new();
        std::mem::swap(&mut ops, &mut self.block_ops);

        self.block_decls.clear();

        self.blocks.push(BasicBlock { label, args, ops, terminator });
        assert(self.all_labels() =~= old(self).all_labels().push(new_label));
        assert(self.blocks@.map_values(|b: BasicBlock| block_view(b)) =~= old(self).blocks@.map_values(
            |b: BasicBlock| block_view(b),
        ).push(block_view(self.blocks@.last())));
        assert(self.block_ops@.map_values(|o: Operation| op_view(o)) =~= Seq::<OpView>::empty());
        assert(self.block_args@ =~= Seq::<VirtualReg>::empty());
        assert(self.block_decls@ =~= Seq::<VirtualReg>::empty());
        proof {
            if cond && falls_through(self.blocks@.last(), new_label) {
                let l0 = old(self).all_labels();
                let l1 = self.all_labels();
                assert(l1.no_duplicates()) by {
                    assert forall|i: int, j: int|
                        0 <= i < l1.len() && 0 <= j < l1.len() && i != j implies l1[i] != l1[j] by {
                        if i < l0.len() && j < l0.len() {
                            assert(l0[i] != l0[j]);
                        } else if i < l0.len() {
                            assert(l0.contains(l1[i]));
                        } else {
                            assert(l0.contains(l1[j]));
                        }
                    }
                }
                assert forall|i: int| 0 <= i < self.blocks.len() implies falls_through(
                    #[trigger] self.blocks@[i],
                    self.all_labels()[i + 1],
                ) by {
                    if i + 1 < self.blocks.len() {
                        assert(self.blocks@[i] == old(self).blocks@[i]);
                        assert(l1[i + 1] == l0[i + 1]);
                    }
                }
                assert forall|i: int| 0 <= i < self.blocks.len() implies block_in_table(
                    #[trigger] self.blocks@[i],
                    self.ir.strings.len() as nat,
                ) by {
                    if i + 1 < self.blocks.len() {
                        assert(self.blocks@[i] == old(self).blocks@[i]);
                    }
                }
                assert(ops_in_table(self.block_ops@, self.ir.strings.len() as nat));
            }
        }
    }
}

/// `e` without the casts around it: lowering ignores casts.
pub open spec fn strip_casts(e: Expression) -> Expression
    decreases e,
{
    match e.inner {
        ExprInner::Cast(x, _) => strip_casts(*x),
        _ => e,
    }
}

/// Lowering `e` computes a value into a register, with an operation of its own; the other
/// expressions lower to a value that an operation can use as it is.
pub open spec fn computes(e: Expression) -> bool {
    match e.inner {
        ExprInner::Pointer(_) => true,
        ExprInner::Deref(_, _) => true,
        ExprInner::Arithmetic(_, _, _, _) => true,
        ExprInner::Comparison(_, _, _, _) => true,
        ExprInner::FnCall(_, _) => true,
        _ => false,
    }
}

/// `op` is the operation that computes the value of `e` (which `computes`) into `d`, where the
/// variables have the registers that `m` binds.
pub open spec fn computing_op(
    e: Expression,
    op: Operation,
    d: VirtualReg,
    m: Seq<(String, VirtualReg)>,
) -> bool {
    match e.inner {
        ExprInner::Pointer(v) => exists|x: VirtualReg|
            binds(m, v@, x) && op == (Operation::AddressOf { val: x, dest: d }),
        ExprInner::Deref(v, t) => exists|x: VirtualReg|
            binds(m, v@, x) && op == (Operation::LoadPointer {
                ptr: x,
                size: t.unwrap().size,
                dest: d,
            }),
        ExprInner::Arithmetic(_, _, aop, _) => match aop {
            ArithmeticOp::Add => op matches Operation::Add { dest, .. } && dest == d,
            ArithmeticOp::Sub => op matches Operation::Subtract { dest, .. } && dest == d,
            ArithmeticOp::Mult => op matches Operation::Multiply { dest, .. } && dest == d,
            ArithmeticOp::Div => op matches Operation::Divide { dest, .. } && dest == d,
        },
        ExprInner::Comparison(_, _, cop, sign) => op matches Operation::Compare { cond, dest, .. }
            && dest == d && cond == condition_of(cop, sign == Some(Sign::Signed)),
        ExprInner::FnCall(f, args) => op matches Operation::Call { function, args: regs, dest }
            && function@ == f@ && regs@.len() == args@.len() && dest == Some(d),
        _ => false,
    }
}

/// `r` is the value that `e` (which does not `computes`) lowers to, where `table` holds the
/// interned strings and the variables have the registers that `m` binds.
pub open spec fn plain_value(
    e: Expression,
    r: SourceVal,
    table: Seq<Seq<char>>,
    m: Seq<(String, VirtualReg)>,
) -> bool {
    match e.inner {
        ExprInner::Const(n) => r == SourceVal::Immediate(n),
        ExprInner::Character(c) => r == SourceVal::Immediate(c as u32 as i64),
        ExprInner::Bool(b) => r == SourceVal::Immediate(if b { 1 } else { 0 }),
        ExprInner::String(s) => r matches SourceVal::String(id) && 0 <= id < table.len()
            && table[id as int] == s@,
        ExprInner::Variable(v) => r matches SourceVal::VReg(x) && binds(m, v@, x),
        _ => false,
    }
}

impl<'ir> BlockBuilder<'ir> {
    /// Lowers an expression into operations of the open block and returns the value it
    /// computes. An expression that needs an operation of its own writes its result to `dest`
    /// when one is given, else to a fresh register; a constant, a string literal or a variable
    /// is returned as it is, and a cast lowers as the expression it casts.
    #[verifier::spinoff_prover]
    #[verifier::rlimit(50)]
    fn unroll_expr(&mut self, expr: Expression, dest: Option<VirtualReg>) -> (r: SourceVal)
        requires
            names_distinct(old(self).var_to_vreg@),
            expr_ok(old(self).names(), expr),
            old(self).vreg_counter + expr_regs(expr, dest is Some) <= u32::MAX,
            ops_in_table(old(self).block_ops@, old(self).ir.strings.len() as nat),
        ensures
            old(self).ir.strings_wf() ==> final(self).ir.strings_wf(),
            final(self).ir.items == old(self).ir.items,
            final(self).table().len() >= old(self).table().len(),
            final(self).table().subrange(0, old(self).table().len() as int) == old(self).table(),
            forall|s: Seq<char>| #[trigger] expr_strs(expr).contains(s) ==> final(self).table().contains(s),
            src_in_table(r, final(self).ir.strings.len() as nat),
            (final(self).state(), r) == lower_expr(old(self).state(), expr, dest),
            ops_in_table(final(self).block_ops@, final(self).ir.strings.len() as nat),
            old(self).vreg_counter <= final(self).vreg_counter,
            final(self).vreg_counter <= old(self).vreg_counter + expr_regs(expr, dest is Some),
            !(r is VReg) ==> needs_reg(expr) == 1,
            final(self).block_ops@.len() >= old(self).block_ops@.len(),
            final(self).block_ops@.subrange(0, old(self).block_ops@.len() as int) == old(self).block_ops@,
            final(self).blocks == old(self).blocks,
            final(self).var_to_vreg == old(self).var_to_vreg,
            final(self).label_counter == old(self).label_counter,
            final(self).block_label == old(self).block_label,
            final(self).block_args == old(self).block_args,
            final(self).block_decls == old(self).block_decls,
            *final(final(self).ir) == *final(old(self).ir),
            computes(strip_casts(expr)) ==> {
                &&& r matches SourceVal::VReg(d) && (match dest {
                    Some(x) => d == x,
                    None => old(self).vreg_counter <= d.0 < final(self).vreg_counter,
                })
                &&& final(self).block_ops@.len() > old(self).block_ops@.len()
                &&& computing_op(strip_casts(expr), final(self).block_ops@.last(), r->VReg_0,
                    old(self).var_to_vreg@)
            },
            !computes(strip_casts(expr)) ==> {
                &&& plain_value(strip_casts(expr), r, final(self).table(), old(self).var_to_vreg@)
                &&& final(self).block_ops == old(self).block_ops
                &&& final(self).vreg_counter == old(self).vreg_counter
            },
        decreases expr,
    {
        match expr.inner {
            ExprInner::Const(num) => {
                assert(expr_strs(expr) =~= Set::empty());
                SourceVal::Immediate(num)
            },
            ExprInner::Character(c) => {
                assert(expr_strs(expr) =~= Set::empty());
                SourceVal::Immediate(c as u32 as i64)
            },
            ExprInner::String(string) => {
                let ghost t0 = self.table();
                let str_id = self.ir.alloc_str_literal(string);
                proof {
                    crate::ir::law_intern_keeps_ids(t0, string@);
                    assert(self.table()[str_id as int] == string@);
                    assert(expr_strs(expr) =~= set![string@]);
                    assert(self.table().contains(string@));
                }
                SourceVal::String(str_id)
            },
            ExprInner::Bool(b) => {
                assert(expr_strs(expr) =~= Set::empty());
                SourceVal::Immediate(if b { 1 } else { 0 })
            },
            ExprInner::Variable(var) => {
                assert(expr_strs(expr) =~= Set::empty());
                SourceVal::VReg(self.expect_vreg(&var))
            },
            ExprInner::Pointer(var) => {
                assert(expr_strs(expr) =~= Set::empty());
                let val = self.expect_vreg(&var);
                let dest = match dest {
                    Some(d) => d,
                    None => self.get_vreg(),
                };
                self.emit(Op::AddressOf { val, dest });
                SourceVal::VReg(dest)
            },
            ExprInner::Deref(var, typ) => {
                assert(expr_strs(expr) =~= Set::empty());
                let ptr = self.expect_vreg(&var);
                let dest = match dest {
                    Some(d) => d,
                    None => self.get_vreg(),
                };
                let size = match typ {
                    Some(t) => t.size(),
                    None => {
                        assert(false);
                        crate::ir::VarSize::Zero
                    },
                };
                self.emit(Op::LoadPointer { ptr, size, dest });
                SourceVal::VReg(dest)
            },
            ExprInner::Arithmetic(expr1, expr2, op, _sign) => {
                let ghost t0 = self.table();
                let ghost e1 = *expr1;
                let ghost e2 = *expr2;
                assert(expr_strs(expr) == expr_strs(e1) + expr_strs(e2));
                let a = self.unroll_expr(*expr1, None);
                let ghost t1 = self.table();
                let b = self.unroll_expr(*expr2, None);
                proof {
                    lemma_table_grows(t1, self.table());
                    lemma_table_grows(t0, t1);
                    assert(self.table().subrange(0, t0.len() as int) =~= t1.subrange(0, t0.len() as int));
                }

                let a = self.src_to_vreg(a);
                let b = self.src_to_vreg(b);

                let dest = match dest {
                    Some(d) => d,
                    None => self.get_vreg(),
                };

                match op {
                    ArithmeticOp::Add => self.emit(Op::Add { a, b, dest }),
                    ArithmeticOp::Sub => self.emit(Op::Subtract { a, b, dest }),
                    ArithmeticOp::Mult => self.emit(Op::Multiply { a, b, dest }),
                    ArithmeticOp::Div => self.emit(Op::Divide { a, b, dest }),
                }

                SourceVal::VReg(dest)
            },
            ExprInner::Comparison(expr1, expr2, op, sign) => {
                let ghost t0 = self.table();
                let ghost e1 = *expr1;
                let ghost e2 = *expr2;
                assert(expr_strs(expr) == expr_strs(e1) + expr_strs(e2));
                let expr1 = self.unroll_expr(*expr1, None);
                let ghost t1 = self.table();
                let expr2 = self.unroll_expr(*expr2, None);
                proof {
                    lemma_table_grows(t1, self.table());
                    lemma_table_grows(t0, t1);
                    assert(self.table().subrange(0, t0.len() as int) =~= t1.subrange(0, t0.len() as int));
                }

                let expr1 = self.src_to_vreg(expr1);
                let expr2 = self.src_to_vreg(expr2);

                let dest = match dest {
                    Some(d) => d,
                    None => self.get_vreg(),
                };

                let signed = match sign {
                    Some(Sign::Signed) => true,
                    _ => false,
                };
                self.emit(
                    Op::Compare {
                        a: expr1,
                        b: expr2,
                        cond: Condition::from_ast_op(op, signed),
                        dest,
                    },
                );

                SourceVal::VReg(dest)
            },
            ExprInner::FnCall(function, args) => {
                let mut args = args;
                let ghost all = args@;
                assert(expr_regs(expr, dest is Some) == exprs_regs(all) + (if dest is Some { 0nat } else { 1nat }));
                assert(expr_strs(expr) == exprs_strs(all));
                let mut regs: Vec<VirtualReg> = Vec::new();
                let ghost target = crate::ir::lowering::lower_args(old(self).state(), all);
                while args.len() > 0
                    invariant
                        crate::ir::lowering::lower_args(self.state(), args@).0 == target.0,
                        regs@ + crate::ir::lowering::lower_args(self.state(), args@).1 == target.1,
                        target == crate::ir::lowering::lower_args(old(self).state(), all),
                        all.len() == regs@.len() + args@.len(),
                        args@ == all.subrange(regs@.len() as int, all.len() as int),
                        decreases_to!(expr => all),
                        old(self).vreg_counter + exprs_regs(all) + (if dest is Some { 0nat } else { 1nat }) <= u32::MAX,
                        old(self).ir.strings_wf() ==> self.ir.strings_wf(),
                        names_distinct(self.var_to_vreg@),
                        exprs_ok(self.names(), args@),
                        self.vreg_counter + exprs_regs(args@) <= old(self).vreg_counter + exprs_regs(all),
                        old(self).vreg_counter <= self.vreg_counter,
                        ops_in_table(self.block_ops@, self.ir.strings.len() as nat),
                        self.ir.items == old(self).ir.items,
                        self.table().len() >= old(self).table().len(),
                        self.table().subrange(0, old(self).table().len() as int) == old(self).table(),
                        forall|s: Seq<char>| #[trigger] exprs_strs(all).contains(s) ==>
                            self.table().contains(s) || exprs_strs(args@).contains(s),
                        self.block_ops@.len() >= old(self).block_ops@.len(),
                        self.block_ops@.subrange(0, old(self).block_ops@.len() as int) == old(self).block_ops@,
                        self.blocks == old(self).blocks,
                        self.var_to_vreg == old(self).var_to_vreg,
                        self.label_counter == old(self).label_counter,
                        self.block_label == old(self).block_label,
                        self.block_args == old(self).block_args,
                        self.block_decls == old(self).block_decls,
                        *final(self.ir) == *final(old(self).ir),
                    decreases args@.len(),
                {
                    let ghost k = regs@.len() as int;
                    let ghost before = args@;
                    let ghost st = self.state();
                    let ghost regs0 = regs@;
                    let e = args.remove(0);
                    assert(e == all[k]);
                    assert(args@ == before.drop_first());
                    assert(exprs_regs(before) == expr_regs(e, false) + needs_reg(e) + exprs_regs(args@));
                    assert(exprs_ok(self.names(), args@));
                    assert(exprs_strs(before) == expr_strs(e) + exprs_strs(args@));
                    assert(decreases_to!(expr => e));
                    let ghost t1 = self.table();
                    let src = self.unroll_expr(e, None);
                    proof {
                        lemma_table_grows(t1, self.table());
                        assert(self.table().subrange(0, old(self).table().len() as int)
                            =~= t1.subrange(0, old(self).table().len() as int));
                    }
                    let r = self.src_to_vreg(src);
                    regs.push(r);
                    assert(args@ =~= all.subrange(regs@.len() as int, all.len() as int));
                    proof {
                        let l_old = crate::ir::lowering::lower_args(st, before);
                        let l_new = crate::ir::lowering::lower_args(self.state(), args@);
                        assert(l_old.0 == l_new.0);
                        assert(l_old.1 == seq![r] + l_new.1);
                        assert(regs@ + l_new.1 =~= regs0 + l_old.1);
                    }
                }
                assert(regs@ =~= regs@ + Seq::<VirtualReg>::empty());
                let dest = match dest {
                    Some(d) => d,
                    None => self.get_vreg(),
                };

                self.emit(Op::Call { function, args: regs, dest: Some(dest) });
                assert(exprs_strs(args@) =~= Set::empty());

                SourceVal::VReg(dest)
            },
            ExprInner::Cast(inner, _typ) => {
                assert(expr_strs(expr) == expr_strs(*inner));
                assert(expr_regs(expr, dest is Some) == expr_regs(*inner, dest is Some));
                assert(needs_reg(expr) == needs_reg(*inner));
                assert(strip_casts(expr) == strip_casts(*inner));
                self.unroll_expr(*inner, dest)
            },
        }
    }
}

impl<'ir> BlockBuilder<'ir> {
    /// What lowering code keeps when the builder goes from `a` to `b`: functions, interned
    /// strings (with their ids), finished blocks and the bindings of variables stay; counters
    /// only grow; and every new label is the label of the block that was open in `a` or one
    /// drawn in between.
    pub open spec fn grows(a: Self, b: Self) -> bool {
        &&& b.ir.items == a.ir.items
        &&& b.table().len() >= a.table().len()
        &&& b.table().subrange(0, a.table().len() as int) == a.table()
        &&& a.vreg_counter <= b.vreg_counter
        &&& a.label_counter <= b.label_counter
        &&& b.blocks@.len() >= a.blocks@.len()
        &&& b.blocks@.subrange(0, a.blocks@.len() as int) == a.blocks@
        &&& forall|i: int|
            a.blocks@.len() <= i < b.all_labels().len() ==> (#[trigger] b.all_labels()[i]
                == a.block_label || label_between(b.all_labels()[i], a.label_counter, b.label_counter))
        &&& forall|x: Seq<char>, v: VirtualReg|
            #[trigger] binds(a.var_to_vreg@, x, v) ==> binds(b.var_to_vreg@, x, v)
        &&& forall|l: Label| #[trigger] a.all_labels().contains(l) ==> b.all_labels().contains(l)
    }

    /// `grows`, where a new last block does not end in a conditional branch, and every label
    /// that a new block branches to is the return label or that of a block in `b` (finished or
    /// open): lowering a whole statement leaves no branch to a block that is yet to come.
    pub open spec fn extends(a: Self, b: Self) -> bool {
        &&& Self::grows(a, b)
        &&& b.blocks@.len() > a.blocks@.len() ==> !(b.blocks@.last().terminator is BranchCond)
        &&& forall|i: int|
            a.blocks@.len() <= i < b.blocks@.len() ==> targets_in(#[trigger] b.blocks@[i], b.all_labels())
    }

    proof fn lemma_extends_refl(a: Self)
        ensures
            Self::extends(a, a),
    {
        assert(a.table().subrange(0, a.table().len() as int) =~= a.table());
        assert(a.blocks@.subrange(0, a.blocks@.len() as int) =~= a.blocks@);
    }

    proof fn lemma_grows_trans(a: Self, b: Self, c: Self)
        requires
            Self::grows(a, b),
            Self::grows(b, c),
        ensures
            Self::grows(a, c),
    {
        assert(c.table().subrange(0, a.table().len() as int) =~= b.table().subrange(
            0,
            a.table().len() as int,
        )) by {
            assert forall|i: int| 0 <= i < a.table().len() implies c.table()[i] == b.table()[i] by {
                assert(c.table().subrange(0, b.table().len() as int)[i] == c.table()[i]);
            }
        }
        assert(c.blocks@.subrange(0, a.blocks@.len() as int) =~= b.blocks@.subrange(
            0,
            a.blocks@.len() as int,
        )) by {
            assert forall|i: int| 0 <= i < a.blocks@.len() implies c.blocks@[i] == b.blocks@[i] by {
                assert(c.blocks@.subrange(0, b.blocks@.len() as int)[i] == c.blocks@[i]);
            }
        }
        assert forall|i: int| a.blocks@.len() <= i < c.all_labels().len() implies (#[trigger] c.all_labels()[i]
            == a.block_label || label_between(c.all_labels()[i], a.label_counter, c.label_counter)) by {
            if i < b.blocks@.len() {
                assert(c.blocks@.subrange(0, b.blocks@.len() as int)[i] == c.blocks@[i]);
                assert(c.all_labels()[i] == b.all_labels()[i]);
            } else if c.all_labels()[i] == b.block_label {
                assert(b.all_labels()[b.blocks@.len() as int] == b.block_label);
            }
        }
    }

    proof fn lemma_extends_trans(a: Self, b: Self, c: Self)
        requires
            Self::extends(a, b),
            Self::extends(b, c),
        ensures
            Self::extends(a, c),
    {
        Self::lemma_grows_trans(a, b, c);
        if c.blocks@.len() > a.blocks@.len() && c.blocks@.len() == b.blocks@.len() {
            assert(c.blocks@.subrange(0, b.blocks@.len() as int)[b.blocks@.len() - 1]
                == c.blocks@[b.blocks@.len() - 1]);
        }
        assert forall|i: int| a.blocks@.len() <= i < c.blocks@.len() implies targets_in(
            #[trigger] c.blocks@[i],
            c.all_labels(),
        ) by {
            if i < b.blocks@.len() {
                assert(c.blocks@.subrange(0, b.blocks@.len() as int)[i] == c.blocks@[i]);
                lemma_targets_in_mono(b.blocks@[i], b.all_labels(), c.all_labels());
            }
        }
    }
}

/// Every label that block `b` may branch to is the return label or one of `labels`.
pub open spec fn targets_in(b: BasicBlock, labels: Seq<Label>) -> bool {
    forall|j: int|
        0 <= j < terminator_targets(b.terminator).len() ==> (#[trigger] terminator_targets(
            b.terminator,
        )[j]) == Label::Ret || labels.contains(terminator_targets(b.terminator)[j])
}

proof fn lemma_targets_in_mono(b: BasicBlock, l1: Seq<Label>, l2: Seq<Label>)
    requires
        targets_in(b, l1),
        forall|l: Label| #[trigger] l1.contains(l) ==> l2.contains(l),
    ensures
        targets_in(b, l2),
{
    assert forall|j: int| 0 <= j < terminator_targets(b.terminator).len() implies (#[trigger] terminator_targets(
        b.terminator,
    )[j]) == Label::Ret || l2.contains(terminator_targets(b.terminator)[j]) by {
        if terminator_targets(b.terminator)[j] != Label::Ret {
            assert(l1.contains(terminator_targets(b.terminator)[j]));
        }
    }
}

/// Pushing onto a sequence keeps what it contains.
proof fn lemma_contains_push(s: Seq<Label>, x: Label)
    ensures
        forall|l: Label| #[trigger] s.contains(l) ==> s.push(x).contains(l),
        s.push(x).contains(x),
{
    assert forall|l: Label| #[trigger] s.contains(l) implies s.push(x).contains(l) by {
        let i = choose|i: int| 0 <= i < s.len() && s[i] == l;
        assert(s.push(x)[i] == l);
    }
    assert(s.push(x)[s.len() as int] == x);
}

/// `r` occurs in `v`.
fn contains_vreg(v: &Vec<VirtualReg>, r: VirtualReg) -> (b: bool)
    ensures
        b == v@.contains(r),
{
    let mut i: usize = 0;
    while i < v.len()
        invariant
            0 <= i <= v.len(),
            forall|j: int| 0 <= j < i ==> v@[j] != r,
        decreases v.len() - i,
    {
        if v[i] == r {
            assert(v@[i as int] == r);
            return true;
        }
        i = i + 1;
    }
    false
}

impl<'ir> BlockBuilder<'ir> {
    /// Lowers one statement into the open block, finishing blocks where control flow branches.
    #[verifier::spinoff_prover]
    #[verifier::rlimit(50)]
    fn consume_stmt(&mut self, stmt: Statement)
        requires
            old(self).wf(),
            stmt_ok(old(self).names(), stmt),
            old(self).vreg_counter + stmt_regs(old(self).names(), stmt) <= u32::MAX,
            old(self).label_counter + stmt_labels(stmt) <= u32::MAX,
        ensures
            final(self).wf(),
            Self::extends(*old(self), *final(self)),
            final(self).names() == stmt_defs(old(self).names(), stmt),
            final(self).state() == lower_stmt(old(self).state(), stmt),
            final(self).vreg_counter <= old(self).vreg_counter + stmt_regs(old(self).names(), stmt),
            final(self).label_counter <= old(self).label_counter + stmt_labels(stmt),
            forall|s: Seq<char>| #[trigger] stmt_strs(stmt).contains(s) ==> final(self).table().contains(s),
            old(self).ir.strings_wf() ==> final(self).ir.strings_wf(),
            *final(final(self).ir) == *final(old(self).ir),
        decreases stmt, 1nat,
    {
        let ghost s0 = *old(self);
        match stmt {
            Statement::Declare { var, expr } => {
                assert(stmt_strs(stmt) == expr_strs(expr));
                assert(!self.names().contains(var@));
                let dest = self.get_or_insert_vreg(var);
                let ghost s1 = *self;
                let src = self.unroll_expr(expr, Some(dest));
                if src != SourceVal::VReg(dest) {
                    self.emit(Op::Assign { src, dest });
                    self.block_decls.push(dest);
                }
                proof {
                    assert(self.block_ops@.subrange(0, s1.block_ops@.len() as int) =~= s1.block_ops@) by {
                        if src != SourceVal::VReg(dest) {
                            assert(self.block_ops@.subrange(0, s1.block_ops@.len() as int)
                                =~= self.block_ops@.drop_last().subrange(0, s1.block_ops@.len() as int));
                        }
                    }
                    assert(self.all_labels() =~= s0.all_labels());
                    assert(self.blocks@.subrange(0, s0.blocks@.len() as int) =~= s0.blocks@);
                    lemma_table_grows(s0.table(), self.table());
                }
            },
            Statement::Assign { var, expr } => {
                assert(stmt_strs(stmt) == expr_strs(expr));
                let dest = self.get_or_insert_vreg(var.symbol());
                let src = self.unroll_expr(expr, Some(dest));

                if !contains_vreg(&self.block_decls, dest) {
                    self.block_args.push(dest);
                }

                match var {
                    Assignable::Var(_) => {
                        let same = match src.reg() {
                            Some(r) => r == dest,
                            None => false,
                        };
                        if !same {
                            self.emit(Op::Assign { src, dest });
                        }
                    },
                    Assignable::Ptr(_) => {
                        assert(false);
                    },
                }
                proof {
                    assert(self.all_labels() =~= s0.all_labels());
                    assert(self.blocks@.subrange(0, s0.blocks@.len() as int) =~= s0.blocks@);
                    lemma_table_grows(s0.table(), self.table());
                }
            },
            Statement::Expr(expr) => {
                assert(stmt_strs(stmt) == expr_strs(expr));
                self.unroll_expr(expr, None);
                proof {
                    assert(self.all_labels() =~= s0.all_labels());
                    assert(self.blocks@.subrange(0, s0.blocks@.len() as int) =~= s0.blocks@);
                    lemma_table_grows(s0.table(), self.table());
                }
            },
            Statement::If { guard, body } => {
                self.consume_if(guard, body);
            },
            Statement::Return(expr) => {
                assert(stmt_strs(stmt) == expr_strs(expr));
                let value = self.unroll_expr(expr, None);
                let new_label = self.next_label();
                let ghost s1 = *self;
                proof {
                    assert(s1.all_labels() =~= s0.all_labels());
                    assert forall|i: int| 0 <= i < s1.all_labels().len() implies label_below(
                        #[trigger] s1.all_labels()[i],
                        s1.label_counter,
                    ) by {
                        assert(label_below(s0.all_labels()[i], s0.label_counter));
                    }
                    assert(!s1.all_labels().contains(new_label)) by {
                        if s1.all_labels().contains(new_label) {
                            let i = choose|i: int| 0 <= i < s1.all_labels().len() && s1.all_labels()[i] == new_label;
                            assert(label_below(s0.all_labels()[i], s0.label_counter));
                        }
                    }
                }
                self.commit_block(Terminator::Return { value }, new_label);
                proof {
                    lemma_contains_push(s1.all_labels(), new_label);
                    assert(terminator_targets(self.blocks@.last().terminator) =~= seq![Label::Ret]);
                    assert(self.blocks@.subrange(0, s0.blocks@.len() as int) =~= s0.blocks@);
                    lemma_table_grows(s0.table(), self.table());
                }
            },
            Statement::WhileLoop { .. } => {
                assert(false);
            },
        }
    }

    /// Lowers an `if`: the guard into a register, a conditional branch to two fresh labels, the
    /// body into the block of the first, and a branch from there to the second.
    #[verifier::spinoff_prover]
    #[verifier::rlimit(100)]
    fn consume_if(&mut self, guard: Expression, body: Vec<Statement>)
        requires
            old(self).wf(),
            stmt_ok(old(self).names(), (Statement::If { guard, body })),
            old(self).vreg_counter + stmt_regs(old(self).names(), (Statement::If { guard, body })) <= u32::MAX,
            old(self).label_counter + stmt_labels((Statement::If { guard, body })) <= u32::MAX,
        ensures
            final(self).wf(),
            Self::extends(*old(self), *final(self)),
            final(self).names() == stmt_defs(old(self).names(), (Statement::If { guard, body })),
            final(self).state() == lower_stmt(old(self).state(), (Statement::If { guard, body })),
            final(self).vreg_counter <= old(self).vreg_counter + stmt_regs(old(self).names(), (Statement::If { guard, body })),
            final(self).label_counter <= old(self).label_counter + stmt_labels((Statement::If { guard, body })),
            forall|s: Seq<char>| #[trigger] stmt_strs((Statement::If { guard, body })).contains(s)
                ==> final(self).table().contains(s),
            old(self).ir.strings_wf() ==> final(self).ir.strings_wf(),
            *final(final(self).ir) == *final(old(self).ir),
        decreases body, 1nat,
    {
        let ghost s0 = *old(self);
        let ghost stmt = Statement::If { guard, body };
        assert(stmt_strs(stmt) == expr_strs(guard) + stmts_strs(body@));
        let cond = self.unroll_expr(guard, None);
        let cond = self.src_to_vreg(cond);
        let ghost s1 = *self;

        let if_true = self.next_label();
        let if_false = self.next_label();
        let ghost s1b = *self;
        proof {
            assert(s1b.all_labels() =~= s0.all_labels());
            assert forall|i: int| 0 <= i < s1b.all_labels().len() implies label_below(
                #[trigger] s1b.all_labels()[i],
                s1b.label_counter,
            ) by {
                assert(label_below(s0.all_labels()[i], s0.label_counter));
            }
            assert(!s1b.all_labels().contains(if_true)) by {
                if s1b.all_labels().contains(if_true) {
                    let i = choose|i: int| 0 <= i < s1b.all_labels().len() && s1b.all_labels()[i] == if_true;
                    assert(label_below(s0.all_labels()[i], s0.label_counter));
                }
            }
        }
        self.commit_block(Terminator::BranchCond { cond, if_true, if_false }, if_true);
        let ghost s2 = *self;
        assert(s2.wf());
        self.consume(body);
        let ghost s3 = *self;
        proof {
            assert(!s3.all_labels().contains(if_false)) by {
                if s3.all_labels().contains(if_false) {
                    let i = choose|i: int| 0 <= i < s3.all_labels().len() && s3.all_labels()[i] == if_false;
                    if i < s2.blocks@.len() {
                        assert(s3.blocks@.subrange(0, s2.blocks@.len() as int)[i] == s3.blocks@[i]);
                        assert(s3.all_labels()[i] == s2.all_labels()[i]);
                        assert(s2.all_labels()[i] == s1b.all_labels()[i]);
                        assert(label_below(s0.all_labels()[i], s0.label_counter));
                    }
                }
            }
        }
        self.commit_block(Terminator::Branch { label: if_false }, if_false);
        proof {
            assert(Self::grows(s0, s1)) by {
                assert(s1.blocks@.subrange(0, s0.blocks@.len() as int) =~= s0.blocks@);
                assert(s1.all_labels() =~= s0.all_labels());
            }
            lemma_table_grows(s0.table(), s1.table());
            Self::lemma_if_extends(s0, s1, s2, s3, *self, cond, if_true, if_false);
        }
    }

    /// The blocks that an `if` adds branch only to blocks that exist: the conditional branch
    /// to the body's first block and to the block after the body, and the body's last block
    /// to the block after it.
    proof fn lemma_if_extends(
        s0: Self,
        s1: Self,
        s2: Self,
        s3: Self,
        s4: Self,
        cond: VirtualReg,
        if_true: Label,
        if_false: Label,
    )
        requires
            Self::grows(s0, s1),
            s1.blocks@ == s0.blocks@,
            label_between(if_true, s1.label_counter, s2.label_counter),
            label_between(if_false, s1.label_counter, s2.label_counter),
            s2.blocks@ == s1.blocks@.push(
                BasicBlock {
                    label: s1.block_label,
                    args: s1.block_args,
                    ops: s1.block_ops,
                    terminator: Terminator::BranchCond { cond, if_true, if_false },
                },
            ),
            s2.all_labels() == s1.all_labels().push(if_true),
            *s2.ir == *s1.ir,
            s2.var_to_vreg == s1.var_to_vreg,
            s2.vreg_counter == s1.vreg_counter,
            s1.label_counter <= s2.label_counter,
            Self::extends(s2, s3),
            s4.blocks@ == s3.blocks@.push(
                BasicBlock {
                    label: s3.block_label,
                    args: s3.block_args,
                    ops: s3.block_ops,
                    terminator: Terminator::Branch { label: if_false },
                },
            ),
            s4.all_labels() == s3.all_labels().push(if_false),
            *s4.ir == *s3.ir,
            s4.var_to_vreg == s3.var_to_vreg,
            s4.vreg_counter == s3.vreg_counter,
            s4.label_counter == s3.label_counter,
        ensures
            Self::extends(s0, s4),
    {
        assert(Self::grows(s1, s2)) by {
            assert(s2.blocks@.subrange(0, s1.blocks@.len() as int) =~= s1.blocks@);
            assert(s2.table() == s1.table());
            assert(s2.table().subrange(0, s1.table().len() as int) =~= s1.table());
            lemma_contains_push(s1.all_labels(), if_true);
            assert forall|i: int| s1.blocks@.len() <= i < s2.all_labels().len() implies (#[trigger] s2.all_labels()[i]
                == s1.block_label || label_between(s2.all_labels()[i], s1.label_counter, s2.label_counter)) by {
                if i == s1.blocks@.len() {
                    assert(s1.all_labels()[i] == s1.block_label);
                }
            }
        }
        Self::lemma_grows_trans(s0, s1, s2);
        Self::lemma_grows_trans(s0, s2, s3);
        assert(Self::grows(s0, s4)) by {
            assert(s4.blocks@.subrange(0, s3.blocks@.len() as int) =~= s3.blocks@);
            assert(s4.blocks@.subrange(0, s0.blocks@.len() as int) =~= s3.blocks@.subrange(0, s0.blocks@.len() as int));
            assert(s4.table().subrange(0, s0.table().len() as int) =~= s3.table().subrange(0, s0.table().len() as int));
            lemma_contains_push(s3.all_labels(), if_false);
            assert forall|i: int| s0.blocks@.len() <= i < s4.all_labels().len() implies (#[trigger] s4.all_labels()[i]
                == s0.block_label || label_between(s4.all_labels()[i], s0.label_counter, s4.label_counter)) by {
                if i < s3.all_labels().len() {
                    assert(s4.all_labels()[i] == s3.all_labels()[i]);
                } else {
                    assert(s4.all_labels()[i] == if_false);
                }
            }
        }
        assert(s4.all_labels()[s3.blocks@.len() as int + 1] == if_false);
        assert(s2.all_labels()[s2.blocks@.len() as int] == if_true);
        assert forall|i: int| s0.blocks@.len() <= i < s4.blocks@.len() implies targets_in(
            #[trigger] s4.blocks@[i],
            s4.all_labels(),
        ) by {
            if i < s3.blocks@.len() {
                assert(s4.blocks@[i] == s3.blocks@[i]);
                lemma_contains_push(s3.all_labels(), if_false);
                if i < s2.blocks@.len() {
                    assert(s3.blocks@.subrange(0, s2.blocks@.len() as int)[i] == s3.blocks@[i]);
                    assert(s2.blocks@[i].terminator == (Terminator::BranchCond { cond, if_true, if_false }));
                    assert(s2.all_labels().contains(if_true));
                    assert(s3.all_labels().contains(if_true));
                    let t = terminator_targets(s4.blocks@[i].terminator);
                    assert(t[0] == if_true && t[1] == if_false);
                } else {
                    lemma_targets_in_mono(s3.blocks@[i], s3.all_labels(), s4.all_labels());
                }
            } else {
                assert(terminator_targets(s4.blocks@[i].terminator)[0] == if_false);
            }
        }
    }
}

impl<'ir> BlockBuilder<'ir> {
    /// Lowers statements in order into the open block.
    #[verifier::spinoff_prover]
    #[verifier::rlimit(50)]
    fn consume(&mut self, block: Vec<Statement>)
        requires
            old(self).wf(),
            stmts_ok(old(self).names(), block@),
            old(self).vreg_counter + stmts_regs(old(self).names(), block@) <= u32::MAX,
            old(self).label_counter + stmts_labels(block@) <= u32::MAX,
        ensures
            final(self).wf(),
            Self::extends(*old(self), *final(self)),
            final(self).names() == stmts_defs(old(self).names(), block@),
            final(self).state() == lower_stmts(old(self).state(), block@),
            final(self).vreg_counter <= old(self).vreg_counter + stmts_regs(old(self).names(), block@),
            final(self).label_counter <= old(self).label_counter + stmts_labels(block@),
            forall|s: Seq<char>| #[trigger] stmts_strs(block@).contains(s) ==> final(self).table().contains(s),
            old(self).ir.strings_wf() ==> final(self).ir.strings_wf(),
            *final(final(self).ir) == *final(old(self).ir),
        decreases block, 0nat,
    {
        let ghost all = block@;
        let ghost s0 = *old(self);
        let mut rest = block;
        proof {
            Self::lemma_extends_refl(s0);
        }
        while rest.len() > 0
            invariant
                decreases_to!(block => all),
                all.len() >= rest@.len(),
                rest@ == all.subrange(all.len() - rest@.len(), all.len() as int),
                s0.ir.strings_wf() ==> self.ir.strings_wf(),
                self.wf(),
                Self::extends(s0, *self),
                stmts_ok(self.names(), rest@),
                stmts_defs(self.names(), rest@) == stmts_defs(s0.names(), all),
                lower_stmts(self.state(), rest@) == lower_stmts(s0.state(), all),
                self.vreg_counter + stmts_regs(self.names(), rest@) <= s0.vreg_counter + stmts_regs(s0.names(), all),
                self.label_counter + stmts_labels(rest@) <= s0.label_counter + stmts_labels(all),
                s0.vreg_counter + stmts_regs(s0.names(), all) <= u32::MAX,
                s0.label_counter + stmts_labels(all) <= u32::MAX,
                forall|s: Seq<char>| #[trigger] stmts_strs(all).contains(s) ==>
                    self.table().contains(s) || stmts_strs(rest@).contains(s),
                *final(self.ir) == *final(old(self).ir),
            decreases rest@.len(),
        {
            let ghost before = rest@;
            let ghost s1 = *self;
            let stmt = rest.remove(0);
            assert(stmt == all[all.len() - before.len()]);
            assert(rest@ == before.drop_first());
            assert(decreases_to!(block => stmt));
            assert(stmts_strs(before) == stmt_strs(stmt) + stmts_strs(rest@));
            assert(stmts_regs(self.names(), before) == stmt_regs(self.names(), stmt) + stmts_regs(
                stmt_defs(self.names(), stmt),
                rest@,
            ));
            self.consume_stmt(stmt);
            proof {
                Self::lemma_extends_trans(s0, s1, *self);
                lemma_table_grows(s1.table(), self.table());
                assert(rest@ =~= all.subrange(all.len() - rest@.len(), all.len() as int));
            }
        }
        assert(stmts_strs(rest@) =~= Set::empty());
    }
}

/// The blocks of a lowered function body: labels are pairwise distinct and none is the return
/// label, the first block is the entry, control falls through from each block to the one
/// after it (a branch goes to it, so does the true side of a conditional branch), the last
/// block does not end in a conditional branch, every label that a block may branch to is the
/// return label or that of a block of the body, and every string id names one of the `n`
/// interned strings.
pub open spec fn body_well_formed(bs: Seq<BasicBlock>, n: nat) -> bool {
    &&& block_labels(bs).no_duplicates()
    &&& forall|i: int| 0 <= i < bs.len() ==> (#[trigger] bs[i]).label != Label::Ret
    &&& bs.len() > 0 ==> bs[0].label == Label::Entry
    &&& forall|i: int| 0 <= i < bs.len() - 1 ==> falls_through(#[trigger] bs[i], bs[i + 1].label)
    &&& bs.len() > 0 ==> !(bs.last().terminator is BranchCond)
    &&& forall|i: int| 0 <= i < bs.len() ==> targets_in(#[trigger] bs[i], block_labels(bs))
    &&& forall|i: int| 0 <= i < bs.len() ==> block_in_table(#[trigger] bs[i], n)
}

/// Some block of `bs` may branch to `l`.
fn is_targeted(bs: &Vec<BasicBlock>, l: Label) -> (b: bool)
    ensures
        b == targets_label(bs@.map_values(|x: BasicBlock| block_view(x)), l),
{
    let ghost views = bs@.map_values(|x: BasicBlock| block_view(x));
    let mut i: usize = 0;
    while i < bs.len()
        invariant
            0 <= i <= bs.len(),
            views == bs@.map_values(|x: BasicBlock| block_view(x)),
            forall|k: int, j: int|
                0 <= k < i && 0 <= j < terminator_targets(views[k].terminator).len()
                    ==> terminator_targets(views[k].terminator)[j] != l,
        decreases bs.len() - i,
    {
        if targets_contain(&bs[i].terminator, l) {
            proof {
                assert(views[i as int].terminator == bs@[i as int].terminator);
                let j = choose|j: int|
                    0 <= j < terminator_targets(bs@[i as int].terminator).len()
                        && terminator_targets(bs@[i as int].terminator)[j] == l;
                assert(terminator_targets(views[i as int].terminator)[j] == l);
            }
            return true;
        }
        proof {
            assert(views[i as int].terminator == bs@[i as int].terminator);
            assert forall|j: int| 0 <= j < terminator_targets(views[i as int].terminator).len()
                implies terminator_targets(views[i as int].terminator)[j] != l by {
                if terminator_targets(views[i as int].terminator)[j] == l {
                    assert(terminator_targets(bs@[i as int].terminator).contains(l));
                }
            }
        }
        i = i + 1;
    }
    false
}

impl<'ir> BlockBuilder<'ir> {
    /// Lowers a function body and returns its blocks. The last block, if it holds operations
    /// or a block branches to it, is finished with a branch to the return label; an empty one
    /// that nothing branches to is dropped.
    #[verifier::spinoff_prover]
    #[verifier::rlimit(50)]
    pub fn build(self, block: Vec<Statement>) -> (blocks: Vec<BasicBlock>)
        requires
            self.wf(),
            stmts_ok(self.names(), block@),
            self.vreg_counter + stmts_regs(self.names(), block@) <= u32::MAX,
            self.label_counter + stmts_labels(block@) <= u32::MAX,
        ensures
            self.blocks@.len() == 0 ==> body_well_formed(
                blocks@,
                (*final(self.ir)).strings.len() as nat,
            ),
            blocks@.map_values(|b: BasicBlock| block_view(b)) == finish_body(
                lower_stmts(self.state(), block@),
            ).blocks,
            (*final(self.ir)).string_table() == lower_stmts(self.state(), block@).table,
            (*old(self.ir)).strings_wf() ==> (*final(self.ir)).strings_wf(),
            (*final(self.ir)).items == (*old(self.ir)).items,
            (*final(self.ir)).string_table().len() >= (*old(self.ir)).string_table().len(),
            (*final(self.ir)).string_table().subrange(0, (*old(self.ir)).string_table().len() as int) == (*old(self.ir)).string_table(),
            forall|s: Seq<char>| #[trigger] stmts_strs(block@).contains(s) ==> (*final(self.ir)).string_table().contains(s),
    {
        let ghost s0 = self;
        let mut this = self;
        this.consume(block);
        let ghost s1 = this;
        if this.block_ops.len() > 0 || is_targeted(&this.blocks, this.block_label) {
            proof {
                assert(!s1.all_labels().contains(Label::Ret)) by {
                    if s1.all_labels().contains(Label::Ret) {
                        let i = choose|i: int| 0 <= i < s1.all_labels().len() && s1.all_labels()[i] == Label::Ret;
                        assert(label_below(s1.all_labels()[i], s1.label_counter));
                    }
                }
            }
            this.commit_block(Terminator::Branch { label: Label::Ret }, Label::Ret);
            proof {
                let bs = this.blocks@;
                assert(block_labels(bs) =~= s1.all_labels());
                assert forall|i: int| 0 <= i < bs.len() implies (#[trigger] bs[i]).label != Label::Ret by {
                    assert(block_labels(bs)[i] == bs[i].label);
                    assert(label_below(s1.all_labels()[i], s1.label_counter));
                }
                assert forall|i: int| 0 <= i < bs.len() - 1 implies falls_through(#[trigger] bs[i], bs[i + 1].label) by {
                    assert(bs[i] == s1.blocks@[i]);
                    assert(block_labels(bs)[i + 1] == bs[i + 1].label);
                }
                assert forall|i: int| 0 <= i < bs.len() implies block_in_table(#[trigger] bs[i], this.ir.strings.len() as nat) by {
                    if i < s1.blocks@.len() {
                        assert(bs[i] == s1.blocks@[i]);
                    }
                }
                if s0.blocks@.len() == 0 {
                    assert forall|i: int| 0 <= i < bs.len() implies targets_in(#[trigger] bs[i], block_labels(bs)) by {
                        if i < s1.blocks@.len() {
                            assert(bs[i] == s1.blocks@[i]);
                        } else {
                            assert(terminator_targets(bs[i].terminator) =~= seq![Label::Ret]);
                        }
                    }
                }
                assert(bs[0].label == Label::Entry) by {
                    assert(block_labels(bs)[0] == bs[0].label);
                }
            }
        } else {
            proof {
                let bs = this.blocks@;
                let views = bs.map_values(|x: BasicBlock| block_view(x));
                assert(block_labels(bs) =~= s1.all_labels().drop_last());
                assert forall|i: int| 0 <= i < bs.len() implies (#[trigger] bs[i]).label != Label::Ret by {
                    assert(block_labels(bs)[i] == bs[i].label);
                    assert(label_below(s1.all_labels()[i], s1.label_counter));
                }
                assert forall|i: int| 0 <= i < bs.len() - 1 implies falls_through(#[trigger] bs[i], bs[i + 1].label) by {
                    assert(block_labels(bs)[i + 1] == bs[i + 1].label);
                }
                if s0.blocks@.len() == 0 {
                    assert forall|i: int| 0 <= i < bs.len() implies targets_in(#[trigger] bs[i], block_labels(bs)) by {
                        assert forall|j: int| 0 <= j < terminator_targets(bs[i].terminator).len() implies
                            (#[trigger] terminator_targets(bs[i].terminator)[j]) == Label::Ret
                                || block_labels(bs).contains(terminator_targets(bs[i].terminator)[j]) by {
                            let t = terminator_targets(bs[i].terminator)[j];
                            assert(views[i].terminator == bs[i].terminator);
                            if t != Label::Ret {
                                assert(s1.all_labels().contains(t));
                                assert(t != s1.block_label);
                                let k = choose|k: int| 0 <= k < s1.all_labels().len() && s1.all_labels()[k] == t;
                                assert(k < bs.len());
                                assert(block_labels(bs)[k] == t);
                            }
                        }
                    }
                }
                if bs.len() > 0 {
                    assert(block_labels(bs)[0] == bs[0].label);
                }
            }
        }
        this.blocks
    }
}

/// `out` is the lowering of the source function `src`: same name, parameter `j` in register
/// `j`, and a well-formed body over a table of `n` strings.
pub open spec fn lowered_item(src: AstItem, out: Item, n: nat) -> bool {
    match (src, out) {
        (AstItem::Function { name: sname, args: sargs, .. }, Item::Function { name, args, body }) => {
            &&& name@ == sname@
            &&& args@ == Seq::new(sargs@.len(), |j: int| VirtualReg(j as u32))
            &&& body_well_formed(body@, n)
        },
    }
}


/// Numbers the parameters of a function: parameter `j` gets register `j`. Gives the pairs of
/// names and registers, and the registers alone.
fn number_args(args: Vec<String>) -> (r: (Vec<(String, VirtualReg)>, Vec<VirtualReg>))
    ensures
        r.0@.len() == args@.len(),
        forall|j: int| 0 <= j < args@.len() ==> (#[trigger] r.0@[j]).0@ == args@[j]@ && r.0@[j].1
            == VirtualReg(j as u32),
        r.1@ == Seq::new(args@.len(), |x: int| VirtualReg(x as u32)),
{
    let n = args.len();
    let mut initial_args: Vec<(String, VirtualReg)> = Vec::new();
    let mut vreg_args: Vec<VirtualReg> = Vec::new();
    let mut args = args;
    let ghost all_args = args@;
    let mut j: usize = 0;
    while args.len() > 0
        invariant
            j + args@.len() == n,
            n == all_args.len(),
            args@ == all_args.subrange(j as int, n as int),
            initial_args@.len() == j,
            forall|x: int| 0 <= x < j ==> (#[trigger] initial_args@[x]).0@ == all_args[x]@
                && initial_args@[x].1 == VirtualReg(x as u32),
            vreg_args@ == Seq::new(j as nat, |x: int| VirtualReg(x as u32)),
        decreases args@.len(),
    {
        let a = args.remove(0);
        assert(a == all_args[j as int]);
        initial_args.push((a, VirtualReg(j as u32)));
        vreg_args.push(VirtualReg(j as u32));
        assert(vreg_args@ =~= Seq::new((j + 1) as nat, |x: int| VirtualReg(x as u32)));
        assert(args@ =~= all_args.subrange(j + 1, n as int));
        j = j + 1;
    }
    (initial_args, vreg_args)
}

/// Lowers one function of a checked program into `ir`, interning its string literals there.
#[verifier::spinoff_prover]
#[verifier::rlimit(50)]
fn lower_function(ir: &mut IR, item: AstItem) -> (out: Item)
    requires
        old(ir).strings_wf(),
        item_ok(item),
    ensures
        final(ir).strings_wf(),
        final(ir).items == old(ir).items,
        final(ir).string_table().len() >= old(ir).string_table().len(),
        final(ir).string_table().subrange(0, old(ir).string_table().len() as int)
            == old(ir).string_table(),
        lowered_item(item, out, final(ir).strings.len() as nat),
        forall|s: Seq<char>| #[trigger] item_strs(item).contains(s) ==> final(ir).string_table().contains(s),
        item_blocks(out) == lower_item(old(ir).string_table(), item).blocks,
        final(ir).string_table() == lower_item(old(ir).string_table(), item).table,
{
    let AstItem::Function { name, args, body } = item;
    let ghost sargs = args@;
    let (initial_args, vreg_args) = number_args(args);
    assert(initial_args@.map_values(|a: (String, VirtualReg)| a.0@) =~= sargs.map_values(
        |a: String| a@,
    ));
    assert(initial_args@.map_values(|a: (String, VirtualReg)| (a.0@, a.1)) =~= item_params(item));
    let blocks = BlockBuilder::new(ir, initial_args).build(body);
    Item::Function { name, args: vreg_args, body: blocks }
}

impl IR {
    /// Lowers a checked program: one function of the IR for each function of the program, in
    /// order, with every string literal of the program interned once.
    #[verifier::spinoff_prover]
    #[verifier::rlimit(50)]
    pub fn generate(ast: ValidAST) -> (ir: IR)
        requires
            ast.well_formed(),
        ensures
            ir.items.len() == ast.0.items.len(),
            forall|i: int| 0 <= i < ir.items.len() ==> lowered_item(
                #[trigger] ast.0.items@[i],
                ir.items@[i],
                ir.strings.len() as nat,
            ),
            ir.strings_wf(),
            forall|i: int, s: Seq<char>|
                0 <= i < ast.0.items.len() && #[trigger] item_strs(ast.0.items@[i]).contains(s)
                    ==> #[trigger] ir.string_table().contains(s),
            forall|i: int| 0 <= i < ir.items.len() ==> #[trigger] item_blocks(ir.items@[i])
                == lower_item(table_after(ast.0.items@, i as nat), ast.0.items@[i]).blocks,
            ir.string_table() == table_after(ast.0.items@, ast.0.items.len() as nat),
    {
        let ghost src = ast.0.items@;
        let ast = ast.0;

        let mut ir = IR { items: Vec::new(), strings: Vec::new() };
        assert(ir.string_table() =~= Seq::<Seq<char>>::empty());
        assert(table_after(src, 0) == Seq::<Seq<char>>::empty());

        let mut items = ast.items;
        let mut k: usize = 0;
        while items.len() > 0
            invariant
                k + items@.len() == src.len(),
                src.len() <= usize::MAX,
                items@ == src.subrange(k as int, src.len() as int),
                forall|i: int| 0 <= i < src.len() ==> #[trigger] item_ok(src[i]),
                ir.items.len() == k,
                ir.strings_wf(),
                forall|i: int| 0 <= i < k ==> lowered_item(
                    #[trigger] src[i],
                    ir.items@[i],
                    ir.strings.len() as nat,
                ),
                forall|i: int, s: Seq<char>|
                    0 <= i < k && #[trigger] item_strs(src[i]).contains(s)
                        ==> #[trigger] ir.string_table().contains(s),
                forall|i: int| 0 <= i < k ==> #[trigger] item_blocks(ir.items@[i])
                    == lower_item(table_after(src, i as nat), src[i]).blocks,
                ir.string_table() == table_after(src, k as nat),
            decreases items@.len(),
        {
            let item = items.remove(0);
            assert(item == src[k as int]);
            let ghost t0 = ir.string_table();
            let ghost items0 = ir.items@;
            let out = lower_function(&mut ir, item);
            proof {
                lemma_table_grows(t0, ir.string_table());
            }
            ir.items.push(out);
            proof {
                assert forall|i: int| 0 <= i < k + 1 implies lowered_item(
                    #[trigger] src[i],
                    ir.items@[i],
                    ir.strings.len() as nat,
                ) by {
                    if i < k {
                        assert(ir.items@[i] == items0[i]);
                    }
                }
                assert forall|i: int| 0 <= i < k + 1 implies #[trigger] item_blocks(ir.items@[i])
                    == lower_item(table_after(src, i as nat), src[i]).blocks by {
                    if i < k {
                        assert(ir.items@[i] == items0[i]);
                    }
                }
                assert(table_after(src, (k + 1) as nat) == lower_item(table_after(src, k as nat), src[k as int]).table);
                assert(items@ =~= src.subrange(k + 1, src.len() as int));
            }
            k = k + 1;
        }
        ir
    }
}

/// In a lowered function body, control passes from each block that does not return to the
/// block after it first: the first successor of the block is the label of the next block.
pub proof fn law_first_successor_is_next(bs: Seq<BasicBlock>, n: nat, i: int)
    requires
        body_well_formed(bs, n),
        0 <= i < bs.len() - 1,
        !(bs[i].terminator is Return),
    ensures
        terminator_targets(bs[i].terminator)[0] == bs[i + 1].label,
{
    assert(falls_through(bs[i], bs[i + 1].label));
}

/// In a lowered function body, every label that a block may pass control to is the return
/// label or the label of a block of the body.
pub proof fn law_successors_are_blocks(bs: Seq<BasicBlock>, n: nat, i: int, j: int)
    requires
        body_well_formed(bs, n),
        0 <= i < bs.len(),
        0 <= j < terminator_targets(bs[i].terminator).len(),
    ensures
        terminator_targets(bs[i].terminator)[j] == Label::Ret || exists|k: int|
            0 <= k < bs.len() && #[trigger] bs[k].label == terminator_targets(bs[i].terminator)[j],
{
    let t = terminator_targets(bs[i].terminator)[j];
    assert(targets_in(bs[i], block_labels(bs)));
    if t != Label::Ret {
        let k = choose|k: int| 0 <= k < block_labels(bs).len() && block_labels(bs)[k] == t;
        assert(bs[k].label == t);
    }
}

/// A table that another one extends holds every string of it.
proof fn lemma_table_grows(t1: Seq<Seq<char>>, t2: Seq<Seq<char>>)
    requires
        t2.len() >= t1.len(),
        t2.subrange(0, t1.len() as int) == t1,
    ensures
        forall|s: Seq<char>| t1.contains(s) ==> #[trigger] t2.contains(s),
{
    assert forall|s: Seq<char>| t1.contains(s) implies #[trigger] t2.contains(s) by {
        let i = choose|i: int| 0 <= i < t1.len() && t1[i] == s;
        assert(t2.subrange(0, t1.len() as int)[i] == t2[i]);
    }
}

/// Binds `name` to `vreg` in `m`, in place of its earlier register if it has one.
fn bind(m: &mut Vec<(String, VirtualReg)>, name: String, vreg: VirtualReg)
    requires
        names_distinct(old(m)@),
    ensures
        names_distinct(final(m)@),
        bound_names(final(m)@) == bound_names(old(m)@).insert(name@),
        binds(final(m)@, name@, vreg),
        forall|x: Seq<char>, v: VirtualReg|
            x != name@ && binds(old(m)@, x, v) ==> binds(final(m)@, x, v),
{
    let ghost s = m@;
    let mut i: usize = 0;
    while i < m.len()
        invariant
            m@ == s,
            s == old(m)@,
            names_distinct(s),
            0 <= i <= m.len(),
            forall|j: int| 0 <= j < i ==> (#[trigger] s[j]).0@ != name@,
        decreases m.len() - i,
    {
        if m[i].0 == name {
            m.set(i, (name, vreg));
            proof {
                let m2 = m@;
                assert forall|a: int, b: int|
                    0 <= a < m2.len() && 0 <= b < m2.len() && a != b implies (#[trigger] m2[a]).0@
                    != (#[trigger] m2[b]).0@ by {
                    assert(s[a].0@ != s[b].0@);
                }
                assert forall|x: Seq<char>| bound_names(m2).contains(x) implies bound_names(
                    s,
                ).insert(name@).contains(x) by {
                    let j = choose|j: int| 0 <= j < m2.len() && (#[trigger] m2[j]).0@ == x;
                    if j != i {
                        assert(s[j] == m2[j]);
                    }
                }
                assert forall|x: Seq<char>| bound_names(s).insert(name@).contains(
                    x,
                ) implies bound_names(m2).contains(x) by {
                    if x == name@ {
                        assert(m2[i as int].0@ == name@);
                    } else {
                        let j = choose|j: int| 0 <= j < s.len() && (#[trigger] s[j]).0@ == x;
                        assert(m2[j] == s[j]);
                    }
                }
                assert(bound_names(m2) =~= bound_names(s).insert(name@));
                assert(m2[i as int].0@ == name@ && m2[i as int].1 == vreg);
                assert forall|x: Seq<char>, v: VirtualReg|
                    x != name@ && binds(s, x, v) implies binds(m2, x, v) by {
                    let j = choose|j: int| 0 <= j < s.len() && (#[trigger] s[j]).0@ == x && s[j].1 == v;
                    assert(m2[j] == s[j]);
                }
            }
            return;
        }
        i = i + 1;
    }
    proof {
        assert(!bound_names(s).contains(name@)) by {
            if bound_names(s).contains(name@) {
                let j = choose|j: int| 0 <= j < s.len() && (#[trigger] s[j]).0@ == name@;
                assert(s[j].0@ != name@);
            }
        }
    }
    m.push((name, vreg));
    proof {
        lemma_bound_names_push(s, name, vreg);
        let m2 = m@;
        assert forall|a: int, b: int|
            0 <= a < m2.len() && 0 <= b < m2.len() && a != b implies (#[trigger] m2[a]).0@
            != (#[trigger] m2[b]).0@ by {
            if a < s.len() && b < s.len() {
                assert(s[a].0@ != s[b].0@);
            } else if a < s.len() {
                assert(bound_names(s).contains(m2[a].0@)) by {
                    assert(s[a] == m2[a]);
                }
            } else {
                assert(bound_names(s).contains(m2[b].0@)) by {
                    assert(s[b] == m2[b]);
                }
            }
        }
    }
}

} // verus!
