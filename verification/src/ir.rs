use vstd::prelude::*;

use crate::analyze::ast::CompareOp;

pub mod codegen;
pub mod invariants;
pub mod meaning;
pub mod lowering;
pub mod text;

verus! {

/// The program in intermediate representation: its functions, and the table of the string
/// literals they use.
///
/// A string literal is interned: it is stored once, and its [`StrId`] is its position in
/// `strings`.
pub struct IR {
    pub items: Vec<Item>,
    pub strings: Vec<String>,
}

pub type StrId = usize;

pub type OpIndex = usize;

/// The table of interned strings after `s` has been interned into `table`, and the id that
/// `s` has there: a string that is in the table keeps the id of its first occurrence, a new
/// one is appended.
pub open spec fn interned(table: Seq<Seq<char>>, s: Seq<char>) -> (Seq<Seq<char>>, int) {
    match table.index_of_first(s) {
        Some(i) => (table, i),
        None => (table.push(s), table.len() as int),
    }
}

/// What interning gives: the old table stays a prefix, the id names `s`, no earlier entry is
/// `s`, and a table without duplicates keeps none.
pub(crate) proof fn lemma_interned(table: Seq<Seq<char>>, s: Seq<char>)
    ensures
        ({
            let (t1, id) = interned(table, s);
            &&& t1.len() >= table.len()
            &&& t1.subrange(0, table.len() as int) == table
            &&& 0 <= id < t1.len()
            &&& t1[id] == s
            &&& forall|j: int| 0 <= j < id ==> t1[j] != s
            &&& table.contains(s) ==> t1 == table
            &&& !table.contains(s) ==> t1 == table.push(s) && id == table.len()
            &&& forall|x: Seq<char>| #[trigger] t1.contains(x) ==> table.contains(x) || x == s
            &&& table.no_duplicates() ==> t1.no_duplicates()
        }),
{
    table.index_of_first_ensures(s);
    let (t1, id) = interned(table, s);
    assert(t1.subrange(0, table.len() as int) =~= table);
    if !table.contains(s) {
        assert forall|j: int| 0 <= j < id implies t1[j] != s by {
            assert(t1[j] == table[j]);
        }
        assert forall|x: Seq<char>| #[trigger] t1.contains(x) implies table.contains(x) || x == s by {
            let i = choose|i: int| 0 <= i < t1.len() && t1[i] == x;
            if i < table.len() {
                assert(table[i] == x);
            }
        }
        if table.no_duplicates() {
            assert forall|i: int, j: int| 0 <= i < t1.len() && 0 <= j < t1.len() && i != j implies t1[i]
                != t1[j] by {
                if i < table.len() && j < table.len() {
                } else if i < table.len() {
                    assert(table[i] == t1[i]);
                } else {
                    assert(table[j] == t1[j]);
                }
            }
        }
    }
}

impl IR {
    /// The interned strings, by id.
    pub open spec fn string_table(&self) -> Seq<Seq<char>> {
        self.strings@.map_values(|s: String| s@)
    }

    /// No string is interned twice.
    pub open spec fn strings_wf(&self) -> bool {
        self.string_table().no_duplicates()
    }

    /// Interns a string literal and returns its id. A string that was interned before keeps the
    /// id it got then; a new one gets the next id.
    pub fn alloc_str_literal(&mut self, string: String) -> (id: StrId)
        ensures
            old(self).strings_wf() ==> final(self).strings_wf(),
            final(self).items == old(self).items,
            final(self).string_table() == interned(old(self).string_table(), string@).0,
            id == interned(old(self).string_table(), string@).1,
            id < final(self).strings.len(),
            final(self).string_table()[id as int] == string@,
    {
        let len = self.strings.len();
        let ghost table = self.string_table();
        proof {
            lemma_interned(table, string@);
            table.index_of_first_ensures(string@);
        }
        let mut i: usize = 0;
        while i < len
            invariant
                len == self.strings.len(),
                table == self.string_table(),
                0 <= i <= len,
                forall|j: int| 0 <= j < i ==> table[j] != string@,
            decreases len - i,
        {
            if self.strings[i] == string {
                assert(table[i as int] == string@);
                assert(table.contains(string@));
                proof {
                    table.index_of_first_ensures(string@);
                    let k = table.index_of_first(string@)->Some_0;
                    assert(k == i) by {
                        if k < i {
                            assert(table[k] != string@);
                        } else if k > i {
                            assert(table[i as int] != string@);
                        }
                    }
                }
                return i;
            }
            i = i + 1;
        }
        assert(!table.contains(string@));
        self.strings.push(string);
        assert(self.string_table() =~= table.push(string@));
        len
    }
}

impl Default for IR {
    /// An IR without functions or strings.
    fn default() -> (ir: Self)
        ensures
            ir.items@ == Seq::<Item>::empty(),
            ir.strings@ == Seq::<String>::empty(),
    {
        IR { items: Vec::new(), strings: Vec::new() }
    }
}

/// Interning a string a second time gives the id of the first time and leaves the table as it
/// was; a table in which no string occurs twice keeps that so.
pub proof fn law_intern_idempotent(table: Seq<Seq<char>>, s: Seq<char>)
    ensures
        interned(interned(table, s).0, s) == interned(table, s),
        table.no_duplicates() ==> interned(table, s).0.no_duplicates(),
{
    lemma_interned(table, s);
    let t1 = interned(table, s).0;
    lemma_interned(t1, s);
    let id = interned(table, s).1;
    let id2 = interned(t1, s).1;
    assert(t1.contains(s)) by {
        assert(t1[id] == s);
    }
    if id2 < id {
        assert(t1[id2] == s);
    } else if id < id2 {
        assert(t1[id] == s);
    }
}

/// Interning never changes the id of a string interned before: the old table is a prefix of
/// the new one.
pub proof fn law_intern_keeps_ids(table: Seq<Seq<char>>, s: Seq<char>)
    ensures
        interned(table, s).0.len() >= table.len(),
        interned(table, s).0.subrange(0, table.len() as int) == table,
{
    lemma_interned(table, s);
}

/// Two different strings never get the same id.
pub proof fn law_intern_distinct_ids(table: Seq<Seq<char>>, s1: Seq<char>, s2: Seq<char>)
    requires
        s1 != s2,
    ensures
        interned(table, s1).1 != interned(interned(table, s1).0, s2).1,
{
    let t1 = interned(table, s1).0;
    lemma_interned(table, s1);
    lemma_interned(t1, s2);
    let id1 = interned(table, s1).1;
    let t2 = interned(t1, s2).0;
    assert(t2.subrange(0, t1.len() as int)[id1] == t1[id1]);
}

pub enum Item {
    Function { name: String, args: Vec<VirtualReg>, body: Vec<BasicBlock> },
}

pub struct Body {
    pub blocks: Vec<BasicBlock>,
}

/// A [basic block](BasicBlock) is a sequence of operations that does not affect control flow. Each basic block
/// contains exactly one [terminator](Terminator), which specifies the next block in the control flow graph (CFG).
/// In addition basic blocks can specify arguments, which allows it to use registers passed on from
/// other basic blocks. This is an alternative to LLVMs phi nodes.
///
/// The next basic block is called the successor, and the previous is called the predecessor. A basic block
/// can have multiple succesors and predecessors.
pub struct BasicBlock {
    pub label: Label,
    pub args: Vec<VirtualReg>,
    pub ops: Vec<Operation>,
    pub terminator: Terminator,
}

/// The labels that control may pass to after a block with this terminator, in order.
pub open spec fn terminator_targets(t: Terminator) -> Seq<Label> {
    match t {
        Terminator::Branch { label } => seq![label],
        Terminator::BranchCond { if_true, if_false, .. } => seq![if_true, if_false],
        Terminator::Return { .. } => seq![Label::Ret],
    }
}

impl BasicBlock {
    /// The labels of the blocks that may follow this one.
    pub fn successors(&self) -> (s: Vec<Label>)
        ensures
            s@ == terminator_targets(self.terminator),
    {
        match self.terminator {
            Terminator::Branch { label } => vec![label],
            Terminator::BranchCond { if_true, if_false, .. } => vec![if_true, if_false],
            Terminator::Return { .. } => vec![Label::Ret],
        }
    }
}

#[derive(Debug, Clone, Copy, PartialEq, Eq, Hash, Structural)]
pub enum Label {
    Entry,
    Anon(u32),
    Ret,
}

pub type Op = Operation;

#[derive(Debug, Clone, Copy)]
pub enum VarSize {
    Zero,
    B8,
    B16,
    B32,
    B64,
}

#[derive(Debug, Clone)]
pub enum Terminator {
    Branch { label: Label },
    BranchCond { cond: VirtualReg, if_true: Label, if_false: Label },
    Return { value: SourceVal },
}

#[derive(Debug, Clone)]
#[allow(inconsistent_fields)]
pub enum Operation {
    Assign { src: SourceVal, dest: VirtualReg },
    AddressOf { val: VirtualReg, dest: VirtualReg },
    LoadPointer { ptr: VirtualReg, size: VarSize, dest: VirtualReg },
    StorePointer { src: VirtualReg, ptr: VirtualReg },
    Add { a: VirtualReg, b: VirtualReg, dest: VirtualReg },
    Subtract { a: VirtualReg, b: VirtualReg, dest: VirtualReg },
    Multiply { a: VirtualReg, b: VirtualReg, dest: VirtualReg },
    Divide { a: VirtualReg, b: VirtualReg, dest: VirtualReg },
    Compare { a: VirtualReg, b: VirtualReg, cond: Condition, dest: VirtualReg },
    Call { function: String, args: Vec<VirtualReg>, dest: Option<VirtualReg> },
}

/// The register that a source value names, if it names one.
pub open spec fn source_reg(s: SourceVal) -> Set<VirtualReg> {
    match s {
        SourceVal::VReg(r) => set![r],
        _ => Set::empty(),
    }
}

/// The registers that an operation reads, or whose address it takes.
pub open spec fn regs_used(op: Operation) -> Set<VirtualReg> {
    match op {
        Operation::Assign { src, .. } => source_reg(src),
        Operation::AddressOf { val, dest } => set![val, dest],
        Operation::LoadPointer { ptr, .. } => set![ptr],
        Operation::StorePointer { src, ptr } => set![src, ptr],
        Operation::Add { a, b, .. } => set![a, b],
        Operation::Subtract { a, b, .. } => set![a, b],
        Operation::Multiply { a, b, .. } => set![a, b],
        Operation::Divide { a, b, .. } => set![a, b],
        Operation::Compare { a, b, .. } => set![a, b],
        Operation::Call { args, .. } => args@.to_set(),
    }
}

/// The register that an operation writes its result to, if any.
pub open spec fn reg_assigned(op: Operation) -> Option<VirtualReg> {
    match op {
        Operation::Assign { dest, .. } => Some(dest),
        Operation::AddressOf { .. } => None,
        Operation::LoadPointer { dest, .. } => Some(dest),
        Operation::StorePointer { .. } => None,
        Operation::Add { dest, .. } => Some(dest),
        Operation::Subtract { dest, .. } => Some(dest),
        Operation::Multiply { dest, .. } => Some(dest),
        Operation::Divide { dest, .. } => Some(dest),
        Operation::Compare { dest, .. } => Some(dest),
        Operation::Call { dest, .. } => dest,
    }
}

/// The register that an operation assigns is its destination: a call writes its result to its
/// `dest` whatever its arguments, every other operation with a result register writes that
/// one, and a store or the taking of an address assigns none.
pub proof fn law_assigned_is_destination(op: Operation)
    ensures
        op matches Operation::Call { dest, .. } ==> reg_assigned(op) == dest,
        op matches Operation::Assign { dest, .. } ==> reg_assigned(op) == Some(dest),
        op matches Operation::LoadPointer { dest, .. } ==> reg_assigned(op) == Some(dest),
        op matches Operation::Add { dest, .. } ==> reg_assigned(op) == Some(dest),
        op matches Operation::Subtract { dest, .. } ==> reg_assigned(op) == Some(dest),
        op matches Operation::Multiply { dest, .. } ==> reg_assigned(op) == Some(dest),
        op matches Operation::Divide { dest, .. } ==> reg_assigned(op) == Some(dest),
        op matches Operation::Compare { dest, .. } ==> reg_assigned(op) == Some(dest),
        op is StorePointer ==> reg_assigned(op) is None,
        op is AddressOf ==> reg_assigned(op) is None,
{
}

/// What an operation reads is the operands it names: a call reads exactly its arguments, an
/// arithmetic operation or a comparison its two operands, a store its value and its pointer,
/// and taking an address names both the variable's register and the register it goes to.
pub proof fn law_used_are_operands(op: Operation)
    ensures
        op matches Operation::Call { args, .. } ==> regs_used(op) == args@.to_set(),
        op matches Operation::Add { a, b, .. } ==> regs_used(op) == set![a, b],
        op matches Operation::Subtract { a, b, .. } ==> regs_used(op) == set![a, b],
        op matches Operation::Multiply { a, b, .. } ==> regs_used(op) == set![a, b],
        op matches Operation::Divide { a, b, .. } ==> regs_used(op) == set![a, b],
        op matches Operation::Compare { a, b, .. } ==> regs_used(op) == set![a, b],
        op matches Operation::StorePointer { src, ptr } ==> regs_used(op) == set![src, ptr],
        op matches Operation::LoadPointer { ptr, .. } ==> regs_used(op) == set![ptr],
        op matches Operation::Assign { src: SourceVal::VReg(r), .. } ==> regs_used(op) == set![r],
        op matches Operation::Assign { src: SourceVal::Immediate(_), .. } ==> regs_used(op).is_empty(),
        op matches Operation::AddressOf { val, dest } ==> regs_used(op) == set![val, dest],
{
    if let Operation::Assign { src, .. } = op {
        if let SourceVal::VReg(r) = src {
            assert(source_reg(src) =~= set![r]);
        } else if let SourceVal::Immediate(_) = src {
            assert(source_reg(src) =~= Set::<VirtualReg>::empty());
        }
    }
}

/// Pushing onto a sequence adds the element to its set.
pub(crate) proof fn lemma_to_set_push<A>(s: Seq<A>, x: A)
    ensures
        s.push(x).to_set() == s.to_set().insert(x),
{
    assert forall|y: A| s.push(x).to_set().contains(y) implies s.to_set().insert(x).contains(y) by {
        let k = choose|k: int| 0 <= k < s.push(x).len() && s.push(x)[k] == y;
        if k < s.len() {
            assert(s[k] == y);
        }
    }
    assert forall|y: A| s.to_set().insert(x).contains(y) implies s.push(x).to_set().contains(y) by {
        if y == x {
            assert(s.push(x)[s.len() as int] == x);
        } else {
            let k = choose|k: int| 0 <= k < s.len() && s[k] == y;
            assert(s.push(x)[k] == y);
        }
    }
    assert(s.push(x).to_set() =~= s.to_set().insert(x));
}

/// Appends `r` to `v` unless it is there already.
fn push_unique(v: &mut Vec<VirtualReg>, r: VirtualReg)
    requires
        old(v)@.no_duplicates(),
    ensures
        final(v)@.no_duplicates(),
        final(v)@.to_set() == old(v)@.to_set().insert(r),
{
    let ghost s = v@;
    let mut i: usize = 0;
    while i < v.len()
        invariant
            v@ == s,
            s.no_duplicates(),
            0 <= i <= v.len(),
            forall|j: int| 0 <= j < i ==> v@[j] != r,
        decreases v.len() - i,
    {
        if v[i] == r {
            assert(s.to_set().contains(r));
            assert(s.to_set().insert(r) =~= s.to_set());
            return;
        }
        i = i + 1;
    }
    v.push(r);
    proof {
        lemma_to_set_push(s, r);
    }
}

impl Operation {
    /// Gives `out` back unchanged.
    pub fn _vregs_used(&self, _out: &mut Vec<VirtualReg>)
        ensures
            final(_out)@ == old(_out)@,
    {
    }

    /// Gets the virtual registers used in this operation. Both source and destination registers.
    ///
    /// The first part holds each register that the operation reads or takes the address of,
    /// once; the second the register it writes, if any.
    pub fn vregs_used(&self) -> (r: (Vec<VirtualReg>, Option<VirtualReg>))
        ensures
            r.0@.no_duplicates(),
            r.0@.to_set() == regs_used(*self),
            r.1 == reg_assigned(*self),
    {
        let mut used: Vec<VirtualReg> = Vec::new();
        let mut assigned: Option<VirtualReg> = None;
        assert(used@.to_set() =~= Set::<VirtualReg>::empty());
        match self {
            Operation::Assign { src, dest } => {
                match src.reg() {
                    Some(r) => push_unique(&mut used, r),
                    None => {},
                }
                assert(used@.to_set() =~= source_reg(*src));
                assigned = Some(*dest);
            },
            Operation::AddressOf { val, dest } => {
                push_unique(&mut used, *dest);
                push_unique(&mut used, *val);
                assert(used@.to_set() =~= set![*val, *dest]);
            },
            Operation::LoadPointer { ptr, size: _, dest } => {
                push_unique(&mut used, *ptr);
                assert(used@.to_set() =~= set![*ptr]);
                assigned = Some(*dest);
            },
            Operation::StorePointer { src, ptr } => {
                push_unique(&mut used, *src);
                push_unique(&mut used, *ptr);
                assert(used@.to_set() =~= set![*src, *ptr]);
            },
            Operation::Add { a, b, dest }
            | Operation::Subtract { a, b, dest }
            | Operation::Multiply { a, b, dest }
            | Operation::Divide { a, b, dest } => {
                push_unique(&mut used, *a);
                push_unique(&mut used, *b);
                assert(used@.to_set() =~= set![*a, *b]);
                assigned = Some(*dest);
            },
            Operation::Compare { a, b, cond: _, dest } => {
                push_unique(&mut used, *a);
                push_unique(&mut used, *b);
                assert(used@.to_set() =~= set![*a, *b]);
                assigned = Some(*dest);
            },
            Operation::Call { dest, args, function: _ } => {
                assigned = *dest;
                let mut i: usize = 0;
                while i < args.len()
                    invariant
                        0 <= i <= args.len(),
                        used@.no_duplicates(),
                        used@.to_set() == args@.subrange(0, i as int).to_set(),
                    decreases args.len() - i,
                {
                    push_unique(&mut used, args[i]);
                    assert(args@.subrange(0, i + 1) =~= args@.subrange(0, i as int).push(args@[i as int]));
                    proof {
                        lemma_to_set_push(args@.subrange(0, i as int), args@[i as int]);
                    }
                    i = i + 1;
                }
                assert(args@.subrange(0, args.len() as int) =~= args@);
            },
        }
        (used, assigned)
    }
}

#[derive(Debug, Clone, Copy)]
pub enum Condition {
    Equal,
    NotEqual,
    UnsignedGreaterOrEqual,
    UnsignedLess,
    UnsignedGreater,
    UnsignedLessOrEqual,
    SignedGreaterOrEqual,
    SignedLess,
    SignedGreater,
    SignedLessOrEqual,
    Negative,
    PositiveOrZero,
    Overflow,
    NoOverflow,
    Always,
    Never,
}

/// The condition that a source comparison lowers to: equality tests do not depend on the
/// sign, orderings do.
pub open spec fn condition_of(op: CompareOp, signed: bool) -> Condition {
    match op {
        CompareOp::Equal => Condition::Equal,
        CompareOp::NotEqual => Condition::NotEqual,
        CompareOp::Less => if signed { Condition::SignedLess } else { Condition::UnsignedLess },
        CompareOp::LessOrEqual => if signed {
            Condition::SignedLessOrEqual
        } else {
            Condition::UnsignedLessOrEqual
        },
        CompareOp::Greater => if signed {
            Condition::SignedGreater
        } else {
            Condition::UnsignedGreater
        },
        CompareOp::GreaterOrEqual => if signed {
            Condition::SignedGreaterOrEqual
        } else {
            Condition::UnsignedGreaterOrEqual
        },
    }
}

/// The condition that holds exactly when `c` does not.
pub open spec fn negation(c: Condition) -> Condition {
    match c {
        Condition::Equal => Condition::NotEqual,
        Condition::NotEqual => Condition::Equal,
        Condition::UnsignedGreaterOrEqual => Condition::UnsignedLess,
        Condition::UnsignedLess => Condition::UnsignedGreaterOrEqual,
        Condition::UnsignedGreater => Condition::UnsignedLessOrEqual,
        Condition::UnsignedLessOrEqual => Condition::UnsignedGreater,
        Condition::SignedGreaterOrEqual => Condition::SignedLess,
        Condition::SignedLess => Condition::SignedGreaterOrEqual,
        Condition::SignedGreater => Condition::SignedLessOrEqual,
        Condition::SignedLessOrEqual => Condition::SignedGreater,
        Condition::Negative => Condition::PositiveOrZero,
        Condition::PositiveOrZero => Condition::Negative,
        Condition::Overflow => Condition::NoOverflow,
        Condition::NoOverflow => Condition::Overflow,
        Condition::Always => Condition::Never,
        Condition::Never => Condition::Always,
    }
}

/// The source comparison that holds exactly when `op` does not.
pub open spec fn negated_compare(op: CompareOp) -> CompareOp {
    match op {
        CompareOp::Equal => CompareOp::NotEqual,
        CompareOp::NotEqual => CompareOp::Equal,
        CompareOp::Less => CompareOp::GreaterOrEqual,
        CompareOp::LessOrEqual => CompareOp::Greater,
        CompareOp::Greater => CompareOp::LessOrEqual,
        CompareOp::GreaterOrEqual => CompareOp::Less,
    }
}

impl Condition {
    pub fn from_ast_op(op: CompareOp, signed: bool) -> (c: Self)
        ensures
            c == condition_of(op, signed),
    {
        match (op, signed) {
            (CompareOp::Equal, _) => Self::Equal,
            (CompareOp::NotEqual, _) => Self::NotEqual,
            (CompareOp::Less, true) => Self::SignedLess,
            (CompareOp::Less, false) => Self::UnsignedLess,
            (CompareOp::LessOrEqual, true) => Self::SignedLessOrEqual,
            (CompareOp::LessOrEqual, false) => Self::UnsignedLessOrEqual,
            (CompareOp::Greater, true) => Self::SignedGreater,
            (CompareOp::Greater, false) => Self::UnsignedGreater,
            (CompareOp::GreaterOrEqual, true) => Self::SignedGreaterOrEqual,
            (CompareOp::GreaterOrEqual, false) => Self::UnsignedGreaterOrEqual,
        }
    }

    pub fn inverted(&self) -> (c: Condition)
        ensures
            c == negation(*self),
    {
        match self {
            Condition::Equal => Condition::NotEqual,
            Condition::NotEqual => Condition::Equal,
            Condition::UnsignedGreaterOrEqual => Condition::UnsignedLess,
            Condition::UnsignedLess => Condition::UnsignedGreaterOrEqual,
            Condition::UnsignedGreater => Condition::UnsignedLessOrEqual,
            Condition::UnsignedLessOrEqual => Condition::UnsignedGreater,
            Condition::SignedGreaterOrEqual => Condition::SignedLess,
            Condition::SignedLess => Condition::SignedGreaterOrEqual,
            Condition::SignedGreater => Condition::SignedLessOrEqual,
            Condition::SignedLessOrEqual => Condition::SignedGreater,
            Condition::Negative => Condition::PositiveOrZero,
            Condition::PositiveOrZero => Condition::Negative,
            Condition::Overflow => Condition::NoOverflow,
            Condition::NoOverflow => Condition::Overflow,
            Condition::Always => Condition::Never,
            Condition::Never => Condition::Always,
        }
    }
}

/// Inverting a condition twice gives it back, and no condition is its own inverse.
pub proof fn law_inverted_involution(c: Condition)
    ensures
        negation(negation(c)) == c,
        negation(c) != c,
{
}

/// Lowering a comparison and inverting the result is lowering the negated comparison, with
/// the same sign.
pub proof fn law_inverted_lowers_negated_compare(op: CompareOp, signed: bool)
    ensures
        negation(condition_of(op, signed)) == condition_of(negated_compare(op), signed),
{
}

/// A value that can be used in an operation as a source, either an immediate operand or a
/// register.
#[derive(Debug, Clone, Copy, PartialEq, Eq, Structural)]
pub enum SourceVal {
    Immediate(i64),
    VReg(VirtualReg),
    String(StrId),
}

impl SourceVal {
    /// Returns the virtual register if the source value is a register.
    pub fn reg(&self) -> (r: Option<VirtualReg>)
        ensures
            r == (match *self {
                SourceVal::VReg(v) => Some(v),
                _ => None,
            }),
    {
        match self {
            Self::VReg(vreg) => Some(*vreg),
            _ => None,
        }
    }
}

#[derive(Debug, Clone, Copy, PartialEq, Eq, PartialOrd, Ord, Hash, Structural)]
pub struct VirtualReg(pub u32);

} // verus!
