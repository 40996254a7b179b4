//! The textual form of the intermediate representation.
use vstd::prelude::*;

use itertools::Itertools;

use crate::ir::{
    terminator_targets, BasicBlock, Condition, Item, Label, Operation, SourceVal, Terminator,
    VarSize, VirtualReg, IR,
};

verus! {

/// The decimal digit `d`.
pub open spec fn digit_text(d: nat) -> Seq<char> {
    if d == 0 {
        "0"@
    } else if d == 1 {
        "1"@
    } else if d == 2 {
        "2"@
    } else if d == 3 {
        "3"@
    } else if d == 4 {
        "4"@
    } else if d == 5 {
        "5"@
    } else if d == 6 {
        "6"@
    } else if d == 7 {
        "7"@
    } else if d == 8 {
        "8"@
    } else {
        "9"@
    }
}

/// `n` in decimal, without leading zeros.
pub open spec fn nat_text(n: nat) -> Seq<char>
    decreases n,
{
    if n < 10 {
        digit_text(n)
    } else {
        nat_text(n / 10) + digit_text(n % 10)
    }
}

/// `i` in decimal, with a minus sign when it is negative.
pub open spec fn int_text(i: int) -> Seq<char> {
    if i < 0 {
        "-"@ + nat_text((-i) as nat)
    } else {
        nat_text(i as nat)
    }
}

/// The parts, with `sep` between each two of them.
pub open spec fn joined(parts: Seq<Seq<char>>, sep: Seq<char>) -> Seq<char>
    decreases parts.len(),
{
    if parts.len() == 0 {
        Seq::empty()
    } else if parts.len() == 1 {
        parts[0]
    } else {
        joined(parts.drop_last(), sep) + sep + parts.last()
    }
}

/// The parts, one after the other.
pub open spec fn concat(parts: Seq<Seq<char>>) -> Seq<char>
    decreases parts.len(),
{
    if parts.len() == 0 {
        Seq::empty()
    } else {
        concat(parts.drop_last()) + parts.last()
    }
}

pub open spec fn label_text(l: Label) -> Seq<char> {
    match l {
        Label::Entry => ".entry"@,
        Label::Anon(n) => ".L"@ + nat_text(n as nat),
        Label::Ret => ".end"@,
    }
}

pub open spec fn vreg_text(r: VirtualReg) -> Seq<char> {
    "%"@ + nat_text(r.0 as nat)
}

pub open spec fn source_text(s: SourceVal) -> Seq<char> {
    match s {
        SourceVal::Immediate(n) => int_text(n as int),
        SourceVal::VReg(r) => vreg_text(r),
        SourceVal::String(id) => "string #"@ + nat_text(id as nat),
    }
}

/// The name of a size.
pub open spec fn size_text(s: VarSize) -> Seq<char> {
    match s {
        VarSize::Zero => "Zero"@,
        VarSize::B8 => "B8"@,
        VarSize::B16 => "B16"@,
        VarSize::B32 => "B32"@,
        VarSize::B64 => "B64"@,
    }
}

/// The name of a condition.
pub open spec fn condition_text(c: Condition) -> Seq<char> {
    match c {
        Condition::Equal => "Equal"@,
        Condition::NotEqual => "NotEqual"@,
        Condition::UnsignedGreaterOrEqual => "UnsignedGreaterOrEqual"@,
        Condition::UnsignedLess => "UnsignedLess"@,
        Condition::UnsignedGreater => "UnsignedGreater"@,
        Condition::UnsignedLessOrEqual => "UnsignedLessOrEqual"@,
        Condition::SignedGreaterOrEqual => "SignedGreaterOrEqual"@,
        Condition::SignedLess => "SignedLess"@,
        Condition::SignedGreater => "SignedGreater"@,
        Condition::SignedLessOrEqual => "SignedLessOrEqual"@,
        Condition::Negative => "Negative"@,
        Condition::PositiveOrZero => "PositiveOrZero"@,
        Condition::Overflow => "Overflow"@,
        Condition::NoOverflow => "NoOverflow"@,
        Condition::Always => "Always"@,
        Condition::Never => "Never"@,
    }
}

/// Registers, separated by commas.
pub open spec fn vregs_text(rs: Seq<VirtualReg>) -> Seq<char> {
    joined(rs.map_values(|r: VirtualReg| vreg_text(r)), ", "@)
}

/// Labels, separated by commas.
pub open spec fn labels_text(ls: Seq<Label>) -> Seq<char> {
    joined(ls.map_values(|l: Label| label_text(l)), ", "@)
}

/// The start of the line of a call, up to the function's name.
pub open spec fn call_head(dest: Option<VirtualReg>) -> Seq<char> {
    match dest {
        Some(d) => "    "@ + vreg_text(d) + " = call "@,
        None => "    call "@,
    }
}

/// The line of an operation.
pub open spec fn op_text(op: Operation) -> Seq<char> {
    match op {
        Operation::Assign { src, dest } => "    "@ + vreg_text(dest) + " = "@ + source_text(src)
            + "\n"@,
        Operation::AddressOf { val, dest } => "    "@ + vreg_text(dest) + " = ref "@ + vreg_text(
            val,
        ) + "\n"@,
        Operation::LoadPointer { ptr, size, dest } => "    "@ + vreg_text(dest) + " = deref "@
            + size_text(size) + " "@ + vreg_text(ptr) + "\n"@,
        Operation::StorePointer { src, ptr } => "    deref "@ + vreg_text(ptr) + " = "@ + vreg_text(
            src,
        ) + "\n"@,
        Operation::Add { a, b, dest } => "    "@ + vreg_text(dest) + " = "@ + vreg_text(a)
            + " + "@ + vreg_text(b) + "\n"@,
        Operation::Subtract { a, b, dest } => "    "@ + vreg_text(dest) + " = "@ + vreg_text(a)
            + " - "@ + vreg_text(b) + "\n"@,
        Operation::Multiply { a, b, dest } => "    "@ + vreg_text(dest) + " = "@ + vreg_text(a)
            + " * "@ + vreg_text(b) + "\n"@,
        Operation::Divide { a, b, dest } => "    "@ + vreg_text(dest) + " = "@ + vreg_text(a)
            + " / "@ + vreg_text(b) + "\n"@,
        Operation::Compare { a, b, cond, dest } => "    "@ + vreg_text(dest) + " = cmp "@
            + vreg_text(a) + " "@ + condition_text(cond) + " "@ + vreg_text(b) + "\n"@,
        Operation::Call { function, args, dest } => call_head(dest) + function@ + "("@ + vregs_text(
            args@,
        ) + ")\n"@,
    }
}

/// The lines of a terminator.
pub open spec fn terminator_text(t: Terminator) -> Seq<char> {
    match t {
        Terminator::Branch { label } => "    goto "@ + label_text(label) + "\n"@,
        Terminator::BranchCond { cond, if_true, if_false } => "    br cond "@ + vreg_text(cond)
            + " [\n      true => "@ + label_text(if_true) + "\n      false => "@ + label_text(
            if_false,
        ) + "\n    ]\n"@,
        Terminator::Return { value } => "    ret "@ + source_text(value) + "\n"@,
    }
}

/// The labels of the blocks of `body` that may pass control to the label `l`, in order.
pub open spec fn predecessors(body: Seq<BasicBlock>, l: Label) -> Seq<Label>
    decreases body.len(),
{
    if body.len() == 0 {
        Seq::empty()
    } else if terminator_targets(body.last().terminator).contains(l) {
        predecessors(body.drop_last(), l).push(body.last().label)
    } else {
        predecessors(body.drop_last(), l)
    }
}

/// The text of block `b` of the function body `body`: its label, arguments and predecessors,
/// its operations, its terminator, and an empty line.
pub open spec fn block_text(body: Seq<BasicBlock>, b: BasicBlock) -> Seq<char> {
    label_text(b.label) + " ("@ + vregs_text(b.args@) + ")  # "@ + labels_text(
        predecessors(body, b.label),
    ) + "\n"@ + concat(b.ops@.map_values(|op: Operation| op_text(op))) + terminator_text(
        b.terminator,
    ) + "\n"@
}

/// The text of a function.
pub open spec fn item_text(item: Item) -> Seq<char> {
    match item {
        Item::Function { name, args, body } => "fn "@ + name@ + "("@ + vregs_text(args@)
            + ") {\n"@ + concat(body@.map_values(|b: BasicBlock| block_text(body@, b)))
            + "}\n\n"@,
    }
}

/// The line of the interned string with id `id`.
pub open spec fn string_line(id: nat, s: Seq<char>) -> Seq<char> {
    "#"@ + nat_text(id) + " => \""@ + s + "\"\n"@
}

/// The text of a whole IR: one line per interned string (by id), an empty line if there are
/// any, then each function.
pub open spec fn ir_text(ir: IR) -> Seq<char> {
    let table = ir.string_table();
    concat(Seq::new(table.len(), |i: int| string_line(i as nat, table[i]))) + (if table.len() > 0 {
        "\n"@
    } else {
        Seq::empty()
    }) + concat(ir.items@.map_values(|item: Item| item_text(item)))
}

/// A list of `n` parts can be joined with a separator of two characters: what the joining
/// reserves fits in memory.
pub open spec fn fits_join(n: nat) -> bool {
    n * 8 <= isize::MAX
}

/// Joins the parts with `sep` between each two of them, by `Itertools::join` on the parts.
///
/// Trusted: `join` writes the first part, then for each further one the separator and the
/// part, and reserves the separator's length times the number of further parts first, which
/// the `requires` keeps within what a `String` may hold.
#[verifier::external_body]
fn join_parts(parts: &Vec<String>, sep: &str) -> (r: String)
    requires
        parts@.len() * 4 * sep@.len() <= isize::MAX,
    ensures
        r@ == joined(parts@.map_values(|p: String| p@), sep@),
{
    parts.iter().join(sep)
}

/// Every list that the text of `ir` joins with `Itertools::join` (the arguments of a block,
/// and the predecessors of a block, which are at most the blocks of its function) fits what
/// joining reserves.
pub open spec fn printable(ir: IR) -> bool {
    forall|i: int| 0 <= i < ir.items.len() ==> #[trigger] item_printable(ir.items@[i])
}

pub open spec fn item_printable(item: Item) -> bool {
    match item {
        Item::Function { body, .. } => fits_join(body@.len()) && forall|j: int|
            0 <= j < body@.len() ==> fits_join((#[trigger] body@[j]).args@.len()),
    }
}

fn push_str(out: &mut String, s: &str)
    ensures
        final(out)@ == old(out)@ + s@,
{
    out.append(s);
}

fn push_digit(out: &mut String, d: u64)
    requires
        d < 10,
    ensures
        final(out)@ == old(out)@ + digit_text(d as nat),
{
    let s = if d == 0 {
        "0"
    } else if d == 1 {
        "1"
    } else if d == 2 {
        "2"
    } else if d == 3 {
        "3"
    } else if d == 4 {
        "4"
    } else if d == 5 {
        "5"
    } else if d == 6 {
        "6"
    } else if d == 7 {
        "7"
    } else if d == 8 {
        "8"
    } else {
        "9"
    };
    push_str(out, s);
}

fn push_nat(out: &mut String, n: u64)
    ensures
        final(out)@ == old(out)@ + nat_text(n as nat),
    decreases n,
{
    if n < 10 {
        push_digit(out, n);
    } else {
        let ghost o = out@;
        push_nat(out, n / 10);
        push_digit(out, n % 10);
        assert(out@ =~= o + nat_text(n as nat));
    }
}

fn push_int(out: &mut String, n: i64)
    ensures
        final(out)@ == old(out)@ + int_text(n as int),
{
    if n < 0 {
        let ghost o = out@;
        push_str(out, "-");
        let m: u64 = (0i128 - n as i128) as u64;
        push_nat(out, m);
        assert(out@ =~= o + int_text(n as int));
    } else {
        push_nat(out, n as u64);
    }
}

fn push_label(out: &mut String, l: Label)
    ensures
        final(out)@ == old(out)@ + label_text(l),
{
    match l {
        Label::Entry => push_str(out, ".entry"),
        Label::Anon(n) => {
            let ghost o = out@;
            push_str(out, ".L");
            push_nat(out, n as u64);
            assert(out@ =~= o + label_text(l));
        },
        Label::Ret => push_str(out, ".end"),
    }
}

fn push_vreg(out: &mut String, r: VirtualReg)
    ensures
        final(out)@ == old(out)@ + vreg_text(r),
{
    let ghost o = out@;
    push_str(out, "%");
    push_nat(out, r.0 as u64);
    assert(out@ =~= o + vreg_text(r));
}

fn push_source(out: &mut String, s: SourceVal)
    ensures
        final(out)@ == old(out)@ + source_text(s),
{
    match s {
        SourceVal::Immediate(n) => push_int(out, n),
        SourceVal::VReg(r) => push_vreg(out, r),
        SourceVal::String(id) => {
            let ghost o = out@;
            push_str(out, "string #");
            push_nat(out, id as u64);
            assert(out@ =~= o + source_text(s));
        },
    }
}

fn push_size(out: &mut String, s: VarSize)
    ensures
        final(out)@ == old(out)@ + size_text(s),
{
    match s {
        VarSize::Zero => push_str(out, "Zero"),
        VarSize::B8 => push_str(out, "B8"),
        VarSize::B16 => push_str(out, "B16"),
        VarSize::B32 => push_str(out, "B32"),
        VarSize::B64 => push_str(out, "B64"),
    }
}

fn push_condition(out: &mut String, c: Condition)
    ensures
        final(out)@ == old(out)@ + condition_text(c),
{
    match c {
        Condition::Equal => push_str(out, "Equal"),
        Condition::NotEqual => push_str(out, "NotEqual"),
        Condition::UnsignedGreaterOrEqual => push_str(out, "UnsignedGreaterOrEqual"),
        Condition::UnsignedLess => push_str(out, "UnsignedLess"),
        Condition::UnsignedGreater => push_str(out, "UnsignedGreater"),
        Condition::UnsignedLessOrEqual => push_str(out, "UnsignedLessOrEqual"),
        Condition::SignedGreaterOrEqual => push_str(out, "SignedGreaterOrEqual"),
        Condition::SignedLess => push_str(out, "SignedLess"),
        Condition::SignedGreater => push_str(out, "SignedGreater"),
        Condition::SignedLessOrEqual => push_str(out, "SignedLessOrEqual"),
        Condition::Negative => push_str(out, "Negative"),
        Condition::PositiveOrZero => push_str(out, "PositiveOrZero"),
        Condition::Overflow => push_str(out, "Overflow"),
        Condition::NoOverflow => push_str(out, "NoOverflow"),
        Condition::Always => push_str(out, "Always"),
        Condition::Never => push_str(out, "Never"),
    }
}

/// Writes the registers separated by commas, one after the other.
fn push_vreg_list(out: &mut String, rs: &Vec<VirtualReg>)
    ensures
        final(out)@ == old(out)@ + vregs_text(rs@),
{
    let ghost o = out@;
    let ghost texts = rs@.map_values(|r: VirtualReg| vreg_text(r));
    let mut i: usize = 0;
    while i < rs.len()
        invariant
            0 <= i <= rs.len(),
            texts == rs@.map_values(|r: VirtualReg| vreg_text(r)),
            out@ == o + joined(texts.take(i as int), ", "@),
        decreases rs.len() - i,
    {
        if i > 0 {
            push_str(out, ", ");
        }
        push_vreg(out, rs[i]);
        proof {
            assert(texts.take(i + 1).drop_last() =~= texts.take(i as int));
            assert(texts.take(i + 1).last() == vreg_text(rs@[i as int]));
            if i == 0 {
                assert(joined(texts.take(0), ", "@) =~= Seq::<char>::empty());
            }
            assert(out@ =~= o + joined(texts.take(i + 1), ", "@));
        }
        i = i + 1;
    }
    assert(texts.take(rs.len() as int) =~= texts);
}

/// The text of each register.
fn vreg_strings(rs: &Vec<VirtualReg>) -> (parts: Vec<String>)
    ensures
        parts@.len() == rs@.len(),
        parts@.map_values(|p: String| p@) == rs@.map_values(|r: VirtualReg| vreg_text(r)),
{
    let mut parts: Vec<String> = Vec::new();
    let mut i: usize = 0;
    while i < rs.len()
        invariant
            0 <= i <= rs.len(),
            parts@.len() == i,
            forall|j: int| 0 <= j < i ==> (#[trigger] parts@[j])@ == vreg_text(rs@[j]),
        decreases rs.len() - i,
    {
        let mut s = String::new();
        push_vreg(&mut s, rs[i]);
        parts.push(s);
        i = i + 1;
    }
    assert(parts@.map_values(|p: String| p@) =~= rs@.map_values(|r: VirtualReg| vreg_text(r)));
    parts
}

/// The text of each label.
fn label_strings(ls: &Vec<Label>) -> (parts: Vec<String>)
    ensures
        parts@.len() == ls@.len(),
        parts@.map_values(|p: String| p@) == ls@.map_values(|l: Label| label_text(l)),
{
    let mut parts: Vec<String> = Vec::new();
    let mut i: usize = 0;
    while i < ls.len()
        invariant
            0 <= i <= ls.len(),
            parts@.len() == i,
            forall|j: int| 0 <= j < i ==> (#[trigger] parts@[j])@ == label_text(ls@[j]),
        decreases ls.len() - i,
    {
        let mut s = String::new();
        push_label(&mut s, ls[i]);
        parts.push(s);
        i = i + 1;
    }
    assert(parts@.map_values(|p: String| p@) =~= ls@.map_values(|l: Label| label_text(l)));
    parts
}

#[verifier::spinoff_prover]
#[verifier::rlimit(50)]
fn push_op(out: &mut String, op: &Operation)
    ensures
        final(out)@ == old(out)@ + op_text(*op),
{
    let ghost o = out@;
    match op {
        Operation::Assign { src, dest } => {
            push_str(out, "    ");
            push_vreg(out, *dest);
            push_str(out, " = ");
            push_source(out, *src);
            push_str(out, "\n");
        },
        Operation::AddressOf { val, dest } => {
            push_str(out, "    ");
            push_vreg(out, *dest);
            push_str(out, " = ref ");
            push_vreg(out, *val);
            push_str(out, "\n");
        },
        Operation::LoadPointer { ptr, size, dest } => {
            push_str(out, "    ");
            push_vreg(out, *dest);
            push_str(out, " = deref ");
            push_size(out, *size);
            push_str(out, " ");
            push_vreg(out, *ptr);
            push_str(out, "\n");
        },
        Operation::StorePointer { src, ptr } => {
            push_str(out, "    deref ");
            push_vreg(out, *ptr);
            push_str(out, " = ");
            push_vreg(out, *src);
            push_str(out, "\n");
        },
        Operation::Add { a, b, dest } => {
            push_str(out, "    ");
            push_vreg(out, *dest);
            push_str(out, " = ");
            push_vreg(out, *a);
            push_str(out, " + ");
            push_vreg(out, *b);
            push_str(out, "\n");
        },
        Operation::Subtract { a, b, dest } => {
            push_str(out, "    ");
            push_vreg(out, *dest);
            push_str(out, " = ");
            push_vreg(out, *a);
            push_str(out, " - ");
            push_vreg(out, *b);
            push_str(out, "\n");
        },
        Operation::Multiply { a, b, dest } => {
            push_str(out, "    ");
            push_vreg(out, *dest);
            push_str(out, " = ");
            push_vreg(out, *a);
            push_str(out, " * ");
            push_vreg(out, *b);
            push_str(out, "\n");
        },
        Operation::Divide { a, b, dest } => {
            push_str(out, "    ");
            push_vreg(out, *dest);
            push_str(out, " = ");
            push_vreg(out, *a);
            push_str(out, " / ");
            push_vreg(out, *b);
            push_str(out, "\n");
        },
        Operation::Compare { a, b, cond, dest } => {
            push_str(out, "    ");
            push_vreg(out, *dest);
            push_str(out, " = cmp ");
            push_vreg(out, *a);
            push_str(out, " ");
            push_condition(out, *cond);
            push_str(out, " ");
            push_vreg(out, *b);
            push_str(out, "\n");
        },
        Operation::Call { function, args, dest } => {
            match dest {
                Some(d) => {
                    push_str(out, "    ");
                    push_vreg(out, *d);
                    push_str(out, " = call ");
                },
                None => {
                    push_str(out, "    call ");
                },
            }
            push_str(out, function.as_str());
            push_str(out, "(");
            push_vreg_list(out, args);
            push_str(out, ")\n");
        },
    }
    assert(out@ =~= o + op_text(*op));
}

#[verifier::spinoff_prover]
#[verifier::rlimit(50)]
fn push_terminator(out: &mut String, t: &Terminator)
    ensures
        final(out)@ == old(out)@ + terminator_text(*t),
{
    let ghost o = out@;
    match t {
        Terminator::Branch { label } => {
            push_str(out, "    goto ");
            push_label(out, *label);
            push_str(out, "\n");
        },
        Terminator::BranchCond { cond, if_true, if_false } => {
            push_str(out, "    br cond ");
            push_vreg(out, *cond);
            push_str(out, " [\n      true => ");
            push_label(out, *if_true);
            push_str(out, "\n      false => ");
            push_label(out, *if_false);
            push_str(out, "\n    ]\n");
        },
        Terminator::Return { value } => {
            push_str(out, "    ret ");
            push_source(out, *value);
            push_str(out, "\n");
        },
    }
    assert(out@ =~= o + terminator_text(*t));
}

/// Control may pass from a block with terminator `t` to the label `l`.
pub(crate) fn targets_contain(t: &Terminator, l: Label) -> (b: bool)
    ensures
        b == terminator_targets(*t).contains(l),
{
    match t {
        Terminator::Branch { label } => {
            assert(terminator_targets(*t)[0] == *label);
            *label == l
        },
        Terminator::BranchCond { if_true, if_false, .. } => {
            assert(terminator_targets(*t)[0] == *if_true);
            assert(terminator_targets(*t)[1] == *if_false);
            *if_true == l || *if_false == l
        },
        Terminator::Return { .. } => {
            assert(terminator_targets(*t)[0] == Label::Ret);
            l == Label::Ret
        },
    }
}

/// The labels of the blocks of `body` that may pass control to `l`.
fn predecessors_of(body: &Vec<BasicBlock>, l: Label) -> (ps: Vec<Label>)
    ensures
        ps@ == predecessors(body@, l),
        ps@.len() <= body@.len(),
{
    let mut ps: Vec<Label> = Vec::new();
    let mut j: usize = 0;
    while j < body.len()
        invariant
            0 <= j <= body.len(),
            ps@ == predecessors(body@.take(j as int), l),
            ps@.len() <= j,
        decreases body.len() - j,
    {
        assert(body@.take(j + 1).drop_last() =~= body@.take(j as int));
        assert(body@.take(j + 1).last() == body@[j as int]);
        if targets_contain(&body[j].terminator, l) {
            ps.push(body[j].label);
        }
        j = j + 1;
    }
    assert(body@.take(body.len() as int) =~= body@);
    ps
}

#[verifier::spinoff_prover]
#[verifier::rlimit(50)]
fn push_block(out: &mut String, body: &Vec<BasicBlock>, b: &BasicBlock)
    requires
        fits_join(body@.len()),
        fits_join(b.args@.len()),
    ensures
        final(out)@ == old(out)@ + block_text(body@, *b),
{
    let ghost o = out@;
    push_label(out, b.label);
    push_str(out, " (");
    let args = vreg_strings(&b.args);
    proof {
        reveal_strlit(", ");
    }
    let joined_args = join_parts(&args, ", ");
    push_str(out, joined_args.as_str());
    push_str(out, ")  # ");
    let preds = predecessors_of(body, b.label);
    let pred_texts = label_strings(&preds);
    let joined_preds = join_parts(&pred_texts, ", ");
    push_str(out, joined_preds.as_str());
    push_str(out, "\n");
    let ghost before_ops = out@;
    let ghost texts = b.ops@.map_values(|op: Operation| op_text(op));
    let mut i: usize = 0;
    while i < b.ops.len()
        invariant
            0 <= i <= b.ops.len(),
            texts == b.ops@.map_values(|op: Operation| op_text(op)),
            out@ == before_ops + concat(texts.take(i as int)),
        decreases b.ops.len() - i,
    {
        push_op(out, &b.ops[i]);
        assert(texts.take(i + 1).drop_last() =~= texts.take(i as int));
        assert(out@ =~= before_ops + concat(texts.take(i + 1)));
        i = i + 1;
    }
    assert(texts.take(b.ops.len() as int) =~= texts);
    push_terminator(out, &b.terminator);
    push_str(out, "\n");
    assert(out@ =~= o + block_text(body@, *b));
}

#[verifier::spinoff_prover]
#[verifier::rlimit(50)]
fn push_item(out: &mut String, item: &Item)
    requires
        item_printable(*item),
    ensures
        final(out)@ == old(out)@ + item_text(*item),
{
    let ghost o = out@;
    let Item::Function { name, args, body } = item;
    push_str(out, "fn ");
    push_str(out, name.as_str());
    push_str(out, "(");
    push_vreg_list(out, args);
    push_str(out, ") {\n");
    let ghost before_blocks = out@;
    let ghost texts = body@.map_values(|b: BasicBlock| block_text(body@, b));
    let mut i: usize = 0;
    while i < body.len()
        invariant
            0 <= i <= body.len(),
            item_printable(*item),
            *item == (Item::Function { name: *name, args: *args, body: *body }),
            texts == body@.map_values(|b: BasicBlock| block_text(body@, b)),
            out@ == before_blocks + concat(texts.take(i as int)),
        decreases body.len() - i,
    {
        push_block(out, body, &body[i]);
        assert(texts.take(i + 1).drop_last() =~= texts.take(i as int));
        assert(out@ =~= before_blocks + concat(texts.take(i + 1)));
        i = i + 1;
    }
    assert(texts.take(body.len() as int) =~= texts);
    push_str(out, "}\n\n");
    assert(out@ =~= o + item_text(*item));
}

impl Label {
    /// The label as the text of the IR writes it: `.entry`, `.L` and the number of an
    /// anonymous label, `.end`.
    pub fn to_string(&self) -> (s: String)
        ensures
            s@ == label_text(*self),
    {
        let mut s = String::new();
        push_label(&mut s, *self);
        s
    }
}

impl VirtualReg {
    /// The register as the text of the IR writes it: `%` and its number.
    pub fn to_string(&self) -> (s: String)
        ensures
            s@ == vreg_text(*self),
    {
        let mut s = String::new();
        push_vreg(&mut s, *self);
        s
    }
}

impl SourceVal {
    /// The value as the text of the IR writes it: an immediate in decimal, a register, or
    /// `string #` and the id of a string.
    pub fn to_string(&self) -> (s: String)
        ensures
            s@ == source_text(*self),
    {
        let mut s = String::new();
        push_source(&mut s, *self);
        s
    }
}

impl IR {
    /// The text of the IR: the interned strings with their ids, then each function with its
    /// blocks, each block with its arguments, its predecessors, its operations and its
    /// terminator.
    #[verifier::spinoff_prover]
    #[verifier::rlimit(50)]
    pub fn to_string(&self) -> (s: String)
        requires
            printable(*self),
        ensures
            s@ == ir_text(*self),
    {
        let mut out = String::new();
        let ghost table = self.string_table();
        let ghost lines = Seq::new(table.len(), |i: int| string_line(i as nat, table[i]));
        let mut i: usize = 0;
        while i < self.strings.len()
            invariant
                0 <= i <= self.strings.len(),
                table == self.string_table(),
                lines == Seq::new(table.len(), |i: int| string_line(i as nat, table[i])),
                out@ == concat(lines.take(i as int)),
            decreases self.strings.len() - i,
        {
            let ghost o = out@;
            push_str(&mut out, "#");
            push_nat(&mut out, i as u64);
            push_str(&mut out, " => \"");
            push_str(&mut out, self.strings[i].as_str());
            push_str(&mut out, "\"\n");
            assert(lines.take(i + 1).drop_last() =~= lines.take(i as int));
            assert(out@ =~= concat(lines.take(i + 1)));
            i = i + 1;
        }
        assert(lines.take(self.strings.len() as int) =~= lines);
        if self.strings.len() > 0 {
            push_str(&mut out, "\n");
        }
        let ghost head = out@;
        let ghost texts = self.items@.map_values(|item: Item| item_text(item));
        let mut k: usize = 0;
        while k < self.items.len()
            invariant
                0 <= k <= self.items.len(),
                printable(*self),
                texts == self.items@.map_values(|item: Item| item_text(item)),
                out@ == head + concat(texts.take(k as int)),
            decreases self.items.len() - k,
        {
            push_item(&mut out, &self.items[k]);
            assert(texts.take(k + 1).drop_last() =~= texts.take(k as int));
            assert(out@ =~= head + concat(texts.take(k + 1)));
            k = k + 1;
        }
        assert(texts.take(self.items.len() as int) =~= texts);
        assert(out@ =~= ir_text(*self));
        out
    }
}

/// The length and the second character of the name of each condition: no two names share both.
spec fn condition_key(x: Condition) -> (nat, char) {
    match x {
        Condition::Equal => (5, 'q'),
        Condition::NotEqual => (8, 'o'),
        Condition::UnsignedGreaterOrEqual => (22, 'n'),
        Condition::UnsignedLess => (12, 'n'),
        Condition::UnsignedGreater => (15, 'n'),
        Condition::UnsignedLessOrEqual => (19, 'n'),
        Condition::SignedGreaterOrEqual => (20, 'i'),
        Condition::SignedLess => (10, 'i'),
        Condition::SignedGreater => (13, 'i'),
        Condition::SignedLessOrEqual => (17, 'i'),
        Condition::Negative => (8, 'e'),
        Condition::PositiveOrZero => (14, 'o'),
        Condition::Overflow => (8, 'v'),
        Condition::NoOverflow => (10, 'o'),
        Condition::Always => (6, 'l'),
        Condition::Never => (5, 'e'),
    }
}

proof fn lemma_condition_key(x: Condition)
    ensures
        condition_key(x) == (condition_text(x).len(), condition_text(x)[1]),
{
    match x {
        Condition::Equal => {
            reveal_strlit("Equal");
        },
        Condition::NotEqual => {
            reveal_strlit("NotEqual");
        },
        Condition::UnsignedGreaterOrEqual => {
            reveal_strlit("UnsignedGreaterOrEqual");
        },
        Condition::UnsignedLess => {
            reveal_strlit("UnsignedLess");
        },
        Condition::UnsignedGreater => {
            reveal_strlit("UnsignedGreater");
        },
        Condition::UnsignedLessOrEqual => {
            reveal_strlit("UnsignedLessOrEqual");
        },
        Condition::SignedGreaterOrEqual => {
            reveal_strlit("SignedGreaterOrEqual");
        },
        Condition::SignedLess => {
            reveal_strlit("SignedLess");
        },
        Condition::SignedGreater => {
            reveal_strlit("SignedGreater");
        },
        Condition::SignedLessOrEqual => {
            reveal_strlit("SignedLessOrEqual");
        },
        Condition::Negative => {
            reveal_strlit("Negative");
        },
        Condition::PositiveOrZero => {
            reveal_strlit("PositiveOrZero");
        },
        Condition::Overflow => {
            reveal_strlit("Overflow");
        },
        Condition::NoOverflow => {
            reveal_strlit("NoOverflow");
        },
        Condition::Always => {
            reveal_strlit("Always");
        },
        Condition::Never => {
            reveal_strlit("Never");
        },
    }
}

/// Distinct conditions print distinct names: the text of a comparison tells which condition
/// it tests.
pub proof fn law_condition_text_distinct(c1: Condition, c2: Condition)
    requires
        c1 != c2,
    ensures
        condition_text(c1) != condition_text(c2),
{
    lemma_condition_key(c1);
    lemma_condition_key(c2);
    assert(condition_key(c1) != condition_key(c2));
}

/// The length and the second character of the name of each size: no two names share both.
spec fn size_key(x: VarSize) -> (nat, char) {
    match x {
        VarSize::Zero => (4, 'e'),
        VarSize::B8 => (2, '8'),
        VarSize::B16 => (3, '1'),
        VarSize::B32 => (3, '3'),
        VarSize::B64 => (3, '6'),
    }
}

proof fn lemma_size_key(x: VarSize)
    ensures
        size_key(x) == (size_text(x).len(), size_text(x)[1]),
{
    match x {
        VarSize::Zero => {
            reveal_strlit("Zero");
        },
        VarSize::B8 => {
            reveal_strlit("B8");
        },
        VarSize::B16 => {
            reveal_strlit("B16");
        },
        VarSize::B32 => {
            reveal_strlit("B32");
        },
        VarSize::B64 => {
            reveal_strlit("B64");
        },
    }
}

/// Distinct sizes print distinct names: the text of a load tells how many bytes it reads.
pub proof fn law_size_text_distinct(s1: VarSize, s2: VarSize)
    requires
        s1 != s2,
    ensures
        size_text(s1) != size_text(s2),
{
    lemma_size_key(s1);
    lemma_size_key(s2);
    assert(size_key(s1) != size_key(s2));
}

} // verus!
