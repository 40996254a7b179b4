use basil::analyze::ast::CompareOp;
use basil::ir::{
    BasicBlock, Condition, Label, Operation, SourceVal, Terminator, VarSize, VirtualReg, IR,
};

fn all_conditions() -> Vec<Condition> {
    vec![
        Condition::Equal,
        Condition::NotEqual,
        Condition::UnsignedGreaterOrEqual,
        Condition::UnsignedLess,
        Condition::UnsignedGreater,
        Condition::UnsignedLessOrEqual,
        Condition::SignedGreaterOrEqual,
        Condition::SignedLess,
        Condition::SignedGreater,
        Condition::SignedLessOrEqual,
        Condition::Negative,
        Condition::PositiveOrZero,
        Condition::Overflow,
        Condition::NoOverflow,
        Condition::Always,
        Condition::Never,
    ]
}

fn name(c: Condition) -> String {
    format!("{:?}", c)
}

#[test]
fn inverted_twice_gives_condition_back() {
    for c in all_conditions() {
        assert_eq!(name(c.inverted().inverted()), name(c));
        assert_ne!(name(c.inverted()), name(c));
    }
}

#[test]
fn inverted_pairs() {
    assert_eq!(name(Condition::Equal.inverted()), "NotEqual");
    assert_eq!(name(Condition::UnsignedLess.inverted()), "UnsignedGreaterOrEqual");
    assert_eq!(name(Condition::SignedGreater.inverted()), "SignedLessOrEqual");
    assert_eq!(name(Condition::Negative.inverted()), "PositiveOrZero");
    assert_eq!(name(Condition::Overflow.inverted()), "NoOverflow");
    assert_eq!(name(Condition::Always.inverted()), "Never");
}

#[test]
fn from_ast_op_depends_on_sign_only_for_orderings() {
    assert_eq!(name(Condition::from_ast_op(CompareOp::Equal, true)), "Equal");
    assert_eq!(name(Condition::from_ast_op(CompareOp::Equal, false)), "Equal");
    assert_eq!(name(Condition::from_ast_op(CompareOp::NotEqual, true)), "NotEqual");
    assert_eq!(name(Condition::from_ast_op(CompareOp::Less, true)), "SignedLess");
    assert_eq!(name(Condition::from_ast_op(CompareOp::Less, false)), "UnsignedLess");
    assert_eq!(name(Condition::from_ast_op(CompareOp::LessOrEqual, true)), "SignedLessOrEqual");
    assert_eq!(name(Condition::from_ast_op(CompareOp::LessOrEqual, false)), "UnsignedLessOrEqual");
    assert_eq!(name(Condition::from_ast_op(CompareOp::Greater, true)), "SignedGreater");
    assert_eq!(name(Condition::from_ast_op(CompareOp::Greater, false)), "UnsignedGreater");
    assert_eq!(
        name(Condition::from_ast_op(CompareOp::GreaterOrEqual, true)),
        "SignedGreaterOrEqual"
    );
    assert_eq!(
        name(Condition::from_ast_op(CompareOp::GreaterOrEqual, false)),
        "UnsignedGreaterOrEqual"
    );
}

#[test]
fn inverting_a_lowered_comparison_lowers_its_negation() {
    let pairs = [
        (CompareOp::Equal, CompareOp::NotEqual),
        (CompareOp::NotEqual, CompareOp::Equal),
        (CompareOp::Less, CompareOp::GreaterOrEqual),
        (CompareOp::LessOrEqual, CompareOp::Greater),
        (CompareOp::Greater, CompareOp::LessOrEqual),
        (CompareOp::GreaterOrEqual, CompareOp::Less),
    ];
    for (op, neg) in pairs {
        for signed in [true, false] {
            assert_eq!(
                name(Condition::from_ast_op(op, signed).inverted()),
                name(Condition::from_ast_op(neg, signed))
            );
        }
    }
}

#[test]
fn reg_of_source_values() {
    assert_eq!(SourceVal::VReg(VirtualReg(3)).reg(), Some(VirtualReg(3)));
    assert_eq!(SourceVal::Immediate(3).reg(), None);
    assert_eq!(SourceVal::String(3).reg(), None);
}

fn block(terminator: Terminator) -> BasicBlock {
    BasicBlock { label: Label::Entry, args: vec![], ops: vec![], terminator }
}

#[test]
fn successors_follow_the_terminator() {
    let b = block(Terminator::Branch { label: Label::Anon(4) });
    assert_eq!(b.successors(), vec![Label::Anon(4)]);
    let b = block(Terminator::BranchCond {
        cond: VirtualReg(0),
        if_true: Label::Anon(1),
        if_false: Label::Anon(2),
    });
    assert_eq!(b.successors(), vec![Label::Anon(1), Label::Anon(2)]);
    let b = block(Terminator::Return { value: SourceVal::Immediate(0) });
    assert_eq!(b.successors(), vec![Label::Ret]);
}

fn used(op: &Operation) -> (Vec<u32>, Option<VirtualReg>) {
    let (regs, assigned) = op.vregs_used();
    let mut nums: Vec<u32> = regs.iter().map(|r| r.0).collect();
    nums.sort();
    (nums, assigned)
}

#[test]
fn vregs_used_by_each_operation() {
    let r = VirtualReg;
    assert_eq!(
        used(&Operation::Assign { src: SourceVal::VReg(r(1)), dest: r(2) }),
        (vec![1], Some(r(2)))
    );
    assert_eq!(
        used(&Operation::Assign { src: SourceVal::Immediate(7), dest: r(2) }),
        (vec![], Some(r(2)))
    );
    assert_eq!(
        used(&Operation::AddressOf { val: r(1), dest: r(2) }),
        (vec![1, 2], None)
    );
    assert_eq!(
        used(&Operation::LoadPointer { ptr: r(1), size: VarSize::B64, dest: r(2) }),
        (vec![1], Some(r(2)))
    );
    assert_eq!(used(&Operation::StorePointer { src: r(1), ptr: r(2) }), (vec![1, 2], None));
    assert_eq!(used(&Operation::Add { a: r(1), b: r(1), dest: r(3) }), (vec![1], Some(r(3))));
    assert_eq!(
        used(&Operation::Subtract { a: r(1), b: r(2), dest: r(3) }),
        (vec![1, 2], Some(r(3)))
    );
    assert_eq!(
        used(&Operation::Multiply { a: r(1), b: r(2), dest: r(3) }),
        (vec![1, 2], Some(r(3)))
    );
    assert_eq!(
        used(&Operation::Divide { a: r(1), b: r(2), dest: r(3) }),
        (vec![1, 2], Some(r(3)))
    );
    assert_eq!(
        used(&Operation::Compare { a: r(4), b: r(2), cond: Condition::Equal, dest: r(3) }),
        (vec![2, 4], Some(r(3)))
    );
    assert_eq!(
        used(&Operation::Call { function: "f".to_string(), args: vec![r(5), r(1), r(5)], dest: None }),
        (vec![1, 5], None)
    );
    assert_eq!(
        used(&Operation::Call { function: "f".to_string(), args: vec![], dest: Some(r(0)) }),
        (vec![], Some(r(0)))
    );
}

#[test]
fn vregs_used_leaves_out_untouched() {
    let mut out = vec![VirtualReg(9)];
    Operation::Add { a: VirtualReg(1), b: VirtualReg(2), dest: VirtualReg(3) }._vregs_used(&mut out);
    assert_eq!(out, vec![VirtualReg(9)]);
}

#[test]
fn interning_gives_each_string_one_id() {
    let mut ir = IR::default();
    assert_eq!(ir.alloc_str_literal("hello".to_string()), 0);
    assert_eq!(ir.alloc_str_literal("world".to_string()), 1);
    assert_eq!(ir.alloc_str_literal("hello".to_string()), 0);
    assert_eq!(ir.alloc_str_literal("".to_string()), 2);
    assert_eq!(ir.alloc_str_literal("world".to_string()), 1);
    assert_eq!(ir.strings, vec!["hello".to_string(), "world".to_string(), "".to_string()]);
    assert!(ir.items.is_empty());
}

#[test]
fn interning_twice_leaves_the_table() {
    let mut ir = IR::default();
    let first = ir.alloc_str_literal("x".to_string());
    let table = ir.strings.clone();
    let second = ir.alloc_str_literal("x".to_string());
    assert_eq!(first, second);
    assert_eq!(ir.strings, table);
}

#[test]
fn interning_finds_the_first_of_repeated_entries() {
    let mut ir = IR::default();
    ir.strings = vec!["a".to_string(), "b".to_string(), "a".to_string()];
    assert_eq!(ir.alloc_str_literal("a".to_string()), 0);
    assert_eq!(ir.alloc_str_literal("c".to_string()), 3);
    assert_eq!(ir.strings.len(), 4);
}
