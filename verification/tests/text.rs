use basil::ir::{BasicBlock, Condition, Item, Label, Operation, SourceVal, Terminator, VarSize, VirtualReg, IR};

#[test]
fn label_text() {
    assert_eq!(Label::Entry.to_string(), ".entry");
    assert_eq!(Label::Anon(0).to_string(), ".L0");
    assert_eq!(Label::Anon(4294967295).to_string(), ".L4294967295");
    assert_eq!(Label::Ret.to_string(), ".end");
}

#[test]
fn register_text() {
    assert_eq!(VirtualReg(0).to_string(), "%0");
    assert_eq!(VirtualReg(1234).to_string(), "%1234");
}

#[test]
fn source_value_text() {
    assert_eq!(SourceVal::Immediate(0).to_string(), "0");
    assert_eq!(SourceVal::Immediate(-42).to_string(), "-42");
    assert_eq!(SourceVal::Immediate(i64::MAX).to_string(), "9223372036854775807");
    assert_eq!(SourceVal::Immediate(i64::MIN).to_string(), "-9223372036854775808");
    assert_eq!(SourceVal::VReg(VirtualReg(10)).to_string(), "%10");
    assert_eq!(SourceVal::String(3).to_string(), "string #3");
}

#[test]
fn empty_ir_text() {
    assert_eq!(IR::default().to_string(), "");
}

#[test]
fn strings_only_text() {
    let mut ir = IR::default();
    ir.alloc_str_literal("a b".to_string());
    ir.alloc_str_literal("c".to_string());
    assert_eq!(ir.to_string(), "#0 => \"a b\"\n#1 => \"c\"\n\n");
}

#[test]
fn every_operation_text() {
    let r = VirtualReg;
    let ops = vec![
        Operation::Assign { src: SourceVal::Immediate(-1), dest: r(0) },
        Operation::AddressOf { val: r(0), dest: r(1) },
        Operation::LoadPointer { ptr: r(1), size: VarSize::B16, dest: r(2) },
        Operation::StorePointer { src: r(2), ptr: r(1) },
        Operation::Add { a: r(0), b: r(2), dest: r(3) },
        Operation::Subtract { a: r(0), b: r(2), dest: r(3) },
        Operation::Multiply { a: r(0), b: r(2), dest: r(3) },
        Operation::Divide { a: r(0), b: r(2), dest: r(3) },
        Operation::Compare { a: r(0), b: r(2), cond: Condition::UnsignedGreaterOrEqual, dest: r(4) },
        Operation::Call { function: "f".to_string(), args: vec![r(0), r(1), r(2)], dest: Some(r(5)) },
        Operation::Call { function: "g".to_string(), args: vec![], dest: None },
    ];
    let ir = IR {
        items: vec![Item::Function {
            name: "ops".to_string(),
            args: vec![r(7), r(8)],
            body: vec![
                BasicBlock {
                    label: Label::Entry,
                    args: vec![r(7), r(8)],
                    ops,
                    terminator: Terminator::Branch { label: Label::Anon(3) },
                },
                BasicBlock {
                    label: Label::Anon(3),
                    args: vec![],
                    ops: vec![],
                    terminator: Terminator::Return { value: SourceVal::VReg(r(5)) },
                },
            ],
        }],
        strings: vec![],
    };
    let expected = [
        "fn ops(%7, %8) {\n",
        ".entry (%7, %8)  # \n",
        "    %0 = -1\n",
        "    %1 = ref %0\n",
        "    %2 = deref B16 %1\n",
        "    deref %1 = %2\n",
        "    %3 = %0 + %2\n",
        "    %3 = %0 - %2\n",
        "    %3 = %0 * %2\n",
        "    %3 = %0 / %2\n",
        "    %4 = cmp %0 UnsignedGreaterOrEqual %2\n",
        "    %5 = call f(%0, %1, %2)\n",
        "    call g()\n",
        "    goto .L3\n",
        "\n",
        ".L3 ()  # .entry\n",
        "    ret %5\n",
        "\n",
        "}\n\n",
    ]
    .concat();
    assert_eq!(ir.to_string(), expected);
}

#[test]
fn predecessors_are_listed_in_block_order() {
    let ir = IR {
        items: vec![Item::Function {
            name: "loop".to_string(),
            args: vec![],
            body: vec![
                BasicBlock {
                    label: Label::Anon(1),
                    args: vec![],
                    ops: vec![],
                    terminator: Terminator::Branch { label: Label::Anon(2) },
                },
                BasicBlock {
                    label: Label::Anon(2),
                    args: vec![VirtualReg(0)],
                    ops: vec![],
                    terminator: Terminator::BranchCond {
                        cond: VirtualReg(0),
                        if_true: Label::Anon(1),
                        if_false: Label::Anon(2),
                    },
                },
            ],
        }],
        strings: vec![],
    };
    let expected = [
        "fn loop() {\n",
        ".L1 ()  # .L2\n",
        "    goto .L2\n",
        "\n",
        ".L2 (%0)  # .L1, .L2\n",
        "    br cond %0 [\n",
        "      true => .L1\n",
        "      false => .L2\n",
        "    ]\n",
        "\n",
        "}\n\n",
    ]
    .concat();
    assert_eq!(ir.to_string(), expected);
}
