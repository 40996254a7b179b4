use basil::analyze::ast::{
    ArithmeticOp, Assignable, CompareOp, ExprInner, Expression, Item as AstItem, Statement, Type,
    AST,
};
use basil::analyze::semantics::{Sign, ValidAST};
use basil::ir::{Item, Label, Operation, SourceVal, Terminator, VarSize, VirtualReg, IR};

fn e(inner: ExprInner) -> Expression {
    Expression { inner }
}

fn var(name: &str) -> Expression {
    e(ExprInner::Variable(name.to_string()))
}

fn num(n: i64) -> Expression {
    e(ExprInner::Const(n))
}

fn text(s: &str) -> Expression {
    e(ExprInner::String(s.to_string()))
}

fn function(name: &str, args: &[&str], body: Vec<Statement>) -> AstItem {
    AstItem::Function {
        name: name.to_string(),
        args: args.iter().map(|a| a.to_string()).collect(),
        body,
    }
}

fn program(items: Vec<AstItem>) -> ValidAST {
    ValidAST(AST { items })
}

fn labels(ir: &IR, item: usize) -> Vec<Label> {
    let Item::Function { body, .. } = &ir.items[item];
    body.iter().map(|b| b.label).collect()
}

#[test]
fn declaration_and_return_lower_to_one_block() {
    let ir = IR::generate(program(vec![function(
        "f",
        &["a"],
        vec![
            Statement::Declare { var: "b".to_string(), expr: num(5) },
            Statement::Return(var("b")),
        ],
    )]));
    assert_eq!(ir.items.len(), 1);
    assert!(ir.strings.is_empty());
    let Item::Function { name, args, body } = &ir.items[0];
    assert_eq!(name, "f");
    assert_eq!(args, &vec![VirtualReg(0)]);
    assert_eq!(body.len(), 1);
    assert_eq!(body[0].label, Label::Entry);
    assert_eq!(body[0].args, vec![VirtualReg(0)]);
    assert_eq!(body[0].ops.len(), 1);
    assert!(matches!(
        body[0].ops[0],
        Operation::Assign { src: SourceVal::Immediate(5), dest: VirtualReg(0) }
    ));
    assert!(matches!(
        body[0].terminator,
        Terminator::Return { value: SourceVal::VReg(VirtualReg(0)) }
    ));
    assert_eq!(ir.to_string(), "fn f(%0) {\n.entry (%0)  # \n    %0 = 5\n    ret %0\n\n}\n\n");
}

fn if_program() -> ValidAST {
    program(vec![function(
        "main",
        &[],
        vec![
            Statement::If {
                guard: e(ExprInner::Comparison(
                    Box::new(num(1)),
                    Box::new(num(2)),
                    CompareOp::Less,
                    Some(Sign::Signed),
                )),
                body: vec![Statement::Expr(e(ExprInner::FnCall(
                    "foo".to_string(),
                    vec![text("hi")],
                )))],
            },
            Statement::Return(text("hi")),
        ],
    )])
}

#[test]
fn if_statement_splits_blocks() {
    let ir = IR::generate(if_program());
    assert_eq!(ir.strings, vec!["hi".to_string()]);
    assert_eq!(labels(&ir, 0), vec![Label::Entry, Label::Anon(0), Label::Anon(1)]);
    let Item::Function { body, .. } = &ir.items[0];
    assert!(matches!(
        body[0].terminator,
        Terminator::BranchCond { cond: VirtualReg(2), if_true: Label::Anon(0), if_false: Label::Anon(1) }
    ));
    assert!(matches!(body[1].terminator, Terminator::Branch { label: Label::Anon(1) }));
    assert!(matches!(body[2].terminator, Terminator::Return { value: SourceVal::String(0) }));
    assert!(matches!(
        body[0].ops[2],
        Operation::Compare { a: VirtualReg(0), b: VirtualReg(1), dest: VirtualReg(2), .. }
    ));
    if let Operation::Compare { cond, .. } = &body[0].ops[2] {
        assert_eq!(format!("{:?}", cond), "SignedLess");
    }
    if let Operation::Call { function, args, dest } = &body[1].ops[1] {
        assert_eq!(function, "foo");
        assert_eq!(args, &vec![VirtualReg(3)]);
        assert_eq!(*dest, Some(VirtualReg(4)));
    } else {
        panic!("expected a call");
    }
}

#[test]
fn if_statement_text() {
    let ir = IR::generate(if_program());
    let expected = [
        "#0 => \"hi\"\n\n",
        "fn main() {\n",
        ".entry ()  # \n",
        "    %0 = 1\n",
        "    %1 = 2\n",
        "    %2 = cmp %0 SignedLess %1\n",
        "    br cond %2 [\n",
        "      true => .L0\n",
        "      false => .L1\n",
        "    ]\n",
        "\n",
        ".L0 ()  # .entry\n",
        "    %3 = string #0\n",
        "    %4 = call foo(%3)\n",
        "    goto .L1\n",
        "\n",
        ".L1 ()  # .entry, .L0\n",
        "    ret string #0\n",
        "\n",
        "}\n\n",
    ]
    .concat();
    assert_eq!(ir.to_string(), expected);
}

#[test]
fn assignments_add_block_arguments_and_end_at_return_label() {
    let ir = IR::generate(program(vec![function(
        "g",
        &["p"],
        vec![
            Statement::Assign {
                var: Assignable::Var("p".to_string()),
                expr: e(ExprInner::Arithmetic(
                    Box::new(var("p")),
                    Box::new(num(2)),
                    ArithmeticOp::Mult,
                    None,
                )),
            },
            Statement::Assign { var: Assignable::Var("x".to_string()), expr: var("p") },
        ],
    )]));
    assert_eq!(
        ir.to_string(),
        "fn g(%0) {\n.entry (%0, %0, %1)  # \n    %0 = 2\n    %0 = %0 * %0\n    %1 = %0\n    goto .end\n\n}\n\n"
    );
    let Item::Function { body, .. } = &ir.items[0];
    assert!(matches!(body[0].terminator, Terminator::Branch { label: Label::Ret }));
}

#[test]
fn pointers_and_casts() {
    let ir = IR::generate(program(vec![function(
        "h",
        &["p"],
        vec![
            Statement::Declare { var: "q".to_string(), expr: e(ExprInner::Pointer("p".to_string())) },
            Statement::Declare {
                var: "v".to_string(),
                expr: e(ExprInner::Deref("q".to_string(), Some(Type { size: VarSize::B32 }))),
            },
            Statement::Return(e(ExprInner::Cast(
                Box::new(e(ExprInner::Character('A'))),
                Type { size: VarSize::B8 },
            ))),
        ],
    )]));
    assert_eq!(
        ir.to_string(),
        "fn h(%0) {\n.entry (%0)  # \n    %0 = ref %0\n    %1 = deref B32 %0\n    ret 65\n\n}\n\n"
    );
}

#[test]
fn empty_body_has_no_blocks() {
    let ir = IR::generate(program(vec![function("empty", &["a", "b"], vec![])]));
    let Item::Function { args, body, .. } = &ir.items[0];
    assert_eq!(args, &vec![VirtualReg(0), VirtualReg(1)]);
    assert!(body.is_empty());
    assert_eq!(ir.to_string(), "fn empty(%0, %1) {\n}\n\n");
}

#[test]
fn string_literals_are_interned_across_functions() {
    let ir = IR::generate(program(vec![
        function("a", &[], vec![Statement::Return(text("x"))]),
        function(
            "b",
            &[],
            vec![
                Statement::Expr(text("y")),
                Statement::Expr(text("x")),
                Statement::Return(e(ExprInner::Bool(true))),
            ],
        ),
    ]));
    assert_eq!(ir.strings, vec!["x".to_string(), "y".to_string()]);
    assert_eq!(ir.items.len(), 2);
    let Item::Function { body, .. } = &ir.items[1];
    assert!(matches!(body[0].terminator, Terminator::Return { value: SourceVal::Immediate(1) }));
    assert!(ir.to_string().starts_with("#0 => \"x\"\n#1 => \"y\"\n\nfn a() {\n"));
}

#[test]
fn true_branch_falls_through_to_next_block() {
    let ir = IR::generate(program(vec![function(
        "k",
        &["c"],
        vec![
            Statement::If {
                guard: var("c"),
                body: vec![Statement::If { guard: var("c"), body: vec![Statement::Return(num(1))] }],
            },
            Statement::Return(num(0)),
        ],
    )]));
    let Item::Function { body, .. } = &ir.items[0];
    let ls = labels(&ir, 0);
    for i in 0..ls.len() {
        for j in 0..i {
            assert_ne!(ls[i], ls[j]);
        }
        assert_ne!(ls[i], Label::Ret);
    }
    assert_eq!(ls[0], Label::Entry);
    for i in 0..body.len() - 1 {
        match body[i].terminator {
            Terminator::Branch { label } => assert_eq!(label, body[i + 1].label),
            Terminator::BranchCond { if_true, .. } => assert_eq!(if_true, body[i + 1].label),
            Terminator::Return { .. } => {}
        }
    }
    assert!(!matches!(body[body.len() - 1].terminator, Terminator::BranchCond { .. }));
}

#[test]
fn body_ending_in_if_keeps_the_block_after_it() {
    let ir = IR::generate(program(vec![function(
        "m",
        &[],
        vec![Statement::If { guard: e(ExprInner::Bool(true)), body: vec![] }],
    )]));
    assert_eq!(labels(&ir, 0), vec![Label::Entry, Label::Anon(0), Label::Anon(1)]);
    let Item::Function { body, .. } = &ir.items[0];
    assert!(body[2].ops.is_empty());
    assert!(matches!(body[2].terminator, Terminator::Branch { label: Label::Ret }));
    let expected = [
        "fn m() {\n",
        ".entry ()  # \n",
        "    %0 = 1\n",
        "    br cond %0 [\n",
        "      true => .L0\n",
        "      false => .L1\n",
        "    ]\n",
        "\n",
        ".L0 ()  # .entry\n",
        "    goto .L1\n",
        "\n",
        ".L1 ()  # .entry, .L0\n",
        "    goto .end\n",
        "\n",
        "}\n\n",
    ]
    .concat();
    assert_eq!(ir.to_string(), expected);
}

#[test]
fn every_branch_target_is_a_block_or_the_return_label() {
    let ir = IR::generate(program(vec![function(
        "n",
        &["c"],
        vec![
            Statement::If {
                guard: var("c"),
                body: vec![Statement::If { guard: var("c"), body: vec![] }],
            },
            Statement::If { guard: var("c"), body: vec![Statement::Return(num(2))] },
        ],
    )]));
    let Item::Function { body, .. } = &ir.items[0];
    let ls = labels(&ir, 0);
    for b in body {
        for s in b.successors() {
            assert!(s == Label::Ret || ls.contains(&s));
        }
    }
}

#[test]
fn empty_trailing_block_that_nothing_reaches_is_dropped() {
    let ir = IR::generate(program(vec![function("p", &[], vec![Statement::Return(num(3))])]));
    assert_eq!(labels(&ir, 0), vec![Label::Entry]);
    assert_eq!(ir.to_string(), "fn p() {\n.entry ()  # \n    ret 3\n\n}\n\n");
}

#[test]
fn declared_variables_get_distinct_registers_and_keep_them() {
    let ir = IR::generate(program(vec![function(
        "q",
        &[],
        vec![
            Statement::Declare { var: "a".to_string(), expr: num(1) },
            Statement::Declare { var: "b".to_string(), expr: num(2) },
            Statement::Assign { var: Assignable::Var("a".to_string()), expr: num(3) },
            Statement::Return(var("b")),
        ],
    )]));
    let Item::Function { body, .. } = &ir.items[0];
    assert_eq!(body.len(), 1);
    assert!(body[0].args.is_empty());
    assert!(matches!(body[0].ops[0], Operation::Assign { src: SourceVal::Immediate(1), dest: VirtualReg(0) }));
    assert!(matches!(body[0].ops[1], Operation::Assign { src: SourceVal::Immediate(2), dest: VirtualReg(1) }));
    assert!(matches!(body[0].ops[2], Operation::Assign { src: SourceVal::Immediate(3), dest: VirtualReg(0) }));
    assert!(matches!(body[0].terminator, Terminator::Return { value: SourceVal::VReg(VirtualReg(1)) }));
}
