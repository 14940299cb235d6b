use armfortas::ir::inst::{Function, Inst, InstKind, Module, Param, Terminator, ValueId};
use armfortas::ir::types::{IntWidth, IrType};
use armfortas::lexer::{Position, Span};
use armfortas::opt::const_prop::ConstProp;
use armfortas::opt::pass::Pass;
use armfortas::target::TargetLayout;

fn dummy_span() -> Span {
    let p = Position { line: 1, col: 1 };
    Span { start: p, end: p, file_id: 0 }
}

#[test]
fn condbranch_with_true_const_folds_to_branch_true() {
    let mut m = Module::new("t".into(), TargetLayout::LP64);
    let mut f = Function::new("f".into(), vec![], IrType::Void);

    // Build: entry { cond=const(true); cond_branch cond, then, else }
    //        then  { ret }
    //        else  { ret }
    let bb_t = f.create_block("then");
    let bb_e = f.create_block("else");
    let cond_id = f.next_value_id();
    f.block_mut(f.entry).insts.push(Inst {
        id: cond_id,
        kind: InstKind::ConstBool(true),
        ty: IrType::Bool,
        span: dummy_span(),
    });
    f.block_mut(f.entry).terminator = Some(Terminator::CondBranch {
        cond: cond_id,
        true_dest: bb_t,
        true_args: vec![],
        false_dest: bb_e,
        false_args: vec![],
    });
    f.block_mut(bb_t).terminator = Some(Terminator::Return(None));
    f.block_mut(bb_e).terminator = Some(Terminator::Return(None));
    m.add_function(f);

    assert!(ConstProp.run(&mut m));
    match &m.functions[0].blocks[0].terminator {
        Some(Terminator::Branch(dest, _)) => assert_eq!(*dest, bb_t),
        other => panic!("expected Branch, got {:?}", other),
    }
}

#[test]
fn condbranch_with_false_const_folds_to_branch_false() {
    let mut m = Module::new("t".into(), TargetLayout::LP64);
    let mut f = Function::new("f".into(), vec![], IrType::Void);
    let bb_t = f.create_block("then");
    let bb_e = f.create_block("else");
    let cond_id = f.next_value_id();
    f.block_mut(f.entry).insts.push(Inst {
        id: cond_id,
        kind: InstKind::ConstBool(false),
        ty: IrType::Bool,
        span: dummy_span(),
    });
    f.block_mut(f.entry).terminator = Some(Terminator::CondBranch {
        cond: cond_id,
        true_dest: bb_t,
        true_args: vec![],
        false_dest: bb_e,
        false_args: vec![],
    });
    f.block_mut(bb_t).terminator = Some(Terminator::Return(None));
    f.block_mut(bb_e).terminator = Some(Terminator::Return(None));
    m.add_function(f);

    assert!(ConstProp.run(&mut m));
    match &m.functions[0].blocks[0].terminator {
        Some(Terminator::Branch(dest, _)) => assert_eq!(*dest, bb_e),
        other => panic!("expected Branch, got {:?}", other),
    }
}

#[test]
fn switch_with_const_selector_picks_case() {
    let mut m = Module::new("t".into(), TargetLayout::LP64);
    let mut f = Function::new("f".into(), vec![], IrType::Void);
    let case_a = f.create_block("a");
    let case_b = f.create_block("b");
    let default = f.create_block("default");
    let sel_id = f.next_value_id();
    f.block_mut(f.entry).insts.push(Inst {
        id: sel_id,
        kind: InstKind::ConstInt(2, IntWidth::I32),
        ty: IrType::Int(IntWidth::I32),
        span: dummy_span(),
    });
    f.block_mut(f.entry).terminator = Some(Terminator::Switch {
        selector: sel_id,
        cases: vec![(1, case_a), (2, case_b)],
        default,
    });
    f.block_mut(case_a).terminator = Some(Terminator::Return(None));
    f.block_mut(case_b).terminator = Some(Terminator::Return(None));
    f.block_mut(default).terminator = Some(Terminator::Return(None));
    m.add_function(f);

    assert!(ConstProp.run(&mut m));
    match &m.functions[0].blocks[0].terminator {
        Some(Terminator::Branch(dest, _)) => assert_eq!(*dest, case_b),
        other => panic!("expected Branch, got {:?}", other),
    }
}

#[test]
fn switch_with_unmatched_const_selector_picks_default() {
    let mut m = Module::new("t".into(), TargetLayout::LP64);
    let mut f = Function::new("f".into(), vec![], IrType::Void);
    let case_a = f.create_block("a");
    let default = f.create_block("default");
    let sel_id = f.next_value_id();
    f.block_mut(f.entry).insts.push(Inst {
        id: sel_id,
        kind: InstKind::ConstInt(99, IntWidth::I32),
        ty: IrType::Int(IntWidth::I32),
        span: dummy_span(),
    });
    f.block_mut(f.entry).terminator = Some(Terminator::Switch {
        selector: sel_id,
        cases: vec![(1, case_a)],
        default,
    });
    f.block_mut(case_a).terminator = Some(Terminator::Return(None));
    f.block_mut(default).terminator = Some(Terminator::Return(None));
    m.add_function(f);

    assert!(ConstProp.run(&mut m));
    match &m.functions[0].blocks[0].terminator {
        Some(Terminator::Branch(dest, _)) => assert_eq!(*dest, default),
        other => panic!("expected Branch, got {:?}", other),
    }
}

#[test]
fn folded_condbranch_prunes_dead_block() {
    // entry { cond=const(true); cond_branch -> then or dead }
    // then { ret }
    // dead { ret }   // should be removed
    let mut m = Module::new("t".into(), TargetLayout::LP64);
    let mut f = Function::new("f".into(), vec![], IrType::Void);
    let bb_t = f.create_block("then");
    let bb_d = f.create_block("dead");
    let cond_id = f.next_value_id();
    f.block_mut(f.entry).insts.push(Inst {
        id: cond_id,
        kind: InstKind::ConstBool(true),
        ty: IrType::Bool,
        span: dummy_span(),
    });
    f.block_mut(f.entry).terminator = Some(Terminator::CondBranch {
        cond: cond_id,
        true_dest: bb_t,
        true_args: vec![],
        false_dest: bb_d,
        false_args: vec![],
    });
    f.block_mut(bb_t).terminator = Some(Terminator::Return(None));
    f.block_mut(bb_d).terminator = Some(Terminator::Return(None));
    m.add_function(f);

    assert!(ConstProp.run(&mut m));
    let f = &m.functions[0];
    assert_eq!(f.blocks.len(), 2, "dead block should be pruned");
    assert!(f.blocks.iter().any(|b| b.id == bb_t));
    assert!(!f.blocks.iter().any(|b| b.id == bb_d));
}

#[test]
fn condbranch_with_unknown_cond_left_alone() {
    // Operand is not a constant — must not transform.
    let mut m = Module::new("t".into(), TargetLayout::LP64);
    let params = vec![Param {
        name: "p".into(),
        ty: IrType::Bool,
        id: ValueId(0),
        fortran_noalias: false,
    }];
    let mut f = Function::new("f".into(), params, IrType::Void);
    let bb_t = f.create_block("then");
    let bb_e = f.create_block("else");
    f.block_mut(f.entry).terminator = Some(Terminator::CondBranch {
        cond: ValueId(0),
        true_dest: bb_t,
        true_args: vec![],
        false_dest: bb_e,
        false_args: vec![],
    });
    f.block_mut(bb_t).terminator = Some(Terminator::Return(None));
    f.block_mut(bb_e).terminator = Some(Terminator::Return(None));
    m.add_function(f);

    assert!(!ConstProp.run(&mut m));
    assert!(matches!(
        m.functions[0].blocks[0].terminator,
        Some(Terminator::CondBranch { .. })
    ));
}
